//! Disks as device files: byte-wise reads and writes, and their ioctls.

use crate::block::{block_end, block_start, read_range, same_device, same_outside, splice,
    write_range, BlockDeviceIO};
use crate::errno::{fail, EFAULT, ENOTTY};
use vstd::prelude::*;

verus! {

/// Returns the number of 512-byte sectors.
pub const BLKGETSIZE: u64 = 0x1260;

/// Returns the sector size in bytes.
pub const BLKSSZGET: u64 = 0x1268;

/// Returns the size in bytes.
pub const BLKGETSIZE64: u64 = 0x8008_1272;

/// Block size and block count of a device that is there and holds blocks.
pub open spec fn geometry_of<D: BlockDeviceIO>(dev: &Option<D>) -> Option<(nat, nat)> {
    match dev {
        Some(d) => if d.bs() == 0 || d.count() == 0 {
            None
        } else {
            Some((d.bs(), d.count()))
        },
        None => None,
    }
}

/// The size in bytes, where it is a `usize`.
pub open spec fn size_of_disk<D: BlockDeviceIO>(dev: &Option<D>) -> Option<nat> {
    match geometry_of(dev) {
        Some(g) => if g.0 * g.1 <= usize::MAX {
            Some(g.0 * g.1)
        } else {
            None
        },
        None => None,
    }
}

pub open spec fn disk_wf<D: BlockDeviceIO>(dev: &Option<D>) -> bool {
    dev matches Some(d) ==> d.wf()
}

/// Whether `b` is `a` after operations that change nothing on it.
pub open spec fn same_disk<D: BlockDeviceIO>(a: &Option<D>, b: &Option<D>) -> bool {
    match a {
        Some(x) => b matches Some(y) && same_device(x, &y),
        None => b is None,
    }
}

/// Block size and block count.
pub fn disk_geometry<D: BlockDeviceIO>(dev: &Option<D>) -> (r: Option<(usize, usize)>)
    requires
        disk_wf(dev),
    ensures
        match r {
            Some(g) => geometry_of(dev) == Some((g.0 as nat, g.1 as nat)),
            None => geometry_of(dev) is None,
        },
{
    match dev {
        Some(d) => {
            let block_size: usize = d.block_size();
            let block_count: usize = d.block_count();
            if block_size == 0 || block_count == 0 {
                None
            } else {
                Some((block_size, block_count))
            }
        },
        None => None,
    }
}

/// The size in bytes.
pub fn disk_size_bytes<D: BlockDeviceIO>(dev: &Option<D>) -> (r: Option<usize>)
    requires
        disk_wf(dev),
    ensures
        match r {
            Some(n) => size_of_disk(dev) == Some(n as nat),
            None => size_of_disk(dev) is None,
        },
{
    match disk_geometry(dev) {
        Some(g) => g.0.checked_mul(g.1),
        None => None,
    }
}

/// The hard disk.
pub struct Disk0;

/// The USB disk.
pub struct Disk1;

/// The optical drive.
pub struct Cdrom0;

/// What a device ioctl returns, and what it stores at its argument.
#[derive(Debug, Clone, Copy, PartialEq, Eq, Structural)]
pub enum IoctlReply {
    /// Returns the code and stores nothing.
    Code(i64),
    /// Stores a 32-bit number and returns zero.
    Int32(i32),
    /// Stores a 64-bit number and returns zero.
    Int64(u64),
}

/// Whether a buffer that held `before` holds the bytes from `offset` on up to the end of a
/// block before the `n` bytes that were asked for are there, and what it held behind them.
pub open spec fn partly_read(
    bytes: Seq<u8>,
    bs: int,
    offset: int,
    n: int,
    before: Seq<u8>,
    after: Seq<u8>,
) -> bool {
    exists|k: int|
        0 <= k < n && (k == 0 || (offset + k) % bs == 0) && after == #[trigger] bytes.subrange(
            offset,
            offset + k,
        ) + before.skip(k)
}

/// What reading at `offset` into a buffer that held `before` gives.
pub open spec fn read_result<D: BlockDeviceIO>(
    dev: &Option<D>,
    offset: int,
    before: Seq<u8>,
    r: Result<usize, ()>,
    after: Seq<u8>,
) -> bool {
    if before.len() == 0 {
        r == Ok::<usize, ()>(0) && after == before
    } else {
        match size_of_disk(dev) {
            None => r is Err && after == before,
            Some(size) => if offset >= size {
                r == Ok::<usize, ()>(0) && after == before
            } else {
                let n = if before.len() < size - offset {
                    before.len() as int
                } else {
                    size - offset
                };
                match r {
                    Ok(k) => k == n && after == dev->0.bytes().subrange(offset, offset + n)
                        + before.skip(n),
                    Err(_) => !dev->0.serves() && partly_read(
                        dev->0.bytes(),
                        dev->0.bs() as int,
                        offset,
                        n,
                        before,
                        after,
                    ),
                }
            },
        }
    }
}

/// What writing `data` at `offset` gives.
pub open spec fn write_result<D: BlockDeviceIO>(
    before: &Option<D>,
    offset: int,
    data: Seq<u8>,
    r: Result<(), ()>,
    after: &Option<D>,
) -> bool {
    if data.len() == 0 {
        r is Ok && *after == *before
    } else if size_of_disk(before) is None || offset + data.len() > size_of_disk(before)->0 {
        r is Err && *after == *before
    } else {
        let a = before->0;
        let b = after->0;
        &&& after is Some
        &&& b.wf()
        &&& b.bs() == a.bs()
        &&& b.count() == a.count()
        &&& b.serves() == a.serves()
        &&& match r {
            Ok(_) => b.bytes() == splice(a.bytes(), offset, data),
            Err(_) => {
                let lo = block_start(offset, a.bs() as int);
                let hi = block_end(offset + data.len(), a.bs() as int);
                !a.serves() && same_outside(a.bytes(), b.bytes(), lo, hi - lo)
            },
        }
    }
}

/// A piece that is not the last one ends where a block ends.
proof fn lemma_piece_ends(pos: int, left: int, bs: int, take: int)
    requires
        bs > 0,
        pos >= 0,
        0 < take < left,
        take == if pos % bs == 0 && left >= bs {
            left - left % bs
        } else if left < bs - pos % bs {
            left
        } else {
            bs - pos % bs
        },
    ensures
        (pos + take) % bs == 0,
{
    vstd::arithmetic::div_mod::lemma_fundamental_div_mod(pos, bs);
    vstd::arithmetic::div_mod::lemma_fundamental_div_mod(left, bs);
    let q = pos / bs;
    if pos % bs == 0 && left >= bs {
        let m = left / bs;
        assert(pos + take == bs * (q + m)) by (nonlinear_arith)
            requires
                pos == bs * q,
                take == bs * m,
        ;
        vstd::arithmetic::div_mod::lemma_mod_multiples_basic(q + m, bs);
        assert((q + m) * bs == bs * (q + m)) by (nonlinear_arith);
    } else {
        assert(pos + take == bs * (q + 1)) by (nonlinear_arith)
            requires
                pos + take == bs * q + bs,
        ;
        vstd::arithmetic::div_mod::lemma_mod_multiples_basic(q + 1, bs);
        assert((q + 1) * bs == bs * (q + 1)) by (nonlinear_arith);
    }
}

/// Reads `count` bytes from byte `offset` on into the front of `buf`, a block or a run of
/// blocks at a time.
fn read_pieces<D: BlockDeviceIO>(d: &mut D, offset: usize, count: usize, buf: &mut [u8]) -> (r: Result<(), ()>)
    requires
        old(d).wf(),
        old(d).bs() > 0,
        count <= old(buf)@.len(),
        offset + count <= old(d).bytes().len() <= usize::MAX,
    ensures
        final(d).wf(),
        final(d).bytes() == old(d).bytes(),
        final(d).bs() == old(d).bs(),
        final(d).count() == old(d).count(),
        final(d).serves() == old(d).serves(),
        match r {
            Ok(_) => final(buf)@ == old(d).bytes().subrange(offset as int, offset + count) + old(buf)@.skip(
                count as int,
            ),
            Err(_) => !old(d).serves() && partly_read(
                old(d).bytes(),
                old(d).bs() as int,
                offset as int,
                count as int,
                old(buf)@,
                final(buf)@,
            ),
        },
{
    let bs: usize = d.block_size();
    let ghost bytes = d.bytes();
    let ghost before = buf@;
    let mut done: usize = 0;
    proof {
        assert(buf@ =~= bytes.subrange(offset as int, offset + 0) + before.skip(0));
    }
    while done < count
        invariant
            d.wf(),
            d.bytes() == bytes,
            bytes == old(d).bytes(),
            d.bs() == bs,
            bs == old(d).bs(),
            d.count() == old(d).count(),
            d.serves() == old(d).serves(),
            bs > 0,
            before == old(buf)@,
            done <= count <= before.len() == buf@.len(),
            offset + count <= bytes.len() <= usize::MAX,
            done == 0 || done == count || (offset + done) % bs as int == 0,
            buf@ == bytes.subrange(offset as int, offset + done) + before.skip(done as int),
        decreases count - done,
    {
        let pos: usize = offset + done;
        let left: usize = count - done;
        let off: usize = pos % bs;
        let take: usize = if off == 0 && left >= bs {
            left - left % bs
        } else if left < bs - off {
            left
        } else {
            bs - off
        };
        proof {
            if take < left {
                lemma_piece_ends(pos as int, left as int, bs as int, take as int);
            }
        }
        let data: Vec<u8> = match read_range(d, pos as u64, take) {
            Ok(v) => v,
            Err(_) => {
                proof {
                    assert(partly_read(
                        bytes,
                        bs as int,
                        offset as int,
                        count as int,
                        before,
                        buf@,
                    ));
                }
                return Err(());
            },
        };
        let mut i: usize = 0;
        while i < take
            invariant
                i <= take == data@.len(),
                pos == offset + done,
                done + take <= count <= before.len() == buf@.len(),
                offset + count <= bytes.len() <= usize::MAX,
                data@ == bytes.subrange(pos as int, pos + take),
                buf@ == bytes.subrange(offset as int, offset + done + i) + before.skip(
                    done + i,
                ),
            decreases take - i,
        {
            buf[done + i] = data[i];
            i = i + 1;
            proof {
                assert(buf@ =~= bytes.subrange(offset as int, offset + done + i) + before.skip(
                    done + i,
                ));
            }
        }
        done = done + take;
    }
    Ok(())
}

/// Reads from byte `offset` on, as much as there is and as `buf` takes.
fn read_disk<D: BlockDeviceIO>(dev: &mut Option<D>, offset: usize, buf: &mut [u8]) -> (r: Result<
    usize,
    (),
>)
    requires
        disk_wf(old(dev)),
    ensures
        disk_wf(final(dev)),
        same_disk(old(dev), final(dev)),
        read_result(old(dev), offset as int, old(buf)@, r, final(buf)@),
{
    if buf.len() == 0 {
        return Ok(0);
    }
    let size: usize = match disk_size_bytes(dev) {
        Some(n) => n,
        None => return Err(()),
    };
    if offset >= size {
        return Ok(0);
    }
    let count: usize = if buf.len() < size - offset {
        buf.len()
    } else {
        size - offset
    };
    match dev {
        Some(d) => {
            proof {
                d.lemma_geometry();
            }
            match read_pieces(d, offset, count, buf) {
                Ok(_) => {},
                Err(_) => return Err(()),
            }
            Ok(count)
        },
        None => Err(()),
    }
}

/// Writes `data` from byte `offset` on.
fn write_disk<D: BlockDeviceIO>(dev: &mut Option<D>, offset: usize, data: &[u8]) -> (r: Result<
    (),
    (),
>)
    requires
        disk_wf(old(dev)),
    ensures
        disk_wf(final(dev)),
        write_result(old(dev), offset as int, data@, r, final(dev)),
{
    if data.len() == 0 {
        return Ok(());
    }
    let size: usize = match disk_size_bytes(dev) {
        Some(n) => n,
        None => return Err(()),
    };
    let end: usize = match offset.checked_add(data.len()) {
        Some(n) => n,
        None => return Err(()),
    };
    if end > size {
        return Err(());
    }
    match dev {
        Some(d) => {
            proof {
                d.lemma_geometry();
            }
            write_range(d, offset as u64, data)
        },
        None => Err(()),
    }
}

/// What an ioctl on a disk does.
pub open spec fn disk_ioctl<D: BlockDeviceIO>(dev: &Option<D>, cmd: u64, arg: usize) -> IoctlReply {
    match size_of_disk(dev) {
        None => IoctlReply::Code(fail(ENOTTY)),
        Some(size) => if cmd != BLKSSZGET && cmd != BLKGETSIZE64 && cmd != BLKGETSIZE {
            IoctlReply::Code(fail(ENOTTY))
        } else if arg == 0 {
            IoctlReply::Code(fail(EFAULT))
        } else if cmd == BLKSSZGET {
            IoctlReply::Int32((geometry_of(dev)->0).0 as i32)
        } else if cmd == BLKGETSIZE64 {
            IoctlReply::Int64(size as u64)
        } else {
            IoctlReply::Int64((size / 512) as u64)
        },
    }
}

fn ioctl_disk<D: BlockDeviceIO>(dev: &Option<D>, cmd: u64, arg: usize) -> (r: IoctlReply)
    requires
        disk_wf(dev),
    ensures
        r == disk_ioctl(dev, cmd, arg),
{
    let g: (usize, usize) = match disk_geometry(dev) {
        Some(v) => v,
        None => return IoctlReply::Code(fail(ENOTTY)),
    };
    let size: u64 = match g.0.checked_mul(g.1) {
        Some(v) => v as u64,
        None => return IoctlReply::Code(fail(ENOTTY)),
    };
    if cmd != BLKSSZGET && cmd != BLKGETSIZE64 && cmd != BLKGETSIZE {
        return IoctlReply::Code(fail(ENOTTY));
    }
    if arg == 0 {
        return IoctlReply::Code(fail(EFAULT));
    }
    if cmd == BLKSSZGET {
        IoctlReply::Int32(#[verifier::truncate] (g.0 as i32))
    } else if cmd == BLKGETSIZE64 {
        IoctlReply::Int64(size)
    } else {
        IoctlReply::Int64(size / 512)
    }
}

impl Disk0 {
    /// Reads from byte `offset` on, as much as there is and as `buf` takes.
    pub fn read<D: BlockDeviceIO>(&self, dev: &mut Option<D>, offset: usize, buf: &mut [u8]) -> (r:
        Result<usize, ()>)
        requires
            disk_wf(old(dev)),
        ensures
            disk_wf(final(dev)),
            same_disk(old(dev), final(dev)),
            read_result(old(dev), offset as int, old(buf)@, r, final(buf)@),
    {
        read_disk(dev, offset, buf)
    }

    /// Writes `data` from byte `offset` on.
    pub fn write<D: BlockDeviceIO>(&self, dev: &mut Option<D>, offset: usize, data: &[u8]) -> (r:
        Result<(), ()>)
        requires
            disk_wf(old(dev)),
        ensures
            disk_wf(final(dev)),
            write_result(old(dev), offset as int, data@, r, final(dev)),
    {
        write_disk(dev, offset, data)
    }

    /// Answers a device ioctl.
    pub fn ioctl<D: BlockDeviceIO>(&self, dev: &Option<D>, cmd: u64, arg: usize) -> (r: IoctlReply)
        requires
            disk_wf(dev),
        ensures
            r == disk_ioctl(dev, cmd, arg),
    {
        ioctl_disk(dev, cmd, arg)
    }
}

impl Disk1 {
    /// Reads from byte `offset` on, as much as there is and as `buf` takes.
    pub fn read<D: BlockDeviceIO>(&self, dev: &mut Option<D>, offset: usize, buf: &mut [u8]) -> (r:
        Result<usize, ()>)
        requires
            disk_wf(old(dev)),
        ensures
            disk_wf(final(dev)),
            same_disk(old(dev), final(dev)),
            read_result(old(dev), offset as int, old(buf)@, r, final(buf)@),
    {
        read_disk(dev, offset, buf)
    }

    /// Writes `data` from byte `offset` on.
    pub fn write<D: BlockDeviceIO>(&self, dev: &mut Option<D>, offset: usize, data: &[u8]) -> (r:
        Result<(), ()>)
        requires
            disk_wf(old(dev)),
        ensures
            disk_wf(final(dev)),
            write_result(old(dev), offset as int, data@, r, final(dev)),
    {
        write_disk(dev, offset, data)
    }

    /// Answers a device ioctl.
    pub fn ioctl<D: BlockDeviceIO>(&self, dev: &Option<D>, cmd: u64, arg: usize) -> (r: IoctlReply)
        requires
            disk_wf(dev),
        ensures
            r == disk_ioctl(dev, cmd, arg),
    {
        ioctl_disk(dev, cmd, arg)
    }
}

impl Cdrom0 {
    /// Reads from byte `offset` on, as much as there is and as `buf` takes.
    pub fn read<D: BlockDeviceIO>(&self, dev: &mut Option<D>, offset: usize, buf: &mut [u8]) -> (r:
        Result<usize, ()>)
        requires
            disk_wf(old(dev)),
        ensures
            disk_wf(final(dev)),
            same_disk(old(dev), final(dev)),
            read_result(old(dev), offset as int, old(buf)@, r, final(buf)@),
    {
        read_disk(dev, offset, buf)
    }

    /// The medium cannot be written.
    pub fn write(&self, _offset: usize, _data: &[u8]) -> (r: Result<(), ()>)
        ensures
            r is Err,
    {
        Err(())
    }

    /// Answers a device ioctl: the argument is checked before the command.
    pub fn ioctl<D: BlockDeviceIO>(&self, dev: &Option<D>, cmd: u64, arg: usize) -> (r: IoctlReply)
        requires
            disk_wf(dev),
        ensures
            r == if size_of_disk(dev) is Some && arg == 0 {
                IoctlReply::Code(fail(EFAULT))
            } else {
                disk_ioctl(dev, cmd, arg)
            },
    {
        if arg == 0 && disk_size_bytes(dev).is_some() {
            return IoctlReply::Code(fail(EFAULT));
        }
        ioctl_disk(dev, cmd, arg)
    }
}

} // verus!
