//! Block devices: the interface that the file systems read and write through,
//! and a device held in memory.

use crate::bytes::{cut, push_all};
use vstd::prelude::*;

verus! {

/// `s` with the bytes from `at` on replaced by `d`.
pub open spec fn splice(s: Seq<u8>, at: int, d: Seq<u8>) -> Seq<u8> {
    s.take(at) + d + s.skip(at + d.len())
}

/// Whether `a` and `b` agree everywhere but in the `n` bytes from `at` on.
pub open spec fn same_outside(a: Seq<u8>, b: Seq<u8>, at: int, n: int) -> bool {
    &&& a.len() == b.len()
    &&& forall|i: int| 0 <= i < a.len() && !(at <= i < at + n) ==> a[i] == b[i]
}

/// A device that holds `count` blocks of `bs` bytes.
pub trait BlockDeviceIO: Sized {
    /// What the device holds, block after block.
    spec fn bytes(&self) -> Seq<u8>;

    /// The size of one block.
    spec fn bs(&self) -> nat;

    /// The number of blocks.
    spec fn count(&self) -> nat;

    /// Whether every request for blocks that exist is carried out.
    spec fn serves(&self) -> bool;

    /// Block addresses have 32 bits, byte offsets 64, and the blocks make up the
    /// contents.
    spec fn wf(&self) -> bool;

    proof fn lemma_geometry(&self)
        requires
            self.wf(),
        ensures
            self.bytes().len() == self.bs() * self.count(),
            self.count() <= 0x1_0000_0000,
            self.bytes().len() <= u64::MAX,
    ;

    fn block_size(&self) -> (r: usize)
        requires
            self.wf(),
        ensures
            r == self.bs(),
    ;

    fn block_count(&self) -> (r: usize)
        requires
            self.wf(),
        ensures
            r == self.count(),
    ;

    /// Reads `n` blocks from block `addr` on.
    fn read_blocks(&mut self, addr: u32, n: usize) -> (r: Result<Vec<u8>, ()>)
        requires
            old(self).wf(),
        ensures
            final(self).wf(),
            final(self).bytes() == old(self).bytes(),
            final(self).bs() == old(self).bs(),
            final(self).count() == old(self).count(),
            final(self).serves() == old(self).serves(),
            match r {
                Ok(b) => addr + n <= old(self).count() && b@ == old(self).bytes().subrange(
                    addr * old(self).bs() as int,
                    (addr + n) * old(self).bs() as int,
                ),
                Err(_) => !(old(self).serves() && addr + n <= old(self).count()),
            },
    ;

    /// Writes `data`, a whole number of blocks, from block `addr` on.
    fn write_blocks(&mut self, addr: u32, data: &[u8]) -> (r: Result<(), ()>)
        requires
            old(self).wf(),
            old(self).bs() > 0,
            data@.len() % old(self).bs() == 0,
        ensures
            final(self).wf(),
            final(self).bs() == old(self).bs(),
            final(self).count() == old(self).count(),
            final(self).serves() == old(self).serves(),
            match r {
                Ok(_) => {
                    &&& addr * old(self).bs() + data@.len() <= old(self).bytes().len()
                    &&& final(self).bytes() == splice(
                        old(self).bytes(),
                        addr * old(self).bs() as int,
                        data@,
                    )
                },
                Err(_) => {
                    &&& !(old(self).serves() && addr * old(self).bs() + data@.len() <= old(
                        self,
                    ).bytes().len())
                    &&& same_outside(
                        old(self).bytes(),
                        final(self).bytes(),
                        addr * old(self).bs() as int,
                        data@.len() as int,
                    )
                },
            },
    ;
}

/// The bytes of block `addr`.
pub open spec fn block_of<D: BlockDeviceIO>(dev: &D, addr: int) -> Seq<u8> {
    dev.bytes().subrange(addr * dev.bs(), (addr + 1) * dev.bs())
}

/// A block device in memory.
pub struct RamDisk {
    data: Vec<u8>,
    block_size: usize,
}

impl RamDisk {
    /// A device with the given contents.
    pub fn new(data: Vec<u8>, block_size: usize) -> (r: Self)
        requires
            block_size > 0,
            data@.len() % block_size as nat == 0,
            data@.len() / block_size as nat <= 0x1_0000_0000,
        ensures
            r.wf(),
            r.bytes() == data@,
            r.bs() == block_size,
            r.count() == data@.len() / block_size as nat,
            r.serves(),
    {
        proof {
            vstd::arithmetic::div_mod::lemma_fundamental_div_mod(
                data@.len() as int,
                block_size as int,
            );
        }
        RamDisk { data, block_size }
    }

    /// The contents.
    pub fn contents(&self) -> (r: &Vec<u8>)
        ensures
            r@ == self.bytes(),
    {
        &self.data
    }
}

impl BlockDeviceIO for RamDisk {
    closed spec fn bytes(&self) -> Seq<u8> {
        self.data@
    }

    closed spec fn bs(&self) -> nat {
        self.block_size as nat
    }

    closed spec fn count(&self) -> nat {
        self.data@.len() / self.block_size as nat
    }

    open spec fn serves(&self) -> bool {
        true
    }

    closed spec fn wf(&self) -> bool {
        &&& self.block_size > 0
        &&& self.data@.len() == self.block_size * (self.data@.len() / self.block_size as nat)
        &&& self.data@.len() / self.block_size as nat <= 0x1_0000_0000
    }

    proof fn lemma_geometry(&self) {
        assert(self.data.len() <= u64::MAX);
    }

    fn block_size(&self) -> (r: usize) {
        self.block_size
    }

    fn block_count(&self) -> (r: usize) {
        self.data.len() / self.block_size
    }

    fn read_blocks(&mut self, addr: u32, n: usize) -> (r: Result<Vec<u8>, ()>) {
        let count: usize = self.data.len() / self.block_size;
        if addr as usize > count || n > count - addr as usize {
            return Err(());
        }
        proof {
            let bs = self.block_size as int;
            let total = self.data@.len() as int;
            assert(0 <= addr * bs <= (addr + n) * bs <= bs * count) by (nonlinear_arith)
                requires
                    0 < bs,
                    0 <= addr,
                    0 <= n,
                    addr + n <= count,
            ;
            assert(self.data@.len() == bs * count);
        }
        Ok(cut(&self.data, addr as usize * self.block_size, (addr as usize + n) * self.block_size))
    }

    fn write_blocks(&mut self, addr: u32, data: &[u8]) -> (r: Result<(), ()>) {
        let count: usize = self.data.len() / self.block_size;
        let n: usize = data.len() / self.block_size;
        let ghost bs = self.block_size as int;
        proof {
            vstd::arithmetic::div_mod::lemma_fundamental_div_mod(data@.len() as int, bs);
            assert(data@.len() == bs * n);
        }
        if addr as usize > count || n > count - addr as usize {
            proof {
                assert(addr * bs + bs * n > bs * count) by (nonlinear_arith)
                    requires
                        0 < bs,
                        addr + n > count,
                ;
            }
            return Err(());
        }
        proof {
            assert(0 <= addr * bs && addr * bs + bs * n <= bs * count) by (nonlinear_arith)
                requires
                    0 < bs,
                    0 <= addr,
                    0 <= n,
                    addr + n <= count,
            ;
        }
        let at: usize = addr as usize * self.block_size;
        let total: usize = self.data.len();
        let mut out: Vec<u8> = cut(&self.data, 0, at);
        push_all(&mut out, data);
        let rest: Vec<u8> = cut(&self.data, at + data.len(), total);
        push_all(&mut out, &rest);
        proof {
            assert(out@ =~= splice(self.data@, at as int, data@));
        }
        self.data = out;
        Ok(())
    }
}

/// Reading back what was written gives the bytes written, and nothing else has
/// changed.
pub proof fn lemma_splice(s: Seq<u8>, at: int, d: Seq<u8>)
    requires
        0 <= at,
        at + d.len() <= s.len(),
    ensures
        splice(s, at, d).len() == s.len(),
        splice(s, at, d).subrange(at, at + d.len()) == d,
        same_outside(s, splice(s, at, d), at, d.len() as int),
        forall|a: int, b: int|
            0 <= a <= b <= s.len() && (b <= at || at + d.len() <= a) ==> #[trigger] splice(
                s,
                at,
                d,
            ).subrange(a, b) == s.subrange(a, b),
{
    let t = splice(s, at, d);
    assert(t.subrange(at, at + d.len()) =~= d);
    assert forall|a: int, b: int|
        0 <= a <= b <= s.len() && (b <= at || at + d.len() <= a) implies #[trigger] t.subrange(
        a,
        b,
    ) == s.subrange(a, b) by {
        assert(t.subrange(a, b) =~= s.subrange(a, b));
    }
}

/// Whether `b` is `a` after operations that change nothing on it.
pub open spec fn same_device<D: BlockDeviceIO>(a: &D, b: &D) -> bool {
    &&& b.wf()
    &&& b.bytes() == a.bytes()
    &&& b.bs() == a.bs()
    &&& b.count() == a.count()
    &&& b.serves() == a.serves()
}

/// The `k` blocks from block `block` on.
fn read_run<D: BlockDeviceIO>(dev: &mut D, block: u64, k: usize) -> (r: Result<Vec<u8>, ()>)
    requires
        old(dev).wf(),
        old(dev).bs() > 0,
        block + k <= old(dev).count(),
        k > 0,
    ensures
        final(dev).wf(),
        final(dev).bytes() == old(dev).bytes(),
        final(dev).bs() == old(dev).bs(),
        final(dev).count() == old(dev).count(),
        final(dev).serves() == old(dev).serves(),
        match r {
            Ok(v) => {
                &&& old(dev).bs() * block + old(dev).bs() * k <= old(dev).bytes().len()
                &&& v@.len() == old(dev).bs() * k
                &&& v@ == old(dev).bytes().subrange(
                    old(dev).bs() * block,
                    old(dev).bs() * block + old(dev).bs() * k,
                )
                &&& k == 1 ==> v@.len() == old(dev).bs() && v@ == old(dev).bytes().subrange(
                    old(dev).bs() * block,
                    old(dev).bs() * block + old(dev).bs(),
                )
            },
            Err(_) => !old(dev).serves(),
        },
{
    proof {
        dev.lemma_geometry();
        let bs = dev.bs() as int;
        let count = dev.count() as int;
        assert(bs * block + bs * k == (block + k) * bs) by (nonlinear_arith);
        assert((block + k) * bs <= bs * count) by (nonlinear_arith)
            requires
                bs > 0,
                block + k <= count,
        ;
        assert(bs * block == block * bs) by (nonlinear_arith);
        assert(k == 1 ==> bs * k == bs) by (nonlinear_arith);
        assert(0 <= bs * block && 0 <= bs * k) by (nonlinear_arith)
            requires
                bs > 0,
                block >= 0,
                k >= 0,
        ;
    }
    dev.read_blocks(block as u32, k)
}

/// The `n` bytes from byte `offset` on.
pub fn read_range<D: BlockDeviceIO>(dev: &mut D, offset: u64, n: usize) -> (r: Result<Vec<u8>, ()>)
    requires
        old(dev).wf(),
    ensures
        final(dev).wf(),
        final(dev).bytes() == old(dev).bytes(),
        final(dev).bs() == old(dev).bs(),
        final(dev).count() == old(dev).count(),
        final(dev).serves() == old(dev).serves(),
        match r {
            Ok(v) => {
                &&& v@.len() == n
                &&& n > 0 ==> {
                    &&& offset + n <= old(dev).bytes().len()
                    &&& v@ == old(dev).bytes().subrange(offset as int, offset + n)
                }
            },
            Err(_) => n > 0 && !(old(dev).serves() && offset + n <= old(dev).bytes().len()),
        },
{
    let mut out: Vec<u8> = Vec::new();
    if n == 0 {
        return Ok(out);
    }
    let ghost all = dev.bytes();
    proof {
        dev.lemma_geometry();
    }
    let block_size: usize = dev.block_size();
    let block_count: u64 = dev.block_count() as u64;
    if block_size == 0 {
        proof {
            assert(0 * dev.count() == 0) by (nonlinear_arith);
        }
        return Err(());
    }
    let bs: u64 = block_size as u64;
    let last_byte: u64 = match offset.checked_add(n as u64) {
        Some(v) => v,
        None => return Err(()),
    };
    let last_block: u64 = last_byte / bs;
    let partial: bool = last_byte % bs != 0;
    proof {
        lemma_cover(last_byte as int, bs as int, block_count as int);
        lemma_cover(offset as int, bs as int, block_count as int);
    }
    if last_block > block_count || (last_block == block_count && partial) {
        return Err(());
    }
    let mut block: u64 = offset / bs;
    let head: usize = (offset % bs) as usize;
    if head != 0 {
        let scratch: Vec<u8> = match read_run(dev, block, 1) {
            Ok(v) => v,
            Err(_) => return Err(()),
        };
        let count: usize = if block_size - head < n {
            block_size - head
        } else {
            n
        };
        out = cut(&scratch, head, head + count);
        proof {
            assert(out@ =~= all.subrange(offset as int, offset + count));
            assert(bs * (block + 1) == bs * block + bs) by (nonlinear_arith);
        }
        block = block + 1;
    }
    let ghost done = out@.len() as int;
    if out.len() < n {
        let rest: Vec<u8> = match read_aligned(dev, block, n - out.len()) {
            Ok(v) => v,
            Err(_) => return Err(()),
        };
        push_all(&mut out, &rest);
    }
    proof {
        assert(out@ =~= all.subrange(offset as int, offset + n));
    }
    Ok(out)
}

/// The `n` bytes from the start of block `block` on: whole blocks, then the start
/// of one more.
fn read_aligned<D: BlockDeviceIO>(dev: &mut D, block: u64, n: usize) -> (r: Result<Vec<u8>, ()>)
    requires
        old(dev).wf(),
        old(dev).bs() > 0,
        n > 0,
        old(dev).bs() * block + n <= old(dev).bytes().len(),
    ensures
        final(dev).wf(),
        final(dev).bytes() == old(dev).bytes(),
        final(dev).bs() == old(dev).bs(),
        final(dev).count() == old(dev).count(),
        final(dev).serves() == old(dev).serves(),
        match r {
            Ok(v) => v@.len() == n && v@ == old(dev).bytes().subrange(
                old(dev).bs() * block,
                old(dev).bs() * block + n,
            ),
            Err(_) => !old(dev).serves(),
        },
{
    let block_size: usize = dev.block_size();
    let ghost bs = block_size as int;
    let ghost all = dev.bytes();
    let ghost at = bs * block;
    let whole: usize = n / block_size;
    let mut out: Vec<u8> = Vec::new();
    proof {
        dev.lemma_geometry();
        vstd::arithmetic::div_mod::lemma_fundamental_div_mod(n as int, bs);
        assert(0 <= at) by (nonlinear_arith)
            requires
                0 < bs,
                block >= 0,
                at == bs * block,
        ;
        lemma_whole_blocks(bs, block as int, whole as int, dev.count() as int);
        assert(bs * (block + whole) == bs * block + bs * whole) by (nonlinear_arith);
    }
    let ghost mid = bs * whole;
    if whole != 0 {
        out = match read_run(dev, block, whole) {
            Ok(v) => v,
            Err(_) => return Err(()),
        };
    } else {
        proof {
            assert(mid == 0) by (nonlinear_arith)
                requires
                    mid == bs * whole,
                    whole == 0,
            ;
        }
    }
    proof {
        assert(out@ =~= all.subrange(at, at + mid));
    }
    let left: usize = n % block_size;
    if left != 0 {
        proof {
            lemma_below(bs, block + whole, dev.count() as int);
        }
        let scratch: Vec<u8> = match read_run(dev, block + whole as u64, 1) {
            Ok(v) => v,
            Err(_) => return Err(()),
        };
        let tail: Vec<u8> = cut(&scratch, 0, left);
        push_all(&mut out, &tail);
    }
    proof {
        assert(out@ =~= all.subrange(at, at + n));
    }
    Ok(out)
}

proof fn lemma_cover(x: int, bs: int, count: int)
    requires
        0 <= x,
        0 < bs,
        0 <= count,
    ensures
        x == bs * (x / bs) + x % bs,
        0 <= x % bs < bs,
        0 <= x / bs,
        x <= bs * count <==> (x / bs < count || (x / bs == count && x % bs == 0)),
        x < bs * count <==> x / bs < count,
{
    vstd::arithmetic::div_mod::lemma_fundamental_div_mod(x, bs);
    let q = x / bs;
    if q < count {
        assert(bs * q + bs <= bs * count) by (nonlinear_arith)
            requires
                0 < bs,
                q + 1 <= count,
        ;
    } else {
        assert(bs * q >= bs * count) by (nonlinear_arith)
            requires
                0 < bs,
                q >= count,
        ;
        if q > count {
            assert(bs * q >= bs * count + bs) by (nonlinear_arith)
                requires
                    0 < bs,
                    q >= count + 1,
            ;
        }
    }
    assert(0 <= q) by (nonlinear_arith)
        requires
            x == bs * q + x % bs,
            0 <= x,
            x % bs < bs,
            0 < bs,
    ;
}

proof fn lemma_whole_blocks(bs: int, block: int, k: int, count: int)
    requires
        0 < bs,
        bs * block + bs * k <= bs * count,
    ensures
        block + k <= count,
{
    assert(block + k <= count) by (nonlinear_arith)
        requires
            0 < bs,
            bs * block + bs * k <= bs * count,
    ;
}

proof fn lemma_below(bs: int, block: int, count: int)
    requires
        0 < bs,
        bs * block < bs * count,
    ensures
        block < count,
{
    assert(block < count) by (nonlinear_arith)
        requires
            0 < bs,
            bs * block < bs * count,
    ;
}

/// Writes whole blocks from block `block` on.
fn write_run<D: BlockDeviceIO>(dev: &mut D, block: u64, data: &[u8]) -> (r: Result<(), ()>)
    requires
        old(dev).wf(),
        old(dev).bs() > 0,
        data@.len() > 0,
        data@.len() % old(dev).bs() == 0,
        old(dev).bs() * block + data@.len() <= old(dev).bytes().len(),
    ensures
        final(dev).wf(),
        final(dev).bs() == old(dev).bs(),
        final(dev).count() == old(dev).count(),
        final(dev).serves() == old(dev).serves(),
        final(dev).bytes().len() == old(dev).bytes().len(),
        match r {
            Ok(_) => final(dev).bytes() == splice(
                old(dev).bytes(),
                old(dev).bs() * block,
                data@,
            ),
            Err(_) => !old(dev).serves() && same_outside(
                old(dev).bytes(),
                final(dev).bytes(),
                old(dev).bs() * block,
                data@.len() as int,
            ),
        },
{
    proof {
        dev.lemma_geometry();
        let bs = dev.bs() as int;
        lemma_below(bs, block as int, dev.count() as int);
        assert(bs * block == block * bs) by (nonlinear_arith);
        assert(0 <= bs * block) by (nonlinear_arith)
            requires
                bs > 0,
                block >= 0,
        ;
        lemma_splice(dev.bytes(), bs * block, data@);
    }
    dev.write_blocks(block as u32, data)
}

/// Replaces the bytes from `within` on of one block.
fn write_partial<D: BlockDeviceIO>(dev: &mut D, block: u64, within: usize, part: &[u8]) -> (r:
    Result<(), ()>)
    requires
        old(dev).wf(),
        part@.len() > 0,
        within + part@.len() <= old(dev).bs(),
        old(dev).bs() * block + old(dev).bs() <= old(dev).bytes().len(),
    ensures
        final(dev).wf(),
        final(dev).bs() == old(dev).bs(),
        final(dev).count() == old(dev).count(),
        final(dev).serves() == old(dev).serves(),
        final(dev).bytes().len() == old(dev).bytes().len(),
        match r {
            Ok(_) => final(dev).bytes() == splice(
                old(dev).bytes(),
                old(dev).bs() * block + within,
                part@,
            ),
            Err(_) => !old(dev).serves() && same_outside(
                old(dev).bytes(),
                final(dev).bytes(),
                old(dev).bs() * block,
                old(dev).bs() as int,
            ),
        },
{
    let block_size: usize = dev.block_size();
    let ghost now = dev.bytes();
    let ghost bs = block_size as int;
    proof {
        dev.lemma_geometry();
        lemma_below(bs, block as int, dev.count() as int);
        assert(0 <= bs * block) by (nonlinear_arith)
            requires
                bs > 0,
                block >= 0,
        ;
        assert(bs % bs == 0) by (nonlinear_arith)
            requires
                bs > 0,
        ;
    }
    let tmp: Vec<u8> = match read_run(dev, block, 1) {
        Ok(v) => v,
        Err(_) => return Err(()),
    };
    let mut fresh: Vec<u8> = cut(&tmp, 0, within);
    let rest: Vec<u8> = cut(&tmp, within + part.len(), block_size);
    push_all(&mut fresh, part);
    push_all(&mut fresh, &rest);
    proof {
        assert(fresh@.len() == bs);
        assert(splice(now, bs * block, fresh@) =~= splice(now, bs * block + within, part@));
    }
    write_run(dev, block, &fresh)
}

/// The first byte of the block that byte `at` lies in.
pub open spec fn block_start(at: int, bs: int) -> int {
    at - at % bs
}

/// The end of the block that the byte before `at` lies in.
pub open spec fn block_end(at: int, bs: int) -> int {
    block_start(at + bs - 1, bs)
}

/// Writes `data` from byte `offset` on. Blocks that are written in part are read,
/// changed and written back.
pub fn write_range<D: BlockDeviceIO>(dev: &mut D, offset: u64, data: &[u8]) -> (r: Result<(), ()>)
    requires
        old(dev).wf(),
        old(dev).bs() > 0,
        offset + data@.len() <= old(dev).bytes().len(),
    ensures
        final(dev).wf(),
        final(dev).bs() == old(dev).bs(),
        final(dev).count() == old(dev).count(),
        final(dev).serves() == old(dev).serves(),
        final(dev).bytes().len() == old(dev).bytes().len(),
        match r {
            Ok(_) => final(dev).bytes() == splice(old(dev).bytes(), offset as int, data@),
            Err(_) => {
                let lo = block_start(offset as int, old(dev).bs() as int);
                let hi = block_end(offset + data@.len(), old(dev).bs() as int);
                !old(dev).serves() && same_outside(
                    old(dev).bytes(),
                    final(dev).bytes(),
                    lo,
                    hi - lo,
                )
            },
        },
{
    let block_size: usize = dev.block_size();
    let ghost all = dev.bytes();
    let ghost bs = block_size as int;
    let ghost count = dev.count();
    let ghost serves = dev.serves();
    proof {
        dev.lemma_geometry();
        assert(splice(all, offset as int, data@.take(0)) =~= all);
    }
    let mut done: usize = 0;
    while done < data.len()
        invariant
            block_size > 0,
            bs == block_size,
            bs == dev.bs(),
            dev.wf(),
            count == dev.count(),
            serves == dev.serves(),
            all.len() <= u64::MAX,
            all.len() == bs * count,
            done <= data@.len(),
            offset + data@.len() <= all.len(),
            dev.bytes() == splice(all, offset as int, data@.take(done as int)),
            all == old(dev).bytes(),
            bs == old(dev).bs(),
            count == old(dev).count(),
            serves == old(dev).serves(),
        decreases data@.len() - done,
    {
        let pos: u64 = offset + done as u64;
        let block: u64 = pos / block_size as u64;
        let within: usize = (pos % block_size as u64) as usize;
        let remaining: usize = data.len() - done;
        let ghost now = dev.bytes();
        proof {
            lemma_cover(pos as int, bs, count as int);
            lemma_splice(all, offset as int, data@.take(done as int));
            lemma_range_blocks(
                offset as int,
                data@.len() as int,
                pos as int,
                block as int,
                bs,
                count as int,
            );
        }
        let chunk: Vec<u8>;
        if within == 0 && remaining >= block_size {
            proof {
                lemma_whole_part(remaining as int, bs);
            }
            let whole: usize = remaining - remaining % block_size;
            chunk = cut(data, done, done + whole);
            proof {
                lemma_range_blocks(
                    offset as int,
                    data@.len() as int,
                    pos + whole - 1,
                    (pos + whole - 1) / bs,
                    bs,
                    count as int,
                );
                lemma_aligned_end(pos as int, whole as int, bs);
            }
            match write_run(dev, block, &chunk) {
                Ok(_) => {},
                Err(_) => {
                    proof {
                        lemma_outside(
                            all,
                            now,
                            dev.bytes(),
                            offset as int,
                            data@.take(done as int),
                            bs * block,
                            whole as int,
                            block_start(offset as int, bs),
                            block_end(offset + data@.len(), bs),
                        );
                    }
                    return Err(());
                },
            }
        } else {
            let take: usize = if remaining < block_size - within {
                remaining
            } else {
                block_size - within
            };
            chunk = cut(data, done, done + take);
            match write_partial(dev, block, within, &chunk) {
                Ok(_) => {},
                Err(_) => {
                    proof {
                        lemma_outside(
                            all,
                            now,
                            dev.bytes(),
                            offset as int,
                            data@.take(done as int),
                            bs * block,
                            bs,
                            block_start(offset as int, bs),
                            block_end(offset + data@.len(), bs),
                        );
                    }
                    return Err(());
                },
            }
        }
        proof {
            lemma_splice_more(all, offset as int, data@, done as int, chunk@);
        }
        done = done + chunk.len();
    }
    proof {
        assert(data@.take(done as int) =~= data@);
    }
    Ok(())
}

proof fn lemma_whole_part(n: int, bs: int)
    requires
        0 < bs <= n,
    ensures
        0 <= n % bs < bs,
        0 < n - n % bs <= n,
        (n - n % bs) % bs == 0,
{
    vstd::arithmetic::div_mod::lemma_fundamental_div_mod(n, bs);
    let q = n / bs;
    assert(n - n % bs == bs * q);
    assert((bs * q) % bs == 0) by {
        vstd::arithmetic::div_mod::lemma_mod_multiples_basic(q, bs);
        assert(bs * q == q * bs) by (nonlinear_arith);
    }
}

/// The last byte of whole blocks is the last of its block.
proof fn lemma_aligned_end(pos: int, n: int, bs: int)
    requires
        0 < bs,
        0 <= pos,
        0 < n,
        pos % bs == 0,
        n % bs == 0,
    ensures
        bs * ((pos + n - 1) / bs) + bs == pos + n,
        bs * (pos / bs) == pos,
{
    lemma_cover(pos, bs, 0);
    lemma_cover(n, bs, 0);
    lemma_cover(pos + n - 1, bs, 0);
    let a = pos / bs;
    let b = n / bs;
    let e = (pos + n - 1) / bs;
    assert(e == a + b - 1) by (nonlinear_arith)
        requires
            0 < bs,
            pos == bs * a,
            n == bs * b,
            pos + n - 1 == bs * e + (pos + n - 1) % bs,
            0 <= (pos + n - 1) % bs < bs,
    ;
    assert(bs * (a + b - 1) + bs == bs * a + bs * b) by (nonlinear_arith);
}

proof fn lemma_splice_more(all: Seq<u8>, at: int, data: Seq<u8>, done: int, chunk: Seq<u8>)
    requires
        0 <= at,
        at + data.len() <= all.len(),
        0 <= done,
        done + chunk.len() <= data.len(),
        chunk == data.subrange(done, done + chunk.len()),
    ensures
        splice(splice(all, at, data.take(done)), at + done, chunk) == splice(
            all,
            at,
            data.take(done + chunk.len()),
        ),
{
    assert(splice(splice(all, at, data.take(done)), at + done, chunk) =~= splice(
        all,
        at,
        data.take(done + chunk.len()),
    ));
}

proof fn lemma_outside(
    all: Seq<u8>,
    now: Seq<u8>,
    after: Seq<u8>,
    at: int,
    written: Seq<u8>,
    from: int,
    n: int,
    lo: int,
    hi: int,
)
    requires
        0 <= lo <= at,
        at + written.len() <= hi,
        at + written.len() <= all.len(),
        now == splice(all, at, written),
        same_outside(now, after, from, n),
        lo <= from,
        from + n <= hi,
    ensures
        same_outside(all, after, lo, hi - lo),
{
    lemma_splice(all, at, written);
}

/// The block of a byte of a range lies within the blocks of the range.
proof fn lemma_range_blocks(at: int, n: int, pos: int, block: int, bs: int, count: int)
    requires
        0 < bs,
        0 <= at <= pos < at + n,
        at + n <= bs * count,
        0 <= count,
        block == pos / bs,
    ensures
        block_start(at, bs) <= bs * block <= pos < bs * block + bs <= block_end(at + n, bs),
        block_end(at + n, bs) <= bs * count,
        at + n <= block_end(at + n, bs),
        0 <= block_start(at, bs) <= at,
        0 <= block < count,
{
    lemma_cover(pos, bs, count);
    lemma_cover(at, bs, count);
    lemma_cover(at + n + bs - 1, bs, count);
    let a = at / bs;
    let e = (at + n + bs - 1) / bs;
    assert(a <= block && block + 1 <= e && e <= count) by (nonlinear_arith)
        requires
            0 < bs,
            at == bs * a + at % bs,
            0 <= at % bs < bs,
            pos == bs * block + pos % bs,
            0 <= pos % bs < bs,
            at + n + bs - 1 == bs * e + (at + n + bs - 1) % bs,
            0 <= (at + n + bs - 1) % bs < bs,
            at <= pos < at + n,
            at + n <= bs * count,
    ;
    assert(bs * a <= bs * block && bs * block + bs <= bs * e && bs * e <= bs * count)
        by (nonlinear_arith)
        requires
            0 < bs,
            a <= block,
            block + 1 <= e,
            e <= count,
    ;
}

} // verus!
