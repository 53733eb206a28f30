//! Access to the blocks of a volume, which lies somewhere on a device of 512-byte
//! sectors.

use crate::block::{lemma_splice, same_outside, splice, BlockDeviceIO};
use vstd::prelude::*;

verus! {

pub const FS_BLOCK_SIZE: usize = 2048;

pub const SECTOR_SIZE: u64 = 512;

/// Why a file operation failed.
#[derive(Debug, Clone, Copy, PartialEq, Eq, Structural)]
pub enum FsError {
    NotSupported,
    FileAlreadyExists,
    FileNotFound,
    InvalidPath,
    InvalidInode,
    FileNameTooLong,
    FileSizeTooLarge,
}

/// Why an allocation failed.
#[derive(Debug, Clone, Copy, PartialEq, Eq, Structural)]
pub enum TfsError {
    InvalidPath,
    FileNotFound,
    FileAlreadyExists,
    FileNameTooLong,
    NoSpaceLeft,
    IoError,
    InvalidInode,
    InvalidZone,
}

/// Where on its device a volume starts.
#[derive(Debug, Clone, Copy, PartialEq, Eq, Structural)]
pub struct BlockOffset {
    pub bytes: u64,
}

/// The byte that the volume starts at.
pub fn fs_block_offset_bytes(at: &BlockOffset) -> (r: u64)
    ensures
        r == at.bytes,
{
    at.bytes
}

/// Moves the start of the volume to a byte.
pub fn set_fs_block_offset_bytes(at: &mut BlockOffset, offset: u64)
    ensures
        *final(at) == (BlockOffset { bytes: offset }),
{
    at.bytes = offset;
}

/// Moves the start of the volume to a sector.
pub fn set_fs_block_offset_lba(at: &mut BlockOffset, start_lba: u32)
    ensures
        final(at).bytes == start_lba * 512,
{
    set_fs_block_offset_bytes(at, start_lba as u64 * SECTOR_SIZE);
}

/// The sector that the volume starts in.
pub fn fs_block_offset_sectors(at: &BlockOffset) -> (r: u64)
    ensures
        r == at.bytes / 512,
{
    fs_block_offset_bytes(at) / SECTOR_SIZE
}

/// `value`, or the largest `u32` where it is larger.
pub open spec fn saturated(value: u64) -> u32 {
    if value > u32::MAX {
        u32::MAX
    } else {
        value as u32
    }
}

/// `value`, or the largest `u32` where it is larger.
pub fn to_u32_saturating(value: u64) -> (r: u32)
    ensures
        r == saturated(value),
{
    if value > u32::MAX as u64 {
        u32::MAX
    } else {
        value as u32
    }
}

/// The byte of the device that block `b` of the volume starts at.
pub open spec fn block_at(at: BlockOffset, b: int) -> int {
    (at.bytes / 512) * 512 + b * 2048
}

/// How many whole blocks the device has from the start of the volume on.
pub open spec fn block_total(bytes: Seq<u8>, at: BlockOffset) -> int {
    if bytes.len() < (at.bytes / 512) * 512 {
        0
    } else {
        (bytes.len() - (at.bytes / 512) * 512) / 2048
    }
}

/// The blocks of the volume that starts at `at`.
pub open spec fn volume_blocks(bytes: Seq<u8>, at: BlockOffset) -> Seq<Seq<u8>> {
    Seq::new(
        block_total(bytes, at) as nat,
        |b: int| bytes.subrange(block_at(at, b), block_at(at, b) + 2048),
    )
}

/// The bytes of `n` blocks from block `b` on, one after another.
pub open spec fn run_of(blocks: Seq<Seq<u8>>, b: int, n: int) -> Seq<u8>
    decreases n,
{
    if n <= 0 {
        Seq::<u8>::empty()
    } else {
        run_of(blocks, b, n - 1) + blocks[b + n - 1]
    }
}

/// `blocks` with the blocks from `b` on replaced by the pieces of `data`.
pub open spec fn put_run(blocks: Seq<Seq<u8>>, b: int, data: Seq<u8>) -> Seq<Seq<u8>> {
    Seq::new(
        blocks.len(),
        |i: int|
            if b <= i < b + data.len() / 2048 {
                data.subrange((i - b) * 2048, (i - b) * 2048 + 2048)
            } else {
                blocks[i]
            },
    )
}

pub proof fn lemma_run_is_bytes(bytes: Seq<u8>, at: BlockOffset, b: int, n: int)
    requires
        0 <= b,
        0 < n,
        b + n <= block_total(bytes, at),
    ensures
        run_of(volume_blocks(bytes, at), b, n) == bytes.subrange(
            block_at(at, b),
            block_at(at, b + n),
        ),
    decreases n,
{
    reveal_with_fuel(run_of, 2);
    if n > 1 {
        lemma_run_is_bytes(bytes, at, b, n - 1);
    }
    assert(run_of(volume_blocks(bytes, at), b, n) =~= bytes.subrange(
        block_at(at, b),
        block_at(at, b + n),
    ));
}

pub proof fn lemma_put_run(bytes: Seq<u8>, at: BlockOffset, b: int, data: Seq<u8>)
    requires
        0 <= b,
        data.len() > 0,
        data.len() % 2048 == 0,
        b + data.len() / 2048 <= block_total(bytes, at),
    ensures
        block_at(at, b) + data.len() <= bytes.len(),
        volume_blocks(splice(bytes, block_at(at, b), data), at) == put_run(
            volume_blocks(bytes, at),
            b,
            data,
        ),
{
    let after = splice(bytes, block_at(at, b), data);
    lemma_splice(bytes, block_at(at, b), data);
    let x = volume_blocks(after, at);
    let y = put_run(volume_blocks(bytes, at), b, data);
    assert(x.len() == y.len());
    assert forall|i: int| 0 <= i < x.len() implies x[i] == y[i] by {
        assert(x[i] == after.subrange(block_at(at, i), block_at(at, i) + 2048));
        if b <= i < b + data.len() / 2048 {
            assert(x[i] =~= data.subrange((i - b) * 2048, (i - b) * 2048 + 2048));
        } else {
            assert(x[i] =~= bytes.subrange(block_at(at, i), block_at(at, i) + 2048));
        }
    }
    assert(x =~= y);
}

proof fn lemma_512(bs: int, n: int)
    requires
        bs == 512,
    ensures
        bs * n == 512 * n,
        n * bs == 512 * n,
{
}

/// Whether `dev` has the sectors that a volume is made of.
pub open spec fn sectors_wf<D: BlockDeviceIO>(dev: &D) -> bool {
    dev.wf() && dev.bs() == 512
}

/// Reads `n` blocks of the volume from block `start` on; to read none always succeeds.
pub fn read_tfs_blocks<D: BlockDeviceIO>(
    device: &mut D,
    at: &BlockOffset,
    start: u32,
    n: usize,
) -> (r: Result<Vec<u8>, FsError>)
    requires
        sectors_wf(old(device)),
        n <= usize::MAX / 4,
    ensures
        sectors_wf(final(device)),
        final(device).bytes() == old(device).bytes(),
        final(device).serves() == old(device).serves(),
        match r {
            Ok(v) => {
                &&& n > 0 ==> start + n <= block_total(old(device).bytes(), *at)
                &&& v@.len() == n * 2048
                &&& v@ == run_of(
                    volume_blocks(old(device).bytes(), *at),
                    start as int,
                    n as int,
                )
            },
            Err(e) => e == FsError::InvalidInode && n > 0 && !(old(device).serves() && start + n
                <= block_total(old(device).bytes(), *at)),
        },
{
    if n == 0 {
        return Ok(Vec::new());
    }
    let count: u64 = device.block_count() as u64;
    let sectors: u64 = fs_block_offset_sectors(at);
    proof {
        device.lemma_geometry();
        lemma_512(device.bs() as int, count as int);
        lemma_512(device.bs() as int, start * 4 + sectors);
        lemma_512(device.bs() as int, start * 4 + sectors + n * 4);
    }
    let first: u64 = start as u64 * 4;
    if sectors > count || first > count - sectors || n as u64 > (count - sectors - first) / 4 {
        return Err(FsError::InvalidInode);
    }
    proof {
        lemma_run_is_bytes(device.bytes(), *at, start as int, n as int);
    }
    match device.read_blocks((first + sectors) as u32, n * 4) {
        Ok(v) => Ok(v),
        Err(_) => Err(FsError::InvalidInode),
    }
}

/// Reads block `block_no` of the volume.
pub fn read_tfs_block<D: BlockDeviceIO>(device: &mut D, at: &BlockOffset, block_no: u32) -> (r:
    Result<Vec<u8>, FsError>)
    requires
        sectors_wf(old(device)),
    ensures
        sectors_wf(final(device)),
        final(device).bytes() == old(device).bytes(),
        final(device).serves() == old(device).serves(),
        match r {
            Ok(v) => {
                &&& block_no < block_total(old(device).bytes(), *at)
                &&& v@.len() == 2048
                &&& v@ == volume_blocks(old(device).bytes(), *at)[block_no as int]
            },
            Err(e) => e == FsError::InvalidInode && !(old(device).serves() && block_no
                < block_total(old(device).bytes(), *at)),
        },
{
    proof {
        let blocks = volume_blocks(device.bytes(), *at);
        reveal_with_fuel(run_of, 3);
        assert(Seq::<u8>::empty() + blocks[block_no as int] =~= blocks[block_no as int]);
    }
    read_tfs_blocks(device, at, block_no, 1)
}

/// Writes `data`, whole blocks, from block `start` of the volume on; to write none always
/// succeeds.
pub fn write_tfs_blocks<D: BlockDeviceIO>(
    device: &mut D,
    at: &BlockOffset,
    start: u32,
    data: &[u8],
) -> (r: Result<(), FsError>)
    requires
        sectors_wf(old(device)),
        data@.len() % 2048 == 0,
    ensures
        sectors_wf(final(device)),
        final(device).serves() == old(device).serves(),
        final(device).bytes().len() == old(device).bytes().len(),
        match r {
            Ok(_) => {
                &&& data@.len() > 0 ==> start + data@.len() / 2048 <= block_total(
                    old(device).bytes(),
                    *at,
                )
                &&& final(device).bytes() == if data@.len() == 0 {
                    old(device).bytes()
                } else {
                    splice(old(device).bytes(), block_at(*at, start as int), data@)
                }
                &&& volume_blocks(final(device).bytes(), *at) == put_run(
                    volume_blocks(old(device).bytes(), *at),
                    start as int,
                    data@,
                )
            },
            Err(e) => {
                &&& e == FsError::InvalidInode
                &&& data@.len() > 0
                &&& !(old(device).serves() && start + data@.len() / 2048 <= block_total(
                    old(device).bytes(),
                    *at,
                ))
                &&& if start + data@.len() / 2048 > block_total(old(device).bytes(), *at) {
                    final(device).bytes() == old(device).bytes()
                } else {
                    same_outside(
                        old(device).bytes(),
                        final(device).bytes(),
                        block_at(*at, start as int),
                        data@.len() as int,
                    )
                }
            },
        },
{
    if data.len() == 0 {
        proof {
            let blocks = volume_blocks(device.bytes(), *at);
            assert(put_run(blocks, start as int, data@) =~= blocks);
        }
        return Ok(());
    }
    let count: u64 = device.block_count() as u64;
    let sectors: u64 = fs_block_offset_sectors(at);
    let n: u64 = data.len() as u64 / 2048;
    proof {
        device.lemma_geometry();
        lemma_512(device.bs() as int, count as int);
        lemma_512(device.bs() as int, start * 4 + sectors);
        lemma_512(device.bs() as int, start * 4 + sectors + n * 4);
    }
    let first: u64 = start as u64 * 4;
    if sectors > count || first > count - sectors || n > (count - sectors - first) / 4 {
        return Err(FsError::InvalidInode);
    }
    proof {
        lemma_put_run(device.bytes(), *at, start as int, data@);
        lemma_splice(device.bytes(), block_at(*at, start as int), data@);
    }
    match device.write_blocks((first + sectors) as u32, data) {
        Ok(_) => Ok(()),
        Err(_) => Err(FsError::InvalidInode),
    }
}

/// Writes block `block_no` of the volume.
pub fn write_tfs_block<D: BlockDeviceIO>(
    device: &mut D,
    at: &BlockOffset,
    block_no: u32,
    data: &[u8],
) -> (r: Result<(), FsError>)
    requires
        sectors_wf(old(device)),
        data@.len() == 2048,
    ensures
        sectors_wf(final(device)),
        final(device).serves() == old(device).serves(),
        final(device).bytes().len() == old(device).bytes().len(),
        match r {
            Ok(_) => {
                &&& block_no < block_total(old(device).bytes(), *at)
                &&& final(device).bytes() == splice(
                    old(device).bytes(),
                    block_at(*at, block_no as int),
                    data@,
                )
                &&& volume_blocks(final(device).bytes(), *at) == volume_blocks(
                    old(device).bytes(),
                    *at,
                ).update(block_no as int, data@)
            },
            Err(e) => {
                &&& e == FsError::InvalidInode
                &&& !(old(device).serves() && block_no < block_total(old(device).bytes(), *at))
                &&& if block_no >= block_total(old(device).bytes(), *at) {
                    final(device).bytes() == old(device).bytes()
                } else {
                    same_outside(
                        old(device).bytes(),
                        final(device).bytes(),
                        block_at(*at, block_no as int),
                        2048,
                    )
                }
            },
        },
{
    proof {
        let blocks = volume_blocks(device.bytes(), *at);
        if block_no < block_total(device.bytes(), *at) {
            assert(data@.subrange(0, 2048) =~= data@);
            assert(put_run(blocks, block_no as int, data@) =~= blocks.update(
                block_no as int,
                data@,
            ));
        }
    }
    write_tfs_blocks(device, at, block_no, data)
}

} // verus!
