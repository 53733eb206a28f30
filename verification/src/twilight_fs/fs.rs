//! A mounted volume: its blocks, its bitmaps and its inode table.

use crate::block::{splice, BlockDeviceIO};
use crate::bytes::{cut, push_all};
use crate::twilight_fs::bitmap::{
    all_set, bit, bit_at, clear_count, count_clear, find_clear, is_first_clear, lemma_count_blocks,
    put_bit, with_bit_at, BITS_PER_BLOCK,
};
use crate::twilight_fs::cache::{DirIndexCache, FileContentCache, PathLookupCache};
use crate::twilight_fs::inode::{
    decode_inode, decoded, encode_inode, encoded, lemma_inode_round_trip, Inode, InodeView,
};
use crate::twilight_fs::volume::{
    block_total, read_tfs_block, sectors_wf, volume_blocks, write_tfs_block, write_tfs_blocks, put_run,
    BlockOffset, FsError, TfsError,
};
use crate::vfs::FsStats;
use vstd::prelude::*;

verus! {

/// The layout of a volume.
#[derive(Debug, Clone, Copy, PartialEq, Eq, Structural)]
pub struct Superblock {
    pub block_size: u32,
    pub imap_blocks: u32,
    pub zmap_blocks: u32,
    pub first_data_zone: u32,
    pub zones: u32,
    pub ninodes: u32,
}

impl Superblock {
    /// The parts of a volume follow one another: superblock, inode bitmap, zone
    /// bitmap, inode table, data zones; the bitmaps have a bit for every inode and
    /// every data zone.
    pub open spec fn wf(self) -> bool {
        &&& self.block_size == 2048
        &&& 1 + self.imap_blocks + self.zmap_blocks + (self.ninodes + 15) / 16
            <= self.first_data_zone
        &&& self.first_data_zone <= self.zones
        &&& self.ninodes <= self.imap_blocks * 16384
        &&& self.zones - self.first_data_zone <= self.zmap_blocks * 16384
    }

    /// The first block of the zone bitmap.
    pub open spec fn zmap(self) -> int {
        1 + self.imap_blocks
    }

    /// The first block of the inode table.
    pub open spec fn itable(self) -> int {
        1 + self.imap_blocks + self.zmap_blocks
    }

    /// The number of data zones.
    pub open spec fn data_zones(self) -> int {
        self.zones - self.first_data_zone
    }
}

/// What the file system remembers between calls.
pub struct TwilightFsShared {
    pub generation: usize,
    pub lookup_cache: PathLookupCache,
    pub file_cache: FileContentCache,
    pub dir_index_cache: DirIndexCache,
}

impl TwilightFsShared {
    pub open spec fn wf(self) -> bool {
        self.lookup_cache.wf() && self.file_cache.wf() && self.dir_index_cache.wf()
    }

    /// Whether the remembered paths are of the current generation.
    pub open spec fn current(self) -> bool {
        self.lookup_cache.generation == self.generation
    }

    pub fn new() -> (r: Self)
        ensures
            r.wf(),
            r.generation == 0,
            r.current(),
            r.lookup_cache.held(0).len() == 0,
            r.file_cache.held(0).len() == 0,
            r.dir_index_cache.held(0).len() == 0,
    {
        TwilightFsShared {
            generation: 0,
            lookup_cache: PathLookupCache::new(),
            file_cache: FileContentCache::new(),
            dir_index_cache: DirIndexCache::new(),
        }
    }

    /// Starts a new generation of the name space and drops all file contents.
    pub fn invalidate_namespace(&mut self)
        requires
            old(self).wf(),
        ensures
            final(self).wf(),
            final(self).generation == if old(self).generation == usize::MAX {
                0
            } else {
                (old(self).generation + 1) as usize
            },
            final(self).lookup_cache == old(self).lookup_cache,
            final(self).dir_index_cache == old(self).dir_index_cache,
            final(self).file_cache.held(final(self).generation).len() == 0,
    {
        self.generation = if self.generation == usize::MAX {
            0
        } else {
            self.generation + 1
        };
        self.file_cache.invalidate_all_entries();
    }
}

/// A mounted volume.
pub struct TwilightFs<D: BlockDeviceIO> {
    pub superblock: Superblock,
    pub device: D,
    pub offset: BlockOffset,
    pub shared: TwilightFsShared,
}

/// The record of inode `ino`.
pub open spec fn inode_record(blocks: Seq<Seq<u8>>, sb: Superblock, ino: int) -> Seq<u8> {
    let at = ((ino - 1) % 16) * 128;
    blocks[sb.itable() + (ino - 1) / 16].subrange(at, at + 128)
}

/// Inode `ino`.
pub open spec fn inode_at(blocks: Seq<Seq<u8>>, sb: Superblock, ino: int) -> InodeView {
    decoded(inode_record(blocks, sb, ino))
}

/// `blocks` after inode `ino` was written.
pub open spec fn with_inode(blocks: Seq<Seq<u8>>, sb: Superblock, ino: int, v: InodeView) -> Seq<
    Seq<u8>,
> {
    let b = sb.itable() + (ino - 1) / 16;
    blocks.update(b, splice(blocks[b], ((ino - 1) % 16) * 128, encoded(v)))
}

/// What is told of a volume.
pub open spec fn volume_stats(blocks: Seq<Seq<u8>>, sb: Superblock) -> FsStats {
    let free = clear_count(blocks, sb.zmap(), sb.data_zones());
    FsStats {
        fs_type: 0x3053_4654,
        block_size: 2048,
        blocks: sb.zones as u64,
        blocks_free: free as u64,
        blocks_available: free as u64,
        files: sb.ninodes as u64,
        files_free: clear_count(blocks, 1, sb.ninodes as int) as u64,
        name_length: 255,
        fragment_size: 2048,
        flags: 0,
    }
}

/// Whether `ino` is an inode number of the volume.
pub open spec fn valid_ino(sb: Superblock, ino: int) -> bool {
    0 < ino <= sb.ninodes
}

/// A written inode reads back, and every other inode reads as before.
pub proof fn lemma_with_inode(blocks: Seq<Seq<u8>>, sb: Superblock, ino: int, v: InodeView, other: int)
    requires
        sb.wf(),
        blocks.len() >= sb.zones,
        forall|b: int| 0 <= b < blocks.len() ==> (#[trigger] blocks[b]).len() == 2048,
        valid_ino(sb, ino),
        valid_ino(sb, other),
        v.direct.len() == 12,
    ensures
        inode_at(with_inode(blocks, sb, ino, v), sb, other) == if other == ino {
            v
        } else {
            inode_at(blocks, sb, other)
        },
        with_inode(blocks, sb, ino, v)[sb.itable() + (ino - 1) / 16].len() == 2048,
        sb.itable() + (ino - 1) / 16 < sb.first_data_zone,
{
    lemma_inode_round_trip(v);
    let after = with_inode(blocks, sb, ino, v);
    let b = sb.itable() + (ino - 1) / 16;
    let at = ((ino - 1) % 16) * 128;
    assert(0 <= at && at + 128 <= 2048);
    crate::block::lemma_splice(blocks[b], at, encoded(v));
    let o = ((other - 1) % 16) * 128;
    if other == ino {
        assert(inode_record(after, sb, other) =~= encoded(v));
    } else if (other - 1) / 16 == (ino - 1) / 16 {
        assert((other - 1) % 16 != (ino - 1) % 16);
        assert(o + 128 <= at || at + 128 <= o);
        assert(inode_record(after, sb, other) =~= inode_record(blocks, sb, other));
    } else {
        assert(inode_record(after, sb, other) =~= inode_record(blocks, sb, other));
    }
}

impl<D: BlockDeviceIO> TwilightFs<D> {
    /// The blocks of the volume.
    pub open spec fn blocks(&self) -> Seq<Seq<u8>> {
        volume_blocks(self.device.bytes(), self.offset)
    }

    /// Whether the volume lies on a device of sectors, whatever its superblock says.
    pub open spec fn mounted(&self) -> bool {
        sectors_wf(&self.device) && self.shared.wf()
    }

    /// Whether the parts of the volume fit together, and on the device.
    pub open spec fn wf(&self) -> bool {
        &&& self.mounted()
        &&& self.superblock.wf()
        &&& self.superblock.zones <= self.blocks().len()
    }

    /// Whether the device carries out every request.
    pub open spec fn serves(&self) -> bool {
        self.device.serves()
    }

    /// Whether everything but the blocks is as in `other`.
    pub open spec fn same_but_blocks(&self, other: &Self) -> bool {
        &&& self.superblock == other.superblock
        &&& self.offset == other.offset
        &&& self.shared == other.shared
        &&& self.device.serves() == other.device.serves()
        &&& self.blocks().len() == other.blocks().len()
    }

    /// Whether this is the volume `other`, whatever its blocks hold.
    pub open spec fn same_volume(&self, other: &Self) -> bool {
        &&& self.superblock == other.superblock
        &&& self.offset == other.offset
        &&& self.device.serves() == other.device.serves()
        &&& self.blocks().len() == other.blocks().len()
    }

    pub proof fn lemma_block_len(&self)
        requires
            self.wf(),
        ensures
            forall|b: int|
                0 <= b < self.blocks().len() ==> (#[trigger] self.blocks()[b]).len() == 2048,
    {
        let bytes = self.device.bytes();
        let at = self.offset;
        assert forall|b: int| 0 <= b < self.blocks().len() implies (#[trigger] self.blocks()[b]).len()
            == 2048 by {
            assert(b < block_total(bytes, at));
        }
    }

    /// Reads block `b`.
    pub fn get_block(&mut self, b: u32) -> (r: Result<Vec<u8>, FsError>)
        requires
            old(self).wf(),
        ensures
            final(self).wf(),
            final(self).same_but_blocks(old(self)),
            final(self).blocks() == old(self).blocks(),
            match r {
                Ok(v) => b < old(self).blocks().len() && v@ == old(self).blocks()[b as int]
                    && v@.len() == 2048,
                Err(e) => e == FsError::InvalidInode && !(old(self).serves() && b < old(self).blocks().len()),
            },
    {
        read_tfs_block(&mut self.device, &self.offset, b)
    }

    /// Writes block `b`.
    pub fn put_block(&mut self, b: u32, data: &[u8]) -> (r: Result<(), FsError>)
        requires
            old(self).wf(),
            data@.len() == 2048,
        ensures
            final(self).wf(),
            final(self).same_but_blocks(old(self)),
            match r {
                Ok(_) => b < old(self).blocks().len() && final(self).blocks() == old(self).blocks().update(b as int, data@),
                Err(e) => e == FsError::InvalidInode && !(old(self).serves() && b < old(self).blocks().len()) && (b >= old(self).blocks().len() ==> final(self).blocks()
                    == old(self).blocks()),
            },
    {
        write_tfs_block(&mut self.device, &self.offset, b, data)
    }

    /// Writes `data`, whole blocks, from block `b` on.
    pub(crate) fn put_blocks(&mut self, b: u32, data: &[u8]) -> (r: Result<(), FsError>)
        requires
            old(self).wf(),
            data@.len() > 0,
            data@.len() % 2048 == 0,
        ensures
            final(self).wf(),
            final(self).same_but_blocks(old(self)),
            match r {
                Ok(_) => b + data@.len() / 2048 <= old(self).blocks().len() && final(self).blocks()
                    == put_run(old(self).blocks(), b as int, data@),
                Err(e) => e == FsError::InvalidInode && !(old(self).serves() && b + data@.len()
                    / 2048 <= old(self).blocks().len()) && (b + data@.len() / 2048 > old(self).blocks().len() ==> final(self).blocks() == old(self).blocks()),
            },
    {
        write_tfs_blocks(&mut self.device, &self.offset, b, data)
    }

    /// Sets or clears bit `r` of the bitmap that starts with block `start`.
    fn change_bit(&mut self, start: u32, r: u64, v: bool) -> (res: Result<(), TfsError>)
        requires
            old(self).wf(),
            start + r / 16384 < old(self).superblock.zones,
        ensures
            final(self).wf(),
            final(self).same_but_blocks(old(self)),
            match res {
                Ok(_) => final(self).blocks() == with_bit_at(
                    old(self).blocks(),
                    start as int,
                    r as int,
                    v,
                ),
                Err(e) => e == TfsError::IoError && !old(self).serves(),
            },
    {
        let b: u32 = start + (r / BITS_PER_BLOCK) as u32;
        let k: usize = ((r % BITS_PER_BLOCK) / 8) as usize;
        let i: u8 = (r % 8) as u8;
        let mut buf: Vec<u8> = match self.get_block(b) {
            Ok(x) => x,
            Err(_) => return Err(TfsError::IoError),
        };
        let changed: u8 = put_bit(buf[k], i, v);
        buf[k] = changed;
        match self.put_block(b, &buf) {
            Ok(_) => Ok(()),
            Err(_) => Err(TfsError::IoError),
        }
    }

    /// Sets the first clear bit among the first `n` of the bitmap that starts with
    /// block `start`. All bits before `from` are set.
    fn take_bit(&mut self, start: u32, from: u64, n: u64) -> (res: Result<Option<u64>, TfsError>)
        requires
            old(self).wf(),
            from <= n <= 0x1_0000_0000,
            n > 0 ==> start + (n - 1) / 16384 < old(self).superblock.zones,
            all_set(old(self).blocks(), start as int, from as int),
        ensures
            final(self).wf(),
            final(self).same_but_blocks(old(self)),
            match res {
                Ok(Some(r)) => {
                    &&& is_first_clear(old(self).blocks(), start as int, n as int, r as int)
                    &&& final(self).blocks() == with_bit_at(
                        old(self).blocks(),
                        start as int,
                        r as int,
                        true,
                    )
                },
                Ok(None) => all_set(old(self).blocks(), start as int, n as int) && final(self).blocks() == old(self).blocks(),
                Err(e) => e == TfsError::IoError && !old(self).serves(),
            },
    {
        let ghost blocks = self.blocks();
        let mut at: u64 = from;
        while at < n
            invariant
                from <= at <= n <= 0x1_0000_0000,
                n > 0 ==> start + (n - 1) / 16384 < self.superblock.zones,
                self.wf(),
                self.same_but_blocks(old(self)),
                blocks == old(self).blocks(),
                self.blocks() == blocks,
                all_set(blocks, start as int, at as int),
            decreases n - at,
        {
            let i: u64 = at / BITS_PER_BLOCK;
            let first: u64 = i * BITS_PER_BLOCK;
            let buf: Vec<u8> = match self.get_block(start + i as u32) {
                Ok(x) => x,
                Err(_) => return Err(TfsError::IoError),
            };
            let limit: usize = if n - first < BITS_PER_BLOCK {
                (n - first) as usize
            } else {
                BITS_PER_BLOCK as usize
            };
            let found: Option<usize> = find_clear(&buf, (at - first) as usize, limit);
            proof {
                assert forall|j: int| at <= j < first + limit implies bit_at(blocks, start as int, j)
                    == bit(buf@[(j - first) / 8], ((j - first) % 8) as u8) by {
                    assert(j / 16384 == i && j % 16384 == j - first && j % 8 == (j - first) % 8);
                }
            }
            match found {
                Some(k) => {
                    let r: u64 = first + k as u64;
                    proof {
                        assert forall|s: int| 0 <= s < r implies bit_at(blocks, start as int, s) by {
                            if s >= at {
                                assert(bit(buf@[(s - first) / 8], ((s - first) % 8) as u8));
                            }
                        }
                    }
                    return match self.change_bit(start, r, true) {
                        Ok(_) => Ok(Some(r)),
                        Err(e) => Err(e),
                    };
                },
                None => {
                    proof {
                        assert forall|s: int| 0 <= s < first + limit implies bit_at(
                            blocks,
                            start as int,
                            s,
                        ) by {
                            if s >= at {
                                assert(bit(buf@[(s - first) / 8], ((s - first) % 8) as u8));
                            }
                        }
                    }
                    at = first + limit as u64;
                },
            }
        }
        Ok(None)
    }

    /// Takes the first free zone.
    pub fn allocate_zone(&mut self) -> (res: Result<u32, TfsError>)
        requires
            old(self).wf(),
        ensures
            final(self).wf(),
            final(self).same_but_blocks(old(self)),
            ({
                let sb = old(self).superblock;
                match res {
                    Ok(z) => {
                        let r = z - sb.first_data_zone;
                        &&& is_first_clear(old(self).blocks(), sb.zmap(), sb.data_zones(), r)
                        &&& final(self).blocks() == with_bit_at(
                            old(self).blocks(),
                            sb.zmap(),
                            r,
                            true,
                        )
                    },
                    Err(TfsError::NoSpaceLeft) => all_set(
                        old(self).blocks(),
                        sb.zmap(),
                        sb.data_zones(),
                    ) && final(self).blocks() == old(self).blocks(),
                    Err(e) => e == TfsError::IoError && !old(self).serves(),
                }
            }),
    {
        let start: u32 = self.superblock.imap_blocks + 1;
        let n: u32 = self.superblock.zones - self.superblock.first_data_zone;
        match self.take_bit(start, 0, n as u64) {
            Ok(Some(r)) => Ok(self.superblock.first_data_zone + r as u32),
            Ok(None) => Err(TfsError::NoSpaceLeft),
            Err(e) => Err(e),
        }
    }

    /// Takes the first free inode; the result counts from zero.
    pub fn allocate_inode(&mut self) -> (res: Result<u32, TfsError>)
        requires
            old(self).wf(),
        ensures
            final(self).wf(),
            final(self).same_but_blocks(old(self)),
            ({
                let sb = old(self).superblock;
                match res {
                    Ok(i) => {
                        &&& is_first_clear(old(self).blocks(), 1, sb.ninodes as int, i as int)
                        &&& final(self).blocks() == with_bit_at(
                            old(self).blocks(),
                            1,
                            i as int,
                            true,
                        )
                    },
                    Err(TfsError::NoSpaceLeft) => all_set(
                        old(self).blocks(),
                        1,
                        sb.ninodes as int,
                    ) && final(self).blocks() == old(self).blocks(),
                    Err(e) => e == TfsError::IoError && !old(self).serves(),
                }
            }),
    {
        let n: u32 = self.superblock.ninodes;
        match self.take_bit(1, 0, n as u64) {
            Ok(Some(i)) => Ok(i as u32),
            Ok(None) => Err(TfsError::NoSpaceLeft),
            Err(e) => Err(e),
        }
    }

    /// Gives a zone back.
    pub fn dealloc_zone(&mut self, zone: u32) -> (res: Result<(), TfsError>)
        requires
            old(self).wf(),
        ensures
            final(self).wf(),
            final(self).same_but_blocks(old(self)),
            ({
                let sb = old(self).superblock;
                let r = zone - sb.first_data_zone;
                match res {
                    Ok(_) => {
                        &&& 0 <= r < sb.zmap_blocks * 16384
                        &&& final(self).blocks() == with_bit_at(
                            old(self).blocks(),
                            sb.zmap(),
                            r,
                            false,
                        )
                    },
                    Err(TfsError::InvalidZone) => !(0 <= r < sb.zmap_blocks * 16384) && final(self).blocks() == old(self).blocks(),
                    Err(e) => e == TfsError::IoError && !old(self).serves(),
                }
            }),
    {
        let first_zone: u32 = self.superblock.first_data_zone;
        if zone < first_zone {
            return Err(TfsError::InvalidZone);
        }
        let relative: u64 = (zone - first_zone) as u64;
        if relative / BITS_PER_BLOCK >= self.superblock.zmap_blocks as u64 {
            return Err(TfsError::InvalidZone);
        }
        let start: u32 = 1 + self.superblock.imap_blocks;
        self.change_bit(start, relative, false)
    }

    /// Gives an inode back; `inode` counts from one.
    pub fn dealloc_inode(&mut self, inode: u32) -> (res: Result<(), TfsError>)
        requires
            old(self).wf(),
        ensures
            final(self).wf(),
            final(self).same_but_blocks(old(self)),
            match res {
                Ok(_) => valid_ino(old(self).superblock, inode as int) && final(self).blocks()
                    == with_bit_at(old(self).blocks(), 1, inode - 1, false),
                Err(TfsError::InvalidInode) => !valid_ino(old(self).superblock, inode as int)
                    && final(self).blocks() == old(self).blocks(),
                Err(e) => e == TfsError::IoError && !old(self).serves(),
            },
    {
        if inode == 0 || inode > self.superblock.ninodes {
            return Err(TfsError::InvalidInode);
        }
        self.change_bit(1, (inode - 1) as u64, false)
    }

    /// Reads inode `inode_num`.
    pub fn read_inode(&mut self, inode_num: u32) -> (res: Result<Inode, &'static str>)
        requires
            old(self).wf(),
        ensures
            final(self).wf(),
            final(self).same_but_blocks(old(self)),
            final(self).blocks() == old(self).blocks(),
            match res {
                Ok(i) => valid_ino(old(self).superblock, inode_num as int) && i@ == inode_at(
                    old(self).blocks(),
                    old(self).superblock,
                    inode_num as int,
                ),
                Err(m) => if valid_ino(old(self).superblock, inode_num as int) {
                    m == "Failed to read inode block" && !old(self).serves()
                } else {
                    m == "Invalid inode number"
                },
            },
    {
        if inode_num == 0 || inode_num > self.superblock.ninodes {
            return Err("Invalid inode number");
        }
        let index: u32 = inode_num - 1;
        let block: u32 = self.superblock.imap_blocks + self.superblock.zmap_blocks + 1 + index / 16;
        let at: usize = (index % 16) as usize * 128;
        let buffer: Vec<u8> = match self.get_block(block) {
            Ok(x) => x,
            Err(_) => return Err("Failed to read inode block"),
        };
        let record: Vec<u8> = cut(&buffer, at, at + 128);
        Ok(decode_inode(&record))
    }

    /// Writes inode `inode_num`.
    pub fn write_inode(&mut self, inode_num: u32, inode: &Inode) -> (res: Result<(), &'static str>)
        requires
            old(self).wf(),
        ensures
            final(self).wf(),
            final(self).same_but_blocks(old(self)),
            match res {
                Ok(_) => valid_ino(old(self).superblock, inode_num as int) && final(self).blocks()
                    == with_inode(
                    old(self).blocks(),
                    old(self).superblock,
                    inode_num as int,
                    inode@,
                ),
                Err(m) => if valid_ino(old(self).superblock, inode_num as int) {
                    (m == "Failed to read inode block" || m == "Failed to write inode block")
                        && !old(self).serves()
                } else {
                    m == "Invalid inode number" && final(self).blocks() == old(self).blocks()
                },
            },
    {
        if inode_num == 0 || inode_num > self.superblock.ninodes {
            return Err("Invalid inode number");
        }
        let index: u32 = inode_num - 1;
        let block: u32 = self.superblock.imap_blocks + self.superblock.zmap_blocks + 1 + index / 16;
        let at: usize = (index % 16) as usize * 128;
        let buffer: Vec<u8> = match self.get_block(block) {
            Ok(x) => x,
            Err(_) => return Err("Failed to read inode block"),
        };
        let record: Vec<u8> = encode_inode(inode);
        let mut fresh: Vec<u8> = cut(&buffer, 0, at);
        push_all(&mut fresh, &record);
        let rest: Vec<u8> = cut(&buffer, at + 128, 2048);
        push_all(&mut fresh, &rest);
        proof {
            assert(fresh@ =~= splice(buffer@, at as int, encoded(inode@)));
        }
        match self.put_block(block, &fresh) {
            Ok(_) => Ok(()),
            Err(_) => Err("Failed to write inode block"),
        }
    }

    /// Counts the clear bits among the first `n` of the bitmap that starts with
    /// block `start`.
    fn count_free(&mut self, start: u32, nblocks: u32, n: u64) -> (res: Result<u64, ()>)
        requires
            old(self).wf(),
            n <= nblocks * 16384,
            start + nblocks <= old(self).superblock.zones,
        ensures
            final(self).wf(),
            final(self).same_but_blocks(old(self)),
            final(self).blocks() == old(self).blocks(),
            match res {
                Ok(c) => c == clear_count(old(self).blocks(), start as int, n as int),
                Err(_) => !old(self).serves(),
            },
    {
        let ghost blocks = self.blocks();
        let mut total: u64 = 0;
        let mut i: u32 = 0;
        while i < nblocks
            invariant
                i <= nblocks,
                n <= nblocks * 16384,
                start + nblocks <= self.superblock.zones,
                self.wf(),
                self.same_but_blocks(old(self)),
                blocks == old(self).blocks(),
                self.blocks() == blocks,
                total <= i * 16384,
                total == clear_count(
                    blocks,
                    start as int,
                    if n < i * 16384 {
                        n as int
                    } else {
                        i * 16384
                    },
                ),
            decreases nblocks - i,
        {
            let buf: Vec<u8> = match self.get_block(start + i) {
                Ok(x) => x,
                Err(_) => return Err(()),
            };
            let first: u64 = i as u64 * BITS_PER_BLOCK;
            if n > first {
                let valid: usize = if n - first < BITS_PER_BLOCK {
                    (n - first) as usize
                } else {
                    BITS_PER_BLOCK as usize
                };
                proof {
                    lemma_count_blocks(blocks, start as int, i as int, valid as int);
                }
                total = total + count_clear(&buf, valid);
            }
            i = i + 1;
        }
        Ok(total)
    }

    /// The totals of the volume.
    pub fn stats(&mut self) -> (res: Result<FsStats, ()>)
        requires
            old(self).wf(),
        ensures
            final(self).wf(),
            final(self).same_but_blocks(old(self)),
            final(self).blocks() == old(self).blocks(),
            ({
                let sb = old(self).superblock;
                let free = clear_count(old(self).blocks(), sb.zmap(), sb.data_zones());
                match res {
                    Ok(s) => s == volume_stats(old(self).blocks(), sb) && free <= u64::MAX && clear_count(old(self).blocks(), 1, sb.ninodes as int)
                        <= u64::MAX,
                    Err(_) => !old(self).serves(),
                }
            }),
    {
        let sb: Superblock = self.superblock;
        let data_zones: u64 = (sb.zones - sb.first_data_zone) as u64;
        let free_zones: u64 = match self.count_free(sb.imap_blocks + 1, sb.zmap_blocks, data_zones) {
            Ok(c) => c,
            Err(_) => return Err(()),
        };
        let free_inodes: u64 = match self.count_free(1, sb.imap_blocks, sb.ninodes as u64) {
            Ok(c) => c,
            Err(_) => return Err(()),
        };
        Ok(
            FsStats {
                fs_type: 0x3053_4654,
                block_size: sb.block_size as u64,
                blocks: sb.zones as u64,
                blocks_free: free_zones,
                blocks_available: free_zones,
                files: sb.ninodes as u64,
                files_free: free_inodes,
                name_length: 255,
                fragment_size: sb.block_size as u64,
                flags: 0,
            },
        )
    }
}

} // verus!
