//! Where things stand on a volume: the fields of its records, the records in its blocks, and its
//! blocks on the device.

use crate::bytes::{lemma_stands, stands, trim_end_spec};
use crate::partition::{table, PartitionEntry};
use crate::twilight_fs::bitmap::{bit, bit_at, clear_count, lemma_clear_count_set, with_bit_at};
use crate::twilight_fs::dir::{dir_name, entry_ino, entry_raw};
use crate::twilight_fs::fs::{inode_record, volume_stats, Superblock};
use crate::twilight_fs::inode::{decoded, InodeView};
use crate::twilight_fs::mount::{superblock_in, usb_partition, volume_start};
use crate::twilight_fs::volume::{block_at, block_total, volume_blocks};
use vstd::prelude::*;

verus! {

/// The fields of an inode stand in its record one after the other: the length, four times, the
/// flags, whose it is, the mode, and the zones.
pub proof fn lemma_inode_fields(s: Seq<u8>, v: InodeView)
    requires
        stands(s, 0, 8, v.size as nat),
        stands(s, 8, 8, v.access_time as nat),
        stands(s, 16, 8, v.created_time as nat),
        stands(s, 24, 8, v.modified_time as nat),
        stands(s, 32, 8, v.change_time as nat),
        stands(s, 40, 4, v.flags as nat),
        stands(s, 44, 4, v.uid as nat),
        stands(s, 48, 4, v.gid as nat),
        stands(s, 52, 2, v.mode as nat),
        v.direct.len() == 12,
        forall|i: int| 0 <= i < 12 ==> stands(s, 56 + 4 * i, 4, (#[trigger] v.direct[i]) as nat),
        stands(s, 104, 4, v.single as nat),
        stands(s, 108, 4, v.double as nat),
    ensures
        decoded(s) == v,
{
    lemma_stands(s, 0, 8, v.size as nat);
    lemma_stands(s, 8, 8, v.access_time as nat);
    lemma_stands(s, 16, 8, v.created_time as nat);
    lemma_stands(s, 24, 8, v.modified_time as nat);
    lemma_stands(s, 32, 8, v.change_time as nat);
    lemma_stands(s, 40, 4, v.flags as nat);
    lemma_stands(s, 44, 4, v.uid as nat);
    lemma_stands(s, 48, 4, v.gid as nat);
    lemma_stands(s, 52, 2, v.mode as nat);
    lemma_stands(s, 104, 4, v.single as nat);
    lemma_stands(s, 108, 4, v.double as nat);
    assert forall|i: int| 0 <= i < 12 implies decoded(s).direct[i] == v.direct[i] by {
        lemma_stands(s, 56 + 4 * i, 4, v.direct[i] as nat);
    }
    assert(decoded(s).direct =~= v.direct);
}

/// The records of the inodes follow each other without gaps from the start of the table on,
/// sixteen to a block.
pub proof fn lemma_inode_place(blocks: Seq<Seq<u8>>, sb: Superblock, ino: int, j: int, b: int, k: int)
    requires
        0 < ino,
        0 <= j < 128,
        0 <= k < 2048,
        0 <= b < blocks.len(),
        blocks[b].len() == 2048,
        b * 2048 + k == (1 + sb.imap_blocks + sb.zmap_blocks) * 2048 + (ino - 1) * 128 + j,
    ensures
        inode_record(blocks, sb, ino)[j] == blocks[b][k],
{
    assert(b == sb.itable() + (ino - 1) / 16);
}

/// The fields of a superblock stand in its block one after the other behind its mark; a block
/// without the mark holds none.
pub proof fn lemma_superblock_fields(s: Seq<u8>, sb: Superblock, mark: u32)
    requires
        stands(s, 0, 4, mark as nat),
        stands(s, 4, 4, sb.block_size as nat),
        stands(s, 8, 4, sb.imap_blocks as nat),
        stands(s, 12, 4, sb.zmap_blocks as nat),
        stands(s, 16, 4, sb.first_data_zone as nat),
        stands(s, 20, 4, sb.zones as nat),
        stands(s, 24, 4, sb.ninodes as nat),
    ensures
        mark == 0x3053_4654 ==> superblock_in(s) == Some(sb),
        mark != 0x3053_4654 ==> superblock_in(s) is None,
{
    lemma_stands(s, 0, 4, mark as nat);
    lemma_stands(s, 4, 4, sb.block_size as nat);
    lemma_stands(s, 8, 4, sb.imap_blocks as nat);
    lemma_stands(s, 12, 4, sb.zmap_blocks as nat);
    lemma_stands(s, 16, 4, sb.first_data_zone as nat);
    lemma_stands(s, 20, 4, sb.zones as nat);
    lemma_stands(s, 24, 4, sb.ninodes as nat);
}

/// The parts of a volume follow each other: the superblock, the map of inodes, the map of zones,
/// the table of inodes, and the zones; the parts that are mapped have a bit for each inode and
/// zone.
pub proof fn lemma_parts_follow(sb: Superblock)
    requires
        sb.wf(),
    ensures
        sb.zmap() == 1 + sb.imap_blocks,
        sb.itable() == sb.zmap() + sb.zmap_blocks,
        sb.itable() * 2048 + sb.ninodes * 128 <= sb.first_data_zone * 2048,
        sb.first_data_zone + sb.data_zones() == sb.zones,
        sb.ninodes <= sb.imap_blocks * 2048 * 8,
        sb.data_zones() <= sb.zmap_blocks * 2048 * 8,
{
}

/// Bit `r` of a bitmap is in byte `r / 8` of its blocks taken together, low bit first.
pub proof fn lemma_bit_place(blocks: Seq<Seq<u8>>, start: int, r: int, b: int, k: int)
    requires
        0 <= r,
        0 <= k < 2048,
        b * 2048 + k == start * 2048 + r / 8,
    ensures
        bit_at(blocks, start, r) == bit(blocks[b][k], (r % 8) as u8),
{
    assert(b == start + r / 16384);
    assert(k == (r % 16384) / 8);
}

/// The entries of a directory stand in its blocks one after the other, thirty-two to a block: the
/// number of the inode, and the name with zeros behind it.
pub proof fn lemma_entry_fields(block: Seq<u8>, k: int, ino: u32, name: Seq<u8>)
    requires
        block.len() == 2048,
        0 <= k < 32,
        stands(block, 64 * k, 4, ino as nat),
        0 < name.len() <= 60,
        name.last() != 0,
        forall|j: int| 0 <= j < name.len() ==> block[64 * k + 4 + j] == #[trigger] name[j],
        forall|j: int| name.len() <= j < 60 ==> #[trigger] block[64 * k + 4 + j] == 0,
        vstd::utf8::valid_utf8(block.subrange(64 * k + 4, 64 * k + 64)),
    ensures
        entry_ino(block, k) == ino,
        dir_name(entry_raw(block, k)) == Some(name),
{
    lemma_stands(block, 64 * k, 4, ino as nat);
    let raw = entry_raw(block, k);
    assert forall|j: int| name.len() <= j < raw.len() implies raw[j] == 0 by {
        assert(raw[j] == block[64 * k + 4 + j]);
    }
    assert(raw.take(name.len() as int) =~= name);
    lemma_zeros_trimmed(raw, name.len() as int);
}

proof fn lemma_zeros_trimmed(raw: Seq<u8>, n: int)
    requires
        0 < n <= raw.len(),
        raw[n - 1] != 0,
        forall|j: int| n <= j < raw.len() ==> raw[j] == 0,
    ensures
        trim_end_spec(raw, 0) == raw.take(n),
    decreases raw.len(),
{
    if n < raw.len() {
        assert(raw.last() == 0);
        lemma_zeros_trimmed(raw.drop_last(), n);
        assert(raw.drop_last().take(n) =~= raw.take(n));
    } else {
        assert(raw.take(n) =~= raw);
    }
}

/// The entries of a partition table stand near the end of the sector, sixteen bytes each: whether
/// it is booted from, its kind, where it starts and how long it is.
pub proof fn lemma_partition_fields(sector: Seq<u8>, i: int, e: PartitionEntry)
    requires
        0 <= i < 4,
        sector.len() == 512,
        sector[446 + 16 * i] == e.boot,
        sector[450 + 16 * i] == e.kind,
        stands(sector, 454 + 16 * i, 4, e.lba_start as nat),
        stands(sector, 458 + 16 * i, 4, e.sectors as nat),
    ensures
        table(sector).len() == 4,
        table(sector)[i] == e,
{
    lemma_stands(sector, 454 + 16 * i, 4, e.lba_start as nat);
    lemma_stands(sector, 458 + 16 * i, 4, e.sectors as nat);
}

/// Block `b` of a volume is the bytes of the device from its start on, `b` blocks further; a
/// volume in a partition starts where the partition does.
pub proof fn lemma_block_place(bytes: Seq<u8>, e: PartitionEntry, b: int, k: int)
    requires
        0 <= b,
        0 <= k < 2048,
        e.lba_start * 512 + (b + 1) * 2048 <= bytes.len(),
    ensures
        ({
            let at = volume_start(Some(e));
            &&& b < volume_blocks(bytes, at).len()
            &&& volume_blocks(bytes, at)[b].len() == 2048
            &&& volume_blocks(bytes, at)[b][k] == bytes[e.lba_start * 512 + b * 2048 + k]
        }),
{
    let at = volume_start(Some(e));
    assert(at.bytes / 512 == e.lba_start);
    assert(block_total(bytes, at) >= b + 1);
    assert(block_at(at, b) == e.lba_start * 512 + b * 2048);
}

/// The partition that a USB device is given reaches to the end of what a table can name.
pub proof fn lemma_usb_partition(total_sectors: int, kind: u8)
    requires
        2048 <= total_sectors <= u32::MAX,
    ensures
        usb_partition(total_sectors, kind).lba_start == 2048,
        usb_partition(total_sectors, kind).lba_start + usb_partition(total_sectors, kind).sectors
            == total_sectors,
        usb_partition(total_sectors, kind).kind == kind,
{
}

/// What is told of a volume: as many zones and inodes as it has, and as many free ones as bits of
/// its maps are clear; once one more is taken, one less.
pub proof fn lemma_stats_told(blocks: Seq<Seq<u8>>, sb: Superblock, r: int)
    requires
        sb.wf(),
        0 <= r < sb.data_zones(),
        !bit_at(blocks, sb.zmap(), r),
        sb.zones <= blocks.len(),
        forall|b: int| 0 <= b < blocks.len() ==> (#[trigger] blocks[b]).len() == 2048,
    ensures
        ({
            let s = volume_stats(blocks, sb);
            let after = volume_stats(with_bit_at(blocks, sb.zmap(), r, true), sb);
            &&& s.blocks == sb.zones
            &&& s.files == sb.ninodes
            &&& s.block_size == 2048
            &&& s.fragment_size == s.block_size
            &&& s.fs_type == 0x3053_4654
            &&& s.name_length == 255
            &&& s.flags == 0
            &&& s.blocks_free == s.blocks_available
            &&& s.blocks_free <= sb.zones - sb.first_data_zone
            &&& s.files_free <= sb.ninodes
            &&& after.blocks_free == s.blocks_free - 1
            &&& after.blocks == s.blocks
        }),
{
    lemma_clear_count_bound(blocks, sb.zmap(), sb.data_zones());
    lemma_clear_count_bound(blocks, 1, sb.ninodes as int);
    lemma_clear_count_set(blocks, sb.zmap(), sb.data_zones(), r, true);
}

proof fn lemma_clear_count_bound(blocks: Seq<Seq<u8>>, start: int, n: int)
    requires
        0 <= n,
    ensures
        0 <= clear_count(blocks, start, n) <= n,
    decreases n,
{
    if n > 0 {
        lemma_clear_count_bound(blocks, start, n - 1);
    }
}

} // verus!
