//! Partition tables in the first sector of a disk.

use crate::block::{block_of, BlockDeviceIO};
use crate::bytes::{le_digits, le_value, lemma_le_digits_len, push_le, push_repeat, read_u32};
use vstd::prelude::*;

verus! {

/// Where the table starts.
pub const TABLE_OFFSET: usize = 446;

/// An entry of a partition table.
#[derive(Debug, Clone, Copy, PartialEq, Eq, Structural)]
pub struct PartitionEntry {
    pub boot: u8,
    pub kind: u8,
    pub lba_start: u32,
    pub sectors: u32,
}

/// Whether a sector ends with the mark of a partition table.
pub open spec fn signed(sector: Seq<u8>) -> bool {
    sector.len() == 512 && sector[510] == 0x55 && sector[511] == 0xAA
}

/// Entry `i` of the table in a sector.
pub open spec fn entry_at(sector: Seq<u8>, i: int) -> PartitionEntry {
    let at = 446 + 16 * i;
    PartitionEntry {
        boot: sector[at],
        kind: sector[at + 4],
        lba_start: le_value(sector.subrange(at + 8, at + 12)) as u32,
        sectors: le_value(sector.subrange(at + 12, at + 16)) as u32,
    }
}

/// The entries of the table in a sector.
pub open spec fn table(sector: Seq<u8>) -> Seq<PartitionEntry> {
    Seq::new(4, |i: int| entry_at(sector, i))
}

/// The first entry of the given kind.
pub open spec fn first_of_kind(entries: Seq<PartitionEntry>, kind: u8) -> Option<PartitionEntry>
    decreases entries.len(),
{
    if entries.len() == 0 {
        None
    } else if entries[0].kind == kind {
        Some(entries[0])
    } else {
        first_of_kind(entries.skip(1), kind)
    }
}

/// The partition of the given kind that a sector names.
pub open spec fn partition_in(sector: Seq<u8>, kind: u8) -> Option<PartitionEntry> {
    if signed(sector) {
        first_of_kind(table(sector), kind)
    } else {
        None
    }
}

impl PartitionEntry {
    pub fn new(boot: u8, kind: u8, lba_start: u32, sectors: u32) -> (r: Self)
        ensures
            r == (PartitionEntry { boot, kind, lba_start, sectors }),
    {
        PartitionEntry { boot, kind, lba_start, sectors }
    }

    pub fn empty() -> (r: Self)
        ensures
            r == (PartitionEntry { boot: 0, kind: 0, lba_start: 0, sectors: 0 }),
    {
        PartitionEntry { boot: 0, kind: 0, lba_start: 0, sectors: 0 }
    }
}

/// Whether a sector ends with the mark of a partition table.
pub fn has_signature(sector: &[u8]) -> (r: bool)
    ensures
        r == signed(sector@),
{
    sector.len() == 512 && sector[510] == 0x55 && sector[511] == 0xAA
}

/// The entries of the table in a sector.
pub fn decode_entries(sector: &[u8]) -> (r: Vec<PartitionEntry>)
    requires
        sector@.len() == 512,
    ensures
        r@ == table(sector@),
{
    let mut out: Vec<PartitionEntry> = Vec::new();
    let mut i: usize = 0;
    while i < 4
        invariant
            i <= 4,
            sector@.len() == 512,
            out@.len() == i,
            forall|k: int| 0 <= k < i ==> out@[k] == entry_at(sector@, k),
        decreases 4 - i,
    {
        let at: usize = TABLE_OFFSET + 16 * i;
        out.push(
            PartitionEntry {
                boot: sector[at],
                kind: sector[at + 4],
                lba_start: read_u32(sector, at + 8),
                sectors: read_u32(sector, at + 12),
            },
        );
        i = i + 1;
    }
    proof {
        assert(out@ =~= table(sector@));
    }
    out
}

/// The first entry of the given kind.
pub fn find_entry(entries: &Vec<PartitionEntry>, kind: u8) -> (r: Option<PartitionEntry>)
    ensures
        r == first_of_kind(entries@, kind),
{
    let mut i: usize = 0;
    proof {
        assert(entries@.skip(0) =~= entries@);
    }
    while i < entries.len()
        invariant
            i <= entries@.len(),
            first_of_kind(entries@, kind) == first_of_kind(entries@.skip(i as int), kind),
        decreases entries@.len() - i,
    {
        proof {
            assert(entries@.skip(i as int)[0] == entries@[i as int]);
            assert(entries@.skip(i as int).skip(1) =~= entries@.skip(i + 1));
        }
        if entries[i].kind == kind {
            return Some(entries[i]);
        }
        i = i + 1;
    }
    None
}

/// The partition of the given kind that a sector names.
pub fn find_in_sector(sector: &[u8], kind: u8) -> (r: Option<PartitionEntry>)
    ensures
        r == partition_in(sector@, kind),
{
    if !has_signature(sector) {
        return None;
    }
    let entries: Vec<PartitionEntry> = decode_entries(sector);
    find_entry(&entries, kind)
}

/// The bytes of a table entry.
pub open spec fn entry_record(e: PartitionEntry) -> Seq<u8> {
    seq![e.boot, 0u8, 0u8, 0u8, e.kind, 0u8, 0u8, 0u8] + le_digits(e.lba_start as nat, 4)
        + le_digits(e.sectors as nat, 4)
}

/// A first sector with a table of one partition.
pub open spec fn single_table(e: PartitionEntry) -> Seq<u8> {
    Seq::new(446, |i: int| 0u8) + entry_record(e) + Seq::new(48, |i: int| 0u8) + seq![0x55u8, 0xAAu8]
}

/// A first sector with a table of one partition.
pub fn encode_single(e: PartitionEntry) -> (r: Vec<u8>)
    ensures
        r@ == single_table(e),
        r@.len() == 512,
{
    proof {
        lemma_le_digits_len(e.lba_start as nat, 4);
        lemma_le_digits_len(e.sectors as nat, 4);
    }
    let mut out: Vec<u8> = Vec::new();
    push_repeat(&mut out, 0, 446);
    out.push(e.boot);
    push_repeat(&mut out, 0, 3);
    out.push(e.kind);
    push_repeat(&mut out, 0, 3);
    push_le(&mut out, e.lba_start as u64, 4);
    push_le(&mut out, e.sectors as u64, 4);
    push_repeat(&mut out, 0, 48);
    out.push(0x55);
    out.push(0xAA);
    proof {
        assert(out@ =~= single_table(e));
    }
    out
}

/// A partition that was written to a table is found there again.
pub proof fn lemma_single_table(e: PartitionEntry)
    ensures
        partition_in(single_table(e), e.kind) == Some(e),
{
    let s = single_table(e);
    lemma_le_digits_len(e.lba_start as nat, 4);
    lemma_le_digits_len(e.sectors as nat, 4);
    reveal_with_fuel(crate::bytes::pow256, 5);
    crate::bytes::lemma_le_round_trip(e.lba_start as nat, 4);
    crate::bytes::lemma_le_round_trip(e.sectors as nat, 4);
    assert(s.subrange(454, 458) =~= le_digits(e.lba_start as nat, 4));
    assert(s.subrange(458, 462) =~= le_digits(e.sectors as nat, 4));
    assert(table(s)[0] == entry_at(s, 0));
    assert(entry_at(s, 0) == e);
}

/// The partition of the given kind on a device with sectors of 512 bytes.
pub open spec fn partition_on<D: BlockDeviceIO>(device: &D, kind: u8) -> Option<PartitionEntry> {
    if device.bs() != 512 || device.count() == 0 {
        None
    } else {
        partition_in(block_of(device, 0), kind)
    }
}

/// Looks for the partition of the given kind on a device.
pub fn detect_twilight_partition_on_device<D: BlockDeviceIO>(device: &mut D, kind: u8) -> (r: Option<
    PartitionEntry,
>)
    requires
        old(device).wf(),
    ensures
        final(device).wf(),
        final(device).bytes() == old(device).bytes(),
        final(device).bs() == old(device).bs(),
        final(device).count() == old(device).count(),
        final(device).serves() == old(device).serves(),
        r is Some || old(device).serves() ==> r == partition_on(old(device), kind),
{
    if device.block_size() != 512 {
        return None;
    }
    match device.read_blocks(0, 1) {
        Ok(sector) => {
            proof {
                device.lemma_geometry();
                assert(sector@ == block_of(device, 0)) by {
                    assert(0 * device.bs() as int == 0) by (nonlinear_arith);
                }
            }
            find_in_sector(&sector, kind)
        },
        Err(_) => None,
    }
}

/// Looks for the partition of the given kind in the first sector of a disk, where
/// that could be read.
pub fn detect_twilight_partition(sector: Option<Vec<u8>>, kind: u8) -> (r: Option<PartitionEntry>)
    ensures
        r == match sector {
            Some(s) => partition_in(s@, kind),
            None => None,
        },
{
    match sector {
        Some(s) => find_in_sector(&s, kind),
        None => None,
    }
}

} // verus!
