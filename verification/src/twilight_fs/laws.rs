//! What holds of several operations together.

use crate::block::{lemma_splice, splice};
use crate::bytes::{le_digits, le_value, lemma_le_digits_len, lemma_le_round_trip};
use crate::twilight_fs::bitmap::{bit, bit_at, with_bit, with_bit_at};
use crate::twilight_fs::cache::{
    at_key, dir_at, dir_pos, lemma_dir_pos, with_name, without_name, IndexView,
};
use crate::twilight_fs::dir::{
    dir_name, dir_names, entry_ino, entry_named, entry_place, entry_raw, entry_used, found_in,
    slot_found,
};
use crate::twilight_fs::fs::{inode_at, inode_record, lemma_with_inode, valid_ino, Superblock};
use crate::twilight_fs::inode::InodeView;
use crate::twilight_fs::names::{
    entry_removed, minus_entry, path_removed, removed_at, renamed, renamed_at, zero_entry,
    zones_freed, zones_valid,
};
use crate::twilight_fs::shared::CacheView;
use crate::twilight_fs::tree::{
    dir_block, entry_added, entry_added_at, entry_bytes, entry_put, name_field, plus_entry, zero_block,
};
use vstd::prelude::*;

verus! {

proof fn lemma_bit_returned(b: u8, i: u8)
    requires
        i < 8,
        !bit(b, i),
    ensures
        with_bit(with_bit(b, i, true), i, false) == b,
{
    assert((b | (1u8 << i)) & !(1u8 << i) == b) by (bit_vector)
        requires
            i < 8,
            b & (1u8 << i) == 0,
    ;
}

/// A zone or an inode that is given back after it was taken leaves the volume as it was
/// before.
pub proof fn lemma_bit_taken_and_returned(blocks: Seq<Seq<u8>>, start: int, r: int)
    requires
        0 <= start,
        0 <= r,
        start + r / 16384 < blocks.len(),
        blocks[start + r / 16384].len() == 2048,
        !bit_at(blocks, start, r),
    ensures
        with_bit_at(with_bit_at(blocks, start, r, true), start, r, false) == blocks,
{
    let b = start + r / 16384;
    let k = (r % 16384) / 8;
    lemma_bit_returned(blocks[b][k], (r % 8) as u8);
    let once = with_bit_at(blocks, start, r, true);
    let twice = with_bit_at(once, start, r, false);
    assert(twice[b] =~= blocks[b]);
    assert(twice =~= blocks);
}

/// Whether the zones of a directory are what they should be: in the data area, each its
/// own, and marked as taken.
pub open spec fn zones_sound(blocks: Seq<Seq<u8>>, sb: Superblock, direct: Seq<u32>) -> bool {
    &&& direct.len() == 12
    &&& direct[0] != 0
    &&& forall|i: int|
        0 <= i < 12 && #[trigger] direct[i] != 0 ==> sb.first_data_zone <= direct[i] < sb.zones
            && bit_at(blocks, sb.zmap(), direct[i] - sb.first_data_zone)
    &&& forall|i: int, j: int|
        0 <= i < j < 12 && #[trigger] direct[i] != 0 ==> direct[i] != #[trigger] direct[j]
}

pub proof fn lemma_entry_bytes(block: Seq<u8>, k: int, child: u32, name: Seq<u8>, j: int)
    requires
        block.len() == 2048,
        0 <= k < 32,
        0 <= j < 32,
    ensures
        ({
            let after = splice(block, 64 * k, entry_bytes(child, name));
            &&& after.len() == 2048
            &&& j == k ==> entry_ino(after, j) == child && entry_raw(after, j) == name_field(name)
            &&& j != k ==> entry_ino(after, j) == entry_ino(block, j) && entry_raw(after, j)
                == entry_raw(block, j)
        }),
{
    let e = entry_bytes(child, name);
    lemma_le_digits_len(child as nat, 4);
    reveal_with_fuel(crate::bytes::pow256, 5);
    lemma_le_round_trip(child as nat, 4);
    assert(name_field(name).len() == 60);
    assert(e.len() == 64);
    lemma_splice(block, 64 * k, e);
    let after = splice(block, 64 * k, e);
    if j == k {
        assert(after.subrange(64 * k, 64 * k + 4) =~= le_digits(child as nat, 4));
        assert(after.subrange(64 * k + 4, 64 * k + 64) =~= name_field(name));
    } else {
        assert(64 * j + 64 <= 64 * k || 64 * k + 64 <= 64 * j);
        assert(after.subrange(64 * j, 64 * j + 4) =~= block.subrange(64 * j, 64 * j + 4));
        assert(after.subrange(64 * j + 4, 64 * j + 64) =~= block.subrange(64 * j + 4, 64 * j + 64));
    }
}

proof fn lemma_only_name(
    blocks: Seq<Seq<u8>>,
    direct: Seq<u32>,
    name: Seq<u8>,
    s: int,
    child: u32,
    n: int,
)
    requires
        0 <= s < 384,
        0 <= n <= 384,
        name.len() > 0,
        entry_used(blocks, direct, s),
        entry_ino(blocks[direct[s / 32] as int], s % 32) == child,
        dir_name(entry_raw(blocks[direct[s / 32] as int], s % 32)) == Some(name),
        forall|t: int| 0 <= t < 384 && t != s ==> !#[trigger] entry_named(blocks, direct, name, t),
    ensures
        at_key(dir_names(blocks, direct, n), name) == if n > s {
            Some(child)
        } else {
            None::<u32>
        },
    decreases n,
{
    if n > 0 {
        lemma_only_name(blocks, direct, name, s, child, n - 1);
        let t = n - 1;
        if t != s {
            assert(!entry_named(blocks, direct, name, t));
        }
    }
}

pub proof fn lemma_zero_entry_ino(k: int)
    requires
        0 <= k < 32,
    ensures
        entry_ino(zero_block(), k) == 0,
{
    let t = zero_block().subrange(64 * k, 64 * k + 4);
    assert(t =~= seq![0u8, 0u8, 0u8, 0u8]);
    reveal_with_fuel(le_value, 5);
    assert(t.skip(1).skip(1).skip(1).skip(1).len() == 0);
}

/// What a directory looks like after an entry was put into it: its inode and that block
/// have changed, and no other data zone has.
pub proof fn lemma_put(
    b0: Seq<Seq<u8>>,
    b1: Seq<Seq<u8>>,
    sb: Superblock,
    parent: u32,
    name: Seq<u8>,
    child: u32,
    s: int,
    z: u32,
)
    requires
        sb.wf(),
        b0.len() >= sb.zones,
        forall|b: int| 0 <= b < b0.len() ==> (#[trigger] b0[b]).len() == 2048,
        valid_ino(sb, parent as int),
        zones_sound(b0, sb, inode_at(b0, sb, parent as int).direct),
        0 <= s < 384,
        entry_put(b0, b1, sb, parent, entry_bytes(child, name), s, z),
    ensures
        ({
            let dir = inode_at(b0, sb, parent as int);
            let bi = s / 32;
            &&& z != 0
            &&& inode_at(b1, sb, parent as int).direct == dir.direct.update(bi, z)
            &&& dir_block(b0, dir, bi).len() == 2048
            &&& b1[z as int] == splice(
                dir_block(b0, dir, bi),
                64 * (s % 32),
                entry_bytes(child, name),
            )
            &&& forall|b: int|
                sb.first_data_zone <= b < b0.len() && b != z ==> #[trigger] b1[b] == b0[b]
        }),
{
    let dir = inode_at(b0, sb, parent as int);
    let bi = s / 32;
    let entry = entry_bytes(child, name);
    let fresh = dir.direct[bi] == 0;
    let r = z - sb.first_data_zone;
    let base = if fresh {
        with_bit_at(b0, sb.zmap(), r, true)
    } else {
        b0
    };
    let block = dir_block(b0, dir, bi);
    let put = base.update(z as int, splice(block, 64 * (s % 32), entry));
    let v = InodeView {
        size: plus_entry(dir.size),
        direct: dir.direct.update(bi, z),
        ..dir
    };
    lemma_entry_bytes(block, s % 32, child, name, s % 32);
    if fresh {
        assert(r / 16384 < sb.zmap_blocks) by {
            assert(r < sb.zmap_blocks * 16384);
        }
    }
    assert forall|b: int| 0 <= b < put.len() implies (#[trigger] put[b]).len() == 2048 by {
        assert(b0[b].len() == 2048);
    }
    lemma_with_inode(put, sb, parent as int, v, parent as int);
}

proof fn lemma_others_not_named(
    b0: Seq<Seq<u8>>,
    b1: Seq<Seq<u8>>,
    sb: Superblock,
    parent: u32,
    name: Seq<u8>,
    child: u32,
    s: int,
    z: u32,
    t: int,
)
    requires
        sb.wf(),
        b0.len() >= sb.zones,
        forall|b: int| 0 <= b < b0.len() ==> (#[trigger] b0[b]).len() == 2048,
        valid_ino(sb, parent as int),
        zones_sound(b0, sb, inode_at(b0, sb, parent as int).direct),
        0 <= s < 384,
        entry_put(b0, b1, sb, parent, entry_bytes(child, name), s, z),
        0 <= t < 384,
        t != s,
        !entry_named(b0, inode_at(b0, sb, parent as int).direct, name, t),
    ensures
        !entry_named(b1, inode_at(b1, sb, parent as int).direct, name, t),
{
    lemma_put(b0, b1, sb, parent, name, child, s, z);
    let dir = inode_at(b0, sb, parent as int);
    let bi = s / 32;
    let bj = t / 32;
    let block = dir_block(b0, dir, bi);
    if bj == bi {
        assert(t % 32 != s % 32);
        lemma_entry_bytes(block, s % 32, child, name, t % 32);
        lemma_zero_entry_ino(t % 32);
    } else if dir.direct[bj] != 0 {
        assert(dir.direct[bj] != z) by {
            if dir.direct[bi] == 0 {
                assert(bit_at(b0, sb.zmap(), dir.direct[bj] - sb.first_data_zone));
            } else if bj < bi {
                assert(dir.direct[bj] != dir.direct[bi]);
            } else {
                assert(dir.direct[bi] != dir.direct[bj]);
            }
        }
        assert(b1[dir.direct[bj] as int] == b0[dir.direct[bj] as int]);
    }
}

/// A name that was added to a directory which did not have it leads to what it was given
/// to, whether or not the directory is remembered.
#[verifier::rlimit(40)]
pub proof fn lemma_added_is_found(
    b0: Seq<Seq<u8>>,
    b1: Seq<Seq<u8>>,
    sb: Superblock,
    c0: CacheView,
    c1: CacheView,
    parent: u32,
    name: Seq<u8>,
    child: u32,
)
    requires
        sb.wf(),
        b0.len() >= sb.zones,
        forall|b: int| 0 <= b < b0.len() ==> (#[trigger] b0[b]).len() == 2048,
        valid_ino(sb, parent as int),
        child != 0,
        dir_name(name_field(name)) == Some(name),
        zones_sound(b0, sb, inode_at(b0, sb, parent as int).direct),
        forall|t: int|
            0 <= t < 384 ==> !#[trigger] entry_named(
                b0,
                inode_at(b0, sb, parent as int).direct,
                name,
                t,
            ),
        entry_added(b0, b1, sb, c0, c1, parent, name, child),
    ensures
        found_in(b1, sb, c1, parent, name).0 == Some(child),
{
    let (s, z) = choose|s: int, z: u32| #[trigger]
        entry_added_at(b0, b1, sb, c0, c1, parent, name, child, s, z);
    lemma_put(b0, b1, sb, parent, name, child, s, z);
    let dir = inode_at(b0, sb, parent as int);
    let d1 = inode_at(b1, sb, parent as int).direct;
    let bi = s / 32;
    assert(d1[0] != 0);
    match dir_at(c0.dirs, parent) {
        Some(e) => {
            lemma_remembered(c0.dirs, parent, name, child, (s + 1) as usize);
        },
        None => {
            assert forall|t: int| 0 <= t < 384 && t != s implies !#[trigger] entry_named(
                b1,
                d1,
                name,
                t,
            ) by {
                assert(!entry_named(b0, dir.direct, name, t));
                lemma_others_not_named(b0, b1, sb, parent, name, child, s, z, t);
            }
            lemma_entry_bytes(dir_block(b0, dir, bi), s % 32, child, name, s % 32);
            lemma_only_name(b1, d1, name, s, child, 384);
        },
    }
}

proof fn lemma_remembered(
    dirs: Seq<(u32, IndexView)>,
    parent: u32,
    name: Seq<u8>,
    child: u32,
    hint: usize,
)
    requires
        dir_at(dirs, parent) is Some,
    ensures
        dir_at(with_name(dirs, parent, name, child, hint), parent) matches Some(e) && at_key(
            e.names,
            name,
        ) == Some(child),
{
    let p = dir_pos(dirs, parent);
    lemma_pos_positive(dirs, parent);
    let after = with_name(dirs, parent, name, child, hint);
    assert forall|i: int| 0 <= i < p implies (#[trigger] after[i]).0 != parent by {
        lemma_before(dirs, parent, i);
    }
    lemma_dir_pos(after, parent, p);
}

proof fn lemma_pos_positive(s: Seq<(u32, IndexView)>, parent: u32)
    ensures
        0 <= dir_pos(s, parent),
    decreases s.len(),
{
    if s.len() > 0 && s[0].0 != parent {
        lemma_pos_positive(s.skip(1), parent);
    }
}

proof fn lemma_before(s: Seq<(u32, IndexView)>, parent: u32, i: int)
    requires
        0 <= i < dir_pos(s, parent),
    ensures
        s[i].0 != parent,
        dir_pos(s, parent) <= s.len(),
    decreases s.len(),
{
    if s.len() > 0 && s[0].0 != parent {
        if i > 0 {
            lemma_before(s.skip(1), parent, i - 1);
        } else if dir_pos(s.skip(1), parent) > 0 {
            lemma_before(s.skip(1), parent, 0);
        }
    }
}

proof fn lemma_zones_freed(blocks: Seq<Seq<u8>>, sb: Superblock, direct: Seq<u32>, n: int)
    requires
        sb.wf(),
        blocks.len() >= sb.zones,
        forall|b: int| 0 <= b < blocks.len() ==> (#[trigger] blocks[b]).len() == 2048,
        zones_valid(sb, direct),
        0 <= n <= 12,
    ensures
        ({
            let after = zones_freed(blocks, sb, direct, n);
            &&& after.len() == blocks.len()
            &&& forall|b: int| 0 <= b < blocks.len() ==> (#[trigger] after[b]).len() == 2048
            &&& forall|b: int|
                sb.first_data_zone <= b < blocks.len() ==> #[trigger] after[b] == blocks[b]
        }),
    decreases n,
{
    if n > 0 {
        lemma_zones_freed(blocks, sb, direct, n - 1);
        if direct[n - 1] != 0 {
            let r = direct[n - 1] - sb.first_data_zone;
            assert(0 <= r < sb.zmap_blocks * 16384);
            assert(0 <= r / 16384 < sb.zmap_blocks);
        }
    }
}

/// What a directory looks like after an entry was removed from it.
pub proof fn lemma_cleared(
    b0: Seq<Seq<u8>>,
    b1: Seq<Seq<u8>>,
    sb: Superblock,
    parent: u32,
    s: int,
    t: (u32, usize, u32),
)
    requires
        sb.wf(),
        b0.len() >= sb.zones,
        forall|b: int| 0 <= b < b0.len() ==> (#[trigger] b0[b]).len() == 2048,
        valid_ino(sb, parent as int),
        zones_sound(b0, sb, inode_at(b0, sb, parent as int).direct),
        0 <= s < 384,
        t.0 == inode_at(b0, sb, parent as int).direct[s / 32],
        t.0 != 0,
        t.1 == 64 * (s % 32),
        entry_removed(b0, b1, sb, parent, t),
    ensures
        inode_at(b1, sb, parent as int).direct == inode_at(b0, sb, parent as int).direct,
        b1[t.0 as int] == splice(b0[t.0 as int], 64 * (s % 32), zero_entry()),
        forall|b: int|
            sb.first_data_zone <= b < b0.len() && b != t.0 ==> #[trigger] b1[b] == b0[b],
{
    let dir = inode_at(b0, sb, parent as int);
    let node = inode_at(b0, sb, t.2 as int);
    lemma_zones_freed(b0, sb, node.direct, 12);
    let zf = zones_freed(b0, sb, node.direct, 12);
    let freed = with_bit_at(zf, 1, t.2 - 1, false);
    assert(0 <= (t.2 - 1) / 16384 < sb.imap_blocks);
    let block = splice(b0[t.0 as int], t.1 as int, zero_entry());
    assert(sb.first_data_zone <= dir.direct[s / 32] < sb.zones);
    lemma_splice(b0[t.0 as int], 64 * (s % 32), zero_entry());
    let put = freed.update(t.0 as int, block);
    assert forall|b: int| 0 <= b < put.len() implies (#[trigger] put[b]).len() == 2048 by {
        assert(zf[b].len() == 2048);
    }
    let v = InodeView { size: minus_entry(dir.size), ..dir };
    lemma_with_inode(put, sb, parent as int, v, parent as int);
}

pub proof fn lemma_zeroed_entry(block: Seq<u8>, k: int, j: int)
    requires
        block.len() == 2048,
        0 <= k < 32,
        0 <= j < 32,
    ensures
        ({
            let after = splice(block, 64 * k, zero_entry());
            &&& j == k ==> entry_ino(after, j) == 0
            &&& j != k ==> entry_ino(after, j) == entry_ino(block, j) && entry_raw(after, j)
                == entry_raw(block, j)
        }),
{
    lemma_splice(block, 64 * k, zero_entry());
    let after = splice(block, 64 * k, zero_entry());
    if j == k {
        lemma_zero_entry_ino(k);
        assert(after.subrange(64 * k, 64 * k + 4) =~= zero_block().subrange(64 * k, 64 * k + 4));
    } else {
        assert(64 * j + 64 <= 64 * k || 64 * k + 64 <= 64 * j);
        assert(after.subrange(64 * j, 64 * j + 4) =~= block.subrange(64 * j, 64 * j + 4));
        assert(after.subrange(64 * j + 4, 64 * j + 64) =~= block.subrange(64 * j + 4, 64 * j + 64));
    }
}

proof fn lemma_no_name(blocks: Seq<Seq<u8>>, direct: Seq<u32>, name: Seq<u8>, n: int)
    requires
        0 <= n <= 384,
        name.len() > 0,
        forall|t: int| 0 <= t < 384 ==> !#[trigger] entry_named(blocks, direct, name, t),
    ensures
        at_key(dir_names(blocks, direct, n), name) is None,
    decreases n,
{
    if n > 0 {
        lemma_no_name(blocks, direct, name, n - 1);
        assert(!entry_named(blocks, direct, name, n - 1));
    }
}

proof fn lemma_forgotten(dirs: Seq<(u32, IndexView)>, parent: u32, name: Seq<u8>)
    requires
        dir_at(dirs, parent) is Some,
    ensures
        dir_at(without_name(dirs, parent, name), parent) matches Some(e) && at_key(e.names, name)
            is None,
{
    let p = dir_pos(dirs, parent);
    lemma_pos_positive(dirs, parent);
    let after = without_name(dirs, parent, name);
    assert forall|i: int| 0 <= i < p implies (#[trigger] after[i]).0 != parent by {
        lemma_before(dirs, parent, i);
    }
    lemma_dir_pos(after, parent, p);
}

proof fn lemma_still_not_named(
    b0: Seq<Seq<u8>>,
    b1: Seq<Seq<u8>>,
    sb: Superblock,
    parent: u32,
    name: Seq<u8>,
    s: int,
    t: (u32, usize, u32),
    q: int,
)
    requires
        sb.wf(),
        b0.len() >= sb.zones,
        forall|b: int| 0 <= b < b0.len() ==> (#[trigger] b0[b]).len() == 2048,
        valid_ino(sb, parent as int),
        zones_sound(b0, sb, inode_at(b0, sb, parent as int).direct),
        0 <= s < 384,
        t.0 == inode_at(b0, sb, parent as int).direct[s / 32],
        t.0 != 0,
        t.1 == 64 * (s % 32),
        entry_removed(b0, b1, sb, parent, t),
        0 <= q < 384,
        q != s ==> !entry_named(b0, inode_at(b0, sb, parent as int).direct, name, q),
    ensures
        !entry_named(b1, inode_at(b1, sb, parent as int).direct, name, q),
{
    lemma_cleared(b0, b1, sb, parent, s, t);
    let direct = inode_at(b0, sb, parent as int).direct;
    let bi = s / 32;
    let bj = q / 32;
    if bj == bi {
        assert(q != s ==> q % 32 != s % 32);
        lemma_zeroed_entry(b0[t.0 as int], s % 32, q % 32);
    } else if direct[bj] != 0 {
        if bj < bi {
            assert(direct[bj] != direct[bi]);
        } else {
            assert(direct[bi] != direct[bj]);
        }
        assert(b1[direct[bj] as int] == b0[direct[bj] as int]);
    }
}

/// A name that occurs once in its directory leads nowhere after it was removed, whether or
/// not the directory is remembered.
#[verifier::rlimit(40)]
pub proof fn lemma_removed_is_gone(
    b0: Seq<Seq<u8>>,
    b1: Seq<Seq<u8>>,
    sb: Superblock,
    c0: CacheView,
    c1: CacheView,
    parent: u32,
    dir_path: Seq<u8>,
    name: Seq<u8>,
)
    requires
        sb.wf(),
        b0.len() >= sb.zones,
        forall|b: int| 0 <= b < b0.len() ==> (#[trigger] b0[b]).len() == 2048,
        valid_ino(sb, parent as int),
        name.len() > 0,
        zones_sound(b0, sb, inode_at(b0, sb, parent as int).direct),
        forall|i: int, j: int|
            0 <= i < j < 384 && #[trigger] entry_named(
                b0,
                inode_at(b0, sb, parent as int).direct,
                name,
                i,
            ) ==> !#[trigger] entry_named(b0, inode_at(b0, sb, parent as int).direct, name, j),
        path_removed(b0, b1, sb, c0, c1, parent, dir_path, name),
    ensures
        found_in(b1, sb, c1, parent, name).0 is None,
{
    let t = choose|t: (u32, usize, u32)| #[trigger]
        removed_at(b0, b1, sb, c0, c1, parent, dir_path, name, t);
    let direct = inode_at(b0, sb, parent as int).direct;
    let s = choose|s: int| #[trigger] slot_found(b0, direct, name, s, t);
    assert(entry_named(b0, direct, name, s));
    lemma_cleared(b0, b1, sb, parent, s, t);
    match dir_at(c0.dirs, parent) {
        Some(e) => {
            lemma_forgotten(c0.dirs, parent, name);
        },
        None => {
            assert forall|q: int| 0 <= q < 384 implies !#[trigger] entry_named(
                b1,
                direct,
                name,
                q,
            ) by {
                if q != s {
                    if q < s {
                        assert(!entry_named(b0, direct, name, q));
                    } else {
                        assert(!entry_named(b0, direct, name, q));
                    }
                }
                lemma_still_not_named(b0, b1, sb, parent, name, s, t, q);
            }
            lemma_no_name(b1, direct, name, 384);
        },
    }
}

pub proof fn lemma_renamed_entry(block: Seq<u8>, k: int, name: Seq<u8>, j: int)
    requires
        block.len() == 2048,
        0 <= k < 32,
        0 <= j < 32,
    ensures
        ({
            let after = splice(block, 64 * k + 4, name_field(name));
            &&& entry_ino(after, j) == entry_ino(block, j)
            &&& entry_raw(after, j) == if j == k {
                name_field(name)
            } else {
                entry_raw(block, j)
            }
        }),
{
    assert(name_field(name).len() == 60);
    lemma_splice(block, 64 * k + 4, name_field(name));
    let after = splice(block, 64 * k + 4, name_field(name));
    assert(64 * j + 64 <= 64 * k || 64 * k + 64 <= 64 * j || j == k);
    assert(after.subrange(64 * j, 64 * j + 4) == block.subrange(64 * j, 64 * j + 4));
    if j == k {
        assert(after.subrange(64 * k + 4, 64 * k + 64) =~= name_field(name));
    } else {
        assert(after.subrange(64 * j + 4, 64 * j + 64) == block.subrange(64 * j + 4, 64 * j + 64));
    }
}

proof fn lemma_replaced(
    dirs: Seq<(u32, IndexView)>,
    parent: u32,
    oname: Seq<u8>,
    nname: Seq<u8>,
    child: u32,
)
    requires
        oname != nname,
    ensures
        ({
            let after = with_name(without_name(dirs, parent, oname), parent, nname, child, 0);
            match (dir_at(dirs, parent), dir_at(after, parent)) {
                (Some(_), Some(e)) => at_key(e.names, nname) == Some(child) && at_key(e.names, oname)
                    is None,
                (None, None) => true,
                _ => false,
            }
        }),
{
    if dir_at(dirs, parent) is Some {
        lemma_forgotten(dirs, parent, oname);
        lemma_pos_positive(dirs, parent);
        let p = dir_pos(dirs, parent);
        let once = without_name(dirs, parent, oname);
        assert forall|i: int| 0 <= i < p implies (#[trigger] once[i]).0 != parent by {
            lemma_before(dirs, parent, i);
        }
        lemma_dir_pos(once, parent, p);
        let twice = with_name(once, parent, nname, child, 0);
        assert forall|i: int| 0 <= i < p implies (#[trigger] twice[i]).0 != parent by {
            assert(once[i].0 != parent);
        }
        lemma_dir_pos(twice, parent, p);
    }
}

/// The names in a directory after the entry at place `s` was given another one.
proof fn lemma_names_replaced(
    b0: Seq<Seq<u8>>,
    b3: Seq<Seq<u8>>,
    sb: Superblock,
    direct: Seq<u32>,
    oname: Seq<u8>,
    nname: Seq<u8>,
    s: int,
    q: int,
)
    requires
        sb.wf(),
        b0.len() >= sb.zones,
        forall|b: int| 0 <= b < b0.len() ==> (#[trigger] b0[b]).len() == 2048,
        zones_sound(b0, sb, direct),
        0 <= s < 384,
        0 <= q < 384,
        entry_named(b0, direct, oname, s),
        b3 == b0.update(
            direct[s / 32] as int,
            splice(b0[direct[s / 32] as int], 64 * (s % 32) + 4, name_field(nname)),
        ),
    ensures
        entry_used(b3, direct, q) == entry_used(b0, direct, q),
        entry_used(b0, direct, q) ==> entry_raw(b3[direct[q / 32] as int], q % 32) == if q == s {
            name_field(nname)
        } else {
            entry_raw(b0[direct[q / 32] as int], q % 32)
        },
        entry_used(b0, direct, q) ==> entry_ino(b3[direct[q / 32] as int], q % 32) == entry_ino(
            b0[direct[q / 32] as int],
            q % 32,
        ),
{
    let bi = s / 32;
    let bj = q / 32;
    assert(sb.first_data_zone <= direct[bi] < sb.zones);
    if direct[bj] != 0 {
        if bi == bj {
            lemma_renamed_entry(b0[direct[bi] as int], s % 32, nname, q % 32);
        } else if bi < bj {
            assert(direct[bi] != direct[bj]);
        } else {
            assert(direct[bj] != direct[bi]);
        }
    }
}

/// A name that occurs once in its directory and is changed there to one that the directory
/// did not have leads nowhere afterwards, and the new name leads to what it led to.
#[verifier::rlimit(40)]
pub proof fn lemma_renamed_is_found(
    b0: Seq<Seq<u8>>,
    b3: Seq<Seq<u8>>,
    sb: Superblock,
    c0: CacheView,
    c3: CacheView,
    parent: u32,
    odir: Seq<u8>,
    oname: Seq<u8>,
    ndir: Seq<u8>,
    nname: Seq<u8>,
    new_path: Seq<u8>,
)
    requires
        sb.wf(),
        b0.len() >= sb.zones,
        forall|b: int| 0 <= b < b0.len() ==> (#[trigger] b0[b]).len() == 2048,
        valid_ino(sb, parent as int),
        oname.len() > 0,
        dir_name(name_field(nname)) == Some(nname),
        zones_sound(b0, sb, inode_at(b0, sb, parent as int).direct),
        forall|i: int, j: int|
            0 <= i < j < 384 && #[trigger] entry_named(
                b0,
                inode_at(b0, sb, parent as int).direct,
                oname,
                i,
            ) ==> !#[trigger] entry_named(b0, inode_at(b0, sb, parent as int).direct, oname, j),
        forall|k: int|
            0 <= k < 384 ==> !#[trigger] entry_named(
                b0,
                inode_at(b0, sb, parent as int).direct,
                nname,
                k,
            ),
        renamed(b0, b3, sb, c0, c3, parent, odir, oname, parent, ndir, nname, new_path),
    ensures
        exists|t: (u32, usize, u32)| #[trigger]
            entry_place(b0, inode_at(b0, sb, parent as int).direct, oname, t) && found_in(
                b3,
                sb,
                c3,
                parent,
                nname,
            ).0 == Some(t.2),
        found_in(b3, sb, c3, parent, oname).0 is None,
        forall|o: int| valid_ino(sb, o) ==> #[trigger] inode_at(b3, sb, o) == inode_at(b0, sb, o),
{
    let t = choose|t: (u32, usize, u32)| #[trigger]
        renamed_at(b0, b3, sb, c0, c3, parent, odir, oname, parent, ndir, nname, new_path, t);
    let direct = inode_at(b0, sb, parent as int).direct;
    assert forall|u: (u32, usize, u32)| !#[trigger] entry_place(b0, direct, nname, u) by {
        if entry_place(b0, direct, nname, u) {
            let k = choose|k: int| #[trigger] slot_found(b0, direct, nname, k, u);
            assert(entry_named(b0, direct, nname, k));
        }
    }
    let s = choose|s: int| #[trigger] slot_found(b0, direct, oname, s, t);
    assert(entry_named(b0, direct, oname, s));
    assert(sb.first_data_zone <= direct[s / 32] < sb.zones);
    assert(b3 == b0.update(
        direct[s / 32] as int,
        splice(b0[direct[s / 32] as int], 64 * (s % 32) + 4, name_field(nname)),
    ));
    assert forall|o: int| valid_ino(sb, o) implies #[trigger] inode_at(b3, sb, o) == inode_at(
        b0,
        sb,
        o,
    ) by {
        let ob = sb.itable() + (o - 1) / 16;
        assert(ob < sb.first_data_zone);
        assert(b3[ob] == b0[ob]);
        assert(inode_record(b3, sb, o) == inode_record(b0, sb, o));
    }
    assert(oname != nname) by {
        assert(!entry_named(b0, direct, nname, s));
    }
    lemma_replaced(c0.dirs, parent, oname, nname, t.2);
    if dir_at(c0.dirs, parent) is None {
        assert forall|q: int| 0 <= q < 384 implies !#[trigger] entry_named(b3, direct, oname, q) by {
            lemma_names_replaced(b0, b3, sb, direct, oname, nname, s, q);
            if q < s {
                assert(!entry_named(b0, direct, oname, q));
            } else if q > s {
                assert(!entry_named(b0, direct, oname, q));
            }
        }
        lemma_no_name(b3, direct, oname, 384);
        assert forall|q: int| 0 <= q < 384 && q != s implies !#[trigger] entry_named(
            b3,
            direct,
            nname,
            q,
        ) by {
            lemma_names_replaced(b0, b3, sb, direct, oname, nname, s, q);
            assert(!entry_named(b0, direct, nname, q));
        }
        lemma_names_replaced(b0, b3, sb, direct, oname, nname, s, s);
        lemma_only_name(b3, direct, nname, s, t.2, 384);
    }
}

} // verus!
