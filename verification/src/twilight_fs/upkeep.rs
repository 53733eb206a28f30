//! A fresh volume is in order, and stays so when files and directories are made. Its names
//! stand for what is in use, also after renaming and removing.

use crate::block::{lemma_splice, splice};
use crate::bytes::{le_value, trim_end_spec};
use crate::paths::{absolute, segments};
use crate::syscall::pathname::{plain_segment, plain_segments};
use crate::twilight_fs::bitmap::{bit_at, is_first_clear, lemma_with_bit_at, with_bit_at};
use crate::twilight_fs::cache::{at_key, dir_at, dir_pos, with_name, without_name, IndexView};
use crate::twilight_fs::coherence::{
    dirs_agree, disk_entry, disk_walk, index_agrees, lemma_caches_agree, lemma_lookup_agrees,
    lemma_segments_of, lemma_walk_push, looked_into, names_agree, path_agrees, regular, walks_dirs,
    was_known,
};
use crate::twilight_fs::contents::lemma_names_kept;
use crate::twilight_fs::dir::{
    dir_index, dir_known, dir_name, dir_names, found_in, index_of, lemma_dir_pos_is,
};
use crate::twilight_fs::entries::{
    all_differ, lemma_added_step, lemma_found_slot, lemma_freed_bits, lemma_names_tell,
    lemma_same_bit, lemma_same_inode, names_of, names_step, slot_at, slot_has, slots_of, tidy, whole,
    zones_apart,
};
use crate::twilight_fs::fs::{
    inode_at, inode_record, lemma_with_inode, valid_ino, with_inode, Superblock,
};
use crate::twilight_fs::inode::{fresh_inode, InodeView, MODE_DIR};
use crate::twilight_fs::laws::{lemma_entry_bytes, lemma_zero_entry_ino, zones_sound};
use crate::twilight_fs::mount::{
    cleared, formatted, lemma_superblock_round_trip, no_caches, root_steps,
};
use crate::twilight_fs::moves::{
    clear_of_dirs, counts_entries, differ_in, in_order, lemma_dir_updated, lemma_dirs_step, lemma_entry_moves,
    lemma_name_freed, lemma_plain_front, lemma_tidy_dir, lemma_way_cleared, one_path,
};
use crate::twilight_fs::names::{
    entry_moved, entry_removed, parent_resolved, path_removed, remove_result, removed_at,
    rename_result, rename_steps, renamed, renamed_at, resolved, zones_freed,
};
use crate::twilight_fs::shared::CacheView;
use crate::twilight_fs::tree::{
    comes_before, create_dir_result, create_file_result, dir_block, dir_steps, dot, dot_dot,
    entry_added, entry_added_at, entry_bytes, entry_free, entry_put, file_steps, hint_of, name_field,
    node_inode, node_made, plus_entry, zero_block,
};
use crate::twilight_fs::volume::FsError;
use vstd::prelude::*;

verus! {

proof fn lemma_plain_text(s: Seq<u8>)
    requires
        forall|i: int| 0 <= i < s.len() ==> #[trigger] s[i] < 128,
    ensures
        vstd::utf8::valid_utf8(s),
    decreases s.len(),
{
    if s.len() > 0 {
        let b = s[0];
        assert(b < 128 ==> b & 0x80 == 0 && b & 0x7F == b) by (bit_vector);
        let rest = vstd::utf8::pop_first_scalar(s);
        assert(rest =~= s.skip(1));
        assert forall|i: int| 0 <= i < rest.len() implies #[trigger] rest[i] < 128 by {
            assert(rest[i] == s[i + 1]);
        }
        lemma_plain_text(rest);
    }
}

proof fn lemma_trimmed(s: Seq<u8>, k: nat)
    requires
        s.len() > 0,
        s.last() != 0,
    ensures
        trim_end_spec(s + Seq::new(k, |i: int| 0u8), 0) == s,
    decreases k,
{
    let all = s + Seq::new(k, |i: int| 0u8);
    if k == 0 {
        assert(all =~= s);
    } else {
        assert(all.drop_last() =~= s + Seq::new((k - 1) as nat, |i: int| 0u8));
        lemma_trimmed(s, (k - 1) as nat);
    }
}

/// A directory names its own two entries as they are.
proof fn lemma_own_names()
    ensures
        dir_name(name_field(dot())) == Some(dot()),
        dir_name(name_field(dot_dot())) == Some(dot_dot()),
{
    lemma_plain_text(name_field(dot()));
    lemma_plain_text(name_field(dot_dot()));
    lemma_trimmed(dot(), 59);
    lemma_trimmed(dot_dot(), 58);
    assert(name_field(dot()) =~= dot() + Seq::new(59, |i: int| 0u8));
    assert(name_field(dot_dot()) =~= dot_dot() + Seq::new(58, |i: int| 0u8));
}

/// What making a node changes: its inode, its bit and that of its zone, and no data zone.
#[verifier::spinoff_prover]
#[verifier::rlimit(30)]
pub(crate) proof fn lemma_node_written(
    b0: Seq<Seq<u8>>,
    b1: Seq<Seq<u8>>,
    sb: Superblock,
    node: InodeView,
    n: u32,
    z: u32,
)
    requires
        whole(b0, sb),
        node_made(b0, b1, sb, node, n, z),
        node.direct.len() == 12,
    ensures
        whole(b1, sb),
        b1.len() == b0.len(),
        valid_ino(sb, n as int),
        forall|o: int|
            valid_ino(sb, o) ==> #[trigger] inode_at(b1, sb, o) == if o == n {
                InodeView { direct: node.direct.update(0, z), ..node }
            } else {
                inode_at(b0, sb, o)
            },
        forall|r: int|
            0 <= r < sb.ninodes ==> #[trigger] bit_at(b1, 1, r) == (bit_at(b0, 1, r) || r == n - 1),
        forall|q: int|
            0 <= q < sb.data_zones() ==> #[trigger] bit_at(b1, sb.zmap(), q) == (bit_at(
                b0,
                sb.zmap(),
                q,
            ) || q == z - sb.first_data_zone),
        forall|b: int| sb.first_data_zone <= b < b0.len() ==> #[trigger] b1[b] == b0[b],
        !bit_at(b0, 1, n - 1),
        !bit_at(b0, sb.zmap(), z - sb.first_data_zone),
        sb.first_data_zone <= z < sb.zones,
        z != 0,
{
    let r = n - 1;
    let q = z - sb.first_data_zone;
    let c = with_bit_at(b0, 1, r, true);
    let d = with_bit_at(c, sb.zmap(), q, true);
    let v = InodeView { direct: node.direct.update(0, z), ..node };
    assert(0 <= r / 16384 < sb.imap_blocks);
    assert(0 <= q / 16384 < sb.zmap_blocks);
    assert(whole(c, sb));
    assert(whole(d, sb));
    lemma_with_inode(d, sb, n as int, v, n as int);
    let at = sb.itable() + (n - 1) / 16;
    assert(sb.itable() <= at < sb.first_data_zone);
    assert forall|o: int| valid_ino(sb, o) implies #[trigger] inode_at(b1, sb, o) == if o == n {
        v
    } else {
        inode_at(b0, sb, o)
    } by {
        lemma_with_inode(d, sb, n as int, v, o);
        lemma_same_inode(b0, d, sb, o);
    }
    assert forall|i: int| 0 <= i < sb.ninodes implies #[trigger] bit_at(b1, 1, i) == (bit_at(b0, 1, i)
        || i == r) by {
        assert(0 <= i / 16384 < sb.imap_blocks);
        lemma_with_bit_at(b0, 1, r, i, true);
        assert(b1[1 + i / 16384] == c[1 + i / 16384]);
    }
    assert forall|i: int| 0 <= i < sb.data_zones() implies #[trigger] bit_at(b1, sb.zmap(), i) == (
    bit_at(b0, sb.zmap(), i) || i == q) by {
        assert(0 <= i / 16384 < sb.zmap_blocks);
        lemma_same_bit(b0, c, sb, i);
        lemma_with_bit_at(c, sb.zmap(), q, i, true);
        lemma_same_bit(d, b1, sb, i);
    }
    lemma_same_bit(b0, c, sb, q);
}

/// The directories of a volume once a node was made, where `bx` is what that leaves but for
/// the zone of the node, which is blank if the node is a directory.
#[verifier::spinoff_prover]
#[verifier::rlimit(30)]
proof fn lemma_node_step(
    b0: Seq<Seq<u8>>,
    b1: Seq<Seq<u8>>,
    bx: Seq<Seq<u8>>,
    sb: Superblock,
    node: InodeView,
    n: u32,
    z: u32,
)
    requires
        whole(b0, sb),
        tidy(b0, sb),
        node_made(b0, b1, sb, node, n, z),
        node.direct == Seq::new(12, |i: int| 0u32),
        bx.len() == b1.len(),
        forall|b: int| 0 <= b < b1.len() && b != z ==> #[trigger] bx[b] == b1[b],
        bx[z as int].len() == 2048,
        node.dir() ==> bx[z as int] == zero_block(),
    ensures
        whole(bx, sb),
        tidy(bx, sb),
        bx.len() == b0.len(),
        forall|o: int|
            valid_ino(sb, o) ==> #[trigger] inode_at(bx, sb, o) == if o == n {
                InodeView { direct: node.direct.update(0, z), ..node }
            } else {
                inode_at(b0, sb, o)
            },
        forall|o: int|
            valid_ino(sb, o) && o != n && (#[trigger] inode_at(b0, sb, o)).dir() ==> names_of(bx, sb, o)
                == names_of(b0, sb, o),
        node.dir() ==> names_of(bx, sb, n as int) == Map::<Seq<u8>, u32>::empty(),
        forall|r: int| 0 <= r < sb.ninodes ==> #[trigger] bit_at(bx, 1, r) == bit_at(b1, 1, r),
        forall|q: int|
            0 <= q < sb.data_zones() ==> #[trigger] bit_at(bx, sb.zmap(), q) == bit_at(
                b1,
                sb.zmap(),
                q,
            ),
{
    lemma_node_written(b0, b1, sb, node, n, z);
    let v = InodeView { direct: node.direct.update(0, z), ..node };
    assert forall|o: int| valid_ino(sb, o) implies #[trigger] inode_at(bx, sb, o) == if o == n {
        v
    } else {
        inode_at(b0, sb, o)
    } by {
        lemma_same_inode(b1, bx, sb, o);
        assert(inode_at(b1, sb, o) == inode_at(bx, sb, o));
    }
    assert forall|i: int| 0 <= i < sb.ninodes implies #[trigger] bit_at(bx, 1, i) == bit_at(b1, 1, i) by {
        assert(0 <= i / 16384 < sb.imap_blocks);
        assert(bx[1 + i / 16384] == b1[1 + i / 16384]);
    }
    assert forall|i: int| 0 <= i < sb.data_zones() implies #[trigger] bit_at(bx, sb.zmap(), i) == bit_at(
        b1,
        sb.zmap(),
        i,
    ) by {
        lemma_same_bit(b1, bx, sb, i);
    }
    assert forall|o: int| valid_ino(sb, o) && o != n && (#[trigger] inode_at(b0, sb, o)).dir() implies names_of(
        bx,
        sb,
        o,
    ) == names_of(b0, sb, o) && zones_sound(bx, sb, inode_at(b0, sb, o).direct) && all_differ(
        slots_of(bx, inode_at(b0, sb, o).direct),
    ) && avoids(inode_at(b0, sb, o).direct, z) by {
        lemma_dir_kept(b0, b1, bx, sb, o, z);
        assert(inode_at(bx, sb, o) == inode_at(b0, sb, o));
    }
    if node.dir() {
        lemma_blank_dir(bx, sb, v.direct, z);
        assert(inode_at(bx, sb, n as int) == v);
    }
    assert forall|x: int, y: int|
        valid_ino(sb, x) && valid_ino(sb, y) && x != y && (#[trigger] inode_at(bx, sb, x)).dir() && (
        #[trigger] inode_at(bx, sb, y)).dir() implies zones_apart(
        inode_at(bx, sb, x).direct,
        inode_at(bx, sb, y).direct,
    ) by {
        if x != n && y != n {
            assert(inode_at(b0, sb, x).dir() && inode_at(b0, sb, y).dir());
        } else if x == n {
            assert(inode_at(b0, sb, y).dir());
            assert(avoids(inode_at(b0, sb, y).direct, z));
        } else {
            assert(inode_at(b0, sb, x).dir());
            assert(avoids(inode_at(b0, sb, x).direct, z));
        }
    }
    assert forall|x: int| valid_ino(sb, x) && (#[trigger] inode_at(bx, sb, x)).dir() implies zones_sound(
        bx,
        sb,
        inode_at(bx, sb, x).direct,
    ) && all_differ(slots_of(bx, inode_at(bx, sb, x).direct)) by {
        if x != n {
            assert(inode_at(b0, sb, x).dir());
        }
    }
}

/// Whether a list does not hold the zone `z`.
spec fn avoids(direct: Seq<u32>, z: u32) -> bool {
    forall|i: int| 0 <= i < 12 ==> #[trigger] direct[i] != z
}

/// A directory is as it was where its zones are, and stay in use.
proof fn lemma_dir_kept(
    b0: Seq<Seq<u8>>,
    b1: Seq<Seq<u8>>,
    bx: Seq<Seq<u8>>,
    sb: Superblock,
    o: int,
    z: u32,
)
    requires
        whole(b0, sb),
        tidy(b0, sb),
        valid_ino(sb, o),
        inode_at(b0, sb, o).dir(),
        z != 0,
        !bit_at(b0, sb.zmap(), z - sb.first_data_zone),
        b1.len() == b0.len(),
        forall|b: int| sb.first_data_zone <= b < b0.len() ==> #[trigger] b1[b] == b0[b],
        forall|b: int| 0 <= b < b1.len() && b != z ==> #[trigger] bx[b] == b1[b],
        forall|q: int|
            0 <= q < sb.data_zones() && bit_at(b0, sb.zmap(), q) ==> #[trigger] bit_at(b1, sb.zmap(), q),
        forall|q: int|
            0 <= q < sb.data_zones() ==> #[trigger] bit_at(bx, sb.zmap(), q) == bit_at(
                b1,
                sb.zmap(),
                q,
            ),
    ensures
        ({
            let direct = inode_at(b0, sb, o).direct;
            &&& dir_names(bx, direct, 384) == dir_names(b0, direct, 384)
            &&& zones_sound(bx, sb, direct)
            &&& all_differ(slots_of(bx, direct))
            &&& avoids(direct, z)
        }),
{
    let direct = inode_at(b0, sb, o).direct;
    assert(zones_sound(b0, sb, direct));
    assert forall|i: int| 0 <= i < 12 && #[trigger] direct[i] != 0 implies bx[direct[i] as int]
        == b0[direct[i] as int] && direct[i] != z && bit_at(
        bx,
        sb.zmap(),
        direct[i] - sb.first_data_zone,
    ) by {
        let q = direct[i] - sb.first_data_zone;
        assert(bit_at(b0, sb.zmap(), q));
        assert(bit_at(b1, sb.zmap(), q));
        assert(b1[direct[i] as int] == b0[direct[i] as int]);
    }
    lemma_names_kept(b0, bx, direct, 384);
    assert(slots_of(bx, direct) =~= slots_of(b0, direct)) by {
        assert forall|s: int| 0 <= s < 384 implies #[trigger] slot_at(bx, direct, s) == slot_at(
            b0,
            direct,
            s,
        ) by {
            assert(0 <= s / 32 < 12);
        }
    }
}

/// A directory with one zone, a blank one, is in order and has no names.
proof fn lemma_blank_dir(bx: Seq<Seq<u8>>, sb: Superblock, direct: Seq<u32>, z: u32)
    requires
        direct == Seq::new(12, |i: int| 0u32).update(0, z),
        z != 0,
        sb.first_data_zone <= z < sb.zones,
        bit_at(bx, sb.zmap(), z - sb.first_data_zone),
        bx[z as int] == zero_block(),
    ensures
        zones_sound(bx, sb, direct),
        all_differ(slots_of(bx, direct)),
        dir_names(bx, direct, 384) == Map::<Seq<u8>, u32>::empty(),
{
    assert forall|s: int| 0 <= s < 384 implies #[trigger] slot_at(bx, direct, s) is None by {
        lemma_zero_entry_ino(s % 32);
    }
    let slots = slots_of(bx, direct);
    assert forall|i: int, name: Seq<u8>| 0 <= i < 384 implies !#[trigger] slot_has(slots, i, name) by {
        assert(slots[i] == slot_at(bx, direct, i));
    }
    lemma_no_names(bx, direct, 384);
}

/// A directory with a blank zone has no names.
proof fn lemma_no_names(blocks: Seq<Seq<u8>>, direct: Seq<u32>, n: int)
    requires
        0 <= n <= 384,
        forall|s: int| 0 <= s < 384 ==> #[trigger] slot_at(blocks, direct, s) is None,
        direct.len() == 12,
    ensures
        dir_names(blocks, direct, n) == Map::<Seq<u8>, u32>::empty(),
    decreases n,
{
    if n > 0 {
        lemma_no_names(blocks, direct, n - 1);
        assert(slot_at(blocks, direct, n - 1) is None);
    }
}

/// Putting an entry does the same where a zone that is in use was blanked first; the first
/// zone of a directory of size zero is blanked anyway.
#[verifier::spinoff_prover]
#[verifier::rlimit(30)]
proof fn lemma_put_aside(
    b0: Seq<Seq<u8>>,
    b1: Seq<Seq<u8>>,
    sb: Superblock,
    parent: u32,
    entry: Seq<u8>,
    s: int,
    z: u32,
    k: u32,
)
    requires
        whole(b0, sb),
        valid_ino(sb, parent as int),
        0 <= s < 384,
        entry.len() == 64,
        entry_put(b0, b1, sb, parent, entry, s, z),
        inode_at(b0, sb, parent as int).direct.len() == 12,
        sb.first_data_zone <= k < sb.zones,
        z == k ==> dir_block(b0, inode_at(b0, sb, parent as int), s / 32) == zero_block() && inode_at(
            b0,
            sb,
            parent as int,
        ).size == 0 && s < 32,
    ensures
        ({
            let bx = b0.update(k as int, zero_block());
            let after = if z == k {
                b1
            } else {
                b1.update(k as int, zero_block())
            };
            &&& inode_at(bx, sb, parent as int) == inode_at(b0, sb, parent as int)
            &&& entry_put(bx, after, sb, parent, entry, s, z)
            &&& dir_block(bx, inode_at(b0, sb, parent as int), s / 32) == dir_block(
                b0,
                inode_at(b0, sb, parent as int),
                s / 32,
            )
        }),
{
    let bx = b0.update(k as int, zero_block());
    let dir = inode_at(b0, sb, parent as int);
    let bi = s / 32;
    let fresh = dir.direct[bi] == 0;
    let r = z - sb.first_data_zone;
    lemma_same_inode(b0, bx, sb, parent as int);
    let v = InodeView { size: plus_entry(dir.size), direct: dir.direct.update(bi, z), ..dir };
    let at = sb.itable() + (parent - 1) / 16;
    assert(sb.itable() <= at < sb.first_data_zone);
    if fresh {
        assert(0 <= r / 16384 < sb.zmap_blocks) by {
            assert(r < sb.zmap_blocks * 16384);
        }
        assert forall|i: int| 0 <= i < sb.data_zones() implies bit_at(bx, sb.zmap(), i) == bit_at(
            b0,
            sb.zmap(),
            i,
        ) by {
            lemma_same_bit(b0, bx, sb, i);
        }
        assert(is_first_clear(bx, sb.zmap(), sb.data_zones(), r));
    }
    assert(dir_block(bx, dir, bi) == dir_block(b0, dir, bi));
    let block = splice(dir_block(b0, dir, bi), 64 * (s % 32), entry);
    let base = if fresh {
        with_bit_at(b0, sb.zmap(), r, true)
    } else {
        b0
    };
    let basex = if fresh {
        with_bit_at(bx, sb.zmap(), r, true)
    } else {
        bx
    };
    let put = base.update(z as int, block);
    let putx = basex.update(z as int, block);
    let after = with_inode(putx, sb, parent as int, v);
    if z == k {
        assert(putx =~= put);
    } else {
        assert(putx =~= put.update(k as int, zero_block()));
        assert(after =~= b1.update(k as int, zero_block()));
    }
}

/// Putting an entry leaves the bitmap of the inodes alone.
proof fn lemma_put_imap(
    b0: Seq<Seq<u8>>,
    b1: Seq<Seq<u8>>,
    sb: Superblock,
    parent: u32,
    entry: Seq<u8>,
    s: int,
    z: u32,
)
    requires
        whole(b0, sb),
        valid_ino(sb, parent as int),
        0 <= s < 384,
        entry_put(b0, b1, sb, parent, entry, s, z),
        sb.first_data_zone <= z,
        z != 0,
    ensures
        forall|r: int| 0 <= r < sb.ninodes ==> #[trigger] bit_at(b1, 1, r) == bit_at(b0, 1, r),
{
    let dir = inode_at(b0, sb, parent as int);
    let at = sb.itable() + (parent - 1) / 16;
    let q = z - sb.first_data_zone;
    assert(sb.itable() <= at < sb.first_data_zone);
    assert forall|r: int| 0 <= r < sb.ninodes implies #[trigger] bit_at(b1, 1, r) == bit_at(b0, 1, r) by {
        assert(0 <= r / 16384 < sb.imap_blocks);
        assert(1 + r / 16384 < sb.zmap());
        assert(q / 16384 >= 0);
        assert(b1[1 + r / 16384] == b0[1 + r / 16384]);
    }
}

/// Putting an entry makes the size of the directory that of one entry more.
proof fn lemma_put_size(
    b0: Seq<Seq<u8>>,
    b1: Seq<Seq<u8>>,
    sb: Superblock,
    parent: u32,
    entry: Seq<u8>,
    s: int,
    z: u32,
)
    requires
        whole(b0, sb),
        valid_ino(sb, parent as int),
        0 <= s < 384,
        entry.len() == 64,
        entry_put(b0, b1, sb, parent, entry, s, z),
        inode_at(b0, sb, parent as int).direct.len() == 12,
        sb.first_data_zone <= z < sb.zones,
    ensures
        inode_at(b1, sb, parent as int).size == plus_entry(inode_at(b0, sb, parent as int).size),
{
    let dir = inode_at(b0, sb, parent as int);
    let bi = s / 32;
    let r = z - sb.first_data_zone;
    let base = if dir.direct[bi] == 0 {
        with_bit_at(b0, sb.zmap(), r, true)
    } else {
        b0
    };
    if dir.direct[bi] == 0 {
        assert(r < sb.zmap_blocks * 16384);
        assert(0 <= r / 16384 < sb.zmap_blocks);
    }
    let block = dir_block(b0, dir, bi);
    assert(block.len() == 2048);
    lemma_splice(block, 64 * (s % 32), entry);
    let put = base.update(z as int, splice(block, 64 * (s % 32), entry));
    assert(whole(put, sb));
    let v = InodeView { size: plus_entry(dir.size), direct: dir.direct.update(bi, z), ..dir };
    lemma_with_inode(put, sb, parent as int, v, parent as int);
}

/// Whether every name in a directory in use stands for an inode that is in use, as the root
/// is.
pub open spec fn names_in_use(blocks: Seq<Seq<u8>>, sb: Superblock) -> bool {
    &&& bit_at(blocks, 1, 0)
    &&& forall|d: u32, x: Seq<u8>|
        valid_ino(sb, d as int) && bit_at(blocks, 1, d - 1) && inode_at(
            blocks,
            sb,
            d as int,
        ).dir() ==> match #[trigger] disk_entry(
            blocks,
            sb,
            d,
            x,
        ) {
            Some(n) => valid_ino(sb, n as int) && bit_at(blocks, 1, n - 1),
            None => true,
        }
}

/// Whether the remembered directories are in use.
pub open spec fn dirs_in_use(blocks: Seq<Seq<u8>>, dirs: Seq<(u32, IndexView)>) -> bool {
    forall|k: int| 0 <= k < dirs.len() ==> bit_at(blocks, 1, (#[trigger] dirs[k]).0 - 1)
}

/// Whether `parent` has got the name `name` for `n`, which was not in use, and all other
/// names are as they were. Where `n` is a directory it has only its own two entries.
pub open spec fn grown(
    b0: Seq<Seq<u8>>,
    b1: Seq<Seq<u8>>,
    sb: Superblock,
    parent: u32,
    name: Seq<u8>,
    n: u32,
) -> bool {
    &&& whole(b1, sb)
    &&& tidy(b1, sb)
    &&& valid_ino(sb, n as int)
    &&& !bit_at(b0, 1, n - 1)
    &&& forall|r: int|
        0 <= r < sb.ninodes ==> #[trigger] bit_at(b1, 1, r) == (bit_at(b0, 1, r) || r == n - 1)
    &&& forall|o: int|
        valid_ino(sb, o) && o != n ==> (#[trigger] inode_at(b1, sb, o)).dir() == inode_at(
            b0,
            sb,
            o,
        ).dir()
    &&& forall|o: u32, x: Seq<u8>|
        valid_ino(sb, o as int) && o != n && inode_at(b0, sb, o as int).dir() ==> #[trigger] disk_entry(
            b1,
            sb,
            o,
            x,
        ) == if o == parent && x == name {
            Some(n)
        } else {
            disk_entry(b0, sb, o, x)
        }
    &&& inode_at(b1, sb, n as int).dir() ==> forall|x: Seq<u8>| #[trigger]
        disk_entry(b1, sb, n, x) == if x == dot() {
            Some(n)
        } else if x == dot_dot() {
            Some(parent)
        } else {
            None
        }
}

/// A path leads where it led, and to something that is in use.
proof fn lemma_grown_forth(
    b0: Seq<Seq<u8>>,
    b1: Seq<Seq<u8>>,
    sb: Superblock,
    parent: u32,
    name: Seq<u8>,
    n: u32,
    parts: Seq<Seq<u8>>,
    ino: u32,
)
    requires
        whole(b0, sb),
        tidy(b0, sb),
        names_in_use(b0, sb),
        grown(b0, b1, sb, parent, name, n),
        disk_entry(b0, sb, parent, name) is None,
        valid_ino(sb, ino as int),
        bit_at(b0, 1, ino - 1),
        walks_dirs(b0, sb, parts, ino),
        disk_walk(b0, sb, parts, ino) is Ok,
    ensures
        walks_dirs(b1, sb, parts, ino),
        disk_walk(b1, sb, parts, ino) == disk_walk(b0, sb, parts, ino),
        valid_ino(sb, disk_walk(b0, sb, parts, ino)->Ok_0 as int),
        bit_at(b0, 1, disk_walk(b0, sb, parts, ino)->Ok_0 - 1),
    decreases parts.len(),
{
    if parts.len() > 0 {
        lemma_tidy_dir(b0, sb, ino);
        assert(inode_at(b1, sb, ino as int).dir());
        lemma_tidy_dir(b1, sb, ino);
        let next = disk_entry(b0, sb, ino, parts[0])->0;
        assert(disk_entry(b1, sb, ino, parts[0]) == Some(next));
        lemma_grown_forth(b0, b1, sb, parent, name, n, parts.skip(1), next);
    }
}

/// Whether `parts` leads from `ino` to `parent`, and then to `name` in it.
spec fn ends_with(
    b0: Seq<Seq<u8>>,
    sb: Superblock,
    parts: Seq<Seq<u8>>,
    ino: u32,
    parent: u32,
    name: Seq<u8>,
) -> bool {
    &&& parts.len() > 0
    &&& parts.last() == name
    &&& walks_dirs(b0, sb, parts.drop_last(), ino)
    &&& disk_walk(b0, sb, parts.drop_last(), ino) == Ok::<u32, FsError>(parent)
}

/// A path leads where it led, or through the new name, and there it ends.
#[verifier::spinoff_prover]
#[verifier::rlimit(40)]
proof fn lemma_grown_back(
    b0: Seq<Seq<u8>>,
    b1: Seq<Seq<u8>>,
    sb: Superblock,
    parent: u32,
    name: Seq<u8>,
    n: u32,
    parts: Seq<Seq<u8>>,
    ino: u32,
)
    requires
        whole(b0, sb),
        tidy(b0, sb),
        names_in_use(b0, sb),
        grown(b0, b1, sb, parent, name, n),
        valid_ino(sb, ino as int),
        bit_at(b0, 1, ino - 1),
        plain_segments(parts),
        walks_dirs(b1, sb, parts, ino),
        disk_walk(b1, sb, parts, ino) is Ok,
    ensures
        ({
            let end = disk_walk(b1, sb, parts, ino)->Ok_0;
            if end == n {
                ends_with(b0, sb, parts, ino, parent, name)
            } else {
                walks_dirs(b0, sb, parts, ino) && disk_walk(b0, sb, parts, ino) == Ok::<u32, FsError>(end)
            }
        }),
    decreases parts.len(),
{
    if parts.len() > 0 {
        let rest = parts.skip(1);
        assert forall|i: int| 0 <= i < rest.len() implies plain_segment(#[trigger] rest[i]) by {
            assert(rest[i] == parts[i + 1]);
        }
        assert(inode_at(b1, sb, ino as int).dir());
        assert(inode_at(b0, sb, ino as int).dir());
        lemma_tidy_dir(b0, sb, ino);
        let next = disk_entry(b1, sb, ino, parts[0])->0;
        assert(disk_walk(b1, sb, parts, ino) == disk_walk(b1, sb, rest, next));
        assert(walks_dirs(b1, sb, rest, next));
        if ino == parent && parts[0] == name {
            assert(next == n);
            lemma_ends_there(b1, sb, parent, n, rest);
            assert(parts.drop_last() =~= Seq::<Seq<u8>>::empty());
            assert(parts.last() == name);
        } else {
            assert(disk_entry(b0, sb, ino, parts[0]) == Some(next));
            lemma_grown_back(b0, b1, sb, parent, name, n, rest, next);
            if disk_walk(b1, sb, parts, ino)->Ok_0 == n {
                let front = parts.drop_last();
                assert(front.skip(1) =~= rest.drop_last());
                assert(front[0] == parts[0]);
                assert(rest.last() == parts.last());
            }
        }
    }
}

/// No plain path leads on from a new node.
proof fn lemma_ends_there(b1: Seq<Seq<u8>>, sb: Superblock, parent: u32, n: u32, rest: Seq<Seq<u8>>)
    requires
        whole(b1, sb),
        tidy(b1, sb),
        valid_ino(sb, n as int),
        inode_at(b1, sb, n as int).dir() ==> forall|x: Seq<u8>| #[trigger]
            disk_entry(b1, sb, n, x) == if x == dot() {
                Some(n)
            } else if x == dot_dot() {
                Some(parent)
            } else {
                None
            },
        plain_segments(rest),
        walks_dirs(b1, sb, rest, n),
        disk_walk(b1, sb, rest, n) is Ok,
    ensures
        rest.len() == 0,
{
    if rest.len() > 0 {
        assert(plain_segment(rest[0]));
        assert(crate::syscall::pathname::dot() =~= dot());
        assert(crate::syscall::pathname::dot_dot() =~= dot_dot());
        assert(disk_entry(b1, sb, n, rest[0]) is None);
    }
}

/// A volume in order is so when a name was added.
#[verifier::spinoff_prover]
proof fn lemma_grown_in_order(
    b0: Seq<Seq<u8>>,
    b1: Seq<Seq<u8>>,
    sb: Superblock,
    parent: u32,
    name: Seq<u8>,
    n: u32,
)
    requires
        in_order(b0, sb),
        names_in_use(b0, sb),
        grown(b0, b1, sb, parent, name, n),
        valid_ino(sb, parent as int),
        inode_at(b0, sb, parent as int).dir(),
        bit_at(b0, 1, parent - 1),
    ensures
        in_order(b1, sb),
        names_in_use(b1, sb),
{
    assert forall|p: Seq<Seq<u8>>, q: Seq<Seq<u8>>|
        #![trigger disk_walk(b1, sb, p, 1), disk_walk(b1, sb, q, 1)]
        plain_segments(p) && plain_segments(q) && walks_dirs(b1, sb, p, 1) && walks_dirs(
            b1,
            sb,
            q,
            1,
        ) && disk_walk(b1, sb, p, 1) == disk_walk(b1, sb, q, 1) && (disk_walk(
            b1,
            sb,
            p,
            1,
        ) matches Ok(d) && valid_ino(sb, d as int) && inode_at(b1, sb, d as int).dir()) implies p == q by {
        lemma_grown_back(b0, b1, sb, parent, name, n, p, 1);
        lemma_grown_back(b0, b1, sb, parent, name, n, q, 1);
        let end = disk_walk(b1, sb, p, 1)->Ok_0;
        if end == n {
            let x = p.drop_last();
            let y = q.drop_last();
            assert forall|i: int| 0 <= i < x.len() implies plain_segment(#[trigger] x[i]) by {
                assert(x[i] == p[i]);
            }
            assert forall|i: int| 0 <= i < y.len() implies plain_segment(#[trigger] y[i]) by {
                assert(y[i] == q[i]);
            }
            assert(disk_walk(b0, sb, x, 1) == disk_walk(b0, sb, y, 1));
            assert(x == y);
            assert(p =~= x.push(name));
            assert(q =~= y.push(name));
        } else {
            assert(inode_at(b1, sb, end as int).dir() == inode_at(b0, sb, end as int).dir());
            assert(disk_walk(b0, sb, p, 1) == disk_walk(b0, sb, q, 1));
        }
    }
    assert forall|d: u32, x: Seq<u8>|
        valid_ino(sb, d as int) && bit_at(b1, 1, d - 1) && inode_at(
            b1,
            sb,
            d as int,
        ).dir() implies match #[trigger] disk_entry(
        b1,
        sb,
        d,
        x,
    ) {
        Some(m) => valid_ino(sb, m as int) && bit_at(b1, 1, m - 1),
        None => true,
    } by {
        if d != n {
            assert(inode_at(b0, sb, d as int).dir());
            assert(bit_at(b1, 1, d - 1) == (bit_at(b0, 1, d - 1) || d == n));
            if let Some(m) = disk_entry(b0, sb, d, x) {
                assert(bit_at(b0, 1, m - 1));
            }
        }
        assert(bit_at(b1, 1, n - 1));
        assert(bit_at(b1, 1, parent - 1));
        if let Some(m) = disk_entry(b1, sb, d, x) {
            assert(bit_at(b1, 1, m - 1) == (bit_at(b0, 1, m - 1) || m == n));
        }
    }
    assert(bit_at(b1, 1, 0) == (bit_at(b0, 1, 0) || 0 == n - 1));
}

/// What is remembered of directories agrees with the blocks once a node was made.
proof fn lemma_dirs_after_node(
    b0: Seq<Seq<u8>>,
    bx: Seq<Seq<u8>>,
    sb: Superblock,
    dirs: Seq<(u32, IndexView)>,
    n: u32,
)
    requires
        dirs_agree(b0, sb, dirs),
        dirs_in_use(b0, dirs),
        !bit_at(b0, 1, n - 1),
        bx.len() == b0.len(),
        forall|o: int|
            valid_ino(sb, o) && o != n ==> #[trigger] inode_at(bx, sb, o) == inode_at(b0, sb, o),
        forall|o: int|
            valid_ino(sb, o) && o != n && (#[trigger] inode_at(b0, sb, o)).dir() ==> names_of(bx, sb, o)
                == names_of(b0, sb, o),
    ensures
        dirs_agree(bx, sb, dirs),
{
    assert forall|i: int| 0 <= i < dirs.len() implies index_agrees(
        bx,
        sb,
        (#[trigger] dirs[i]).0,
        dirs[i].1,
    ) by {
        let o = dirs[i].0;
        assert(index_agrees(b0, sb, dirs[i].0, dirs[i].1));
        assert(inode_at(bx, sb, o as int) == inode_at(b0, sb, o as int));
        assert(names_of(bx, sb, o as int) == names_of(b0, sb, o as int));
    }
}

/// The entry for a new node, whatever stands in the zone of the node.
#[verifier::spinoff_prover]
#[verifier::rlimit(40)]
proof fn lemma_node_entered(
    b0: Seq<Seq<u8>>,
    b1: Seq<Seq<u8>>,
    bx: Seq<Seq<u8>>,
    b2: Seq<Seq<u8>>,
    by: Seq<Seq<u8>>,
    sb: Superblock,
    c1: CacheView,
    c2: CacheView,
    parent: u32,
    name: Seq<u8>,
    node: InodeView,
    n: u32,
    z: u32,
    s: int,
    y: u32,
)
    requires
        whole(b0, sb),
        tidy(b0, sb),
        dirs_agree(b0, sb, c1.dirs),
        dirs_in_use(b0, c1.dirs),
        valid_ino(sb, parent as int),
        parent != n,
        inode_at(b0, sb, parent as int).dir(),
        inode_at(b0, sb, parent as int).size > 0,
        name.len() > 0,
        dir_name(name_field(name)) == Some(name),
        !names_of(b0, sb, parent as int).dom().contains(name),
        node_made(b0, b1, sb, node, n, z),
        node.direct == Seq::new(12, |i: int| 0u32),
        node.dir() ==> bx == b1.update(z as int, zero_block()) && by == b2.update(z as int, zero_block()),
        !node.dir() ==> bx == b1 && by == b2,
        entry_added_at(b1, b2, sb, c1, c2, parent, name, n, s, y),
    ensures
        y != z,
        whole(b2, sb),
        names_step(bx, by, sb, parent as int, None, Some((name, n))),
        dirs_agree(by, sb, c2.dirs),
        forall|r: int|
            0 <= r < sb.ninodes ==> #[trigger] bit_at(by, 1, r) == (bit_at(b0, 1, r) || r == n - 1),
{
    lemma_node_written(b0, b1, sb, node, n, z);
    lemma_node_step(b0, b1, bx, sb, node, n, z);
    lemma_dirs_after_node(b0, bx, sb, c1.dirs, n);
    let dir = inode_at(b0, sb, parent as int);
    assert(inode_at(b1, sb, parent as int) == dir);
    assert(inode_at(bx, sb, parent as int) == dir);
    assert(zones_sound(b0, sb, dir.direct));
    let entry = entry_bytes(n, name);
    lemma_entry_bytes(zero_block(), 0, n, name, 0);
    lemma_entry_len(n, name);
    assert(0 <= s / 32 < 12);
    if dir.direct[s / 32] == 0 {
        assert(!bit_at(b1, sb.zmap(), y - sb.first_data_zone));
        assert(bit_at(b1, sb.zmap(), z - sb.first_data_zone));
    } else {
        assert(bit_at(b0, sb.zmap(), y - sb.first_data_zone));
    }
    assert(y != z);
    assert(sb.first_data_zone <= y);
    assert(y != 0) by {
        if y == 0 {
            assert(sb.first_data_zone == 0);
        }
    }
    if node.dir() {
        lemma_put_aside(b1, b2, sb, parent, entry, s, y, z);
    }
    assert(entry_put(bx, by, sb, parent, entry, s, y));
    assert(entry_free(b1, dir, s));
    assert(b2[z as int] == b1[z as int]);
    assert(names_of(bx, sb, parent as int) == names_of(b0, sb, parent as int));
    lemma_added_step(bx, by, sb, parent, name, n, s, y);
    lemma_dir_updated(c1.dirs, parent, name, n, (s + 1) as usize);
    lemma_dirs_step(bx, by, sb, c1.dirs, c2.dirs, parent, None, Some((name, n)));
    lemma_put_imap(bx, by, sb, parent, entry, s, y);
    assert(whole(b2, sb)) by {
        assert forall|b: int| 0 <= b < b2.len() implies (#[trigger] b2[b]).len() == 2048 by {
            if b != z {
                assert(by[b] == b2[b]);
            }
        }
    }
    assert forall|r: int| 0 <= r < sb.ninodes implies #[trigger] bit_at(by, 1, r) == (bit_at(b0, 1, r)
        || r == n - 1) by {
        assert(bit_at(bx, 1, r) == bit_at(b1, 1, r));
    }
}

proof fn lemma_entry_len(child: u32, name: Seq<u8>)
    ensures
        entry_bytes(child, name).len() == 64,
{
    crate::bytes::lemma_le_digits_len(child as nat, 4);
}

/// What the names become when a node was made and entered.
#[verifier::spinoff_prover]
proof fn lemma_names_grown(
    b0: Seq<Seq<u8>>,
    bx: Seq<Seq<u8>>,
    by: Seq<Seq<u8>>,
    sb: Superblock,
    parent: u32,
    name: Seq<u8>,
    n: u32,
)
    requires
        whole(b0, sb),
        tidy(b0, sb),
        forall|o: int|
            valid_ino(sb, o) && o != n ==> #[trigger] inode_at(bx, sb, o) == inode_at(b0, sb, o),
        forall|o: int|
            valid_ino(sb, o) && o != n && (#[trigger] inode_at(b0, sb, o)).dir() ==> names_of(bx, sb, o)
                == names_of(b0, sb, o),
        names_step(bx, by, sb, parent as int, None, Some((name, n))),
    ensures
        forall|o: int|
            valid_ino(sb, o) && o != n ==> (#[trigger] inode_at(by, sb, o)).dir() == inode_at(
                b0,
                sb,
                o,
            ).dir(),
        forall|o: u32, x: Seq<u8>|
            valid_ino(sb, o as int) && o != n && inode_at(b0, sb, o as int).dir()
                ==> #[trigger] disk_entry(by, sb, o, x) == if o == parent && x == name {
                Some(n)
            } else {
                disk_entry(b0, sb, o, x)
            },
{
    assert forall|o: int| valid_ino(sb, o) && o != n implies (#[trigger] inode_at(by, sb, o)).dir()
        == inode_at(b0, sb, o).dir() by {
        assert(inode_at(bx, sb, o) == inode_at(b0, sb, o));
    }
    assert forall|o: u32, x: Seq<u8>|
        valid_ino(sb, o as int) && o != n && inode_at(b0, sb, o as int).dir() implies #[trigger] disk_entry(
        by,
        sb,
        o,
        x,
    ) == if o == parent && x == name {
        Some(n)
    } else {
        disk_entry(b0, sb, o, x)
    } by {
        lemma_tidy_dir(b0, sb, o);
        assert(inode_at(bx, sb, o as int) == inode_at(b0, sb, o as int));
        assert(inode_at(by, sb, o as int).dir());
        lemma_tidy_dir(by, sb, o);
        assert(names_of(bx, sb, o as int) == names_of(b0, sb, o as int));
        if o != parent {
            assert(names_of(by, sb, o as int) == names_of(bx, sb, o as int));
        } else {
            assert(names_of(by, sb, o as int) == names_of(b0, sb, o as int).insert(name, n));
        }
    }
}

/// What the names become when a file was made.
#[verifier::spinoff_prover]
#[verifier::rlimit(60)]
proof fn lemma_file_grown(
    b0: Seq<Seq<u8>>,
    b1: Seq<Seq<u8>>,
    b2: Seq<Seq<u8>>,
    sb: Superblock,
    c1: CacheView,
    c2: CacheView,
    parent: u32,
    name: Seq<u8>,
    node: InodeView,
    n: u32,
    z: u32,
)
    requires
        whole(b0, sb),
        tidy(b0, sb),
        dirs_agree(b0, sb, c1.dirs),
        dirs_in_use(b0, c1.dirs),
        valid_ino(sb, parent as int),
        parent != n,
        inode_at(b0, sb, parent as int).dir(),
        inode_at(b0, sb, parent as int).size > 0,
        name.len() > 0,
        dir_name(name_field(name)) == Some(name),
        !names_of(b0, sb, parent as int).dom().contains(name),
        node_made(b0, b1, sb, node, n, z),
        node.direct == Seq::new(12, |i: int| 0u32),
        !node.dir(),
        entry_added(b1, b2, sb, c1, c2, parent, name, n),
    ensures
        grown(b0, b2, sb, parent, name, n),
        dirs_agree(b2, sb, c2.dirs),
        c2.paths == c1.paths,
        dirs_in_use(b2, c2.dirs),
{
    let (s, y) = choose|s: int, y: u32| #[trigger]
        entry_added_at(b1, b2, sb, c1, c2, parent, name, n, s, y);
    lemma_node_written(b0, b1, sb, node, n, z);
    lemma_node_step(b0, b1, b1, sb, node, n, z);
    lemma_node_entered(b0, b1, b1, b2, b2, sb, c1, c2, parent, name, node, n, z, s, y);
    lemma_names_grown(b0, b1, b2, sb, parent, name, n);
    assert(inode_at(b2, sb, n as int).dir() == inode_at(b1, sb, n as int).dir());
    lemma_still_in_use(b0, b2, sb, c1.dirs, c2.dirs, parent, name, n, (s + 1) as usize, n);
}

/// The remembered directories are in use after one got a name.
proof fn lemma_still_in_use(
    b0: Seq<Seq<u8>>,
    b1: Seq<Seq<u8>>,
    sb: Superblock,
    dirs: Seq<(u32, IndexView)>,
    after: Seq<(u32, IndexView)>,
    d: u32,
    name: Seq<u8>,
    child: u32,
    hint: usize,
    n: u32,
)
    requires
        dirs_agree(b0, sb, dirs),
        dirs_in_use(b0, dirs),
        after == with_name(dirs, d, name, child, hint),
        forall|r: int|
            0 <= r < sb.ninodes ==> #[trigger] bit_at(b1, 1, r) == (bit_at(b0, 1, r) || r == n - 1),
    ensures
        dirs_in_use(b1, after),
{
    lemma_dir_updated(dirs, d, name, child, hint);
    assert forall|k: int| 0 <= k < after.len() implies bit_at(b1, 1, (#[trigger] after[k]).0 - 1) by {
        assert(index_agrees(b0, sb, dirs[k].0, dirs[k].1));
        assert(bit_at(b1, 1, dirs[k].0 - 1) == (bit_at(b0, 1, dirs[k].0 - 1) || dirs[k].0 == n));
    }
}

/// A directory that is not remembered stays so, and a search for a free entry in it starts
/// with the first.
proof fn lemma_unknown(c: CacheView, n: u32, name: Seq<u8>, child: u32, hint: usize)
    requires
        forall|k: int| 0 <= k < c.dirs.len() ==> (#[trigger] c.dirs[k]).0 != n,
    ensures
        dir_at(c.dirs, n) is None,
        hint_of(c, n) == 0,
        with_name(c.dirs, n, name, child, hint) == c.dirs,
{
    lemma_dir_pos_is(c.dirs, n);
    let p = dir_pos(c.dirs, n);
    if p < c.dirs.len() {
        assert(c.dirs[p].0 == n);
    }
}

/// A new directory gets its entry for itself, in its first place.
#[verifier::spinoff_prover]
#[verifier::rlimit(40)]
proof fn lemma_dot_step(
    b2: Seq<Seq<u8>>,
    by: Seq<Seq<u8>>,
    b3: Seq<Seq<u8>>,
    sb: Superblock,
    c2: CacheView,
    c3: CacheView,
    n: u32,
    z: u32,
    s: int,
    y: u32,
)
    requires
        whole(b2, sb),
        by == b2.update(z as int, zero_block()),
        whole(by, sb),
        tidy(by, sb),
        valid_ino(sb, n as int),
        inode_at(by, sb, n as int).dir(),
        inode_at(by, sb, n as int).size == 0,
        inode_at(by, sb, n as int).direct == Seq::new(12, |i: int| 0u32).update(0, z),
        sb.first_data_zone <= z < sb.zones,
        z != 0,
        names_of(by, sb, n as int) == Map::<Seq<u8>, u32>::empty(),
        forall|k: int| 0 <= k < c2.dirs.len() ==> (#[trigger] c2.dirs[k]).0 != n,
        entry_added_at(b2, b3, sb, c2, c3, n, dot(), n, s, y),
    ensures
        names_step(by, b3, sb, n as int, None, Some((dot(), n))),
        inode_at(b3, sb, n as int).size == 64,
        c3 == c2,
        forall|r: int| 0 <= r < sb.ninodes ==> #[trigger] bit_at(b3, 1, r) == bit_at(by, 1, r),
{
    let dir = inode_at(by, sb, n as int);
    lemma_same_inode(b2, by, sb, n as int);
    lemma_unknown(c2, n, dot(), n, (s + 1) as usize);
    assert(c3.dirs == c2.dirs);
    lemma_zero_entry_ino(0);
    assert(entry_free(b2, dir, 0));
    if s > 0 {
        assert(comes_before(0, 0, s));
        assert(false);
    }
    assert(s == 0);
    assert(y == z);
    let entry = entry_bytes(n, dot());
    lemma_entry_len(n, dot());
    lemma_put_aside(b2, b3, sb, n, entry, 0, z, z);
    lemma_own_names();
    lemma_added_step(by, b3, sb, n, dot(), n, 0, z);
    lemma_put_imap(by, b3, sb, n, entry, 0, z);
    lemma_put_size(by, b3, sb, n, entry, 0, z);
}

/// A new directory gets its entry for its parent.
#[verifier::spinoff_prover]
#[verifier::rlimit(40)]
proof fn lemma_dot_dot_step(
    b3: Seq<Seq<u8>>,
    b4: Seq<Seq<u8>>,
    sb: Superblock,
    c3: CacheView,
    c4: CacheView,
    n: u32,
    parent: u32,
    s: int,
    y: u32,
)
    requires
        whole(b3, sb),
        tidy(b3, sb),
        valid_ino(sb, n as int),
        inode_at(b3, sb, n as int).dir(),
        inode_at(b3, sb, n as int).size > 0,
        parent != 0,
        names_of(b3, sb, n as int) == Map::<Seq<u8>, u32>::empty().insert(dot(), n),
        forall|k: int| 0 <= k < c3.dirs.len() ==> (#[trigger] c3.dirs[k]).0 != n,
        entry_added_at(b3, b4, sb, c3, c4, n, dot_dot(), parent, s, y),
    ensures
        names_step(b3, b4, sb, n as int, None, Some((dot_dot(), parent))),
        inode_at(b4, sb, n as int).size == plus_entry(inode_at(b3, sb, n as int).size),
        c4 == c3,
        forall|r: int| 0 <= r < sb.ninodes ==> #[trigger] bit_at(b4, 1, r) == bit_at(b3, 1, r),
{
    let dir = inode_at(b3, sb, n as int);
    lemma_unknown(c3, n, dot_dot(), parent, (s + 1) as usize);
    assert(c4.dirs == c3.dirs);
    assert(dot().len() == 1 && dot_dot().len() == 2);
    assert(entry_free(b3, dir, s));
    assert(zones_sound(b3, sb, dir.direct));
    assert(0 <= s / 32 < 12);
    assert(sb.first_data_zone <= y && y != 0) by {
        if y == 0 {
            assert(sb.first_data_zone == 0);
        }
    }
    lemma_own_names();
    lemma_added_step(b3, b4, sb, n, dot_dot(), parent, s, y);
    lemma_put_imap(b3, b4, sb, n, entry_bytes(parent, dot_dot()), s, y);
    lemma_entry_len(parent, dot_dot());
    lemma_put_size(b3, b4, sb, n, entry_bytes(parent, dot_dot()), s, y);
}

/// A new directory gets its own two entries.
#[verifier::spinoff_prover]
#[verifier::rlimit(40)]
proof fn lemma_own_entries(
    b2: Seq<Seq<u8>>,
    by: Seq<Seq<u8>>,
    b3: Seq<Seq<u8>>,
    b4: Seq<Seq<u8>>,
    sb: Superblock,
    c2: CacheView,
    c3: CacheView,
    c4: CacheView,
    n: u32,
    parent: u32,
    z: u32,
)
    requires
        whole(b2, sb),
        by == b2.update(z as int, zero_block()),
        whole(by, sb),
        tidy(by, sb),
        valid_ino(sb, n as int),
        inode_at(by, sb, n as int).dir(),
        inode_at(by, sb, n as int).size == 0,
        inode_at(by, sb, n as int).direct == Seq::new(12, |i: int| 0u32).update(0, z),
        sb.first_data_zone <= z < sb.zones,
        z != 0,
        parent != 0,
        names_of(by, sb, n as int) == Map::<Seq<u8>, u32>::empty(),
        dirs_agree(by, sb, c2.dirs),
        forall|k: int| 0 <= k < c2.dirs.len() ==> (#[trigger] c2.dirs[k]).0 != n,
        entry_added(b2, b3, sb, c2, c3, n, dot(), n),
        entry_added(b3, b4, sb, c3, c4, n, dot_dot(), parent),
    ensures
        whole(b4, sb),
        tidy(b4, sb),
        inode_at(b4, sb, n as int).size == 128,
        c4 == c2,
        dirs_agree(b4, sb, c4.dirs),
        forall|o: int|
            valid_ino(sb, o) ==> (#[trigger] inode_at(b4, sb, o)).dir() == inode_at(by, sb, o).dir(),
        forall|o: u32, x: Seq<u8>|
            valid_ino(sb, o as int) && o != n && inode_at(by, sb, o as int).dir()
                ==> #[trigger] disk_entry(b4, sb, o, x) == disk_entry(by, sb, o, x),
        forall|x: Seq<u8>| #[trigger]
            disk_entry(b4, sb, n, x) == if x == dot() {
                Some(n)
            } else if x == dot_dot() {
                Some(parent)
            } else {
                None
            },
        forall|r: int| 0 <= r < sb.ninodes ==> #[trigger] bit_at(b4, 1, r) == bit_at(by, 1, r),
{
    let (s3, y3) = choose|s3: int, y3: u32| #[trigger]
        entry_added_at(b2, b3, sb, c2, c3, n, dot(), n, s3, y3);
    lemma_dot_step(b2, by, b3, sb, c2, c3, n, z, s3, y3);
    let (s4, y4) = choose|s4: int, y4: u32| #[trigger]
        entry_added_at(b3, b4, sb, c3, c4, n, dot_dot(), parent, s4, y4);
    assert(inode_at(b3, sb, n as int).dir());
    lemma_dot_dot_step(b3, b4, sb, c3, c4, n, parent, s4, y4);
    lemma_dirs_step(by, b3, sb, c2.dirs, c2.dirs, n, None, Some((dot(), n)));
    lemma_dirs_step(b3, b4, sb, c2.dirs, c2.dirs, n, None, Some((dot_dot(), parent)));
    assert forall|o: int| valid_ino(sb, o) implies (#[trigger] inode_at(b4, sb, o)).dir() == inode_at(
        by,
        sb,
        o,
    ).dir() by {
        assert(inode_at(b3, sb, o).dir() == inode_at(by, sb, o).dir());
    }
    assert forall|o: u32, x: Seq<u8>|
        valid_ino(sb, o as int) && o != n && inode_at(by, sb, o as int).dir() implies #[trigger] disk_entry(
        b4,
        sb,
        o,
        x,
    ) == disk_entry(by, sb, o, x) by {
        assert(inode_at(b3, sb, o as int).dir());
        assert(inode_at(b4, sb, o as int).dir());
        lemma_tidy_dir(by, sb, o);
        lemma_tidy_dir(b4, sb, o);
        assert(names_of(b3, sb, o as int) == names_of(by, sb, o as int));
        assert(names_of(b4, sb, o as int) == names_of(b3, sb, o as int));
    }
    assert(inode_at(b4, sb, n as int).dir());
    lemma_tidy_dir(b4, sb, n);
    assert(dot().len() == 1 && dot_dot().len() == 2);
    assert forall|r: int| 0 <= r < sb.ninodes implies #[trigger] bit_at(b4, 1, r) == bit_at(by, 1, r) by {
        assert(bit_at(b3, 1, r) == bit_at(by, 1, r));
    }
}

/// What the names become when a directory was made.
#[verifier::spinoff_prover]
#[verifier::rlimit(60)]
proof fn lemma_dir_grown(
    b0: Seq<Seq<u8>>,
    b1: Seq<Seq<u8>>,
    b2: Seq<Seq<u8>>,
    b3: Seq<Seq<u8>>,
    b4: Seq<Seq<u8>>,
    sb: Superblock,
    c1: CacheView,
    c2: CacheView,
    c3: CacheView,
    c4: CacheView,
    parent: u32,
    name: Seq<u8>,
    node: InodeView,
    n: u32,
    z: u32,
)
    requires
        whole(b0, sb),
        tidy(b0, sb),
        dirs_agree(b0, sb, c1.dirs),
        dirs_in_use(b0, c1.dirs),
        valid_ino(sb, parent as int),
        parent != n,
        inode_at(b0, sb, parent as int).dir(),
        inode_at(b0, sb, parent as int).size > 0,
        name.len() > 0,
        dir_name(name_field(name)) == Some(name),
        !names_of(b0, sb, parent as int).dom().contains(name),
        node_made(b0, b1, sb, node, n, z),
        node.direct == Seq::new(12, |i: int| 0u32),
        node.size == 0,
        node.dir(),
        entry_added(b1, b2, sb, c1, c2, parent, name, n),
        entry_added(b2, b3, sb, c2, c3, n, dot(), n),
        entry_added(b3, b4, sb, c3, c4, n, dot_dot(), parent),
    ensures
        grown(b0, b4, sb, parent, name, n),
        inode_at(b4, sb, n as int).dir(),
        inode_at(b4, sb, n as int).size == 128,
        dirs_agree(b4, sb, c4.dirs),
        c4.paths == c1.paths,
        dirs_in_use(b4, c4.dirs),
{
    let (s, y) = choose|s: int, y: u32| #[trigger]
        entry_added_at(b1, b2, sb, c1, c2, parent, name, n, s, y);
    let bx = b1.update(z as int, zero_block());
    let by = b2.update(z as int, zero_block());
    lemma_node_written(b0, b1, sb, node, n, z);
    lemma_node_step(b0, b1, bx, sb, node, n, z);
    lemma_node_entered(b0, b1, bx, b2, by, sb, c1, c2, parent, name, node, n, z, s, y);
    lemma_names_grown(b0, bx, by, sb, parent, name, n);
    assert(inode_at(by, sb, n as int) == inode_at(bx, sb, n as int));
    assert(names_of(by, sb, n as int) == names_of(bx, sb, n as int));
    lemma_dir_updated(c1.dirs, parent, name, n, (s + 1) as usize);
    assert forall|k: int| 0 <= k < c2.dirs.len() implies (#[trigger] c2.dirs[k]).0 != n by {
        assert(bit_at(b0, 1, c1.dirs[k].0 - 1));
    }
    lemma_own_entries(b2, by, b3, b4, sb, c2, c3, c4, n, parent, z);
    assert forall|o: int| valid_ino(sb, o) && o != n implies (#[trigger] inode_at(b4, sb, o)).dir()
        == inode_at(b0, sb, o).dir() by {
        assert(inode_at(by, sb, o).dir() == inode_at(b0, sb, o).dir());
    }
    assert forall|o: u32, x: Seq<u8>|
        valid_ino(sb, o as int) && o != n && inode_at(b0, sb, o as int).dir() implies #[trigger] disk_entry(
        b4,
        sb,
        o,
        x,
    ) == if o == parent && x == name {
        Some(n)
    } else {
        disk_entry(b0, sb, o, x)
    } by {
        assert(inode_at(by, sb, o as int).dir());
        assert(disk_entry(b4, sb, o, x) == disk_entry(by, sb, o, x));
    }
    assert forall|r: int| 0 <= r < sb.ninodes implies #[trigger] bit_at(b4, 1, r) == (bit_at(b0, 1, r)
        || r == n - 1) by {
        assert(bit_at(by, 1, r) == (bit_at(b0, 1, r) || r == n - 1));
    }
    lemma_still_in_use(b0, b4, sb, c1.dirs, c2.dirs, parent, name, n, (s + 1) as usize, n);
}

/// What a new name does to paths.
#[verifier::spinoff_prover]
proof fn lemma_grown_paths(
    b0: Seq<Seq<u8>>,
    b1: Seq<Seq<u8>>,
    sb: Superblock,
    c0: CacheView,
    c1: CacheView,
    front: Seq<Seq<u8>>,
    parent: u32,
    name: Seq<u8>,
    n: u32,
)
    requires
        in_order(b0, sb),
        names_in_use(b0, sb),
        names_agree(b0, sb, c0),
        grown(b0, b1, sb, parent, name, n),
        dirs_agree(b1, sb, c1.dirs),
        c1.paths == c0.paths,
        plain_segments(front.push(name)),
        walks_dirs(b0, sb, front, 1),
        disk_walk(b0, sb, front, 1) == Ok::<u32, FsError>(parent),
        inode_at(b0, sb, parent as int).dir(),
        disk_entry(b0, sb, parent, name) is None,
    ensures
        in_order(b1, sb),
        names_in_use(b1, sb),
        names_agree(b1, sb, c1),
        resolved(b1, sb, c1, absolute(front.push(name))).0 == Ok::<u32, FsError>(n),
        forall|path: Seq<u8>|
            regular(path) && walks_dirs(b0, sb, segments(path), 1) && (#[trigger] resolved(
                b0,
                sb,
                c0,
                path,
            )).0 is Ok ==> resolved(b1, sb, c1, path).0 == resolved(b0, sb, c0, path).0,
{
    lemma_grown_forth(b0, b1, sb, parent, name, n, front, 1);
    lemma_grown_in_order(b0, b1, sb, parent, name, n);
    assert forall|i: int| 0 <= i < c1.paths.len() implies path_agrees(
        b1,
        sb,
        (#[trigger] c1.paths[i]).0,
        c1.paths[i].1,
    ) by {
        assert(path_agrees(b0, sb, c0.paths[i].0, c0.paths[i].1));
        lemma_grown_forth(b0, b1, sb, parent, name, n, segments(c0.paths[i].0), 1);
    }
    assert forall|path: Seq<u8>|
        regular(path) && walks_dirs(b0, sb, segments(path), 1) && (#[trigger] resolved(
            b0,
            sb,
            c0,
            path,
        )).0 is Ok implies resolved(b1, sb, c1, path).0 == resolved(b0, sb, c0, path).0 by {
        lemma_caches_agree(b0, sb, c0, path);
        lemma_grown_forth(b0, b1, sb, parent, name, n, segments(path), 1);
        lemma_caches_agree(b1, sb, c1, path);
    }
    let parts = front.push(name);
    lemma_plain_front(front, name);
    lemma_segments_of(parts);
    lemma_walk_push(b1, sb, front, name, 1);
    assert(inode_at(b1, sb, parent as int).dir());
    lemma_tidy_dir(b1, sb, parent);
    lemma_caches_agree(b1, sb, c1, absolute(parts));
}

/// What is known once the directory of a new name was looked at.
proof fn lemma_parent_known(
    b0: Seq<Seq<u8>>,
    sb: Superblock,
    c0: CacheView,
    parent: u32,
    name: Seq<u8>,
)
    requires
        whole(b0, sb),
        tidy(b0, sb),
        names_agree(b0, sb, c0),
        dirs_in_use(b0, c0.dirs),
        valid_ino(sb, parent as int),
        inode_at(b0, sb, parent as int).dir(),
        bit_at(b0, 1, parent - 1),
        at_key(index_of(b0, c0, parent, inode_at(b0, sb, parent as int).direct).names, name) is None,
    ensures
        ({
            let c1 = dir_known(b0, c0, parent, inode_at(b0, sb, parent as int).direct);
            &&& names_agree(b0, sb, c1)
            &&& dirs_in_use(b0, c1.dirs)
            &&& c1.paths == c0.paths
        }),
        disk_entry(b0, sb, parent, name) is None,
        !names_of(b0, sb, parent as int).dom().contains(name),
{
    let direct = inode_at(b0, sb, parent as int).direct;
    lemma_tidy_dir(b0, sb, parent);
    lemma_lookup_agrees(b0, sb, c0, parent, name);
    let c1 = dir_known(b0, c0, parent, direct);
    assert(found_in(b0, sb, c0, parent, name).1 == c1);
    assert forall|k: int| 0 <= k < c1.dirs.len() implies bit_at(b0, 1, (#[trigger] c1.dirs[k]).0 - 1) by {
        if dir_at(c0.dirs, parent) is None {
            let e = dir_index(b0, direct);
            lemma_dir_pos_is(c0.dirs, parent);
            let full = c0.dirs.push((parent, e));
            let j = if c0.dirs.len() < 512 {
                k
            } else {
                k + 1
            };
            assert(c1.dirs[k] == full[j]);
        }
    }
}

/// Making a file puts its path where there was none, and leaves where other paths lead as it
/// was. The volume is in order still, its names stand for what is in use, and what is
/// remembered of names agrees with the blocks again. The new name is one that a directory
/// holds as it is, in a directory that counts an entry.
#[verifier::spinoff_prover]
#[verifier::rlimit(60)]
pub proof fn lemma_create_file_grows(
    b0: Seq<Seq<u8>>,
    b1: Seq<Seq<u8>>,
    sb: Superblock,
    serves: bool,
    c0: CacheView,
    c1: CacheView,
    front: Seq<Seq<u8>>,
    parent: u32,
    name: Seq<u8>,
    mode: u16,
    time: u64,
    n: u32,
)
    requires
        in_order(b0, sb),
        names_in_use(b0, sb),
        names_agree(b0, sb, c0),
        dirs_in_use(b0, c0.dirs),
        plain_segments(front.push(name)),
        walks_dirs(b0, sb, front, 1),
        disk_walk(b0, sb, front, 1) == Ok::<u32, FsError>(parent),
        inode_at(b0, sb, parent as int).dir(),
        inode_at(b0, sb, parent as int).size > 0,
        dir_name(name_field(name)) == Some(name),
        create_file_result(b0, b1, sb, serves, c0, c1, parent, name, mode, time, Ok(n)),
    ensures
        in_order(b1, sb),
        names_in_use(b1, sb),
        names_agree(b1, sb, c1),
        dirs_in_use(b1, c1.dirs),
        resolved(b1, sb, c1, absolute(front.push(name))).0 == Ok::<u32, FsError>(n),
        forall|path: Seq<u8>|
            regular(path) && walks_dirs(b0, sb, segments(path), 1) && (#[trigger] resolved(
                b0,
                sb,
                c0,
                path,
            )).0 is Ok ==> resolved(b1, sb, c1, path).0 == resolved(b0, sb, c0, path).0,
{
    let p = inode_at(b0, sb, parent as int);
    let c = dir_known(b0, c0, parent, p.direct);
    let node = node_inode(p, false, mode, time);
    let (b, z) = choose|b: Seq<Seq<u8>>, z: u32| #[trigger]
        file_steps(b0, b, b1, sb, c0, c1, parent, name, mode, time, n, z);
    lemma_reached(b0, sb, front, 1);
    lemma_parent_known(b0, sb, c0, parent, name);
    lemma_plain_front(front, name);
    lemma_file_node(p, mode, time);
    lemma_file_grown(b0, b, b1, sb, c, c1, parent, name, node, n, z);
    lemma_grown_paths(b0, b1, sb, c0, c1, front, parent, name, n);
}

/// Making a directory does what making a file does, and the new directory has its own two
/// entries.
#[verifier::spinoff_prover]
#[verifier::rlimit(60)]
pub proof fn lemma_create_dir_grows(
    b0: Seq<Seq<u8>>,
    b1: Seq<Seq<u8>>,
    sb: Superblock,
    serves: bool,
    c0: CacheView,
    c1: CacheView,
    front: Seq<Seq<u8>>,
    parent: u32,
    name: Seq<u8>,
    mode: u16,
    time: u64,
    n: u32,
)
    requires
        in_order(b0, sb),
        names_in_use(b0, sb),
        names_agree(b0, sb, c0),
        dirs_in_use(b0, c0.dirs),
        plain_segments(front.push(name)),
        walks_dirs(b0, sb, front, 1),
        disk_walk(b0, sb, front, 1) == Ok::<u32, FsError>(parent),
        inode_at(b0, sb, parent as int).dir(),
        inode_at(b0, sb, parent as int).size > 0,
        dir_name(name_field(name)) == Some(name),
        create_dir_result(b0, b1, sb, serves, c0, c1, parent, name, mode, time, Ok(n)),
    ensures
        in_order(b1, sb),
        names_in_use(b1, sb),
        names_agree(b1, sb, c1),
        dirs_in_use(b1, c1.dirs),
        resolved(b1, sb, c1, absolute(front.push(name))).0 == Ok::<u32, FsError>(n),
        inode_at(b1, sb, n as int).dir(),
        inode_at(b1, sb, n as int).size == 128,
        forall|x: Seq<u8>| #[trigger]
            disk_entry(b1, sb, n, x) == if x == dot() {
                Some(n)
            } else if x == dot_dot() {
                Some(parent)
            } else {
                None
            },
        forall|path: Seq<u8>|
            regular(path) && walks_dirs(b0, sb, segments(path), 1) && (#[trigger] resolved(
                b0,
                sb,
                c0,
                path,
            )).0 is Ok ==> resolved(b1, sb, c1, path).0 == resolved(b0, sb, c0, path).0,
{
    let p = inode_at(b0, sb, parent as int);
    let c = dir_known(b0, c0, parent, p.direct);
    let node = node_inode(p, true, mode, time);
    let (b, x, y, cx, cy, z) = choose|
        b: Seq<Seq<u8>>,
        x: Seq<Seq<u8>>,
        y: Seq<Seq<u8>>,
        cx: CacheView,
        cy: CacheView,
        z: u32,
    | #[trigger]
        dir_steps(b0, b, x, y, b1, sb, c0, cx, cy, c1, parent, name, mode, time, n, z);
    lemma_reached(b0, sb, front, 1);
    lemma_parent_known(b0, sb, c0, parent, name);
    lemma_plain_front(front, name);
    lemma_dir_node(p, mode, time);
    lemma_dir_grown(b0, b, x, y, b1, sb, c, cx, cy, c1, parent, name, node, n, z);
    lemma_grown_paths(b0, b1, sb, c0, c1, front, parent, name, n);
}

/// A path leads to something that is in use.
proof fn lemma_reached(b0: Seq<Seq<u8>>, sb: Superblock, parts: Seq<Seq<u8>>, ino: u32)
    requires
        names_in_use(b0, sb),
        valid_ino(sb, ino as int),
        bit_at(b0, 1, ino - 1),
        walks_dirs(b0, sb, parts, ino),
        disk_walk(b0, sb, parts, ino) is Ok,
    ensures
        valid_ino(sb, disk_walk(b0, sb, parts, ino)->Ok_0 as int),
        bit_at(b0, 1, disk_walk(b0, sb, parts, ino)->Ok_0 - 1),
    decreases parts.len(),
{
    if parts.len() > 0 {
        let next = disk_entry(b0, sb, ino, parts[0])->0;
        lemma_reached(b0, sb, parts.skip(1), next);
    }
}

proof fn lemma_file_node(p: InodeView, mode: u16, time: u64)
    ensures
        !node_inode(p, false, mode, time).dir(),
        node_inode(p, false, mode, time).direct == Seq::new(12, |i: int| 0u32),
{
    assert((0o100000u16 | (mode & 0o7777u16)) & 0o170000u16 != 0o040000u16) by (bit_vector);
}

proof fn lemma_dir_node(p: InodeView, mode: u16, time: u64)
    ensures
        node_inode(p, true, mode, time).dir(),
        node_inode(p, true, mode, time).size == 0,
        node_inode(p, true, mode, time).direct == Seq::new(12, |i: int| 0u32),
{
    assert((0o040000u16 | (mode & 0o7777u16)) & 0o170000u16 == 0o040000u16) by (bit_vector);
}

/// In a table of zeros no inode is a directory.
proof fn lemma_no_dirs(blocks: Seq<Seq<u8>>, sb: Superblock)
    requires
        sb.wf(),
        forall|b: int| sb.itable() <= b < sb.first_data_zone ==> #[trigger] blocks[b] == zero_block(),
    ensures
        forall|o: int| valid_ino(sb, o) ==> !(#[trigger] inode_at(blocks, sb, o)).dir(),
{
    assert forall|o: int| valid_ino(sb, o) implies !(#[trigger] inode_at(blocks, sb, o)).dir() by {
        let b = sb.itable() + (o - 1) / 16;
        assert(sb.itable() <= b < sb.first_data_zone);
        assert(blocks[b] == zero_block());
        let record = inode_record(blocks, sb, o);
        let field = record.subrange(52, 54);
        assert(field =~= seq![0u8, 0u8]);
        reveal_with_fuel(le_value, 3);
        assert(field.skip(1).skip(1).len() == 0);
        assert(inode_at(blocks, sb, o).mode == 0);
        assert(0u16 & 0o170000u16 == 0) by (bit_vector);
    }
}

/// A volume that was formatted is in order: it has its root, with its own two entries, and
/// no other path leads anywhere.
#[verifier::spinoff_prover]
#[verifier::rlimit(60)]
pub proof fn lemma_fresh_volume(b0: Seq<Seq<u8>>, b1: Seq<Seq<u8>>, sb: Superblock, time: u64)
    requires
        whole(b0, sb),
        formatted(b0, b1, sb, time),
    ensures
        in_order(b1, sb),
        names_in_use(b1, sb),
        names_agree(b1, sb, no_caches()),
        dirs_in_use(b1, no_caches().dirs),
        inode_at(b1, sb, 1).dir(),
        inode_at(b1, sb, 1).size == 128,
        forall|path: Seq<u8>|
            regular(path) && segments(path).len() > 0 ==> (#[trigger] resolved(
                b1,
                sb,
                no_caches(),
                path,
            )).0 == Err::<u32, FsError>(FsError::FileNotFound),
{
    let c = cleared(b0, sb);
    let none = no_caches();
    let node = fresh_inode(time, MODE_DIR | (0o755u16 & 0o7777u16));
    lemma_superblock_round_trip(sb);
    assert(whole(c, sb));
    lemma_no_dirs(c, sb);
    assert(tidy(c, sb));
    let (x1, x2, c2, c3, z) = choose|
        x1: Seq<Seq<u8>>,
        x2: Seq<Seq<u8>>,
        c2: CacheView,
        c3: CacheView,
        z: u32,
    | #[trigger]
        root_steps(c, x1, x2, b1, sb, none, c2, c3, time, z);
    assert((0o040000u16 | (0o755u16 & 0o7777u16)) & 0o170000u16 == 0o040000u16) by (bit_vector);
    assert(node.dir());
    assert(node_made(c, x1, sb, node, 1, z));
    let bx = x1.update(z as int, zero_block());
    lemma_node_written(c, x1, sb, node, 1, z);
    lemma_node_step(c, x1, bx, sb, node, 1, z);
    assert(inode_at(bx, sb, 1) == (InodeView { direct: node.direct.update(0, z), ..node }));
    lemma_own_entries(x1, bx, x2, b1, sb, none, c2, c3, 1, 1, z);
    assert forall|o: int| valid_ino(sb, o) && o != 1 implies !(#[trigger] inode_at(b1, sb, o)).dir() by {
        assert(inode_at(bx, sb, o) == inode_at(c, sb, o));
    }
    assert(bit_at(b1, 1, 0)) by {
        assert(bit_at(bx, 1, 0) == bit_at(x1, 1, 0));
        assert(bit_at(b1, 1, 0) == bit_at(bx, 1, 0));
    }
    assert forall|p: Seq<Seq<u8>>|
        #![trigger disk_walk(b1, sb, p, 1)]
        plain_segments(p) && p.len() > 0 implies walks_dirs(b1, sb, p, 1) && disk_walk(b1, sb, p, 1)
        == Err::<u32, FsError>(FsError::FileNotFound) by {
        lemma_tidy_dir(b1, sb, 1);
        assert(plain_segment(p[0]));
        assert(crate::syscall::pathname::dot() =~= dot());
        assert(crate::syscall::pathname::dot_dot() =~= dot_dot());
        assert(disk_entry(b1, sb, 1, p[0]) is None);
    }
    assert(one_path(b1, sb)) by {
        assert forall|p: Seq<Seq<u8>>, q: Seq<Seq<u8>>|
            #![trigger disk_walk(b1, sb, p, 1), disk_walk(b1, sb, q, 1)]
            plain_segments(p) && plain_segments(q) && disk_walk(b1, sb, p, 1) is Ok && disk_walk(
                b1,
                sb,
                q,
                1,
            ) is Ok implies p == q by {
            assert(p =~= Seq::<Seq<u8>>::empty());
            assert(q =~= Seq::<Seq<u8>>::empty());
        }
    }
    assert forall|path: Seq<u8>| regular(path) && segments(path).len() > 0 implies (#[trigger] resolved(
        b1,
        sb,
        none,
        path,
    )).0 == Err::<u32, FsError>(FsError::FileNotFound) by {
        assert(disk_walk(b1, sb, segments(path), 1) == Err::<u32, FsError>(FsError::FileNotFound));
        lemma_caches_agree(b1, sb, none, path);
    }
}

/// A directory that is looked into is in use.
proof fn lemma_looked_into(b0: Seq<Seq<u8>>, sb: Superblock, parts: Seq<Seq<u8>>, ino: u32, d: u32)
    requires
        names_in_use(b0, sb),
        valid_ino(sb, ino as int),
        bit_at(b0, 1, ino - 1),
        walks_dirs(b0, sb, parts, ino),
        looked_into(b0, sb, parts, ino, d),
    ensures
        bit_at(b0, 1, d - 1),
    decreases parts.len(),
{
    if ino != d {
        let next = disk_entry(b0, sb, ino, parts[0])->0;
        lemma_looked_into(b0, sb, parts.skip(1), next, d);
    }
}

/// Looking up a path keeps the remembered directories ones that are in use.
pub proof fn lemma_lookup_in_use(b0: Seq<Seq<u8>>, sb: Superblock, c: CacheView, path: Seq<u8>)
    requires
        names_in_use(b0, sb),
        names_agree(b0, sb, c),
        dirs_in_use(b0, c.dirs),
        regular(path),
        walks_dirs(b0, sb, segments(path), 1),
        valid_ino(sb, 1),
    ensures
        dirs_in_use(b0, resolved(b0, sb, c, path).1.dirs),
{
    lemma_caches_agree(b0, sb, c, path);
    let after = resolved(b0, sb, c, path).1.dirs;
    assert forall|k: int| 0 <= k < after.len() implies bit_at(b0, 1, (#[trigger] after[k]).0 - 1) by {
        if was_known(c.dirs, after[k].0) {
            let j = choose|j: int| 0 <= j < c.dirs.len() && (#[trigger] c.dirs[j]).0 == after[k].0;
            assert(bit_at(b0, 1, c.dirs[j].0 - 1));
        } else {
            lemma_looked_into(b0, sb, segments(path), 1, after[k].0);
        }
    }
}

/// Removing an entry frees the bit of its inode, and no other bit of an inode.
proof fn lemma_removed_imap(
    b0: Seq<Seq<u8>>,
    b1: Seq<Seq<u8>>,
    sb: Superblock,
    parent: u32,
    t: (u32, usize, u32),
)
    requires
        whole(b0, sb),
        valid_ino(sb, parent as int),
        entry_removed(b0, b1, sb, parent, t),
        sb.first_data_zone <= t.0 < b0.len(),
    ensures
        forall|r: int|
            0 <= r < sb.ninodes ==> #[trigger] bit_at(b1, 1, r) == (bit_at(b0, 1, r) && r != t.2 - 1),
{
    let node = inode_at(b0, sb, t.2 as int);
    let zf = zones_freed(b0, sb, node.direct, 12);
    lemma_freed_bits(b0, sb, node.direct, 12);
    let i = t.2 - 1;
    let freed = with_bit_at(zf, 1, i, false);
    let at = sb.itable() + (parent - 1) / 16;
    assert(sb.itable() <= at < sb.first_data_zone);
    assert forall|r: int| 0 <= r < sb.ninodes implies #[trigger] bit_at(b1, 1, r) == (bit_at(b0, 1, r)
        && r != i) by {
        assert(0 <= r / 16384 < sb.imap_blocks);
        assert(0 <= i / 16384 < sb.imap_blocks);
        lemma_with_bit_at(zf, 1, i, r, false);
        assert(zf[1 + r / 16384] == b0[1 + r / 16384]);
        assert(b1[1 + r / 16384] == freed[1 + r / 16384]);
    }
}

/// Whether `name` in `parent` is the only name in a directory in use that stands for `x`.
pub open spec fn only_name(
    blocks: Seq<Seq<u8>>,
    sb: Superblock,
    x: u32,
    parent: u32,
    name: Seq<u8>,
) -> bool {
    forall|d: u32, y: Seq<u8>|
        valid_ino(sb, d as int) && bit_at(blocks, 1, d - 1) && inode_at(blocks, sb, d as int).dir()
            && #[trigger] disk_entry(blocks, sb, d, y) == Some(x) ==> d == parent && y == name
}

/// The names of a volume stand for what is in use after a file was removed that had one name.
#[verifier::spinoff_prover]
#[verifier::rlimit(30)]
proof fn lemma_cleared_in_use(
    b0: Seq<Seq<u8>>,
    b1: Seq<Seq<u8>>,
    sb: Superblock,
    c: CacheView,
    c1: CacheView,
    d: u32,
    name: Seq<u8>,
    path: Seq<u8>,
)
    requires
        whole(b0, sb),
        tidy(b0, sb),
        names_in_use(b0, sb),
        names_agree(b0, sb, c),
        dirs_in_use(b0, c.dirs),
        valid_ino(sb, d as int),
        inode_at(b0, sb, d as int).dir(),
        name.len() > 0,
        path_removed(b0, b1, sb, c, c1, d, path, name),
        disk_entry(b0, sb, d, name) matches Some(x) ==> {
            &&& clear_of_dirs(b0, sb, x)
            &&& only_name(b0, sb, x, d, name)
            &&& !inode_at(b0, sb, x as int).dir()
            &&& x != 1
        },
    ensures
        names_in_use(b1, sb),
        dirs_in_use(b1, c1.dirs),
        forall|r: int|
            0 <= r < sb.ninodes ==> #[trigger] bit_at(b1, 1, r) == (bit_at(b0, 1, r) && Some(
                (r + 1) as u32,
            ) != disk_entry(b0, sb, d, name)),
{
    let t = choose|t: (u32, usize, u32)| #[trigger] removed_at(b0, b1, sb, c, c1, d, path, name, t);
    lemma_tidy_dir(b0, sb, d);
    lemma_names_tell(b0, inode_at(b0, sb, d as int).direct, name);
    assert(disk_entry(b0, sb, d, name) == Some(t.2));
    lemma_way_cleared(b0, b1, sb, c, c1, d, name, path);
    let s = lemma_found_slot(b0, sb, d as int, name, t);
    assert(zones_sound(b0, sb, inode_at(b0, sb, d as int).direct));
    assert(0 <= s / 32 < 12);
    lemma_removed_imap(b0, b1, sb, d, t);
    assert forall|o: u32, y: Seq<u8>|
        valid_ino(sb, o as int) && bit_at(b1, 1, o - 1) && inode_at(
            b1,
            sb,
            o as int,
        ).dir() implies match #[trigger] disk_entry(b1, sb, o, y) {
        Some(m) => valid_ino(sb, m as int) && bit_at(b1, 1, m - 1),
        None => true,
    } by {
        assert(bit_at(b1, 1, o - 1) == (bit_at(b0, 1, o - 1) && o != t.2));
        assert(inode_at(b0, sb, o as int).dir());
        lemma_tidy_dir(b0, sb, o);
        lemma_tidy_dir(b1, sb, o);
        if let Some(m) = disk_entry(b1, sb, o, y) {
            if o != d {
                assert(names_of(b1, sb, o as int) == names_of(b0, sb, o as int));
            }
            assert(disk_entry(b0, sb, o, y) == Some(m));
            assert(bit_at(b1, 1, m - 1) == (bit_at(b0, 1, m - 1) && m != t.2));
        }
    }
    assert(bit_at(b1, 1, 0) == (bit_at(b0, 1, 0) && 0 != t.2 - 1));
    lemma_dir_updated(c.dirs, d, name, 0, 0);
    assert forall|k: int| 0 <= k < c1.dirs.len() implies bit_at(b1, 1, (#[trigger] c1.dirs[k]).0 - 1) by {
        let o = c.dirs[k].0;
        assert(index_agrees(b0, sb, c.dirs[k].0, c.dirs[k].1));
        assert(bit_at(b1, 1, o - 1) == (bit_at(b0, 1, o - 1) && o != t.2));
    }
}

/// The names of a volume stand for what is in use after a file was removed that had no other
/// name, and the remembered directories are in use.
pub proof fn lemma_remove_in_use(
    b0: Seq<Seq<u8>>,
    b1: Seq<Seq<u8>>,
    sb: Superblock,
    c0: CacheView,
    c1: CacheView,
    front: Seq<Seq<u8>>,
    parent: u32,
    name: Seq<u8>,
)
    requires
        in_order(b0, sb),
        names_in_use(b0, sb),
        names_agree(b0, sb, c0),
        dirs_in_use(b0, c0.dirs),
        plain_segments(front.push(name)),
        walks_dirs(b0, sb, front, 1),
        disk_walk(b0, sb, front, 1) == Ok::<u32, FsError>(parent),
        inode_at(b0, sb, parent as int).dir(),
        disk_entry(b0, sb, parent, name) matches Some(x) ==> {
            &&& clear_of_dirs(b0, sb, x)
            &&& only_name(b0, sb, x, parent, name)
            &&& !inode_at(b0, sb, x as int).dir()
        },
        remove_result(b0, b1, sb, true, c0, c1, absolute(front.push(name)), None),
    ensures
        names_in_use(b1, sb),
        dirs_in_use(b1, c1.dirs),
        forall|r: int|
            0 <= r < sb.ninodes ==> #[trigger] bit_at(b1, 1, r) == (bit_at(b0, 1, r) && Some(
                (r + 1) as u32,
            ) != disk_entry(b0, sb, parent, name)),
{
    reveal(remove_result);
    let parts = front.push(name);
    lemma_plain_front(front, name);
    lemma_segments_of(parts);
    lemma_segments_of(front);
    assert(parts.drop_last() =~= front);
    lemma_caches_agree(b0, sb, c0, absolute(front));
    let (r, c) = parent_resolved(b0, sb, c0, front);
    assert(r == Ok::<u32, FsError>(parent)) by {
        if front.len() == 0 {
            assert(disk_walk(b0, sb, front, 1) == Ok::<u32, FsError>(1));
        }
    }
    lemma_lookup_in_use(b0, sb, c0, absolute(front));
    assert(names_agree(b0, sb, c));
    assert(dirs_in_use(b0, c.dirs));
    lemma_reached(b0, sb, front, 1);
    assert(inode_at(b0, sb, 1).dir());
    lemma_cleared_in_use(b0, b1, sb, c, c1, parent, name, absolute(front));
}

/// Moving an entry leaves the bitmap of the inodes alone.
#[verifier::spinoff_prover]
#[verifier::rlimit(30)]
proof fn lemma_moved_imap(
    b1: Seq<Seq<u8>>,
    b2: Seq<Seq<u8>>,
    b3: Seq<Seq<u8>>,
    sb: Superblock,
    c1: CacheView,
    c2: CacheView,
    po: u32,
    pn: u32,
    t: (u32, usize, u32),
    name: Seq<u8>,
)
    requires
        whole(b1, sb),
        tidy(b1, sb),
        valid_ino(sb, po as int),
        valid_ino(sb, pn as int),
        inode_at(b1, sb, pn as int).dir(),
        sb.first_data_zone <= t.0 < b1.len(),
        entry_moved(b1, b2, b3, sb, c1, c2, po, pn, t, name),
    ensures
        forall|r: int| 0 <= r < sb.ninodes ==> #[trigger] bit_at(b3, 1, r) == bit_at(b1, 1, r),
        po != pn ==> exists|s: int, z: u32| #[trigger]
            entry_added_at(b1, b2, sb, c1, c2, pn, name, t.2, s, z),
{
    if po == pn {
        assert forall|r: int| 0 <= r < sb.ninodes implies #[trigger] bit_at(b3, 1, r) == bit_at(b1, 1, r) by {
            assert(0 <= r / 16384 < sb.imap_blocks);
            assert(b3[1 + r / 16384] == b1[1 + r / 16384]);
        }
    } else {
        let (s, z) = choose|s: int, z: u32| #[trigger]
            entry_added_at(b1, b2, sb, c1, c2, pn, name, t.2, s, z);
        let dir = inode_at(b1, sb, pn as int);
        assert(zones_sound(b1, sb, dir.direct));
        assert(0 <= s / 32 < 12);
        assert(sb.first_data_zone <= z && z != 0) by {
            if z == 0 {
                assert(sb.first_data_zone == 0);
            }
        }
        lemma_put_imap(b1, b2, sb, pn, entry_bytes(t.2, name), s, z);
        let at = sb.itable() + (po - 1) / 16;
        assert(sb.itable() <= at < sb.first_data_zone);
        assert forall|r: int| 0 <= r < sb.ninodes implies #[trigger] bit_at(b3, 1, r) == bit_at(b1, 1, r) by {
            assert(0 <= r / 16384 < sb.imap_blocks);
            assert(b3[1 + r / 16384] == b2[1 + r / 16384]);
            assert(bit_at(b2, 1, r) == bit_at(b1, 1, r));
        }
    }
}

/// The remembered directories are the same ones after an entry was moved.
proof fn lemma_moved_dirs(
    b1: Seq<Seq<u8>>,
    b2: Seq<Seq<u8>>,
    b3: Seq<Seq<u8>>,
    sb: Superblock,
    c1: CacheView,
    c2: CacheView,
    po: u32,
    oname: Seq<u8>,
    pn: u32,
    nname: Seq<u8>,
    t: (u32, usize, u32),
    dirs: Seq<(u32, IndexView)>,
)
    requires
        dirs_agree(b1, sb, c1.dirs),
        dirs_in_use(b1, c1.dirs),
        entry_moved(b1, b2, b3, sb, c1, c2, po, pn, t, nname),
        forall|r: int| 0 <= r < sb.ninodes ==> #[trigger] bit_at(b3, 1, r) == bit_at(b1, 1, r),
        dirs == if po == pn {
            with_name(without_name(c2.dirs, po, oname), pn, nname, t.2, 0)
        } else {
            without_name(c2.dirs, po, oname)
        },
    ensures
        dirs_in_use(b3, dirs),
{
    if po != pn {
        let (s, z) = choose|s: int, z: u32| #[trigger]
            entry_added_at(b1, b2, sb, c1, c2, pn, nname, t.2, s, z);
        lemma_dir_updated(c1.dirs, pn, nname, t.2, (s + 1) as usize);
        assert forall|i: int, j: int| 0 <= i < j < c2.dirs.len() implies #[trigger] c2.dirs[i].0
            != #[trigger] c2.dirs[j].0 by {
            assert(c1.dirs[i].0 != c1.dirs[j].0);
        }
    }
    lemma_dir_updated(c2.dirs, po, oname, 0, 0);
    let less = without_name(c2.dirs, po, oname);
    assert forall|i: int, j: int| 0 <= i < j < less.len() implies #[trigger] less[i].0
        != #[trigger] less[j].0 by {
        assert(c2.dirs[i].0 != c2.dirs[j].0);
    }
    lemma_dir_updated(less, pn, nname, t.2, 0);
    assert forall|k: int| 0 <= k < dirs.len() implies bit_at(b3, 1, (#[trigger] dirs[k]).0 - 1) by {
        assert(less[k].0 == c2.dirs[k].0);
        assert(c2.dirs[k].0 == c1.dirs[k].0);
        assert(index_agrees(b1, sb, c1.dirs[k].0, c1.dirs[k].1));
        assert(bit_at(b3, 1, c1.dirs[k].0 - 1) == bit_at(b1, 1, c1.dirs[k].0 - 1));
    }
}

/// What is in use once an entry has moved from one directory to another.
#[verifier::spinoff_prover]
proof fn lemma_moved_names(
    b1: Seq<Seq<u8>>,
    b3: Seq<Seq<u8>>,
    sb: Superblock,
    po: u32,
    oname: Seq<u8>,
    pn: u32,
    nname: Seq<u8>,
    x: u32,
)
    requires
        sb.ninodes > 0,
        names_in_use(b1, sb),
        differ_in(b1, b3, sb, po, oname, pn, nname),
        disk_entry(b3, sb, pn, nname) == Some(x),
        disk_entry(b3, sb, po, oname) is None,
        valid_ino(sb, x as int),
        bit_at(b1, 1, x - 1),
        forall|r: int| 0 <= r < sb.ninodes ==> #[trigger] bit_at(b3, 1, r) == bit_at(b1, 1, r),
    ensures
        names_in_use(b3, sb),
{
    assert forall|o: u32, y: Seq<u8>|
        valid_ino(sb, o as int) && bit_at(b3, 1, o - 1) && inode_at(
            b3,
            sb,
            o as int,
        ).dir() implies match #[trigger] disk_entry(b3, sb, o, y) {
        Some(m) => valid_ino(sb, m as int) && bit_at(b3, 1, m - 1),
        None => true,
    } by {
        assert(bit_at(b3, 1, o - 1) == bit_at(b1, 1, o - 1));
        assert(inode_at(b3, sb, o as int).dir() == inode_at(b1, sb, o as int).dir());
        if let Some(m) = disk_entry(b3, sb, o, y) {
            if !(o == pn && y == nname) {
                assert(!(o == po && y == oname));
                assert(disk_entry(b1, sb, o, y) == Some(m));
            }
            assert(bit_at(b3, 1, m - 1) == bit_at(b1, 1, m - 1));
        }
    }
    assert(bit_at(b3, 1, 0) == bit_at(b1, 1, 0));
}

/// What is in use once a renaming has ended.
#[verifier::spinoff_prover]
#[verifier::rlimit(60)]
proof fn lemma_renamed_in_use(
    b0: Seq<Seq<u8>>,
    b3: Seq<Seq<u8>>,
    sb: Superblock,
    c0: CacheView,
    c3: CacheView,
    ofront: Seq<Seq<u8>>,
    po: u32,
    oname: Seq<u8>,
    nfront: Seq<Seq<u8>>,
    pn: u32,
    nname: Seq<u8>,
)
    requires
        in_order(b0, sb),
        names_in_use(b0, sb),
        names_agree(b0, sb, c0),
        dirs_in_use(b0, c0.dirs),
        po == pn ==> oname != nname,
        plain_segments(ofront.push(oname)),
        plain_segments(nfront.push(nname)),
        walks_dirs(b0, sb, ofront, 1),
        walks_dirs(b0, sb, nfront, 1),
        disk_walk(b0, sb, ofront, 1) == Ok::<u32, FsError>(po),
        disk_walk(b0, sb, nfront, 1) == Ok::<u32, FsError>(pn),
        inode_at(b0, sb, po as int).dir(),
        inode_at(b0, sb, pn as int).dir(),
        po != pn ==> counts_entries(b0, sb, pn, nname),
        dir_name(name_field(nname)) == Some(nname),
        disk_entry(b0, sb, pn, nname) matches Some(x) ==> clear_of_dirs(b0, sb, x) && (disk_entry(
            b0,
            sb,
            po,
            oname,
        ) == Some(x) || only_name(b0, sb, x, pn, nname)),
        renamed(
            b0,
            b3,
            sb,
            c0,
            c3,
            po,
            absolute(ofront),
            oname,
            pn,
            absolute(nfront),
            nname,
            absolute(nfront.push(nname)),
        ),
    ensures
        names_in_use(b3, sb),
        dirs_in_use(b3, c3.dirs),
{
    let odir = absolute(ofront);
    let ndir = absolute(nfront);
    let new_path = absolute(nfront.push(nname));
    let t = choose|t: (u32, usize, u32)| #[trigger]
        renamed_at(b0, b3, sb, c0, c3, po, odir, oname, pn, ndir, nname, new_path, t);
    lemma_plain_front(ofront, oname);
    lemma_plain_front(nfront, nname);
    lemma_reached(b0, sb, ofront, 1);
    lemma_reached(b0, sb, nfront, 1);
    lemma_tidy_dir(b0, sb, po);
    lemma_tidy_dir(b0, sb, pn);
    lemma_names_tell(b0, inode_at(b0, sb, po as int).direct, oname);
    lemma_names_tell(b0, inode_at(b0, sb, pn as int).direct, nname);
    assert(disk_entry(b0, sb, po, oname) == Some(t.2));
    if !(b3 == b0 && c3 == c0) {
        let (b1, b2, c1, c2) = choose|
            b1: Seq<Seq<u8>>,
            b2: Seq<Seq<u8>>,
            c1: CacheView,
            c2: CacheView,
        | #[trigger]
            rename_steps(
                b0,
                b1,
                b2,
                b3,
                sb,
                c0,
                c1,
                c2,
                c3,
                po,
                odir,
                oname,
                pn,
                ndir,
                nname,
                new_path,
                t,
            );
        lemma_name_freed(b0, b1, sb, c0, c1, po, oname, nfront, pn, nname, t);
        assert(inode_at(b1, sb, po as int).dir() && inode_at(b1, sb, pn as int).dir());
        if disk_entry(b0, sb, pn, nname) is Some {
            lemma_remove_in_use(b0, b1, sb, c0, c1, nfront, pn, nname);
            assert(bit_at(b1, 1, po - 1) == (bit_at(b0, 1, po - 1) && Some(po) != disk_entry(
                b0,
                sb,
                pn,
                nname,
            )));
        } else {
            assert(b1 == b0 && c1 == c0);
        }
        assert(bit_at(b1, 1, po - 1));
        assert(disk_entry(b1, sb, po, oname) == Some(t.2));
        assert(valid_ino(sb, t.2 as int) && bit_at(b1, 1, t.2 - 1));
        lemma_entry_moves(b1, b2, b3, sb, c1, c2, po, oname, pn, nname, t, c3.dirs);
        let s = lemma_found_slot(b1, sb, po as int, oname, t);
        assert(zones_sound(b1, sb, inode_at(b1, sb, po as int).direct));
        assert(0 <= s / 32 < 12);
        lemma_moved_imap(b1, b2, b3, sb, c1, c2, po, pn, t, nname);
        lemma_moved_dirs(b1, b2, b3, sb, c1, c2, po, oname, pn, nname, t, c3.dirs);
        lemma_moved_names(b1, b3, sb, po, oname, pn, nname, t.2);
    }
}

/// The names of a volume stand for what is in use after a renaming, and the remembered
/// directories are in use. A file that was replaced had no other name.
pub proof fn lemma_rename_in_use(
    b0: Seq<Seq<u8>>,
    b3: Seq<Seq<u8>>,
    sb: Superblock,
    c0: CacheView,
    c3: CacheView,
    ofront: Seq<Seq<u8>>,
    po: u32,
    oname: Seq<u8>,
    nfront: Seq<Seq<u8>>,
    pn: u32,
    nname: Seq<u8>,
)
    requires
        in_order(b0, sb),
        names_in_use(b0, sb),
        names_agree(b0, sb, c0),
        dirs_in_use(b0, c0.dirs),
        ofront.push(oname) != nfront.push(nname),
        plain_segments(ofront.push(oname)),
        plain_segments(nfront.push(nname)),
        walks_dirs(b0, sb, ofront, 1),
        walks_dirs(b0, sb, nfront, 1),
        disk_walk(b0, sb, ofront, 1) == Ok::<u32, FsError>(po),
        disk_walk(b0, sb, nfront, 1) == Ok::<u32, FsError>(pn),
        inode_at(b0, sb, po as int).dir(),
        inode_at(b0, sb, pn as int).dir(),
        po != pn ==> counts_entries(b0, sb, pn, nname),
        dir_name(name_field(nname)) == Some(nname),
        disk_entry(b0, sb, pn, nname) matches Some(x) ==> clear_of_dirs(b0, sb, x) && (disk_entry(
            b0,
            sb,
            po,
            oname,
        ) == Some(x) || only_name(b0, sb, x, pn, nname)),
        rename_result(
            b0,
            b3,
            sb,
            c0,
            c3,
            absolute(ofront.push(oname)),
            absolute(nfront.push(nname)),
            Ok(()),
        ),
    ensures
        names_in_use(b3, sb),
        dirs_in_use(b3, c3.dirs),
{
    let old_parts = ofront.push(oname);
    let new_parts = nfront.push(nname);
    lemma_plain_front(ofront, oname);
    lemma_plain_front(nfront, nname);
    lemma_segments_of(old_parts);
    lemma_segments_of(new_parts);
    lemma_segments_of(ofront);
    lemma_segments_of(nfront);
    assert(old_parts.drop_last() =~= ofront);
    assert(new_parts.drop_last() =~= nfront);
    lemma_reached(b0, sb, ofront, 1);
    lemma_reached(b0, sb, nfront, 1);
    lemma_caches_agree(b0, sb, c0, absolute(ofront));
    lemma_lookup_in_use(b0, sb, c0, absolute(ofront));
    let (r1, c1) = resolved(b0, sb, c0, absolute(ofront));
    lemma_caches_agree(b0, sb, c1, absolute(nfront));
    lemma_lookup_in_use(b0, sb, c1, absolute(nfront));
    let (r2, c2) = resolved(b0, sb, c1, absolute(nfront));
    assert(r1 == Ok::<u32, FsError>(po) && r2 == Ok::<u32, FsError>(pn));
    if po == pn {
        assert(disk_walk(b0, sb, ofront, 1) == disk_walk(b0, sb, nfront, 1));
        assert(ofront == nfront);
        assert(oname != nname);
    }
    lemma_renamed_in_use(b0, b3, sb, c2, c3, ofront, po, oname, nfront, pn, nname);
}

} // verus!
