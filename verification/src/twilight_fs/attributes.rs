//! What the attributes of a node tell: how much it holds, what it is, who may use it, and
//! when it was made and changed.

use crate::block::splice;
use crate::bytes::first_pos;
use crate::twilight_fs::bitmap::with_bit_at;
use crate::twilight_fs::cache::slice_of;
use crate::twilight_fs::dir::{dir_known, dir_list, entry_ino, entry_raw, node_meta};
use crate::twilight_fs::entries::whole;
use crate::twilight_fs::fs::{
    inode_at, inode_record, lemma_with_inode, valid_ino, with_inode, Superblock,
};
use crate::twilight_fs::inode::{flag_of, with_flag, with_mode, InodeView};
use crate::twilight_fs::laws::{lemma_entry_bytes, zones_sound};
use crate::twilight_fs::names::resolved;
use crate::twilight_fs::ops::{meta_at, mkdir_result, node_at, touch_result};
use crate::twilight_fs::plan::blocks_for;
use crate::twilight_fs::read::{file_bytes, run_bytes};
use crate::twilight_fs::shared::CacheView;
use crate::twilight_fs::tree::{
    create_dir_result, create_file_result, dir_block, dir_created, dir_steps, dot, dot_dot, entry_added, entry_added_at, entry_bytes, entry_put, file_created, file_steps,
    node_inode, plus_entry,
};
use crate::twilight_fs::upkeep::lemma_node_written;
use crate::twilight_fs::volume::FsError;
use crate::twilight_fs::write::{file_written, lemma_write_then_read};
use crate::twilight_fs::zones::words;
use crate::vfs::{FileType, MetaView};
use vstd::prelude::*;

verus! {

/// After a file was written its attributes give the number of bytes that were written, by
/// whatever name it is asked for.
pub proof fn lemma_written_length_told(
    b0: Seq<Seq<u8>>,
    b1: Seq<Seq<u8>>,
    sb: Superblock,
    ino: u32,
    data: Seq<u8>,
    name: Seq<u8>,
)
    requires
        data.len() <= usize::MAX,
        file_written(b0, b1, sb, ino as int, data),
    ensures
        node_meta(name, ino, inode_at(b1, sb, ino as int)).size == data.len(),
{
}

/// After a file was written, of at most 523 blocks, its attributes give the number of bytes
/// that reading it gives.
pub proof fn lemma_written_length_read(
    b0: Seq<Seq<u8>>,
    b1: Seq<Seq<u8>>,
    sb: Superblock,
    ino: u32,
    data: Seq<u8>,
    name: Seq<u8>,
)
    requires
        sb.wf(),
        sb.zones <= b0.len(),
        data.len() <= usize::MAX,
        file_written(b0, b1, sb, ino as int, data),
        blocks_for(data.len() as int) <= 523,
    ensures
        node_meta(name, ino, inode_at(b1, sb, ino as int)).size == file_bytes(
            b1,
            inode_at(b1, sb, ino as int),
        ).len(),
{
    lemma_write_then_read(b0, b1, sb, ino as int, data);
}

/// Whether the first `left` bytes of a file that the zones in `zs` hold are all there.
pub open spec fn zones_filled(blocks: Seq<Seq<u8>>, zs: Seq<u32>, left: int) -> bool {
    forall|k: int|
        0 <= k < zs.len() && k * 2048 < left ==> #[trigger] zs[k] != 0 && blocks[zs[k] as int].len()
            == 2048
}

/// Whether a file has a zone for each of its blocks, up to the 523rd.
pub open spec fn filled(blocks: Seq<Seq<u8>>, v: InodeView) -> bool {
    &&& v.direct.len() == 12
    &&& v.size <= 523 * 2048
    &&& zones_filled(blocks, v.direct, v.size as int)
    &&& v.size > 12 * 2048 ==> v.single != 0 && words(blocks[v.single as int]).len() == 512
        && zones_filled(blocks, words(blocks[v.single as int]), v.size - 12 * 2048)
}

proof fn lemma_run_length(blocks: Seq<Seq<u8>>, zs: Seq<u32>, left: int)
    requires
        0 <= left,
        zones_filled(blocks, zs, left),
    ensures
        left > 0 ==> run_bytes(blocks, zs, left).len() == if left < zs.len() * 2048 {
            left
        } else {
            zs.len() as int * 2048
        },
    decreases zs.len(),
{
    if zs.len() > 0 && left > 0 {
        assert(zs[0] != 0);
        if left > 2048 {
            let rest = zs.skip(1);
            assert forall|k: int| 0 <= k < rest.len() && k * 2048 < left - 2048 implies
                #[trigger] rest[k] != 0 && blocks[rest[k] as int].len() == 2048 by {
                assert(rest[k] == zs[k + 1]);
            }
            lemma_run_length(blocks, rest, left - 2048);
        }
    }
}

proof fn lemma_nothing_left(blocks: Seq<Seq<u8>>, zs: Seq<u32>)
    requires
        zs.len() > 0,
    ensures
        run_bytes(blocks, zs, 0).len() == 0,
{
    assert(blocks[zs[0] as int].take(0).len() == 0);
}

/// The attributes of a file give the number of bytes that reading it gives, where each of its
/// blocks is there.
pub proof fn lemma_length_is_content(blocks: Seq<Seq<u8>>, v: InodeView, name: Seq<u8>, ino: u32)
    requires
        v.size <= usize::MAX,
        filled(blocks, v),
        v.double != 0 ==> words(blocks[v.double as int]).len() == 512,
        v.single != 0 ==> words(blocks[v.single as int]).len() == 512,
    ensures
        node_meta(name, ino, v).size == file_bytes(blocks, v).len(),
{
    let n = v.size as int;
    let a = run_bytes(blocks, v.direct, n);
    if n == 0 {
        lemma_nothing_left(blocks, v.direct);
    } else {
        lemma_run_length(blocks, v.direct, n);
    }
    if v.single != 0 {
        let w = words(blocks[v.single as int]).take(511);
        if n > 12 * 2048 {
            assert(zones_filled(blocks, w, n - 12 * 2048));
            lemma_run_length(blocks, w, n - 12 * 2048);
        } else {
            lemma_nothing_left(blocks, w);
        }
    }
    assert(file_bytes(blocks, v).len() == n);
}

/// The attributes of a node are those of its inode: its owner, its mode, whether it is a
/// directory, and its times, as far as they fit.
pub proof fn lemma_attributes(name: Seq<u8>, ino: u32, v: InodeView)
    ensures
        ({
            let m = node_meta(name, ino, v);
            &&& m.name == name
            &&& m.ino == ino
            &&& m.uid == v.uid
            &&& m.gid == v.gid
            &&& m.mode == v.mode
            &&& (m.file_type == FileType::Dir) == (v.mode & 0o170000 == 0o040000)
            &&& m.file_type == FileType::Dir || m.file_type == FileType::File
            &&& v.created_time <= u32::MAX ==> m.created_time == v.created_time
            &&& v.access_time <= u32::MAX ==> m.access_time == v.access_time
            &&& v.modified_time <= u32::MAX ==> m.modified_time == v.modified_time
            &&& v.created_time > u32::MAX ==> m.created_time == u32::MAX
            &&& v.access_time > u32::MAX ==> m.access_time == u32::MAX
            &&& v.modified_time > u32::MAX ==> m.modified_time == u32::MAX
        }),
{
}

/// A new node is empty, is a directory or a file as was asked, with the permissions that were
/// asked for, and was made, used and changed at the time that was given.
pub proof fn lemma_new_attributes(
    parent: InodeView,
    dir: bool,
    mode: u16,
    time: u64,
    zone: u32,
    name: Seq<u8>,
    ino: u32,
)
    requires
        time <= u32::MAX,
    ensures
        ({
            let v = node_inode(parent, dir, mode, time);
            let w = InodeView { direct: v.direct.update(0, zone), ..v };
            let m = node_meta(name, ino, w);
            &&& m.size == 0
            &&& (m.file_type == FileType::Dir) == dir
            &&& m.mode & 0o7777 == mode & 0o7777
            &&& m.uid == 0
            &&& m.gid == 0
            &&& m.created_time == time
            &&& m.access_time == time
            &&& m.modified_time == time
            &&& w.change_time == time
            &&& w.single == 0
            &&& w.double == 0
            &&& w.direct.len() == 12
            &&& w.direct[0] == zone
            &&& forall|k: int| 1 <= k < 12 ==> #[trigger] w.direct[k] == 0
            &&& flag_of(w) == flag_of(parent)
        }),
{
    assert((0o040000u16 | (mode & 0o7777)) & 0o170000 == 0o040000 && (0o100000u16 | (mode & 0o7777))
        & 0o170000 == 0o100000 && (0o040000u16 | (mode & 0o7777)) & 0o7777 == mode & 0o7777 && (
    0o100000u16 | (mode & 0o7777)) & 0o7777 == mode & 0o7777 && 1u32 & 0x1 != 0 && 0u32 & 0x1 == 0)
        by (bit_vector);
}

/// A node that was given permissions has them, and is still what it was, with what it held;
/// the time is noted, and no other node has changed.
pub proof fn lemma_permissions_given(
    blocks: Seq<Seq<u8>>,
    sb: Superblock,
    ino: u32,
    mode: u16,
    time: u64,
    name: Seq<u8>,
    other: int,
)
    requires
        sb.wf(),
        blocks.len() >= sb.zones,
        forall|b: int| 0 <= b < blocks.len() ==> (#[trigger] blocks[b]).len() == 2048,
        valid_ino(sb, ino as int),
        valid_ino(sb, other),
    ensures
        ({
            let v = inode_at(blocks, sb, ino as int);
            let after = with_inode(blocks, sb, ino as int, with_mode(v, mode, time));
            let w = inode_at(after, sb, ino as int);
            let (m, n) = (node_meta(name, ino, v), node_meta(name, ino, w));
            &&& n.mode & 0o7777 == mode & 0o7777
            &&& n.mode & 0o170000 == m.mode & 0o170000
            &&& n.file_type == m.file_type
            &&& w.change_time == time
            &&& n.size == m.size
            &&& n.uid == m.uid
            &&& n.gid == m.gid
            &&& n.created_time == m.created_time
            &&& n.access_time == m.access_time
            &&& n.modified_time == m.modified_time
            &&& w.direct == v.direct
            &&& w.single == v.single
            &&& w.double == v.double
            &&& w.flags == v.flags
            &&& other != ino ==> inode_at(after, sb, other) == inode_at(blocks, sb, other)
        }),
{
    let v = inode_at(blocks, sb, ino as int);
    let u = with_mode(v, mode, time);
    lemma_with_inode(blocks, sb, ino as int, u, ino as int);
    lemma_with_inode(blocks, sb, ino as int, u, other);
    let old_mode = v.mode;
    assert(((old_mode & 0o170000) | (mode & 0o7777)) & 0o170000 == old_mode & 0o170000 && ((old_mode
        & 0o170000) | (mode & 0o7777)) & 0o7777 == mode & 0o7777) by (bit_vector);
}

/// The flag of a node is what it was last set to, and setting it changes nothing else of it
/// and no other node.
pub proof fn lemma_flag_kept(
    blocks: Seq<Seq<u8>>,
    sb: Superblock,
    ino: int,
    value: u32,
    other: int,
)
    requires
        sb.wf(),
        blocks.len() >= sb.zones,
        forall|b: int| 0 <= b < blocks.len() ==> (#[trigger] blocks[b]).len() == 2048,
        valid_ino(sb, ino),
        valid_ino(sb, other),
    ensures
        ({
            let v = inode_at(blocks, sb, ino);
            let after = with_inode(blocks, sb, ino, with_flag(v, value));
            let w = inode_at(after, sb, ino);
            &&& flag_of(w) == if value != 0 {
                1u32
            } else {
                0u32
            }
            &&& w.flags & !1u32 == v.flags & !1u32
            &&& w == (InodeView { flags: w.flags, ..v })
            &&& other != ino ==> inode_at(after, sb, other) == inode_at(blocks, sb, other)
        }),
{
    let v = inode_at(blocks, sb, ino);
    let u = with_flag(v, value);
    lemma_with_inode(blocks, sb, ino, u, ino);
    lemma_with_inode(blocks, sb, ino, u, other);
    let f = v.flags;
    assert((f | 0x1) & 0x1 != 0 && (f & !0x1) & 0x1 == 0 && (f | 0x1) & !1u32 == f & !1u32 && (f
        & !0x1) & !1u32 == f & !1u32) by (bit_vector);
}

/// Whether an entry of a listing tells of entry `s` of a directory: by the name in the entry,
/// with the attributes of the node that it leads to.
pub open spec fn tells_of(
    blocks: Seq<Seq<u8>>,
    sb: Superblock,
    dir: InodeView,
    s: int,
    m: MetaView,
) -> bool {
    let block = blocks[dir.direct[s / 32] as int];
    let raw = entry_raw(block, s % 32);
    let v = inode_at(blocks, sb, m.ino as int);
    &&& dir.direct[s / 32] != 0
    &&& m.ino != 0
    &&& m.ino == entry_ino(block, s % 32)
    &&& valid_ino(sb, m.ino as int)
    &&& m.name.len() > 0
    &&& m.name == raw.take(first_pos(raw, 0))
    &&& m.size == v.size as usize
    &&& (m.file_type == FileType::Dir) == v.dir()
    &&& m.mode == v.mode
    &&& m.uid == v.uid
    &&& m.gid == v.gid
}

/// Whether entry `s` of a directory leads to a node under a name that can be listed.
pub open spec fn can_be_listed(blocks: Seq<Seq<u8>>, dir: InodeView, s: int) -> bool {
    let block = blocks[dir.direct[s / 32] as int];
    let raw = entry_raw(block, s % 32);
    let name = raw.take(first_pos(raw, 0));
    &&& dir.direct[s / 32] != 0
    &&& entry_ino(block, s % 32) != 0
    &&& vstd::utf8::valid_utf8(name)
    &&& name.len() > 0
}

/// Whether an entry of a listing tells of one of the first `n` entries of a directory.
pub open spec fn tells_of_some(
    blocks: Seq<Seq<u8>>,
    sb: Superblock,
    dir: InodeView,
    n: int,
    m: MetaView,
) -> bool {
    exists|s: int| 0 <= s < n && #[trigger] tells_of(blocks, sb, dir, s, m)
}

/// A listing holds, of each entry of the directory that leads to a node under a name, that
/// name and the attributes of the node, and nothing else; `n` is how many entries were gone
/// through. (A directory whose size is less than its entries take is listed as far as its
/// size goes.)
pub proof fn lemma_listing(blocks: Seq<Seq<u8>>, sb: Superblock, dir: InodeView, n: int)
    requires
        0 <= n <= 384,
        !dir_list(blocks, sb, dir, n).bad,
        !dir_list(blocks, sb, dir, n).lost,
    ensures
        forall|k: int|
            0 <= k < dir_list(blocks, sb, dir, n).list.len() ==> tells_of_some(
                blocks,
                sb,
                dir,
                n,
                #[trigger] dir_list(blocks, sb, dir, n).list[k],
            ),
        dir.size as usize >= n * 64 && !dir_list(blocks, sb, dir, n).end ==> forall|s: int|
            0 <= s < n && #[trigger] can_be_listed(blocks, dir, s) ==> exists|k: int|
                0 <= k < dir_list(blocks, sb, dir, n).list.len() && #[trigger] tells_of(
                    blocks,
                    sb,
                    dir,
                    s,
                    dir_list(blocks, sb, dir, n).list[k],
                ),
        0 <= dir_list(blocks, sb, dir, n).seen <= n * 64,
    decreases n,
{
    if n > 0 {
        let p = dir_list(blocks, sb, dir, n - 1);
        let l = dir_list(blocks, sb, dir, n);
        let s0 = n - 1;
        lemma_listing(blocks, sb, dir, n - 1);
        let added = l.list.len() > p.list.len();
        if added {
            assert(tells_of(blocks, sb, dir, s0, l.list[p.list.len() as int]));
        }
        assert forall|k: int| 0 <= k < l.list.len() implies tells_of_some(
            blocks,
            sb,
            dir,
            n,
            #[trigger] l.list[k],
        ) by {
            if k < p.list.len() {
                assert(l.list[k] == p.list[k]);
                assert(tells_of_some(blocks, sb, dir, n - 1, p.list[k]));
                let s = choose|s: int|
                    0 <= s < n - 1 && #[trigger] tells_of(blocks, sb, dir, s, p.list[k]);
                assert(tells_of(blocks, sb, dir, s, l.list[k]));
            } else {
                assert(tells_of(blocks, sb, dir, s0, l.list[k]));
            }
        }
        if dir.size as usize >= n * 64 && !l.end {
            assert forall|s: int| 0 <= s < n && #[trigger] can_be_listed(blocks, dir, s) implies exists|
                k: int,
            |
                0 <= k < l.list.len() && #[trigger] tells_of(blocks, sb, dir, s, l.list[k]) by {
                if s < n - 1 {
                    let k = choose|k: int|
                        0 <= k < p.list.len() && #[trigger] tells_of(blocks, sb, dir, s, p.list[k]);
                    assert(l.list[k] == p.list[k]);
                    assert(tells_of(blocks, sb, dir, s, l.list[k]));
                } else {
                    assert(tells_of(blocks, sb, dir, s0, l.list[p.list.len() as int]));
                }
            }
        }
    }
}

/// The length that a listing gives of a file is the number of bytes that reading it gives,
/// where each of its blocks is there.
pub proof fn lemma_listed_length(blocks: Seq<Seq<u8>>, sb: Superblock, dir: InodeView, n: int, k: int)
    requires
        0 <= n <= 384,
        !dir_list(blocks, sb, dir, n).bad,
        !dir_list(blocks, sb, dir, n).lost,
        0 <= k < dir_list(blocks, sb, dir, n).list.len(),
        ({
            let v = inode_at(blocks, sb, dir_list(blocks, sb, dir, n).list[k].ino as int);
            &&& v.size <= usize::MAX
            &&& filled(blocks, v)
            &&& v.double != 0 ==> words(blocks[v.double as int]).len() == 512
            &&& v.single != 0 ==> words(blocks[v.single as int]).len() == 512
        }),
    ensures
        ({
            let m = dir_list(blocks, sb, dir, n).list[k];
            m.size == file_bytes(blocks, inode_at(blocks, sb, m.ino as int)).len()
        }),
{
    lemma_listing(blocks, sb, dir, n);
    let m = dir_list(blocks, sb, dir, n).list[k];
    assert(tells_of_some(blocks, sb, dir, n, m));
    let v = inode_at(blocks, sb, m.ino as int);
    lemma_length_is_content(blocks, v, m.name, m.ino);
}

/// A file that was written keeps all its attributes but its length: what it is, whose it is, who may
/// use it and when it was made.
pub proof fn lemma_write_keeps_attributes(
    b0: Seq<Seq<u8>>,
    b1: Seq<Seq<u8>>,
    sb: Superblock,
    ino: u32,
    data: Seq<u8>,
    name: Seq<u8>,
    other: u32,
)
    requires
        file_written(b0, b1, sb, ino as int, data),
        valid_ino(sb, other as int),
        other != ino,
    ensures
        ({
            let m = node_meta(name, ino, inode_at(b0, sb, ino as int));
            let n = node_meta(name, ino, inode_at(b1, sb, ino as int));
            &&& n.mode == m.mode
            &&& n.file_type == m.file_type
            &&& n.uid == m.uid
            &&& n.gid == m.gid
            &&& n.created_time == m.created_time
            &&& n.access_time == m.access_time
            &&& n.modified_time == m.modified_time
            &&& flag_of(inode_at(b1, sb, ino as int)) == flag_of(inode_at(b0, sb, ino as int))
            &&& node_meta(name, other, inode_at(b1, sb, other as int)) == node_meta(
                name,
                other,
                inode_at(b0, sb, other as int),
            )
        }),
{
}

/// What an entry that is put into a directory changes of the inodes: the directory is one entry
/// longer, and the others are as they were.
proof fn lemma_entry_put_inodes(
    b0: Seq<Seq<u8>>,
    b1: Seq<Seq<u8>>,
    sb: Superblock,
    d: u32,
    name: Seq<u8>,
    child: u32,
    s: int,
    z: u32,
    o: int,
)
    requires
        whole(b0, sb),
        valid_ino(sb, d as int),
        valid_ino(sb, o),
        0 <= s < 384,
        forall|i: int|
            0 <= i < 12 && #[trigger] inode_at(b0, sb, d as int).direct[i] != 0 ==> sb.first_data_zone
                <= inode_at(b0, sb, d as int).direct[i],
        sb.first_data_zone > 0,
        entry_put(b0, b1, sb, d, entry_bytes(child, name), s, z),
    ensures
        whole(b1, sb),
        b1.len() == b0.len(),
        o != d ==> inode_at(b1, sb, o) == inode_at(b0, sb, o),
        inode_at(b1, sb, d as int) == (InodeView {
            size: plus_entry(inode_at(b0, sb, d as int).size),
            direct: inode_at(b0, sb, d as int).direct.update(s / 32, z),
            ..inode_at(b0, sb, d as int)
        }),
        sb.first_data_zone <= z,
{
    let dir = inode_at(b0, sb, d as int);
    let bi = s / 32;
    let fresh = dir.direct[bi] == 0;
    let r = z - sb.first_data_zone;
    let base = if fresh {
        with_bit_at(b0, sb.zmap(), r, true)
    } else {
        b0
    };
    let block = dir_block(b0, dir, bi);
    let put = base.update(z as int, splice(block, 64 * (s % 32), entry_bytes(child, name)));
    let v = InodeView { size: plus_entry(dir.size), direct: dir.direct.update(bi, z), ..dir };
    assert(dir.direct.len() == 12);
    assert(0 <= bi < 12);
    lemma_entry_bytes(block, s % 32, child, name, s % 32);
    if fresh {
        assert(0 <= r < sb.zmap_blocks * 16384);
        assert(0 <= r / 16384 < sb.zmap_blocks);
    }
    assert forall|b: int| 0 <= b < put.len() implies (#[trigger] put[b]).len() == 2048 by {
        assert(b0[b].len() == 2048);
    }
    lemma_with_inode(put, sb, d as int, v, d as int);
    lemma_with_inode(put, sb, d as int, v, o);
    assert forall|b: int| sb.itable() <= b < sb.first_data_zone implies put[b] == b0[b] by {}
    if o != d {
        let at = sb.itable() + (o - 1) / 16;
        assert(sb.itable() <= at < sb.first_data_zone);
        assert(inode_record(put, sb, o) == inode_record(b0, sb, o));
    }
    assert forall|b: int| 0 <= b < b1.len() implies (#[trigger] b1[b]).len() == 2048 by {
        assert(put[b].len() == 2048);
    }
}

/// Whether the zones of a directory are data zones.
spec fn in_data(sb: Superblock, direct: Seq<u32>) -> bool {
    forall|i: int| 0 <= i < 12 && #[trigger] direct[i] != 0 ==> sb.first_data_zone <= direct[i]
}

/// Whether a directory has become one entry longer, and nothing else of it has changed.
spec fn one_entry_longer(v: InodeView, w: InodeView) -> bool {
    w == (InodeView { size: plus_entry(v.size), direct: w.direct, ..v })
}

#[verifier::spinoff_prover]
proof fn lemma_entry_added_inodes(
    b0: Seq<Seq<u8>>,
    b1: Seq<Seq<u8>>,
    sb: Superblock,
    c0: CacheView,
    c1: CacheView,
    d: u32,
    name: Seq<u8>,
    child: u32,
    o: int,
)
    requires
        whole(b0, sb),
        valid_ino(sb, d as int),
        valid_ino(sb, o),
        in_data(sb, inode_at(b0, sb, d as int).direct),
        sb.first_data_zone > 0,
        entry_added(b0, b1, sb, c0, c1, d, name, child),
    ensures
        whole(b1, sb),
        o != d ==> inode_at(b1, sb, o) == inode_at(b0, sb, o),
        one_entry_longer(inode_at(b0, sb, d as int), inode_at(b1, sb, d as int)),
        in_data(sb, inode_at(b1, sb, d as int).direct),
{
    let (s, z) = choose|s: int, z: u32| #[trigger]
        entry_added_at(b0, b1, sb, c0, c1, d, name, child, s, z);
    lemma_entry_put_inodes(b0, b1, sb, d, name, child, s, z, o);
}

/// A file that was made is empty, is a file, has the permissions it was given and the time at which
/// it was made; of its directory nothing changes but how long it is, and of the others nothing.
#[verifier::spinoff_prover]
pub proof fn lemma_created_file(
    b0: Seq<Seq<u8>>,
    b2: Seq<Seq<u8>>,
    sb: Superblock,
    c0: CacheView,
    c2: CacheView,
    parent: u32,
    name: Seq<u8>,
    mode: u16,
    time: u64,
    n: u32,
    other: u32,
)
    requires
        whole(b0, sb),
        sb.first_data_zone > 0,
        valid_ino(sb, parent as int),
        valid_ino(sb, other as int),
        n != parent,
        other != parent,
        other != n,
        zones_sound(b0, sb, inode_at(b0, sb, parent as int).direct),
        time <= u32::MAX,
        inode_at(b0, sb, parent as int).size <= u32::MAX,
        file_created(b0, b2, sb, c0, c2, parent, name, mode, time, n),
    ensures
        ({
            let m = node_meta(name, n, inode_at(b2, sb, n as int));
            let (p, q) = (inode_at(b0, sb, parent as int), inode_at(b2, sb, parent as int));
            &&& m.size == 0
            &&& m.file_type == FileType::File
            &&& m.mode & 0o7777 == mode & 0o7777
            &&& m.uid == 0 && m.gid == 0
            &&& m.created_time == time && m.access_time == time && m.modified_time == time
            &&& flag_of(inode_at(b2, sb, n as int)) == flag_of(p)
            &&& q.size == p.size + 64
            &&& q.mode == p.mode && q.uid == p.uid && q.gid == p.gid && q.flags == p.flags
            &&& inode_at(b2, sb, other as int) == inode_at(b0, sb, other as int)
        }),
{
    let p = inode_at(b0, sb, parent as int);
    let (b1, z) = choose|b1: Seq<Seq<u8>>, z: u32| #[trigger]
        file_steps(b0, b1, b2, sb, c0, c2, parent, name, mode, time, n, z);
    let node = node_inode(p, false, mode, time);
    let c1 = dir_known(b0, c0, parent, p.direct);
    assert(node.direct =~= Seq::new(12, |i: int| 0u32));
    lemma_node_written(b0, b1, sb, node, n, z);
    assert(inode_at(b1, sb, parent as int) == p);
    assert(inode_at(b1, sb, n as int) == (InodeView { direct: node.direct.update(0, z), ..node }));
    assert(inode_at(b1, sb, other as int) == inode_at(b0, sb, other as int));
    lemma_entry_added_inodes(b1, b2, sb, c1, c2, parent, name, n, n as int);
    lemma_entry_added_inodes(b1, b2, sb, c1, c2, parent, name, n, other as int);
    lemma_new_attributes(p, false, mode, time, z, name, n);
}

/// A directory that was made is a directory with two entries, has the permissions it was given and
/// the time at which it was made; of the directory it is in nothing changes but how long it is.
#[verifier::spinoff_prover]
pub proof fn lemma_created_dir(
    b0: Seq<Seq<u8>>,
    b1: Seq<Seq<u8>>,
    b2: Seq<Seq<u8>>,
    b3: Seq<Seq<u8>>,
    b4: Seq<Seq<u8>>,
    sb: Superblock,
    c0: CacheView,
    c2: CacheView,
    c3: CacheView,
    c4: CacheView,
    parent: u32,
    name: Seq<u8>,
    mode: u16,
    time: u64,
    n: u32,
    z: u32,
)
    requires
        whole(b0, sb),
        sb.first_data_zone > 0,
        valid_ino(sb, parent as int),
        n != parent,
        zones_sound(b0, sb, inode_at(b0, sb, parent as int).direct),
        time <= u32::MAX,
        inode_at(b0, sb, parent as int).size <= u32::MAX,
        dir_steps(b0, b1, b2, b3, b4, sb, c0, c2, c3, c4, parent, name, mode, time, n, z),
    ensures
        ({
            let m = node_meta(name, n, inode_at(b4, sb, n as int));
            let (p, q) = (inode_at(b0, sb, parent as int), inode_at(b4, sb, parent as int));
            &&& m.size == 128
            &&& m.file_type == FileType::Dir
            &&& m.mode & 0o7777 == mode & 0o7777
            &&& m.uid == 0 && m.gid == 0
            &&& m.created_time == time && m.access_time == time && m.modified_time == time
            &&& flag_of(inode_at(b4, sb, n as int)) == flag_of(p)
            &&& q.size == p.size + 64
            &&& q.mode == p.mode && q.uid == p.uid && q.gid == p.gid && q.flags == p.flags
        }),
{
    let p = inode_at(b0, sb, parent as int);
    let node = node_inode(p, true, mode, time);
    let c1 = dir_known(b0, c0, parent, p.direct);
    assert(node.direct =~= Seq::new(12, |i: int| 0u32));
    lemma_node_written(b0, b1, sb, node, n, z);
    let made = InodeView { direct: node.direct.update(0, z), ..node };
    assert(inode_at(b1, sb, parent as int) == p);
    assert(inode_at(b1, sb, n as int) == made);
    lemma_entry_added_inodes(b1, b2, sb, c1, c2, parent, name, n, n as int);
    lemma_entry_added_inodes(b2, b3, sb, c2, c3, n, dot(), n, parent as int);
    lemma_entry_added_inodes(b3, b4, sb, c3, c4, n, dot_dot(), parent, parent as int);
    lemma_new_attributes(p, true, mode, time, z, name, n);
}

/// A file is made in a directory that is there, under a name that is not taken and not too long; else
/// nothing changes on the volume, unless there is no room.
pub proof fn lemma_touched(
    b0: Seq<Seq<u8>>,
    b1: Seq<Seq<u8>>,
    sb: Superblock,
    c0: CacheView,
    c1: CacheView,
    parent_path: Seq<u8>,
    name: Seq<u8>,
    mode: u16,
    time: u64,
    ok: bool,
)
    requires
        touch_result(b0, b1, sb, c0, c1, parent_path, name, mode, time, ok),
    ensures
        resolved(b0, sb, c0, parent_path).0 is Err ==> !ok && b1 == b0,
        resolved(b0, sb, c0, parent_path).0 matches Ok(p) ==> {
            &&& !(valid_ino(sb, p as int) && inode_at(b0, sb, p as int).dir()) ==> !ok && b1 == b0
            &&& ok ==> exists|n: u32| #[trigger]
                file_created(
                    b0,
                    b1,
                    sb,
                    resolved(b0, sb, c0, parent_path).1,
                    c1,
                    p,
                    name,
                    mode,
                    time,
                    n,
                )
        },
        name.len() > 60 ==> !ok && b1 == b0,
{
    if let Ok(p) = resolved(b0, sb, c0, parent_path).0 {
        let c = resolved(b0, sb, c0, parent_path).1;
        if valid_ino(sb, p as int) && inode_at(b0, sb, p as int).dir() {
            let x = choose|x: Result<u32, FsError>| #[trigger]
                create_file_result(b0, b1, sb, true, c, c1, p, name, mode, time, x) && ok == (x is Ok);
            if ok {
                assert(file_created(b0, b1, sb, c, c1, p, name, mode, time, x->Ok_0));
            }
        }
    }
}

/// A directory is made in a directory that is there, under a name that is not taken and not too long.
/// Below a path that leads nowhere none is made, and nobody is told.
pub proof fn lemma_directory_made(
    b0: Seq<Seq<u8>>,
    b1: Seq<Seq<u8>>,
    sb: Superblock,
    c0: CacheView,
    c1: CacheView,
    parent_dir: Seq<u8>,
    name: Seq<u8>,
    mode: u16,
    time: u64,
    ok: bool,
)
    requires
        mkdir_result(b0, b1, sb, c0, c1, parent_dir, name, mode, time, ok),
    ensures
        resolved(b0, sb, c0, parent_dir).0 is Err ==> ok && b1 == b0,
        resolved(b0, sb, c0, parent_dir).0 matches Ok(p) ==> {
            &&& !(valid_ino(sb, p as int) && inode_at(b0, sb, p as int).dir()) ==> !ok && b1 == b0
            &&& ok ==> exists|n: u32| #[trigger]
                dir_created(b0, b1, sb, resolved(b0, sb, c0, parent_dir).1, c1, p, name, mode, time, n)
            &&& name.len() > 60 ==> !ok && b1 == b0
        },
{
    if let Ok(p) = resolved(b0, sb, c0, parent_dir).0 {
        let c = resolved(b0, sb, c0, parent_dir).1;
        if valid_ino(sb, p as int) && inode_at(b0, sb, p as int).dir() {
            let x = choose|x: Result<u32, FsError>| #[trigger]
                create_dir_result(b0, b1, sb, true, c, c1, p, name, mode, time, x) && ok == (x is Ok);
            if ok {
                assert(dir_created(b0, b1, sb, c, c1, p, name, mode, time, x->Ok_0));
            }
        }
    }
}

/// What a path stands for is the node that it leads to, where that is one of the volume's.
pub proof fn lemma_node_at(blocks: Seq<Seq<u8>>, sb: Superblock, c: CacheView, path: Seq<u8>, i: u32)
    ensures
        node_at(blocks, sb, c, path) == Some(i) <==> resolved(blocks, sb, c, path).0 == Ok::<u32, FsError>(i)
            && 0 < i <= sb.ninodes,
{
}

/// A read of a remembered file gives its bytes from the place that was asked for: as many as there
/// are and as there is room for; pieces that follow each other make up the whole.
pub proof fn lemma_slice_read(data: Seq<u8>, offset: int, room: int, i: int)
    requires
        0 <= offset,
        0 <= room,
    ensures
        slice_of(data, offset, room).len() <= room,
        offset >= data.len() ==> slice_of(data, offset, room).len() == 0,
        offset + room <= data.len() ==> slice_of(data, offset, room).len() == room,
        offset < data.len() < offset + room ==> slice_of(data, offset, room).len() == data.len() - offset,
        0 <= i < slice_of(data, offset, room).len() ==> slice_of(data, offset, room)[i] == data[offset + i],
        0 <= offset <= data.len() ==> slice_of(data, 0, offset) + slice_of(
            data,
            offset,
            data.len() - offset,
        ) == data,
{
    if offset <= data.len() {
        assert(slice_of(data, 0, offset) + slice_of(data, offset, data.len() - offset) =~= data);
    }
}

/// What is told of a path is told of the node that it leads to: after that was written, the length
/// that is told is the number of bytes that were written; and of a path that leads nowhere nothing
/// is told.
pub proof fn lemma_path_told(
    b0: Seq<Seq<u8>>,
    b1: Seq<Seq<u8>>,
    sb: Superblock,
    c: CacheView,
    path: Seq<u8>,
    ino: u32,
    data: Seq<u8>,
)
    requires
        data.len() <= usize::MAX,
        file_written(b0, b1, sb, ino as int, data),
        node_at(b1, sb, c, path) == Some(ino),
    ensures
        meta_at(b1, sb, c, path) matches Some(m) && m.size == data.len() && m.ino == ino && m.mode == inode_at(
            b0,
            sb,
            ino as int,
        ).mode,
{
}

/// Nothing is told of a path that leads nowhere, and something of every other.
pub proof fn lemma_told_or_not(blocks: Seq<Seq<u8>>, sb: Superblock, c: CacheView, path: Seq<u8>)
    ensures
        meta_at(blocks, sb, c, path) is Some <==> (resolved(blocks, sb, c, path).0 matches Ok(i) && 0 < i
            <= sb.ninodes),
        meta_at(blocks, sb, c, path) matches Some(m) ==> resolved(blocks, sb, c, path).0 == Ok::<u32, FsError>(
            m.ino,
        ),
{
}

} // verus!
