//! What a renaming does to paths.

use crate::bytes::has_prefix;
use crate::paths::{absolute, child_path, segments, slashed, SLASH};
use crate::syscall::pathname::{plain_segment, plain_segments};
use crate::twilight_fs::cache::{
    at_or_below, dir_pos, with_name, without_name, without_prefix, IndexView,
};
use crate::twilight_fs::coherence::{
    dirs_agree, disk_entry, disk_resolved, disk_walk, index_agrees, lemma_caches_agree,
    lemma_segments_of, lemma_walk_push, names_agree, path_agrees, paths_agree, regular, searchable,
    walks_dirs,
};
use crate::twilight_fs::dir::{dir_name, entry_named, entry_place, lemma_dir_pos_is, slot_found};
use crate::twilight_fs::entries::{
    all_differ, altered, lemma_added_step, lemma_cleared_step, lemma_names_tell, lemma_removed_step,
    lemma_renamed_step, names_of, names_step, slots_of, tidy, whole, zones_apart,
};
use crate::twilight_fs::fs::{inode_at, valid_ino, Superblock};
use crate::twilight_fs::laws::zones_sound;
use crate::twilight_fs::names::{
    entry_moved, in_the_way, minus_entry, named_already, parent_resolved, path_removed,
    remove_result, removed_at, rename_result, rename_steps, renamed, renamed_at, resolved,
};
use crate::twilight_fs::read::on_volume;
use crate::twilight_fs::shared::CacheView;
use crate::twilight_fs::tree::{entry_added_at, entry_free, name_field};
use crate::twilight_fs::volume::FsError;
use vstd::prelude::*;

verus! {

/// Whether a directory is reached by one path only, of plain segments.
pub open spec fn one_path(blocks: Seq<Seq<u8>>, sb: Superblock) -> bool {
    forall|p: Seq<Seq<u8>>, q: Seq<Seq<u8>>|
        #![trigger disk_walk(blocks, sb, p, 1), disk_walk(blocks, sb, q, 1)]
        plain_segments(p) && plain_segments(q) && walks_dirs(blocks, sb, p, 1) && walks_dirs(
            blocks,
            sb,
            q,
            1,
        ) && disk_walk(blocks, sb, p, 1) == disk_walk(blocks, sb, q, 1) && (disk_walk(
            blocks,
            sb,
            p,
            1,
        ) matches Ok(d) && valid_ino(sb, d as int) && inode_at(blocks, sb, d as int).dir()) ==> p == q
}

/// Whether searching for `parts` from `ino` on looks for `name` in the directory `d`.
spec fn touches(
    blocks: Seq<Seq<u8>>,
    sb: Superblock,
    parts: Seq<Seq<u8>>,
    ino: u32,
    d: u32,
    name: Seq<u8>,
) -> bool
    decreases parts.len(),
{
    &&& parts.len() > 0
    &&& {
        ||| ino == d && parts[0] == name
        ||| searchable(blocks, sb, ino) && match disk_entry(blocks, sb, ino, parts[0]) {
            Some(next) => touches(blocks, sb, parts.skip(1), next, d, name),
            None => false,
        }
    }
}

/// A directory of a volume in order can be searched, and its names are those of its entries.
pub proof fn lemma_tidy_dir(blocks: Seq<Seq<u8>>, sb: Superblock, d: u32)
    requires
        whole(blocks, sb),
        tidy(blocks, sb),
        valid_ino(sb, d as int),
        inode_at(blocks, sb, d as int).dir(),
    ensures
        searchable(blocks, sb, d),
        on_volume(blocks, inode_at(blocks, sb, d as int).direct),
        inode_at(blocks, sb, d as int).direct[0] != 0,
        all_differ(slots_of(blocks, inode_at(blocks, sb, d as int).direct)),
        forall|x: Seq<u8>| #[trigger]
            disk_entry(blocks, sb, d, x) == if names_of(blocks, sb, d as int).dom().contains(x) {
                Some(names_of(blocks, sb, d as int)[x])
            } else {
                None
            },
{
    let direct = inode_at(blocks, sb, d as int).direct;
    assert(zones_sound(blocks, sb, direct));
    assert forall|i: int| 0 <= i < direct.len() implies #[trigger] direct[i] < blocks.len() by {
        if direct[i] != 0 {
            assert(direct[i] < sb.zones);
        }
    }
}

/// Whether the names in directories differ only in what `oname` stands for in `po` and
/// `nname` in `pn`.
pub open spec fn differ_in(
    b0: Seq<Seq<u8>>,
    b1: Seq<Seq<u8>>,
    sb: Superblock,
    po: u32,
    oname: Seq<u8>,
    pn: u32,
    nname: Seq<u8>,
) -> bool {
    &&& forall|o: int|
        valid_ino(sb, o) ==> (#[trigger] inode_at(b1, sb, o)).dir() == inode_at(b0, sb, o).dir()
    &&& forall|o: u32, x: Seq<u8>|
        valid_ino(sb, o as int) && inode_at(b0, sb, o as int).dir() && !(o == po && x == oname) && !(o
            == pn && x == nname) ==> #[trigger] disk_entry(b1, sb, o, x) == disk_entry(b0, sb, o, x)
}

/// A path that does not go through a changed name leads where it led.
proof fn lemma_walk_same(
    b0: Seq<Seq<u8>>,
    b1: Seq<Seq<u8>>,
    sb: Superblock,
    parts: Seq<Seq<u8>>,
    ino: u32,
    po: u32,
    oname: Seq<u8>,
    pn: u32,
    nname: Seq<u8>,
)
    requires
        whole(b0, sb),
        tidy(b0, sb),
        whole(b1, sb),
        tidy(b1, sb),
        differ_in(b0, b1, sb, po, oname, pn, nname),
        walks_dirs(b0, sb, parts, ino),
        disk_walk(b0, sb, parts, ino) is Ok,
        !touches(b0, sb, parts, ino, po, oname),
        !touches(b0, sb, parts, ino, pn, nname),
    ensures
        walks_dirs(b1, sb, parts, ino),
        disk_walk(b1, sb, parts, ino) == disk_walk(b0, sb, parts, ino),
    decreases parts.len(),
{
    if parts.len() > 0 {
        lemma_tidy_dir(b0, sb, ino);
        assert(inode_at(b1, sb, ino as int).dir());
        lemma_tidy_dir(b1, sb, ino);
        let next = disk_entry(b0, sb, ino, parts[0])->0;
        assert(disk_entry(b1, sb, ino, parts[0]) == disk_entry(b0, sb, ino, parts[0]));
        lemma_walk_same(b0, b1, sb, parts.skip(1), next, po, oname, pn, nname);
    }
}

/// Where a path goes through a name.
proof fn lemma_touch_place(
    blocks: Seq<Seq<u8>>,
    sb: Superblock,
    front: Seq<Seq<u8>>,
    parts: Seq<Seq<u8>>,
    ino: u32,
    d: u32,
    name: Seq<u8>,
) -> (j: int)
    requires
        walks_dirs(blocks, sb, front, 1),
        disk_walk(blocks, sb, front, 1) == Ok::<u32, FsError>(ino),
        walks_dirs(blocks, sb, parts, ino),
        touches(blocks, sb, parts, ino, d, name),
    ensures
        front.len() <= j < (front + parts).len(),
        disk_walk(blocks, sb, (front + parts).take(j), 1) == Ok::<u32, FsError>(d),
        walks_dirs(blocks, sb, (front + parts).take(j), 1),
        inode_at(blocks, sb, d as int).dir(),
        (front + parts)[j] == name,
    decreases parts.len(),
{
    let all = front + parts;
    if ino == d && parts[0] == name {
        assert(all.take(front.len() as int) =~= front);
        front.len() as int
    } else {
        let next = disk_entry(blocks, sb, ino, parts[0])->0;
        let more = front.push(parts[0]);
        lemma_walk_push(blocks, sb, front, parts[0], 1);
        assert(more + parts.skip(1) =~= all);
        lemma_touch_place(blocks, sb, more, parts.skip(1), next, d, name)
    }
}

/// In a volume where directories have one path, a path that goes through `name` in the
/// directory with the segments `front` begins with them.
proof fn lemma_touched_below(
    blocks: Seq<Seq<u8>>,
    sb: Superblock,
    parts: Seq<Seq<u8>>,
    front: Seq<Seq<u8>>,
    d: u32,
    name: Seq<u8>,
)
    requires
        one_path(blocks, sb),
        valid_ino(sb, d as int),
        plain_segments(parts),
        plain_segments(front),
        walks_dirs(blocks, sb, parts, 1),
        walks_dirs(blocks, sb, front, 1),
        disk_walk(blocks, sb, front, 1) == Ok::<u32, FsError>(d),
        touches(blocks, sb, parts, 1, d, name),
    ensures
        front.len() < parts.len(),
        parts.take(front.len() as int) == front,
        parts[front.len() as int] == name,
{
    let none = Seq::<Seq<u8>>::empty();
    assert(none + parts =~= parts);
    let j = lemma_touch_place(blocks, sb, none, parts, 1, d, name);
    let head = parts.take(j);
    assert forall|i: int| 0 <= i < head.len() implies plain_segment(#[trigger] head[i]) by {
        assert(head[i] == parts[i]);
    }
    assert(disk_walk(blocks, sb, head, 1) == disk_walk(blocks, sb, front, 1));
    assert(head == front);
}

proof fn lemma_slashed_concat(a: Seq<Seq<u8>>, b: Seq<Seq<u8>>)
    ensures
        slashed(a + b) == slashed(a) + slashed(b),
    decreases b.len(),
{
    if b.len() == 0 {
        assert(a + b =~= a);
        assert(slashed(a) + slashed(b) =~= slashed(a));
    } else {
        lemma_slashed_concat(a, b.drop_last());
        assert((a + b).drop_last() =~= a + b.drop_last());
        assert((a + b).last() == b.last());
        assert(slashed(a + b) =~= slashed(a) + slashed(b));
    }
}

/// A path that begins with the segments of another lies at or below it.
proof fn lemma_below(parts: Seq<Seq<u8>>, front: Seq<Seq<u8>>)
    requires
        0 < front.len() <= parts.len(),
        parts.take(front.len() as int) == front,
    ensures
        at_or_below(absolute(parts), absolute(front)),
{
    let rest = parts.skip(front.len() as int);
    assert(front + rest =~= parts);
    lemma_slashed_concat(front, rest);
    let path = absolute(parts);
    let prefix = absolute(front);
    if rest.len() == 0 {
        assert(rest =~= Seq::<Seq<u8>>::empty());
        assert(path =~= prefix);
    } else {
        crate::syscall::pathname::lemma_slashed_front(rest);
        assert(path == prefix + slashed(rest));
        assert(slashed(rest)[0] == SLASH);
        assert(path.take(prefix.len() as int) =~= prefix);
        assert(has_prefix(path, prefix));
        assert(path[prefix.len() as int] == SLASH);
    }
}

/// The path of a name in a directory is that of one segment more.
proof fn lemma_child(front: Seq<Seq<u8>>, name: Seq<u8>)
    requires
        plain_segments(front),
    ensures
        child_path(absolute(front), name) == absolute(front.push(name)),
{
    let more = front.push(name);
    assert(more.drop_last() =~= front);
    if front.len() == 0 {
        assert(slashed(front) =~= Seq::<u8>::empty());
        assert(seq![SLASH] + name =~= slashed(more));
    } else {
        assert(plain_segment(front[front.len() - 1]));
        assert(slashed(front).len() > 1);
        assert(absolute(front) != seq![SLASH]);
    }
}

/// The pairs that are left are pairs that were there, and not at or below `prefix`.
proof fn lemma_without_prefix(s: Seq<(Seq<u8>, u32)>, prefix: Seq<u8>)
    ensures
        forall|i: int|
            0 <= i < without_prefix(s, prefix).len() ==> !at_or_below(
                (#[trigger] without_prefix(s, prefix)[i]).0,
                prefix,
            ) && s.contains(without_prefix(s, prefix)[i]),
    decreases s.len(),
{
    if s.len() > 0 {
        let front = s.drop_last();
        lemma_without_prefix(front, prefix);
        let left = without_prefix(s, prefix);
        let before = without_prefix(front, prefix);
        assert forall|i: int| 0 <= i < left.len() implies !at_or_below((#[trigger] left[i]).0, prefix)
            && s.contains(left[i]) by {
            if i < before.len() {
                assert(left[i] == before[i]);
                let k = choose|k: int| 0 <= k < front.len() && front[k] == before[i];
                assert(s[k] == left[i]);
            } else {
                assert(left[i] == s[s.len() - 1]);
            }
        }
    }
}

/// The remembered directories agree with the blocks after a step, where what is remembered
/// of the directory took the same step.
pub(crate) proof fn lemma_dirs_step(
    b0: Seq<Seq<u8>>,
    b1: Seq<Seq<u8>>,
    sb: Superblock,
    dirs: Seq<(u32, IndexView)>,
    after: Seq<(u32, IndexView)>,
    d: u32,
    gone: Option<Seq<u8>>,
    come: Option<(Seq<u8>, u32)>,
)
    requires
        whole(b0, sb),
        tidy(b0, sb),
        valid_ino(sb, d as int),
        names_step(b0, b1, sb, d as int, gone, come),
        dirs_agree(b0, sb, dirs),
        after.len() == dirs.len(),
        forall|k: int| 0 <= k < dirs.len() ==> (#[trigger] after[k]).0 == dirs[k].0,
        forall|k: int|
            0 <= k < dirs.len() ==> (#[trigger] after[k]).1.names == if dirs[k].0 == d {
                altered(dirs[k].1.names, gone, come)
            } else {
                dirs[k].1.names
            },
    ensures
        dirs_agree(b1, sb, after),
{
    assert forall|i: int, j: int| 0 <= i < j < after.len() implies #[trigger] after[i].0
        != #[trigger] after[j].0 by {
        assert(dirs[i].0 != dirs[j].0);
    }
    assert forall|k: int| 0 <= k < after.len() implies index_agrees(
        b1,
        sb,
        (#[trigger] after[k]).0,
        after[k].1,
    ) by {
        let ino = dirs[k].0;
        assert(index_agrees(b0, sb, dirs[k].0, dirs[k].1));
        assert(inode_at(b1, sb, ino as int).dir());
        lemma_tidy_dir(b1, sb, ino);
        if ino != d {
            assert(names_of(b1, sb, ino as int) == names_of(b0, sb, ino as int));
        }
    }
}

pub(crate) proof fn lemma_dir_updated(dirs: Seq<(u32, IndexView)>, d: u32, name: Seq<u8>, child: u32, hint: usize)
    requires
        forall|i: int, j: int| 0 <= i < j < dirs.len() ==> #[trigger] dirs[i].0 != #[trigger] dirs[j].0,
    ensures
        with_name(dirs, d, name, child, hint).len() == dirs.len(),
        without_name(dirs, d, name).len() == dirs.len(),
        forall|k: int|
            0 <= k < dirs.len() ==> (#[trigger] with_name(dirs, d, name, child, hint)[k]).0 == dirs[k].0,
        forall|k: int| 0 <= k < dirs.len() ==> (#[trigger] without_name(dirs, d, name)[k]).0 == dirs[k].0,
        forall|k: int|
            0 <= k < dirs.len() ==> (#[trigger] with_name(dirs, d, name, child, hint)[k]).1.names
                == if dirs[k].0 == d {
                dirs[k].1.names.insert(name, child)
            } else {
                dirs[k].1.names
            },
        forall|k: int|
            0 <= k < dirs.len() ==> (#[trigger] without_name(dirs, d, name)[k]).1.names == if dirs[k].0
                == d {
                dirs[k].1.names.remove(name)
            } else {
                dirs[k].1.names
            },
{
    lemma_dir_pos_is(dirs, d);
    let p = dir_pos(dirs, d);
    if p < dirs.len() {
        assert forall|k: int| 0 <= k < dirs.len() && dirs[k].0 == d implies k == p by {
            if k < p {
                assert(dirs[k].0 != dirs[p].0);
            } else if k > p {
                assert(dirs[p].0 != dirs[k].0);
            }
        }
    } else {
        assert forall|k: int| 0 <= k < dirs.len() implies (#[trigger] dirs[k]).0 != d by {}
    }
}

/// How a renaming in one directory ends.
#[verifier::spinoff_prover]
#[verifier::rlimit(40)]
proof fn lemma_entry_moves_within(
    b1: Seq<Seq<u8>>,
    b2: Seq<Seq<u8>>,
    b3: Seq<Seq<u8>>,
    sb: Superblock,
    c1: CacheView,
    c2: CacheView,
    po: u32,
    oname: Seq<u8>,
    pn: u32,
    nname: Seq<u8>,
    t: (u32, usize, u32),
    dirs: Seq<(u32, IndexView)>,
)
    requires
        whole(b1, sb),
        tidy(b1, sb),
        dirs_agree(b1, sb, c1.dirs),
        valid_ino(sb, po as int),
        valid_ino(sb, pn as int),
        inode_at(b1, sb, po as int).dir(),
        inode_at(b1, sb, pn as int).dir(),
        oname.len() > 0,
        nname.len() > 0,
        dir_name(name_field(nname)) == Some(nname),
        po == pn,
        oname != nname,
        entry_place(b1, inode_at(b1, sb, po as int).direct, oname, t),
        t.2 != 0,
        !names_of(b1, sb, pn as int).dom().contains(nname),
        entry_moved(b1, b2, b3, sb, c1, c2, po, pn, t, nname),
        dirs == if po == pn {
            with_name(without_name(c2.dirs, po, oname), pn, nname, t.2, 0)
        } else {
            without_name(c2.dirs, po, oname)
        },
    ensures
        whole(b3, sb),
        tidy(b3, sb),
        dirs_agree(b3, sb, dirs),
        c2.paths == c1.paths,
        differ_in(b1, b3, sb, po, oname, pn, nname),
        disk_entry(b3, sb, pn, nname) == Some(t.2),
        disk_entry(b3, sb, po, oname) is None,
{
    lemma_tidy_dir(b1, sb, po);
    lemma_tidy_dir(b1, sb, pn);
    lemma_renamed_step(b1, b3, sb, po, oname, nname, t);
    assert(inode_at(b3, sb, po as int).dir());
    lemma_tidy_dir(b3, sb, po);
    lemma_dir_updated(c2.dirs, po, oname, 0, 0);
    let mid = without_name(c2.dirs, po, oname);
    assert forall|i: int, j: int| 0 <= i < j < mid.len() implies #[trigger] mid[i].0
        != #[trigger] mid[j].0 by {
        assert(c2.dirs[i].0 != c2.dirs[j].0);
    }
    lemma_dir_updated(mid, pn, nname, t.2, 0);
    assert forall|k: int| 0 <= k < dirs.len() implies (#[trigger] dirs[k]).0 == c2.dirs[k].0 by {
        assert(mid[k].0 == c2.dirs[k].0);
    }
    assert forall|k: int| 0 <= k < dirs.len() implies (#[trigger] dirs[k]).1.names == if c2.dirs[k].0
        == po {
        altered(c2.dirs[k].1.names, Some(oname), Some((nname, t.2)))
    } else {
        c2.dirs[k].1.names
    } by {
        assert(mid[k].0 == c2.dirs[k].0);
    }
    lemma_dirs_step(b1, b3, sb, c2.dirs, dirs, po, Some(oname), Some((nname, t.2)));
    assert forall|o: u32, x: Seq<u8>|
        valid_ino(sb, o as int) && inode_at(b1, sb, o as int).dir() && !(o == po && x == oname)
            && !(o == pn && x == nname) implies #[trigger] disk_entry(b3, sb, o, x) == disk_entry(
        b1,
        sb,
        o,
        x,
    ) by {
        lemma_tidy_dir(b1, sb, o);
        assert(inode_at(b3, sb, o as int).dir());
        lemma_tidy_dir(b3, sb, o);
        if o != po {
            assert(names_of(b3, sb, o as int) == names_of(b1, sb, o as int));
        }
    }
}

/// How a renaming from one directory to another ends.
#[verifier::spinoff_prover]
#[verifier::rlimit(40)]
proof fn lemma_entry_moves_across(
    b1: Seq<Seq<u8>>,
    b2: Seq<Seq<u8>>,
    b3: Seq<Seq<u8>>,
    sb: Superblock,
    c1: CacheView,
    c2: CacheView,
    po: u32,
    oname: Seq<u8>,
    pn: u32,
    nname: Seq<u8>,
    t: (u32, usize, u32),
    dirs: Seq<(u32, IndexView)>,
)
    requires
        whole(b1, sb),
        tidy(b1, sb),
        dirs_agree(b1, sb, c1.dirs),
        valid_ino(sb, po as int),
        valid_ino(sb, pn as int),
        inode_at(b1, sb, po as int).dir(),
        inode_at(b1, sb, pn as int).dir(),
        inode_at(b1, sb, pn as int).size > 0,
        oname.len() > 0,
        nname.len() > 0,
        dir_name(name_field(nname)) == Some(nname),
        po != pn,
        entry_place(b1, inode_at(b1, sb, po as int).direct, oname, t),
        t.2 != 0,
        !names_of(b1, sb, pn as int).dom().contains(nname),
        entry_moved(b1, b2, b3, sb, c1, c2, po, pn, t, nname),
        dirs == if po == pn {
            with_name(without_name(c2.dirs, po, oname), pn, nname, t.2, 0)
        } else {
            without_name(c2.dirs, po, oname)
        },
    ensures
        whole(b3, sb),
        tidy(b3, sb),
        dirs_agree(b3, sb, dirs),
        c2.paths == c1.paths,
        differ_in(b1, b3, sb, po, oname, pn, nname),
        disk_entry(b3, sb, pn, nname) == Some(t.2),
        disk_entry(b3, sb, po, oname) is None,
{
    lemma_tidy_dir(b1, sb, po);
    lemma_tidy_dir(b1, sb, pn);
    let (s, z) = choose|s: int, z: u32| #[trigger]
        entry_added_at(b1, b2, sb, c1, c2, pn, nname, t.2, s, z);
    assert(entry_free(b1, inode_at(b1, sb, pn as int), s));
    lemma_added_step(b1, b2, sb, pn, nname, t.2, s, z);
    lemma_dir_updated(c1.dirs, pn, nname, t.2, (s + 1) as usize);
    lemma_dirs_step(b1, b2, sb, c1.dirs, c2.dirs, pn, None, Some((nname, t.2)));
    assert(inode_at(b2, sb, po as int).dir() && inode_at(b2, sb, pn as int).dir());
    assert(entry_place(b2, inode_at(b2, sb, po as int).direct, oname, t));
    lemma_cleared_step(b2, b3, sb, po, oname, t);
    lemma_dir_updated(c2.dirs, po, oname, 0, 0);
    lemma_dirs_step(b2, b3, sb, c2.dirs, dirs, po, Some(oname), None);
    assert(inode_at(b3, sb, po as int).dir() && inode_at(b3, sb, pn as int).dir());
    lemma_tidy_dir(b3, sb, po);
    lemma_tidy_dir(b3, sb, pn);
    assert(names_of(b3, sb, pn as int) == names_of(b2, sb, pn as int));
    assert forall|o: int| valid_ino(sb, o) implies (#[trigger] inode_at(b3, sb, o)).dir()
        == inode_at(b1, sb, o).dir() by {
        assert(inode_at(b2, sb, o).dir() == inode_at(b1, sb, o).dir());
    }
    assert forall|o: u32, x: Seq<u8>|
        valid_ino(sb, o as int) && inode_at(b1, sb, o as int).dir() && !(o == po && x == oname)
            && !(o == pn && x == nname) implies #[trigger] disk_entry(b3, sb, o, x) == disk_entry(
        b1,
        sb,
        o,
        x,
    ) by {
        lemma_tidy_dir(b1, sb, o);
        assert(inode_at(b2, sb, o as int).dir());
        assert(inode_at(b3, sb, o as int).dir());
        lemma_tidy_dir(b3, sb, o);
        if o != pn {
            assert(names_of(b2, sb, o as int) == names_of(b1, sb, o as int));
        }
        if o != po {
            assert(names_of(b3, sb, o as int) == names_of(b2, sb, o as int));
        }
    }
}

/// How a renaming ends: the blocks, the names and what is remembered of directories, once
/// no other file has the new name.
pub(crate) proof fn lemma_entry_moves(
    b1: Seq<Seq<u8>>,
    b2: Seq<Seq<u8>>,
    b3: Seq<Seq<u8>>,
    sb: Superblock,
    c1: CacheView,
    c2: CacheView,
    po: u32,
    oname: Seq<u8>,
    pn: u32,
    nname: Seq<u8>,
    t: (u32, usize, u32),
    dirs: Seq<(u32, IndexView)>,
)
    requires
        whole(b1, sb),
        tidy(b1, sb),
        dirs_agree(b1, sb, c1.dirs),
        valid_ino(sb, po as int),
        valid_ino(sb, pn as int),
        inode_at(b1, sb, po as int).dir(),
        inode_at(b1, sb, pn as int).dir(),
        po != pn ==> inode_at(b1, sb, pn as int).size > 0,
        oname.len() > 0,
        nname.len() > 0,
        dir_name(name_field(nname)) == Some(nname),
        po == pn ==> oname != nname,
        entry_place(b1, inode_at(b1, sb, po as int).direct, oname, t),
        t.2 != 0,
        !names_of(b1, sb, pn as int).dom().contains(nname),
        entry_moved(b1, b2, b3, sb, c1, c2, po, pn, t, nname),
        dirs == if po == pn {
            with_name(without_name(c2.dirs, po, oname), pn, nname, t.2, 0)
        } else {
            without_name(c2.dirs, po, oname)
        },
    ensures
        whole(b3, sb),
        tidy(b3, sb),
        dirs_agree(b3, sb, dirs),
        c2.paths == c1.paths,
        differ_in(b1, b3, sb, po, oname, pn, nname),
        disk_entry(b3, sb, pn, nname) == Some(t.2),
        disk_entry(b3, sb, po, oname) is None,
{
    if po == pn {
        lemma_entry_moves_within(b1, b2, b3, sb, c1, c2, po, oname, pn, nname, t, dirs);
    } else {
        lemma_entry_moves_across(b1, b2, b3, sb, c1, c2, po, oname, pn, nname, t, dirs);
    }
}

/// What the names in a directory stand for after a step.
proof fn lemma_step_entries(
    b0: Seq<Seq<u8>>,
    b1: Seq<Seq<u8>>,
    sb: Superblock,
    d: u32,
    gone: Seq<u8>,
)
    requires
        whole(b0, sb),
        tidy(b0, sb),
        valid_ino(sb, d as int),
        inode_at(b0, sb, d as int).dir(),
        names_step(b0, b1, sb, d as int, Some(gone), None),
    ensures
        forall|o: u32, x: Seq<u8>|
            valid_ino(sb, o as int) && inode_at(b0, sb, o as int).dir() && !(o == d && x == gone)
                ==> #[trigger] disk_entry(b1, sb, o, x) == disk_entry(b0, sb, o, x),
{
    assert forall|o: u32, x: Seq<u8>|
        valid_ino(sb, o as int) && inode_at(b0, sb, o as int).dir() && !(o == d && x == gone) implies #[trigger] disk_entry(
        b1,
        sb,
        o,
        x,
    ) == disk_entry(b0, sb, o, x) by {
        lemma_tidy_dir(b0, sb, o);
        assert(inode_at(b1, sb, o as int).dir());
        lemma_tidy_dir(b1, sb, o);
        if o != d {
            assert(names_of(b1, sb, o as int) == names_of(b0, sb, o as int));
        }
    }
}

/// The front of a path that ends in a directory leads to directories.
proof fn lemma_front_dirs(blocks: Seq<Seq<u8>>, sb: Superblock, parts: Seq<Seq<u8>>, ino: u32, k: int)
    requires
        0 <= k <= parts.len(),
        walks_dirs(blocks, sb, parts, ino),
        disk_walk(blocks, sb, parts, ino) matches Ok(d) && inode_at(blocks, sb, d as int).dir(),
    ensures
        disk_walk(blocks, sb, parts.take(k), ino) matches Ok(d) && inode_at(blocks, sb, d as int).dir(),
    decreases parts.len(),
{
    if k == 0 {
        assert(parts.take(0).len() == 0);
    } else {
        assert(parts.take(k).skip(1) =~= parts.skip(1).take(k - 1));
        assert(parts.take(k)[0] == parts[0]);
        let next = disk_entry(blocks, sb, ino, parts[0])->0;
        lemma_front_dirs(blocks, sb, parts.skip(1), next, k - 1);
    }
}

/// What removing the file that `nname` stands for in `pn` does to names.
pub(crate) proof fn lemma_way_cleared(
    b0: Seq<Seq<u8>>,
    b1: Seq<Seq<u8>>,
    sb: Superblock,
    c: CacheView,
    c1: CacheView,
    pn: u32,
    nname: Seq<u8>,
    ndir: Seq<u8>,
)
    requires
        whole(b0, sb),
        tidy(b0, sb),
        names_agree(b0, sb, c),
        valid_ino(sb, pn as int),
        inode_at(b0, sb, pn as int).dir(),
        nname.len() > 0,
        path_removed(b0, b1, sb, c, c1, pn, ndir, nname),
        disk_entry(b0, sb, pn, nname) matches Some(x) ==> clear_of_dirs(b0, sb, x),
    ensures
        names_step(b0, b1, sb, pn as int, Some(nname), None),
        inode_at(b1, sb, pn as int).size == minus_entry(inode_at(b0, sb, pn as int).size),
        dirs_agree(b1, sb, c1.dirs),
        c1.paths == without_prefix(c.paths, child_path(ndir, nname)),
{
    let direct = inode_at(b0, sb, pn as int).direct;
    let t = choose|t: (u32, usize, u32)| #[trigger] removed_at(b0, b1, sb, c, c1, pn, ndir, nname, t);
    lemma_tidy_dir(b0, sb, pn);
    lemma_names_tell(b0, direct, nname);
    assert(disk_entry(b0, sb, pn, nname) == Some(t.2));
    lemma_removed_step(b0, b1, sb, pn, nname, t);
    lemma_dir_updated(c.dirs, pn, nname, 0, 0);
    lemma_dirs_step(b0, b1, sb, c.dirs, c1.dirs, pn, Some(nname), None);
}

/// Whether an inode shares no zone with a directory.
pub open spec fn clear_of_dirs(blocks: Seq<Seq<u8>>, sb: Superblock, ino: u32) -> bool {
    forall|o: int|
        valid_ino(sb, o) && (#[trigger] inode_at(blocks, sb, o)).dir() ==> zones_apart(
            inode_at(blocks, sb, o).direct,
            inode_at(blocks, sb, ino as int).direct,
        )
}

/// Whether a volume is in order: its blocks are whole, its directories share no zone and
/// have no name twice, and each is reached by one path.
pub open spec fn in_order(blocks: Seq<Seq<u8>>, sb: Superblock) -> bool {
    whole(blocks, sb) && tidy(blocks, sb) && one_path(blocks, sb)
}

/// The remembered paths that neither the old nor the new name is on lead where they led.
proof fn lemma_paths_kept(
    b0: Seq<Seq<u8>>,
    b3: Seq<Seq<u8>>,
    sb: Superblock,
    paths: Seq<(Seq<u8>, u32)>,
    after: Seq<(Seq<u8>, u32)>,
    ofront: Seq<Seq<u8>>,
    po: u32,
    oname: Seq<u8>,
    nfront: Seq<Seq<u8>>,
    pn: u32,
    nname: Seq<u8>,
)
    requires
        in_order(b0, sb),
        whole(b3, sb),
        tidy(b3, sb),
        differ_in(b0, b3, sb, po, oname, pn, nname),
        valid_ino(sb, po as int),
        valid_ino(sb, pn as int),
        paths_agree(b0, sb, paths),
        plain_segments(ofront.push(oname)),
        plain_segments(nfront.push(nname)),
        walks_dirs(b0, sb, ofront, 1),
        walks_dirs(b0, sb, nfront, 1),
        disk_walk(b0, sb, ofront, 1) == Ok::<u32, FsError>(po),
        disk_walk(b0, sb, nfront, 1) == Ok::<u32, FsError>(pn),
        after == without_prefix(
            without_prefix(paths, absolute(ofront.push(oname))),
            absolute(nfront.push(nname)),
        ),
    ensures
        paths_agree(b3, sb, after),
{
    let old_path = absolute(ofront.push(oname));
    let new_path = absolute(nfront.push(nname));
    let mid = without_prefix(paths, old_path);
    lemma_without_prefix(paths, old_path);
    lemma_without_prefix(mid, new_path);
    lemma_plain_front(ofront, oname);
    lemma_plain_front(nfront, nname);
    assert forall|i: int| 0 <= i < after.len() implies path_agrees(
        b3,
        sb,
        (#[trigger] after[i]).0,
        after[i].1,
    ) by {
        let j = choose|j: int| 0 <= j < mid.len() && mid[j] == after[i];
        assert(mid[j].0 == after[i].0);
        let k = choose|k: int| 0 <= k < paths.len() && paths[k] == mid[j];
        assert(path_agrees(b0, sb, paths[k].0, paths[k].1));
        let path = after[i].0;
        let parts = segments(path);
        if touches(b0, sb, parts, 1, po, oname) {
            lemma_touched_below(b0, sb, parts, ofront, po, oname);
            assert(parts.take(ofront.len() as int + 1) =~= ofront.push(oname));
            lemma_below(parts, ofront.push(oname));
        }
        if touches(b0, sb, parts, 1, pn, nname) {
            lemma_touched_below(b0, sb, parts, nfront, pn, nname);
            assert(parts.take(nfront.len() as int + 1) =~= nfront.push(nname));
            lemma_below(parts, nfront.push(nname));
        }
        lemma_walk_same(b0, b3, sb, parts, 1, po, oname, pn, nname);
    }
}

pub proof fn lemma_plain_front(front: Seq<Seq<u8>>, name: Seq<u8>)
    requires
        plain_segments(front.push(name)),
    ensures
        plain_segments(front),
        plain_segment(name),
{
    let all = front.push(name);
    assert forall|i: int| 0 <= i < front.len() implies plain_segment(#[trigger] front[i]) by {
        assert(all[i] == front[i]);
    }
    assert(all[front.len() as int] == name);
}

/// What moving a name does to the paths that lead to it.
proof fn lemma_ends_move(
    b0: Seq<Seq<u8>>,
    b3: Seq<Seq<u8>>,
    sb: Superblock,
    ofront: Seq<Seq<u8>>,
    po: u32,
    oname: Seq<u8>,
    nfront: Seq<Seq<u8>>,
    pn: u32,
    nname: Seq<u8>,
    i: u32,
)
    requires
        in_order(b0, sb),
        whole(b3, sb),
        tidy(b3, sb),
        differ_in(b0, b3, sb, po, oname, pn, nname),
        plain_segments(ofront.push(oname)),
        plain_segments(nfront.push(nname)),
        walks_dirs(b0, sb, ofront, 1),
        walks_dirs(b0, sb, nfront, 1),
        disk_walk(b0, sb, ofront, 1) == Ok::<u32, FsError>(po),
        disk_walk(b0, sb, nfront, 1) == Ok::<u32, FsError>(pn),
        valid_ino(sb, po as int),
        valid_ino(sb, pn as int),
        inode_at(b0, sb, po as int).dir(),
        inode_at(b0, sb, pn as int).dir(),
        disk_entry(b0, sb, po, oname) == Some(i),
        inode_at(b0, sb, i as int).dir() ==> po == pn,
        disk_entry(b0, sb, pn, nname) matches Some(x) ==> !inode_at(b0, sb, x as int).dir(),
        disk_entry(b3, sb, pn, nname) == Some(i),
        disk_entry(b3, sb, po, oname) is None,
    ensures
        walks_dirs(b3, sb, ofront.push(oname), 1),
        walks_dirs(b3, sb, nfront.push(nname), 1),
        disk_walk(b3, sb, ofront.push(oname), 1) == Err::<u32, FsError>(FsError::FileNotFound),
        disk_walk(b3, sb, nfront.push(nname), 1) == Ok::<u32, FsError>(i),
{
    let old_parts = ofront.push(oname);
    let new_parts = nfront.push(nname);
    lemma_plain_front(ofront, oname);
    lemma_plain_front(nfront, nname);
    lemma_tidy_dir(b0, sb, po);
    lemma_tidy_dir(b0, sb, pn);
    assert(inode_at(b3, sb, po as int).dir() && inode_at(b3, sb, pn as int).dir());
    lemma_tidy_dir(b3, sb, po);
    lemma_tidy_dir(b3, sb, pn);
    lemma_walk_push(b0, sb, ofront, oname, 1);
    lemma_walk_push(b0, sb, nfront, nname, 1);
    if touches(b0, sb, nfront, 1, po, oname) {
        lemma_touched_below(b0, sb, nfront, ofront, po, oname);
        assert(nfront.take(ofront.len() as int + 1) =~= old_parts);
        lemma_front_dirs(b0, sb, nfront, 1, ofront.len() as int + 1);
        assert(disk_walk(b0, sb, ofront, 1) == disk_walk(b0, sb, nfront, 1));
        assert(ofront == nfront);
    }
    if touches(b0, sb, nfront, 1, pn, nname) {
        lemma_touched_below(b0, sb, nfront, nfront, pn, nname);
    }
    if touches(b0, sb, ofront, 1, po, oname) {
        lemma_touched_below(b0, sb, ofront, ofront, po, oname);
    }
    if touches(b0, sb, ofront, 1, pn, nname) {
        lemma_touched_below(b0, sb, ofront, nfront, pn, nname);
        assert(ofront.take(nfront.len() as int + 1) =~= new_parts);
        lemma_front_dirs(b0, sb, ofront, 1, nfront.len() as int + 1);
    }
    lemma_walk_same(b0, b3, sb, ofront, 1, po, oname, pn, nname);
    lemma_walk_same(b0, b3, sb, nfront, 1, po, oname, pn, nname);
    lemma_walk_push(b3, sb, ofront, oname, 1);
    lemma_walk_push(b3, sb, nfront, nname, 1);
}

/// Following segments after others goes on from where those lead.
proof fn lemma_walk_cat(
    blocks: Seq<Seq<u8>>,
    sb: Superblock,
    front: Seq<Seq<u8>>,
    rest: Seq<Seq<u8>>,
    ino: u32,
)
    ensures
        disk_walk(blocks, sb, front + rest, ino) == match disk_walk(blocks, sb, front, ino) {
            Ok(d) => disk_walk(blocks, sb, rest, d),
            Err(e) => Err(e),
        },
        walks_dirs(blocks, sb, front + rest, ino) == (walks_dirs(blocks, sb, front, ino) && (
        disk_walk(blocks, sb, front, ino) matches Ok(d) ==> walks_dirs(blocks, sb, rest, d))),
    decreases rest.len(),
{
    if rest.len() == 0 {
        assert(front + rest =~= front);
    } else {
        let more = front.push(rest[0]);
        assert(more + rest.skip(1) =~= front + rest);
        lemma_walk_push(blocks, sb, front, rest[0], ino);
        lemma_walk_cat(blocks, sb, more, rest.skip(1), ino);
    }
}

/// A path that leads somewhere does not go through a name that stands for nothing.
proof fn lemma_untouched(
    blocks: Seq<Seq<u8>>,
    sb: Superblock,
    parts: Seq<Seq<u8>>,
    ino: u32,
    d: u32,
    name: Seq<u8>,
)
    requires
        disk_walk(blocks, sb, parts, ino) is Ok,
        disk_entry(blocks, sb, d, name) is None,
    ensures
        !touches(blocks, sb, parts, ino, d, name),
    decreases parts.len(),
{
    if parts.len() > 0 {
        let next = disk_entry(blocks, sb, ino, parts[0])->0;
        lemma_untouched(blocks, sb, parts.skip(1), next, d, name);
    }
}

/// The first place at which a path goes through a name.
proof fn lemma_first_touch(
    blocks: Seq<Seq<u8>>,
    sb: Superblock,
    parts: Seq<Seq<u8>>,
    ino: u32,
    d: u32,
    name: Seq<u8>,
) -> (j: int)
    requires
        walks_dirs(blocks, sb, parts, ino),
        touches(blocks, sb, parts, ino, d, name),
    ensures
        0 <= j < parts.len(),
        parts[j] == name,
        walks_dirs(blocks, sb, parts.take(j), ino),
        disk_walk(blocks, sb, parts.take(j), ino) == Ok::<u32, FsError>(d),
        !touches(blocks, sb, parts.take(j), ino, d, name),
    decreases parts.len(),
{
    if ino == d && parts[0] == name {
        0
    } else {
        let next = disk_entry(blocks, sb, ino, parts[0])->0;
        let j = lemma_first_touch(blocks, sb, parts.skip(1), next, d, name);
        let front = parts.take(j + 1);
        assert(front.skip(1) =~= parts.skip(1).take(j));
        assert(front[0] == parts[0]);
        j + 1
    }
}

/// Where directories lose names and get none, each is reached by one path still.
proof fn lemma_fewer_paths(b0: Seq<Seq<u8>>, b1: Seq<Seq<u8>>, sb: Superblock)
    requires
        in_order(b0, sb),
        whole(b1, sb),
        tidy(b1, sb),
        forall|o: int|
            valid_ino(sb, o) ==> (#[trigger] inode_at(b1, sb, o)).dir() == inode_at(b0, sb, o).dir(),
        forall|o: u32, x: Seq<u8>|
            valid_ino(sb, o as int) && inode_at(b0, sb, o as int).dir() && (#[trigger] disk_entry(
                b1,
                sb,
                o,
                x,
            )) is Some ==> disk_entry(b1, sb, o, x) == disk_entry(b0, sb, o, x),
    ensures
        in_order(b1, sb),
{
    assert forall|p: Seq<Seq<u8>>, q: Seq<Seq<u8>>|
        #![trigger disk_walk(b1, sb, p, 1), disk_walk(b1, sb, q, 1)]
        plain_segments(p) && plain_segments(q) && walks_dirs(b1, sb, p, 1) && walks_dirs(
            b1,
            sb,
            q,
            1,
        ) && disk_walk(b1, sb, p, 1) == disk_walk(b1, sb, q, 1) && (disk_walk(
            b1,
            sb,
            p,
            1,
        ) matches Ok(d) && valid_ino(sb, d as int) && inode_at(b1, sb, d as int).dir()) implies p == q by {
        lemma_fewer_walks(b0, b1, sb, p, 1);
        lemma_fewer_walks(b0, b1, sb, q, 1);
        let d = disk_walk(b1, sb, p, 1)->Ok_0;
        assert(inode_at(b1, sb, d as int).dir() == inode_at(b0, sb, d as int).dir());
        assert(disk_walk(b0, sb, p, 1) == disk_walk(b0, sb, q, 1));
    }
}

proof fn lemma_fewer_walks(
    b0: Seq<Seq<u8>>,
    b1: Seq<Seq<u8>>,
    sb: Superblock,
    parts: Seq<Seq<u8>>,
    ino: u32,
)
    requires
        whole(b0, sb),
        tidy(b0, sb),
        whole(b1, sb),
        tidy(b1, sb),
        forall|o: int|
            valid_ino(sb, o) ==> (#[trigger] inode_at(b1, sb, o)).dir() == inode_at(b0, sb, o).dir(),
        forall|o: u32, x: Seq<u8>|
            valid_ino(sb, o as int) && inode_at(b0, sb, o as int).dir() && (#[trigger] disk_entry(
                b1,
                sb,
                o,
                x,
            )) is Some ==> disk_entry(b1, sb, o, x) == disk_entry(b0, sb, o, x),
        walks_dirs(b1, sb, parts, ino),
        disk_walk(b1, sb, parts, ino) is Ok,
    ensures
        walks_dirs(b0, sb, parts, ino),
        disk_walk(b0, sb, parts, ino) == disk_walk(b1, sb, parts, ino),
    decreases parts.len(),
{
    if parts.len() > 0 {
        lemma_tidy_dir(b1, sb, ino);
        assert(inode_at(b0, sb, ino as int).dir());
        lemma_tidy_dir(b0, sb, ino);
        let next = disk_entry(b1, sb, ino, parts[0])->0;
        lemma_fewer_walks(b0, b1, sb, parts.skip(1), next);
    }
}

/// What a path of a renamed volume leads to was there before: at the same path, or, where
/// the path begins with the new name of a directory, at that with the old one.
spec fn path_before(
    p: Seq<Seq<u8>>,
    front: Seq<Seq<u8>>,
    oname: Seq<u8>,
    below: bool,
) -> Seq<Seq<u8>> {
    if below {
        front.push(oname) + p.skip(front.len() as int + 1)
    } else {
        p
    }
}

/// Where a path that leads to a directory after a renaming led before.
#[verifier::spinoff_prover]
proof fn lemma_path_before(
    b0: Seq<Seq<u8>>,
    b3: Seq<Seq<u8>>,
    sb: Superblock,
    ofront: Seq<Seq<u8>>,
    po: u32,
    oname: Seq<u8>,
    nfront: Seq<Seq<u8>>,
    pn: u32,
    nname: Seq<u8>,
    i: u32,
    p: Seq<Seq<u8>>,
) -> (below: bool)
    requires
        in_order(b0, sb),
        whole(b3, sb),
        tidy(b3, sb),
        differ_in(b0, b3, sb, po, oname, pn, nname),
        plain_segments(ofront.push(oname)),
        plain_segments(nfront.push(nname)),
        walks_dirs(b0, sb, ofront, 1),
        walks_dirs(b0, sb, nfront, 1),
        disk_walk(b0, sb, ofront, 1) == Ok::<u32, FsError>(po),
        disk_walk(b0, sb, nfront, 1) == Ok::<u32, FsError>(pn),
        valid_ino(sb, po as int),
        valid_ino(sb, pn as int),
        inode_at(b0, sb, po as int).dir(),
        inode_at(b0, sb, pn as int).dir(),
        disk_entry(b0, sb, po, oname) == Some(i),
        inode_at(b0, sb, i as int).dir() ==> po == pn,
        valid_ino(sb, i as int),
        disk_entry(b3, sb, pn, nname) == Some(i),
        disk_entry(b3, sb, po, oname) is None,
        plain_segments(p),
        walks_dirs(b3, sb, p, 1),
        disk_walk(b3, sb, p, 1) matches Ok(d) && valid_ino(sb, d as int) && inode_at(
            b3,
            sb,
            d as int,
        ).dir(),
    ensures
        ({
            let q = path_before(p, nfront, oname, below);
            &&& plain_segments(q)
            &&& walks_dirs(b0, sb, q, 1)
            &&& disk_walk(b0, sb, q, 1) == disk_walk(b3, sb, p, 1)
        }),
        below ==> ofront == nfront && nfront.len() < p.len() && p.take(nfront.len() as int) == nfront
            && p[nfront.len() as int] == nname,
        !below ==> !(ofront.len() < p.len() && p.take(ofront.len() as int + 1) == ofront.push(oname)),
{
    lemma_plain_front(ofront, oname);
    lemma_plain_front(nfront, nname);
    assert(differ_in(b3, b0, sb, po, oname, pn, nname));
    lemma_untouched(b3, sb, p, 1, po, oname);
    if !touches(b3, sb, p, 1, pn, nname) {
        lemma_walk_same(b3, b0, sb, p, 1, po, oname, pn, nname);
        if ofront.len() < p.len() && p.take(ofront.len() as int + 1) == ofront.push(oname) {
            let n = ofront.len() as int;
            assert(p.take(n) =~= ofront.push(oname).drop_last());
            assert(p.take(n) =~= ofront);
            assert(p.take(n) + p.skip(n) =~= p);
            assert(p[n] == p.take(n + 1)[n]);
            lemma_walk_cat(b3, sb, p.take(n), p.skip(n), 1);
            lemma_prefix_untouched(b3, sb, p, 1, n, po, oname);
            lemma_prefix_untouched(b3, sb, p, 1, n, pn, nname);
            lemma_walk_same(b3, b0, sb, p.take(n), 1, po, oname, pn, nname);
            assert(p.skip(n)[0] == oname);
        }
        false
    } else {
        let j = lemma_first_touch(b3, sb, p, 1, pn, nname);
        let head = p.take(j);
        let tail = p.skip(j + 1);
        assert forall|k: int| 0 <= k < head.len() implies plain_segment(#[trigger] head[k]) by {
            assert(head[k] == p[k]);
        }
        lemma_untouched(b3, sb, head, 1, po, oname);
        lemma_walk_same(b3, b0, sb, head, 1, po, oname, pn, nname);
        assert(disk_walk(b0, sb, head, 1) == disk_walk(b0, sb, nfront, 1));
        assert(head == nfront);
        assert(head.push(nname) + tail =~= p);
        lemma_walk_push(b3, sb, head, nname, 1);
        assert(inode_at(b3, sb, pn as int).dir());
        lemma_tidy_dir(b3, sb, pn);
        lemma_walk_cat(b3, sb, head.push(nname), tail, 1);
        assert(disk_walk(b3, sb, tail, i) == disk_walk(b3, sb, p, 1));
        assert(inode_at(b3, sb, i as int).dir() == inode_at(b0, sb, i as int).dir());
        assert(inode_at(b0, sb, i as int).dir());
        assert(disk_walk(b0, sb, ofront, 1) == disk_walk(b0, sb, nfront, 1));
        assert(ofront == nfront);
        lemma_tidy_dir(b0, sb, po);
        lemma_walk_push(b0, sb, ofront, oname, 1);
        lemma_untouched(b3, sb, tail, i, po, oname);
        if touches(b3, sb, tail, i, pn, nname) {
            let k = lemma_first_touch(b3, sb, tail, i, pn, nname);
            let ring = tail.take(k);
            lemma_untouched(b3, sb, ring, i, po, oname);
            lemma_walk_same(b3, b0, sb, ring, i, po, oname, pn, nname);
            lemma_walk_cat(b0, sb, ofront.push(oname), ring, 1);
            let long = ofront.push(oname) + ring;
            assert forall|m: int| 0 <= m < long.len() implies plain_segment(#[trigger] long[m]) by {
                if m < ofront.len() {
                    assert(long[m] == ofront[m]);
                } else if m > ofront.len() {
                    assert(long[m] == p[j + 1 + (m - ofront.len() - 1)]);
                }
            }
            assert(disk_walk(b0, sb, long, 1) == disk_walk(b0, sb, ofront, 1));
            assert(long == ofront);
            assert(false);
        }
        lemma_walk_same(b3, b0, sb, tail, i, po, oname, pn, nname);
        lemma_walk_cat(b0, sb, ofront.push(oname), tail, 1);
        let q = path_before(p, nfront, oname, true);
        assert(q == ofront.push(oname) + tail);
        assert forall|m: int| 0 <= m < q.len() implies plain_segment(#[trigger] q[m]) by {
            if m < ofront.len() {
                assert(q[m] == ofront[m]);
            } else if m > ofront.len() {
                assert(q[m] == p[m]);
            }
        }
        true
    }
}

proof fn lemma_prefix_untouched(
    blocks: Seq<Seq<u8>>,
    sb: Superblock,
    parts: Seq<Seq<u8>>,
    ino: u32,
    n: int,
    d: u32,
    name: Seq<u8>,
)
    requires
        0 <= n <= parts.len(),
        !touches(blocks, sb, parts, ino, d, name),
    ensures
        !touches(blocks, sb, parts.take(n), ino, d, name),
    decreases parts.len(),
{
    if n > 0 {
        let head = parts.take(n);
        assert(head[0] == parts[0]);
        assert(head.skip(1) =~= parts.skip(1).take(n - 1));
        if searchable(blocks, sb, ino) {
            if let Some(next) = disk_entry(blocks, sb, ino, parts[0]) {
                lemma_prefix_untouched(blocks, sb, parts.skip(1), next, n - 1, d, name);
            }
        }
    }
}

/// After a renaming each directory is reached by one path still.
#[verifier::spinoff_prover]
proof fn lemma_one_path_still(
    b0: Seq<Seq<u8>>,
    b3: Seq<Seq<u8>>,
    sb: Superblock,
    ofront: Seq<Seq<u8>>,
    po: u32,
    oname: Seq<u8>,
    nfront: Seq<Seq<u8>>,
    pn: u32,
    nname: Seq<u8>,
    i: u32,
)
    requires
        in_order(b0, sb),
        whole(b3, sb),
        tidy(b3, sb),
        differ_in(b0, b3, sb, po, oname, pn, nname),
        plain_segments(ofront.push(oname)),
        plain_segments(nfront.push(nname)),
        walks_dirs(b0, sb, ofront, 1),
        walks_dirs(b0, sb, nfront, 1),
        disk_walk(b0, sb, ofront, 1) == Ok::<u32, FsError>(po),
        disk_walk(b0, sb, nfront, 1) == Ok::<u32, FsError>(pn),
        valid_ino(sb, po as int),
        valid_ino(sb, pn as int),
        inode_at(b0, sb, po as int).dir(),
        inode_at(b0, sb, pn as int).dir(),
        disk_entry(b0, sb, po, oname) == Some(i),
        inode_at(b0, sb, i as int).dir() ==> po == pn,
        valid_ino(sb, i as int),
        disk_entry(b3, sb, pn, nname) == Some(i),
        disk_entry(b3, sb, po, oname) is None,
    ensures
        in_order(b3, sb),
{
    assert forall|p: Seq<Seq<u8>>, q: Seq<Seq<u8>>|
        #![trigger disk_walk(b3, sb, p, 1), disk_walk(b3, sb, q, 1)]
        plain_segments(p) && plain_segments(q) && walks_dirs(b3, sb, p, 1) && walks_dirs(
            b3,
            sb,
            q,
            1,
        ) && disk_walk(b3, sb, p, 1) == disk_walk(b3, sb, q, 1) && (disk_walk(
            b3,
            sb,
            p,
            1,
        ) matches Ok(d) && valid_ino(sb, d as int) && inode_at(b3, sb, d as int).dir()) implies p == q by {
        let n = nfront.len() as int;
        let u = lemma_path_before(b0, b3, sb, ofront, po, oname, nfront, pn, nname, i, p);
        let v = lemma_path_before(b0, b3, sb, ofront, po, oname, nfront, pn, nname, i, q);
        let p0 = path_before(p, nfront, oname, u);
        let q0 = path_before(q, nfront, oname, v);
        let d = disk_walk(b3, sb, p, 1)->Ok_0;
        assert(inode_at(b3, sb, d as int).dir() == inode_at(b0, sb, d as int).dir());
        assert(disk_walk(b0, sb, p0, 1) == disk_walk(b0, sb, q0, 1));
        assert(p0 == q0);
        if u {
            assert(p =~= nfront.push(nname) + p.skip(n + 1));
            assert(p0.take(n + 1) =~= ofront.push(oname));
            assert(p0.skip(n + 1) =~= p.skip(n + 1));
        }
        if v {
            assert(q =~= nfront.push(nname) + q.skip(n + 1));
            assert(q0.take(n + 1) =~= ofront.push(oname));
            assert(q0.skip(n + 1) =~= q.skip(n + 1));
        }
    }
}

/// Whether a directory still counts an entry once `name` is gone from it. One that counts
/// none has its first block blanked by the next name that it takes.
pub open spec fn counts_entries(
    blocks: Seq<Seq<u8>>,
    sb: Superblock,
    d: u32,
    name: Seq<u8>,
) -> bool {
    let size = inode_at(blocks, sb, d as int).size;
    if disk_entry(blocks, sb, d, name) is Some {
        minus_entry(size) > 0
    } else {
        size > 0
    }
}

/// Once a file in the way was removed, no entry has the new name, and all else is as it was.
#[verifier::spinoff_prover]
#[verifier::rlimit(40)]
pub proof fn lemma_name_freed(
    b0: Seq<Seq<u8>>,
    b1: Seq<Seq<u8>>,
    sb: Superblock,
    c0: CacheView,
    c1: CacheView,
    po: u32,
    oname: Seq<u8>,
    nfront: Seq<Seq<u8>>,
    pn: u32,
    nname: Seq<u8>,
    t: (u32, usize, u32),
)
    requires
        in_order(b0, sb),
        names_agree(b0, sb, c0),
        plain_segments(nfront.push(nname)),
        walks_dirs(b0, sb, nfront, 1),
        disk_walk(b0, sb, nfront, 1) == Ok::<u32, FsError>(pn),
        valid_ino(sb, po as int),
        valid_ino(sb, pn as int),
        inode_at(b0, sb, po as int).dir(),
        inode_at(b0, sb, pn as int).dir(),
        po != pn ==> counts_entries(b0, sb, pn, nname),
        oname.len() > 0,
        po == pn ==> oname != nname,
        disk_entry(b0, sb, pn, nname) matches Some(x) ==> clear_of_dirs(b0, sb, x),
        entry_place(b0, inode_at(b0, sb, po as int).direct, oname, t),
        (b1 == b0 && c1 == c0 && forall|k: int|
            0 <= k < 384 ==> !#[trigger] entry_named(
                b0,
                inode_at(b0, sb, pn as int).direct,
                nname,
                k,
            )) || (in_the_way(b0, sb, inode_at(b0, sb, pn as int).direct, nname, t.2) && remove_result(
            b0,
            b1,
            sb,
            true,
            c0,
            c1,
            absolute(nfront.push(nname)),
            None,
        )),
    ensures
        whole(b1, sb),
        tidy(b1, sb),
        dirs_agree(b1, sb, c1.dirs),
        paths_agree(b0, sb, c1.paths),
        po != pn ==> inode_at(b1, sb, pn as int).size > 0,
        !names_of(b1, sb, pn as int).dom().contains(nname),
        entry_place(b1, inode_at(b1, sb, po as int).direct, oname, t),
        disk_entry(b0, sb, pn, nname) matches Some(x) ==> !inode_at(b0, sb, x as int).dir(),
        forall|o: int|
            valid_ino(sb, o) ==> (#[trigger] inode_at(b1, sb, o)).dir() == inode_at(b0, sb, o).dir(),
        forall|o: u32, x: Seq<u8>|
            valid_ino(sb, o as int) && inode_at(b0, sb, o as int).dir() && !(o == pn && x == nname)
                ==> #[trigger] disk_entry(b1, sb, o, x) == disk_entry(b0, sb, o, x),
{
    let new_path = absolute(nfront.push(nname));
    let ndir = absolute(nfront);
    let ndirect = inode_at(b0, sb, pn as int).direct;
    lemma_plain_front(nfront, nname);
    lemma_child(nfront, nname);
    lemma_tidy_dir(b0, sb, pn);
    lemma_names_tell(b0, ndirect, nname);
    let there = exists|k: int| 0 <= k < 384 && #[trigger] entry_named(b0, ndirect, nname, k);
    if there {
        reveal(remove_result);
        let parts = nfront.push(nname);
        lemma_segments_of(parts);
        lemma_segments_of(nfront);
        assert(parts.drop_last() =~= nfront);
        lemma_caches_agree(b0, sb, c0, ndir);
        let (r, c) = parent_resolved(b0, sb, c0, nfront);
        assert(r == Ok::<u32, FsError>(pn));
        assert(names_agree(b0, sb, c));
        lemma_way_cleared(b0, b1, sb, c, c1, pn, nname, ndir);
        lemma_step_entries(b0, b1, sb, pn, nname);
        assert(inode_at(b1, sb, po as int).dir() && inode_at(b1, sb, pn as int).dir());
        assert(entry_place(b1, inode_at(b1, sb, po as int).direct, oname, t));
        let u = choose|u: (u32, usize, u32)| #[trigger]
            entry_place(b0, ndirect, nname, u) && u.2 != t.2 && valid_ino(sb, u.2 as int)
                && !inode_at(b0, sb, u.2 as int).dir();
        assert(disk_entry(b0, sb, pn, nname) == Some(u.2));
        lemma_without_prefix(c.paths, new_path);
        assert(paths_agree(b0, sb, c1.paths)) by {
            assert forall|j: int| 0 <= j < c1.paths.len() implies path_agrees(
                b0,
                sb,
                (#[trigger] c1.paths[j]).0,
                c1.paths[j].1,
            ) by {
                let k = choose|k: int| 0 <= k < c.paths.len() && c.paths[k] == c1.paths[j];
                assert(path_agrees(b0, sb, c.paths[k].0, c.paths[k].1));
            }
        }
    } else {
        assert(b1 == b0 && c1 == c0) by {
            if in_the_way(b0, sb, ndirect, nname, t.2) {
                let u = choose|u: (u32, usize, u32)| #[trigger]
                    entry_place(b0, ndirect, nname, u) && u.2 != t.2;
                let s = choose|s: int| #[trigger] slot_found(b0, ndirect, nname, s, u);
                assert(entry_named(b0, ndirect, nname, s));
            }
        }
    }
}

/// What a renaming leaves, given the directories of the two names.
#[verifier::spinoff_prover]
#[verifier::rlimit(40)]
proof fn lemma_renamed_in(
    b0: Seq<Seq<u8>>,
    b3: Seq<Seq<u8>>,
    sb: Superblock,
    c0: CacheView,
    c3: CacheView,
    ofront: Seq<Seq<u8>>,
    po: u32,
    oname: Seq<u8>,
    nfront: Seq<Seq<u8>>,
    pn: u32,
    nname: Seq<u8>,
    i: u32,
)
    requires
        in_order(b0, sb),
        names_agree(b0, sb, c0),
        ofront.push(oname) != nfront.push(nname),
        plain_segments(ofront.push(oname)),
        plain_segments(nfront.push(nname)),
        walks_dirs(b0, sb, ofront, 1),
        walks_dirs(b0, sb, nfront, 1),
        disk_walk(b0, sb, ofront, 1) == Ok::<u32, FsError>(po),
        disk_walk(b0, sb, nfront, 1) == Ok::<u32, FsError>(pn),
        valid_ino(sb, po as int),
        valid_ino(sb, pn as int),
        inode_at(b0, sb, po as int).dir(),
        inode_at(b0, sb, pn as int).dir(),
        po != pn ==> counts_entries(b0, sb, pn, nname),
        dir_name(name_field(nname)) == Some(nname),
        disk_entry(b0, sb, po, oname) == Some(i),
        po == pn ==> disk_entry(b0, sb, pn, nname) != Some(i),
        disk_entry(b0, sb, pn, nname) matches Some(x) ==> clear_of_dirs(b0, sb, x),
        renamed(
            b0,
            b3,
            sb,
            c0,
            c3,
            po,
            absolute(ofront),
            oname,
            pn,
            absolute(nfront),
            nname,
            absolute(nfront.push(nname)),
        ),
    ensures
        in_order(b3, sb),
        names_agree(b3, sb, c3),
        walks_dirs(b3, sb, ofront.push(oname), 1),
        walks_dirs(b3, sb, nfront.push(nname), 1),
        disk_walk(b3, sb, ofront.push(oname), 1) == Err::<u32, FsError>(FsError::FileNotFound),
        disk_walk(b3, sb, nfront.push(nname), 1) == Ok::<u32, FsError>(i),
{
    let odir = absolute(ofront);
    let ndir = absolute(nfront);
    let new_path = absolute(nfront.push(nname));
    let t = choose|t: (u32, usize, u32)| #[trigger]
        renamed_at(b0, b3, sb, c0, c3, po, odir, oname, pn, ndir, nname, new_path, t);
    let odirect = inode_at(b0, sb, po as int).direct;
    let ndirect = inode_at(b0, sb, pn as int).direct;
    lemma_plain_front(ofront, oname);
    lemma_plain_front(nfront, nname);
    lemma_child(ofront, oname);
    lemma_child(nfront, nname);
    lemma_tidy_dir(b0, sb, po);
    lemma_tidy_dir(b0, sb, pn);
    lemma_names_tell(b0, odirect, oname);
    lemma_names_tell(b0, ndirect, nname);
    assert(t.2 == i);
    if po == pn {
        assert(disk_walk(b0, sb, ofront, 1) == disk_walk(b0, sb, nfront, 1));
        assert(ofront == nfront);
        assert(oname != nname);
    }
    assert(!named_already(b0, sb, pn, nname, t.2));
    let (b1, b2, c1, c2) = choose|
        b1: Seq<Seq<u8>>,
        b2: Seq<Seq<u8>>,
        c1: CacheView,
        c2: CacheView,
    | #[trigger]
        rename_steps(
            b0,
            b1,
            b2,
            b3,
            sb,
            c0,
            c1,
            c2,
            c3,
            po,
            odir,
            oname,
            pn,
            ndir,
            nname,
            new_path,
            t,
        );
    lemma_name_freed(b0, b1, sb, c0, c1, po, oname, nfront, pn, nname, t);
    lemma_entry_moves(b1, b2, b3, sb, c1, c2, po, oname, pn, nname, t, c3.dirs);
    assert(differ_in(b0, b3, sb, po, oname, pn, nname)) by {
        assert forall|o: int| valid_ino(sb, o) implies (#[trigger] inode_at(b3, sb, o)).dir() == inode_at(
            b0,
            sb,
            o,
        ).dir() by {
            assert(inode_at(b1, sb, o).dir() == inode_at(b0, sb, o).dir());
        }
        assert forall|o: u32, x: Seq<u8>|
            valid_ino(sb, o as int) && inode_at(b0, sb, o as int).dir() && !(o == po && x == oname)
                && !(o == pn && x == nname) implies #[trigger] disk_entry(b3, sb, o, x) == disk_entry(
            b0,
            sb,
            o,
            x,
        ) by {
            assert(inode_at(b1, sb, o as int).dir());
            assert(disk_entry(b1, sb, o, x) == disk_entry(b0, sb, o, x));
        }
    }
    lemma_paths_kept(b0, b3, sb, c1.paths, c3.paths, ofront, po, oname, nfront, pn, nname);
    lemma_ends_move(b0, b3, sb, ofront, po, oname, nfront, pn, nname, i);
    lemma_one_path_still(b0, b3, sb, ofront, po, oname, nfront, pn, nname, i);
}

/// A renaming moves what the old path leads to: the new path then leads to it, whatever
/// other file it led to before, and the old path leads nowhere. The volume is in order still,
/// and what is remembered of names agrees with the blocks again. The two paths may lie in one directory or in two. The paths
/// are plain ones through directories, the volume is in order, and a file that the new path
/// led to shares no zone with a directory. Within one directory the two names were not names
/// of one file, which renaming leaves as they are; another directory still counts an entry
/// when it takes the name.
pub proof fn lemma_rename_moves(
    b0: Seq<Seq<u8>>,
    b3: Seq<Seq<u8>>,
    sb: Superblock,
    c0: CacheView,
    c3: CacheView,
    old_path: Seq<u8>,
    new_path: Seq<u8>,
    i: u32,
)
    requires
        in_order(b0, sb),
        names_agree(b0, sb, c0),
        regular(old_path),
        regular(new_path),
        old_path != new_path,
        walks_dirs(b0, sb, segments(old_path), 1),
        walks_dirs(b0, sb, segments(new_path), 1),
        resolved(b0, sb, c0, old_path).0 == Ok::<u32, FsError>(i),
        segments(old_path).drop_last() == segments(new_path).drop_last() ==> resolved(
            b0,
            sb,
            c0,
            new_path,
        ).0 != Ok::<u32, FsError>(i),
        resolved(b0, sb, c0, new_path).0 matches Ok(x) ==> clear_of_dirs(b0, sb, x),
        disk_resolved(b0, sb, absolute(segments(new_path).drop_last())) matches Ok(d) ==> segments(
            old_path,
        ).drop_last() == segments(new_path).drop_last() || counts_entries(
            b0,
            sb,
            d,
            segments(new_path).last(),
        ),
        dir_name(name_field(segments(new_path).last())) == Some(segments(new_path).last()),
        rename_result(b0, b3, sb, c0, c3, old_path, new_path, Ok(())),
    ensures
        resolved(b3, sb, c3, new_path).0 == Ok::<u32, FsError>(i),
        resolved(b3, sb, c3, old_path).0 == Err::<u32, FsError>(FsError::FileNotFound),
        names_agree(b3, sb, c3),
        in_order(b3, sb),
{
    let old_parts = segments(old_path);
    let new_parts = segments(new_path);
    let ofront = old_parts.drop_last();
    let nfront = new_parts.drop_last();
    let oname = old_parts.last();
    let nname = new_parts.last();
    assert(ofront.push(oname) =~= old_parts);
    assert(nfront.push(nname) =~= new_parts);
    lemma_plain_front(ofront, oname);
    lemma_plain_front(nfront, nname);
    lemma_segments_of(ofront);
    lemma_segments_of(nfront);
    lemma_walk_push(b0, sb, ofront, oname, 1);
    lemma_walk_push(b0, sb, nfront, nname, 1);
    lemma_caches_agree(b0, sb, c0, old_path);
    lemma_caches_agree(b0, sb, c0, new_path);
    lemma_caches_agree(b0, sb, c0, absolute(ofront));
    let (r1, c1) = resolved(b0, sb, c0, absolute(ofront));
    lemma_caches_agree(b0, sb, c1, absolute(nfront));
    let (r2, c2) = resolved(b0, sb, c1, absolute(nfront));
    let po = r1->Ok_0;
    let pn = r2->Ok_0;
    lemma_tidy_dir(b0, sb, po);
    lemma_tidy_dir(b0, sb, pn);
    lemma_renamed_in(b0, b3, sb, c2, c3, ofront, po, oname, nfront, pn, nname, i);
    lemma_caches_agree(b3, sb, c3, old_path);
    lemma_caches_agree(b3, sb, c3, new_path);
}

proof fn lemma_without_prefix_twice(s: Seq<(Seq<u8>, u32)>, prefix: Seq<u8>)
    ensures
        without_prefix(without_prefix(s, prefix), prefix) == without_prefix(s, prefix),
    decreases s.len(),
{
    if s.len() > 0 {
        lemma_without_prefix_twice(s.drop_last(), prefix);
        if !at_or_below(s.last().0, prefix) {
            let before = without_prefix(s.drop_last(), prefix);
            assert(before.push(s.last()).drop_last() =~= before);
        }
    }
}

/// The path of a file that was removed, and that shared no zone with a directory, leads
/// nowhere, the volume is in order still, and what is remembered of names agrees with the
/// blocks again.
pub proof fn lemma_remove_forgets(
    b0: Seq<Seq<u8>>,
    b1: Seq<Seq<u8>>,
    sb: Superblock,
    c0: CacheView,
    c1: CacheView,
    path: Seq<u8>,
)
    requires
        in_order(b0, sb),
        names_agree(b0, sb, c0),
        regular(path),
        walks_dirs(b0, sb, segments(path), 1),
        resolved(b0, sb, c0, path).0 matches Ok(x) ==> clear_of_dirs(b0, sb, x),
        remove_result(b0, b1, sb, true, c0, c1, path, None),
    ensures
        resolved(b1, sb, c1, path).0 == Err::<u32, FsError>(FsError::FileNotFound),
        names_agree(b1, sb, c1),
        in_order(b1, sb),
{
    reveal(remove_result);
    let parts = segments(path);
    let front = parts.drop_last();
    let name = parts.last();
    assert(front.push(name) =~= parts);
    lemma_plain_front(front, name);
    lemma_segments_of(front);
    lemma_child(front, name);
    lemma_walk_push(b0, sb, front, name, 1);
    lemma_caches_agree(b0, sb, c0, path);
    lemma_caches_agree(b0, sb, c0, absolute(front));
    let (r, c) = parent_resolved(b0, sb, c0, front);
    let d = r->Ok_0;
    assert(disk_walk(b0, sb, front, 1) == Ok::<u32, FsError>(d));
    assert(names_agree(b0, sb, c));
    lemma_tidy_dir(b0, sb, d);
    lemma_way_cleared(b0, b1, sb, c, c1, d, name, absolute(front));
    lemma_step_entries(b0, b1, sb, d, name);
    assert(differ_in(b0, b1, sb, d, name, d, name));
    assert forall|o: u32, x: Seq<u8>|
        valid_ino(sb, o as int) && inode_at(b0, sb, o as int).dir() && (#[trigger] disk_entry(
            b1,
            sb,
            o,
            x,
        )) is Some implies disk_entry(b1, sb, o, x) == disk_entry(b0, sb, o, x) by {
        assert(inode_at(b1, sb, o as int).dir());
        lemma_tidy_dir(b1, sb, o);
        assert(names_of(b1, sb, d as int) == altered(names_of(b0, sb, d as int), Some(name), None));
    }
    lemma_fewer_paths(b0, b1, sb);
    lemma_without_prefix_twice(c.paths, path);
    lemma_paths_kept(b0, b1, sb, c.paths, c1.paths, front, d, name, front, d, name);
    if touches(b0, sb, front, 1, d, name) {
        lemma_touched_below(b0, sb, front, front, d, name);
    }
    lemma_walk_same(b0, b1, sb, front, 1, d, name, d, name);
    assert(inode_at(b1, sb, d as int).dir());
    lemma_tidy_dir(b1, sb, d);
    lemma_walk_push(b1, sb, front, name, 1);
    lemma_caches_agree(b1, sb, c1, path);
}

} // verus!
