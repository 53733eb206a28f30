//! What is remembered of file contents agrees with the blocks.

use crate::block::lemma_splice;
use crate::paths::{absolute, segments, SLASH};
use crate::syscall::pathname::plain_segments;
use crate::twilight_fs::bitmap::{bit_at, lemma_with_bit_at, with_bit_at};
use crate::twilight_fs::cache::{evicted, file_at, without_file};
use crate::twilight_fs::coherence::{
    disk_entry, disk_resolved, disk_walk, index_agrees, lemma_caches_agree, lemma_segments_of,
    lemma_walk_push, names_agree, path_agrees, regular, searchable, walks_dirs,
};
use crate::twilight_fs::dir::{dir_name, dir_names, entry_place, found_in, lookup_fails, slot_found};
use crate::twilight_fs::entries::{
    lemma_added_step, lemma_cleared_step, lemma_found_slot, lemma_freed_bits, lemma_names_tell,
    lemma_removed_step, lemma_renamed_step, lemma_same_bit, names_of, tidy, whole,
};
use crate::twilight_fs::fs::{inode_at, valid_ino, Superblock};
use crate::twilight_fs::inode::InodeView;
use crate::twilight_fs::laws::{lemma_cleared, lemma_put, zones_sound};
use crate::twilight_fs::moves::{
    clear_of_dirs, counts_entries, in_order, lemma_name_freed, lemma_plain_front, lemma_tidy_dir,
};
use crate::twilight_fs::names::{
    entry_moved, entry_removed, longer, parent_resolved, path_removed, remove_result, removed_at,
    rename_result, rename_steps, renamed, renamed_at, resolved, rooted, walk, zero_entry, zones_freed,
};
use crate::twilight_fs::read::{double_bytes, file_bytes, run_bytes};
use crate::twilight_fs::shared::{path_added, CacheView};
use crate::twilight_fs::tree::{entry_added_at, entry_bytes, entry_free, entry_put, name_field};
use crate::twilight_fs::volume::FsError;
use crate::twilight_fs::write::{file_written, held_by};
use crate::twilight_fs::zones::{marked, plan_of, slot, sound, valid_slot, words, PlanView, Slot};
use vstd::prelude::*;

verus! {

/// Whether remembered contents are what the blocks say.
pub open spec fn file_agrees(blocks: Seq<Seq<u8>>, sb: Superblock, ino: u32, data: Seq<u8>) -> bool {
    valid_ino(sb, ino as int) && data == file_bytes(blocks, inode_at(blocks, sb, ino as int))
}

/// Whether all remembered contents are what the blocks say.
pub open spec fn files_agree(blocks: Seq<Seq<u8>>, sb: Superblock, files: Seq<(u32, Seq<u8>)>) -> bool {
    forall|k: int| 0 <= k < files.len() ==> file_agrees(blocks, sb, (#[trigger] files[k]).0, files[k].1)
}

/// Whether two files share no zone.
pub open spec fn files_apart(p: PlanView, q: PlanView) -> bool {
    forall|s: Slot, t: Slot|
        #![trigger slot(p, s), slot(q, t)]
        valid_slot(s) && valid_slot(t) && slot(p, s) != 0 ==> slot(p, s) != slot(q, t)
}

/// Whether each zone of a file holds in `b1` what it holds in `b0`.
spec fn zones_kept(b0: Seq<Seq<u8>>, b1: Seq<Seq<u8>>, p: PlanView) -> bool {
    forall|s: Slot|
        valid_slot(s) && #[trigger] slot(p, s) != 0 ==> b1[slot(p, s) as int] == b0[slot(p, s) as int]
}

/// Contents that are remembered for a file are what reading it gives.
pub proof fn lemma_remembered_file(
    blocks: Seq<Seq<u8>>,
    sb: Superblock,
    files: Seq<(u32, Seq<u8>)>,
    ino: u32,
)
    requires
        files_agree(blocks, sb, files),
    ensures
        file_at(files, ino) matches Some(data) ==> data == file_bytes(
            blocks,
            inode_at(blocks, sb, ino as int),
        ),
    decreases files.len(),
{
    if files.len() > 0 {
        assert(file_agrees(blocks, sb, files[0].0, files[0].1));
        let rest = files.skip(1);
        assert forall|k: int| 0 <= k < rest.len() implies file_agrees(
            blocks,
            sb,
            (#[trigger] rest[k]).0,
            rest[k].1,
        ) by {
            assert(rest[k] == files[k + 1]);
        }
        lemma_remembered_file(blocks, sb, rest, ino);
    }
}

/// Remembering what was read of a file keeps what is remembered in agreement.
pub proof fn lemma_file_remembered(
    blocks: Seq<Seq<u8>>,
    sb: Superblock,
    files: Seq<(u32, Seq<u8>)>,
    ino: u32,
)
    requires
        files_agree(blocks, sb, files),
        valid_ino(sb, ino as int),
    ensures
        ({
            let data = file_bytes(blocks, inode_at(blocks, sb, ino as int));
            files_agree(blocks, sb, evicted(files, data.len()).push((ino, data)))
        }),
    decreases files.len(),
{
    let data = file_bytes(blocks, inode_at(blocks, sb, ino as int));
    let rest = files.skip(1);
    if files.len() > 0 && evicted(files, data.len()) != files {
        assert forall|k: int| 0 <= k < rest.len() implies file_agrees(
            blocks,
            sb,
            (#[trigger] rest[k]).0,
            rest[k].1,
        ) by {
            assert(rest[k] == files[k + 1]);
        }
        lemma_file_remembered(blocks, sb, rest, ino);
    } else {
        let after = evicted(files, data.len()).push((ino, data));
        assert forall|k: int| 0 <= k < after.len() implies file_agrees(
            blocks,
            sb,
            (#[trigger] after[k]).0,
            after[k].1,
        ) by {
            if k < files.len() {
                assert(after[k] == files[k]);
            }
        }
    }
}

proof fn lemma_run_kept(b0: Seq<Seq<u8>>, b1: Seq<Seq<u8>>, zs: Seq<u32>, left: int)
    requires
        forall|i: int| 0 <= i < zs.len() && #[trigger] zs[i] != 0 ==> b1[zs[i] as int] == b0[zs[i] as int],
    ensures
        run_bytes(b1, zs, left) == run_bytes(b0, zs, left),
    decreases zs.len(),
{
    if zs.len() > 0 && zs[0] != 0 && left > 2048 {
        let rest = zs.skip(1);
        assert forall|i: int| 0 <= i < rest.len() && #[trigger] rest[i] != 0 implies b1[rest[i] as int]
            == b0[rest[i] as int] by {
            assert(rest[i] == zs[i + 1]);
        }
        lemma_run_kept(b0, b1, rest, left - 2048);
    }
}

proof fn lemma_double_kept(b0: Seq<Seq<u8>>, b1: Seq<Seq<u8>>, l1: Seq<u32>, left: int)
    requires
        forall|i: int| 0 <= i < l1.len() && #[trigger] l1[i] != 0 ==> b1[l1[i] as int] == b0[l1[i] as int],
        forall|i: int, j: int|
            #![trigger words(b0[l1[i] as int])[j]]
            0 <= i < l1.len() && 0 <= j < 512 && l1[i] != 0 && words(b0[l1[i] as int])[j] != 0
                ==> b1[words(b0[l1[i] as int])[j] as int] == b0[words(b0[l1[i] as int])[j] as int],
    ensures
        double_bytes(b1, l1, left) == double_bytes(b0, l1, left),
    decreases l1.len(),
{
    if l1.len() > 0 && left > 0 && l1[0] != 0 {
        let ws = words(b0[l1[0] as int]);
        assert(b1[l1[0] as int] == b0[l1[0] as int]);
        let zs = ws.take(511);
        assert forall|i: int| 0 <= i < zs.len() && #[trigger] zs[i] != 0 implies b1[zs[i] as int]
            == b0[zs[i] as int] by {
            assert(zs[i] == words(b0[l1[0] as int])[i]);
        }
        lemma_run_kept(b0, b1, zs, left);
        let rest = l1.skip(1);
        assert forall|i: int| 0 <= i < rest.len() && #[trigger] rest[i] != 0 implies b1[rest[i] as int]
            == b0[rest[i] as int] by {
            assert(rest[i] == l1[i + 1]);
        }
        assert forall|i: int, j: int|
            #![trigger words(b0[rest[i] as int])[j]]
            0 <= i < rest.len() && 0 <= j < 512 && rest[i] != 0 && words(b0[rest[i] as int])[j] != 0 implies b1[words(
            b0[rest[i] as int],
        )[j] as int] == b0[words(b0[rest[i] as int])[j] as int] by {
            assert(rest[i] == l1[i + 1]);
            assert(words(b0[l1[i + 1] as int])[j] != 0);
        }
        lemma_double_kept(b0, b1, rest, left - run_bytes(b0, zs, left).len());
    }
}

/// A file whose zones were kept reads as before.
proof fn lemma_file_kept(b0: Seq<Seq<u8>>, b1: Seq<Seq<u8>>, inode: InodeView)
    requires
        inode.direct.len() == 12,
        zones_kept(b0, b1, plan_of(b0, inode)),
    ensures
        file_bytes(b1, inode) == file_bytes(b0, inode),
{
    let p = plan_of(b0, inode);
    assert forall|i: int| 0 <= i < 12 && #[trigger] inode.direct[i] != 0 implies b1[inode.direct[i] as int]
        == b0[inode.direct[i] as int] by {
        assert(slot(p, Slot::Direct(i)) == inode.direct[i]);
    }
    lemma_run_kept(b0, b1, inode.direct, inode.size as int);
    let a = run_bytes(b0, inode.direct, inode.size as int);
    if inode.single != 0 {
        assert(slot(p, Slot::Single) == inode.single);
        let ws = words(b0[inode.single as int]);
        let zs = ws.take(511);
        assert forall|i: int| 0 <= i < zs.len() && #[trigger] zs[i] != 0 implies b1[zs[i] as int]
            == b0[zs[i] as int] by {
            assert(slot(p, Slot::S(i)) == zs[i]);
        }
        lemma_run_kept(b0, b1, zs, inode.size - a.len());
    }
    let b = if inode.single == 0 {
        Seq::<u8>::empty()
    } else {
        run_bytes(b0, words(b0[inode.single as int]).take(511), inode.size - a.len())
    };
    if inode.double != 0 {
        assert(slot(p, Slot::Double) == inode.double);
        let l1 = words(b0[inode.double as int]).take(511);
        assert forall|i: int| 0 <= i < l1.len() && #[trigger] l1[i] != 0 implies b1[l1[i] as int]
            == b0[l1[i] as int] by {
            assert(slot(p, Slot::L1(i)) == l1[i]);
        }
        assert forall|i: int, j: int|
            #![trigger words(b0[l1[i] as int])[j]]
            0 <= i < l1.len() && 0 <= j < 512 && l1[i] != 0 && words(b0[l1[i] as int])[j] != 0 implies b1[words(
            b0[l1[i] as int],
        )[j] as int] == b0[words(b0[l1[i] as int])[j] as int] by {
            assert(slot(p, Slot::L2(i, j)) == words(b0[l1[i] as int])[j]);
        }
        lemma_double_kept(b0, b1, l1, inode.size - a.len() - b.len());
    }
}

/// What is left once a file was forgotten was there, and is not that file.
proof fn lemma_without_file(files: Seq<(u32, Seq<u8>)>, ino: u32)
    ensures
        forall|k: int|
            0 <= k < without_file(files, ino).len() ==> (#[trigger] without_file(files, ino)[k]).0 != ino
                && files.contains(without_file(files, ino)[k]),
    decreases files.len(),
{
    if files.len() > 0 {
        let rest = files.skip(1);
        lemma_without_file(rest, ino);
        let after = without_file(files, ino);
        let less = without_file(rest, ino);
        assert forall|k: int| 0 <= k < after.len() implies (#[trigger] after[k]).0 != ino
            && files.contains(after[k]) by {
            let m = if files[0].0 == ino {
                k
            } else {
                k - 1
            };
            if m >= 0 {
                assert(after[k] == less[m]);
                let j = choose|j: int| 0 <= j < rest.len() && rest[j] == less[m];
                assert(files[j + 1] == after[k]);
            } else {
                assert(after[k] == files[0]);
            }
        }
    }
}

/// Writing a file keeps what is remembered of other files in agreement; the file that was
/// written is remembered no longer.
pub proof fn lemma_write_keeps_files(
    b0: Seq<Seq<u8>>,
    b1: Seq<Seq<u8>>,
    sb: Superblock,
    files: Seq<(u32, Seq<u8>)>,
    ino: u32,
    data: Seq<u8>,
)
    requires
        files_agree(b0, sb, files),
        file_written(b0, b1, sb, ino as int, data),
        forall|k: int|
            0 <= k < files.len() && (#[trigger] files[k]).0 != ino ==> {
                let p = plan_of(b0, inode_at(b0, sb, files[k].0 as int));
                sound(b0, sb, p) && files_apart(p, plan_of(b0, inode_at(b0, sb, ino as int)))
            },
        sb.zones <= b0.len(),
    ensures
        files_agree(b1, sb, without_file(files, ino)),
        file_at(without_file(files, ino), ino) is None,
{
    let after = without_file(files, ino);
    lemma_without_file(files, ino);
    let p0 = plan_of(b0, inode_at(b0, sb, ino as int));
    let p1 = plan_of(b1, inode_at(b1, sb, ino as int));
    assert forall|k: int| 0 <= k < after.len() implies file_agrees(b1, sb, (#[trigger] after[k]).0, after[k].1) by {
        let j = choose|j: int| 0 <= j < files.len() && files[j] == after[k];
        assert(file_agrees(b0, sb, files[j].0, files[j].1));
        let other = inode_at(b0, sb, after[k].0 as int);
        let p = plan_of(b0, other);
        assert(inode_at(b1, sb, after[k].0 as int) == other);
        assert forall|s: Slot| valid_slot(s) && #[trigger] slot(p, s) != 0 implies b1[slot(p, s) as int]
            == b0[slot(p, s) as int] by {
            let z = slot(p, s);
            assert(marked(b0, sb, z as int));
            if held_by(p1, z as int) {
                let t = choose|t: Slot| valid_slot(t) && #[trigger] slot(p1, t) == z as int;
                assert(slot(p, s) != slot(p0, t));
            }
        }
        lemma_file_kept(b0, b1, other);
    }
    lemma_none_at(after, ino);
}

proof fn lemma_none_at(files: Seq<(u32, Seq<u8>)>, ino: u32)
    requires
        forall|k: int| 0 <= k < files.len() ==> (#[trigger] files[k]).0 != ino,
    ensures
        file_at(files, ino) is None,
    decreases files.len(),
{
    if files.len() > 0 {
        let rest = files.skip(1);
        assert forall|k: int| 0 <= k < rest.len() implies (#[trigger] rest[k]).0 != ino by {
            assert(rest[k] == files[k + 1]);
        }
        lemma_none_at(rest, ino);
    }
}

/// Removing a file keeps what is remembered of other files in agreement; the file that was
/// removed is remembered no longer.
pub proof fn lemma_remove_keeps_files(
    b0: Seq<Seq<u8>>,
    b1: Seq<Seq<u8>>,
    sb: Superblock,
    files: Seq<(u32, Seq<u8>)>,
    parent: u32,
    name: Seq<u8>,
    t: (u32, usize, u32),
)
    requires
        whole(b0, sb),
        tidy(b0, sb),
        files_agree(b0, sb, files),
        valid_ino(sb, parent as int),
        inode_at(b0, sb, parent as int).dir(),
        name.len() > 0,
        entry_place(b0, inode_at(b0, sb, parent as int).direct, name, t),
        entry_removed(b0, b1, sb, parent, t),
        clear_of_dirs(b0, sb, t.2),
        forall|k: int|
            0 <= k < files.len() && (#[trigger] files[k]).0 != t.2 ==> {
                let p = plan_of(b0, inode_at(b0, sb, files[k].0 as int));
                files[k].0 != parent && sound(b0, sb, p) && files_apart(
                    p,
                    plan_of(b0, inode_at(b0, sb, parent as int)),
                )
            },
    ensures
        files_agree(b1, sb, without_file(files, t.2)),
        file_at(without_file(files, t.2), t.2) is None,
{
    let after = without_file(files, t.2);
    lemma_without_file(files, t.2);
    let direct = inode_at(b0, sb, parent as int).direct;
    let pp = plan_of(b0, inode_at(b0, sb, parent as int));
    lemma_removed_step(b0, b1, sb, parent, name, t);
    assert(zones_sound(b0, sb, direct));
    let s = choose|s: int| #[trigger] slot_found(b0, direct, name, s, t);
    lemma_cleared(b0, b1, sb, parent, s, t);
    assert(slot(pp, Slot::Direct(s / 32)) == t.0);
    assert forall|k: int| 0 <= k < after.len() implies file_agrees(b1, sb, (#[trigger] after[k]).0, after[k].1) by {
        let j = choose|j: int| 0 <= j < files.len() && files[j] == after[k];
        assert(file_agrees(b0, sb, files[j].0, files[j].1));
        let other = inode_at(b0, sb, after[k].0 as int);
        let p = plan_of(b0, other);
        assert(inode_at(b1, sb, after[k].0 as int) == other);
        assert forall|u: Slot| valid_slot(u) && #[trigger] slot(p, u) != 0 implies b1[slot(p, u) as int]
            == b0[slot(p, u) as int] by {
            assert(marked(b0, sb, slot(p, u) as int));
            assert(slot(p, u) != slot(pp, Slot::Direct(s / 32)));
        }
        lemma_file_kept(b0, b1, other);
    }
    lemma_none_at(after, t.2);
}

pub(crate) proof fn lemma_names_kept(b0: Seq<Seq<u8>>, b1: Seq<Seq<u8>>, direct: Seq<u32>, n: int)
    requires
        0 <= n <= 384,
        direct.len() == 12,
        forall|i: int|
            0 <= i < 12 && #[trigger] direct[i] != 0 ==> b1[direct[i] as int] == b0[direct[i] as int],
    ensures
        dir_names(b1, direct, n) == dir_names(b0, direct, n),
    decreases n,
{
    if n > 0 {
        lemma_names_kept(b0, b1, direct, n - 1);
        assert(0 <= (n - 1) / 32 < 12);
    }
}

proof fn lemma_walk_kept(b0: Seq<Seq<u8>>, b1: Seq<Seq<u8>>, sb: Superblock, parts: Seq<Seq<u8>>, ino: u32)
    requires
        b1.len() == b0.len(),
        forall|o: u32|
            valid_ino(sb, o as int) && (#[trigger] inode_at(b0, sb, o as int)).dir() ==> inode_at(
                b1,
                sb,
                o as int,
            ) == inode_at(b0, sb, o as int),
        forall|o: u32, x: Seq<u8>|
            valid_ino(sb, o as int) && inode_at(b0, sb, o as int).dir() ==> #[trigger] disk_entry(
                b1,
                sb,
                o,
                x,
            ) == disk_entry(b0, sb, o, x),
        walks_dirs(b0, sb, parts, ino),
        disk_walk(b0, sb, parts, ino) is Ok,
    ensures
        walks_dirs(b1, sb, parts, ino),
        disk_walk(b1, sb, parts, ino) == disk_walk(b0, sb, parts, ino),
    decreases parts.len(),
{
    if parts.len() > 0 {
        assert(searchable(b0, sb, ino));
        assert(inode_at(b1, sb, ino as int) == inode_at(b0, sb, ino as int));
        assert(searchable(b1, sb, ino));
        let next = disk_entry(b0, sb, ino, parts[0])->0;
        assert(disk_entry(b1, sb, ino, parts[0]) == disk_entry(b0, sb, ino, parts[0]));
        lemma_walk_kept(b0, b1, sb, parts.skip(1), next);
    }
}

/// Writing a file keeps what is remembered of names in agreement.
pub proof fn lemma_write_keeps_names(
    b0: Seq<Seq<u8>>,
    b1: Seq<Seq<u8>>,
    sb: Superblock,
    c: CacheView,
    ino: u32,
    data: Seq<u8>,
)
    requires
        whole(b0, sb),
        tidy(b0, sb),
        names_agree(b0, sb, c),
        !inode_at(b0, sb, ino as int).dir(),
        file_written(b0, b1, sb, ino as int, data),
        forall|o: int|
            valid_ino(sb, o) && (#[trigger] inode_at(b0, sb, o)).dir() ==> files_apart(
                plan_of(b0, inode_at(b0, sb, o)),
                plan_of(b0, inode_at(b0, sb, ino as int)),
            ),
    ensures
        names_agree(b1, sb, c),
{
    let p0 = plan_of(b0, inode_at(b0, sb, ino as int));
    let p1 = plan_of(b1, inode_at(b1, sb, ino as int));
    assert forall|o: u32|
        valid_ino(sb, o as int) && (#[trigger] inode_at(b0, sb, o as int)).dir() implies inode_at(
        b1,
        sb,
        o as int,
    ) == inode_at(b0, sb, o as int) && dir_names(b1, inode_at(b0, sb, o as int).direct, 384) == dir_names(
        b0,
        inode_at(b0, sb, o as int).direct,
        384,
    ) by {
        let direct = inode_at(b0, sb, o as int).direct;
        let p = plan_of(b0, inode_at(b0, sb, o as int));
        assert(zones_sound(b0, sb, direct));
        assert forall|i: int| 0 <= i < 12 && #[trigger] direct[i] != 0 implies b1[direct[i] as int]
            == b0[direct[i] as int] by {
            assert(slot(p, Slot::Direct(i)) == direct[i]);
            assert(marked(b0, sb, direct[i] as int));
            if held_by(p1, direct[i] as int) {
                let t = choose|t: Slot| valid_slot(t) && #[trigger] slot(p1, t) == direct[i] as int;
                assert(slot(p, Slot::Direct(i)) != slot(p0, t));
            }
        }
        lemma_names_kept(b0, b1, direct, 384);
    }
    assert forall|o: u32, x: Seq<u8>|
        valid_ino(sb, o as int) && inode_at(b0, sb, o as int).dir() implies #[trigger] disk_entry(
        b1,
        sb,
        o,
        x,
    ) == disk_entry(b0, sb, o, x) by {
        assert(inode_at(b1, sb, o as int) == inode_at(b0, sb, o as int));
    }
    assert forall|k: int| 0 <= k < c.dirs.len() implies index_agrees(
        b1,
        sb,
        (#[trigger] c.dirs[k]).0,
        c.dirs[k].1,
    ) by {
        assert(index_agrees(b0, sb, c.dirs[k].0, c.dirs[k].1));
        assert(inode_at(b1, sb, c.dirs[k].0 as int) == inode_at(b0, sb, c.dirs[k].0 as int));
    }
    assert forall|k: int| 0 <= k < c.paths.len() implies path_agrees(
        b1,
        sb,
        (#[trigger] c.paths[k]).0,
        c.paths[k].1,
    ) by {
        assert(path_agrees(b0, sb, c.paths[k].0, c.paths[k].1));
        lemma_walk_kept(b0, b1, sb, segments(c.paths[k].0), 1);
    }
}

proof fn lemma_walk_files(
    blocks: Seq<Seq<u8>>,
    sb: Superblock,
    c: CacheView,
    parts: Seq<Seq<u8>>,
    ino: u32,
    prefix: Seq<u8>,
)
    ensures
        walk(blocks, sb, c, parts, ino, prefix).1.files == c.files,
    decreases parts.len(),
{
    if parts.len() > 0 && !lookup_fails(blocks, sb, c, ino) {
        let (found, c1) = found_in(blocks, sb, c, ino, parts[0]);
        if let Some(next) = found {
            let p = longer(prefix, parts[0]);
            let c2 = CacheView { paths: path_added(c1.paths, p, next), ..c1 };
            lemma_walk_files(blocks, sb, c2, parts.skip(1), next, p);
        }
    }
}

/// Looking up a path keeps what is remembered of contents.
proof fn lemma_resolved_files(blocks: Seq<Seq<u8>>, sb: Superblock, c: CacheView, path: Seq<u8>)
    ensures
        resolved(blocks, sb, c, path).1.files == c.files,
{
    lemma_walk_files(blocks, sb, c, segments(rooted(path)), 1, seq![SLASH]);
}

/// Whether `b1` has the inode `f`, its zones and their marks as `b0` has them.
spec fn left_alone(b0: Seq<Seq<u8>>, b1: Seq<Seq<u8>>, sb: Superblock, f: int) -> bool {
    let p = plan_of(b0, inode_at(b0, sb, f));
    &&& inode_at(b1, sb, f) == inode_at(b0, sb, f)
    &&& zones_kept(b0, b1, p)
    &&& forall|s: Slot|
        valid_slot(s) && #[trigger] slot(p, s) != 0 ==> marked(b1, sb, slot(p, s) as int)
}

/// The zone numbers of a file whose zones were kept are the same.
proof fn lemma_plan_kept(b0: Seq<Seq<u8>>, b1: Seq<Seq<u8>>, inode: InodeView)
    requires
        zones_kept(b0, b1, plan_of(b0, inode)),
    ensures
        plan_of(b1, inode) == plan_of(b0, inode),
{
    let p = plan_of(b0, inode);
    assert(slot(p, Slot::Single) == inode.single);
    assert(slot(p, Slot::Double) == inode.double);
    let q = plan_of(b1, inode);
    assert(q.dw == p.dw);
    assert forall|i: int| 0 <= i < 512 implies #[trigger] q.l2[i] == p.l2[i] by {
        assert(slot(p, Slot::L1(i)) == p.dw[i]);
    }
    assert(q.l2 =~= p.l2);
}

/// A file whose zones are not those of `d` is left alone where only zone `z` of `d`, or one
/// that was free, and inode `d` have changed.
proof fn lemma_left_alone(b0: Seq<Seq<u8>>, b1: Seq<Seq<u8>>, sb: Superblock, f: int, d: int, z: int)
    requires
        sb.wf(),
        sb.zones <= b0.len(),
        valid_ino(sb, f),
        f != d,
        inode_at(b1, sb, f) == inode_at(b0, sb, f),
        sound(b0, sb, plan_of(b0, inode_at(b0, sb, f))),
        forall|b: int| sb.first_data_zone <= b < b0.len() && b != z ==> #[trigger] b1[b] == b0[b],
        forall|s: Slot|
            valid_slot(s) && #[trigger] slot(plan_of(b0, inode_at(b0, sb, f)), s) != 0 ==> slot(
                plan_of(b0, inode_at(b0, sb, f)),
                s,
            ) != z && bit_at(
                b1,
                sb.zmap(),
                slot(plan_of(b0, inode_at(b0, sb, f)), s) - sb.first_data_zone,
            ),
    ensures
        left_alone(b0, b1, sb, f),
{
    let p = plan_of(b0, inode_at(b0, sb, f));
    assert forall|s: Slot| valid_slot(s) && #[trigger] slot(p, s) != 0 implies b1[slot(p, s) as int]
        == b0[slot(p, s) as int] && marked(b1, sb, slot(p, s) as int) by {
        assert(marked(b0, sb, slot(p, s) as int));
    }
}

/// Whether a file has its zones for itself, and shares none with those that `d` names itself.
pub open spec fn clear_of(blocks: Seq<Seq<u8>>, sb: Superblock, f: int, d: int) -> bool {
    let p = plan_of(blocks, inode_at(blocks, sb, f));
    let direct = inode_at(blocks, sb, d).direct;
    &&& f != d
    &&& sound(blocks, sb, p)
    &&& forall|s: Slot, i: int|
        #![trigger slot(p, s), direct[i]]
        valid_slot(s) && 0 <= i < 12 && slot(p, s) != 0 ==> slot(p, s) != direct[i]
}

proof fn lemma_clear_still(b0: Seq<Seq<u8>>, b1: Seq<Seq<u8>>, sb: Superblock, f: int, d: int)
    requires
        left_alone(b0, b1, sb, f),
        clear_of(b0, sb, f, d),
        inode_at(b1, sb, d).direct == inode_at(b0, sb, d).direct,
    ensures
        clear_of(b1, sb, f, d),
{
    lemma_alone_again(b0, b1, sb, f);
    let p = plan_of(b1, inode_at(b1, sb, f));
    let direct = inode_at(b1, sb, d).direct;
    assert forall|s: Slot, i: int|
        #![trigger slot(p, s), direct[i]]
        valid_slot(s) && 0 <= i < 12 && slot(p, s) != 0 implies slot(p, s) != direct[i] by {
        assert(slot(plan_of(b0, inode_at(b0, sb, f)), s) != inode_at(b0, sb, d).direct[i]);
    }
}

proof fn lemma_removal_leaves(
    b0: Seq<Seq<u8>>,
    b1: Seq<Seq<u8>>,
    sb: Superblock,
    f: int,
    d: u32,
    name: Seq<u8>,
    t: (u32, usize, u32),
)
    requires
        whole(b0, sb),
        tidy(b0, sb),
        valid_ino(sb, f),
        valid_ino(sb, d as int),
        inode_at(b0, sb, d as int).dir(),
        name.len() > 0,
        entry_place(b0, inode_at(b0, sb, d as int).direct, name, t),
        entry_removed(b0, b1, sb, d, t),
        clear_of_dirs(b0, sb, t.2),
        clear_of(b0, sb, f, d as int),
        clear_of(b0, sb, f, t.2 as int),
    ensures
        left_alone(b0, b1, sb, f),
{
    let node = inode_at(b0, sb, t.2 as int);
    let p = plan_of(b0, inode_at(b0, sb, f));
    let direct = inode_at(b0, sb, d as int).direct;
    lemma_removed_step(b0, b1, sb, d, name, t);
    let s0 = lemma_found_slot(b0, sb, d as int, name, t);
    assert(zones_sound(b0, sb, inode_at(b0, sb, d as int).direct));
    lemma_cleared(b0, b1, sb, d, s0, t);
    lemma_freed_bits(b0, sb, node.direct, 12);
    let zf = zones_freed(b0, sb, node.direct, 12);
    assert(0 <= (t.2 - 1) / 16384 < sb.imap_blocks);
    assert(0 <= (d - 1) / 16);
    assert(direct[s0 / 32] == t.0);
    assert forall|s: Slot| valid_slot(s) && #[trigger] slot(p, s) != 0 implies slot(p, s) != t.0
        && bit_at(b1, sb.zmap(), slot(p, s) - sb.first_data_zone) by {
        assert(marked(b0, sb, slot(p, s) as int));
        assert(slot(p, s) != direct[s0 / 32]);
        let r = slot(p, s) - sb.first_data_zone;
        assert forall|i: int| 0 <= i < 12 && #[trigger] node.direct[i] != 0 implies node.direct[i]
            - sb.first_data_zone != r by {
            assert(slot(p, s) != node.direct[i]);
        }
        assert(bit_at(zf, sb.zmap(), r) == bit_at(b0, sb.zmap(), r));
        lemma_same_bit(zf, b1, sb, r);
    }
    lemma_left_alone(b0, b1, sb, f, d as int, t.0 as int);
}

proof fn lemma_addition_leaves(
    b0: Seq<Seq<u8>>,
    b1: Seq<Seq<u8>>,
    sb: Superblock,
    f: int,
    d: u32,
    name: Seq<u8>,
    child: u32,
    s0: int,
    z: u32,
)
    requires
        whole(b0, sb),
        tidy(b0, sb),
        valid_ino(sb, f),
        valid_ino(sb, d as int),
        inode_at(b0, sb, d as int).dir(),
        0 <= s0 < 384,
        entry_put(b0, b1, sb, d, entry_bytes(child, name), s0, z),
        inode_at(b1, sb, f) == inode_at(b0, sb, f),
        clear_of(b0, sb, f, d as int),
    ensures
        left_alone(b0, b1, sb, f),
{
    let dir = inode_at(b0, sb, d as int);
    let p = plan_of(b0, inode_at(b0, sb, f));
    assert(zones_sound(b0, sb, dir.direct));
    lemma_put(b0, b1, sb, d, name, child, s0, z);
    let fresh = dir.direct[s0 / 32] == 0;
    let rz = z - sb.first_data_zone;
    let base = if fresh {
        with_bit_at(b0, sb.zmap(), rz, true)
    } else {
        b0
    };
    if !fresh {
        assert(sb.first_data_zone <= dir.direct[s0 / 32] < sb.zones);
    }
    assert(0 <= (d - 1) / 16);
    assert forall|s: Slot| valid_slot(s) && #[trigger] slot(p, s) != 0 implies slot(p, s) != z
        && bit_at(b1, sb.zmap(), slot(p, s) - sb.first_data_zone) by {
        assert(marked(b0, sb, slot(p, s) as int));
        assert(slot(p, s) != dir.direct[s0 / 32]);
        let r = slot(p, s) - sb.first_data_zone;
        assert(0 <= r < sb.zmap_blocks * 16384);
        assert(0 <= r / 16384 < sb.zmap_blocks);
        if fresh {
            assert(0 <= rz < sb.zmap_blocks * 16384);
            assert(0 <= rz / 16384 < sb.zmap_blocks);
            lemma_with_bit_at(b0, sb.zmap(), rz, r, true);
        }
        lemma_same_bit(base, b1, sb, r);
    }
    lemma_left_alone(b0, b1, sb, f, d as int, z as int);
}

/// A file that is left alone reads as before, and has its zones for itself as before.
proof fn lemma_alone_again(b0: Seq<Seq<u8>>, b1: Seq<Seq<u8>>, sb: Superblock, f: int)
    requires
        left_alone(b0, b1, sb, f),
        sound(b0, sb, plan_of(b0, inode_at(b0, sb, f))),
    ensures
        plan_of(b1, inode_at(b1, sb, f)) == plan_of(b0, inode_at(b0, sb, f)),
        sound(b1, sb, plan_of(b1, inode_at(b1, sb, f))),
        file_bytes(b1, inode_at(b1, sb, f)) == file_bytes(b0, inode_at(b0, sb, f)),
{
    lemma_plan_kept(b0, b1, inode_at(b0, sb, f));
    lemma_file_kept(b0, b1, inode_at(b0, sb, f));
}

/// What clearing or renaming an entry of `d` leaves of a file.
proof fn lemma_entry_leaves(
    b0: Seq<Seq<u8>>,
    b1: Seq<Seq<u8>>,
    sb: Superblock,
    f: int,
    d: u32,
    name: Seq<u8>,
    t: (u32, usize, u32),
)
    requires
        whole(b0, sb),
        tidy(b0, sb),
        valid_ino(sb, f),
        valid_ino(sb, d as int),
        inode_at(b0, sb, d as int).dir(),
        name.len() > 0,
        entry_place(b0, inode_at(b0, sb, d as int).direct, name, t),
        clear_of(b0, sb, f, d as int),
        inode_at(b1, sb, f) == inode_at(b0, sb, f),
        forall|b: int|
            0 <= b < b0.len() && !(sb.itable() <= b < sb.first_data_zone) && b != t.0 ==> #[trigger] b1[b]
                == b0[b],
    ensures
        left_alone(b0, b1, sb, f),
{
    let p = plan_of(b0, inode_at(b0, sb, f));
    let direct = inode_at(b0, sb, d as int).direct;
    let s0 = lemma_found_slot(b0, sb, d as int, name, t);
    assert(direct[s0 / 32] == t.0);
    assert forall|s: Slot| valid_slot(s) && #[trigger] slot(p, s) != 0 implies slot(p, s) != t.0
        && bit_at(b1, sb.zmap(), slot(p, s) - sb.first_data_zone) by {
        assert(marked(b0, sb, slot(p, s) as int));
        assert(slot(p, s) != direct[s0 / 32]);
        lemma_same_bit(b0, b1, sb, slot(p, s) - sb.first_data_zone);
    }
    lemma_left_alone(b0, b1, sb, f, d as int, t.0 as int);
}

/// Moving an entry leaves a file alone that shares no zone with the two directories.
#[verifier::spinoff_prover]
#[verifier::rlimit(60)]
proof fn lemma_moving_leaves(
    b1: Seq<Seq<u8>>,
    b2: Seq<Seq<u8>>,
    b3: Seq<Seq<u8>>,
    sb: Superblock,
    c1: CacheView,
    c2: CacheView,
    f: int,
    po: u32,
    oname: Seq<u8>,
    pn: u32,
    nname: Seq<u8>,
    t: (u32, usize, u32),
)
    requires
        whole(b1, sb),
        tidy(b1, sb),
        valid_ino(sb, f),
        valid_ino(sb, po as int),
        valid_ino(sb, pn as int),
        inode_at(b1, sb, po as int).dir(),
        inode_at(b1, sb, pn as int).dir(),
        po != pn ==> inode_at(b1, sb, pn as int).size > 0,
        oname.len() > 0,
        nname.len() > 0,
        dir_name(name_field(nname)) == Some(nname),
        po == pn ==> oname != nname,
        entry_place(b1, inode_at(b1, sb, po as int).direct, oname, t),
        t.2 != 0,
        !names_of(b1, sb, pn as int).dom().contains(nname),
        entry_moved(b1, b2, b3, sb, c1, c2, po, pn, t, nname),
        clear_of(b1, sb, f, po as int),
        clear_of(b1, sb, f, pn as int),
    ensures
        inode_at(b3, sb, f) == inode_at(b1, sb, f),
        file_bytes(b3, inode_at(b3, sb, f)) == file_bytes(b1, inode_at(b1, sb, f)),
        c2.files == c1.files,
{
    if po == pn {
        lemma_renamed_step(b1, b3, sb, po, oname, nname, t);
        assert(inode_at(b3, sb, f) == inode_at(b1, sb, f));
        lemma_entry_leaves(b1, b3, sb, f, po, oname, t);
        lemma_alone_again(b1, b3, sb, f);
    } else {
        let (s0, z) = choose|s0: int, z: u32| #[trigger]
            entry_added_at(b1, b2, sb, c1, c2, pn, nname, t.2, s0, z);
        assert(entry_free(b1, inode_at(b1, sb, pn as int), s0));
        lemma_added_step(b1, b2, sb, pn, nname, t.2, s0, z);
        assert(inode_at(b2, sb, f) == inode_at(b1, sb, f));
        lemma_addition_leaves(b1, b2, sb, f, pn, nname, t.2, s0, z);
        lemma_alone_again(b1, b2, sb, f);
        assert(inode_at(b2, sb, po as int) == inode_at(b1, sb, po as int));
        assert(entry_place(b2, inode_at(b2, sb, po as int).direct, oname, t));
        lemma_cleared_step(b2, b3, sb, po, oname, t);
        assert(inode_at(b3, sb, f) == inode_at(b2, sb, f));
        let s1 = lemma_found_slot(b2, sb, po as int, oname, t);
        let dir = inode_at(b2, sb, po as int);
        lemma_splice(b2[t.0 as int], t.1 as int, zero_entry());
        assert(0 <= (po - 1) / 16);
        let p = plan_of(b2, inode_at(b2, sb, f));
        assert(dir.direct[s1 / 32] == t.0);
        assert forall|s: Slot| valid_slot(s) && #[trigger] slot(p, s) != 0 implies slot(p, s) != t.0
            && bit_at(b3, sb.zmap(), slot(p, s) - sb.first_data_zone) by {
            assert(marked(b2, sb, slot(p, s) as int));
            assert(slot(p, s) != dir.direct[s1 / 32]);
            lemma_same_bit(b2, b3, sb, slot(p, s) - sb.first_data_zone);
        }
        lemma_left_alone(b2, b3, sb, f, po as int, t.0 as int);
        lemma_alone_again(b2, b3, sb, f);
    }
}

/// Whether a file shares no zone with a directory, nor with the file `x`, where there is one.
pub open spec fn stands_alone(blocks: Seq<Seq<u8>>, sb: Superblock, f: int, x: Option<u32>) -> bool {
    &&& forall|d: int|
        valid_ino(sb, d) && (#[trigger] inode_at(blocks, sb, d)).dir() ==> clear_of(blocks, sb, f, d)
    &&& x matches Some(n) ==> f == n || clear_of(blocks, sb, f, n as int)
}

/// Removing the file in the way keeps what is remembered of other files in agreement, and
/// leaves them alone.
#[verifier::spinoff_prover]
#[verifier::rlimit(60)]
proof fn lemma_way_keeps_files(
    b0: Seq<Seq<u8>>,
    b1: Seq<Seq<u8>>,
    sb: Superblock,
    c0: CacheView,
    c1: CacheView,
    nfront: Seq<Seq<u8>>,
    pn: u32,
    nname: Seq<u8>,
    j: int,
)
    requires
        in_order(b0, sb),
        names_agree(b0, sb, c0),
        plain_segments(nfront.push(nname)),
        walks_dirs(b0, sb, nfront, 1),
        disk_walk(b0, sb, nfront, 1) == Ok::<u32, FsError>(pn),
        valid_ino(sb, pn as int),
        inode_at(b0, sb, pn as int).dir(),
        disk_entry(b0, sb, pn, nname) matches Some(x) ==> clear_of_dirs(b0, sb, x),
        remove_result(b0, b1, sb, true, c0, c1, absolute(nfront.push(nname)), None),
        files_agree(b0, sb, c0.files),
        forall|k: int|
            0 <= k < c0.files.len() ==> stands_alone(
                b0,
                sb,
                (#[trigger] c0.files[k]).0 as int,
                disk_entry(b0, sb, pn, nname),
            ),
        0 <= j < c1.files.len(),
    ensures
        c0.files.contains(c1.files[j]),
        left_alone(b0, b1, sb, c1.files[j].0 as int),
        valid_ino(sb, c1.files[j].0 as int),
        forall|o: int|
            valid_ino(sb, o) ==> (#[trigger] inode_at(b1, sb, o)).direct == inode_at(b0, sb, o).direct,
{
    reveal(remove_result);
    let parts = nfront.push(nname);
    lemma_plain_front(nfront, nname);
    lemma_segments_of(parts);
    lemma_segments_of(nfront);
    assert(parts.drop_last() =~= nfront);
    lemma_caches_agree(b0, sb, c0, absolute(nfront));
    lemma_resolved_files(b0, sb, c0, absolute(nfront));
    let (r, c) = parent_resolved(b0, sb, c0, nfront);
    assert(r == Ok::<u32, FsError>(pn));
    let ndir = absolute(nfront);
    assert(path_removed(b0, b1, sb, c, c1, pn, ndir, nname));
    let t = choose|t: (u32, usize, u32)| #[trigger]
        removed_at(b0, b1, sb, c, c1, pn, ndir, nname, t);
    lemma_tidy_dir(b0, sb, pn);
    lemma_names_tell(b0, inode_at(b0, sb, pn as int).direct, nname);
    assert(disk_entry(b0, sb, pn, nname) == Some(t.2));
    lemma_without_file(c0.files, t.2);
    let k = choose|k: int| 0 <= k < c0.files.len() && c0.files[k] == c1.files[j];
    let f = c0.files[k].0 as int;
    assert(file_agrees(b0, sb, c0.files[k].0, c0.files[k].1));
    assert(stands_alone(b0, sb, f, Some(t.2)));
    assert(clear_of(b0, sb, f, pn as int));
    lemma_removal_leaves(b0, b1, sb, f, pn, nname, t);
    lemma_removed_step(b0, b1, sb, pn, nname, t);
    let s0 = lemma_found_slot(b0, sb, pn as int, nname, t);
    lemma_cleared(b0, b1, sb, pn, s0, t);
}

#[verifier::spinoff_prover]
#[verifier::rlimit(60)]
proof fn lemma_renamed_keeps_files(
    b0: Seq<Seq<u8>>,
    b3: Seq<Seq<u8>>,
    sb: Superblock,
    c0: CacheView,
    c3: CacheView,
    ofront: Seq<Seq<u8>>,
    po: u32,
    oname: Seq<u8>,
    nfront: Seq<Seq<u8>>,
    pn: u32,
    nname: Seq<u8>,
)
    requires
        in_order(b0, sb),
        names_agree(b0, sb, c0),
        files_agree(b0, sb, c0.files),
        ofront.push(oname) != nfront.push(nname),
        plain_segments(ofront.push(oname)),
        plain_segments(nfront.push(nname)),
        walks_dirs(b0, sb, ofront, 1),
        walks_dirs(b0, sb, nfront, 1),
        disk_walk(b0, sb, ofront, 1) == Ok::<u32, FsError>(po),
        disk_walk(b0, sb, nfront, 1) == Ok::<u32, FsError>(pn),
        valid_ino(sb, po as int),
        valid_ino(sb, pn as int),
        inode_at(b0, sb, po as int).dir(),
        inode_at(b0, sb, pn as int).dir(),
        po != pn ==> counts_entries(b0, sb, pn, nname),
        dir_name(name_field(nname)) == Some(nname),
        disk_entry(b0, sb, pn, nname) matches Some(x) ==> clear_of_dirs(b0, sb, x),
        forall|k: int|
            0 <= k < c0.files.len() ==> stands_alone(
                b0,
                sb,
                (#[trigger] c0.files[k]).0 as int,
                disk_entry(b0, sb, pn, nname),
            ),
        renamed(
            b0,
            b3,
            sb,
            c0,
            c3,
            po,
            absolute(ofront),
            oname,
            pn,
            absolute(nfront),
            nname,
            absolute(nfront.push(nname)),
        ),
    ensures
        files_agree(b3, sb, c3.files),
{
    let odir = absolute(ofront);
    let ndir = absolute(nfront);
    let new_path = absolute(nfront.push(nname));
    let t = choose|t: (u32, usize, u32)| #[trigger]
        renamed_at(b0, b3, sb, c0, c3, po, odir, oname, pn, ndir, nname, new_path, t);
    lemma_plain_front(ofront, oname);
    lemma_plain_front(nfront, nname);
    if po == pn {
        assert(disk_walk(b0, sb, ofront, 1) == disk_walk(b0, sb, nfront, 1));
        assert(ofront == nfront);
        assert(oname != nname);
    }
    if !(b3 == b0 && c3 == c0) {
        let (b1, b2, c1, c2) = choose|
            b1: Seq<Seq<u8>>,
            b2: Seq<Seq<u8>>,
            c1: CacheView,
            c2: CacheView,
        | #[trigger]
            rename_steps(
                b0,
                b1,
                b2,
                b3,
                sb,
                c0,
                c1,
                c2,
                c3,
                po,
                odir,
                oname,
                pn,
                ndir,
                nname,
                new_path,
                t,
            );
        lemma_name_freed(b0, b1, sb, c0, c1, po, oname, nfront, pn, nname, t);
        assert(inode_at(b1, sb, po as int).dir() && inode_at(b1, sb, pn as int).dir());
        assert forall|j: int| 0 <= j < c1.files.len() implies file_agrees(
            b3,
            sb,
            (#[trigger] c1.files[j]).0,
            c1.files[j].1,
        ) by {
            let f = c1.files[j].0 as int;
            if b1 == b0 && c1 == c0 {
                assert(c0.files.contains(c1.files[j]));
            } else {
                lemma_way_keeps_files(b0, b1, sb, c0, c1, nfront, pn, nname, j);
            }
            let k = choose|k: int| 0 <= k < c0.files.len() && c0.files[k] == c1.files[j];
            assert(stands_alone(b0, sb, c0.files[k].0 as int, disk_entry(b0, sb, pn, nname)));
            assert(file_agrees(b0, sb, c0.files[k].0, c0.files[k].1));
            assert(clear_of(b0, sb, f, po as int) && clear_of(b0, sb, f, pn as int));
            if b1 != b0 || c1 != c0 {
                lemma_alone_again(b0, b1, sb, f);
                lemma_clear_still(b0, b1, sb, f, po as int);
                lemma_clear_still(b0, b1, sb, f, pn as int);
            }
            lemma_moving_leaves(b1, b2, b3, sb, c1, c2, f, po, oname, pn, nname, t);
        }
        assert(c2.files == c1.files);
    }
}

/// Renaming keeps what is remembered of contents in agreement, where the files that are
/// remembered share no zone with a directory, nor with a file that is replaced. The paths and
/// the volume are as for what renaming does to paths.
pub proof fn lemma_rename_keeps_files(
    b0: Seq<Seq<u8>>,
    b3: Seq<Seq<u8>>,
    sb: Superblock,
    c0: CacheView,
    c3: CacheView,
    old_path: Seq<u8>,
    new_path: Seq<u8>,
)
    requires
        in_order(b0, sb),
        names_agree(b0, sb, c0),
        files_agree(b0, sb, c0.files),
        regular(old_path),
        regular(new_path),
        old_path != new_path,
        walks_dirs(b0, sb, segments(old_path), 1),
        walks_dirs(b0, sb, segments(new_path), 1),
        disk_resolved(b0, sb, new_path) matches Ok(x) ==> clear_of_dirs(b0, sb, x),
        forall|k: int|
            0 <= k < c0.files.len() ==> stands_alone(
                b0,
                sb,
                (#[trigger] c0.files[k]).0 as int,
                match disk_resolved(b0, sb, new_path) {
                    Ok(x) => Some(x),
                    Err(_) => None,
                },
            ),
        disk_resolved(b0, sb, absolute(segments(new_path).drop_last())) matches Ok(d) ==> segments(
            old_path,
        ).drop_last() == segments(new_path).drop_last() || counts_entries(
            b0,
            sb,
            d,
            segments(new_path).last(),
        ),
        dir_name(name_field(segments(new_path).last())) == Some(segments(new_path).last()),
        rename_result(b0, b3, sb, c0, c3, old_path, new_path, Ok(())),
    ensures
        files_agree(b3, sb, c3.files),
{
    let old_parts = segments(old_path);
    let new_parts = segments(new_path);
    let ofront = old_parts.drop_last();
    let nfront = new_parts.drop_last();
    let oname = old_parts.last();
    let nname = new_parts.last();
    assert(ofront.push(oname) =~= old_parts);
    assert(nfront.push(nname) =~= new_parts);
    lemma_plain_front(ofront, oname);
    lemma_plain_front(nfront, nname);
    lemma_segments_of(ofront);
    lemma_segments_of(nfront);
    lemma_walk_push(b0, sb, ofront, oname, 1);
    lemma_walk_push(b0, sb, nfront, nname, 1);
    lemma_caches_agree(b0, sb, c0, absolute(ofront));
    lemma_resolved_files(b0, sb, c0, absolute(ofront));
    let (r1, c1) = resolved(b0, sb, c0, absolute(ofront));
    lemma_caches_agree(b0, sb, c1, absolute(nfront));
    lemma_resolved_files(b0, sb, c1, absolute(nfront));
    let (r2, c2) = resolved(b0, sb, c1, absolute(nfront));
    let po = r1->Ok_0;
    let pn = r2->Ok_0;
    lemma_tidy_dir(b0, sb, po);
    lemma_tidy_dir(b0, sb, pn);
    lemma_renamed_keeps_files(b0, b3, sb, c2, c3, ofront, po, oname, nfront, pn, nname);
}

} // verus!
