//! What is remembered of names agrees with the blocks: looking things up with it gives what
//! looking them up without it gives.

use crate::bytes::{lemma_first_pos, pieces};
use crate::paths::{absolute, non_empty, segments, slashed, SLASH};
use crate::syscall::pathname::{
    lemma_pieces_of_joined, lemma_slashed_front, plain_segment, plain_segments,
};
use crate::twilight_fs::cache::{as_map, at_key, dir_at, dir_pos, IndexView};
use crate::twilight_fs::dir::{dir_index, dir_names, found_in, lemma_dir_pos_is, lookup_fails};
use crate::twilight_fs::fs::{inode_at, valid_ino, Superblock};
use crate::twilight_fs::mount::no_caches;
use crate::twilight_fs::names::{longer, resolved, walk};
use crate::twilight_fs::read::on_volume;
use crate::twilight_fs::shared::{dir_set, path_added, CacheView};
use crate::twilight_fs::volume::FsError;
use vstd::prelude::*;

verus! {

/// Whether the directories remembered in `after` are those in `dirs`, and such as are looked
/// into for the segments `parts`, from `ino` on.
pub open spec fn only_looked_into(
    blocks: Seq<Seq<u8>>,
    sb: Superblock,
    dirs: Seq<(u32, IndexView)>,
    after: Seq<(u32, IndexView)>,
    parts: Seq<Seq<u8>>,
    ino: u32,
) -> bool {
    forall|k: int|
        0 <= k < after.len() ==> was_known(dirs, (#[trigger] after[k]).0) || looked_into(
            blocks,
            sb,
            parts,
            ino,
            after[k].0,
        )
}

/// What `name` stands for in the directory `dir`, by its blocks alone.
pub open spec fn disk_entry(blocks: Seq<Seq<u8>>, sb: Superblock, dir: u32, name: Seq<u8>) -> Option<u32> {
    let direct = inode_at(blocks, sb, dir as int).direct;
    if direct[0] == 0 {
        None
    } else {
        at_key(dir_names(blocks, direct, 384), name)
    }
}

/// Whether the blocks of a directory can be searched.
pub open spec fn searchable(blocks: Seq<Seq<u8>>, sb: Superblock, dir: u32) -> bool {
    let direct = inode_at(blocks, sb, dir as int).direct;
    valid_ino(sb, dir as int) && (direct[0] == 0 || on_volume(blocks, direct))
}

/// What following the segments `parts` from the directory `ino` gives, by the blocks alone.
pub open spec fn disk_walk(blocks: Seq<Seq<u8>>, sb: Superblock, parts: Seq<Seq<u8>>, ino: u32) -> Result<
    u32,
    FsError,
>
    decreases parts.len(),
{
    if parts.len() == 0 {
        Ok(ino)
    } else if !searchable(blocks, sb, ino) {
        Err(FsError::InvalidInode)
    } else {
        match disk_entry(blocks, sb, ino, parts[0]) {
            None => Err(FsError::FileNotFound),
            Some(next) => disk_walk(blocks, sb, parts.skip(1), next),
        }
    }
}

/// Whether what is searched for the segments `parts`, from `ino` on, are directories.
pub open spec fn walks_dirs(blocks: Seq<Seq<u8>>, sb: Superblock, parts: Seq<Seq<u8>>, ino: u32) -> bool
    decreases parts.len(),
{
    parts.len() > 0 ==> {
        &&& inode_at(blocks, sb, ino as int).dir()
        &&& searchable(blocks, sb, ino) ==> match disk_entry(blocks, sb, ino, parts[0]) {
            Some(next) => walks_dirs(blocks, sb, parts.skip(1), next),
            None => true,
        }
    }
}

/// Whether the directory `d` is looked into for the segments `parts`, from `ino` on.
pub open spec fn looked_into(
    blocks: Seq<Seq<u8>>,
    sb: Superblock,
    parts: Seq<Seq<u8>>,
    ino: u32,
    d: u32,
) -> bool
    decreases parts.len(),
{
    &&& parts.len() > 0
    &&& {
        ||| ino == d
        ||| searchable(blocks, sb, ino) && match disk_entry(blocks, sb, ino, parts[0]) {
            Some(next) => looked_into(blocks, sb, parts.skip(1), next, d),
            None => false,
        }
    }
}

/// Whether the directory `d` is among those remembered.
pub open spec fn was_known(dirs: Seq<(u32, IndexView)>, d: u32) -> bool {
    exists|j: int| 0 <= j < dirs.len() && (#[trigger] dirs[j]).0 == d
}

/// Whether a path is absolute and written in the one plain way.
pub open spec fn regular(path: Seq<u8>) -> bool {
    path == absolute(segments(path)) && plain_segments(segments(path))
}

/// Whether a remembered directory is what its blocks say.
pub open spec fn index_agrees(blocks: Seq<Seq<u8>>, sb: Superblock, ino: u32, e: IndexView) -> bool {
    let inode = inode_at(blocks, sb, ino as int);
    &&& valid_ino(sb, ino as int)
    &&& inode.dir()
    &&& inode.direct[0] != 0
    &&& on_volume(blocks, inode.direct)
    &&& e.names == dir_names(blocks, inode.direct, 384)
}

/// Whether a remembered path leads where the blocks say.
pub open spec fn path_agrees(blocks: Seq<Seq<u8>>, sb: Superblock, path: Seq<u8>, ino: u32) -> bool {
    &&& regular(path)
    &&& walks_dirs(blocks, sb, segments(path), 1)
    &&& disk_walk(blocks, sb, segments(path), 1) == Ok::<u32, FsError>(ino)
}

/// Whether the remembered directories are what their blocks say, each remembered once.
pub open spec fn dirs_agree(blocks: Seq<Seq<u8>>, sb: Superblock, dirs: Seq<(u32, IndexView)>) -> bool {
    &&& dirs.len() <= 512
    &&& forall|i: int, j: int| 0 <= i < j < dirs.len() ==> #[trigger] dirs[i].0 != #[trigger] dirs[j].0
    &&& forall|i: int|
        0 <= i < dirs.len() ==> index_agrees(blocks, sb, (#[trigger] dirs[i]).0, dirs[i].1)
}

/// Whether the remembered paths lead where the blocks say.
pub open spec fn paths_agree(blocks: Seq<Seq<u8>>, sb: Superblock, paths: Seq<(Seq<u8>, u32)>) -> bool {
    forall|i: int|
        0 <= i < paths.len() ==> path_agrees(blocks, sb, (#[trigger] paths[i]).0, paths[i].1)
}

/// Whether what is remembered of names agrees with the blocks.
pub open spec fn names_agree(blocks: Seq<Seq<u8>>, sb: Superblock, c: CacheView) -> bool {
    dirs_agree(blocks, sb, c.dirs) && paths_agree(blocks, sb, c.paths)
}

/// The segments of a path that was put together are those it was put together from.
pub proof fn lemma_segments_of(parts: Seq<Seq<u8>>)
    requires
        plain_segments(parts),
    ensures
        segments(absolute(parts)) == parts,
        regular(absolute(parts)),
{
    let path = absolute(parts);
    reveal_with_fuel(pieces, 3);
    if parts.len() == 0 {
        lemma_first_pos(path, SLASH, 0);
        assert(path.take(0) =~= Seq::<u8>::empty());
        assert(path.skip(1) =~= Seq::<u8>::empty());
        lemma_first_pos(Seq::<u8>::empty(), SLASH, 0);
        let e = Seq::<u8>::empty();
        assert(pieces(e, SLASH) =~= seq![e]);
        assert(pieces(path, SLASH) =~= seq![e, e]);
        reveal_with_fuel(non_empty, 3);
        assert(seq![e, e].drop_last() =~= seq![e]);
        assert(seq![e].drop_last() =~= Seq::<Seq<u8>>::empty());
        assert(segments(path) =~= parts);
    } else {
        lemma_slashed_front(parts);
        let rest = parts[0] + slashed(parts.skip(1));
        assert(path =~= seq![SLASH] + rest);
        lemma_pieces_of_joined(parts);
        lemma_first_pos(path, SLASH, 0);
        assert(path.take(0) =~= Seq::<u8>::empty());
        assert(path.skip(1) =~= rest);
        let e = Seq::<u8>::empty();
        assert(pieces(path, SLASH) =~= seq![e] + parts);
        lemma_non_empty(parts);
    }
}

proof fn lemma_non_empty(parts: Seq<Seq<u8>>)
    requires
        plain_segments(parts),
    ensures
        non_empty(seq![Seq::<u8>::empty()] + parts) == parts,
    decreases parts.len(),
{
    let e = Seq::<u8>::empty();
    let all = seq![e] + parts;
    if parts.len() == 0 {
        reveal_with_fuel(non_empty, 2);
        assert(all.drop_last() =~= Seq::<Seq<u8>>::empty());
        assert(non_empty(all) =~= parts);
    } else {
        let front = parts.drop_last();
        assert forall|i: int| 0 <= i < front.len() implies plain_segment(#[trigger] front[i]) by {
            assert(front[i] == parts[i]);
        }
        lemma_non_empty(front);
        assert(all.drop_last() =~= seq![e] + front);
        assert(plain_segment(parts[parts.len() - 1]));
        assert(all.last() == parts.last());
        assert(front.push(parts.last()) =~= parts);
    }
}

/// Following one segment more goes one step further.
pub proof fn lemma_walk_push(
    blocks: Seq<Seq<u8>>,
    sb: Superblock,
    parts: Seq<Seq<u8>>,
    name: Seq<u8>,
    ino: u32,
)
    ensures
        disk_walk(blocks, sb, parts.push(name), ino) == match disk_walk(blocks, sb, parts, ino) {
            Ok(d) => if !searchable(blocks, sb, d) {
                Err(FsError::InvalidInode)
            } else {
                match disk_entry(blocks, sb, d, name) {
                    None => Err(FsError::FileNotFound),
                    Some(n) => Ok(n),
                }
            },
            Err(e) => Err(e),
        },
        walks_dirs(blocks, sb, parts.push(name), ino) == (walks_dirs(blocks, sb, parts, ino) && (
        disk_walk(blocks, sb, parts, ino) matches Ok(d) ==> inode_at(blocks, sb, d as int).dir())),
    decreases parts.len(),
{
    let all = parts.push(name);
    if parts.len() == 0 {
        reveal_with_fuel(disk_walk, 2);
        reveal_with_fuel(walks_dirs, 2);
        assert(all.skip(1).len() == 0);
    } else {
        assert(all[0] == parts[0]);
        assert(all.skip(1) =~= parts.skip(1).push(name));
        match disk_entry(blocks, sb, ino, parts[0]) {
            Some(next) => lemma_walk_push(blocks, sb, parts.skip(1), name, next),
            None => {},
        }
    }
}

pub(crate) proof fn lemma_lookup_agrees(
    blocks: Seq<Seq<u8>>,
    sb: Superblock,
    c: CacheView,
    dir: u32,
    name: Seq<u8>,
)
    requires
        names_agree(blocks, sb, c),
        inode_at(blocks, sb, dir as int).dir(),
    ensures
        lookup_fails(blocks, sb, c, dir) == !searchable(blocks, sb, dir),
        found_in(blocks, sb, c, dir, name).0 == disk_entry(blocks, sb, dir, name),
        searchable(blocks, sb, dir) ==> names_agree(blocks, sb, found_in(blocks, sb, c, dir, name).1),
        forall|k: int|
            0 <= k < found_in(blocks, sb, c, dir, name).1.dirs.len() ==> was_known(
                c.dirs,
                (#[trigger] found_in(blocks, sb, c, dir, name).1.dirs[k]).0,
            ) || found_in(blocks, sb, c, dir, name).1.dirs[k].0 == dir,
{
    let direct = inode_at(blocks, sb, dir as int).direct;
    lemma_dir_pos_is(c.dirs, dir);
    let p = dir_pos(c.dirs, dir);
    assert forall|k: int| 0 <= k < found_in(blocks, sb, c, dir, name).1.dirs.len() implies was_known(
        c.dirs,
        (#[trigger] found_in(blocks, sb, c, dir, name).1.dirs[k]).0,
    ) || found_in(blocks, sb, c, dir, name).1.dirs[k].0 == dir by {
        let after = found_in(blocks, sb, c, dir, name).1.dirs;
        let full = c.dirs.push((dir, dir_index(blocks, direct)));
        let j = if after.len() < full.len() && after != c.dirs {
            k + 1
        } else {
            k
        };
        if after != c.dirs {
            assert(after[k] == full[j]);
        }
        if j < c.dirs.len() {
            assert(after[k] == c.dirs[j]);
        }
    }
    match dir_at(c.dirs, dir) {
        Some(e) => {
            assert(c.dirs[p].0 == dir);
            assert(index_agrees(blocks, sb, c.dirs[p].0, c.dirs[p].1));
        },
        None => {
            if searchable(blocks, sb, dir) && direct[0] != 0 {
                let e = dir_index(blocks, direct);
                let after = dir_set(c.dirs, dir, e);
                assert(p == c.dirs.len());
                let full = c.dirs.push((dir, e));
                assert forall|i: int, j: int| 0 <= i < j < after.len() implies #[trigger] after[i].0
                    != #[trigger] after[j].0 by {
                    if c.dirs.len() < 512 {
                        assert(after[i] == full[i] && after[j] == full[j]);
                        assert(c.dirs[i].0 != dir);
                        if j < c.dirs.len() {
                            assert(c.dirs[i].0 != c.dirs[j].0);
                        }
                    } else {
                        assert(after[i] == full[i + 1] && after[j] == full[j + 1]);
                        assert(c.dirs[i + 1].0 != dir);
                        if j + 1 < c.dirs.len() {
                            assert(c.dirs[i + 1].0 != c.dirs[j + 1].0);
                        }
                    }
                }
                assert forall|i: int| 0 <= i < after.len() implies index_agrees(
                    blocks,
                    sb,
                    (#[trigger] after[i]).0,
                    after[i].1,
                ) by {
                    let k = if c.dirs.len() < 512 {
                        i
                    } else {
                        i + 1
                    };
                    assert(after[i] == full[k]);
                    if k < c.dirs.len() {
                        assert(index_agrees(blocks, sb, c.dirs[k].0, c.dirs[k].1));
                    }
                }
            }
        },
    }
}

proof fn lemma_path_added(
    blocks: Seq<Seq<u8>>,
    sb: Superblock,
    c: CacheView,
    path: Seq<u8>,
    ino: u32,
)
    requires
        names_agree(blocks, sb, c),
        path_agrees(blocks, sb, path, ino),
    ensures
        names_agree(blocks, sb, CacheView { paths: path_added(c.paths, path, ino), ..c }),
{
    let after = path_added(c.paths, path, ino);
    let full = c.paths.push((path, ino));
    assert forall|i: int| 0 <= i < after.len() implies path_agrees(
        blocks,
        sb,
        (#[trigger] after[i]).0,
        after[i].1,
    ) by {
        if as_map(c.paths).dom().contains(path) {
            assert(after[i] == c.paths[i]);
        } else {
            let k = if c.paths.len() < 1024 {
                i
            } else {
                i + 1
            };
            assert(after[i] == full[k]);
            if k < c.paths.len() {
                assert(path_agrees(blocks, sb, c.paths[k].0, c.paths[k].1));
            }
        }
    }
}

/// A path that is found in what is remembered leads where the blocks say.
proof fn lemma_remembered_path(
    blocks: Seq<Seq<u8>>,
    sb: Superblock,
    paths: Seq<(Seq<u8>, u32)>,
    path: Seq<u8>,
)
    requires
        forall|i: int|
            0 <= i < paths.len() ==> path_agrees(blocks, sb, (#[trigger] paths[i]).0, paths[i].1),
    ensures
        at_key(as_map(paths), path) matches Some(ino) ==> path_agrees(blocks, sb, path, ino),
    decreases paths.len(),
{
    if paths.len() > 0 {
        let front = paths.drop_last();
        assert forall|i: int| 0 <= i < front.len() implies path_agrees(
            blocks,
            sb,
            (#[trigger] front[i]).0,
            front[i].1,
        ) by {
            assert(front[i] == paths[i]);
        }
        lemma_remembered_path(blocks, sb, front, path);
        assert(path_agrees(blocks, sb, paths[paths.len() - 1].0, paths[paths.len() - 1].1));
    }
}

proof fn lemma_walk_agrees(
    blocks: Seq<Seq<u8>>,
    sb: Superblock,
    c: CacheView,
    front: Seq<Seq<u8>>,
    parts: Seq<Seq<u8>>,
    ino: u32,
)
    requires
        names_agree(blocks, sb, c),
        plain_segments(front + parts),
        walks_dirs(blocks, sb, front, 1),
        disk_walk(blocks, sb, front, 1) == Ok::<u32, FsError>(ino),
        walks_dirs(blocks, sb, parts, ino),
    ensures
        walk(blocks, sb, c, parts, ino, absolute(front)).0 == disk_walk(blocks, sb, parts, ino),
        names_agree(blocks, sb, walk(blocks, sb, c, parts, ino, absolute(front)).1),
        only_looked_into(
            blocks,
            sb,
            c.dirs,
            walk(blocks, sb, c, parts, ino, absolute(front)).1.dirs,
            parts,
            ino,
        ),
    decreases parts.len(),
{
    if parts.len() > 0 {
        let name = parts[0];
        lemma_lookup_agrees(blocks, sb, c, ino, name);
        if searchable(blocks, sb, ino) {
            let (found, c1) = found_in(blocks, sb, c, ino, name);
            if let Some(next) = found {
                let more = front.push(name);
                assert(more + parts.skip(1) =~= front + parts);
                assert forall|i: int| 0 <= i < more.len() implies plain_segment(#[trigger] more[i]) by {
                    assert(more[i] == (front + parts)[i]);
                }
                lemma_walk_push(blocks, sb, front, name, 1);
                lemma_segments_of(more);
                assert(more.drop_last() =~= front);
                assert(longer(absolute(front), name) == absolute(more)) by {
                    if front.len() == 0 {
                        assert(slashed(front) =~= Seq::<u8>::empty());
                        assert(seq![SLASH] + name =~= slashed(more));
                    } else {
                        assert(front.drop_last().push(front.last()) =~= front);
                        assert(plain_segment((front + parts)[front.len() - 1]));
                        assert(front.last().len() > 0);
                        assert(slashed(front).len() > 1);
                    }
                }
                lemma_path_added(blocks, sb, c1, absolute(more), next);
                lemma_walk_agrees(
                    blocks,
                    sb,
                    CacheView { paths: path_added(c1.paths, absolute(more), next), ..c1 },
                    more,
                    parts.skip(1),
                    next,
                );
            }
        }
    }
}

/// What a plain path of directories resolves to by the blocks alone.
pub open spec fn disk_resolved(blocks: Seq<Seq<u8>>, sb: Superblock, path: Seq<u8>) -> Result<u32, FsError> {
    disk_walk(blocks, sb, segments(path), 1)
}

/// Where what is remembered of names agrees with the blocks, a path resolves as it does
/// where nothing is remembered, and what is remembered then agrees with the blocks again.
pub proof fn lemma_caches_agree(blocks: Seq<Seq<u8>>, sb: Superblock, c: CacheView, path: Seq<u8>)
    requires
        names_agree(blocks, sb, c),
        regular(path),
        walks_dirs(blocks, sb, segments(path), 1),
    ensures
        resolved(blocks, sb, c, path).0 == disk_resolved(blocks, sb, path),
        resolved(blocks, sb, no_caches(), path).0 == disk_resolved(blocks, sb, path),
        names_agree(blocks, sb, resolved(blocks, sb, c, path).1),
        only_looked_into(
            blocks,
            sb,
            c.dirs,
            resolved(blocks, sb, c, path).1.dirs,
            segments(path),
            1,
        ),
{
    lemma_one_agrees(blocks, sb, c, path);
    lemma_one_agrees(blocks, sb, no_caches(), path);
}

proof fn lemma_one_agrees(blocks: Seq<Seq<u8>>, sb: Superblock, c: CacheView, path: Seq<u8>)
    requires
        names_agree(blocks, sb, c),
        regular(path),
        walks_dirs(blocks, sb, segments(path), 1),
    ensures
        resolved(blocks, sb, c, path).0 == disk_resolved(blocks, sb, path),
        names_agree(blocks, sb, resolved(blocks, sb, c, path).1),
        only_looked_into(
            blocks,
            sb,
            c.dirs,
            resolved(blocks, sb, c, path).1.dirs,
            segments(path),
            1,
        ),
{
    let parts = segments(path);
    if parts.len() > 0 {
        lemma_slashed_front(parts);
        assert(path[0] == SLASH);
    }
    assert(path.len() > 0);
    if path == seq![SLASH] {
        lemma_segments_of(Seq::<Seq<u8>>::empty());
    } else {
        lemma_remembered_path(blocks, sb, c.paths, path);
        let none = Seq::<Seq<u8>>::empty();
        assert(none + parts =~= parts);
        lemma_walk_agrees(blocks, sb, c, none, parts, 1);
        let (r, c1) = walk(blocks, sb, c, parts, 1, seq![SLASH]);
        if let Ok(ino) = r {
            lemma_path_added(blocks, sb, c1, path, ino);
        }
    }
}

} // verus!
