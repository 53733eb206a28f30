//! Paths on a volume: resolving, removing and renaming them.

use crate::block::{splice, BlockDeviceIO};
use crate::bytes::{push_all, same, to_vec, views};
use crate::paths::{
    absolute, child_path, is_root, join_parent_and_name, join_segments, segments, split_segments, SLASH,
};
use crate::twilight_fs::bitmap::with_bit_at;
use crate::twilight_fs::cache::{
    as_map, at_key, with_name, without_file, without_name, without_prefix,
};
use crate::twilight_fs::dir::{
    entry_missing, entry_place, found_in, lookup_fails, search_fails, search_stops, slot_found,
};
use crate::twilight_fs::fs::{inode_at, valid_ino, with_inode, Superblock, TwilightFs};
use crate::twilight_fs::inode::{Inode, InodeView};
use crate::twilight_fs::shared::{path_added, CacheView};
use crate::twilight_fs::tree::{entry_added, entry_refused, make_name_field, name_field, splice_vec};
use crate::twilight_fs::volume::FsError;
use vstd::prelude::*;

verus! {

/// `path` with a slash before it where it has none.
pub open spec fn rooted(path: Seq<u8>) -> Seq<u8> {
    if path.len() > 0 && path[0] == SLASH {
        path
    } else {
        seq![SLASH] + path
    }
}

/// `prefix` and one segment more.
pub open spec fn longer(prefix: Seq<u8>, part: Seq<u8>) -> Seq<u8> {
    if prefix.len() > 1 {
        prefix + seq![SLASH] + part
    } else {
        prefix + part
    }
}

/// What following the segments `parts` from the directory `ino` at `prefix` gives,
/// and what is remembered then.
pub open spec fn walk(
    blocks: Seq<Seq<u8>>,
    sb: Superblock,
    caches: CacheView,
    parts: Seq<Seq<u8>>,
    ino: u32,
    prefix: Seq<u8>,
) -> (Result<u32, FsError>, CacheView)
    decreases parts.len(),
{
    if parts.len() == 0 {
        (Ok(ino), caches)
    } else if lookup_fails(blocks, sb, caches, ino) {
        (Err(FsError::InvalidInode), caches)
    } else {
        let (found, c) = found_in(blocks, sb, caches, ino, parts[0]);
        match found {
            None => (Err(FsError::FileNotFound), c),
            Some(next) => {
                let p = longer(prefix, parts[0]);
                walk(
                    blocks,
                    sb,
                    CacheView { paths: path_added(c.paths, p, next), ..c },
                    parts.skip(1),
                    next,
                    p,
                )
            },
        }
    }
}

/// What a path resolves to, and what is remembered then.
pub open spec fn resolved(blocks: Seq<Seq<u8>>, sb: Superblock, caches: CacheView, path: Seq<u8>) -> (
    Result<u32, FsError>,
    CacheView,
) {
    if path.len() == 0 {
        (Err(FsError::InvalidPath), caches)
    } else if path == seq![SLASH] {
        (Ok(1), caches)
    } else {
        match at_key(as_map(caches.paths), rooted(path)) {
            Some(ino) => (Ok(ino), caches),
            None => {
                let (r, c) = walk(blocks, sb, caches, segments(rooted(path)), 1, seq![SLASH]);
                match r {
                    Ok(ino) => (Ok(ino), CacheView { paths: path_added(c.paths, rooted(path), ino), ..c }),
                    Err(e) => (Err(e), c),
                }
            },
        }
    }
}

/// The directory and the name of a path; there is none of the root, and none for
/// the names of a directory itself and of its parent.
pub open spec fn parent_and_name(path: Seq<u8>) -> Option<(Seq<u8>, Seq<u8>)> {
    let parts = segments(path);
    if parts.len() == 0 || parts.last() == seq![46u8] || parts.last() == seq![46u8, 46u8] {
        None
    } else {
        Some((absolute(parts.drop_last()), parts.last()))
    }
}

/// `blocks` after the zones in the first `n` slots of `direct` were given back.
pub open spec fn zones_freed(blocks: Seq<Seq<u8>>, sb: Superblock, direct: Seq<u32>, n: int) -> Seq<
    Seq<u8>,
>
    decreases n,
{
    if n <= 0 {
        blocks
    } else {
        let front = zones_freed(blocks, sb, direct, n - 1);
        if direct[n - 1] == 0 {
            front
        } else {
            with_bit_at(front, sb.zmap(), direct[n - 1] - sb.first_data_zone, false)
        }
    }
}

/// Whether every zone in `direct` can be given back.
pub open spec fn zones_valid(sb: Superblock, direct: Seq<u32>) -> bool {
    forall|i: int|
        0 <= i < 12 && #[trigger] direct[i] != 0 ==> 0 <= direct[i] - sb.first_data_zone
            < sb.zmap_blocks * 16384
}

pub open spec fn zero_entry() -> Seq<u8> {
    Seq::new(64, |i: int| 0u8)
}

/// `v` minus 64, where it is as much.
pub open spec fn minus_entry(v: u64) -> u64 {
    if v >= 64 {
        (v - 64) as u64
    } else {
        v
    }
}

/// Whether the entry `name` of `parent`, at `t`, was removed: its zones and its
/// inode are free, its entry is cleared, and its directory is smaller.
pub open spec fn entry_removed(
    b0: Seq<Seq<u8>>,
    b1: Seq<Seq<u8>>,
    sb: Superblock,
    parent: u32,
    t: (u32, usize, u32),
) -> bool {
    let dir = inode_at(b0, sb, parent as int);
    let node = inode_at(b0, sb, t.2 as int);
    let freed = with_bit_at(zones_freed(b0, sb, node.direct, 12), 1, t.2 - 1, false);
    &&& valid_ino(sb, t.2 as int)
    &&& zones_valid(sb, node.direct)
    &&& b1 == with_inode(
        freed.update(t.0 as int, splice(b0[t.0 as int], t.1 as int, zero_entry())),
        sb,
        parent as int,
        InodeView { size: minus_entry(dir.size), ..dir },
    )
}

/// What resolving the directory with the segments `parts` gives.
pub open spec fn parent_resolved(
    blocks: Seq<Seq<u8>>,
    sb: Superblock,
    caches: CacheView,
    parts: Seq<Seq<u8>>,
) -> (Result<u32, FsError>, CacheView) {
    if parts.len() == 0 {
        (Ok(1), caches)
    } else {
        resolved(blocks, sb, caches, absolute(parts))
    }
}

/// The error that a result holds.
pub open spec fn error_of(res: Result<(), FsError>) -> Option<FsError> {
    match res {
        Ok(_) => None,
        Err(e) => Some(e),
    }
}

/// What removing a path gives; `res` is the error, if any.
#[verifier::opaque]
pub open spec fn remove_result(
    b0: Seq<Seq<u8>>,
    b1: Seq<Seq<u8>>,
    sb: Superblock,
    serves: bool,
    c0: CacheView,
    c1: CacheView,
    path: Seq<u8>,
    res: Option<FsError>,
) -> bool {
    let parts = segments(path);
    let name = parts.last();
    let (r, c) = parent_resolved(b0, sb, c0, parts.drop_last());
    match res {
        None => {
            &&& parts.len() > 0
            &&& r is Ok
            &&& valid_ino(sb, r->Ok_0 as int)
            &&& path_removed(b0, b1, sb, c, c1, r->Ok_0, absolute(parts.drop_last()), name)
        },
        Some(FsError::InvalidPath) => parts.len() == 0 && b1 == b0 && c1 == c0,
        Some(FsError::FileNotFound) => {
            &&& parts.len() > 0
            &&& b1 == b0
            &&& c1 == c
            &&& match r {
                Ok(parent) => valid_ino(sb, parent as int) && entry_missing(
                    b0,
                    inode_at(b0, sb, parent as int).direct,
                    name,
                ),
                Err(e) => e == FsError::FileNotFound,
            }
        },
        Some(e) => {
            &&& e == FsError::InvalidInode
            &&& parts.len() > 0
            &&& serves ==> {
                &&& c1 == c
                &&& match r {
                    Ok(parent) => remove_refused(b0, b1, sb, parent, name),
                    Err(e) => e == FsError::InvalidInode && b1 == b0,
                }
            }
        },
    }
}

/// Whether `name` of `parent` was removed, from the volume and from what is
/// remembered.
pub open spec fn path_removed(
    b0: Seq<Seq<u8>>,
    b1: Seq<Seq<u8>>,
    sb: Superblock,
    c: CacheView,
    c1: CacheView,
    parent: u32,
    dir_path: Seq<u8>,
    name: Seq<u8>,
) -> bool {
    exists|t: (u32, usize, u32)| #[trigger]
        removed_at(b0, b1, sb, c, c1, parent, dir_path, name, t)
}

pub open spec fn removed_at(
    b0: Seq<Seq<u8>>,
    b1: Seq<Seq<u8>>,
    sb: Superblock,
    c: CacheView,
    c1: CacheView,
    parent: u32,
    dir_path: Seq<u8>,
    name: Seq<u8>,
    t: (u32, usize, u32),
) -> bool {
    &&& entry_place(b0, inode_at(b0, sb, parent as int).direct, name, t)
    &&& entry_removed(b0, b1, sb, parent, t)
    &&& c1 == CacheView {
        paths: without_prefix(c.paths, child_path(dir_path, name)),
        files: without_file(c.files, t.2),
        dirs: without_name(c.dirs, parent, name),
    }
}

/// Whether the zone in slot `k` of `direct` is the first that cannot be given back.
pub open spec fn first_bad_zone(sb: Superblock, direct: Seq<u32>, k: int) -> bool {
    &&& 0 <= k < 12
    &&& direct[k] != 0
    &&& !(0 <= direct[k] - sb.first_data_zone < sb.zmap_blocks * 16384)
    &&& forall|i: int|
        0 <= i < k && #[trigger] direct[i] != 0 ==> 0 <= direct[i] - sb.first_data_zone
            < sb.zmap_blocks * 16384
}

/// Whether the zones of `direct` were given back up to one that cannot be.
pub open spec fn freed_in_part(b0: Seq<Seq<u8>>, b1: Seq<Seq<u8>>, sb: Superblock, direct: Seq<u32>) -> bool {
    exists|k: int| #[trigger] first_bad_zone(sb, direct, k) && b1 == zones_freed(b0, sb, direct, k)
}

/// Whether the entry at `t` cannot be removed, and what is left behind then: it names an inode
/// that is not there, or one with a zone that is not there.
pub open spec fn entry_stuck(
    b0: Seq<Seq<u8>>,
    b1: Seq<Seq<u8>>,
    sb: Superblock,
    t: (u32, usize, u32),
) -> bool {
    if valid_ino(sb, t.2 as int) {
        freed_in_part(b0, b1, sb, inode_at(b0, sb, t.2 as int).direct)
    } else {
        b1 == b0
    }
}

/// Whether `name` cannot be removed from `parent`, and what is left behind then: the directory
/// cannot be read, or the entry cannot be removed.
pub open spec fn remove_refused(
    b0: Seq<Seq<u8>>,
    b1: Seq<Seq<u8>>,
    sb: Superblock,
    parent: u32,
    name: Seq<u8>,
) -> bool {
    let direct = inode_at(b0, sb, parent as int).direct;
    if !valid_ino(sb, parent as int) || search_fails(b0, direct, name) {
        b1 == b0
    } else {
        exists|t: (u32, usize, u32)| #[trigger]
            entry_place(b0, direct, name, t) && entry_stuck(b0, b1, sb, t)
    }
}

proof fn lemma_walk_errors(
    blocks: Seq<Seq<u8>>,
    sb: Superblock,
    caches: CacheView,
    parts: Seq<Seq<u8>>,
    ino: u32,
    prefix: Seq<u8>,
)
    ensures
        match walk(blocks, sb, caches, parts, ino, prefix).0 {
            Ok(_) => true,
            Err(e) => e == FsError::InvalidInode || e == FsError::FileNotFound,
        },
    decreases parts.len(),
{
    if parts.len() > 0 && !lookup_fails(blocks, sb, caches, ino) {
        let (found, c) = found_in(blocks, sb, caches, ino, parts[0]);
        if let Some(next) = found {
            let p = longer(prefix, parts[0]);
            lemma_walk_errors(
                blocks,
                sb,
                CacheView { paths: path_added(c.paths, p, next), ..c },
                parts.skip(1),
                next,
                p,
            );
        }
    }
}

/// The path of a directory is never refused as a path.
pub proof fn lemma_resolve_errors(
    blocks: Seq<Seq<u8>>,
    sb: Superblock,
    caches: CacheView,
    parts: Seq<Seq<u8>>,
)
    ensures
        match resolved(blocks, sb, caches, absolute(parts)).0 {
            Ok(_) => true,
            Err(e) => e == FsError::InvalidInode || e == FsError::FileNotFound,
        },
{
    let path = absolute(parts);
    assert(path.len() > 0);
    lemma_walk_errors(blocks, sb, caches, segments(rooted(path)), 1, seq![SLASH]);
}

/// The directory and the name of a path.
pub fn split_parent_and_name(path: &[u8]) -> (res: Result<(Vec<u8>, Vec<u8>), FsError>)
    ensures
        match res {
            Ok((d, n)) => parent_and_name(path@) == Some((d@, n@)),
            Err(e) => e == FsError::InvalidPath && parent_and_name(path@) is None,
        },
{
    let parts: Vec<Vec<u8>> = split_segments(path);
    let n: usize = parts.len();
    if n == 0 {
        return Err(FsError::InvalidPath);
    }
    let name: Vec<u8> = to_vec(&parts[n - 1]);
    proof {
        assert(views(parts@).last() == name@);
        assert(views(parts@).drop_last() =~= views(parts@).take(n - 1));
    }
    let one: [u8; 1] = [46u8];
    let two: [u8; 2] = [46u8, 46u8];
    proof {
        assert(one@ =~= seq![46u8]);
        assert(two@ =~= seq![46u8, 46u8]);
    }
    if same(&name, &one) || same(&name, &two) {
        return Err(FsError::InvalidPath);
    }
    Ok((join_segments(&parts, n - 1), name))
}

/// A search that finds a name does not fail.
pub(crate) proof fn lemma_found_or_not(b0: Seq<Seq<u8>>, direct: Seq<u32>, name: Seq<u8>, t: (u32, usize, u32))
    requires
        entry_place(b0, direct, name, t),
    ensures
        !search_fails(b0, direct, name),
        !entry_missing(b0, direct, name),
{
    let s = choose|s: int| #[trigger] slot_found(b0, direct, name, s, t);
    if search_fails(b0, direct, name) {
        let b = choose|b: int| #[trigger] search_stops(b0, direct, name, b);
        assert(!(s < 32 * b));
        assert(b <= s / 32);
        assert(direct[b] < b0.len());
    }
}

/// A search through a directory on the volume does not fail.
pub(crate) proof fn lemma_missing_or_not(b0: Seq<Seq<u8>>, direct: Seq<u32>, name: Seq<u8>)
    requires
        entry_missing(b0, direct, name),
        direct.len() == 12,
    ensures
        !search_fails(b0, direct, name),
{
    if search_fails(b0, direct, name) {
        let b = choose|b: int| #[trigger] search_stops(b0, direct, name, b);
        assert(direct[b] < b0.len());
    }
}

impl<D: BlockDeviceIO> TwilightFs<D> {
    /// Resolves a path to an inode.
    pub fn resolve_path(&mut self, path: &[u8]) -> (res: Result<u32, FsError>)
        requires
            old(self).wf(),
        ensures
            final(self).wf(),
            final(self).same_volume(old(self)),
            final(self).blocks() == old(self).blocks(),
            final(self).shared.generation == old(self).shared.generation,
            ({
                let (r, c) = resolved(
                    old(self).blocks(),
                    old(self).superblock,
                    old(self).shared@,
                    path@,
                );
                if res == r && final(self).shared@ == c {
                    true
                } else {
                    res == Err::<u32, FsError>(FsError::InvalidInode) && !old(self).serves()
                }
            }),
    {
        if path.len() == 0 {
            return Err(FsError::InvalidPath);
        }
        if is_root(path) {
            return Ok(1);
        }
        let mut canonical: Vec<u8> = Vec::new();
        if path[0] != SLASH {
            canonical.push(SLASH);
        }
        push_all(&mut canonical, path);
        proof {
            assert(canonical@ =~= rooted(path@));
        }
        match self.shared.lookup_cached(&canonical) {
            Some(ino) => return Ok(ino),
            None => {},
        }
        let ghost blocks = self.blocks();
        let ghost sb = self.superblock;
        let ghost c0 = self.shared@;
        let parts: Vec<Vec<u8>> = split_segments(&canonical);
        let ghost all = views(parts@);
        let mut cur: u32 = 1;
        let mut prefix: Vec<u8> = Vec::new();
        prefix.push(SLASH);
        let mut i: usize = 0;
        proof {
            assert(prefix@ =~= seq![SLASH]);
            assert(all.skip(0) =~= all);
        }
        while i < parts.len()
            invariant
                self.wf(),
                self.same_volume(old(self)),
                self.blocks() == blocks,
                blocks == old(self).blocks(),
                sb == old(self).superblock,
                self.shared.generation == old(self).shared.generation,
                c0 == old(self).shared@,
                canonical@ == rooted(path@),
                path@.len() > 0,
                path@ != seq![SLASH],
                at_key(as_map(c0.paths), rooted(path@)) is None,
                all == views(parts@),
                all == segments(rooted(path@)),
                i <= parts@.len(),
                walk(blocks, sb, c0, all, 1, seq![SLASH]) == walk(
                    blocks,
                    sb,
                    self.shared@,
                    all.skip(i as int),
                    cur,
                    prefix@,
                ),
            decreases parts@.len() - i,
        {
            proof {
                assert(all.skip(i as int)[0] == parts@[i as int]@);
                assert(all.skip(i as int).skip(1) =~= all.skip(i + 1));
            }
            let next: u32 = match self.find_dir_entry(cur, &parts[i]) {
                Ok(Some(n)) => n,
                Ok(None) => return Err(FsError::FileNotFound),
                Err(_) => return Err(FsError::InvalidInode),
            };
            let ghost before = prefix@;
            if prefix.len() > 1 {
                prefix.push(SLASH);
            }
            push_all(&mut prefix, &parts[i]);
            proof {
                assert(before + seq![SLASH] =~= before.push(SLASH));
                assert(prefix@ =~= longer(before, parts@[i as int]@));
            }
            self.shared.insert_lookup(to_vec(&prefix), next);
            cur = next;
            i = i + 1;
        }
        proof {
            assert(all.skip(i as int).len() == 0);
        }
        self.shared.insert_lookup(canonical, cur);
        Ok(cur)
    }

    /// Gives the zones that an inode names itself back.
    fn free_direct(&mut self, node: &Inode) -> (res: Result<(), FsError>)
        requires
            old(self).wf(),
        ensures
            final(self).wf(),
            final(self).same_but_blocks(old(self)),
            match res {
                Ok(_) => zones_valid(old(self).superblock, node@.direct) && final(self).blocks()
                    == zones_freed(old(self).blocks(), old(self).superblock, node@.direct, 12),
                Err(e) => e == FsError::InvalidInode && (!old(self).serves() || freed_in_part(
                    old(self).blocks(),
                    final(self).blocks(),
                    old(self).superblock,
                    node@.direct,
                )),
            },
    {
        let ghost b0 = self.blocks();
        let ghost sb = self.superblock;
        let mut i: usize = 0;
        while i < 12
            invariant
                self.wf(),
                self.same_but_blocks(old(self)),
                b0 == old(self).blocks(),
                sb == old(self).superblock,
                i <= 12,
                self.blocks() == zones_freed(b0, sb, node@.direct, i as int),
                forall|k: int|
                    0 <= k < i && #[trigger] node@.direct[k] != 0 ==> 0 <= node@.direct[k]
                        - sb.first_data_zone < sb.zmap_blocks * 16384,
            decreases 12 - i,
        {
            let z: u32 = node.direct_slot_get(i);
            if z != 0 {
                match self.dealloc_zone(z) {
                    Ok(_) => {},
                    Err(_) => {
                        proof {
                            if self.serves() {
                                assert(first_bad_zone(sb, node@.direct, i as int));
                            }
                        }
                        return Err(FsError::InvalidInode);
                    },
                }
            }
            i = i + 1;
        }
        Ok(())
    }

    /// Removes the entry `name` of a directory, at `t`.
    fn remove_at(&mut self, parent: u32, dir: &Inode, t: (u32, usize, u32)) -> (res: Result<
        (),
        FsError,
    >)
        requires
            old(self).wf(),
            valid_ino(old(self).superblock, parent as int),
            dir@ == inode_at(old(self).blocks(), old(self).superblock, parent as int),
            t.0 < old(self).blocks().len(),
            t.1 + 64 <= 2048,
        ensures
            final(self).wf(),
            final(self).same_but_blocks(old(self)),
            match res {
                Ok(_) => entry_removed(
                    old(self).blocks(),
                    final(self).blocks(),
                    old(self).superblock,
                    parent,
                    t,
                ),
                Err(e) => e == FsError::InvalidInode && (!old(self).serves() || entry_stuck(
                    old(self).blocks(),
                    final(self).blocks(),
                    old(self).superblock,
                    t,
                )),
            },
    {
        let buf: Vec<u8> = match self.get_block(t.0) {
            Ok(b) => b,
            Err(e) => return Err(e),
        };
        let node: Inode = match self.read_inode(t.2) {
            Ok(i) => i,
            Err(_) => return Err(FsError::InvalidInode),
        };
        match self.free_direct(&node) {
            Ok(_) => {},
            Err(e) => return Err(e),
        }
        match self.dealloc_inode(t.2) {
            Ok(_) => {},
            Err(_) => return Err(FsError::InvalidInode),
        }
        let mut blank: Vec<u8> = Vec::new();
        crate::bytes::push_repeat(&mut blank, 0, 64);
        proof {
            assert(blank@ =~= zero_entry());
        }
        let cleared: Vec<u8> = splice_vec(&buf, t.1, &blank);
        match self.put_block(t.0, &cleared) {
            Ok(_) => {},
            Err(e) => return Err(e),
        }
        let mut smaller: Inode = *dir;
        if smaller.size >= 64 {
            smaller.size = smaller.size - 64;
        }
        match self.write_inode(parent, &smaller) {
            Ok(_) => Ok(()),
            Err(_) => Err(FsError::InvalidInode),
        }
    }

    /// Removes a file or a directory.
    pub fn remove_entry(&mut self, path: &[u8]) -> (res: Result<(), FsError>)
        requires
            old(self).wf(),
        ensures
            final(self).wf(),
            final(self).same_volume(old(self)),
            final(self).shared.generation == old(self).shared.generation,
            remove_result(
                old(self).blocks(),
                final(self).blocks(),
                old(self).superblock,
                old(self).serves(),
                old(self).shared@,
                final(self).shared@,
                path@,
                error_of(res),
            ),
    {
        proof {
            reveal(remove_result);
        }
        let ghost b0 = self.blocks();
        let ghost sb = self.superblock;
        let parts: Vec<Vec<u8>> = split_segments(path);
        let n: usize = parts.len();
        if n == 0 {
            return Err(FsError::InvalidPath);
        }
        let name: Vec<u8> = to_vec(&parts[n - 1]);
        let dir_path: Vec<u8> = join_segments(&parts, n - 1);
        proof {
            assert(views(parts@).last() == name@);
            assert(views(parts@).drop_last() =~= views(parts@).take(n - 1));
        }
        let parent: u32 = if n == 1 {
            1
        } else {
            proof {
                lemma_resolve_errors(b0, sb, self.shared@, views(parts@).take(n - 1));
            }
            match self.resolve_path(&dir_path) {
                Ok(i) => i,
                Err(e) => return Err(e),
            }
        };
        let ghost c = self.shared@;
        let dir: Inode = match self.read_inode(parent) {
            Ok(i) => i,
            Err(_) => return Err(FsError::InvalidInode),
        };
        let t: (u32, usize, u32) = match self.find_dir_entry_slot(parent, &name) {
            Ok(Some(t)) => t,
            Ok(None) => return Err(FsError::FileNotFound),
            Err(e) => return Err(e),
        };
        proof {
            let s = choose|s: int| #[trigger] slot_found(b0, dir@.direct, name@, s, t);
            assert(t.1 + 64 <= 2048);
        }
        match self.remove_at(parent, &dir, t) {
            Ok(_) => {},
            Err(e) => {
                proof {
                    lemma_found_or_not(b0, dir@.direct, name@, t);
                }
                return Err(e);
            },
        }
        let target: Vec<u8> = join_parent_and_name(&dir_path, &name);
        self.shared.dir_index_remove(parent, &name);
        self.shared.remove_lookup_prefix(&target);
        self.shared.invalidate_file_inode(t.2);
        proof {
            assert(removed_at(b0, self.blocks(), sb, c, self.shared@, parent, dir_path@, name@, t));
        }
        Ok(())
    }
}

/// Whether the entry at `t` was cleared and its directory made smaller.
pub open spec fn entry_cleared(
    b0: Seq<Seq<u8>>,
    b1: Seq<Seq<u8>>,
    sb: Superblock,
    parent: u32,
    t: (u32, usize, u32),
) -> bool {
    let dir = inode_at(b0, sb, parent as int);
    let cleared = b0.update(t.0 as int, splice(b0[t.0 as int], t.1 as int, zero_entry()));
    b1 == if dir.size >= 64 {
        with_inode(cleared, sb, parent as int, InodeView { size: minus_entry(dir.size), ..dir })
    } else {
        cleared
    }
}

/// Whether the entry at `t` of `po` was given the name `name` in `pn`.
pub open spec fn entry_moved(
    b1: Seq<Seq<u8>>,
    b2: Seq<Seq<u8>>,
    b3: Seq<Seq<u8>>,
    sb: Superblock,
    c1: CacheView,
    c2: CacheView,
    po: u32,
    pn: u32,
    t: (u32, usize, u32),
    name: Seq<u8>,
) -> bool {
    if po == pn {
        &&& b2 == b1
        &&& b3 == b1.update(t.0 as int, splice(b1[t.0 as int], t.1 + 4, name_field(name)))
        &&& c2 == c1
    } else {
        &&& entry_added(b1, b2, sb, c1, c2, pn, name, t.2)
        &&& entry_cleared(b2, b3, sb, po, t)
    }
}

/// What is remembered once an entry was moved.
pub open spec fn caches_moved(
    c: CacheView,
    po: u32,
    oname: Seq<u8>,
    odir: Seq<u8>,
    pn: u32,
    nname: Seq<u8>,
    ndir: Seq<u8>,
    ino: u32,
) -> CacheView {
    CacheView {
        paths: without_prefix(
            without_prefix(c.paths, child_path(odir, oname)),
            child_path(ndir, nname),
        ),
        files: c.files,
        dirs: if po == pn {
            with_name(without_name(c.dirs, po, oname), pn, nname, ino, 0)
        } else {
            without_name(c.dirs, po, oname)
        },
    }
}

/// Whether nothing has the name `nname` in `pn`, or another file that had it was removed.
pub open spec fn way_free(
    b0: Seq<Seq<u8>>,
    b1: Seq<Seq<u8>>,
    sb: Superblock,
    c0: CacheView,
    c1: CacheView,
    pn: u32,
    nname: Seq<u8>,
    new_path: Seq<u8>,
    ino: u32,
) -> bool {
    let ndirect = inode_at(b0, sb, pn as int).direct;
    ||| b1 == b0 && c1 == c0 && entry_missing(b0, ndirect, nname)
    ||| in_the_way(b0, sb, ndirect, nname, ino) && remove_result(
        b0,
        b1,
        sb,
        true,
        c0,
        c1,
        new_path,
        None,
    )
}

/// The steps of a renaming: `b1`, `c1` once a file in the way was removed, `b2`,
/// `c2` once the new entry was added.
pub open spec fn rename_steps(
    b0: Seq<Seq<u8>>,
    b1: Seq<Seq<u8>>,
    b2: Seq<Seq<u8>>,
    b3: Seq<Seq<u8>>,
    sb: Superblock,
    c0: CacheView,
    c1: CacheView,
    c2: CacheView,
    c3: CacheView,
    po: u32,
    odir: Seq<u8>,
    oname: Seq<u8>,
    pn: u32,
    ndir: Seq<u8>,
    nname: Seq<u8>,
    new_path: Seq<u8>,
    t: (u32, usize, u32),
) -> bool {
    &&& way_free(b0, b1, sb, c0, c1, pn, nname, new_path, t.2)
    &&& entry_moved(b1, b2, b3, sb, c1, c2, po, pn, t, nname)
    &&& c3 == caches_moved(c2, po, oname, odir, pn, nname, ndir, t.2)
}

/// Whether another file, not a directory, has the name `name`.
pub open spec fn in_the_way(
    b0: Seq<Seq<u8>>,
    sb: Superblock,
    direct: Seq<u32>,
    name: Seq<u8>,
    ino: u32,
) -> bool {
    exists|u: (u32, usize, u32)| #[trigger]
        entry_place(b0, direct, name, u) && u.2 != ino && valid_ino(sb, u.2 as int) && !inode_at(
            b0,
            sb,
            u.2 as int,
        ).dir()
}

/// Whether the entry `oname` of `po` at `t` was renamed, or had the new name
/// already.
pub open spec fn renamed(
    b0: Seq<Seq<u8>>,
    b3: Seq<Seq<u8>>,
    sb: Superblock,
    c0: CacheView,
    c3: CacheView,
    po: u32,
    odir: Seq<u8>,
    oname: Seq<u8>,
    pn: u32,
    ndir: Seq<u8>,
    nname: Seq<u8>,
    new_path: Seq<u8>,
) -> bool {
    exists|t: (u32, usize, u32)| #[trigger]
        renamed_at(b0, b3, sb, c0, c3, po, odir, oname, pn, ndir, nname, new_path, t)
}

pub open spec fn renamed_at(
    b0: Seq<Seq<u8>>,
    b3: Seq<Seq<u8>>,
    sb: Superblock,
    c0: CacheView,
    c3: CacheView,
    po: u32,
    odir: Seq<u8>,
    oname: Seq<u8>,
    pn: u32,
    ndir: Seq<u8>,
    nname: Seq<u8>,
    new_path: Seq<u8>,
    t: (u32, usize, u32),
) -> bool {
    &&& entry_place(b0, inode_at(b0, sb, po as int).direct, oname, t)
    &&& valid_ino(sb, t.2 as int)
    &&& !(inode_at(b0, sb, t.2 as int).dir() && po != pn)
    &&& ({
        ||| po == pn && b3 == b0 && c3 == c0 && named_already(b0, sb, pn, nname, t.2)
        ||| exists|b1: Seq<Seq<u8>>, b2: Seq<Seq<u8>>, c1: CacheView, c2: CacheView| #[trigger]
            rename_steps(
                b0,
                b1,
                b2,
                b3,
                sb,
                c0,
                c1,
                c2,
                c3,
                po,
                odir,
                oname,
                pn,
                ndir,
                nname,
                new_path,
                t,
            )
    })
}

/// Whether `ino` has the name `name` in `dir`.
pub open spec fn named_already(
    b0: Seq<Seq<u8>>,
    sb: Superblock,
    dir: u32,
    name: Seq<u8>,
    ino: u32,
) -> bool {
    exists|u: (u32, usize, u32)| #[trigger]
        entry_place(b0, inode_at(b0, sb, dir as int).direct, name, u) && u.2 == ino
}

/// What renaming `old_path` to `new_path` gives.
pub open spec fn rename_result(
    b0: Seq<Seq<u8>>,
    b3: Seq<Seq<u8>>,
    sb: Superblock,
    c0: CacheView,
    c3: CacheView,
    old_path: Seq<u8>,
    new_path: Seq<u8>,
    res: Result<(), FsError>,
) -> bool {
    let a = parent_and_name(old_path);
    let b = parent_and_name(new_path);
    if old_path == new_path {
        res is Ok && b3 == b0 && c3 == c0
    } else if a is None || b is None {
        res == Err::<(), FsError>(FsError::InvalidPath) && b3 == b0 && c3 == c0
    } else {
        let (odir, oname) = a->0;
        let (ndir, nname) = b->0;
        if oname.len() > 60 || nname.len() > 60 {
            res == Err::<(), FsError>(FsError::FileNameTooLong) && b3 == b0 && c3 == c0
        } else {
            let (r1, c1) = resolved(b0, sb, c0, odir);
            let (r2, c2) = resolved(b0, sb, c1, ndir);
            match (r1, r2) {
                (Err(e), _) => res == Err::<(), FsError>(e) && b3 == b0 && c3 == c1,
                (_, Err(e)) => res == Err::<(), FsError>(e) && b3 == b0 && c3 == c2,
                (Ok(po), Ok(pn)) => rename_in_result(
                    b0,
                    b3,
                    sb,
                    c2,
                    c3,
                    po,
                    odir,
                    oname,
                    pn,
                    ndir,
                    nname,
                    new_path,
                    res,
                ),
            }
        }
    }
}

/// What renaming `oname` of the directory `po` to `nname` of the directory `pn`
/// gives.
pub open spec fn rename_in_result(
    b0: Seq<Seq<u8>>,
    b3: Seq<Seq<u8>>,
    sb: Superblock,
    c2: CacheView,
    c3: CacheView,
    po: u32,
    odir: Seq<u8>,
    oname: Seq<u8>,
    pn: u32,
    ndir: Seq<u8>,
    nname: Seq<u8>,
    new_path: Seq<u8>,
    res: Result<(), FsError>,
) -> bool {
    match res {
        Ok(_) => {
            &&& both_dirs(b0, sb, po, pn)
            &&& renamed(b0, b3, sb, c2, c3, po, odir, oname, pn, ndir, nname, new_path)
        },
        Err(e) => rename_failed(b0, b3, sb, c2, c3, po, oname, pn, nname, new_path, e),
    }
}

/// Whether `po` and `pn` are directories.
pub open spec fn both_dirs(b0: Seq<Seq<u8>>, sb: Superblock, po: u32, pn: u32) -> bool {
    &&& valid_ino(sb, po as int)
    &&& inode_at(b0, sb, po as int).dir()
    &&& valid_ino(sb, pn as int)
    &&& inode_at(b0, sb, pn as int).dir()
}

/// Why renaming `oname` of `po` to `nname` of `pn` fails, and what is left behind then.
#[verifier::opaque]
pub open spec fn rename_failed(
    b0: Seq<Seq<u8>>,
    b3: Seq<Seq<u8>>,
    sb: Superblock,
    c2: CacheView,
    c3: CacheView,
    po: u32,
    oname: Seq<u8>,
    pn: u32,
    nname: Seq<u8>,
    new_path: Seq<u8>,
    e: FsError,
) -> bool {
    let odirect = inode_at(b0, sb, po as int).direct;
    let same = b3 == b0 && c3 == c2;
    if !both_dirs(b0, sb, po, pn) {
        same && e == if valid_ino(sb, po as int) && (!inode_at(b0, sb, po as int).dir() || valid_ino(
            sb,
            pn as int,
        )) {
            FsError::InvalidPath
        } else {
            FsError::InvalidInode
        }
    } else if search_fails(b0, odirect, oname) {
        same && e == FsError::InvalidInode
    } else if entry_missing(b0, odirect, oname) {
        same && e == FsError::FileNotFound
    } else {
        exists|t: (u32, usize, u32)| #[trigger]
            entry_place(b0, odirect, oname, t) && if !valid_ino(sb, t.2 as int) {
                same && e == FsError::InvalidInode
            } else if inode_at(b0, sb, t.2 as int).dir() && po != pn {
                same && e == FsError::NotSupported
            } else {
                ||| way_blocked(b0, b3, sb, c2, c3, po, pn, nname, new_path, t.2, e)
                ||| {
                    &&& po != pn
                    &&& way_free(b0, b3, sb, c2, c3, pn, nname, new_path, t.2)
                    &&& entry_refused(b3, sb, c3, pn)
                    &&& e == FsError::InvalidInode
                }
            }
    }
}

/// Why `ino` cannot be given the name `nname` in `pn`, and what is left behind then: the
/// directory cannot be read, the name belongs to a directory or, in another directory, to the
/// file itself, or the file that has it cannot be removed.
pub open spec fn way_blocked(
    b0: Seq<Seq<u8>>,
    b1: Seq<Seq<u8>>,
    sb: Superblock,
    c0: CacheView,
    c1: CacheView,
    po: u32,
    pn: u32,
    nname: Seq<u8>,
    new_path: Seq<u8>,
    ino: u32,
    e: FsError,
) -> bool {
    let direct = inode_at(b0, sb, pn as int).direct;
    let same = b1 == b0 && c1 == c0;
    if search_fails(b0, direct, nname) {
        same && e == FsError::InvalidInode
    } else {
        exists|u: (u32, usize, u32)| #[trigger]
            entry_place(b0, direct, nname, u) && if u.2 == ino {
                same && po != pn && e == FsError::FileAlreadyExists
            } else if !valid_ino(sb, u.2 as int) {
                same && e == FsError::InvalidInode
            } else if inode_at(b0, sb, u.2 as int).dir() {
                same && e == FsError::FileAlreadyExists
            } else {
                remove_result(b0, b1, sb, true, c0, c1, new_path, Some(e))
            }
    }
}

/// What removing a file in the way gives.
pub open spec fn way_cleared(
    b0: Seq<Seq<u8>>,
    b1: Seq<Seq<u8>>,
    sb: Superblock,
    c0: CacheView,
    c1: CacheView,
    po: u32,
    pn: u32,
    ino: u32,
    nname: Seq<u8>,
    new_path: Seq<u8>,
    res: Result<bool, FsError>,
) -> bool {
    match res {
        Ok(true) => way_free(b0, b1, sb, c0, c1, pn, nname, new_path, ino),
        Ok(false) => {
            &&& po == pn
            &&& b1 == b0
            &&& c1 == c0
            &&& named_already(b0, sb, pn, nname, ino)
        },
        Err(e) => way_blocked(b0, b1, sb, c0, c1, po, pn, nname, new_path, ino, e),
    }
}

impl<D: BlockDeviceIO> TwilightFs<D> {
    /// Clears the entry at `t` of a directory.
    fn clear_dir_entry_slot(&mut self, parent: u32, t: (u32, usize, u32)) -> (res: Result<(), FsError>)
        requires
            old(self).wf(),
        ensures
            final(self).wf(),
            final(self).same_but_blocks(old(self)),
            match res {
                Ok(_) => entry_cleared(
                    old(self).blocks(),
                    final(self).blocks(),
                    old(self).superblock,
                    parent,
                    t,
                ) && valid_ino(old(self).superblock, parent as int) && t.1 + 64 <= 2048 && t.0 < old(
                    self,
                ).blocks().len(),
                Err(FsError::InvalidPath) => t.1 + 64 > 2048,
                Err(e) => e == FsError::InvalidInode && !(old(self).serves() && valid_ino(
                    old(self).superblock,
                    parent as int,
                ) && t.0 < old(self).blocks().len()),
            },
    {
        let mut dir: Inode = match self.read_inode(parent) {
            Ok(i) => i,
            Err(_) => return Err(FsError::InvalidInode),
        };
        let buf: Vec<u8> = match self.get_block(t.0) {
            Ok(b) => b,
            Err(e) => return Err(e),
        };
        if t.1 > 1984 {
            return Err(FsError::InvalidPath);
        }
        let mut blank: Vec<u8> = Vec::new();
        crate::bytes::push_repeat(&mut blank, 0, 64);
        proof {
            assert(blank@ =~= zero_entry());
        }
        let cleared: Vec<u8> = splice_vec(&buf, t.1, &blank);
        match self.put_block(t.0, &cleared) {
            Ok(_) => {},
            Err(e) => return Err(e),
        }
        if dir.size >= 64 {
            dir.size = dir.size - 64;
            match self.write_inode(parent, &dir) {
                Ok(_) => {},
                Err(_) => return Err(FsError::InvalidInode),
            }
        }
        Ok(())
    }

    /// Moves the entry at `t` of `po` to the name `name` in `pn`.
    fn move_entry(&mut self, po: u32, pn: u32, t: (u32, usize, u32), name: &[u8]) -> (res: Result<
        Ghost<(Seq<Seq<u8>>, CacheView)>,
        FsError,
    >)
        requires
            old(self).wf(),
            t.1 + 64 <= 2048,
            t.0 < old(self).blocks().len(),
            valid_ino(old(self).superblock, po as int),
        ensures
            final(self).wf(),
            final(self).same_volume(old(self)),
            final(self).shared.generation == old(self).shared.generation,
            match res {
                Ok(mid) => entry_moved(
                    old(self).blocks(),
                    mid@.0,
                    final(self).blocks(),
                    old(self).superblock,
                    old(self).shared@,
                    final(self).shared@,
                    po,
                    pn,
                    t,
                    name@,
                ) && mid@.1 == final(self).shared@,
                Err(e) => old(self).serves() ==> {
                    &&& e == FsError::InvalidInode
                    &&& po != pn
                    &&& entry_refused(old(self).blocks(), old(self).superblock, old(self).shared@, pn)
                    &&& final(self).blocks() == old(self).blocks()
                    &&& final(self).shared@ == old(self).shared@
                },
            },
    {
        let ghost mut mid = self.blocks();
        if po == pn {
            let buf: Vec<u8> = match self.get_block(t.0) {
                Ok(b) => b,
                Err(e) => return Err(e),
            };
            let field: Vec<u8> = make_name_field(name);
            let fresh: Vec<u8> = splice_vec(&buf, t.1 + 4, &field);
            match self.put_block(t.0, &fresh) {
                Ok(_) => {},
                Err(e) => return Err(e),
            }
        } else {
            match self.create_dir_entry(pn, name, t.2) {
                Ok(_) => {},
                Err(_) => return Err(FsError::InvalidInode),
            }
            proof {
                mid = self.blocks();
            }
            match self.clear_dir_entry_slot(po, t) {
                Ok(_) => {},
                Err(e) => return Err(e),
            }
        }
        Ok(Ghost((mid, self.shared@)))
    }

    /// Removes a file that has the name `nname` in `pn` already, so that `ino` can
    /// have it; false where `ino` has it.
    fn clear_way(&mut self, po: u32, pn: u32, ino: u32, nname: &Vec<u8>, new_path: &[u8]) -> (res:
        Result<bool, FsError>)
        requires
            old(self).wf(),
            valid_ino(old(self).superblock, pn as int),
        ensures
            final(self).wf(),
            final(self).same_volume(old(self)),
            final(self).shared.generation == old(self).shared.generation,
            old(self).serves() || res is Ok ==> way_cleared(
                old(self).blocks(),
                final(self).blocks(),
                old(self).superblock,
                old(self).shared@,
                final(self).shared@,
                po,
                pn,
                ino,
                nname@,
                new_path@,
                res,
            ),
    {
        match self.find_dir_entry_slot(pn, nname) {
            Ok(Some(u)) => {
                proof {
                    lemma_found_or_not(
                        self.blocks(),
                        inode_at(self.blocks(), self.superblock, pn as int).direct,
                        nname@,
                        u,
                    );
                }
                if u.2 != ino {
                    let existing: Inode = match self.read_inode(u.2) {
                        Ok(i) => i,
                        Err(_) => return Err(FsError::InvalidInode),
                    };
                    if existing.is_dir() {
                        return Err(FsError::FileAlreadyExists);
                    }
                    let ghost b0 = self.blocks();
                    let ghost c0 = self.shared@;
                    let r: Result<(), FsError> = self.remove_entry(new_path);
                    proof {
                        reveal(remove_result);
                        if self.serves() || r is Ok {
                            assert(remove_result(
                                b0,
                                self.blocks(),
                                self.superblock,
                                true,
                                c0,
                                self.shared@,
                                new_path@,
                                error_of(r),
                            ));
                            assert(entry_place(
                                b0,
                                inode_at(b0, self.superblock, pn as int).direct,
                                nname@,
                                u,
                            ));
                        }
                    }
                    match r {
                        Ok(_) => Ok(true),
                        Err(e) => Err(e),
                    }
                } else if po == pn {
                    Ok(false)
                } else {
                    Err(FsError::FileAlreadyExists)
                }
            },
            Ok(None) => Ok(true),
            Err(e) => Err(e),
        }
    }

    /// Renames `oname` of the directory `po` to `nname` of the directory `pn`.
    #[verifier::rlimit(60)]
    fn rename_in(
        &mut self,
        po: u32,
        odir: Vec<u8>,
        oname: Vec<u8>,
        pn: u32,
        ndir: Vec<u8>,
        nname: Vec<u8>,
        new_path: &[u8],
    ) -> (res: Result<(), FsError>)
        requires
            old(self).wf(),
        ensures
            final(self).wf(),
            final(self).same_volume(old(self)),
            final(self).shared.generation == old(self).shared.generation,
            old(self).serves() || res is Ok ==> rename_in_result(
                old(self).blocks(),
                final(self).blocks(),
                old(self).superblock,
                old(self).shared@,
                final(self).shared@,
                po,
                odir@,
                oname@,
                pn,
                ndir@,
                nname@,
                new_path@,
                res,
            ),
    {
        proof {
            reveal(rename_failed);
        }
        let ghost b0 = self.blocks();
        let ghost sb = self.superblock;
        let ghost c2 = self.shared@;
        let old_parent: Inode = match self.read_inode(po) {
            Ok(i) => i,
            Err(_) => return Err(FsError::InvalidInode),
        };
        if !old_parent.is_dir() {
            return Err(FsError::InvalidPath);
        }
        let new_parent: Inode = match self.read_inode(pn) {
            Ok(i) => i,
            Err(_) => return Err(FsError::InvalidInode),
        };
        if !new_parent.is_dir() {
            return Err(FsError::InvalidPath);
        }
        let t: (u32, usize, u32) = match self.find_dir_entry_slot(po, &oname) {
            Ok(Some(t)) => t,
            Ok(None) => {
                proof {
                    lemma_missing_or_not(b0, old_parent@.direct, oname@);
                }
                return Err(FsError::FileNotFound);
            },
            Err(e) => return Err(e),
        };
        proof {
            lemma_found_or_not(b0, old_parent@.direct, oname@, t);
        }
        let old_inode: Inode = match self.read_inode(t.2) {
            Ok(i) => i,
            Err(_) => return Err(FsError::InvalidInode),
        };
        if old_inode.is_dir() && po != pn {
            return Err(FsError::NotSupported);
        }
        match self.clear_way(po, pn, t.2, &nname, new_path) {
            Ok(true) => {},
            Ok(false) => {
                proof {
                        assert(renamed_at(
                            b0,
                            self.blocks(),
                            sb,
                            c2,
                            self.shared@,
                            po,
                            odir@,
                            oname@,
                            pn,
                            ndir@,
                            nname@,
                            new_path@,
                            t,
                        ));
                }
                return Ok(());
            },
            Err(e) => return Err(e),
        }
        let ghost b1 = self.blocks();
        let ghost c3 = self.shared@;
        proof {
            let s = choose|s: int| #[trigger] slot_found(b0, old_parent@.direct, oname@, s, t);
            assert(t.1 + 64 <= 2048);
        }
        let mid: Ghost<(Seq<Seq<u8>>, CacheView)> = match self.move_entry(po, pn, t, &nname) {
            Ok(m) => m,
            Err(e) => return Err(e),
        };
        let old_full: Vec<u8> = join_parent_and_name(&odir, &oname);
        let new_full: Vec<u8> = join_parent_and_name(&ndir, &nname);
        let ghost nn = nname@;
        if po == pn {
            self.shared.dir_index_rename(po, &oname, pn, nname, t.2);
        } else {
            self.shared.dir_index_remove(po, &oname);
        }
        self.shared.remove_lookup_prefix(&old_full);
        self.shared.remove_lookup_prefix(&new_full);
        proof {
                assert(rename_steps(
                    b0,
                    b1,
                    mid@.0,
                    self.blocks(),
                    sb,
                    c2,
                    c3,
                    mid@.1,
                    self.shared@,
                    po,
                    odir@,
                    oname@,
                    pn,
                    ndir@,
                    nn,
                    new_path@,
                    t,
                ));
                assert(renamed_at(
                    b0,
                    self.blocks(),
                    sb,
                    c2,
                    self.shared@,
                    po,
                    odir@,
                    oname@,
                    pn,
                    ndir@,
                    nn,
                    new_path@,
                    t,
                ));
        }
        Ok(())
    }

    /// Gives a file or a directory another name; a directory stays in its parent.
    pub fn rename_entry(&mut self, old_path: &[u8], new_path: &[u8]) -> (res: Result<(), FsError>)
        requires
            old(self).wf(),
        ensures
            final(self).wf(),
            final(self).same_volume(old(self)),
            final(self).shared.generation == old(self).shared.generation,
            old(self).serves() || res is Ok ==> rename_result(
                old(self).blocks(),
                final(self).blocks(),
                old(self).superblock,
                old(self).shared@,
                final(self).shared@,
                old_path@,
                new_path@,
                res,
            ),
            old_path@ == new_path@ ==> res is Ok,
    {
        if same(old_path, new_path) {
            return Ok(());
        }
        let ghost b0 = self.blocks();
        let ghost sb = self.superblock;
        let (odir, oname): (Vec<u8>, Vec<u8>) = match split_parent_and_name(old_path) {
            Ok(r) => r,
            Err(e) => return Err(e),
        };
        let (ndir, nname): (Vec<u8>, Vec<u8>) = match split_parent_and_name(new_path) {
            Ok(r) => r,
            Err(e) => return Err(e),
        };
        if oname.len() > 60 || nname.len() > 60 {
            return Err(FsError::FileNameTooLong);
        }
        proof {
            lemma_resolve_errors(b0, sb, self.shared@, segments(old_path@).drop_last());
        }
        let po: u32 = match self.resolve_path(&odir) {
            Ok(i) => i,
            Err(e) => return Err(e),
        };
        proof {
            lemma_resolve_errors(b0, sb, self.shared@, segments(new_path@).drop_last());
        }
        let pn: u32 = match self.resolve_path(&ndir) {
            Ok(i) => i,
            Err(e) => return Err(e),
        };
        self.rename_in(po, odir, oname, pn, ndir, nname, new_path)
    }
}

} // verus!
