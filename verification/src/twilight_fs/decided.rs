//! What an operation on names does is decided by the volume and by what is remembered.

use crate::twilight_fs::bitmap::{all_set, is_first_clear, with_bit_at};
use crate::twilight_fs::cache::dir_at;
use crate::twilight_fs::dir::{
    dir_known, entry_missing, entry_named, entry_place, is_first_named, search_fails, slot_found,
};
use crate::twilight_fs::fs::{inode_at, valid_ino, Superblock};
use crate::twilight_fs::inode::InodeView;
use crate::twilight_fs::names::{
    both_dirs, entry_moved, error_of, first_bad_zone, freed_in_part, in_the_way, lemma_found_or_not,
    lemma_missing_or_not, named_already, parent_and_name, path_removed, remove_refused, remove_result,
    removed_at, rename_failed, rename_in_result, rename_result, rename_steps, renamed, renamed_at,
    resolved, way_blocked, way_free,
};
use crate::twilight_fs::read::on_volume;
use crate::twilight_fs::shared::CacheView;
use crate::twilight_fs::tree::{
    comes_before, create_dir_result, create_file_result, dir_created, dir_full, dir_steps,
    dir_stuck, dot, dot_dot, entered, entry_added, entry_added_at, entry_free, entry_refused,
    file_steps, half_made, hint_of, is_insert_slot, lemma_zero_entry, no_room, node_inode,
    node_made, node_not_made, node_refused, slot_reached, slot_stuck, zone_there,
};
use crate::twilight_fs::volume::FsError;
use vstd::prelude::*;

verus! {

proof fn lemma_one_place(
    b: Seq<Seq<u8>>,
    direct: Seq<u32>,
    name: Seq<u8>,
    t: (u32, usize, u32),
    u: (u32, usize, u32),
)
    requires
        entry_place(b, direct, name, t),
        entry_place(b, direct, name, u),
    ensures
        t == u,
{
    let p = choose|s: int| #[trigger] slot_found(b, direct, name, s, t);
    let q = choose|s: int| #[trigger] slot_found(b, direct, name, s, u);
    assert(is_first_named(b, direct, name, p) && is_first_named(b, direct, name, q));
    if p < q {
        assert(entry_named(b, direct, name, p));
    } else if q < p {
        assert(entry_named(b, direct, name, q));
    }
}

proof fn lemma_one_comes_first(hint: int, s: int, q: int)
    requires
        0 <= s < 384,
        0 <= q < 384,
        0 <= hint <= 384,
        s != q,
    ensures
        comes_before(hint, s, q) || comes_before(hint, q, s),
{
}

/// An entry is put into one place, and what comes of it is one.
proof fn lemma_added_once(
    b0: Seq<Seq<u8>>,
    b1: Seq<Seq<u8>>,
    b2: Seq<Seq<u8>>,
    sb: Superblock,
    c0: CacheView,
    c1: CacheView,
    c2: CacheView,
    parent: u32,
    name: Seq<u8>,
    child: u32,
)
    requires
        entry_added(b0, b1, sb, c0, c1, parent, name, child),
        entry_added(b0, b2, sb, c0, c2, parent, name, child),
    ensures
        b1 == b2,
        c1 == c2,
{
    let (s, z) = choose|s: int, z: u32| #[trigger]
        entry_added_at(b0, b1, sb, c0, c1, parent, name, child, s, z);
    let (q, y) = choose|s: int, z: u32| #[trigger]
        entry_added_at(b0, b2, sb, c0, c2, parent, name, child, s, z);
    let dir = inode_at(b0, sb, parent as int);
    let hint = hint_of(c0, parent);
    assert(is_insert_slot(b0, dir, hint, s) && is_insert_slot(b0, dir, hint, q));
    if s != q {
        lemma_one_comes_first(hint, s, q);
    }
    if dir.direct[s / 32] == 0 {
        assert(is_first_clear(b0, sb.zmap(), sb.data_zones(), z - sb.first_data_zone));
        assert(is_first_clear(b0, sb.zmap(), sb.data_zones(), y - sb.first_data_zone));
        assert(z == y);
    }
}

/// A directory that takes an entry does not refuse it.
proof fn lemma_added_or_refused(
    b0: Seq<Seq<u8>>,
    b1: Seq<Seq<u8>>,
    sb: Superblock,
    c0: CacheView,
    c1: CacheView,
    parent: u32,
    name: Seq<u8>,
    child: u32,
)
    requires
        valid_ino(sb, parent as int),
        entry_added(b0, b1, sb, c0, c1, parent, name, child),
    ensures
        !entry_refused(b0, sb, c0, parent),
{
    let (s, z) = choose|s: int, z: u32| #[trigger]
        entry_added_at(b0, b1, sb, c0, c1, parent, name, child, s, z);
    let dir = inode_at(b0, sb, parent as int);
    let hint = hint_of(c0, parent);
    assert(is_insert_slot(b0, dir, hint, s));
    if entry_refused(b0, sb, c0, parent) {
        assert(!dir_full(b0, dir)) by {
            assert(entry_free(b0, dir, s));
        }
        let q = choose|q: int| #[trigger] slot_stuck(b0, sb, dir, hint, q);
        assert(slot_reached(b0, dir, hint, q));
        if q != s {
            lemma_one_comes_first(hint, s, q);
            assert(!comes_before(hint, s, q));
            assert(zone_there(b0, dir, q) && !entry_free(b0, dir, q));
            lemma_zero_entry(q % 32);
        }
    }
}

/// An entry that is found is neither missing nor cut off.
proof fn lemma_found_alone(b: Seq<Seq<u8>>, sb: Superblock, ino: u32, name: Seq<u8>)
    ensures
        ({
            let direct = inode_at(b, sb, ino as int).direct;
            &&& entry_missing(b, direct, name) ==> !search_fails(b, direct, name)
            &&& forall|t: (u32, usize, u32)| #[trigger]
                entry_place(b, direct, name, t) ==> !search_fails(b, direct, name) && !entry_missing(
                    b,
                    direct,
                    name,
                )
            &&& forall|t: (u32, usize, u32), u: (u32, usize, u32)|
                #![trigger entry_place(b, direct, name, t), entry_place(b, direct, name, u)]
                entry_place(b, direct, name, t) && entry_place(b, direct, name, u) ==> t == u
        }),
{
    let direct = inode_at(b, sb, ino as int).direct;
    if entry_missing(b, direct, name) {
        lemma_missing_or_not(b, direct, name);
    }
    assert forall|t: (u32, usize, u32)| #[trigger] entry_place(b, direct, name, t) implies !search_fails(
        b,
        direct,
        name,
    ) && !entry_missing(b, direct, name) by {
        lemma_found_or_not(b, direct, name, t);
    }
    assert forall|t: (u32, usize, u32), u: (u32, usize, u32)|
        #![trigger entry_place(b, direct, name, t), entry_place(b, direct, name, u)]
        entry_place(b, direct, name, t) && entry_place(b, direct, name, u) implies t == u by {
        lemma_one_place(b, direct, name, t, u);
    }
}

/// What removing a path does, on a volume that carries out every request, is decided: whether
/// it succeeds or which error it gives, what the blocks hold and what is remembered then.
pub proof fn lemma_remove_decided(
    b0: Seq<Seq<u8>>,
    b1: Seq<Seq<u8>>,
    b2: Seq<Seq<u8>>,
    sb: Superblock,
    c0: CacheView,
    c1: CacheView,
    c2: CacheView,
    path: Seq<u8>,
    r1: Option<FsError>,
    r2: Option<FsError>,
)
    requires
        remove_result(b0, b1, sb, true, c0, c1, path, r1),
        remove_result(b0, b2, sb, true, c0, c2, path, r2),
    ensures
        r1 == r2,
        b1 == b2,
        c1 == c2,
{
    reveal(remove_result);
    let parts = crate::paths::segments(path);
    let name = parts.last();
    let (r, c) = crate::twilight_fs::names::parent_resolved(b0, sb, c0, parts.drop_last());
    if parts.len() > 0 && r is Ok {
        let parent = r->Ok_0;
        lemma_found_alone(b0, sb, parent, name);
        let direct = inode_at(b0, sb, parent as int).direct;
        let dir_path = crate::paths::absolute(parts.drop_last());
        if r1 is None && r2 is None {
            let t = choose|t: (u32, usize, u32)| #[trigger]
                removed_at(b0, b1, sb, c, c1, parent, dir_path, name, t);
            let u = choose|t: (u32, usize, u32)| #[trigger]
                removed_at(b0, b2, sb, c, c2, parent, dir_path, name, t);
            assert(t == u);
        } else if r1 is None {
            lemma_removed_or_refused(b0, b1, b2, sb, c, c1, parent, dir_path, name);
        } else if r2 is None {
            lemma_removed_or_refused(b0, b2, b1, sb, c, c2, parent, dir_path, name);
        } else if r1 == Some(FsError::InvalidInode) && r2 == Some(FsError::InvalidInode) {
            lemma_refused_once(b0, b1, b2, sb, parent, name);
        }
    }
}

proof fn lemma_removed_or_refused(
    b0: Seq<Seq<u8>>,
    b1: Seq<Seq<u8>>,
    b2: Seq<Seq<u8>>,
    sb: Superblock,
    c: CacheView,
    c1: CacheView,
    parent: u32,
    dir_path: Seq<u8>,
    name: Seq<u8>,
)
    requires
        valid_ino(sb, parent as int),
        path_removed(b0, b1, sb, c, c1, parent, dir_path, name),
    ensures
        !remove_refused(b0, b2, sb, parent, name),
        !entry_missing(b0, inode_at(b0, sb, parent as int).direct, name),
{
    lemma_found_alone(b0, sb, parent, name);
    let direct = inode_at(b0, sb, parent as int).direct;
    let t = choose|t: (u32, usize, u32)| #[trigger]
        removed_at(b0, b1, sb, c, c1, parent, dir_path, name, t);
    assert(entry_place(b0, direct, name, t));
    let node = inode_at(b0, sb, t.2 as int).direct;
    if freed_in_part(b0, b2, sb, node) {
        let k = choose|k: int| #[trigger] first_bad_zone(sb, node, k);
        assert(node[k] != 0);
    }
}

proof fn lemma_refused_once(
    b0: Seq<Seq<u8>>,
    b1: Seq<Seq<u8>>,
    b2: Seq<Seq<u8>>,
    sb: Superblock,
    parent: u32,
    name: Seq<u8>,
)
    requires
        remove_refused(b0, b1, sb, parent, name),
        remove_refused(b0, b2, sb, parent, name),
    ensures
        b1 == b2,
{
    lemma_found_alone(b0, sb, parent, name);
    let direct = inode_at(b0, sb, parent as int).direct;
    if valid_ino(sb, parent as int) && !search_fails(b0, direct, name) {
        let t = choose|t: (u32, usize, u32)| #[trigger] entry_place(b0, direct, name, t);
        let node = inode_at(b0, sb, t.2 as int).direct;
        if valid_ino(sb, t.2 as int) {
            let j = choose|k: int| #[trigger]
                first_bad_zone(sb, node, k) && b1 == crate::twilight_fs::names::zones_freed(b0, sb, node, k);
            let k = choose|k: int| #[trigger]
                first_bad_zone(sb, node, k) && b2 == crate::twilight_fs::names::zones_freed(b0, sb, node, k);
            if j < k {
                assert(node[j] != 0);
            } else if k < j {
                assert(node[k] != 0);
            }
        }
    }
}

/// Whether the way to a new name is free, and what clearing it did, is decided.
proof fn lemma_way_decided(
    b0: Seq<Seq<u8>>,
    b1: Seq<Seq<u8>>,
    b2: Seq<Seq<u8>>,
    sb: Superblock,
    c0: CacheView,
    c1: CacheView,
    c2: CacheView,
    po: u32,
    pn: u32,
    nname: Seq<u8>,
    new_path: Seq<u8>,
    ino: u32,
)
    ensures
        way_free(b0, b1, sb, c0, c1, pn, nname, new_path, ino) && way_free(
            b0,
            b2,
            sb,
            c0,
            c2,
            pn,
            nname,
            new_path,
            ino,
        ) ==> b1 == b2 && c1 == c2,
        way_free(b0, b1, sb, c0, c1, pn, nname, new_path, ino) ==> !named_already(
            b0,
            sb,
            pn,
            nname,
            ino,
        ) && forall|e: FsError| !#[trigger]
            way_blocked(b0, b2, sb, c0, c2, po, pn, nname, new_path, ino, e),
        po == pn && named_already(b0, sb, pn, nname, ino) ==> forall|e: FsError| !#[trigger]
            way_blocked(b0, b2, sb, c0, c2, po, pn, nname, new_path, ino, e),
{
    let direct = inode_at(b0, sb, pn as int).direct;
    lemma_found_alone(b0, sb, pn, nname);
    if way_free(b0, b1, sb, c0, c1, pn, nname, new_path, ino) {
        if in_the_way(b0, sb, direct, nname, ino) {
            if way_free(b0, b2, sb, c0, c2, pn, nname, new_path, ino) {
                lemma_remove_decided(b0, b1, b2, sb, c0, c1, c2, new_path, None, None);
            }
            assert forall|e: FsError| !#[trigger] way_blocked(
                b0,
                b2,
                sb,
                c0,
                c2,
                po,
                pn,
                nname,
                new_path,
                ino,
                e,
            ) by {
                if remove_result(b0, b2, sb, true, c0, c2, new_path, Some(e)) {
                    lemma_remove_decided(b0, b1, b2, sb, c0, c1, c2, new_path, None, Some(e));
                }
            }
        }
    }
}

/// Only one error can stand in the way, and it leaves one state behind.
proof fn lemma_blocked_once(
    b0: Seq<Seq<u8>>,
    b1: Seq<Seq<u8>>,
    b2: Seq<Seq<u8>>,
    sb: Superblock,
    c0: CacheView,
    c1: CacheView,
    c2: CacheView,
    po: u32,
    pn: u32,
    nname: Seq<u8>,
    new_path: Seq<u8>,
    ino: u32,
    e: FsError,
    f: FsError,
)
    requires
        way_blocked(b0, b1, sb, c0, c1, po, pn, nname, new_path, ino, e),
        way_blocked(b0, b2, sb, c0, c2, po, pn, nname, new_path, ino, f),
    ensures
        e == f,
        b1 == b2,
        c1 == c2,
{
    lemma_found_alone(b0, sb, pn, nname);
    if remove_result(b0, b1, sb, true, c0, c1, new_path, Some(e)) && remove_result(
        b0,
        b2,
        sb,
        true,
        c0,
        c2,
        new_path,
        Some(f),
    ) {
        lemma_remove_decided(b0, b1, b2, sb, c0, c1, c2, new_path, Some(e), Some(f));
    }
}

/// A renaming that succeeds is one thing.
proof fn lemma_renamed_once(
    b0: Seq<Seq<u8>>,
    b3: Seq<Seq<u8>>,
    b4: Seq<Seq<u8>>,
    sb: Superblock,
    c0: CacheView,
    c3: CacheView,
    c4: CacheView,
    po: u32,
    odir: Seq<u8>,
    oname: Seq<u8>,
    pn: u32,
    ndir: Seq<u8>,
    nname: Seq<u8>,
    new_path: Seq<u8>,
)
    requires
        renamed(b0, b3, sb, c0, c3, po, odir, oname, pn, ndir, nname, new_path),
        renamed(b0, b4, sb, c0, c4, po, odir, oname, pn, ndir, nname, new_path),
    ensures
        b3 == b4,
        c3 == c4,
{
    lemma_found_alone(b0, sb, po, oname);
    let t = choose|t: (u32, usize, u32)| #[trigger]
        renamed_at(b0, b3, sb, c0, c3, po, odir, oname, pn, ndir, nname, new_path, t);
    let u = choose|t: (u32, usize, u32)| #[trigger]
        renamed_at(b0, b4, sb, c0, c4, po, odir, oname, pn, ndir, nname, new_path, t);
    assert(t == u);
    let stays = po == pn && named_already(b0, sb, pn, nname, t.2);
    if exists|b1: Seq<Seq<u8>>, b2: Seq<Seq<u8>>, c1: CacheView, c2: CacheView| #[trigger]
        rename_steps(b0, b1, b2, b3, sb, c0, c1, c2, c3, po, odir, oname, pn, ndir, nname, new_path, t) {
        let (b1, b2, c1, c2) = choose|
            b1: Seq<Seq<u8>>,
            b2: Seq<Seq<u8>>,
            c1: CacheView,
            c2: CacheView,
        | #[trigger]
            rename_steps(b0, b1, b2, b3, sb, c0, c1, c2, c3, po, odir, oname, pn, ndir, nname, new_path, t);
        lemma_way_decided(b0, b1, b0, sb, c0, c1, c0, po, pn, nname, new_path, t.2);
        assert(!stays);
        let (d1, d2, e1, e2) = choose|
            b1: Seq<Seq<u8>>,
            b2: Seq<Seq<u8>>,
            c1: CacheView,
            c2: CacheView,
        | #[trigger]
            rename_steps(b0, b1, b2, b4, sb, c0, c1, c2, c4, po, odir, oname, pn, ndir, nname, new_path, t);
        lemma_way_decided(b0, b1, d1, sb, c0, c1, e1, po, pn, nname, new_path, t.2);
        if po != pn {
            lemma_added_once(b1, b2, d2, sb, c1, c2, e2, pn, nname, t.2);
        }
    } else {
        assert(stays);
        if exists|b1: Seq<Seq<u8>>, b2: Seq<Seq<u8>>, c1: CacheView, c2: CacheView| #[trigger]
            rename_steps(b0, b1, b2, b4, sb, c0, c1, c2, c4, po, odir, oname, pn, ndir, nname, new_path, t) {
            let (d1, d2, e1, e2) = choose|
                b1: Seq<Seq<u8>>,
                b2: Seq<Seq<u8>>,
                c1: CacheView,
                c2: CacheView,
            | #[trigger]
                rename_steps(b0, b1, b2, b4, sb, c0, c1, c2, c4, po, odir, oname, pn, ndir, nname, new_path, t);
            lemma_way_decided(b0, d1, b0, sb, c0, e1, c0, po, pn, nname, new_path, t.2);
        }
    }
}

/// A renaming that succeeds does not fail.
proof fn lemma_renamed_or_failed(
    b0: Seq<Seq<u8>>,
    b3: Seq<Seq<u8>>,
    b4: Seq<Seq<u8>>,
    sb: Superblock,
    c0: CacheView,
    c3: CacheView,
    c4: CacheView,
    po: u32,
    odir: Seq<u8>,
    oname: Seq<u8>,
    pn: u32,
    ndir: Seq<u8>,
    nname: Seq<u8>,
    new_path: Seq<u8>,
    e: FsError,
)
    requires
        both_dirs(b0, sb, po, pn),
        renamed(b0, b3, sb, c0, c3, po, odir, oname, pn, ndir, nname, new_path),
    ensures
        !rename_failed(b0, b4, sb, c0, c4, po, oname, pn, nname, new_path, e),
{
    reveal(rename_failed);
    lemma_found_alone(b0, sb, po, oname);
    let t = choose|t: (u32, usize, u32)| #[trigger]
        renamed_at(b0, b3, sb, c0, c3, po, odir, oname, pn, ndir, nname, new_path, t);
    assert(entry_place(b0, inode_at(b0, sb, po as int).direct, oname, t));
    if po == pn && named_already(b0, sb, pn, nname, t.2) {
        lemma_way_decided(b0, b0, b4, sb, c0, c0, c4, po, pn, nname, new_path, t.2);
    } else {
        let (b1, b2, c1, c2) = choose|
            b1: Seq<Seq<u8>>,
            b2: Seq<Seq<u8>>,
            c1: CacheView,
            c2: CacheView,
        | #[trigger]
            rename_steps(b0, b1, b2, b3, sb, c0, c1, c2, c3, po, odir, oname, pn, ndir, nname, new_path, t);
        lemma_way_decided(b0, b1, b4, sb, c0, c1, c4, po, pn, nname, new_path, t.2);
        if po != pn {
            assert(entry_moved(b1, b2, b3, sb, c1, c2, po, pn, t, nname));
            lemma_added_or_refused(b1, b2, sb, c1, c2, pn, nname, t.2);
        }
    }
}

/// A renaming fails in one way.
proof fn lemma_failed_once(
    b0: Seq<Seq<u8>>,
    b3: Seq<Seq<u8>>,
    b4: Seq<Seq<u8>>,
    sb: Superblock,
    c0: CacheView,
    c3: CacheView,
    c4: CacheView,
    po: u32,
    oname: Seq<u8>,
    pn: u32,
    nname: Seq<u8>,
    new_path: Seq<u8>,
    e: FsError,
    f: FsError,
)
    requires
        rename_failed(b0, b3, sb, c0, c3, po, oname, pn, nname, new_path, e),
        rename_failed(b0, b4, sb, c0, c4, po, oname, pn, nname, new_path, f),
    ensures
        e == f,
        b3 == b4,
        c3 == c4,
{
    reveal(rename_failed);
    lemma_found_alone(b0, sb, po, oname);
    let direct = inode_at(b0, sb, po as int).direct;
    if both_dirs(b0, sb, po, pn) && !search_fails(b0, direct, oname) && !entry_missing(
        b0,
        direct,
        oname,
    ) {
        let t = choose|t: (u32, usize, u32)| #[trigger] entry_place(b0, direct, oname, t);
        lemma_way_decided(b0, b3, b4, sb, c0, c3, c4, po, pn, nname, new_path, t.2);
        lemma_way_decided(b0, b4, b3, sb, c0, c4, c3, po, pn, nname, new_path, t.2);
        if way_blocked(b0, b3, sb, c0, c3, po, pn, nname, new_path, t.2, e) && way_blocked(
            b0,
            b4,
            sb,
            c0,
            c4,
            po,
            pn,
            nname,
            new_path,
            t.2,
            f,
        ) {
            lemma_blocked_once(b0, b3, b4, sb, c0, c3, c4, po, pn, nname, new_path, t.2, e, f);
        }
    }
}

/// What renaming a path does, on a volume that carries out every request, is decided: whether
/// it succeeds or which error it gives, what the blocks hold and what is remembered then.
pub proof fn lemma_rename_decided(
    b0: Seq<Seq<u8>>,
    b3: Seq<Seq<u8>>,
    b4: Seq<Seq<u8>>,
    sb: Superblock,
    c0: CacheView,
    c3: CacheView,
    c4: CacheView,
    old_path: Seq<u8>,
    new_path: Seq<u8>,
    r3: Result<(), FsError>,
    r4: Result<(), FsError>,
)
    requires
        rename_result(b0, b3, sb, c0, c3, old_path, new_path, r3),
        rename_result(b0, b4, sb, c0, c4, old_path, new_path, r4),
    ensures
        error_of(r3) == error_of(r4),
        b3 == b4,
        c3 == c4,
{
    let a = parent_and_name(old_path);
    let b = parent_and_name(new_path);
    if old_path != new_path && a is Some && b is Some {
        let (odir, oname) = a->0;
        let (ndir, nname) = b->0;
        let (r1, c1) = resolved(b0, sb, c0, odir);
        let (r2, c2) = resolved(b0, sb, c1, ndir);
        if oname.len() <= 60 && nname.len() <= 60 && r1 is Ok && r2 is Ok {
            let po = r1->Ok_0;
            let pn = r2->Ok_0;
            assert(rename_in_result(b0, b3, sb, c2, c3, po, odir, oname, pn, ndir, nname, new_path, r3));
            assert(rename_in_result(b0, b4, sb, c2, c4, po, odir, oname, pn, ndir, nname, new_path, r4));
            if r3 is Ok && r4 is Ok {
                lemma_renamed_once(b0, b3, b4, sb, c2, c3, c4, po, odir, oname, pn, ndir, nname, new_path);
            } else if r3 is Ok {
                lemma_renamed_or_failed(
                    b0, b3, b4, sb, c2, c3, c4, po, odir, oname, pn, ndir, nname, new_path, r4->Err_0,
                );
            } else if r4 is Ok {
                lemma_renamed_or_failed(
                    b0, b4, b3, sb, c2, c4, c3, po, odir, oname, pn, ndir, nname, new_path, r3->Err_0,
                );
            } else {
                lemma_failed_once(
                    b0, b3, b4, sb, c2, c3, c4, po, oname, pn, nname, new_path, r3->Err_0, r4->Err_0,
                );
            }
        }
    }
}

/// A node is made in one way.
proof fn lemma_made_once(
    b0: Seq<Seq<u8>>,
    b1: Seq<Seq<u8>>,
    b2: Seq<Seq<u8>>,
    sb: Superblock,
    node: InodeView,
    n: u32,
    z: u32,
    m: u32,
    y: u32,
)
    requires
        node_made(b0, b1, sb, node, n, z),
        node_made(b0, b2, sb, node, m, y),
    ensures
        n == m,
        z == y,
        b1 == b2,
{
    assert(is_first_clear(b0, 1, sb.ninodes as int, n - 1));
    assert(is_first_clear(b0, 1, sb.ninodes as int, m - 1));
    assert(n == m);
}

/// A node that is made can be made, and where none can be made one state is left behind.
proof fn lemma_made_or_not(b0: Seq<Seq<u8>>, b1: Seq<Seq<u8>>, b2: Seq<Seq<u8>>, sb: Superblock)
    ensures
        node_not_made(b0, b1, sb) && node_not_made(b0, b2, sb) ==> b1 == b2,
        node_not_made(b0, b1, sb) ==> forall|b3: Seq<Seq<u8>>, node: InodeView, n: u32, z: u32| !#[trigger]
            node_made(b0, b3, sb, node, n, z),
{
    if node_not_made(b0, b1, sb) {
        assert forall|b3: Seq<Seq<u8>>, node: InodeView, n: u32, z: u32| !#[trigger]
            node_made(b0, b3, sb, node, n, z) by {
            if node_made(b0, b3, sb, node, n, z) {
                assert(is_first_clear(b0, 1, sb.ninodes as int, n - 1));
                assert(!all_set(b0, 1, sb.ninodes as int));
                assert(b1 == with_bit_at(b0, 1, n - 1, true));
            }
        }
    }
}

/// The outcomes of making a file that leave no file behind.
proof fn lemma_no_room_once(
    b0: Seq<Seq<u8>>,
    b1: Seq<Seq<u8>>,
    b2: Seq<Seq<u8>>,
    sb: Superblock,
    c0: CacheView,
    c1: CacheView,
    c2: CacheView,
    node: InodeView,
    parent: u32,
    name: Seq<u8>,
)
    requires
        no_room(b0, b1, sb, c0, c1, node, parent, name),
        no_room(b0, b2, sb, c0, c2, node, parent, name),
    ensures
        b1 == b2,
        c1 == c2,
{
    lemma_made_or_not(b0, b1, b2, sb);
    lemma_made_or_not(b0, b2, b1, sb);
    if node_refused(b0, b1, sb, c1, node, parent) && node_refused(b0, b2, sb, c2, node, parent) {
        let (n, z) = choose|n: u32, z: u32| #[trigger] node_made(b0, b1, sb, node, n, z);
        let (m, y) = choose|n: u32, z: u32| #[trigger] node_made(b0, b2, sb, node, n, z);
        lemma_made_once(b0, b1, b2, sb, node, n, z, m, y);
    }
}

/// A node that was made and entered found room.
proof fn lemma_room_or_not(
    b0: Seq<Seq<u8>>,
    b1: Seq<Seq<u8>>,
    b2: Seq<Seq<u8>>,
    b3: Seq<Seq<u8>>,
    sb: Superblock,
    c0: CacheView,
    c1: CacheView,
    c2: CacheView,
    c3: CacheView,
    node: InodeView,
    parent: u32,
    name: Seq<u8>,
    n: u32,
    z: u32,
)
    requires
        valid_ino(sb, parent as int),
        dir_at(c0.dirs, parent) is Some || on_volume(b0, inode_at(b0, sb, parent as int).direct),
        c1 == dir_known(b0, c0, parent, inode_at(b0, sb, parent as int).direct),
        entered(b0, b1, b2, sb, c1, c2, node, parent, name, n, z),
    ensures
        !no_room(b0, b3, sb, c0, c3, node, parent, name),
{
    lemma_made_or_not(b0, b3, b3, sb);
    lemma_added_or_refused(b1, b2, sb, c1, c2, parent, name, n);
    if node_refused(b0, b3, sb, c1, node, parent) {
        let (m, y) = choose|n: u32, z: u32| #[trigger] node_made(b0, b3, sb, node, n, z);
        lemma_made_once(b0, b1, b3, sb, node, n, z, m, y);
    }
}

/// What making a file does, on a volume that carries out every request, is decided.
pub proof fn lemma_create_file_decided(
    b0: Seq<Seq<u8>>,
    b1: Seq<Seq<u8>>,
    b2: Seq<Seq<u8>>,
    sb: Superblock,
    c0: CacheView,
    c1: CacheView,
    c2: CacheView,
    parent: u32,
    name: Seq<u8>,
    mode: u16,
    time: u64,
    r1: Result<u32, FsError>,
    r2: Result<u32, FsError>,
)
    requires
        create_file_result(b0, b1, sb, true, c0, c1, parent, name, mode, time, r1),
        create_file_result(b0, b2, sb, true, c0, c2, parent, name, mode, time, r2),
    ensures
        r1 == r2,
        b1 == b2,
        c1 == c2,
{
    let p = inode_at(b0, sb, parent as int);
    let node = node_inode(p, false, mode, time);
    let c = dir_known(b0, c0, parent, p.direct);
    if r1 is Ok {
        let n = r1->Ok_0;
        let (d, z) = choose|d: Seq<Seq<u8>>, z: u32| #[trigger]
            file_steps(b0, d, b1, sb, c0, c1, parent, name, mode, time, n, z);
        assert(entered(b0, d, b1, sb, c, c1, node, parent, name, n, z));
        lemma_room_or_not(b0, d, b1, b2, sb, c0, c, c1, c2, node, parent, name, n, z);
        if r2 is Ok {
            let m = r2->Ok_0;
            let (e, y) = choose|d: Seq<Seq<u8>>, z: u32| #[trigger]
                file_steps(b0, d, b2, sb, c0, c2, parent, name, mode, time, m, z);
            lemma_made_once(b0, d, e, sb, node, n, z, m, y);
            lemma_added_once(d, b1, b2, sb, c, c1, c2, parent, name, n);
        }
    } else if r2 is Ok {
        let n = r2->Ok_0;
        let (d, z) = choose|d: Seq<Seq<u8>>, z: u32| #[trigger]
            file_steps(b0, d, b2, sb, c0, c2, parent, name, mode, time, n, z);
        assert(entered(b0, d, b2, sb, c, c2, node, parent, name, n, z));
        lemma_room_or_not(b0, d, b2, b1, sb, c0, c, c2, c1, node, parent, name, n, z);
    } else if r1 == Err::<u32, FsError>(FsError::InvalidInode) && r2 == Err::<u32, FsError>(
        FsError::InvalidInode,
    ) {
        lemma_no_room_once(b0, b1, b2, sb, c0, c1, c2, node, parent, name);
    }
}

/// A new directory is entered in one way.
proof fn lemma_entered_once(
    b0: Seq<Seq<u8>>,
    b1: Seq<Seq<u8>>,
    b2: Seq<Seq<u8>>,
    d1: Seq<Seq<u8>>,
    d2: Seq<Seq<u8>>,
    sb: Superblock,
    c1: CacheView,
    c2: CacheView,
    e2: CacheView,
    node: InodeView,
    parent: u32,
    name: Seq<u8>,
    n: u32,
    z: u32,
    m: u32,
    y: u32,
)
    requires
        entered(b0, b1, b2, sb, c1, c2, node, parent, name, n, z),
        entered(b0, d1, d2, sb, c1, e2, node, parent, name, m, y),
    ensures
        n == m,
        b2 == d2,
        c2 == e2,
        valid_ino(sb, n as int),
{
    lemma_made_once(b0, b1, d1, sb, node, n, z, m, y);
    lemma_added_once(b1, b2, d2, sb, c1, c2, e2, parent, name, n);
    assert(is_first_clear(b0, 1, sb.ninodes as int, n - 1));
}

/// A directory that got its own entries is not stuck, and one that is stuck is so in one way.
proof fn lemma_stuck_or_not(
    b0: Seq<Seq<u8>>,
    b4: Seq<Seq<u8>>,
    d4: Seq<Seq<u8>>,
    sb: Superblock,
    c0: CacheView,
    c4: CacheView,
    e4: CacheView,
    parent: u32,
    name: Seq<u8>,
    mode: u16,
    time: u64,
)
    requires
        ({
            let p = inode_at(b0, sb, parent as int);
            let c = dir_known(b0, c0, parent, p.direct);
            dir_stuck(b0, d4, sb, c, e4, node_inode(p, true, mode, time), parent, name)
        }),
    ensures
        ({
            let p = inode_at(b0, sb, parent as int);
            let c = dir_known(b0, c0, parent, p.direct);
            &&& forall|n: u32| !#[trigger]
                dir_created(b0, b4, sb, c0, c4, parent, name, mode, time, n)
            &&& dir_stuck(b0, b4, sb, c, c4, node_inode(p, true, mode, time), parent, name) ==> b4 == d4
                && c4 == e4
        }),
{
    let p = inode_at(b0, sb, parent as int);
    let c = dir_known(b0, c0, parent, p.direct);
    let node = node_inode(p, true, mode, time);
    let (d1, d2, e2, m, y) = choose|
        b1: Seq<Seq<u8>>,
        b2: Seq<Seq<u8>>,
        c2: CacheView,
        n: u32,
        z: u32,
    | #[trigger]
        entered(b0, b1, b2, sb, c, c2, node, parent, name, n, z) && entry_refused(d4, sb, e4, n) && ((
        d4 == b2 && e4 == c2) || half_made(b2, d4, sb, c2, e4, n));
    assert forall|n: u32| !#[trigger]
        dir_created(b0, b4, sb, c0, c4, parent, name, mode, time, n) by {
        if dir_created(b0, b4, sb, c0, c4, parent, name, mode, time, n) {
            let (b1, b2, b3, c2, c3, z) = choose|
                b1: Seq<Seq<u8>>,
                b2: Seq<Seq<u8>>,
                b3: Seq<Seq<u8>>,
                c2: CacheView,
                c3: CacheView,
                z: u32,
            | #[trigger]
                dir_steps(b0, b1, b2, b3, b4, sb, c0, c2, c3, c4, parent, name, mode, time, n, z);
            assert(entered(b0, b1, b2, sb, c, c2, node, parent, name, n, z));
            lemma_entered_once(b0, b1, b2, d1, d2, sb, c, c2, e2, node, parent, name, n, z, m, y);
            lemma_added_or_refused(b2, b3, sb, c2, c3, n, dot(), n);
            lemma_added_or_refused(b3, b4, sb, c3, c4, n, dot_dot(), parent);
            if half_made(d2, d4, sb, e2, e4, m) {
                lemma_added_once(b2, b3, d4, sb, c2, c3, e4, n, dot(), n);
            }
        }
    }
    if dir_stuck(b0, b4, sb, c, c4, node, parent, name) {
        let (b1, b2, c2, n, z) = choose|
            b1: Seq<Seq<u8>>,
            b2: Seq<Seq<u8>>,
            c2: CacheView,
            n: u32,
            z: u32,
        | #[trigger]
            entered(b0, b1, b2, sb, c, c2, node, parent, name, n, z) && entry_refused(b4, sb, c4, n) && ((
            b4 == b2 && c4 == c2) || half_made(b2, b4, sb, c2, c4, n));
        lemma_entered_once(b0, b1, b2, d1, d2, sb, c, c2, e2, node, parent, name, n, z, m, y);
        if half_made(b2, b4, sb, c2, c4, n) {
            lemma_added_or_refused(b2, b4, sb, c2, c4, n, dot(), n);
            if half_made(d2, d4, sb, e2, e4, m) {
                lemma_added_once(b2, b4, d4, sb, c2, c4, e4, n, dot(), n);
            }
        } else if half_made(d2, d4, sb, e2, e4, m) {
            lemma_added_or_refused(d2, d4, sb, e2, e4, m, dot(), m);
        }
    }
}

/// A directory that was entered, whether it is stuck or not, found room.
proof fn lemma_dir_room(
    b0: Seq<Seq<u8>>,
    b4: Seq<Seq<u8>>,
    d4: Seq<Seq<u8>>,
    sb: Superblock,
    c0: CacheView,
    c4: CacheView,
    e4: CacheView,
    parent: u32,
    name: Seq<u8>,
    mode: u16,
    time: u64,
    n: u32,
)
    requires
        valid_ino(sb, parent as int),
        dir_at(c0.dirs, parent) is Some || on_volume(b0, inode_at(b0, sb, parent as int).direct),
        ({
            let p = inode_at(b0, sb, parent as int);
            let c = dir_known(b0, c0, parent, p.direct);
            ||| dir_created(b0, b4, sb, c0, c4, parent, name, mode, time, n)
            ||| dir_stuck(b0, b4, sb, c, c4, node_inode(p, true, mode, time), parent, name)
        }),
    ensures
        !no_room(
            b0,
            d4,
            sb,
            c0,
            e4,
            node_inode(inode_at(b0, sb, parent as int), true, mode, time),
            parent,
            name,
        ),
{
    let p = inode_at(b0, sb, parent as int);
    let c = dir_known(b0, c0, parent, p.direct);
    let node = node_inode(p, true, mode, time);
    if dir_created(b0, b4, sb, c0, c4, parent, name, mode, time, n) {
        let (b1, b2, b3, c2, c3, z) = choose|
            b1: Seq<Seq<u8>>,
            b2: Seq<Seq<u8>>,
            b3: Seq<Seq<u8>>,
            c2: CacheView,
            c3: CacheView,
            z: u32,
        | #[trigger]
            dir_steps(b0, b1, b2, b3, b4, sb, c0, c2, c3, c4, parent, name, mode, time, n, z);
        assert(entered(b0, b1, b2, sb, c, c2, node, parent, name, n, z));
        lemma_room_or_not(b0, b1, b2, d4, sb, c0, c, c2, e4, node, parent, name, n, z);
    } else {
        let (b1, b2, c2, m, z) = choose|
            b1: Seq<Seq<u8>>,
            b2: Seq<Seq<u8>>,
            c2: CacheView,
            n: u32,
            z: u32,
        | #[trigger]
            entered(b0, b1, b2, sb, c, c2, node, parent, name, n, z) && entry_refused(b4, sb, c4, n) && ((
            b4 == b2 && c4 == c2) || half_made(b2, b4, sb, c2, c4, n));
        lemma_room_or_not(b0, b1, b2, d4, sb, c0, c, c2, e4, node, parent, name, m, z);
    }
}

/// A directory is made in one way.
proof fn lemma_dir_once(
    b0: Seq<Seq<u8>>,
    b4: Seq<Seq<u8>>,
    d4: Seq<Seq<u8>>,
    sb: Superblock,
    c0: CacheView,
    c4: CacheView,
    e4: CacheView,
    parent: u32,
    name: Seq<u8>,
    mode: u16,
    time: u64,
    n: u32,
    m: u32,
)
    requires
        dir_created(b0, b4, sb, c0, c4, parent, name, mode, time, n),
        dir_created(b0, d4, sb, c0, e4, parent, name, mode, time, m),
    ensures
        n == m,
        b4 == d4,
        c4 == e4,
{
    let p = inode_at(b0, sb, parent as int);
    let c = dir_known(b0, c0, parent, p.direct);
    let node = node_inode(p, true, mode, time);
    let (b1, b2, b3, c2, c3, z) = choose|
        b1: Seq<Seq<u8>>,
        b2: Seq<Seq<u8>>,
        b3: Seq<Seq<u8>>,
        c2: CacheView,
        c3: CacheView,
        z: u32,
    | #[trigger]
        dir_steps(b0, b1, b2, b3, b4, sb, c0, c2, c3, c4, parent, name, mode, time, n, z);
    let (d1, d2, d3, e2, e3, y) = choose|
        b1: Seq<Seq<u8>>,
        b2: Seq<Seq<u8>>,
        b3: Seq<Seq<u8>>,
        c2: CacheView,
        c3: CacheView,
        z: u32,
    | #[trigger]
        dir_steps(b0, b1, b2, b3, d4, sb, c0, c2, c3, e4, parent, name, mode, time, m, z);
    assert(entered(b0, b1, b2, sb, c, c2, node, parent, name, n, z));
    assert(entered(b0, d1, d2, sb, c, e2, node, parent, name, m, y));
    lemma_entered_once(b0, b1, b2, d1, d2, sb, c, c2, e2, node, parent, name, n, z, m, y);
    lemma_added_once(b2, b3, d3, sb, c2, c3, e3, n, dot(), n);
    lemma_added_once(b3, b4, d4, sb, c3, c4, e4, n, dot_dot(), parent);
}

/// What making a directory does, on a volume that carries out every request, is decided.
pub proof fn lemma_create_dir_decided(
    b0: Seq<Seq<u8>>,
    b1: Seq<Seq<u8>>,
    b2: Seq<Seq<u8>>,
    sb: Superblock,
    c0: CacheView,
    c1: CacheView,
    c2: CacheView,
    parent: u32,
    name: Seq<u8>,
    mode: u16,
    time: u64,
    r1: Result<u32, FsError>,
    r2: Result<u32, FsError>,
)
    requires
        create_dir_result(b0, b1, sb, true, c0, c1, parent, name, mode, time, r1),
        create_dir_result(b0, b2, sb, true, c0, c2, parent, name, mode, time, r2),
    ensures
        r1 == r2,
        b1 == b2,
        c1 == c2,
{
    let p = inode_at(b0, sb, parent as int);
    let node = node_inode(p, true, mode, time);
    let c = dir_known(b0, c0, parent, p.direct);
    let stuck1 = dir_stuck(b0, b1, sb, c, c1, node, parent, name);
    let stuck2 = dir_stuck(b0, b2, sb, c, c2, node, parent, name);
    let readable = valid_ino(sb, parent as int) && (dir_at(c0.dirs, parent) is Some || on_volume(
        b0,
        p.direct,
    ));
    if r1 is Ok || stuck1 && readable {
        lemma_dir_room(b0, b1, b2, sb, c0, c1, c2, parent, name, mode, time, r1->Ok_0);
    }
    if r2 is Ok || stuck2 && readable {
        lemma_dir_room(b0, b2, b1, sb, c0, c2, c1, parent, name, mode, time, r2->Ok_0);
    }
    if stuck1 {
        lemma_stuck_or_not(b0, b2, b1, sb, c0, c2, c1, parent, name, mode, time);
    }
    if stuck2 {
        lemma_stuck_or_not(b0, b1, b2, sb, c0, c1, c2, parent, name, mode, time);
    }
    if r1 is Ok && r2 is Ok {
        lemma_dir_once(b0, b1, b2, sb, c0, c1, c2, parent, name, mode, time, r1->Ok_0, r2->Ok_0);
    }
    if no_room(b0, b1, sb, c0, c1, node, parent, name) && no_room(
        b0,
        b2,
        sb,
        c0,
        c2,
        node,
        parent,
        name,
    ) {
        lemma_no_room_once(b0, b1, b2, sb, c0, c1, c2, node, parent, name);
    }
}

} // verus!
