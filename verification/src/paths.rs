//! Paths: their segments, and how they are put together.

use crate::bytes::{pieces, push_all, split, to_vec, views};
use vstd::prelude::*;

verus! {

/// The byte that separates the segments of a path.
pub const SLASH: u8 = 47;

/// The byte strings in `parts` that are not empty.
pub open spec fn non_empty(parts: Seq<Seq<u8>>) -> Seq<Seq<u8>>
    decreases parts.len(),
{
    if parts.len() == 0 {
        parts
    } else if parts.last().len() == 0 {
        non_empty(parts.drop_last())
    } else {
        non_empty(parts.drop_last()).push(parts.last())
    }
}

/// The segments of a path.
pub open spec fn segments(path: Seq<u8>) -> Seq<Seq<u8>> {
    non_empty(pieces(path, SLASH))
}

/// The segments of `parts`, each with a slash before it.
pub open spec fn slashed(parts: Seq<Seq<u8>>) -> Seq<u8>
    decreases parts.len(),
{
    if parts.len() == 0 {
        Seq::<u8>::empty()
    } else {
        slashed(parts.drop_last()) + seq![SLASH] + parts.last()
    }
}

/// The absolute path with the segments `parts`.
pub open spec fn absolute(parts: Seq<Seq<u8>>) -> Seq<u8> {
    if parts.len() == 0 {
        seq![SLASH]
    } else {
        slashed(parts)
    }
}

/// The path of `name` in the directory `parent`.
pub open spec fn child_path(parent: Seq<u8>, name: Seq<u8>) -> Seq<u8> {
    if parent == seq![SLASH] {
        seq![SLASH] + name
    } else {
        parent + seq![SLASH] + name
    }
}

/// The byte strings in `parts` that are not empty.
pub fn drop_empty(parts: Vec<Vec<u8>>) -> (r: Vec<Vec<u8>>)
    ensures
        views(r@) == non_empty(views(parts@)),
{
    let mut out: Vec<Vec<u8>> = Vec::new();
    let mut i: usize = 0;
    proof {
        assert(views(out@) =~= non_empty(views(parts@).take(0)));
    }
    while i < parts.len()
        invariant
            i <= parts@.len(),
            views(out@) == non_empty(views(parts@).take(i as int)),
        decreases parts@.len() - i,
    {
        proof {
            assert(views(parts@).take(i + 1).drop_last() =~= views(parts@).take(i as int));
        }
        if parts[i].len() > 0 {
            let ghost before = out@;
            let part: Vec<u8> = to_vec(&parts[i]);
            out.push(part);
            proof {
                assert(views(out@) =~= views(before).push(part@));
            }
        }
        i = i + 1;
    }
    proof {
        assert(views(parts@).take(i as int) =~= views(parts@));
    }
    out
}

/// The segments of a path.
pub fn split_segments(path: &[u8]) -> (r: Vec<Vec<u8>>)
    ensures
        views(r@) == segments(path@),
{
    drop_empty(split(path, SLASH))
}

/// The absolute path with the first `n` segments of `parts`.
pub fn join_segments(parts: &Vec<Vec<u8>>, n: usize) -> (r: Vec<u8>)
    requires
        n <= parts@.len(),
    ensures
        r@ == absolute(views(parts@).take(n as int)),
{
    let mut out: Vec<u8> = Vec::new();
    if n == 0 {
        out.push(SLASH);
        proof {
            assert(out@ =~= seq![SLASH]);
        }
        return out;
    }
    let mut i: usize = 0;
    proof {
        assert(out@ =~= slashed(views(parts@).take(0)));
    }
    while i < n
        invariant
            i <= n <= parts@.len(),
            out@ == slashed(views(parts@).take(i as int)),
        decreases n - i,
    {
        let ghost before = out@;
        proof {
            assert(views(parts@).take(i + 1).drop_last() =~= views(parts@).take(i as int));
            assert(views(parts@).take(i + 1).last() == parts@[i as int]@);
        }
        out.push(SLASH);
        push_all(&mut out, &parts[i]);
        proof {
            assert(out@ =~= before + seq![SLASH] + parts@[i as int]@);
        }
        i = i + 1;
    }
    out
}

/// Whether `s` is a single slash.
pub fn is_root(s: &[u8]) -> (r: bool)
    ensures
        r == (s@ == seq![SLASH]),
{
    let r: bool = s.len() == 1 && s[0] == SLASH;
    proof {
        if r {
            assert(s@ =~= seq![SLASH]);
        }
    }
    r
}

/// The path of `name` in the directory `parent`.
pub fn join_parent_and_name(parent: &[u8], name: &[u8]) -> (r: Vec<u8>)
    ensures
        r@ == child_path(parent@, name@),
{
    let mut out: Vec<u8> = to_vec(parent);
    if !is_root(parent) {
        out.push(SLASH);
    }
    push_all(&mut out, name);
    proof {
        assert(parent@ + seq![SLASH] =~= parent@.push(SLASH));
    }
    out
}

/// What follows the last slash of a path.
pub open spec fn base_name(path: Seq<u8>) -> Seq<u8>
    decreases path.len(),
{
    if path.len() == 0 || path.last() == SLASH {
        Seq::<u8>::empty()
    } else {
        base_name(path.drop_last()).push(path.last())
    }
}

/// What follows the last slash of a path.
pub fn last_part(path: &[u8]) -> (r: Vec<u8>)
    ensures
        r@ == base_name(path@),
{
    let mut i: usize = path.len();
    proof {
        assert(path@.take(i as int) =~= path@);
        assert(base_name(path@) =~= base_name(path@.take(i as int)) + path@.skip(i as int));
    }
    while i > 0 && path[i - 1] != SLASH
        invariant
            i <= path@.len(),
            base_name(path@) == base_name(path@.take(i as int)) + path@.skip(i as int),
        decreases i,
    {
        proof {
            assert(path@.take(i as int).drop_last() =~= path@.take(i - 1));
            assert(path@.take(i as int).last() == path@[i - 1]);
            assert(base_name(path@.take(i - 1)).push(path@[i - 1]) + path@.skip(i as int)
                =~= base_name(path@.take(i - 1)) + path@.skip(i - 1));
        }
        i = i - 1;
    }
    proof {
        if i > 0 {
            assert(path@.take(i as int).last() == SLASH);
        }
        assert(base_name(path@) =~= path@.skip(i as int));
    }
    let r: Vec<u8> = crate::bytes::cut(path, i, path.len());
    proof {
        assert(r@ =~= path@.skip(i as int));
    }
    r
}

} // verus!
