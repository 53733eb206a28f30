//! Paths as programs pass them: how they are joined and made plain, and which
//! program a script asks for.

use crate::bytes::{
    cut, find, first_pos, has_prefix, is_utf8, lemma_first_pos, lemma_first_pos_is, pieces, push_all, rfind,
    same, split, starts_with, to_vec, trim_end_len, trim_end_spec, views,
};
use crate::errno::{fail, failed, EACCES, ENOENT, ENOEXEC};
use crate::paths::{absolute, is_root, join_segments, slashed, SLASH};
use vstd::prelude::*;

verus! {

pub const DOT: u8 = 46;

/// The segment that stands for the directory itself.
pub open spec fn dot() -> Seq<u8> {
    seq![DOT]
}

/// The segment that stands for the parent.
pub open spec fn dot_dot() -> Seq<u8> {
    seq![DOT, DOT]
}

fn is_dot(s: &[u8]) -> (r: bool)
    ensures
        r == (s@ == dot()),
{
    let r: bool = s.len() == 1 && s[0] == DOT;
    proof {
        if r {
            assert(s@ =~= dot());
        }
    }
    r
}

fn is_dot_dot(s: &[u8]) -> (r: bool)
    ensures
        r == (s@ == dot_dot()),
{
    let r: bool = s.len() == 2 && s[0] == DOT && s[1] == DOT;
    proof {
        if r {
            assert(s@ =~= dot_dot());
        }
    }
    r
}

/// Path `rel` as seen from directory `base`.
pub open spec fn joined(base: Seq<u8>, rel: Seq<u8>) -> Seq<u8> {
    if rel.len() == 0 || rel == dot() {
        base
    } else if rel[0] == SLASH {
        rel
    } else if base == seq![SLASH] {
        seq![SLASH] + rel
    } else {
        trim_end_spec(base, SLASH) + seq![SLASH] + rel
    }
}

pub fn join_paths(base: &[u8], rel: &[u8]) -> (r: Vec<u8>)
    ensures
        r@ == joined(base@, rel@),
{
    if rel.len() == 0 || is_dot(rel) {
        return to_vec(base);
    }
    if rel[0] == SLASH {
        return to_vec(rel);
    }
    let mut out: Vec<u8> = Vec::new();
    if !is_root(base) {
        let n: usize = trim_end_len(base, SLASH);
        out = cut(base, 0, n);
        proof {
            assert(out@ =~= base@.take(n as int));
        }
    }
    let ghost start = out@;
    out.push(SLASH);
    push_all(&mut out, rel);
    proof {
        assert(out@ =~= start + seq![SLASH] + rel@);
        assert(Seq::<u8>::empty() + seq![SLASH] + rel@ =~= seq![SLASH] + rel@);
    }
    out
}

/// The last slash of a path.
pub open spec fn last_slash(s: Seq<u8>) -> int
    decreases s.len(),
{
    if s.len() == 0 {
        -1
    } else if s.last() == SLASH {
        s.len() - 1
    } else {
        last_slash(s.drop_last())
    }
}

proof fn lemma_last_slash(s: Seq<u8>, k: int)
    requires
        -1 <= k < s.len(),
        k >= 0 ==> s[k] == SLASH,
        forall|i: int| k < i < s.len() ==> s[i] != SLASH,
    ensures
        last_slash(s) == k,
    decreases s.len(),
{
    if s.len() > 0 && k < s.len() - 1 {
        lemma_last_slash(s.drop_last(), k);
    }
}

/// A path without the slash at its end, the root excepted.
pub open spec fn unslashed(path: Seq<u8>) -> Seq<u8> {
    if path != seq![SLASH] && path.len() > 0 && path.last() == SLASH {
        path.drop_last()
    } else {
        path
    }
}

/// The directory that holds a path.
pub open spec fn parent_of(path: Seq<u8>) -> Seq<u8> {
    let p = unslashed(path);
    let k = last_slash(p);
    if k == 0 {
        seq![SLASH]
    } else if k > 0 {
        p.take(k)
    } else {
        dot()
    }
}

pub fn parent_path(path: &[u8]) -> (r: Vec<u8>)
    ensures
        r@ == parent_of(path@),
{
    let n: usize = if !is_root(path) && path.len() > 0 && path[path.len() - 1] == SLASH {
        path.len() - 1
    } else {
        path.len()
    };
    let short: Vec<u8> = cut(path, 0, n);
    proof {
        assert(short@ =~= unslashed(path@));
    }
    match rfind(&short, SLASH) {
        Some(k) => {
            proof {
                lemma_last_slash(short@, k as int);
            }
            if k == 0 {
                let mut v: Vec<u8> = Vec::new();
                v.push(SLASH);
                proof {
                    assert(v@ =~= seq![SLASH]);
                }
                v
            } else {
                let v: Vec<u8> = cut(&short, 0, k);
                proof {
                    assert(v@ =~= short@.take(k as int));
                }
                v
            }
        },
        None => {
            proof {
                lemma_last_slash(short@, -1);
            }
            let mut v: Vec<u8> = Vec::new();
            v.push(DOT);
            proof {
                assert(v@ =~= dot());
            }
            v
        },
    }
}

/// A path in two: its directory, and its name there.
pub open spec fn parent_and_name(path: Seq<u8>) -> (Seq<u8>, Seq<u8>) {
    let k = last_slash(path);
    if k == 0 {
        (seq![SLASH], path.skip(1))
    } else if k > 0 {
        (path.take(k), path.skip(k + 1))
    } else {
        (dot(), path)
    }
}

pub fn split_parent_name(path: &[u8]) -> (r: (Vec<u8>, Vec<u8>))
    ensures
        (r.0@, r.1@) == parent_and_name(path@),
{
    let len: usize = path.len();
    match rfind(path, SLASH) {
        Some(k) => {
            proof {
                lemma_last_slash(path@, k as int);
            }
            let name: Vec<u8> = cut(path, k + 1, len);
            let mut parent: Vec<u8> = cut(path, 0, k);
            proof {
                assert(name@ =~= path@.skip(k + 1));
                assert(parent@ =~= path@.take(k as int));
            }
            if k == 0 {
                parent.push(SLASH);
                proof {
                    assert(parent@ =~= seq![SLASH]);
                }
            }
            (parent, name)
        },
        None => {
            proof {
                lemma_last_slash(path@, -1);
            }
            let mut v: Vec<u8> = Vec::new();
            v.push(DOT);
            proof {
                assert(v@ =~= dot());
            }
            (v, to_vec(path))
        },
    }
}

/// Segments without those that stand for the directory itself or its parent. The
/// parent of the root is the root.
pub open spec fn resolved(parts: Seq<Seq<u8>>) -> Seq<Seq<u8>>
    decreases parts.len(),
{
    if parts.len() == 0 {
        parts
    } else {
        let r = resolved(parts.drop_last());
        let p = parts.last();
        if p.len() == 0 || p == dot() {
            r
        } else if p == dot_dot() {
            if r.len() > 0 {
                r.drop_last()
            } else {
                r
            }
        } else {
            r.push(p)
        }
    }
}

/// The plain form of a path.
pub open spec fn normalized(path: Seq<u8>) -> Seq<u8> {
    absolute(resolved(pieces(path, SLASH)))
}

pub fn normalize_path(p: &[u8]) -> (r: Vec<u8>)
    ensures
        r@ == normalized(p@),
{
    let parts: Vec<Vec<u8>> = split(p, SLASH);
    let ghost ps = views(parts@);
    let mut out: Vec<Vec<u8>> = Vec::new();
    let mut i: usize = 0;
    proof {
        assert(views(out@) =~= resolved(ps.take(0)));
    }
    while i < parts.len()
        invariant
            i <= parts@.len(),
            ps == views(parts@),
            views(out@) == resolved(ps.take(i as int)),
        decreases parts@.len() - i,
    {
        proof {
            assert(ps.take(i + 1).drop_last() =~= ps.take(i as int));
            assert(ps.take(i + 1).last() == parts@[i as int]@);
        }
        let ghost before = out@;
        if parts[i].len() == 0 || is_dot(&parts[i]) {
        } else if is_dot_dot(&parts[i]) {
            let _ = out.pop();
            proof {
                if before.len() > 0 {
                    assert(views(out@) =~= views(before).drop_last());
                }
            }
        } else {
            let seg: Vec<u8> = to_vec(&parts[i]);
            out.push(seg);
            proof {
                assert(views(out@) =~= views(before).push(seg@));
            }
        }
        i = i + 1;
    }
    proof {
        assert(ps.take(i as int) =~= ps);
        assert(views(out@).take(out@.len() as int) =~= views(out@));
    }
    let n: usize = out.len();
    join_segments(&out, n)
}

/// A segment that a plain path can hold.
pub open spec fn plain_segment(s: Seq<u8>) -> bool {
    s.len() > 0 && s != dot() && s != dot_dot() && forall|i: int| 0 <= i < s.len() ==> s[i] != SLASH
}

pub open spec fn plain_segments(ps: Seq<Seq<u8>>) -> bool {
    forall|i: int| 0 <= i < ps.len() ==> plain_segment(#[trigger] ps[i])
}

proof fn lemma_pieces_plain(s: Seq<u8>)
    ensures
        forall|i: int, j: int|
            0 <= i < pieces(s, SLASH).len() && 0 <= j < pieces(s, SLASH)[i].len()
                ==> #[trigger] pieces(s, SLASH)[i][j] != SLASH,
    decreases s.len(),
{
    lemma_first_pos_is(s, SLASH);
    let p = first_pos(s, SLASH);
    if p < s.len() {
        lemma_pieces_plain(s.skip(p + 1));
        let tail = pieces(s.skip(p + 1), SLASH);
        let all = pieces(s, SLASH);
        assert(all =~= seq![s.take(p)] + tail);
        assert forall|i: int, j: int| 0 <= i < all.len() && 0 <= j < all[i].len() implies
            #[trigger] all[i][j] != SLASH by {
            if i > 0 {
                assert(all[i] == tail[i - 1]);
                assert(tail[i - 1][j] != SLASH);
            }
        }
    }
}

proof fn lemma_resolved_plain(ps: Seq<Seq<u8>>)
    requires
        forall|i: int, j: int|
            0 <= i < ps.len() && 0 <= j < ps[i].len() ==> #[trigger] ps[i][j] != SLASH,
    ensures
        plain_segments(resolved(ps)),
    decreases ps.len(),
{
    if ps.len() > 0 {
        let front = ps.drop_last();
        assert forall|i: int, j: int| 0 <= i < front.len() && 0 <= j < front[i].len() implies
            #[trigger] front[i][j] != SLASH by {
            assert(ps[i][j] != SLASH);
        }
        lemma_resolved_plain(front);
        let p = ps.last();
        assert forall|j: int| 0 <= j < p.len() implies p[j] != SLASH by {
            assert(ps[ps.len() - 1][j] != SLASH);
        }
    }
}

pub proof fn lemma_slashed_front(ps: Seq<Seq<u8>>)
    requires
        ps.len() > 0,
    ensures
        slashed(ps) == seq![SLASH] + ps[0] + slashed(ps.skip(1)),
    decreases ps.len(),
{
    if ps.len() == 1 {
        assert(ps.skip(1).len() == 0);
        assert(slashed(ps.drop_last()) =~= Seq::<u8>::empty());
        assert(slashed(ps) =~= seq![SLASH] + ps[0] + slashed(ps.skip(1)));
    } else {
        lemma_slashed_front(ps.drop_last());
        assert(ps.drop_last().skip(1) =~= ps.skip(1).drop_last());
        assert(slashed(ps) =~= seq![SLASH] + ps[0] + slashed(ps.skip(1)));
    }
}

/// The pieces of joined segments are these segments.
pub proof fn lemma_pieces_of_joined(ps: Seq<Seq<u8>>)
    requires
        ps.len() > 0,
        plain_segments(ps),
    ensures
        pieces(ps[0] + slashed(ps.skip(1)), SLASH) == ps,
    decreases ps.len(),
{
    let rest = ps.skip(1);
    let s = ps[0] + slashed(rest);
    assert(plain_segment(ps[0]));
    if rest.len() == 0 {
        assert(s =~= ps[0]);
        lemma_first_pos(s, SLASH, s.len() as int);
        assert(pieces(s, SLASH) =~= seq![s]);
        assert(ps =~= seq![s]);
    } else {
        lemma_slashed_front(rest);
        assert(rest[0] == ps[1]);
        assert forall|i: int| 0 <= i < rest.len() implies plain_segment(#[trigger] rest[i]) by {
            assert(rest[i] == ps[i + 1]);
        }
        lemma_pieces_of_joined(rest);
        let n = ps[0].len() as int;
        assert forall|i: int| 0 <= i < n implies s[i] != SLASH by {
            assert(s[i] == ps[0][i]);
        }
        assert(s[n] == slashed(rest)[0]);
        lemma_first_pos(s, SLASH, n);
        assert(s.take(n) =~= ps[0]);
        assert(s.skip(n + 1) =~= rest[0] + slashed(rest.skip(1)));
        assert(pieces(s, SLASH) =~= seq![ps[0]] + rest);
        assert(ps =~= seq![ps[0]] + rest);
    }
}

proof fn lemma_resolved_of_plain(ps: Seq<Seq<u8>>)
    requires
        plain_segments(ps),
    ensures
        resolved(seq![Seq::<u8>::empty()] + ps) == ps,
    decreases ps.len(),
{
    let all = seq![Seq::<u8>::empty()] + ps;
    if ps.len() == 0 {
        reveal_with_fuel(resolved, 2);
        assert(all.drop_last() =~= Seq::<Seq<u8>>::empty());
        assert(resolved(all) =~= ps);
    } else {
        assert forall|i: int| 0 <= i < ps.drop_last().len() implies plain_segment(
            #[trigger] ps.drop_last()[i],
        ) by {
            assert(ps.drop_last()[i] == ps[i]);
        }
        lemma_resolved_of_plain(ps.drop_last());
        assert(all.drop_last() =~= seq![Seq::<u8>::empty()] + ps.drop_last());
        assert(plain_segment(ps[ps.len() - 1]));
        assert(all.last() == ps.last());
        assert(resolved(all) =~= ps);
    }
}

/// A plain path is its own plain form.
pub proof fn lemma_normalized_twice(path: Seq<u8>)
    ensures
        normalized(normalized(path)) == normalized(path),
{
    let ps = resolved(pieces(path, SLASH));
    lemma_pieces_plain(path);
    lemma_resolved_plain(pieces(path, SLASH));
    let n = normalized(path);
    let e = Seq::<u8>::empty();
    if ps.len() == 0 {
        reveal_with_fuel(resolved, 2);
        assert(n =~= seq![SLASH]);
        lemma_first_pos(n, SLASH, 0);
        assert(n.take(0) =~= e);
        assert(n.skip(1) =~= e);
        lemma_first_pos(e, SLASH, 0);
        assert(pieces(e, SLASH) =~= seq![e]);
        assert(pieces(n, SLASH) =~= seq![e] + seq![e]);
        let two = pieces(n, SLASH);
        assert(two.drop_last() =~= seq![e]);
        assert(seq![e].drop_last() =~= Seq::<Seq<u8>>::empty());
        assert(resolved(seq![e]) =~= Seq::<Seq<u8>>::empty());
        assert(resolved(two) =~= Seq::<Seq<u8>>::empty());
    } else {
        lemma_slashed_front(ps);
        lemma_first_pos(n, SLASH, 0);
        assert(n.take(0) =~= e);
        assert(n.skip(1) =~= ps[0] + slashed(ps.skip(1)));
        lemma_pieces_of_joined(ps);
        assert(pieces(n, SLASH) =~= seq![e] + ps);
        lemma_resolved_of_plain(ps);
    }
}

/// A plain path starts at the root.
pub proof fn lemma_normalized_absolute(path: Seq<u8>)
    ensures
        normalized(path).len() > 0,
        normalized(path)[0] == SLASH,
{
    let ps = resolved(pieces(path, SLASH));
    if ps.len() > 0 {
        lemma_slashed_front(ps);
    }
}

/// Where the home directories lie.
pub open spec fn home_prefix() -> Seq<u8> {
    seq![47u8, 104, 111, 109, 101, 47]
}

/// The home directory that a path lies in.
pub open spec fn home_of(path: Seq<u8>) -> Option<Seq<u8>> {
    let rest = path.skip(6);
    let user = rest.take(first_pos(rest, SLASH));
    if has_prefix(path, home_prefix()) && user.len() > 0 {
        Some(home_prefix() + user)
    } else {
        None
    }
}

pub fn home_root_for_path(path: &[u8]) -> (r: Option<Vec<u8>>)
    ensures
        match r {
            Some(v) => home_of(path@) == Some(v@),
            None => home_of(path@) is None,
        },
{
    let prefix: [u8; 6] = [47u8, 104, 111, 109, 101, 47];
    proof {
        assert(prefix@ =~= home_prefix());
    }
    if !starts_with(path, &prefix) {
        return None;
    }
    let rest: Vec<u8> = cut(path, 6, path.len());
    proof {
        assert(rest@ =~= path@.skip(6));
        lemma_first_pos_is(rest@, SLASH);
    }
    let n: usize = find(&rest, SLASH);
    if n == 0 {
        return None;
    }
    let out: Vec<u8> = cut(path, 0, 6 + n);
    proof {
        assert(path@.take(6) =~= home_prefix());
        assert(out@ =~= home_prefix() + rest@.take(n as int));
    }
    Some(out)
}

/// Whether a user may enter a path: an encrypted home directory is open to its owner
/// and to user 0. `encrypted` and `owner` are what is known of the home directory.
pub fn check_encrypted_home_access(path: &[u8], encrypted: bool, current_uid: u32, owner: Option<u32>) -> (r:
    Result<(), i64>)
    ensures
        match r {
            Ok(_) => home_open(path@, encrypted, current_uid, owner),
            Err(e) => !home_open(path@, encrypted, current_uid, owner) && e == failed(EACCES),
        },
{
    match home_root_for_path(path) {
        None => return Ok(()),
        Some(_) => {},
    }
    if !encrypted {
        return Ok(());
    }
    if current_uid == 0 {
        return Ok(());
    }
    match owner {
        None => Ok(()),
        Some(uid) => {
            if uid == current_uid {
                Ok(())
            } else {
                Err(fail(EACCES))
            }
        },
    }
}

pub open spec fn home_open(path: Seq<u8>, encrypted: bool, uid: u32, owner: Option<u32>) -> bool {
    home_of(path) is None || !encrypted || uid == 0 || owner is None || owner == Some(uid)
}

/// The length of the blank character that a text starts with, or 0.
pub open spec fn blank_start(s: Seq<u8>) -> int {
    if s.len() >= 1 && (9 <= s[0] <= 13 || s[0] == 32) {
        1
    } else if s.len() >= 2 && s[0] == 0xC2 && (s[1] == 0x85 || s[1] == 0xA0) {
        2
    } else if s.len() >= 3 && wide_blank(s[0], s[1], s[2]) {
        3
    } else {
        0
    }
}

/// The length of the blank character that a text ends with, or 0.
pub open spec fn blank_end(s: Seq<u8>) -> int {
    let n = s.len() as int;
    if n >= 1 && (9 <= s[n - 1] <= 13 || s[n - 1] == 32) {
        1
    } else if n >= 2 && s[n - 2] == 0xC2 && (s[n - 1] == 0x85 || s[n - 1] == 0xA0) {
        2
    } else if n >= 3 && wide_blank(s[n - 3], s[n - 2], s[n - 1]) {
        3
    } else {
        0
    }
}

/// The blank characters that take three bytes.
pub open spec fn wide_blank(a: u8, b: u8, c: u8) -> bool {
    ||| a == 0xE1 && b == 0x9A && c == 0x80
    ||| a == 0xE2 && b == 0x80 && (0x80 <= c <= 0x8A || c == 0xA8 || c == 0xA9 || c == 0xAF)
    ||| a == 0xE2 && b == 0x81 && c == 0x9F
    ||| a == 0xE3 && b == 0x80 && c == 0x80
}

fn is_wide_blank(a: u8, b: u8, c: u8) -> (r: bool)
    ensures
        r == wide_blank(a, b, c),
{
    (a == 0xE1 && b == 0x9A && c == 0x80) || (a == 0xE2 && b == 0x80 && ((0x80 <= c && c <= 0x8A)
        || c == 0xA8 || c == 0xA9 || c == 0xAF)) || (a == 0xE2 && b == 0x81 && c == 0x9F) || (a
        == 0xE3 && b == 0x80 && c == 0x80)
}

pub open spec fn trim_front(s: Seq<u8>) -> Seq<u8>
    decreases s.len(),
{
    let k = blank_start(s);
    if k > 0 {
        trim_front(s.skip(k))
    } else {
        s
    }
}

pub open spec fn trim_back(s: Seq<u8>) -> Seq<u8>
    decreases s.len(),
{
    let k = blank_end(s);
    if k > 0 {
        trim_back(s.take(s.len() - k))
    } else {
        s
    }
}

/// A text without the blank characters at its start and end.
pub open spec fn trimmed(s: Seq<u8>) -> Seq<u8> {
    trim_back(trim_front(s))
}

pub fn trim(s: &[u8]) -> (r: Vec<u8>)
    ensures
        r@ == trimmed(s@),
{
    let mut i: usize = 0;
    let len: usize = s.len();
    proof {
        assert(s@.skip(0) =~= s@);
    }
    loop
        invariant_except_break
            i <= len,
        invariant
            len == s@.len(),
            i <= len,
            trim_front(s@.skip(i as int)) == trim_front(s@),
        ensures
            s@.skip(i as int) == trim_front(s@),
        decreases len - i,
    {
        let ghost rest = s@.skip(i as int);
        let k: usize = if len - i >= 1 && ((9 <= s[i] && s[i] <= 13) || s[i] == 32) {
            1
        } else if len - i >= 2 && s[i] == 0xC2 && (s[i + 1] == 0x85 || s[i + 1] == 0xA0) {
            2
        } else if len - i >= 3 && is_wide_blank(s[i], s[i + 1], s[i + 2]) {
            3
        } else {
            0
        };
        proof {
            assert(k == blank_start(rest));
        }
        if k == 0 {
            break;
        }
        proof {
            assert(rest.skip(k as int) =~= s@.skip(i + k));
        }
        i = i + k;
    }
    let mut end: usize = len;
    let ghost front = s@.skip(i as int);
    proof {
        assert(s@.subrange(i as int, end as int) =~= front);
    }
    loop
        invariant_except_break
            i <= end,
        invariant
            len == s@.len(),
            i <= end <= len,
            trim_back(s@.subrange(i as int, end as int)) == trim_back(front),
        ensures
            s@.subrange(i as int, end as int) == trim_back(front),
        decreases end - i,
    {
        let ghost rest = s@.subrange(i as int, end as int);
        let k: usize = if end - i >= 1 && ((9 <= s[end - 1] && s[end - 1] <= 13) || s[end - 1] == 32) {
            1
        } else if end - i >= 2 && s[end - 2] == 0xC2 && (s[end - 1] == 0x85 || s[end - 1] == 0xA0) {
            2
        } else if end - i >= 3 && is_wide_blank(s[end - 3], s[end - 2], s[end - 1]) {
            3
        } else {
            0
        };
        proof {
            assert(k == blank_end(rest));
        }
        if k == 0 {
            break;
        }
        proof {
            assert(rest.take(rest.len() - k) =~= s@.subrange(i as int, end - k));
        }
        end = end - k;
    }
    cut(s, i, end)
}

/// Where the program `path` lies, seen from directory `pwd`.
pub open spec fn exec_path(pwd: Seq<u8>, path: Seq<u8>) -> Option<Seq<u8>> {
    let p = trimmed(path);
    if p.len() == 0 {
        None
    } else if p[0] == SLASH {
        Some(normalized(p))
    } else {
        Some(normalized(joined(pwd, p)))
    }
}

pub fn resolve_exec_path(pwd: &[u8], path: &[u8]) -> (r: Result<Vec<u8>, i64>)
    ensures
        match r {
            Ok(v) => exec_path(pwd@, path@) == Some(v@),
            Err(e) => exec_path(pwd@, path@) is None && e == failed(ENOENT),
        },
{
    let p: Vec<u8> = trim(path);
    if p.len() == 0 {
        return Err(fail(ENOENT));
    }
    if p[0] == SLASH {
        return Ok(normalize_path(&p));
    }
    let full: Vec<u8> = join_paths(pwd, &p);
    Ok(normalize_path(&full))
}

/// The characters between words.
pub open spec fn word_gap(c: u8) -> bool {
    c == 32 || c == 9 || c == 10 || c == 12 || c == 13
}

fn is_word_gap(c: u8) -> (r: bool)
    ensures
        r == word_gap(c),
{
    c == 32 || c == 9 || c == 10 || c == 12 || c == 13
}

/// The words of a line.
pub open spec fn words(s: Seq<u8>) -> Seq<Seq<u8>>
    decreases s.len(),
{
    if s.len() == 0 {
        Seq::<Seq<u8>>::empty()
    } else {
        let front = s.drop_last();
        let w = words(front);
        let c = s.last();
        if word_gap(c) {
            w
        } else if front.len() == 0 || word_gap(front.last()) {
            w.push(seq![c])
        } else {
            w.drop_last().push(w.last().push(c))
        }
    }
}

proof fn lemma_words(s: Seq<u8>)
    requires
        s.len() > 0,
        !word_gap(s.last()),
    ensures
        words(s).len() > 0,
    decreases s.len(),
{
}

fn split_words(s: &[u8]) -> (r: Vec<Vec<u8>>)
    ensures
        views(r@) == words(s@),
{
    let mut out: Vec<Vec<u8>> = Vec::new();
    let mut i: usize = 0;
    proof {
        assert(views(out@) =~= words(s@.take(0)));
    }
    while i < s.len()
        invariant
            i <= s@.len(),
            views(out@) == words(s@.take(i as int)),
        decreases s@.len() - i,
    {
        let c: u8 = s[i];
        let ghost before = out@;
        proof {
            assert(s@.take(i + 1).drop_last() =~= s@.take(i as int));
            assert(s@.take(i + 1).last() == c);
            if i > 0 {
                assert(s@.take(i as int).last() == s@[i - 1]);
                if !word_gap(s@[i - 1]) {
                    lemma_words(s@.take(i as int));
                }
            }
        }
        if is_word_gap(c) {
        } else if i == 0 || is_word_gap(s[i - 1]) {
            let mut w: Vec<u8> = Vec::new();
            w.push(c);
            out.push(w);
            proof {
                assert(w@ =~= seq![c]);
                assert(views(out@) =~= views(before).push(w@));
            }
        } else {
            let mut w: Vec<u8> = match out.pop() {
                Some(w) => w,
                None => Vec::new(),
            };
            proof {
                assert(views(out@) =~= views(before).drop_last());
                assert(w@ == views(before).last());
            }
            let ghost short = out@;
            w.push(c);
            out.push(w);
            proof {
                assert(views(out@) =~= views(short).push(w@));
            }
        }
        i = i + 1;
    }
    proof {
        assert(s@.take(i as int) =~= s@);
    }
    out
}

/// The shell that scripts run in.
pub open spec fn shell() -> Seq<u8> {
    seq![47u8, 98, 105, 110, 47, 111, 107, 115, 104]
}

/// The other name by which scripts may ask for the shell.
pub open spec fn other_shell() -> Seq<u8> {
    seq![47u8, 98, 105, 110, 47, 98, 97, 115, 104]
}

/// The first line of a script behind its two marks.
pub open spec fn script_line(c: Seq<u8>) -> Seq<u8> {
    let line = c.subrange(2, first_pos(c, 10));
    if line.len() > 0 && line.last() == 13 {
        line.drop_last()
    } else {
        line
    }
}

pub open spec fn is_script(c: Seq<u8>) -> bool {
    has_prefix(c, seq![35u8, 33])
}

/// Whether a script asks for a program that is there.
pub open spec fn script_valid(c: Seq<u8>) -> bool {
    let line = script_line(c);
    let w = words(line);
    &&& vstd::utf8::valid_utf8(line)
    &&& w.len() > 0
    &&& w[0] == shell() || w[0] == other_shell()
}

/// The argument that a script gives to the shell.
pub open spec fn script_arg(c: Seq<u8>) -> Option<Seq<u8>> {
    let w = words(script_line(c));
    if w.len() > 1 {
        Some(w[1])
    } else {
        None
    }
}

/// What a script runs in.
pub struct Shebang {
    pub interpreter: Vec<u8>,
    pub arg: Option<Vec<u8>>,
}

/// Which program a script asks for; None where the file is no script.
pub fn parse_shebang(content: &[u8]) -> (r: Result<Option<Shebang>, i64>)
    ensures
        match r {
            Ok(None) => !is_script(content@),
            Ok(Some(s)) => {
                &&& is_script(content@)
                &&& script_valid(content@)
                &&& s.interpreter@ == shell()
                &&& match s.arg {
                    Some(a) => script_arg(content@) == Some(a@),
                    None => script_arg(content@) is None,
                }
            },
            Err(e) => is_script(content@) && !script_valid(content@) && e == failed(ENOEXEC),
        },
{
    let mark: [u8; 2] = [35u8, 33];
    proof {
        assert(mark@ =~= seq![35u8, 33]);
    }
    if !starts_with(content, &mark) {
        return Ok(None);
    }
    let end: usize = find(content, 10);
    proof {
        lemma_first_pos_is(content@, 10);
        assert(content@.take(2) =~= mark@);
        assert(content@[0] == 35 && content@[1] == 33);
    }
    let mut line: Vec<u8> = cut(content, 2, end);
    let ghost whole = line@;
    if line.len() > 0 && line[line.len() - 1] == 13 {
        let _ = line.pop();
        proof {
            assert(line@ =~= whole.drop_last());
        }
    }
    proof {
        assert(line@ == script_line(content@));
    }
    if !is_utf8(&line) {
        return Err(fail(ENOEXEC));
    }
    let w: Vec<Vec<u8>> = split_words(&line);
    let ghost ws = views(w@);
    if w.len() == 0 {
        return Err(fail(ENOEXEC));
    }
    let oksh: [u8; 9] = [47u8, 98, 105, 110, 47, 111, 107, 115, 104];
    let bash: [u8; 9] = [47u8, 98, 105, 110, 47, 98, 97, 115, 104];
    proof {
        assert(oksh@ =~= shell());
        assert(bash@ =~= other_shell());
        assert(ws[0] == w@[0]@);
    }
    if !same(&w[0], &oksh) && !same(&w[0], &bash) {
        return Err(fail(ENOEXEC));
    }
    let arg: Option<Vec<u8>> = if w.len() > 1 {
        proof {
            assert(ws[1] == w@[1]@);
        }
        Some(to_vec(&w[1]))
    } else {
        None
    };
    Ok(Some(Shebang { interpreter: to_vec(&oksh), arg }))
}

} // verus!
