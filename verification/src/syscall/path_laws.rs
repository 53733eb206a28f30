//! What holds of paths and of the texts that programs pass: how they are taken apart and put
//! together, where they lead, and who may go there.

use crate::bytes::{first_pos, lemma_first_pos, lemma_first_pos_is, pieces};
use crate::errno::{failed, EACCES, EINVAL, ENOENT, EPERM};
use crate::paths::{absolute, base_name, child_path, non_empty, segments, slashed, SLASH};
use crate::syscall::files::path_from;
use crate::syscall::misc::{digits_value, parsed_pid, uts_field};
use crate::syscall::pathname::{
    blank_end, blank_start, dot, dot_dot, exec_path, home_of, home_prefix, joined, last_slash,
    normalized, parent_and_name, parent_of, plain_segment, resolved, trim_back, trim_front, trimmed,
    word_gap, words,
};
use crate::syscall::pathops::{
    chdir_answer, chmod_refusal, error_number, mkdir_path, rename_step, unlink_path, RenameStep,
};
use crate::syscall::queries::{may_enter, there_answer, HomeKnown};
use crate::syscall::utils::full_path;
use crate::vfs::{FileType, VfsError};
use vstd::prelude::*;

verus! {

/// A text with a separator in it is taken apart there: into the pieces before it and those
/// behind it.
pub proof fn lemma_pieces_meet(a: Seq<u8>, c: Seq<u8>, b: u8)
    ensures
        pieces(a + seq![b] + c, b) == pieces(a, b) + pieces(c, b),
    decreases a.len(),
{
    let s = a + seq![b] + c;
    let p = first_pos(a, b);
    lemma_first_pos_is(a, b);
    if p >= a.len() {
        assert forall|i: int| 0 <= i < a.len() implies s[i] != b by {
            assert(s[i] == a[i]);
        }
        assert(s[a.len() as int] == b);
        lemma_first_pos(s, b, a.len() as int);
        assert(s.take(a.len() as int) =~= a);
        assert(s.skip(a.len() as int + 1) =~= c);
        assert(pieces(a, b) =~= seq![a]);
    } else {
        assert forall|i: int| 0 <= i < p implies s[i] != b by {
            assert(s[i] == a[i]);
        }
        assert(s[p] == a[p]);
        lemma_first_pos(s, b, p);
        let rest = a.skip(p + 1);
        lemma_pieces_meet(rest, c, b);
        assert(s.take(p) =~= a.take(p));
        assert(s.skip(p + 1) =~= rest + seq![b] + c);
        assert(seq![a.take(p)] + (pieces(rest, b) + pieces(c, b)) =~= (seq![a.take(p)] + pieces(rest, b))
            + pieces(c, b));
    }
}

/// A text without the separator is one piece.
pub proof fn lemma_one_piece(s: Seq<u8>, b: u8)
    requires
        forall|i: int| 0 <= i < s.len() ==> s[i] != b,
    ensures
        pieces(s, b) == seq![s],
{
    lemma_first_pos(s, b, s.len() as int);
}

/// The segments of a path hold no slash and are not empty.
pub proof fn lemma_segments_plain(path: Seq<u8>, i: int, j: int)
    requires
        0 <= i < segments(path).len(),
    ensures
        segments(path)[i].len() > 0,
        0 <= j < segments(path)[i].len() ==> segments(path)[i][j] != SLASH,
{
    lemma_pieces_hold_none(path);
    lemma_non_empty_from(pieces(path, SLASH), i);
}

proof fn lemma_pieces_hold_none(s: Seq<u8>)
    ensures
        forall|i: int, j: int|
            0 <= i < pieces(s, SLASH).len() && 0 <= j < pieces(s, SLASH)[i].len()
                ==> #[trigger] pieces(s, SLASH)[i][j] != SLASH,
    decreases s.len(),
{
    lemma_first_pos_is(s, SLASH);
    let p = first_pos(s, SLASH);
    if p < s.len() {
        let rest = s.skip(p + 1);
        lemma_pieces_hold_none(rest);
        let all = pieces(s, SLASH);
        assert forall|i: int, j: int| 0 <= i < all.len() && 0 <= j < all[i].len() implies
            #[trigger] all[i][j] != SLASH by {
            if i > 0 {
                assert(all[i] == pieces(rest, SLASH)[i - 1]);
                assert(pieces(rest, SLASH)[i - 1][j] != SLASH);
            }
        }
    }
}

proof fn lemma_non_empty_from(ps: Seq<Seq<u8>>, i: int)
    requires
        0 <= i < non_empty(ps).len(),
    ensures
        non_empty(ps)[i].len() > 0,
        exists|k: int| 0 <= k < ps.len() && ps[k] == non_empty(ps)[i],
    decreases ps.len(),
{
    let front = ps.drop_last();
    if i < non_empty(front).len() {
        lemma_non_empty_from(front, i);
        let k = choose|k: int| 0 <= k < front.len() && front[k] == non_empty(front)[i];
        assert(ps[k] == non_empty(ps)[i]);
    } else {
        assert(ps[ps.len() - 1] == non_empty(ps)[i]);
    }
}

/// A name in a directory is one segment more than the directory.
pub proof fn lemma_segments_of_child(path: Seq<u8>, name: Seq<u8>)
    requires
        name.len() > 0,
        forall|i: int| 0 <= i < name.len() ==> name[i] != SLASH,
    ensures
        segments(path + seq![SLASH] + name) == segments(path).push(name),
{
    lemma_pieces_meet(path, name, SLASH);
    lemma_one_piece(name, SLASH);
    let ps = pieces(path, SLASH);
    let all = ps + seq![name];
    assert(all.drop_last() =~= ps);
    assert(all.last() == name);
}

/// Where a path leads step by step: a dot stays, two dots go up, as far as the root, and a name
/// goes down.
pub proof fn lemma_steps_of_paths(path: Seq<u8>, name: Seq<u8>)
    requires
        plain_segment(name),
    ensures
        normalized(path + seq![SLASH] + dot()) == normalized(path),
        normalized(path + seq![SLASH] + name) == child_path(normalized(path), name),
        normalized(path + seq![SLASH] + name + seq![SLASH] + dot_dot()) == normalized(path),
        normalized(Seq::<u8>::empty()) == seq![SLASH],
        normalized(seq![SLASH] + dot_dot()) == seq![SLASH],
{
    let ps = pieces(path, SLASH);
    let r = resolved(ps);
    lemma_pieces_meet(path, dot(), SLASH);
    lemma_one_piece(dot(), SLASH);
    lemma_pieces_meet(path, name, SLASH);
    lemma_one_piece(name, SLASH);
    lemma_pieces_meet(path + seq![SLASH] + name, dot_dot(), SLASH);
    lemma_one_piece(dot_dot(), SLASH);
    assert((ps + seq![dot()]).drop_last() =~= ps);
    let down = ps + seq![name];
    assert(down.drop_last() =~= ps);
    assert(resolved(down) =~= r.push(name));
    let up = down + seq![dot_dot()];
    assert(up.drop_last() =~= down);
    assert(dot_dot() != dot()) by {
        assert(dot_dot().len() != dot().len());
    }
    assert(resolved(up) =~= r);
    if r.len() == 0 {
        assert(r.push(name).drop_last() =~= r);
        assert(slashed(r) =~= Seq::<u8>::empty());
        assert(slashed(r.push(name)) =~= seq![SLASH] + name);
    } else {
        assert(r.push(name).drop_last() =~= r);
        lemma_resolved_not_empty(ps);
        lemma_long(r);
    }
    let e = Seq::<u8>::empty();
    lemma_one_piece(e, SLASH);
    assert(seq![e].drop_last() =~= Seq::<Seq<u8>>::empty());
    reveal_with_fuel(resolved, 3);
    assert(resolved(seq![e]).len() == 0);
    lemma_pieces_meet(e, dot_dot(), SLASH);
    assert(e + seq![SLASH] + dot_dot() =~= seq![SLASH] + dot_dot());
    let two = seq![e] + seq![dot_dot()];
    assert(two.drop_last() =~= seq![e]);
    assert(resolved(two).len() == 0);
}

/// A path with a segment in it is not the root.
proof fn lemma_long(r: Seq<Seq<u8>>)
    requires
        r.len() > 0,
        r.last().len() > 0,
    ensures
        absolute(r) != seq![SLASH],
{
    assert(absolute(r).len() >= 1 + r.last().len());
}

proof fn lemma_resolved_not_empty(ps: Seq<Seq<u8>>)
    ensures
        forall|i: int| 0 <= i < resolved(ps).len() ==> (#[trigger] resolved(ps)[i]).len() > 0,
    decreases ps.len(),
{
    if ps.len() > 0 {
        let front = resolved(ps.drop_last());
        let r = resolved(ps);
        lemma_resolved_not_empty(ps.drop_last());
        assert forall|i: int| 0 <= i < r.len() implies (#[trigger] r[i]).len() > 0 by {
            if i < front.len() {
                assert(front[i].len() > 0);
            }
        }
    }
}

/// A name that is joined to a directory leads to the name in that directory; a path that starts
/// at the root leads where it does from everywhere, and no path at all stays.
pub proof fn lemma_joined_leads(base: Seq<u8>, name: Seq<u8>, path: Seq<u8>)
    requires
        plain_segment(name),
        base.len() > 0,
        base.last() != SLASH || base == seq![SLASH],
    ensures
        normalized(joined(base, name)) == child_path(normalized(base), name),
        path_from(base, name) == child_path(normalized(base), name),
        path.len() > 0 && path[0] == SLASH ==> path_from(base, path) == normalized(path),
        path_from(base, Seq::<u8>::empty()) == normalized(base),
        path_from(base, dot()) == normalized(base),
{
    assert(name[0] != SLASH);
    lemma_steps_of_paths(base, name);
    let root = seq![SLASH];
    let e = Seq::<u8>::empty();
    if base == root {
        lemma_steps_of_paths(e, name);
        assert(e + seq![SLASH] + name =~= seq![SLASH] + name);
        assert(normalized(root) == normalized(e)) by {
            lemma_pieces_meet(e, e, SLASH);
            lemma_one_piece(e, SLASH);
            assert(e + seq![SLASH] + e =~= root);
            let two = seq![e] + seq![e];
            assert(two.drop_last() =~= seq![e]);
        }
    }
}

/// A path in a directory is told apart into the directory and the name again.
pub proof fn lemma_parent_and_name(dir: Seq<u8>, name: Seq<u8>)
    requires
        name.len() > 0,
        forall|i: int| 0 <= i < name.len() ==> name[i] != SLASH,
    ensures
        ({
            let path = dir + seq![SLASH] + name;
            let parent = if dir.len() == 0 {
                seq![SLASH]
            } else {
                dir
            };
            &&& base_name(path) == name
            &&& parent_of(path) == parent
            &&& parent_and_name(path) == (parent, name)
        }),
{
    let path = dir + seq![SLASH] + name;
    lemma_base_name(dir + seq![SLASH], name);
    lemma_last_slash_at(dir, name);
    assert(path.last() == name.last());
    assert(name[name.len() - 1] != SLASH);
    let k = dir.len() as int;
    assert(path.take(k) =~= dir);
    assert(path.skip(k + 1) =~= name);
    if dir.len() == 0 {
        assert(path.skip(1) =~= name);
    }
}

proof fn lemma_base_name(front: Seq<u8>, name: Seq<u8>)
    requires
        front.len() > 0,
        front.last() == SLASH,
        forall|i: int| 0 <= i < name.len() ==> name[i] != SLASH,
    ensures
        base_name(front + name) == name,
    decreases name.len(),
{
    let path = front + name;
    if name.len() == 0 {
        assert(path =~= front);
    } else {
        assert(path.drop_last() =~= front + name.drop_last());
        lemma_base_name(front, name.drop_last());
        assert(path.last() == name.last());
        assert(name[name.len() - 1] != SLASH);
        assert(name.drop_last().push(name.last()) =~= name);
    }
}

proof fn lemma_last_slash_at(dir: Seq<u8>, name: Seq<u8>)
    requires
        forall|i: int| 0 <= i < name.len() ==> name[i] != SLASH,
    ensures
        last_slash(dir + seq![SLASH] + name) == dir.len(),
    decreases name.len(),
{
    let path = dir + seq![SLASH] + name;
    if name.len() > 0 {
        assert(path.drop_last() =~= dir + seq![SLASH] + name.drop_last());
        lemma_last_slash_at(dir, name.drop_last());
        assert(path.last() == name.last());
        assert(name[name.len() - 1] != SLASH);
    }
}

/// The home that a path lies in is named by the segment behind `/home`.
pub proof fn lemma_home_of(user: Seq<u8>, rest: Seq<u8>)
    requires
        user.len() > 0,
        forall|i: int| 0 <= i < user.len() ==> user[i] != SLASH,
        rest.len() > 0 ==> rest[0] == SLASH,
    ensures
        home_of(seq![47u8, 104, 111, 109, 101, 47] + user + rest) == Some(
            seq![47u8, 104, 111, 109, 101, 47] + user,
        ),
{
    let path = seq![47u8, 104, 111, 109, 101, 47] + user + rest;
    assert(path.take(6) =~= home_prefix());
    assert(path.skip(6) =~= user + rest);
    let tail = user + rest;
    assert forall|i: int| 0 <= i < user.len() implies tail[i] != SLASH by {
        assert(tail[i] == user[i]);
    }
    lemma_first_pos(tail, SLASH, user.len() as int);
    assert(tail.take(user.len() as int) =~= user);
}

/// A home is closed exactly to those that it is encrypted against: to all but its owner and
/// user 0. No other path is closed to anyone.
pub proof fn lemma_who_may_enter(path: Seq<u8>, home: HomeKnown)
    ensures
        home_of(path) is None ==> may_enter(path, home),
        !home.encrypted ==> may_enter(path, home),
        home.uid == 0 ==> may_enter(path, home),
        home.owner == Some(home.uid) ==> may_enter(path, home),
        home.owner is None ==> may_enter(path, home),
        home_of(path) is Some && home.encrypted && home.uid != 0 && home.owner is Some && home.owner
            != Some(home.uid) ==> !may_enter(path, home),
{
}

/// Permissions are changed only by the owner of a file and by user 0.
pub proof fn lemma_who_may_chmod(path: Seq<u8>, full: Seq<u8>, home: HomeKnown, owner: Option<u32>, uid: u32)
    ensures
        chmod_refusal(path, full, home, owner, uid) is None <==> path.len() > 0 && may_enter(full, home)
            && owner is Some && (uid == 0 || owner == Some(uid)),
        path.len() > 0 && may_enter(full, home) && owner is Some && uid != 0 && owner != Some(uid)
            ==> chmod_refusal(path, full, home, owner, uid) == Some(failed(EPERM)),
        path.len() > 0 && !may_enter(full, home) ==> chmod_refusal(path, full, home, owner, uid) == Some(
            failed(EACCES),
        ),
        path.len() > 0 && may_enter(full, home) && owner is None ==> chmod_refusal(
            path,
            full,
            home,
            owner,
            uid,
        ) == Some(failed(ENOENT)),
{
}

/// A process goes to a directory that is there and open to it, and to nothing else.
pub proof fn lemma_where_chdir_goes(full: Seq<u8>, home: HomeKnown, found: Option<FileType>)
    ensures
        chdir_answer(full, home, found) == 0 <==> may_enter(full, home) && found == Some(FileType::Dir),
        chdir_answer(full, home, found) <= 0,
        !may_enter(full, home) ==> chdir_answer(full, home, found) == failed(EACCES),
{
}

/// What is asked of a path that is not there is told so; nothing is told of a home that is
/// closed, not even whether anything is there.
pub proof fn lemma_there(full: Seq<u8>, home: HomeKnown, missing: i64)
    requires
        missing < 0,
    ensures
        there_answer(full, home, true, missing) == 0 <==> may_enter(full, home),
        may_enter(full, home) ==> there_answer(full, home, false, missing) == missing,
        !may_enter(full, home) ==> there_answer(full, home, true, missing) == there_answer(
            full,
            home,
            false,
            missing,
        ),
{
}

/// A rename of a path to itself has nothing to do, the root is not renamed, and nothing is
/// moved into or out of a home that is closed.
pub proof fn lemma_rename_begins(pwd: Seq<u8>, p: Seq<u8>, q: Seq<u8>, a: HomeKnown, b: HomeKnown)
    requires
        p.len() > 0,
        q.len() > 0,
    ensures
        ({
            let step = rename_step(Some(pwd), Some(p), Some(q), a, b);
            let (x, y) = (path_from(pwd, p), path_from(pwd, q));
            &&& x == seq![SLASH] || y == seq![SLASH] ==> step == RenameStep::Return(failed(EINVAL))
            &&& x == y && x != seq![SLASH] ==> step == RenameStep::Return(0)
            &&& step == RenameStep::Go ==> x != y && may_enter(x, a) && may_enter(y, b)
            &&& x != y && x != seq![SLASH] && y != seq![SLASH] && may_enter(x, a) && may_enter(y, b)
                ==> step == RenameStep::Go
        }),
{
}

/// A failure of the file system is told by its own error.
pub proof fn lemma_failures_told_apart(e: VfsError, f: VfsError)
    ensures
        error_number(e) < 0,
        error_number(e) == error_number(f) ==> e == f,
        error_number(VfsError::NotFound) == -2,
        error_number(VfsError::Io) == -5,
        error_number(VfsError::AlreadyExists) == -17,
        error_number(VfsError::NotDir) == -20,
        error_number(VfsError::Invalid) == -22,
        error_number(VfsError::ReadOnly) == -30,
{
}

/// A directory is made, and a file is removed, where the path leads from the directory of the
/// process.
pub proof fn lemma_where_made(pwd: Seq<u8>, name: Seq<u8>, path: Seq<u8>)
    requires
        plain_segment(name),
        path.len() > 0,
        path[0] == SLASH,
    ensures
        mkdir_path(pwd, path) == normalized(path),
        unlink_path(pwd, path) == normalized(path),
        normalized(unlink_path(pwd, name)) == child_path(normalized(pwd), name),
        full_path(pwd, path) == path,
{
    assert(name[0] != SLASH);
    lemma_steps_of_paths(pwd, name);
}

/// A program that is called by a path lies where the path leads, blanks round it aside.
pub proof fn lemma_exec_path(pwd: Seq<u8>, path: Seq<u8>)
    ensures
        trimmed(path).len() == 0 <==> exec_path(pwd, path) is None,
        trimmed(path).len() > 0 ==> exec_path(pwd, path) == Some(path_from(pwd, trimmed(path))),
{
}

/// What is left of a text without the blanks at its ends starts and ends with none, and is a
/// part of the text.
pub proof fn lemma_trimmed(s: Seq<u8>)
    ensures
        blank_end(trimmed(s)) == 0,
        exists|a: int, b: int| 0 <= a <= b <= s.len() && #[trigger] s.subrange(a, b) == trimmed(s),
        blank_start(trim_front(s)) == 0,
{
    lemma_trim_front(s);
    let t = trim_front(s);
    lemma_trim_back(t);
    let a = s.len() - t.len();
    let b = a + trimmed(s).len();
    assert(t == s.skip(a));
    assert(trimmed(s) == t.take(trimmed(s).len() as int));
    assert(s.subrange(a, b) =~= trimmed(s));
}

proof fn lemma_trim_front(s: Seq<u8>)
    ensures
        blank_start(trim_front(s)) == 0,
        trim_front(s).len() <= s.len(),
        trim_front(s) == s.skip(s.len() - trim_front(s).len()),
    decreases s.len(),
{
    let k = blank_start(s);
    if k > 0 {
        lemma_trim_front(s.skip(k));
        let t = trim_front(s);
        assert(s.skip(s.len() - t.len()) =~= s.skip(k).skip(s.len() - k - t.len()));
    } else {
        assert(s.skip(0) =~= s);
    }
}

proof fn lemma_trim_back(s: Seq<u8>)
    ensures
        blank_end(trim_back(s)) == 0,
        trim_back(s).len() <= s.len(),
        trim_back(s) == s.take(trim_back(s).len() as int),
    decreases s.len(),
{
    let k = blank_end(s);
    if k > 0 {
        lemma_trim_back(s.take(s.len() - k));
        let t = trim_back(s);
        assert(s.take(t.len() as int) =~= s.take(s.len() - k).take(t.len() as int));
    } else {
        assert(s.take(s.len() as int) =~= s);
    }
}

/// The words of a line are not empty and hold no gap; with a gap and a word more there is one
/// word more.
pub proof fn lemma_words_of_line(line: Seq<u8>, i: int, j: int)
    requires
        0 <= i < words(line).len(),
    ensures
        words(line)[i].len() > 0,
        0 <= j < words(line)[i].len() ==> !word_gap(words(line)[i][j]),
    decreases line.len(),
{
    let front = line.drop_last();
    let w = words(front);
    let c = line.last();
    if word_gap(c) {
        lemma_words_of_line(front, i, j);
    } else if front.len() == 0 || word_gap(front.last()) {
        if i < w.len() {
            lemma_words_of_line(front, i, j);
        }
    } else {
        lemma_some_word(front);
        if i < w.len() - 1 {
            lemma_words_of_line(front, i, j);
        } else {
            if 0 <= j < w.last().len() {
                lemma_words_of_line(front, w.len() - 1, j);
            }
        }
    }
}

proof fn lemma_some_word(line: Seq<u8>)
    requires
        line.len() > 0,
        !word_gap(line.last()),
    ensures
        words(line).len() > 0,
{
}

/// A word behind a gap is the last word of a line, and leaves the others.
pub proof fn lemma_word_added(line: Seq<u8>, word: Seq<u8>)
    requires
        word.len() > 0,
        forall|i: int| 0 <= i < word.len() ==> !word_gap(#[trigger] word[i]),
    ensures
        words(line + seq![32u8] + word) == words(line).push(word),
    decreases word.len(),
{
    let start = line + seq![32u8];
    let s = start + word;
    let front = s.drop_last();
    assert(s.last() == word[word.len() - 1]);
    assert(start.drop_last() =~= line);
    assert(start.last() == 32);
    assert(words(start) == words(line));
    if word.len() == 1 {
        assert(front =~= start);
        assert(seq![s.last()] =~= word);
    } else {
        let shorter = word.drop_last();
        assert(front =~= start + shorter);
        assert forall|i: int| 0 <= i < shorter.len() implies !word_gap(#[trigger] shorter[i]) by {
            assert(shorter[i] == word[i]);
        }
        lemma_word_added(line, shorter);
        assert(front.last() == word[word.len() - 2]);
        let w = words(front);
        assert(w.drop_last() =~= words(line));
        assert(w.last() == shorter);
        assert(shorter.push(s.last()) =~= word);
    }
}

/// The decimal digits of a number.
pub open spec fn decimal(n: nat) -> Seq<u8>
    decreases n,
{
    if n < 10 {
        seq![(48 + n) as u8]
    } else {
        decimal(n / 10).push((48 + n % 10) as u8)
    }
}

/// A process is found by its number written out.
pub proof fn lemma_pid_read(pid: u16)
    ensures
        parsed_pid(decimal(pid as nat)) == Some(pid),
{
    lemma_decimal(pid as nat);
    assert(decimal(pid as nat)[0] != 43);
}

/// A number written out is digits, and stands for itself.
pub proof fn lemma_decimal(n: nat)
    ensures
        decimal(n).len() > 0,
        forall|i: int| 0 <= i < decimal(n).len() ==> 48 <= #[trigger] decimal(n)[i] <= 57,
        digits_value(decimal(n)) == n,
    decreases n,
{
    let d = decimal(n);
    if n < 10 {
        assert(d.drop_last() =~= Seq::<u8>::empty());
        assert(digits_value(d.drop_last()) == 0);
    } else {
        lemma_decimal(n / 10);
        assert(d.drop_last() =~= decimal(n / 10));
        assert(d.last() == 48 + n % 10);
    }
}

/// A name of the system is read back from its field, as far as it fits.
pub proof fn lemma_name_in_field(name: Seq<u8>)
    requires
        name.len() < 65,
        forall|i: int| 0 <= i < name.len() ==> name[i] != 0,
    ensures
        uts_field(name).len() == 65,
        uts_field(name).take(first_pos(uts_field(name), 0)) == name,
{
    let f = uts_field(name);
    assert forall|i: int| 0 <= i < name.len() implies f[i] != 0 by {
        assert(f[i] == name[i]);
    }
    lemma_first_pos(f, 0, name.len() as int);
    assert(f.take(name.len() as int) =~= name);
}

} // verus!
