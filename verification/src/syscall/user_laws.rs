//! What holds of the memory of programs: what was put there is found there again, and a
//! transfer in pieces moves each byte once.

use crate::bytes::{le_digits, lemma_le_digits_len, lemma_le_round_trip, pow256};
use crate::syscall::exec::list_read;
use crate::syscall::time::{timespec_bytes, timespec_in, Timespec};
use crate::syscall::utils::{
    accessible, copied, entry_is, text_at, text_bytes, word_at, word_readable, UserMemory,
};
use crate::syscall::vectors::{
    has_hole, scattered, total_len, vector_next, vector_plan, Iovec, Part, VectorPlan, VectorStep,
};
use vstd::prelude::*;

verus! {

/// What is copied to a program is found there byte for byte, and nothing else of its memory
/// changes.
pub proof fn lemma_copy_found<M: UserMemory>(before: &M, after: &M, dst: u64, data: Seq<u8>, a: u64)
    requires
        copied(before, after, dst, data),
        accessible(before, dst, data.len() as int),
    ensures
        dst <= a && a < dst + data.len() ==> after.byte_at(a) == Some(data[a - dst]),
        !(dst <= a && a < dst + data.len()) ==> after.byte_at(a) == before.byte_at(a),
{
}

/// A copy that fails changes nothing outside the place that it was for, and nothing at all
/// where that place is none of the program's.
pub proof fn lemma_copy_fails<M: UserMemory>(before: &M, after: &M, dst: u64, data: Seq<u8>, a: u64)
    requires
        copied(before, after, dst, data),
        !(dst <= a && a < dst + data.len()) || dst == 0 || dst + data.len() > 0x8000_0000_0000,
        !accessible(before, dst, data.len() as int),
    ensures
        after.byte_at(a) == before.byte_at(a),
{
}

/// A text that is copied to a program with a zero behind it is the text that is found there.
pub proof fn lemma_text_found<M: UserMemory>(before: &M, after: &M, dst: u64, s: Seq<u8>, max: int)
    requires
        copied(before, after, dst, s.push(0u8)),
        accessible(before, dst, s.len() as int + 1),
        !s.contains(0u8),
        s.len() < max,
        vstd::utf8::valid_utf8(s),
    ensures
        text_at(after, dst, s, max),
{
    let data = s.push(0u8);
    assert forall|i: int| 0 <= i <= s.len() implies #[trigger] after.byte_at((dst + i) as u64) == Some(
        data[i],
    ) by {
        lemma_copy_found(before, after, dst, data, (dst + i) as u64);
    }
    assert forall|i: int| 0 <= i < s.len() implies dst + i <= u64::MAX && (#[trigger] after.byte_at(
        (dst + i) as u64,
    )) is Some && after.byte_at((dst + i) as u64) != Some(0u8) by {
        assert(data[i] == s[i]);
        assert(s.contains(s[i]));
    }
    assert(text_bytes(after, dst, s.len()) =~= s);
    assert(after.byte_at((dst + s.len()) as u64) == Some(data[s.len() as int]));
}

/// There is one text at a place: up to the first zero.
pub proof fn lemma_one_text<M: UserMemory>(mem: &M, addr: u64, s: Seq<u8>, t: Seq<u8>, max: int)
    requires
        text_at(mem, addr, s, max),
        text_at(mem, addr, t, max),
    ensures
        s == t,
        !s.contains(0u8),
        s.len() < max,
{
    if s.len() < t.len() {
        assert(mem.byte_at((addr + s.len()) as u64) != Some(0u8));
    }
    if t.len() < s.len() {
        assert(mem.byte_at((addr + t.len()) as u64) != Some(0u8));
    }
    if s.contains(0u8) {
        let i = choose|i: int| 0 <= i < s.len() && s[i] == 0u8;
        assert(s[i] == text_bytes(mem, addr, s.len())[i]);
        assert(mem.byte_at((addr + i) as u64) is Some);
    }
}

/// A word that is copied to a program is the word that is read there.
pub proof fn lemma_word_found<M: UserMemory>(before: &M, after: &M, dst: u64, w: u64)
    requires
        copied(before, after, dst, le_digits(w as nat, 8)),
        accessible(before, dst, 8),
    ensures
        word_readable(after, dst as int),
        word_at(after, dst as int) == w,
{
    let data = le_digits(w as nat, 8);
    lemma_le_digits_len(w as nat, 8);
    assert forall|i: int| 0 <= i < 8 implies #[trigger] after.byte_at((dst + i) as u64) == Some(data[i]) by {
        lemma_copy_found(before, after, dst, data, (dst + i) as u64);
    }
    assert(text_bytes(after, dst, 8) =~= data);
    reveal_with_fuel(pow256, 9);
    lemma_le_round_trip(w as nat, 8);
    assert forall|i: int| 0 <= i < 8 implies (#[trigger] after.byte_at((dst as int as u64 + i) as u64)) is Some by {
        assert(after.byte_at((dst + i) as u64) == Some(data[i]));
    }
}

/// A time that is written is the time that is read, seconds first.
pub proof fn lemma_time_found(t: Timespec)
    requires
        t.valid(),
    ensures
        timespec_bytes(t).len() == 16,
        timespec_in(timespec_bytes(t)) == t,
{
    lemma_le_digits_len((t.tv_sec as u64) as nat, 8);
    lemma_le_digits_len((t.tv_nsec as u64) as nat, 8);
    reveal_with_fuel(pow256, 9);
    lemma_le_round_trip((t.tv_sec as u64) as nat, 8);
    lemma_le_round_trip((t.tv_nsec as u64) as nat, 8);
    assert(timespec_bytes(t).subrange(0, 8) =~= le_digits((t.tv_sec as u64) as nat, 8));
    assert(timespec_bytes(t).subrange(8, 16) =~= le_digits((t.tv_nsec as u64) as nat, 8));
}

/// The pieces are moved as one: what is asked for is the sum of their lengths.
pub proof fn lemma_pieces_asked(iov: Seq<Iovec>, whole: bool, n: u64)
    requires
        vector_plan(iov, whole) == VectorPlan::Move(n),
    ensures
        n == total_len(iov),
        n > 0,
        whole ==> forall|i: int|
            0 <= i < iov.len() && (#[trigger] iov[i]).iov_len > 0 ==> iov[i].iov_base != 0,
{
    lemma_total_len(iov);
    if whole {
        assert forall|i: int| 0 <= i < iov.len() && (#[trigger] iov[i]).iov_len > 0 implies iov[i].iov_base
            != 0 by {
            assert(!has_hole(iov));
        }
    }
}

proof fn lemma_total_len(iov: Seq<Iovec>)
    ensures
        total_len(iov) >= 0,
    decreases iov.len(),
{
    if iov.len() > 0 {
        lemma_total_len(iov.drop_last());
    }
}

/// The bytes of the pieces from `i` on.
pub open spec fn len_from(iov: Seq<Iovec>, i: int) -> int
    decreases iov.len() - i,
{
    if i < 0 || i >= iov.len() {
        0
    } else {
        iov[i].iov_len + len_from(iov, i + 1)
    }
}

proof fn lemma_len_from(iov: Seq<Iovec>, i: int)
    ensures
        len_from(iov, i) >= 0,
    decreases iov.len() - i,
{
    if 0 <= i < iov.len() {
        lemma_len_from(iov, i + 1);
    }
}

/// Whether the bytes go to the pieces one after the other: each part starts where the last one
/// ended, and lies at the start of a piece that has room for it.
pub open spec fn in_order(parts: Seq<Part>, iov: Seq<Iovec>, from: int, end: int) -> bool
    decreases parts.len(),
{
    if parts.len() == 0 {
        from == end
    } else {
        &&& parts[0].from == from
        &&& parts[0].count > 0
        &&& fits_piece(iov, parts[0])
        &&& in_order(parts.skip(1), iov, from + parts[0].count, end)
    }
}

/// Whether a part is the start of one of the pieces.
pub open spec fn fits_piece(iov: Seq<Iovec>, p: Part) -> bool {
    exists|i: int| 0 <= i < iov.len() && (#[trigger] iov[i]).iov_base == p.base && p.count <= iov[i].iov_len
}

/// What was read goes to the pieces in order and without gaps, until there is no more of it or
/// no more room.
pub proof fn lemma_bytes_scattered(iov: Seq<Iovec>, i: int, from: u64, n: u64, parts: Seq<Part>)
    requires
        0 <= i <= iov.len(),
        from <= n,
        scattered(iov, i, from, n) == Some(parts),
    ensures
        in_order(
            parts,
            iov,
            from as int,
            if from + len_from(iov, i) < n {
                from + len_from(iov, i)
            } else {
                n as int
            },
        ),
    decreases iov.len() - i,
{
    lemma_len_from(iov, i);
    if i < iov.len() && from < n {
        lemma_len_from(iov, i + 1);
        if iov[i].iov_len == 0 {
            lemma_bytes_scattered(iov, i + 1, from, n, parts);
        } else {
            let left = (n - from) as u64;
            let count = if iov[i].iov_len < left {
                iov[i].iov_len
            } else {
                left
            };
            let rest = scattered(iov, i + 1, (from + count) as u64, n)->0;
            lemma_bytes_scattered(iov, i + 1, (from + count) as u64, n, rest);
            assert(parts.skip(1) =~= rest);
            assert(parts[0] == (Part { base: iov[i].iov_base, from, count }));
        }
    }
}

/// Whether each of the pieces is somewhere and the first of them were moved whole.
pub open spec fn moved_whole(iov: Seq<Iovec>, outs: Seq<Option<u64>>) -> bool {
    &&& outs.len() <= iov.len()
    &&& forall|i: int| 0 <= i < iov.len() ==> (#[trigger] iov[i]).iov_len > 0 && iov[i].iov_base != 0
    &&& forall|i: int| 0 <= i < outs.len() ==> #[trigger] outs[i] == Some(iov[i].iov_len)
}

/// Where all pieces so far were moved whole, the next one follows in the file at once; when
/// there is none left, the bytes of all of them are the answer.
pub proof fn lemma_next_piece(iov: Seq<Iovec>, outs: Seq<Option<u64>>, offset: u64, k: int, total: u64)
    requires
        moved_whole(iov, outs),
        0 <= k <= outs.len(),
        offset + total + len_from(iov, k) <= i64::MAX,
        iov.len() <= usize::MAX,
    ensures
        ({
            let done = total + len_from(iov, k) - len_from(iov, outs.len() as int);
            vector_next(iov, outs, offset, k, k, total) == if outs.len() < iov.len() {
                VectorStep::Move { index: outs.len() as usize, place: (offset + done) as u64 }
            } else {
                VectorStep::Return(done as i64)
            }
        }),
    decreases outs.len() - k,
{
    lemma_len_from(iov, k);
    lemma_len_from(iov, k + 1);
    if k < outs.len() {
        assert(outs[k] == Some(iov[k].iov_len));
        lemma_next_piece(iov, outs, offset, k + 1, (total + iov[k].iov_len) as u64);
    } else if k < iov.len() {
        assert(iov[k].iov_len > 0);
    }
}

/// A piece of which only a part was moved is the last: the answer is what was moved.
pub proof fn lemma_short_piece(iov: Seq<Iovec>, outs: Seq<Option<u64>>, offset: u64, k: int, total: u64, n: u64)
    requires
        0 <= k < iov.len(),
        k < outs.len(),
        iov[k].iov_base != 0,
        outs[k] == Some(n),
        n < iov[k].iov_len,
        total + n <= i64::MAX,
    ensures
        vector_next(iov, outs, offset, k, k, total) == VectorStep::Return((total + n) as i64),
{
}

/// There is one list at a place: the texts that its words point to, up to the first word that is
/// zero.
pub proof fn lemma_one_list<M: UserMemory>(mem: &M, addr: u64, ss: Seq<Seq<u8>>, ts: Seq<Seq<u8>>)
    requires
        list_read(mem, addr, ss),
        list_read(mem, addr, ts),
    ensures
        ss == ts,
        ss.len() <= 128,
{
    lemma_list_starts(mem, addr, ss, ts);
    lemma_list_starts(mem, addr, ts, ss);
    assert(ss =~= ts);
}

proof fn lemma_list_starts<M: UserMemory>(mem: &M, addr: u64, ss: Seq<Seq<u8>>, ts: Seq<Seq<u8>>)
    requires
        list_read(mem, addr, ss),
        list_read(mem, addr, ts),
    ensures
        ss.len() >= ts.len(),
        forall|i: int| 0 <= i < ts.len() ==> #[trigger] ss[i] == ts[i],
{
    if ss.len() < ts.len() {
        assert(entry_is(mem, addr, ss.len() as int, ts[ss.len() as int], 4096));
    }
    assert forall|i: int| 0 <= i < ts.len() implies #[trigger] ss[i] == ts[i] by {
        assert(entry_is(mem, addr, i, ss[i], 4096));
        assert(entry_is(mem, addr, i, ts[i], 4096));
        lemma_one_text(mem, word_at(mem, addr + 8 * i), ss[i], ts[i], 4096);
    }
}

} // verus!
