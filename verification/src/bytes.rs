//! Byte strings: comparison, slicing, searching and little-endian fields.

use vstd::prelude::*;

verus! {

/// The little-endian number whose digits are the bytes of `s`.
pub open spec fn le_value(s: Seq<u8>) -> nat
    decreases s.len(),
{
    if s.len() == 0 {
        0
    } else {
        s[0] as nat + 256 * le_value(s.skip(1))
    }
}

/// The `n` low base-256 digits of `v`, least significant first.
pub open spec fn le_digits(v: nat, n: nat) -> Seq<u8>
    decreases n,
{
    if n == 0 {
        Seq::<u8>::empty()
    } else {
        seq![(v % 256) as u8] + le_digits(v / 256, (n - 1) as nat)
    }
}

/// `256` to the power `n`.
pub open spec fn pow256(n: nat) -> nat
    decreases n,
{
    if n == 0 {
        1
    } else {
        256 * pow256((n - 1) as nat)
    }
}

pub proof fn lemma_le_digits_len(v: nat, n: nat)
    ensures
        le_digits(v, n).len() == n,
    decreases n,
{
    if n > 0 {
        lemma_le_digits_len(v / 256, (n - 1) as nat);
    }
}

/// Decoding the encoding of a number that fits gives the number back.
pub proof fn lemma_le_round_trip(v: nat, n: nat)
    requires
        v < pow256(n),
    ensures
        le_value(le_digits(v, n)) == v,
    decreases n,
{
    if n > 0 {
        let rest = le_digits(v / 256, (n - 1) as nat);
        lemma_le_round_trip(v / 256, (n - 1) as nat);
        assert(le_digits(v, n).skip(1) =~= rest);
    } else {
        assert(le_digits(v, n) =~= Seq::<u8>::empty());
    }
}

/// Encoding the decoded value of `s` gives `s` back.
pub proof fn lemma_le_value_digits(s: Seq<u8>)
    ensures
        le_digits(le_value(s), s.len()) == s,
        le_value(s) < pow256(s.len()),
    decreases s.len(),
{
    if s.len() > 0 {
        let rest = s.skip(1);
        lemma_le_value_digits(rest);
        assert(rest.len() == s.len() - 1);
        let v = le_value(s);
        assert(v == s[0] as nat + 256 * le_value(rest));
        assert(v % 256 == s[0] as nat);
        assert(v / 256 == le_value(rest));
        assert(le_digits(v, s.len()) == seq![(v % 256) as u8] + le_digits(v / 256, rest.len()));
        assert(seq![s[0]] + rest =~= s);
    } else {
        assert(le_digits(le_value(s), 0) =~= s);
    }
}

/// The two-byte little-endian field at `at`.
pub fn read_u16(s: &[u8], at: usize) -> (r: u16)
    requires
        at + 2 <= s@.len(),
    ensures
        r as nat == le_value(s@.subrange(at as int, at + 2)),
{
    proof {
        let t = s@.subrange(at as int, at + 2);
        reveal_with_fuel(le_value, 3);
        assert(t[0] == s@[at as int] && t.skip(1)[0] == s@[at + 1]);
        assert(le_value(t) == t[0] as nat + 256 * (t.skip(1)[0] as nat + 256 * le_value(
            t.skip(1).skip(1),
        )));
    }
    s[at] as u16 + 256 * (s[at + 1] as u16)
}

/// The four-byte little-endian field at `at`.
pub fn read_u32(s: &[u8], at: usize) -> (r: u32)
    requires
        at + 4 <= s@.len(),
    ensures
        r as nat == le_value(s@.subrange(at as int, at + 4)),
{
    let _len: usize = s.len();
    let lo: u16 = read_u16(s, at);
    let hi: u16 = read_u16(s, at + 2);
    proof {
        lemma_le_split(s@.subrange(at as int, at + 4), 2);
        assert(s@.subrange(at as int, at + 4).take(2) =~= s@.subrange(at as int, at + 2));
        assert(s@.subrange(at as int, at + 4).skip(2) =~= s@.subrange(at + 2, at + 4));
        reveal_with_fuel(pow256, 3);
    }
    lo as u32 + 65536 * (hi as u32)
}

/// The eight-byte little-endian field at `at`.
pub fn read_u64(s: &[u8], at: usize) -> (r: u64)
    requires
        at + 8 <= s@.len(),
    ensures
        r as nat == le_value(s@.subrange(at as int, at + 8)),
{
    let _len: usize = s.len();
    let lo: u32 = read_u32(s, at);
    let hi: u32 = read_u32(s, at + 4);
    proof {
        lemma_le_split(s@.subrange(at as int, at + 8), 4);
        assert(s@.subrange(at as int, at + 8).take(4) =~= s@.subrange(at as int, at + 4));
        assert(s@.subrange(at as int, at + 8).skip(4) =~= s@.subrange(at + 4, at + 8));
        reveal_with_fuel(pow256, 5);
    }
    lo as u64 + 0x1_0000_0000 * (hi as u64)
}

/// A little-endian number is its low part plus its high part shifted.
pub proof fn lemma_le_split(s: Seq<u8>, k: nat)
    requires
        k <= s.len(),
    ensures
        le_value(s) == le_value(s.take(k as int)) + pow256(k) * le_value(s.skip(k as int)),
    decreases k,
{
    if k == 0 {
        assert(s.take(0) =~= Seq::<u8>::empty());
        assert(s.skip(0) =~= s);
        assert(le_value(s.take(0)) == 0);
        assert(pow256(0) == 1);
    } else {
        lemma_le_split(s.skip(1), (k - 1) as nat);
        assert(s.take(k as int).skip(1) =~= s.skip(1).take(k - 1));
        assert(s.skip(1).skip(k - 1) =~= s.skip(k as int));
        let hi = le_value(s.skip(k as int));
        let p = pow256((k - 1) as nat);
        assert(256 * (p * hi) == (256 * p) * hi) by (nonlinear_arith);
        assert(s.take(k as int)[0] == s[0]);
    }
}

/// Appends the `n` low little-endian bytes of `v`.
pub fn push_le(out: &mut Vec<u8>, v: u64, n: usize)
    requires
        old(out)@.len() + n <= usize::MAX,
    ensures
        final(out)@ == old(out)@ + le_digits(v as nat, n as nat),
{
    let mut rest: u64 = v;
    let mut i: usize = 0;
    while i < n
        invariant
            i <= n,
            out@ + le_digits(rest as nat, (n - i) as nat) == old(out)@ + le_digits(
                v as nat,
                n as nat,
            ),
        decreases n - i,
    {
        let ghost before = out@;
        let digit: u8 = (rest % 256) as u8;
        out.push(digit);
        proof {
            let tail = le_digits((rest / 256) as nat, (n - i - 1) as nat);
            assert(le_digits(rest as nat, (n - i) as nat) == seq![(rest % 256) as u8] + tail);
            assert(out@ + tail =~= before + (seq![digit] + tail));
        }
        rest = rest / 256;
        i = i + 1;
    }
    proof {
        assert(out@ + le_digits(rest as nat, 0) =~= out@);
    }
}

/// Appends the bytes of `s`.
pub fn push_all(out: &mut Vec<u8>, s: &[u8])
    ensures
        final(out)@ == old(out)@ + s@,
{
    let mut i: usize = 0;
    while i < s.len()
        invariant
            i <= s@.len(),
            out@ == old(out)@ + s@.take(i as int),
        decreases s@.len() - i,
    {
        out.push(s[i]);
        i = i + 1;
        proof {
            assert(s@.take(i as int) =~= s@.take(i - 1).push(s@[i - 1]));
        }
    }
    proof {
        assert(s@.take(i as int) =~= s@);
    }
}

/// Appends `n` copies of `b`.
pub fn push_repeat(out: &mut Vec<u8>, b: u8, n: usize)
    ensures
        final(out)@ == old(out)@ + Seq::new(n as nat, |i: int| b),
{
    let mut i: usize = 0;
    while i < n
        invariant
            i <= n,
            out@ == old(out)@ + Seq::new(i as nat, |j: int| b),
        decreases n - i,
    {
        out.push(b);
        i = i + 1;
        proof {
            assert(Seq::new(i as nat, |j: int| b) =~= Seq::new((i - 1) as nat, |j: int| b).push(b));
        }
    }
}

/// A copy of the bytes of `s`.
pub fn to_vec(s: &[u8]) -> (r: Vec<u8>)
    ensures
        r@ == s@,
{
    let mut out: Vec<u8> = Vec::new();
    push_all(&mut out, s);
    proof {
        assert(out@ =~= s@);
    }
    out
}

/// A copy of the bytes of `s` from `from` up to `to`.
pub fn cut(s: &[u8], from: usize, to: usize) -> (r: Vec<u8>)
    requires
        from <= to <= s@.len(),
    ensures
        r@ == s@.subrange(from as int, to as int),
{
    let mut out: Vec<u8> = Vec::new();
    let mut i: usize = from;
    while i < to
        invariant
            from <= i <= to <= s@.len(),
            out@ == s@.subrange(from as int, i as int),
        decreases to - i,
    {
        out.push(s[i]);
        i = i + 1;
        proof {
            assert(s@.subrange(from as int, i as int) =~= s@.subrange(from as int, i - 1).push(
                s@[i - 1],
            ));
        }
    }
    proof {
        assert(s@.subrange(from as int, to as int) =~= out@);
    }
    out
}

/// Whether `a` and `b` hold the same bytes.
pub fn same(a: &[u8], b: &[u8]) -> (r: bool)
    ensures
        r == (a@ == b@),
{
    if a.len() != b.len() {
        return false;
    }
    let mut i: usize = 0;
    while i < a.len()
        invariant
            i <= a@.len() == b@.len(),
            forall|j: int| 0 <= j < i ==> a@[j] == b@[j],
        decreases a@.len() - i,
    {
        if a[i] != b[i] {
            return false;
        }
        i = i + 1;
    }
    proof {
        assert(a@ =~= b@);
    }
    true
}

/// Whether `p` stands at the start of `s`.
pub open spec fn has_prefix(s: Seq<u8>, p: Seq<u8>) -> bool {
    p.len() <= s.len() && s.take(p.len() as int) == p
}

/// Whether `p` stands at the start of `s`.
pub fn starts_with(s: &[u8], p: &[u8]) -> (r: bool)
    ensures
        r == has_prefix(s@, p@),
{
    if s.len() < p.len() {
        return false;
    }
    let mut i: usize = 0;
    while i < p.len()
        invariant
            i <= p@.len() <= s@.len(),
            forall|j: int| 0 <= j < i ==> s@[j] == p@[j],
        decreases p@.len() - i,
    {
        if s[i] != p[i] {
            proof {
                assert(s@.take(p@.len() as int)[i as int] != p@[i as int]);
            }
            return false;
        }
        i = i + 1;
    }
    proof {
        assert(s@.take(p@.len() as int) =~= p@);
    }
    true
}

/// The first position of `b` in `s`, or the length of `s`.
pub open spec fn first_pos(s: Seq<u8>, b: u8) -> int
    decreases s.len(),
{
    if s.len() == 0 || s[0] == b {
        0
    } else {
        1 + first_pos(s.skip(1), b)
    }
}

pub proof fn lemma_first_pos(s: Seq<u8>, b: u8, k: int)
    requires
        0 <= k <= s.len(),
        forall|i: int| 0 <= i < k ==> s[i] != b,
        k == s.len() || s[k] == b,
    ensures
        first_pos(s, b) == k,
    decreases s.len(),
{
    if k > 0 {
        assert forall|i: int| 0 <= i < k - 1 implies s.skip(1)[i] != b by {
            assert(s.skip(1)[i] == s[i + 1]);
        }
        lemma_first_pos(s.skip(1), b, k - 1);
    }
}

pub proof fn lemma_first_pos_is(s: Seq<u8>, b: u8)
    ensures
        0 <= first_pos(s, b) <= s.len(),
        first_pos(s, b) < s.len() ==> s[first_pos(s, b)] == b,
        forall|i: int| 0 <= i < first_pos(s, b) ==> s[i] != b,
    decreases s.len(),
{
    if s.len() > 0 && s[0] != b {
        lemma_first_pos_is(s.skip(1), b);
        assert forall|i: int| 0 <= i < first_pos(s, b) implies s[i] != b by {
            if i > 0 {
                assert(s.skip(1)[i - 1] == s[i]);
            }
        }
    }
}

/// The first position of `b` in `s`, or the length of `s`.
pub fn find(s: &[u8], b: u8) -> (r: usize)
    ensures
        r == first_pos(s@, b),
        r <= s@.len(),
{
    let mut i: usize = 0;
    while i < s.len()
        invariant
            i <= s@.len(),
            forall|j: int| 0 <= j < i ==> s@[j] != b,
        decreases s@.len() - i,
    {
        if s[i] == b {
            proof {
                lemma_first_pos(s@, b, i as int);
            }
            return i;
        }
        i = i + 1;
    }
    proof {
        lemma_first_pos(s@, b, i as int);
    }
    i
}

/// The last position of `b` in `s`, if there is one.
pub fn rfind(s: &[u8], b: u8) -> (r: Option<usize>)
    ensures
        match r {
            Some(k) => k < s@.len() && s@[k as int] == b && forall|i: int|
                k < i < s@.len() ==> s@[i] != b,
            None => forall|i: int| 0 <= i < s@.len() ==> s@[i] != b,
        },
{
    let mut i: usize = s.len();
    while i > 0
        invariant
            i <= s@.len(),
            forall|j: int| i <= j < s@.len() ==> s@[j] != b,
        decreases i,
    {
        i = i - 1;
        if s[i] == b {
            return Some(i);
        }
    }
    None
}

/// The byte strings that `v` holds.
pub open spec fn views(v: Seq<Vec<u8>>) -> Seq<Seq<u8>> {
    v.map_values(|x: Vec<u8>| x@)
}

/// The pieces of `s` between the occurrences of `b`.
pub open spec fn pieces(s: Seq<u8>, b: u8) -> Seq<Seq<u8>>
    decreases s.len(),
    via pieces_decreases
{
    let p = first_pos(s, b);
    if p >= s.len() {
        seq![s]
    } else {
        seq![s.take(p)] + pieces(s.skip(p + 1), b)
    }
}

#[via_fn]
proof fn pieces_decreases(s: Seq<u8>, b: u8) {
    lemma_first_pos_is(s, b);
}

/// The pieces of `s` between the occurrences of `b`.
pub fn split(s: &[u8], b: u8) -> (r: Vec<Vec<u8>>)
    ensures
        views(r@) == pieces(s@, b),
{
    let mut out: Vec<Vec<u8>> = Vec::new();
    let mut start: usize = 0;
    proof {
        assert(s@.skip(0) =~= s@);
        assert(views(out@) + pieces(s@, b) =~= pieces(s@, b));
    }
    loop
        invariant_except_break
            start <= s@.len(),
            views(out@) + pieces(s@.skip(start as int), b) == pieces(s@, b),
        ensures
            views(out@) == pieces(s@, b),
        decreases s@.len() - start,
    {
        let mut end: usize = start;
        while end < s.len() && s[end] != b
            invariant
                start <= end <= s@.len(),
                forall|j: int| start <= j < end ==> s@[j] != b,
            decreases s@.len() - end,
        {
            end = end + 1;
        }
        let ghost rest = s@.skip(start as int);
        let ghost before = out@;
        proof {
            assert forall|i: int| 0 <= i < end - start implies rest[i] != b by {
                assert(rest[i] == s@[start + i]);
            }
            if end < s@.len() {
                assert(rest[end - start] == s@[end as int]);
            }
            lemma_first_pos(rest, b, end - start);
        }
        let piece: Vec<u8> = cut(s, start, end);
        out.push(piece);
        proof {
            assert(views(out@) =~= views(before).push(piece@));
            assert(piece@ =~= rest.take(end - start));
        }
        if end >= s.len() {
            proof {
                assert(piece@ =~= rest);
                assert(pieces(rest, b) == seq![rest]);
                assert(views(out@) =~= views(before) + seq![rest]);
            }
            break;
        }
        proof {
            assert(rest.skip(end - start + 1) =~= s@.skip(end + 1));
            let tail = pieces(s@.skip(end + 1), b);
            assert(pieces(rest, b) == seq![rest.take(end - start)] + tail);
            assert(views(out@) + tail =~= views(before) + (seq![rest.take(end - start)] + tail));
        }
        start = end + 1;
    }
    out
}

/// `s` without the copies of `b` at its end.
pub open spec fn trim_end_spec(s: Seq<u8>, b: u8) -> Seq<u8>
    decreases s.len(),
{
    if s.len() > 0 && s.last() == b {
        trim_end_spec(s.drop_last(), b)
    } else {
        s
    }
}

/// How many bytes of `s` are left without the copies of `b` at its end.
pub fn trim_end_len(s: &[u8], b: u8) -> (r: usize)
    ensures
        r <= s@.len(),
        s@.take(r as int) == trim_end_spec(s@, b),
{
    let mut n: usize = s.len();
    proof {
        assert(s@.take(n as int) =~= s@);
    }
    while n > 0 && s[n - 1] == b
        invariant
            n <= s@.len(),
            trim_end_spec(s@.take(n as int), b) == trim_end_spec(s@, b),
        decreases n,
    {
        proof {
            assert(s@.take(n as int).drop_last() =~= s@.take(n - 1));
        }
        n = n - 1;
    }
    n
}

/// `s` with its ASCII letters in upper case.
pub open spec fn upper(s: Seq<u8>) -> Seq<u8> {
    s.map_values(|c: u8| upper_byte(c))
}

pub open spec fn upper_byte(c: u8) -> u8 {
    if 97 <= c <= 122 {
        (c - 32) as u8
    } else {
        c
    }
}

/// A copy of `s` with its ASCII letters in upper case.
pub fn to_upper(s: &[u8]) -> (r: Vec<u8>)
    ensures
        r@ == upper(s@),
{
    let mut out: Vec<u8> = Vec::new();
    let mut i: usize = 0;
    while i < s.len()
        invariant
            i <= s@.len(),
            out@ == upper(s@.take(i as int)),
        decreases s@.len() - i,
    {
        let c: u8 = s[i];
        let u: u8 = if c >= 97 && c <= 122 {
            c - 32
        } else {
            c
        };
        out.push(u);
        i = i + 1;
        proof {
            assert(s@.take(i as int) =~= s@.take(i - 1).push(c));
            assert(upper(s@.take(i as int)) =~= upper(s@.take(i - 1)).push(upper_byte(c)));
        }
    }
    proof {
        assert(s@.take(i as int) =~= s@);
    }
    out
}

/// Whether `s` is well-formed UTF-8, by `core::str::from_utf8`, which accepts
/// exactly the well-formed encodings.
#[verifier::external_body]
pub(crate) fn is_utf8(s: &[u8]) -> (r: bool)
    ensures
        r == vstd::utf8::valid_utf8(s@),
{
    core::str::from_utf8(s).is_ok()
}

/// Whether a number of `n` bytes stands in a file at a place, its low byte first.
pub open spec fn stands(c: Seq<u8>, at: int, n: nat, v: nat) -> bool {
    &&& v < pow256(n)
    &&& 0 <= at && at + n <= c.len()
    &&& c.subrange(at, at + n) == le_digits(v, n)
}

/// A number that stands somewhere is the number that is read there.
pub proof fn lemma_stands(c: Seq<u8>, at: int, n: nat, v: nat)
    requires
        stands(c, at, n, v),
    ensures
        le_value(c.subrange(at, at + n)) == v,
{
    lemma_le_round_trip(v, n);
}

} // verus!
