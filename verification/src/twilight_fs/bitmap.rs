//! Bitmaps that span several blocks: a set bit marks an inode or a zone in use.

use vstd::prelude::*;

verus! {

/// The number of bits in a block.
pub const BITS_PER_BLOCK: u64 = 16384;

/// Bit `i` of `b`.
pub open spec fn bit(b: u8, i: u8) -> bool {
    b & (1u8 << i) != 0
}

/// `b` with bit `i` set or cleared.
pub open spec fn with_bit(b: u8, i: u8, v: bool) -> u8 {
    if v {
        b | (1u8 << i)
    } else {
        b & !(1u8 << i)
    }
}

pub proof fn lemma_with_bit(b: u8, i: u8, j: u8, v: bool)
    requires
        i < 8,
        j < 8,
    ensures
        bit(with_bit(b, i, v), j) == if i == j {
            v
        } else {
            bit(b, j)
        },
{
    assert((b | (1u8 << i)) & (1u8 << j) != 0 <==> (i == j || b & (1u8 << j) != 0)) by (bit_vector)
        requires
            i < 8,
            j < 8,
    ;
    assert((b & !(1u8 << i)) & (1u8 << j) != 0 <==> (i != j && b & (1u8 << j) != 0))
        by (bit_vector)
        requires
            i < 8,
            j < 8,
    ;
}

/// Bit `r` of the bitmap that starts with block `start`.
pub open spec fn bit_at(blocks: Seq<Seq<u8>>, start: int, r: int) -> bool {
    bit(blocks[start + r / 16384][(r % 16384) / 8], (r % 8) as u8)
}

/// `blocks` with bit `r` of the bitmap that starts with block `start` set or
/// cleared.
pub open spec fn with_bit_at(blocks: Seq<Seq<u8>>, start: int, r: int, v: bool) -> Seq<Seq<u8>> {
    let b = start + r / 16384;
    let k = (r % 16384) / 8;
    blocks.update(b, blocks[b].update(k, with_bit(blocks[b][k], (r % 8) as u8, v)))
}

pub proof fn lemma_with_bit_at(blocks: Seq<Seq<u8>>, start: int, r: int, s: int, v: bool)
    requires
        0 <= start,
        0 <= r,
        0 <= s,
        start + r / 16384 < blocks.len(),
        start + s / 16384 < blocks.len(),
        blocks[start + r / 16384].len() == 2048,
    ensures
        bit_at(with_bit_at(blocks, start, r, v), start, s) == if r == s {
            v
        } else {
            bit_at(blocks, start, s)
        },
{
    let b = start + r / 16384;
    let k = (r % 16384) / 8;
    lemma_with_bit(blocks[b][k], (r % 8) as u8, (s % 8) as u8, v);
    if s / 16384 == r / 16384 && (s % 16384) / 8 == k {
        assert(r == s <==> r % 8 == s % 8);
    }
}

/// How many of the first `n` bits are clear.
pub open spec fn clear_count(blocks: Seq<Seq<u8>>, start: int, n: int) -> nat
    decreases n,
{
    if n <= 0 {
        0
    } else {
        clear_count(blocks, start, n - 1) + if bit_at(blocks, start, n - 1) {
            0nat
        } else {
            1nat
        }
    }
}

/// Whether `r` is the first clear bit among the first `n`.
pub open spec fn is_first_clear(blocks: Seq<Seq<u8>>, start: int, n: int, r: int) -> bool {
    &&& 0 <= r < n
    &&& !bit_at(blocks, start, r)
    &&& forall|s: int| 0 <= s < r ==> bit_at(blocks, start, s)
}

/// Whether the first `n` bits are all set.
pub open spec fn all_set(blocks: Seq<Seq<u8>>, start: int, n: int) -> bool {
    forall|s: int| 0 <= s < n ==> bit_at(blocks, start, s)
}

pub proof fn lemma_clear_count_zero(blocks: Seq<Seq<u8>>, start: int, n: int)
    ensures
        all_set(blocks, start, n) ==> clear_count(blocks, start, n) == 0,
        clear_count(blocks, start, n) == 0 ==> all_set(blocks, start, n),
    decreases n,
{
    if n > 0 {
        lemma_clear_count_zero(blocks, start, n - 1);
        if clear_count(blocks, start, n) == 0 {
            assert(bit_at(blocks, start, n - 1));
            assert(all_set(blocks, start, n));
        }
    }
}

/// Setting a clear bit leaves one clear bit less; the other way round, one more.
pub proof fn lemma_clear_count_set(blocks: Seq<Seq<u8>>, start: int, n: int, r: int, v: bool)
    requires
        0 <= start,
        0 <= r,
        start + r / 16384 < blocks.len(),
        n > 0 ==> start + (n - 1) / 16384 < blocks.len(),
        blocks[start + r / 16384].len() == 2048,
    ensures
        clear_count(with_bit_at(blocks, start, r, v), start, n) == clear_count(blocks, start, n)
            + if r < n && v && !bit_at(blocks, start, r) {
            -1int
        } else if r < n && !v && bit_at(blocks, start, r) {
            1int
        } else {
            0int
        },
    decreases n,
{
    if n > 0 {
        lemma_clear_count_set(blocks, start, n - 1, r, v);
        lemma_with_bit_at(blocks, start, r, n - 1, v);
    }
}

/// Bitmaps with the same bits have the same counts.
pub proof fn lemma_clear_count_same(a: Seq<Seq<u8>>, b: Seq<Seq<u8>>, start: int, n: int)
    requires
        forall|s: int| 0 <= s < n ==> bit_at(a, start, s) == bit_at(b, start, s),
    ensures
        clear_count(a, start, n) == clear_count(b, start, n),
    decreases n,
{
    if n > 0 {
        lemma_clear_count_same(a, b, start, n - 1);
    }
}

/// Tests a bit of a byte.
pub fn test_bit(b: u8, i: u8) -> (r: bool)
    requires
        i < 8,
    ensures
        r == bit(b, i),
{
    b & (1u8 << i) != 0
}

/// Sets or clears a bit of a byte.
pub fn put_bit(b: u8, i: u8, v: bool) -> (r: u8)
    requires
        i < 8,
    ensures
        r == with_bit(b, i, v),
{
    if v {
        b | (1u8 << i)
    } else {
        b & !(1u8 << i)
    }
}

/// The first clear bit of a block from `from` on, below `limit`.
pub fn find_clear(block: &Vec<u8>, from: usize, limit: usize) -> (r: Option<usize>)
    requires
        block@.len() == 2048,
        from <= limit <= 16384,
    ensures
        match r {
            Some(k) => {
                &&& from <= k < limit
                &&& !bit(block@[k as int / 8], (k % 8) as u8)
                &&& forall|j: int|
                    from <= j < k ==> #[trigger] bit(block@[j / 8], (j % 8) as u8)
            },
            None => forall|j: int|
                from <= j < limit ==> #[trigger] bit(block@[j / 8], (j % 8) as u8),
        },
{
    let mut k: usize = from;
    while k < limit
        invariant
            from <= k <= limit <= 16384,
            block@.len() == 2048,
            forall|j: int| from <= j < k ==> #[trigger] bit(block@[j / 8], (j % 8) as u8),
        decreases limit - k,
    {
        if !test_bit(block[k / 8], (k % 8) as u8) {
            return Some(k);
        }
        k = k + 1;
    }
    None
}

/// How many of the first `limit` bits of a block are clear.
pub open spec fn block_clear_count(block: Seq<u8>, limit: int) -> nat
    decreases limit,
{
    if limit <= 0 {
        0
    } else {
        block_clear_count(block, limit - 1) + if bit(
            block[(limit - 1) / 8],
            ((limit - 1) % 8) as u8,
        ) {
            0nat
        } else {
            1nat
        }
    }
}

/// Counts the clear bits among the first `limit` of a block.
pub fn count_clear(block: &Vec<u8>, limit: usize) -> (r: u64)
    requires
        block@.len() == 2048,
        limit <= 16384,
    ensures
        r == block_clear_count(block@, limit as int),
        r <= limit,
{
    let mut k: usize = 0;
    let mut n: u64 = 0;
    while k < limit
        invariant
            k <= limit <= 16384,
            block@.len() == 2048,
            n == block_clear_count(block@, k as int),
            n <= k,
        decreases limit - k,
    {
        if !test_bit(block[k / 8], (k % 8) as u8) {
            n = n + 1;
        }
        k = k + 1;
    }
    n
}

/// The clear bits of a bitmap are those of its blocks.
pub proof fn lemma_count_blocks(blocks: Seq<Seq<u8>>, start: int, i: int, m: int)
    requires
        0 <= i,
        0 <= m <= 16384,
    ensures
        clear_count(blocks, start, i * 16384 + m) == clear_count(blocks, start, i * 16384)
            + block_clear_count(blocks[start + i], m),
    decreases m,
{
    if m > 0 {
        lemma_count_blocks(blocks, start, i, m - 1);
        let r = i * 16384 + m - 1;
        assert(r / 16384 == i && r % 16384 == m - 1 && r % 8 == (m - 1) % 8);
    }
}

} // verus!
