//! Which of the free zones a file is given: the lowest ones, in the order in which the
//! file needs them.

use crate::twilight_fs::fs::Superblock;
use crate::twilight_fs::plan::data_slot;
use crate::twilight_fs::zones::{
    claim, lemma_claim, marked, shape, slot, valid_slot, PlanView, Slot,
};
use vstd::prelude::*;

verus! {

/// The place of a slot in the order in which a file needs its zones: an indirect block
/// comes right before the zones that it names.
pub open spec fn rank(s: Slot) -> int {
    match s {
        Slot::Direct(i) => i,
        Slot::Single => 12,
        Slot::S(i) => 13 + i,
        Slot::Double => 525,
        Slot::L1(i) => 526 + i * 513,
        Slot::L2(i, j) => 527 + i * 513 + j,
    }
}

/// The first place that may get a new zone when the zone in `s` is asked for.
pub open spec fn first_rank(p: PlanView, s: Slot) -> int {
    match s {
        Slot::S(_) => if p.single == 0 {
            12
        } else {
            rank(s)
        },
        Slot::L2(i, _) => if p.double == 0 {
            525
        } else if p.dw[i] == 0 {
            rank(Slot::L1(i))
        } else {
            rank(s)
        },
        _ => rank(s),
    }
}

/// Whether no data zone below one that has been taken is still free.
pub open spec fn lowest_taken(before: Seq<Seq<u8>>, after: Seq<Seq<u8>>, sb: Superblock) -> bool {
    forall|z: int, y: int|
        #![trigger marked(after, sb, z), marked(after, sb, y)]
        marked(after, sb, z) && !marked(before, sb, z) && sb.first_data_zone <= y < z ==> marked(
            after,
            sb,
            y,
        )
}

/// Whether new zone numbers ascend along the order of the slots.
pub open spec fn ascending(p0: PlanView, p: PlanView) -> bool {
    forall|s: Slot, t: Slot|
        #![trigger slot(p, s), slot(p, t)]
        valid_slot(s) && valid_slot(t) && slot(p, s) != slot(p0, s) && slot(p, t) != slot(p0, t)
            && rank(s) < rank(t) ==> slot(p, s) < slot(p, t)
}

/// Whether the slots with new zone numbers come before place `f`.
pub open spec fn new_before(p0: PlanView, p: PlanView, f: int) -> bool {
    forall|s: Slot| valid_slot(s) && #[trigger] slot(p, s) != slot(p0, s) ==> rank(s) < f
}

/// The place after the last that a file of `n` blocks needs.
pub open spec fn ranks_for(n: int) -> int {
    if n == 0 {
        0
    } else {
        rank(data_slot(n - 1)) + 1
    }
}

/// Whether the zones that the slots before place `f` were given, and those that are set
/// aside in `pre`, are the lowest that were free, in order.
#[verifier::opaque]
pub open spec fn in_order(
    b0: Seq<Seq<u8>>,
    p0: PlanView,
    now: Seq<Seq<u8>>,
    sb: Superblock,
    p: PlanView,
    pre: Seq<u32>,
    f: int,
) -> bool {
    &&& new_before(p0, p, f)
    &&& ascending(p0, p)
    &&& forall|s: Slot, i: int|
        #![trigger slot(p, s), pre[i]]
        valid_slot(s) && slot(p, s) != slot(p0, s) && 0 <= i < pre.len() ==> slot(p, s) < pre[i]
    &&& forall|i: int, j: int| 0 <= i < j < pre.len() ==> pre[i] > pre[j]
    &&& lowest_taken(b0, now, sb)
}

/// Nothing is out of order where no slot has a new zone number.
pub proof fn lemma_order_any(b0: Seq<Seq<u8>>, now: Seq<Seq<u8>>, sb: Superblock, pre: Seq<u32>)
    requires
        forall|i: int, j: int| 0 <= i < j < pre.len() ==> pre[i] > pre[j],
        lowest_taken(b0, now, sb),
    ensures
        forall|p: PlanView| #[trigger] in_order(b0, p, now, sb, p, pre, 0),
{
    reveal(in_order);
}

/// What is in order stays so where a slot is passed over.
pub proof fn lemma_order_kept(
    b0: Seq<Seq<u8>>,
    p0: PlanView,
    now: Seq<Seq<u8>>,
    sb: Superblock,
    p: PlanView,
    pre: Seq<u32>,
    s: Slot,
)
    ensures
        forall|f: int| #[trigger]
            in_order(b0, p0, now, sb, p, pre, f) && f <= rank(s) + 1 ==> in_order(
                b0,
                p0,
                now,
                sb,
                p,
                pre,
                rank(s) + 1,
            ),
{
    reveal(in_order);
    assert forall|f: int| #[trigger]
        in_order(b0, p0, now, sb, p, pre, f) && f <= rank(s) + 1 implies in_order(
        b0,
        p0,
        now,
        sb,
        p,
        pre,
        rank(s) + 1,
    ) by {
        assert(new_before(p0, p, rank(s) + 1));
    }
}

/// What is in order stays so where a slot is given a zone: the last of those that are
/// set aside, else the lowest that is free.
pub proof fn lemma_order_claimed(
    b0: Seq<Seq<u8>>,
    p0: PlanView,
    before: Seq<Seq<u8>>,
    now: Seq<Seq<u8>>,
    sb: Superblock,
    p: PlanView,
    pre: Seq<u32>,
    rest: Seq<u32>,
    s: Slot,
    z: u32,
)
    requires
        shape(p),
        valid_slot(s),
        slot(p, s) == 0,
        slot(p0, s) == 0,
        forall|t: Slot|
            valid_slot(t) && #[trigger] slot(p, t) != slot(p0, t) ==> marked(
                before,
                sb,
                slot(p, t) as int,
            ) && !marked(b0, sb, slot(p, t) as int),
        if pre.len() > 0 {
            z == pre.last() && rest == pre.drop_last() && now == before
        } else {
            &&& rest == pre
            &&& !marked(before, sb, z as int)
            &&& marked(now, sb, z as int)
            &&& forall|y: int| y != z ==> #[trigger] marked(now, sb, y) == marked(before, sb, y)
            &&& forall|y: int| sb.first_data_zone <= y < z ==> #[trigger] marked(before, sb, y)
        },
    ensures
        forall|f: int| #[trigger]
            in_order(b0, p0, before, sb, p, pre, f) && f <= rank(s) ==> in_order(
                b0,
                p0,
                now,
                sb,
                claim(p, s, z),
                rest,
                rank(s) + 1,
            ),
{
    reveal(in_order);
    let q = claim(p, s, z);
    assert forall|f: int| #[trigger]
        in_order(b0, p0, before, sb, p, pre, f) && f <= rank(s) implies in_order(
        b0,
        p0,
        now,
        sb,
        q,
        rest,
        rank(s) + 1,
    ) by {
        assert forall|t: Slot| valid_slot(t) implies #[trigger] slot(q, t) == if t == s {
            z
        } else {
            slot(p, t)
        } by {
            lemma_claim(p, s, z, t);
        }
        assert forall|t: Slot|
            valid_slot(t) && t != s && #[trigger] slot(q, t) != slot(p0, t) implies slot(q, t) < z
            && rank(t) < rank(s) by {
            assert(slot(p, t) != slot(p0, t));
            assert(marked(before, sb, slot(p, t) as int));
            if pre.len() > 0 {
                assert(slot(p, t) < pre[pre.len() - 1]);
            } else if slot(p, t) > z {
                assert(marked(now, sb, z as int));
                assert(marked(before, sb, z as int) || sb.first_data_zone > z);
            }
        }
        assert(new_before(p0, q, rank(s) + 1));
        assert(ascending(p0, q)) by {
            assert forall|a: Slot, b: Slot|
                #![trigger slot(q, a), slot(q, b)]
                valid_slot(a) && valid_slot(b) && slot(q, a) != slot(p0, a) && slot(q, b) != slot(
                    p0,
                    b,
                ) && rank(a) < rank(b) implies slot(q, a) < slot(q, b) by {
                if a != s && b != s {
                    assert(slot(p, a) < slot(p, b));
                }
            }
        }
        assert forall|t: Slot, i: int|
            #![trigger slot(q, t), rest[i]]
            valid_slot(t) && slot(q, t) != slot(p0, t) && 0 <= i < rest.len() implies slot(q, t)
            < rest[i] by {
            assert(rest[i] == pre[i]);
            if t == s {
                assert(pre[i] > pre[pre.len() - 1]);
            } else {
                assert(slot(p, t) < pre[i]);
            }
        }
        assert forall|i: int, j: int| 0 <= i < j < rest.len() implies rest[i] > rest[j] by {
            assert(rest[i] == pre[i] && rest[j] == pre[j]);
        }
        assert(lowest_taken(b0, now, sb)) by {
            if pre.len() == 0 {
                assert forall|x: int, y: int|
                    #![trigger marked(now, sb, x), marked(now, sb, y)]
                    marked(now, sb, x) && !marked(b0, sb, x) && sb.first_data_zone <= y
                        < x implies marked(now, sb, y) by {
                    if x == z {
                        assert(marked(before, sb, y));
                    } else {
                        assert(marked(before, sb, x));
                        assert(marked(before, sb, y) || y == z);
                    }
                }
            }
        }
    }
}

/// Where a file has its zones up to some block, the next block is in order.
pub proof fn lemma_next_rank(p: PlanView, k: int)
    requires
        0 <= k < 262668,
        k > 12 ==> p.single != 0,
        k > 524 ==> p.double != 0 && p.dw[(k - 525) / 512] != 0,
    ensures
        ranks_for(k) <= first_rank(p, data_slot(k)),
{
    if k > 524 {
        let i = (k - 524) / 512;
        let h = (k - 525) / 512;
        if (k - 524) % 512 == 0 {
            assert(h == i - 1);
            assert((k - 525) % 512 == 511);
        } else {
            assert(h == i);
            assert((k - 525) % 512 == (k - 524) % 512 - 1);
        }
    }
}

} // verus!
