//! Planning which zones a file that is to be written will have.

use crate::block::BlockDeviceIO;
use crate::twilight_fs::bitmap::all_set;
use crate::twilight_fs::fs::{Superblock, TwilightFs};
use crate::twilight_fs::inode::InodeView;
use crate::twilight_fs::order::{
    first_rank, in_order, lemma_next_rank, lemma_order_claimed, lemma_order_kept, rank, ranks_for,
};
use crate::twilight_fs::volume::FsError;
use crate::twilight_fs::zones::{
    avail, claim, decode_words, lemma_claim, lemma_sound_claim, lemma_zmap_grew_trans, marked, no_words,
    plan_of, reserved, shape, slot, sound, valid_slot, words_of, zmap_grew, PlanView, Slot,
};
use vstd::prelude::*;

verus! {

/// The most blocks that a file can have.
pub const MAX_FILE_BLOCKS: usize = 262668;

/// The slot that names the zone of block `k` of a file.
pub open spec fn data_slot(k: int) -> Slot {
    if k < 12 {
        Slot::Direct(k)
    } else if k < 524 {
        Slot::S(k - 12)
    } else {
        Slot::L2((k - 524) / 512, (k - 524) % 512)
    }
}

/// The number of blocks that `n` bytes fill.
pub open spec fn blocks_for(n: int) -> int {
    (n + 2047) / 2048
}

/// Block `k` of a file with the contents `data`: its bytes, then zeros.
pub open spec fn chunk(data: Seq<u8>, k: int) -> Seq<u8> {
    if (k + 1) * 2048 <= data.len() {
        data.subrange(k * 2048, (k + 1) * 2048)
    } else {
        data.skip(k * 2048) + Seq::new((2048 - (data.len() - k * 2048)) as nat, |i: int| 0u8)
    }
}

/// Whether the zones of a file hold `data`.
pub open spec fn stored(blocks: Seq<Seq<u8>>, inode: InodeView, data: Seq<u8>) -> bool {
    forall|k: int|
        0 <= k < blocks_for(data.len() as int) ==> {
            let z = #[trigger] slot(plan_of(blocks, inode), data_slot(k));
            z != 0 && z < blocks.len() && blocks[z as int] == chunk(data, k)
        }
}

/// The numbers of a file while it is being written. Indirect blocks appear here
/// once they are needed.
pub struct Plan {
    pub direct: [u32; 12],
    pub single: u32,
    pub sw: Vec<u32>,
    pub single_dirty: bool,
    pub double: u32,
    pub dw: Vec<u32>,
    pub double_dirty: bool,
    pub l2: Vec<Vec<u32>>,
    pub l2_dirty: Vec<bool>,
}

/// All numbers of the file: those that the plan holds, the others as in `b0`.
pub open spec fn plan_view(plan: &Plan, b0: Seq<Seq<u8>>) -> PlanView {
    let dw = if plan.dw@.len() == 512 {
        plan.dw@
    } else {
        words_of(b0, plan.double)
    };
    PlanView {
        direct: plan.direct@,
        single: plan.single,
        sw: if plan.sw@.len() == 512 {
            plan.sw@
        } else {
            words_of(b0, plan.single)
        },
        double: plan.double,
        dw,
        l2: Seq::new(
            512,
            |i: int|
                if i < plan.l2@.len() {
                    plan.l2@[i]@
                } else {
                    words_of(b0, dw[i])
                },
        ),
    }
}

/// The blocks that a plan holds are whole.
pub open spec fn plan_wf(plan: &Plan) -> bool {
    &&& plan.sw@.len() == 0 || plan.sw@.len() == 512
    &&& plan.dw@.len() == 0 || plan.dw@.len() == 512
    &&& plan.l2@.len() <= 512
    &&& plan.l2@.len() > 0 ==> plan.dw@.len() == 512
    &&& plan.l2_dirty@.len() == plan.l2@.len()
    &&& forall|i: int| 0 <= i < plan.l2@.len() ==> (#[trigger] plan.l2@[i])@.len() == 512
}

/// What is not dirty is as it was: `p0` are the numbers at the start, in the
/// blocks `b0`.
pub open spec fn plan_tied(plan: &Plan, b0: Seq<Seq<u8>>, p0: PlanView) -> bool {
    &&& !plan.single_dirty ==> plan.single == p0.single && plan_view(plan, b0).sw == p0.sw
    &&& !plan.double_dirty ==> plan.double == p0.double && plan_view(plan, b0).dw == p0.dw
    &&& plan.sw@.len() == 0 ==> !plan.single_dirty
    &&& plan.dw@.len() == 0 ==> !plan.double_dirty
    &&& plan.sw@.len() == 512 ==> plan.single != 0
    &&& plan.dw@.len() == 512 ==> plan.double != 0
    &&& forall|i: int|
        0 <= i < plan.l2@.len() && !(#[trigger] plan.l2_dirty@[i]) ==> plan_view(plan, b0).dw[i]
            == p0.dw[i] && plan.l2@[i]@ == p0.l2[i]
    &&& forall|i: int|
        0 <= i < plan.l2@.len() ==> #[trigger] plan_view(plan, b0).dw[i] != 0
    &&& forall|i: int|
        plan.l2@.len() <= i < 512 ==> #[trigger] plan_view(plan, b0).dw[i] == p0.dw[i]
    &&& shape(p0)
    &&& p0.l2 == Seq::new(512, |i: int| words_of(b0, p0.dw[i]))
}

/// What links the plan to the volume, where the file was sound at the start: its
/// zones are in use, differ, and those that are new were free.
pub open spec fn plan_sound(
    plan: &Plan,
    b0: Seq<Seq<u8>>,
    p0: PlanView,
    now: Seq<Seq<u8>>,
    sb: Superblock,
    pre: Seq<u32>,
) -> bool {
    let p = plan_view(plan, b0);
    &&& plan_tied(plan, b0, p0)
    &&& sound(now, sb, p)
    &&& reserved(now, sb, p, pre)
    &&& zmap_grew(b0, now, sb)
    &&& forall|s: Slot|
        valid_slot(s) && #[trigger] slot(p, s) != slot(p0, s) ==> slot(p0, s) == 0 && !marked(
            b0,
            sb,
            slot(p, s) as int,
        )
    &&& forall|i: int| 0 <= i < pre.len() ==> !marked(b0, sb, #[trigger] pre[i] as int)
    &&& forall|z: int| #[trigger]
        marked(now, sb, z) ==> marked(b0, sb, z) || pre.contains(z as u32) || (exists|s: Slot|
            valid_slot(s) && #[trigger] slot(p, s) == z)
}

/// Taking a new zone for an empty slot keeps the plan sound.
proof fn lemma_plan_claim(
    plan: &Plan,
    after: &Plan,
    b0: Seq<Seq<u8>>,
    p0: PlanView,
    before: Seq<Seq<u8>>,
    now: Seq<Seq<u8>>,
    sb: Superblock,
    pre: Seq<u32>,
    rest: Seq<u32>,
    s: Slot,
    z: u32,
)
    requires
        sb.wf(),
        sb.first_data_zone > 0,
        valid_slot(s),
        shape(plan_view(plan, b0)),
        slot(plan_view(plan, b0), s) == 0,
        slot(p0, s) == 0,
        plan_view(after, b0) == claim(plan_view(plan, b0), s, z),
        plan_sound(plan, b0, p0, before, sb, pre),
        plan_tied(after, b0, p0),
        if pre.len() > 0 {
            z == pre.last() && rest == pre.drop_last() && now == before
        } else {
            &&& rest == pre
            &&& !marked(before, sb, z as int)
            &&& marked(now, sb, z as int)
            &&& zmap_grew(before, now, sb)
            &&& forall|y: int| y != z ==> #[trigger] marked(now, sb, y) == marked(before, sb, y)
            &&& forall|y: int| sb.first_data_zone <= y < z ==> #[trigger] marked(before, sb, y)
        },
    ensures
        plan_sound(after, b0, p0, now, sb, rest),
        z != 0,
        forall|f: int| #[trigger]
            in_order(b0, p0, before, sb, plan_view(plan, b0), pre, f) && f <= rank(s) ==> in_order(
                b0,
                p0,
                now,
                sb,
                plan_view(after, b0),
                rest,
                rank(s) + 1,
            ),
{
    lemma_order_claimed(b0, p0, before, now, sb, plan_view(plan, b0), pre, rest, s, z);
    let p = plan_view(plan, b0);
    let q = plan_view(after, b0);
    if pre.len() > 0 {
        assert(pre[pre.len() - 1] == z);
        assert(marked(before, sb, z as int));
        assert forall|t: Slot| valid_slot(t) implies #[trigger] slot(p, t) != z by {
            assert(pre[pre.len() - 1] != slot(p, t));
        }
        assert forall|i: int| 0 <= i < rest.len() implies rest[i] != z by {
            assert(rest[i] == pre[i]);
        }
        assert forall|i: int, a: Slot|
            #![trigger rest[i], slot(p, a)]
            0 <= i < rest.len() && valid_slot(a) implies rest[i] != slot(p, a) by {
            assert(rest[i] == pre[i]);
        }
        assert(reserved(before, sb, p, rest)) by {
            assert forall|i: int| 0 <= i < rest.len() implies marked(
                before,
                sb,
                #[trigger] rest[i] as int,
            ) by {
                assert(rest[i] == pre[i]);
            }
            assert(rest.no_duplicates()) by {
                assert forall|i: int, j: int|
                    0 <= i < rest.len() && 0 <= j < rest.len() && i != j implies rest[i]
                    != rest[j] by {
                    assert(rest[i] == pre[i] && rest[j] == pre[j]);
                }
            }
        }
        assert(!marked(b0, sb, z as int));
        assert(zmap_grew(before, now, sb));
    } else {
        assert forall|t: Slot| valid_slot(t) implies #[trigger] slot(p, t) != z by {
            if slot(p, t) != 0 {
                assert(marked(before, sb, slot(p, t) as int));
            }
        }
        assert(!marked(b0, sb, z as int)) by {
            if marked(b0, sb, z as int) {
                assert(marked(before, sb, z as int));
            }
        }
    }
    assert(!rest.contains(z));
    lemma_sound_claim(before, now, sb, p, s, z, rest);
    lemma_zmap_grew_trans(b0, before, now, sb);
    assert forall|t: Slot| valid_slot(t) && #[trigger] slot(q, t) != slot(p0, t) implies slot(p0, t)
        == 0 && !marked(b0, sb, slot(q, t) as int) by {
        lemma_claim(p, s, z, t);
        if t != s {
            assert(slot(p, t) != slot(p0, t));
        }
    }
    assert forall|i: int| 0 <= i < rest.len() implies !marked(b0, sb, #[trigger] rest[i] as int) by {
        assert(rest[i] == pre[i]);
    }
    assert forall|y: int| #[trigger] marked(now, sb, y) implies marked(b0, sb, y) || rest.contains(
        y as u32,
    ) || (exists|t: Slot| valid_slot(t) && #[trigger] slot(q, t) == y) by {
        if y == z {
            lemma_claim(p, s, z, s);
            assert(slot(q, s) == y);
        } else {
            assert(marked(before, sb, y));
            if !marked(b0, sb, y) {
                if pre.contains(y as u32) {
                    let i = choose|i: int| 0 <= i < pre.len() && pre[i] == y as u32;
                    assert(i < rest.len());
                    assert(rest[i] == y as u32);
                } else {
                    let t = choose|t: Slot| valid_slot(t) && #[trigger] slot(p, t) == y;
                    lemma_claim(p, s, z, t);
                    lemma_claim(p, s, z, s);
                    if t == s {
                        assert(slot(p, s) == 0);
                        assert(y == 0);
                    }
                    assert(slot(q, t) == y);
                }
            }
        }
    }
}

/// Whether every number of `p` still stands in `q`.
pub open spec fn extends(p: PlanView, q: PlanView) -> bool {
    forall|t: Slot| valid_slot(t) && #[trigger] slot(p, t) != 0 ==> slot(q, t) == slot(p, t)
}

proof fn lemma_plan_shape(plan: &Plan, b0: Seq<Seq<u8>>)
    requires
        plan_wf(plan),
    ensures
        shape(plan_view(plan, b0)),
{
}

proof fn lemma_extends(p: PlanView, s: Slot, z: u32)
    requires
        shape(p),
        valid_slot(s),
        slot(p, s) == 0,
    ensures
        extends(p, claim(p, s, z)),
{
    assert forall|t: Slot| valid_slot(t) && #[trigger] slot(p, t) != 0 implies slot(
        claim(p, s, z),
        t,
    ) == slot(p, t) by {
        lemma_claim(p, s, z, t);
    }
}

/// The number of zones that reaching slot `s` takes: one for the slot where it is empty,
/// one for each indirect block on the way that is not there.
pub open spec fn missing(p: PlanView, s: Slot) -> int {
    let own: int = if slot(p, s) == 0 {
        1
    } else {
        0
    };
    match s {
        Slot::S(_) => if p.single == 0 {
            2
        } else {
            own
        },
        Slot::L2(i, _) => if p.double == 0 {
            3
        } else if p.dw[i] == 0 {
            2
        } else {
            own
        },
        _ => own,
    }
}

/// The number of zones that block `k` of a file takes, where the blocks before it have
/// theirs.
pub open spec fn lacking_at(p: PlanView, k: int) -> int {
    let own: int = if slot(p, data_slot(k)) == 0 {
        1
    } else {
        0
    };
    if k == 12 || k == 524 || k > 524 && (k - 524) % 512 == 0 {
        missing(p, data_slot(k))
    } else {
        own
    }
}

/// The number of zones that a file with the numbers `p` lacks to have `n` blocks.
pub open spec fn lacks(p: PlanView, n: int) -> int
    decreases n,
{
    if n <= 0 {
        0
    } else {
        lacks(p, n - 1) + lacking_at(p, n - 1)
    }
}

/// A longer file lacks no fewer zones.
proof fn lemma_lacks_more(p: PlanView, k: int, n: int)
    requires
        0 <= k <= n,
    ensures
        0 <= lacks(p, k) <= lacks(p, n),
    decreases n,
{
    if k < n {
        lemma_lacks_more(p, k, n - 1);
    } else if k > 0 {
        lemma_lacks_more(p, k - 1, k - 1);
    }
}

/// What a step of the planning gives: a zone in slot `s`. It takes no more zones than the
/// slot misses.
pub open spec fn step_result<D: BlockDeviceIO>(
    before: &TwilightFs<D>,
    after: &TwilightFs<D>,
    plan: &Plan,
    next: &Plan,
    pre: Seq<u32>,
    rest: Seq<u32>,
    b0: Seq<Seq<u8>>,
    p0: PlanView,
    s: Slot,
    r: Result<u32, FsError>,
) -> bool {
    let sb = before.superblock;
    &&& after.wf()
    &&& after.same_but_blocks(before)
    &&& plan_wf(next)
    &&& rest.len() <= pre.len()
    &&& r is Ok && plan_sound(plan, b0, p0, before.blocks(), sb, pre) ==> avail(
        before.blocks(),
        sb,
        pre,
    ) <= avail(after.blocks(), sb, rest) + missing(plan_view(plan, b0), s)
    &&& r is Err && plan_sound(plan, b0, p0, before.blocks(), sb, pre) && before.serves() ==> avail(
        before.blocks(),
        sb,
        pre,
    ) < missing(plan_view(plan, b0), s)
    &&& match r {
        Ok(z) => plan_sound(plan, b0, p0, before.blocks(), before.superblock, pre) ==> {
            &&& plan_sound(next, b0, p0, after.blocks(), before.superblock, rest)
            &&& extends(plan_view(plan, b0), plan_view(next, b0))
            &&& z != 0
            &&& z == slot(plan_view(next, b0), s)
            &&& forall|f: int| #[trigger]
                in_order(b0, p0, before.blocks(), sb, plan_view(plan, b0), pre, f) && f
                    <= first_rank(plan_view(plan, b0), s) ==> in_order(
                    b0,
                    p0,
                    after.blocks(),
                    sb,
                    plan_view(next, b0),
                    rest,
                    rank(s) + 1,
                )
        },
        Err(e) => e == FsError::InvalidInode && (plan_sound(
            plan,
            b0,
            p0,
            before.blocks(),
            before.superblock,
            pre,
        ) && before.serves() ==> all_set(
            after.blocks(),
            before.superblock.zmap(),
            before.superblock.data_zones(),
        ) && zmap_grew(b0, after.blocks(), sb)),
    }
}

impl<D: BlockDeviceIO> TwilightFs<D> {
    /// The zone of direct slot `k`, a new one where there is none.
    fn claim_direct(
        &mut self,
        plan: &mut Plan,
        pre: &mut Vec<u32>,
        k: usize,
        Ghost(b0): Ghost<Seq<Seq<u8>>>,
        Ghost(p0): Ghost<PlanView>,
    ) -> (res: Result<u32, FsError>)
        requires
            old(self).wf(),
            plan_wf(old(plan)),
            k < 12,
        ensures
            step_result(
                old(self),
                final(self),
                old(plan),
                final(plan),
                old(pre)@,
                final(pre)@,
                b0,
                p0,
                Slot::Direct(k as int),
                res,
            ),
            final(plan).sw@.len() == old(plan).sw@.len(),
            final(plan).dw@.len() == old(plan).dw@.len(),
            final(plan).l2@.len() == old(plan).l2@.len(),
    {
        if plan.direct[k] != 0 {
            proof {
                lemma_order_kept(b0, p0, self.blocks(), self.superblock, plan_view(plan, b0), pre@, Slot::Direct(k as int));
            }
            return Ok(plan.direct[k]);
        }
        let ghost before = self.blocks();
        let ghost sb = self.superblock;
        let ghost plan0 = *plan;
        let ghost s = Slot::Direct(k as int);
        let z: u32 = match self.new_zone(pre) {
            Ok(z) => z,
            Err(e) => return Err(e),
        };
        plan.direct[k] = z;
        proof {
            let p = plan_view(&plan0, b0);
            lemma_plan_shape(&plan0, b0);
            assert(plan_view(plan, b0) =~= claim(p, s, z)) by {
                assert(plan_view(plan, b0).l2 =~= p.l2);
            }
            if plan_sound(&plan0, b0, p0, before, sb, old(pre)@) {
                assert(slot(p, s) == 0);
                assert(slot(p0, s) == 0) by {
                    if slot(p, s) != slot(p0, s) {
                    }
                }
                lemma_plan_claim(
                    &plan0,
                    plan,
                    b0,
                    p0,
                    before,
                    self.blocks(),
                    sb,
                    old(pre)@,
                    pre@,
                    s,
                    z,
                );
                lemma_extends(p, s, z);
                lemma_claim(p, s, z, s);
            }
        }
        Ok(z)
    }

    /// Makes sure that the plan holds the indirect block.
    fn load_single(
        &mut self,
        plan: &mut Plan,
        pre: &mut Vec<u32>,
        Ghost(b0): Ghost<Seq<Seq<u8>>>,
        Ghost(p0): Ghost<PlanView>,
    ) -> (res: Result<u32, FsError>)
        requires
            old(self).wf(),
            plan_wf(old(plan)),
        ensures
            step_result(
                old(self),
                final(self),
                old(plan),
                final(plan),
                old(pre)@,
                final(pre)@,
                b0,
                p0,
                Slot::Single,
                res,
            ),
            res is Ok ==> final(plan).sw@.len() == 512,
            res is Ok && old(plan).single != 0 && plan_sound(
                old(plan),
                b0,
                p0,
                old(self).blocks(),
                old(self).superblock,
                old(pre)@,
            ) ==> plan_view(final(plan), b0) == plan_view(old(plan), b0) && final(self).blocks() == old(
                self,
            ).blocks() && final(pre)@ == old(pre)@,
            final(plan).dw@.len() == old(plan).dw@.len(),
            final(plan).l2@.len() == old(plan).l2@.len(),
    {
        let ghost before = self.blocks();
        let ghost sb = self.superblock;
        let ghost plan0 = *plan;
        let ghost s = Slot::Single;
        proof {
            lemma_order_kept(b0, p0, before, sb, plan_view(plan, b0), pre@, s);
        }
        if plan.sw.len() == 512 {
            return Ok(plan.single);
        }
        if plan.single == 0 {
            let z: u32 = match self.new_zone(pre) {
                Ok(z) => z,
                Err(e) => return Err(e),
            };
            plan.single = z;
            plan.sw = zero_words();
            plan.single_dirty = true;
            proof {
                let p = plan_view(&plan0, b0);
                lemma_plan_shape(&plan0, b0);
                assert(plan_view(plan, b0) =~= claim(p, s, z)) by {
                    assert(plan_view(plan, b0).l2 =~= p.l2);
                    assert(p.sw == no_words());
                }
                if plan_sound(&plan0, b0, p0, before, sb, old(pre)@) {
                    assert(slot(p, s) == 0);
                    assert(slot(p0, s) == 0) by {
                        if slot(p, s) != slot(p0, s) {
                        }
                    }
                    assert(z != 0) by {
                        if old(pre)@.len() > 0 {
                            assert(old(pre)@[old(pre)@.len() - 1] != slot(p, s));
                        }
                    }
                    assert(plan_tied(plan, b0, p0));
                    lemma_plan_claim(
                        &plan0,
                        plan,
                        b0,
                        p0,
                        before,
                        self.blocks(),
                        sb,
                        old(pre)@,
                        pre@,
                        s,
                        z,
                    );
                    lemma_extends(p, s, z);
                    lemma_claim(p, s, z, s);
                }
            }
            return Ok(z);
        }
        let block: Vec<u8> = match self.get_block(plan.single) {
            Ok(b) => b,
            Err(e) => {
                proof {
                    if plan_sound(&plan0, b0, p0, before, sb, old(pre)@) {
                        assert(marked(before, sb, slot(plan_view(&plan0, b0), s) as int));
                    }
                }
                return Err(e);
            },
        };
        plan.sw = decode_words(&block);
        proof {
            if plan_sound(&plan0, b0, p0, before, sb, old(pre)@) {
                assert(marked(before, sb, slot(plan_view(&plan0, b0), s) as int));
                assert(before[plan.single as int] == b0[plan.single as int]);
                assert(plan_view(plan, b0) =~= plan_view(&plan0, b0)) by {
                    assert(plan_view(plan, b0).l2 =~= plan_view(&plan0, b0).l2);
                }
            }
        }
        Ok(plan.single)
    }

    /// The zone in entry `i` of the indirect block, a new one where there is none.
    fn claim_single(
        &mut self,
        plan: &mut Plan,
        pre: &mut Vec<u32>,
        i: usize,
        Ghost(b0): Ghost<Seq<Seq<u8>>>,
        Ghost(p0): Ghost<PlanView>,
    ) -> (res: Result<u32, FsError>)
        requires
            old(self).wf(),
            plan_wf(old(plan)),
            i < 512,
        ensures
            step_result(
                old(self),
                final(self),
                old(plan),
                final(plan),
                old(pre)@,
                final(pre)@,
                b0,
                p0,
                Slot::S(i as int),
                res,
            ),
            final(plan).dw@.len() == old(plan).dw@.len(),
            final(plan).l2@.len() == old(plan).l2@.len(),
    {
        match self.load_single(plan, pre, Ghost(b0), Ghost(p0)) {
            Ok(_) => {},
            Err(e) => return Err(e),
        }
        if plan.sw[i] != 0 {
            proof {
                lemma_order_kept(b0, p0, self.blocks(), self.superblock, plan_view(plan, b0), pre@, Slot::S(i as int));
            }
            return Ok(plan.sw[i]);
        }
        let ghost before = self.blocks();
        let ghost sb = self.superblock;
        let ghost plan0 = *plan;
        let ghost pre0 = pre@;
        let ghost s = Slot::S(i as int);
        let z: u32 = match self.new_zone(pre) {
            Ok(z) => z,
            Err(e) => return Err(e),
        };
        plan.sw[i] = z;
        plan.single_dirty = true;
        proof {
            let p = plan_view(&plan0, b0);
            lemma_plan_shape(&plan0, b0);
            assert(plan_view(plan, b0) =~= claim(p, s, z)) by {
                assert(plan_view(plan, b0).l2 =~= p.l2);
            }
            if plan_sound(&plan0, b0, p0, before, sb, pre0) {
                assert(slot(p, s) == 0);
                assert(slot(p0, s) == 0) by {
                    if slot(p, s) != slot(p0, s) {
                    }
                }
                assert(plan_tied(plan, b0, p0));
                lemma_plan_claim(&plan0, plan, b0, p0, before, self.blocks(), sb, pre0, pre@, s, z);
                lemma_extends(p, s, z);
                lemma_claim(p, s, z, s);
            }
        }
        Ok(z)
    }

    /// Makes sure that the plan holds the doubly indirect block.
    fn load_double(
        &mut self,
        plan: &mut Plan,
        pre: &mut Vec<u32>,
        Ghost(b0): Ghost<Seq<Seq<u8>>>,
        Ghost(p0): Ghost<PlanView>,
    ) -> (res: Result<u32, FsError>)
        requires
            old(self).wf(),
            plan_wf(old(plan)),
        ensures
            step_result(
                old(self),
                final(self),
                old(plan),
                final(plan),
                old(pre)@,
                final(pre)@,
                b0,
                p0,
                Slot::Double,
                res,
            ),
            res is Ok ==> final(plan).dw@.len() == 512,
            res is Ok && old(plan).double != 0 && plan_sound(
                old(plan),
                b0,
                p0,
                old(self).blocks(),
                old(self).superblock,
                old(pre)@,
            ) ==> plan_view(final(plan), b0) == plan_view(old(plan), b0) && final(self).blocks() == old(
                self,
            ).blocks() && final(pre)@ == old(pre)@,
            final(plan).sw@.len() == old(plan).sw@.len(),
            final(plan).l2@.len() == old(plan).l2@.len(),
    {
        let ghost before = self.blocks();
        let ghost sb = self.superblock;
        let ghost plan0 = *plan;
        let ghost s = Slot::Double;
        proof {
            lemma_order_kept(b0, p0, before, sb, plan_view(plan, b0), pre@, s);
        }
        if plan.dw.len() == 512 {
            return Ok(plan.double);
        }
        if plan.double == 0 {
            let z: u32 = match self.new_zone(pre) {
                Ok(z) => z,
                Err(e) => return Err(e),
            };
            plan.double = z;
            plan.dw = zero_words();
            plan.double_dirty = true;
            proof {
                let p = plan_view(&plan0, b0);
                lemma_plan_shape(&plan0, b0);
                assert(p.dw == no_words());
                assert(plan_view(plan, b0) =~= claim(p, s, z)) by {
                    assert(plan_view(plan, b0).l2 =~= p.l2);
                }
                if plan_sound(&plan0, b0, p0, before, sb, old(pre)@) {
                    assert(slot(p, s) == 0);
                    assert(slot(p0, s) == 0) by {
                        if slot(p, s) != slot(p0, s) {
                        }
                    }
                    assert(z != 0) by {
                        if old(pre)@.len() > 0 {
                            assert(old(pre)@[old(pre)@.len() - 1] != slot(p, s));
                        }
                    }
                    assert(plan_tied(plan, b0, p0));
                    lemma_plan_claim(
                        &plan0,
                        plan,
                        b0,
                        p0,
                        before,
                        self.blocks(),
                        sb,
                        old(pre)@,
                        pre@,
                        s,
                        z,
                    );
                    lemma_extends(p, s, z);
                    lemma_claim(p, s, z, s);
                }
            }
            return Ok(z);
        }
        let block: Vec<u8> = match self.get_block(plan.double) {
            Ok(b) => b,
            Err(e) => {
                proof {
                    if plan_sound(&plan0, b0, p0, before, sb, old(pre)@) {
                        assert(marked(before, sb, slot(plan_view(&plan0, b0), s) as int));
                    }
                }
                return Err(e);
            },
        };
        plan.dw = decode_words(&block);
        proof {
            if plan_sound(&plan0, b0, p0, before, sb, old(pre)@) {
                assert(marked(before, sb, slot(plan_view(&plan0, b0), s) as int));
                assert(before[plan.double as int] == b0[plan.double as int]);
                assert(plan_view(plan, b0) =~= plan_view(&plan0, b0)) by {
                    assert(plan_view(plan, b0).l2 =~= plan_view(&plan0, b0).l2);
                }
            }
        }
        Ok(plan.double)
    }

    /// Makes sure that the plan holds the indirect block that entry `i` of the
    /// doubly indirect block names; those before it are there.
    fn load_l2(
        &mut self,
        plan: &mut Plan,
        pre: &mut Vec<u32>,
        i: usize,
        Ghost(b0): Ghost<Seq<Seq<u8>>>,
        Ghost(p0): Ghost<PlanView>,
    ) -> (res: Result<u32, FsError>)
        requires
            old(self).wf(),
            plan_wf(old(plan)),
            old(plan).dw@.len() == 512,
            i < 512,
            i <= old(plan).l2@.len() <= i + 1,
        ensures
            step_result(
                old(self),
                final(self),
                old(plan),
                final(plan),
                old(pre)@,
                final(pre)@,
                b0,
                p0,
                Slot::L1(i as int),
                res,
            ),
            res is Ok ==> final(plan).l2@.len() == i + 1,
            final(plan).l2@.len() <= i + 1,
            final(plan).sw@.len() == old(plan).sw@.len(),
            final(plan).dw@.len() == old(plan).dw@.len(),
            res is Ok && old(plan).dw@[i as int] != 0 && plan_sound(
                old(plan),
                b0,
                p0,
                old(self).blocks(),
                old(self).superblock,
                old(pre)@,
            ) ==> plan_view(final(plan), b0) == plan_view(old(plan), b0) && final(self).blocks() == old(
                self,
            ).blocks() && final(pre)@ == old(pre)@,
    {
        let ghost before = self.blocks();
        let ghost sb = self.superblock;
        let ghost plan0 = *plan;
        let ghost s = Slot::L1(i as int);
        proof {
            lemma_order_kept(b0, p0, before, sb, plan_view(plan, b0), pre@, s);
        }
        if plan.l2.len() > i {
            return Ok(plan.dw[i]);
        }
        if plan.dw[i] == 0 {
            let z: u32 = match self.new_zone(pre) {
                Ok(z) => z,
                Err(e) => return Err(e),
            };
            plan.dw[i] = z;
            plan.double_dirty = true;
            plan.l2.push(zero_words());
            plan.l2_dirty.push(true);
            proof {
                let p = plan_view(&plan0, b0);
                lemma_plan_shape(&plan0, b0);
                let q = plan_view(plan, b0);
                assert(q =~= claim(p, s, z)) by {
                    assert forall|k: int| 0 <= k < 512 implies q.l2[k] == p.l2[k] by {
                        if k == i {
                            assert(p.dw[k] == 0);
                            assert(p.l2[k] == no_words());
                        } else if k > i {
                            assert(q.dw[k] == p.dw[k]);
                        } else {
                            assert(plan.l2@[k] == plan0.l2@[k]);
                        }
                    }
                    assert(q.l2 =~= p.l2);
                }
                if plan_sound(&plan0, b0, p0, before, sb, old(pre)@) {
                    assert(slot(p, s) == 0);
                    assert(slot(p0, s) == 0) by {
                        if slot(p, s) != slot(p0, s) {
                        }
                    }
                    assert(z != 0) by {
                        if old(pre)@.len() > 0 {
                            assert(old(pre)@[old(pre)@.len() - 1] != slot(p, s));
                        }
                    }
                    lemma_tied_push(&plan0, plan, b0, p0, i as int, z);
                    lemma_plan_claim(
                        &plan0,
                        plan,
                        b0,
                        p0,
                        before,
                        self.blocks(),
                        sb,
                        old(pre)@,
                        pre@,
                        s,
                        z,
                    );
                    lemma_extends(p, s, z);
                    lemma_claim(p, s, z, s);
                }
            }
            return Ok(z);
        }
        let zone: u32 = plan.dw[i];
        let block: Vec<u8> = match self.get_block(zone) {
            Ok(b) => b,
            Err(e) => {
                proof {
                    if plan_sound(&plan0, b0, p0, before, sb, old(pre)@) {
                        assert(marked(before, sb, slot(plan_view(&plan0, b0), s) as int));
                    }
                }
                return Err(e);
            },
        };
        let entries: Vec<u32> = decode_words(&block);
        plan.l2.push(entries);
        plan.l2_dirty.push(false);
        proof {
            if plan_sound(&plan0, b0, p0, before, sb, old(pre)@) {
                let p = plan_view(&plan0, b0);
                let q = plan_view(plan, b0);
                assert(marked(before, sb, slot(p, s) as int));
                assert(before[zone as int] == b0[zone as int]);
                assert(q =~= p) by {
                    assert forall|k: int| 0 <= k < 512 implies q.l2[k] == p.l2[k] by {
                        if k < i {
                            assert(plan.l2@[k] == plan0.l2@[k]);
                        }
                    }
                    assert(q.l2 =~= p.l2);
                }
                assert(p.dw[i as int] == p0.dw[i as int]);
                assert(plan_tied(plan, b0, p0)) by {
                    assert forall|k: int| 0 <= k < plan.l2@.len() && !(#[trigger] plan.l2_dirty@[k]) implies q.dw[k]
                        == p0.dw[k] && plan.l2@[k]@ == p0.l2[k] by {
                        if k < i {
                            assert(plan0.l2_dirty@[k] == plan.l2_dirty@[k]);
                            assert(plan.l2@[k] == plan0.l2@[k]);
                        }
                    }
                    assert forall|k: int| 0 <= k < plan.l2@.len() implies #[trigger] q.dw[k] != 0 by {
                        assert(q.dw[k] == p.dw[k]);
                    }
                    assert forall|k: int| plan.l2@.len() <= k < 512 implies #[trigger] q.dw[k]
                        == p0.dw[k] by {
                        assert(q.dw[k] == p.dw[k]);
                    }
                }
            }
        }
        Ok(zone)
    }

    /// The zone in entry `j` of the indirect block that entry `i` of the doubly
    /// indirect block names, a new one where there is none.
    fn claim_double(
        &mut self,
        plan: &mut Plan,
        pre: &mut Vec<u32>,
        i: usize,
        j: usize,
        Ghost(b0): Ghost<Seq<Seq<u8>>>,
        Ghost(p0): Ghost<PlanView>,
    ) -> (res: Result<u32, FsError>)
        requires
            old(self).wf(),
            plan_wf(old(plan)),
            i < 512,
            j < 512,
            i <= old(plan).l2@.len() <= i + 1,
        ensures
            step_result(
                old(self),
                final(self),
                old(plan),
                final(plan),
                old(pre)@,
                final(pre)@,
                b0,
                p0,
                Slot::L2(i as int, j as int),
                res,
            ),
            res is Ok ==> final(plan).l2@.len() == i + 1,
            final(plan).l2@.len() <= i + 1,
            final(plan).sw@.len() == old(plan).sw@.len(),
    {
        match self.load_double(plan, pre, Ghost(b0), Ghost(p0)) {
            Ok(_) => {},
            Err(e) => return Err(e),
        }
        let ghost mid = *plan;
        match self.load_l2(plan, pre, i, Ghost(b0), Ghost(p0)) {
            Ok(_) => {},
            Err(e) => return Err(e),
        }
        if plan.l2[i][j] != 0 {
            proof {
                lemma_order_kept(b0, p0, self.blocks(), self.superblock, plan_view(plan, b0), pre@, Slot::L2(i as int, j as int));
            }
            return Ok(plan.l2[i][j]);
        }
        let ghost before = self.blocks();
        let ghost sb = self.superblock;
        let ghost plan0 = *plan;
        let ghost pre0 = pre@;
        let ghost s = Slot::L2(i as int, j as int);
        let z: u32 = match self.new_zone(pre) {
            Ok(z) => z,
            Err(e) => return Err(e),
        };
        let mut entries: Vec<u32> = copy_words(&plan.l2[i]);
        entries[j] = z;
        plan.l2[i] = entries;
        plan.l2_dirty[i] = true;
        proof {
            let p = plan_view(&plan0, b0);
            lemma_plan_shape(&plan0, b0);
            let q = plan_view(plan, b0);
            assert(q =~= claim(p, s, z)) by {
                assert(q.l2 =~= claim(p, s, z).l2);
            }
            if plan_sound(&plan0, b0, p0, before, sb, pre0) {
                assert(slot(p, s) == 0);
                assert(slot(p0, s) == 0) by {
                    if slot(p, s) != slot(p0, s) {
                    }
                }
                assert(plan_tied(plan, b0, p0)) by {
                    assert forall|k: int| 0 <= k < plan.l2@.len() && !(#[trigger] plan.l2_dirty@[k]) implies q.dw[k]
                        == p0.dw[k] && plan.l2@[k]@ == p0.l2[k] by {
                        assert(plan0.l2_dirty@[k] == plan.l2_dirty@[k]);
                        assert(plan.l2@[k] == plan0.l2@[k]);
                    }
                    assert forall|k: int| 0 <= k < plan.l2@.len() implies #[trigger] q.dw[k] != 0 by {
                        assert(q.dw[k] == p.dw[k]);
                    }
                    assert forall|k: int| plan.l2@.len() <= k < 512 implies #[trigger] q.dw[k]
                        == p0.dw[k] by {
                        assert(q.dw[k] == p.dw[k]);
                    }
                }
                lemma_plan_claim(&plan0, plan, b0, p0, before, self.blocks(), sb, pre0, pre@, s, z);
                lemma_extends(p, s, z);
                lemma_claim(p, s, z, s);
            }
        }
        Ok(z)
    }

    /// The zones of the first `n` blocks of a file, new ones where there are none.
    pub(crate) fn plan_zones(
        &mut self,
        plan: &mut Plan,
        pre: &mut Vec<u32>,
        n: usize,
        Ghost(b0): Ghost<Seq<Seq<u8>>>,
        Ghost(p0): Ghost<PlanView>,
    ) -> (res: Result<Vec<u32>, FsError>)
        requires
            old(self).wf(),
            plan_wf(old(plan)),
            old(plan).sw@.len() == 0,
            old(plan).dw@.len() == 0,
            old(plan).l2@.len() == 0,
            n <= 262668,
        ensures
            final(self).wf(),
            final(self).same_but_blocks(old(self)),
            plan_wf(final(plan)),
            final(pre)@.len() <= old(pre)@.len(),
            ({
                let sb = old(self).superblock;
                let was_sound = plan_sound(old(plan), b0, p0, old(self).blocks(), sb, old(pre)@);
                match res {
                    Ok(zs) => {
                        &&& zs@.len() == n
                        &&& was_sound ==> {
                            let p = plan_view(final(plan), b0);
                            &&& plan_sound(final(plan), b0, p0, final(self).blocks(), sb, final(pre)@)
                            &&& extends(plan_view(old(plan), b0), p)
                            &&& forall|j: int|
                                0 <= j < n ==> #[trigger] zs@[j] != 0 && zs@[j] == slot(
                                    p,
                                    data_slot(j),
                                )
                            &&& in_order(
                                b0,
                                p0,
                                old(self).blocks(),
                                sb,
                                plan_view(old(plan), b0),
                                old(pre)@,
                                0,
                            ) ==> in_order(
                                b0,
                                p0,
                                final(self).blocks(),
                                sb,
                                p,
                                final(pre)@,
                                ranks_for(n as int),
                            )
                        }
                    },
                    Err(e) => {
                        &&& e == FsError::InvalidInode
                        &&& was_sound && old(self).serves() ==> {
                            &&& all_set(final(self).blocks(), sb.zmap(), sb.data_zones())
                            &&& zmap_grew(b0, final(self).blocks(), sb)
                            &&& in_order(
                                b0,
                                p0,
                                old(self).blocks(),
                                sb,
                                plan_view(old(plan), b0),
                                old(pre)@,
                                0,
                            ) ==> avail(old(self).blocks(), sb, old(pre)@) < lacks(p0, n as int)
                        }
                    },
                }
            }),
    {
        let ghost sb = self.superblock;
        let ghost was_sound = plan_sound(plan, b0, p0, self.blocks(), sb, pre@);
        let ghost have = avail(self.blocks(), sb, pre@);
        let ghost p_start = plan_view(plan, b0);
        let ghost ordered = in_order(b0, p0, self.blocks(), sb, p_start, pre@, 0);
        let mut zs: Vec<u32> = Vec::new();
        let mut k: usize = 0;
        while k < n
            invariant
                k <= n <= 262668,
                self.wf(),
                self.same_but_blocks(old(self)),
                sb == old(self).superblock,
                plan_wf(plan),
                was_sound == plan_sound(old(plan), b0, p0, old(self).blocks(), sb, old(pre)@),
                have == avail(old(self).blocks(), sb, old(pre)@),
                p_start == plan_view(old(plan), b0),
                ordered == in_order(b0, p0, old(self).blocks(), sb, p_start, old(pre)@, 0),
                k <= 12 ==> plan.sw@.len() == 0,
                k <= 524 ==> plan.dw@.len() == 0 && plan.l2@.len() == 0,
                k > 524 ==> plan.l2@.len() == (k - 524 + 511) / 512,
                zs@.len() == k,
                pre@.len() <= old(pre)@.len(),
                was_sound && ordered ==> have <= avail(self.blocks(), sb, pre@) + lacks(p0, k as int),
                was_sound ==> {
                    let p = plan_view(plan, b0);
                    &&& plan_sound(plan, b0, p0, self.blocks(), sb, pre@)
                    &&& extends(p_start, p)
                    &&& forall|j: int|
                        0 <= j < k ==> #[trigger] zs@[j] != 0 && zs@[j] == slot(p, data_slot(j))
                    &&& ordered ==> in_order(
                        b0,
                        p0,
                        self.blocks(),
                        sb,
                        p,
                        pre@,
                        ranks_for(k as int),
                    )
                },
            decreases n - k,
        {
            let ghost before = plan_view(plan, b0);
            proof {
                if was_sound {
                    if k > 0 {
                        assert(zs@[k - 1] == slot(before, data_slot(k - 1)));
                    }
                    if k > 524 {
                        assert(zs@[523] == slot(before, data_slot(523)));
                    }
                    lemma_named(plan, b0, p0, k as int);
                    lemma_next_rank(before, k as int);
                    if ordered {
                        lemma_lacking(b0, p0, self.blocks(), sb, before, pre@, k as int);
                        lemma_lacks_more(p0, k + 1, n as int);
                    }
                }
            }
            let r: Result<u32, FsError> = if k < 12 {
                self.claim_direct(plan, pre, k, Ghost(b0), Ghost(p0))
            } else if k < 524 {
                self.claim_single(plan, pre, k - 12, Ghost(b0), Ghost(p0))
            } else {
                self.claim_double(plan, pre, (k - 524) / 512, (k - 524) % 512, Ghost(b0), Ghost(p0))
            };
            let z: u32 = match r {
                Ok(z) => z,
                Err(e) => return Err(e),
            };
            proof {
                if was_sound {
                    let p = plan_view(plan, b0);
                    assert(extends(p_start, p)) by {
                        assert forall|t: Slot| valid_slot(t) && #[trigger] slot(p_start, t) != 0 implies slot(
                            p,
                            t,
                        ) == slot(p_start, t) by {
                            assert(slot(before, t) != 0);
                        }
                    }
                    assert forall|j: int| 0 <= j < k implies #[trigger] zs@[j] != 0 && zs@[j] == slot(
                        p,
                        data_slot(j),
                    ) by {
                        assert(valid_slot(data_slot(j)));
                        assert(zs@[j] == slot(before, data_slot(j)));
                    }
                }
            }
            zs.push(z);
            k = k + 1;
        }
        Ok(zs)
    }
}

/// What block `k` misses once the blocks before it have their zones is what it lacked at
/// the start.
proof fn lemma_lacking(
    b0: Seq<Seq<u8>>,
    p0: PlanView,
    now: Seq<Seq<u8>>,
    sb: Superblock,
    p: PlanView,
    pre: Seq<u32>,
    k: int,
)
    requires
        0 <= k < 262668,
        in_order(b0, p0, now, sb, p, pre, ranks_for(k)),
        k > 12 ==> p.single != 0,
        k > 524 ==> p.double != 0 && p.dw[(k - 525) / 512] != 0,
    ensures
        missing(p, data_slot(k)) <= lacking_at(p0, k),
{
    reveal(in_order);
    let s = data_slot(k);
    assert(valid_slot(s));
    assert(slot(p, s) == slot(p0, s)) by {
        if slot(p, s) != slot(p0, s) {
            assert(rank(s) < ranks_for(k));
            lemma_next_rank(p, k);
        }
    }
    if k == 12 {
        assert(valid_slot(Slot::Single));
        assert(slot(p, Slot::Single) == slot(p0, Slot::Single));
    }
    if k >= 524 {
        let i = (k - 524) / 512;
        assert(valid_slot(Slot::Double) && valid_slot(Slot::L1(i)));
        if k == 524 {
            assert(slot(p, Slot::Double) == slot(p0, Slot::Double));
            assert(slot(p, Slot::L1(0)) == slot(p0, Slot::L1(0)));
        } else if (k - 524) % 512 == 0 {
            assert((k - 525) / 512 == i - 1 && (k - 525) % 512 == 511);
            assert(slot(p, Slot::L1(i)) == slot(p0, Slot::L1(i)));
            assert(slot(p0, Slot::L1(i)) == p0.dw[i]);
        } else {
            assert((k - 525) / 512 == i);
        }
    }
}

/// Where the block before block `k` has a zone, the indirect blocks on the way to it
/// are there.
proof fn lemma_named(plan: &Plan, b0: Seq<Seq<u8>>, p0: PlanView, k: int)
    requires
        plan_wf(plan),
        plan_tied(plan, b0, p0),
        0 <= k < 262668,
        k > 0 ==> slot(plan_view(plan, b0), data_slot(k - 1)) != 0,
        k > 524 ==> slot(plan_view(plan, b0), data_slot(523)) != 0,
    ensures
        k > 12 ==> plan_view(plan, b0).single != 0,
        k > 524 ==> plan_view(plan, b0).double != 0 && plan_view(plan, b0).dw[(k - 525) / 512] != 0,
{
    let p = plan_view(plan, b0);
    if k > 524 {
        let i = (k - 525) / 512;
        let j = (k - 525) % 512;
        assert(slot(p, Slot::L2(i, j)) != 0);
        if i >= plan.l2@.len() {
            assert(p.l2[i] == words_of(b0, p.dw[i]));
        }
    }
}

proof fn lemma_tied_push(
    plan: &Plan,
    after: &Plan,
    b0: Seq<Seq<u8>>,
    p0: PlanView,
    i: int,
    z: u32,
)
    requires
        plan_wf(plan),
        plan_tied(plan, b0, p0),
        plan.dw@.len() == 512,
        plan.l2@.len() == i,
        0 <= i < 512,
        z != 0,
        after.direct == plan.direct,
        after.single == plan.single,
        after.sw == plan.sw,
        after.single_dirty == plan.single_dirty,
        after.double == plan.double,
        after.dw@ == plan.dw@.update(i, z),
        after.double_dirty,
        after.l2@.len() == i + 1,
        forall|k: int| 0 <= k < i ==> after.l2@[k] == plan.l2@[k],
        after.l2_dirty@ == plan.l2_dirty@.push(true),
    ensures
        plan_tied(after, b0, p0),
{
    let p = plan_view(plan, b0);
    let q = plan_view(after, b0);
    assert forall|k: int| 0 <= k < after.l2@.len() && !(#[trigger] after.l2_dirty@[k]) implies q.dw[k]
        == p0.dw[k] && after.l2@[k]@ == p0.l2[k] by {
        assert(k < i);
        assert(plan.l2_dirty@[k] == after.l2_dirty@[k]);
        assert(q.dw[k] == p.dw[k]);
    }
    assert forall|k: int| 0 <= k < after.l2@.len() implies #[trigger] q.dw[k] != 0 by {
        if k < i {
            assert(q.dw[k] == p.dw[k]);
        }
    }
    assert forall|k: int| after.l2@.len() <= k < 512 implies #[trigger] q.dw[k] == p0.dw[k] by {
        assert(q.dw[k] == p.dw[k]);
    }
}

fn zero_words() -> (r: Vec<u32>)
    ensures
        r@ == no_words(),
        r@.len() == 512,
{
    let r: Vec<u32> = vec![0u32; 512];
    proof {
        assert(r@ =~= no_words());
    }
    r
}

fn copy_words(v: &Vec<u32>) -> (r: Vec<u32>)
    ensures
        r@ == v@,
{
    let mut out: Vec<u32> = Vec::new();
    let mut i: usize = 0;
    while i < v.len()
        invariant
            i <= v@.len(),
            out@ == v@.take(i as int),
        decreases v@.len() - i,
    {
        out.push(v[i]);
        i = i + 1;
        proof {
            assert(v@.take(i as int) =~= v@.take(i - 1).push(v@[i - 1]));
        }
    }
    proof {
        assert(v@.take(i as int) =~= v@);
    }
    out
}

} // verus!
