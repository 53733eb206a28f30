//! Writing files.

use crate::block::BlockDeviceIO;
use crate::bytes::{cut, push_repeat};
use crate::twilight_fs::bitmap::{all_set, clear_count};
use crate::twilight_fs::cache::without_file;
use crate::twilight_fs::fs::{
    inode_at, inode_record, lemma_with_inode, valid_ino, with_inode, Superblock, TwilightFs,
};
use crate::twilight_fs::inode::{le_list, Inode, InodeView};
use crate::twilight_fs::order::{
    ascending, in_order, lemma_order_any, lowest_taken, new_before, ranks_for,
};
use crate::twilight_fs::plan::{
    blocks_for, chunk, data_slot, extends, lacks, plan_sound, plan_view, plan_wf, stored,
    Plan, MAX_FILE_BLOCKS,
};
use crate::twilight_fs::read::{file_bytes, file_reads, lemma_zones_read, on_volume, run_bytes};
use crate::twilight_fs::volume::{put_run, FsError};
use crate::twilight_fs::zones::{
    avail, encode_words, lemma_avail_same, lemma_mark, lemma_words_of_list, marked, plan_of, shape,
    slot, sound, valid_slot, words, words_of, zmap_grew, PlanView, Slot,
};
use vstd::prelude::*;

verus! {

/// Whether one of the first `n` numbers in `zs` is `b`.
pub open spec fn listed(zs: Seq<u32>, n: int, b: int) -> bool {
    exists|k: int| 0 <= k < n && #[trigger] zs[k] == b
}

/// Whether a slot of `p` holds `b`.
pub open spec fn held_by(p: PlanView, b: int) -> bool {
    exists|s: Slot| valid_slot(s) && #[trigger] slot(p, s) == b
}

/// Whether the first `n` zones in `zs` hold the first `n` blocks of `data`.
spec fn holds(blocks: Seq<Seq<u8>>, zs: Seq<u32>, data: Seq<u8>, n: int) -> bool {
    forall|k: int|
        0 <= k < n ==> #[trigger] zs[k] < blocks.len() && blocks[zs[k] as int] == chunk(data, k)
}

/// Whether only the first `n` zones in `zs` have changed.
spec fn only_listed(before: Seq<Seq<u8>>, after: Seq<Seq<u8>>, zs: Seq<u32>, n: int) -> bool {
    &&& before.len() == after.len()
    &&& forall|b: int| 0 <= b < before.len() && !listed(zs, n, b) ==> #[trigger] after[b] == before[b]
}

proof fn lemma_run_step(
    b1: Seq<Seq<u8>>,
    before: Seq<Seq<u8>>,
    zs: Seq<u32>,
    data: Seq<u8>,
    i: int,
    j: int,
)
    requires
        zs.no_duplicates(),
        0 <= i < j <= zs.len(),
        j * 2048 <= data.len(),
        forall|k: int| i <= k < j ==> #[trigger] zs[k] == zs[i] + (k - i),
        zs[i] + (j - i) <= before.len(),
        holds(before, zs, data, i),
        only_listed(b1, before, zs, i),
    ensures
        holds(
            put_run(before, zs[i] as int, data.subrange(i * 2048, j * 2048)),
            zs,
            data,
            j,
        ),
        only_listed(
            b1,
            put_run(before, zs[i] as int, data.subrange(i * 2048, j * 2048)),
            zs,
            j,
        ),
{
    let part = data.subrange(i * 2048, j * 2048);
    let after = put_run(before, zs[i] as int, part);
    assert(part.len() == (j - i) * 2048);
    assert forall|k: int| 0 <= k < j implies #[trigger] zs[k] < after.len() && after[zs[k] as int]
        == chunk(data, k) by {
        if k < i {
            if zs[i] <= zs[k] < zs[i] + (j - i) {
                let t = i + (zs[k] - zs[i]);
                assert(zs[t] == zs[k]);
            }
        } else {
            let t = k - i;
            assert(after[zs[k] as int] == part.subrange(t * 2048, t * 2048 + 2048));
            assert(part.subrange(t * 2048, t * 2048 + 2048) =~= data.subrange(
                k * 2048,
                (k + 1) * 2048,
            ));
        }
    }
    assert forall|b: int| 0 <= b < b1.len() && !listed(zs, j, b) implies #[trigger] after[b]
        == b1[b] by {
        if zs[i] <= b < zs[i] + (j - i) {
            let t = i + (b - zs[i]);
            assert(zs[t] == b);
        }
        assert(!listed(zs, i, b)) by {
            if listed(zs, i, b) {
                let k = choose|k: int| 0 <= k < i && #[trigger] zs[k] == b;
                assert(zs[k] == b);
            }
        }
        assert(before[b] == b1[b]);
    }
}

impl<D: BlockDeviceIO> TwilightFs<D> {
    /// Writes the blocks of `data` to the zones in `zs`; full blocks in zones that
    /// follow one another are written together.
    fn write_data(&mut self, zs: &Vec<u32>, data: &[u8]) -> (res: Result<(), FsError>)
        requires
            old(self).wf(),
            zs@.len() == blocks_for(data@.len() as int),
        ensures
            final(self).wf(),
            final(self).same_but_blocks(old(self)),
            match res {
                Ok(_) => zs@.no_duplicates() ==> holds(
                    final(self).blocks(),
                    zs@,
                    data@,
                    zs@.len() as int,
                ) && only_listed(old(self).blocks(), final(self).blocks(), zs@, zs@.len() as int),
                Err(e) => e == FsError::InvalidInode && !(old(self).serves() && on_volume(
                    old(self).blocks(),
                    zs@,
                )),
            },
    {
        let ghost b1 = self.blocks();
        let mut i: usize = 0;
        let len: usize = data.len();
        let full: usize = len / 2048;
        while i < zs.len()
            invariant
                len == data@.len(),
                self.wf(),
                self.same_but_blocks(old(self)),
                b1 == old(self).blocks(),
                i <= zs@.len(),
                zs@.len() == blocks_for(data@.len() as int),
                full == data@.len() / 2048,
                zs@.no_duplicates() ==> holds(self.blocks(), zs@, data@, i as int) && only_listed(
                    b1,
                    self.blocks(),
                    zs@,
                    i as int,
                ),
            decreases zs@.len() - i,
        {
            let ghost before = self.blocks();
            if i < full {
                let mut j: usize = i + 1;
                while j < full && zs[j - 1] < u32::MAX && zs[j] == zs[j - 1] + 1
                    invariant
                        i < j <= full <= zs@.len(),
                        forall|k: int| i <= k < j ==> #[trigger] zs@[k] == zs@[i as int] + (k - i),
                    decreases full - j,
                {
                    j = j + 1;
                }
                let part: Vec<u8> = cut(data, i * 2048, j * 2048);
                proof {
                    assert(part@.len() == (j - i) * 2048);
                    assert(zs@[j - 1] == zs@[i as int] + (j - 1 - i));
                }
                match self.put_blocks(zs[i], &part) {
                    Ok(_) => {},
                    Err(e) => return Err(e),
                }
                proof {
                    if zs@.no_duplicates() {
                        lemma_run_step(b1, before, zs@, data@, i as int, j as int);
                    }
                }
                i = j;
            } else {
                let mut block: Vec<u8> = cut(data, i * 2048, data.len());
                let have: usize = block.len();
                push_repeat(&mut block, 0, 2048 - have);
                proof {
                    assert(block@ =~= chunk(data@, i as int));
                }
                match self.put_block(zs[i], &block) {
                    Ok(_) => {},
                    Err(e) => return Err(e),
                }
                proof {
                    if zs@.no_duplicates() {
                        lemma_one_step(b1, before, zs@, data@, i as int);
                    }
                }
                i = i + 1;
            }
        }
        Ok(())
    }

    /// Writes the indirect blocks that have changed.
    fn write_indirect(&mut self, plan: &Plan) -> (res: Result<(), FsError>)
        requires
            old(self).wf(),
            plan_wf(plan),
        ensures
            final(self).wf(),
            final(self).same_but_blocks(old(self)),
            match res {
                Ok(_) => indirect_written(old(self).blocks(), final(self).blocks(), plan),
                Err(e) => e == FsError::InvalidInode && !(old(self).serves() && on_volume(
                    old(self).blocks(),
                    plan.dw@,
                ) && plan.single < old(self).blocks().len() && plan.double < old(
                    self,
                ).blocks().len()),
            },
    {
        let ghost b2 = self.blocks();
        let ghost mut b3 = self.blocks();
        let mut i: usize = 0;
        while i < plan.l2.len()
            invariant
                self.wf(),
                self.same_but_blocks(old(self)),
                plan_wf(plan),
                b2 == old(self).blocks(),
                b3 == self.blocks(),
                i <= plan.l2@.len(),
                l2_written(b2, b3, plan, i as int),
            decreases plan.l2@.len() - i,
        {
            if plan.l2_dirty[i] {
                let block: Vec<u8> = encode_words(&plan.l2[i]);
                match self.put_block(plan.dw[i], &block) {
                    Ok(_) => {},
                    Err(e) => return Err(e),
                }
                proof {
                    lemma_l2_step(b2, b3, plan, i as int);
                }
            }
            proof {
                b3 = self.blocks();
            }
            i = i + 1;
        }
        if plan.single_dirty && plan.sw.len() == 512 {
            let block: Vec<u8> = encode_words(&plan.sw);
            match self.put_block(plan.single, &block) {
                Ok(_) => {},
                Err(e) => return Err(e),
            }
        }
        let ghost b4 = self.blocks();
        if plan.double_dirty && plan.dw.len() == 512 {
            let block: Vec<u8> = encode_words(&plan.dw);
            match self.put_block(plan.double, &block) {
                Ok(_) => {},
                Err(e) => return Err(e),
            }
        }
        proof {
            assert(steps_written(b2, b3, b4, self.blocks(), plan));
        }
        Ok(())
    }

    /// Gives the zones that were set aside and not used back.
    fn give_back(&mut self, pre: &Vec<u32>)
        requires
            old(self).wf(),
        ensures
            final(self).wf(),
            final(self).same_but_blocks(old(self)),
            (old(self).serves() || pre@.len() == 0) && (forall|i: int|
                0 <= i < pre@.len() ==> old(self).superblock.first_data_zone <= #[trigger] pre@[i]
                    < old(self).superblock.zones) ==> given_back(
                old(self).blocks(),
                final(self).blocks(),
                old(self).superblock,
                pre@,
            ),
    {
        let ghost sb = self.superblock;
        let ghost b6 = self.blocks();
        let ghost ok = (self.serves() || pre@.len() == 0) && (forall|i: int|
            0 <= i < pre@.len() ==> sb.first_data_zone <= #[trigger] pre@[i] < sb.zones);
        let mut i: usize = 0;
        while i < pre.len()
            invariant
                self.wf(),
                self.same_but_blocks(old(self)),
                sb == old(self).superblock,
                b6 == old(self).blocks(),
                i <= pre@.len(),
                ok == ((old(self).serves() || pre@.len() == 0) && (forall|k: int|
                    0 <= k < pre@.len() ==> sb.first_data_zone <= #[trigger] pre@[k] < sb.zones)),
                ok ==> given_back(b6, self.blocks(), sb, pre@.take(i as int)),
            decreases pre@.len() - i,
        {
            let ghost before = self.blocks();
            proof {
                self.lemma_block_len();
            }
            let _ = self.dealloc_zone(pre[i]);
            proof {
                if ok {
                    let z = pre@[i as int] as int;
                    lemma_mark(before, sb, z, false);
                    let seen = pre@.take(i as int);
                    let now = pre@.take(i + 1);
                    assert(now =~= seen.push(pre@[i as int]));
                    assert forall|y: int| #[trigger] marked(self.blocks(), sb, y) == (marked(b6, sb, y)
                        && !now.contains(y as u32)) by {
                        assert(now[i as int] == z as u32);
                        if sb.first_data_zone <= y < sb.zones {
                            if now.contains(y as u32) {
                                let k = choose|k: int| 0 <= k < now.len() && now[k] == y as u32;
                                if k < i {
                                    assert(seen[k] == y as u32);
                                }
                            }
                            if seen.contains(y as u32) {
                                let k = choose|k: int| 0 <= k < seen.len() && seen[k] == y as u32;
                                assert(now[k] == y as u32);
                            }
                        }
                    }
                    assert forall|b: int|
                        0 <= b < b6.len() && !(sb.zmap() <= b < sb.itable()) implies #[trigger] self.blocks()[b]
                        == b6[b] by {
                        assert(before[b] == b6[b]);
                    }
                }
            }
            i = i + 1;
        }
        proof {
            assert(pre@.take(i as int) =~= pre@);
        }
    }
}

/// Whether exactly the zones in `pre` were given back.
pub open spec fn given_back(before: Seq<Seq<u8>>, after: Seq<Seq<u8>>, sb: Superblock, pre: Seq<u32>) -> bool {
    &&& before.len() == after.len()
    &&& forall|b: int|
        0 <= b < before.len() && !(sb.zmap() <= b < sb.itable()) ==> #[trigger] after[b]
            == before[b]
    &&& forall|y: int| #[trigger]
        marked(after, sb, y) == (marked(before, sb, y) && !pre.contains(y as u32))
}

proof fn lemma_one_step(
    b1: Seq<Seq<u8>>,
    before: Seq<Seq<u8>>,
    zs: Seq<u32>,
    data: Seq<u8>,
    i: int,
)
    requires
        zs.no_duplicates(),
        0 <= i < zs.len(),
        zs[i] < before.len(),
        holds(before, zs, data, i),
        only_listed(b1, before, zs, i),
    ensures
        holds(before.update(zs[i] as int, chunk(data, i)), zs, data, i + 1),
        only_listed(b1, before.update(zs[i] as int, chunk(data, i)), zs, i + 1),
{
    let after = before.update(zs[i] as int, chunk(data, i));
    assert forall|b: int| 0 <= b < b1.len() && !listed(zs, i + 1, b) implies #[trigger] after[b]
        == b1[b] by {
        assert(zs[i] != b);
        assert(!listed(zs, i, b)) by {
            if listed(zs, i, b) {
                let k = choose|k: int| 0 <= k < i && #[trigger] zs[k] == b;
                assert(zs[k] == b);
            }
        }
        assert(before[b] == b1[b]);
    }
}

/// Whether the first `n` numbers in `zs` differ.
spec fn differ(zs: Seq<u32>, n: int) -> bool {
    forall|i: int, j: int| 0 <= i < j < n ==> #[trigger] zs[i] != #[trigger] zs[j]
}

/// Whether the first `n` second-level blocks of a plan that have changed were
/// written and nothing else.
spec fn l2_written(b2: Seq<Seq<u8>>, b3: Seq<Seq<u8>>, plan: &Plan, n: int) -> bool {
    &&& b2.len() == b3.len()
    &&& differ(plan.dw@, plan.l2@.len() as int) ==> forall|i: int|
        0 <= i < n && #[trigger] plan.l2_dirty@[i] ==> plan.dw@[i] < b3.len()
            && b3[plan.dw@[i] as int] == le_list(plan.l2@[i]@)
    &&& forall|b: int|
        0 <= b < b2.len() && (forall|i: int|
            0 <= i < n && #[trigger] plan.l2_dirty@[i] ==> plan.dw@[i] != b) ==> #[trigger] b3[b]
            == b2[b]
}

proof fn lemma_l2_step(b2: Seq<Seq<u8>>, b3: Seq<Seq<u8>>, plan: &Plan, i: int)
    requires
        plan_wf(plan),
        0 <= i < plan.l2@.len(),
        plan.l2_dirty@[i],
        plan.dw@[i] < b3.len(),
        l2_written(b2, b3, plan, i),
    ensures
        l2_written(b2, b3.update(plan.dw@[i] as int, le_list(plan.l2@[i]@)), plan, i + 1),
{
    let after = b3.update(plan.dw@[i] as int, le_list(plan.l2@[i]@));
    assert forall|b: int|
        0 <= b < b2.len() && (forall|k: int|
            0 <= k < i + 1 && #[trigger] plan.l2_dirty@[k] ==> plan.dw@[k] != b) implies #[trigger] after[b]
        == b2[b] by {
        assert(plan.l2_dirty@[i]);
        assert(b3[b] == b2[b]);
    }
}

/// Whether the indirect blocks of a plan were written one after another.
spec fn steps_written(
    b2: Seq<Seq<u8>>,
    b3: Seq<Seq<u8>>,
    b4: Seq<Seq<u8>>,
    b5: Seq<Seq<u8>>,
    plan: &Plan,
) -> bool {
    &&& l2_written(b2, b3, plan, plan.l2@.len() as int)
    &&& if plan.single_dirty && plan.sw@.len() == 512 {
        plan.single < b3.len() && b4 == b3.update(plan.single as int, le_list(plan.sw@))
    } else {
        b4 == b3
    }
    &&& if plan.double_dirty && plan.dw@.len() == 512 {
        plan.double < b4.len() && b5 == b4.update(plan.double as int, le_list(plan.dw@))
    } else {
        b5 == b4
    }
}

spec fn indirect_written(b2: Seq<Seq<u8>>, b5: Seq<Seq<u8>>, plan: &Plan) -> bool {
    exists|b3: Seq<Seq<u8>>, b4: Seq<Seq<u8>>| #[trigger] steps_written(b2, b3, b4, b5, plan)
}

/// What the parts of writing a file have done: `b0` were the blocks at the start,
/// `b1` those after planning, `b2` those after the data was written, `b5` those
/// after the indirect blocks were written.
spec fn parts_done(
    plan: &Plan,
    b0: Seq<Seq<u8>>,
    i0: InodeView,
    b1: Seq<Seq<u8>>,
    sb: Superblock,
    pre: Seq<u32>,
    zs: Seq<u32>,
    data: Seq<u8>,
    b2: Seq<Seq<u8>>,
    b5: Seq<Seq<u8>>,
) -> bool {
    let p = plan_view(plan, b0);
    &&& sb.wf()
    &&& sb.zones <= b0.len()
    &&& plan_wf(plan)
    &&& plan_sound(plan, b0, plan_of(b0, i0), b1, sb, pre)
    &&& zs.len() == blocks_for(data.len() as int) <= 262668
    &&& forall|j: int|
        0 <= j < zs.len() ==> #[trigger] zs[j] != 0 && zs[j] == slot(p, data_slot(j))
    &&& holds(b2, zs, data, zs.len() as int)
    &&& only_listed(b1, b2, zs, zs.len() as int)
    &&& indirect_written(b2, b5, plan)
}

/// A block that no part has written is as after planning.
proof fn lemma_untouched(
    plan: &Plan,
    b0: Seq<Seq<u8>>,
    i0: InodeView,
    b1: Seq<Seq<u8>>,
    sb: Superblock,
    pre: Seq<u32>,
    zs: Seq<u32>,
    data: Seq<u8>,
    b2: Seq<Seq<u8>>,
    b5: Seq<Seq<u8>>,
    b: int,
)
    requires
        parts_done(plan, b0, i0, b1, sb, pre, zs, data, b2, b5),
        0 <= b < b1.len(),
        !listed(zs, zs.len() as int, b),
        forall|i: int|
            0 <= i < plan.l2@.len() && #[trigger] plan.l2_dirty@[i] ==> plan.dw@[i] != b,
        plan.single_dirty ==> plan.single != b,
        plan.double_dirty ==> plan.double != b,
    ensures
        b5[b] == b1[b],
{
    let (b3, b4) = choose|b3: Seq<Seq<u8>>, b4: Seq<Seq<u8>>| #[trigger]
        steps_written(b2, b3, b4, b5, plan);
    assert(b3[b] == b2[b]);
    assert(b2[b] == b1[b]);
}

/// A block whose slot no part has written is as at the start.
proof fn lemma_slot_untouched(
    plan: &Plan,
    b0: Seq<Seq<u8>>,
    i0: InodeView,
    b1: Seq<Seq<u8>>,
    sb: Superblock,
    pre: Seq<u32>,
    zs: Seq<u32>,
    data: Seq<u8>,
    b2: Seq<Seq<u8>>,
    b5: Seq<Seq<u8>>,
    s: Slot,
)
    requires
        parts_done(plan, b0, i0, b1, sb, pre, zs, data, b2, b5),
        valid_slot(s),
        slot(plan_view(plan, b0), s) != 0,
        s == Slot::Single && !plan.single_dirty || s == Slot::Double && !plan.double_dirty || s is L1
            && !(s->L1_0 < plan.l2@.len() && plan.l2_dirty@[s->L1_0]),
    ensures
        b5[slot(plan_view(plan, b0), s) as int] == b0[slot(plan_view(plan, b0), s) as int],
{
    let p = plan_view(plan, b0);
    let b = slot(p, s) as int;
    assert(marked(b1, sb, b));
    assert(!listed(zs, zs.len() as int, b)) by {
        if listed(zs, zs.len() as int, b) {
            let k = choose|k: int| 0 <= k < zs.len() && #[trigger] zs[k] == b;
            assert(zs[k] == slot(p, data_slot(k)));
            assert(valid_slot(data_slot(k)));
            assert(data_slot(k) != s);
        }
    }
    assert forall|i: int| 0 <= i < plan.l2@.len() && #[trigger] plan.l2_dirty@[i] implies plan.dw@[i]
        != b by {
        assert(slot(p, Slot::L1(i)) == plan.dw@[i]);
        assert(valid_slot(Slot::L1(i)));
    }
    assert(slot(p, Slot::Single) == plan.single && valid_slot(Slot::Single));
    assert(slot(p, Slot::Double) == plan.double && valid_slot(Slot::Double));
    lemma_untouched(plan, b0, i0, b1, sb, pre, zs, data, b2, b5, b);
    assert(b1[b] == b0[b]);
}

/// What is on the volume once the data and the indirect blocks are written.
proof fn lemma_parts(
    plan: &Plan,
    b0: Seq<Seq<u8>>,
    i0: InodeView,
    b1: Seq<Seq<u8>>,
    sb: Superblock,
    pre: Seq<u32>,
    zs: Seq<u32>,
    data: Seq<u8>,
    b2: Seq<Seq<u8>>,
    b5: Seq<Seq<u8>>,
    inode: InodeView,
)
    requires
        parts_done(plan, b0, i0, b1, sb, pre, zs, data, b2, b5),
        inode.direct == plan.direct@,
        inode.single == plan.single,
        inode.double == plan.double,
    ensures
        b5.len() == b0.len(),
        plan_of(b5, inode) == plan_view(plan, b0),
        forall|k: int|
            0 <= k < zs.len() ==> {
                let z = #[trigger] slot(plan_view(plan, b0), data_slot(k));
                z != 0 && z < b5.len() && b5[z as int] == chunk(data, k)
            },
        forall|b: int|
            0 <= b < b0.len() && (b < sb.first_data_zone || !held_by(plan_view(plan, b0), b))
                ==> #[trigger] b5[b] == b1[b],
{
    let p = plan_view(plan, b0);
    let (b3, b4) = choose|b3: Seq<Seq<u8>>, b4: Seq<Seq<u8>>| #[trigger]
        steps_written(b2, b3, b4, b5, plan);
    assert(slot(p, Slot::Single) == plan.single && valid_slot(Slot::Single));
    assert(slot(p, Slot::Double) == plan.double && valid_slot(Slot::Double));
    assert(differ(plan.dw@, plan.l2@.len() as int)) by {
        assert forall|i: int, j: int| 0 <= i < j < plan.l2@.len() implies #[trigger] plan.dw@[i]
            != #[trigger] plan.dw@[j] by {
            assert(slot(p, Slot::L1(i)) == plan.dw@[i] && slot(p, Slot::L1(j)) == plan.dw@[j]);
            assert(valid_slot(Slot::L1(i)) && valid_slot(Slot::L1(j)));
            assert(p.dw[i] != 0);
        }
    }
    assert forall|k: int| 0 <= k < zs.len() implies {
        let z = #[trigger] slot(p, data_slot(k));
        z != 0 && z < b5.len() && b5[z as int] == chunk(data, k)
    } by {
        let z = slot(p, data_slot(k));
        assert(zs[k] == z);
        assert(valid_slot(data_slot(k)));
        assert(b2[z as int] == chunk(data, k));
        assert forall|i: int| 0 <= i < plan.l2@.len() && #[trigger] plan.l2_dirty@[i] implies plan.dw@[i]
            != z by {
            assert(slot(p, Slot::L1(i)) == plan.dw@[i]);
            assert(valid_slot(Slot::L1(i)));
        }
        assert(b3[z as int] == b2[z as int]);
    }
    // the indirect block
    assert(words_of(b5, inode.single) == p.sw) by {
        if plan.single != 0 {
            if plan.single_dirty {
                assert(b4[plan.single as int] == le_list(plan.sw@));
                assert(b5[plan.single as int] == b4[plan.single as int]);
                lemma_words_of_list(plan.sw@);
            } else {
                lemma_slot_untouched(plan, b0, i0, b1, sb, pre, zs, data, b2, b5, Slot::Single);
            }
        }
    }
    // the doubly indirect block
    assert(words_of(b5, inode.double) == p.dw) by {
        if plan.double != 0 {
            if plan.double_dirty {
                lemma_words_of_list(plan.dw@);
            } else {
                lemma_slot_untouched(plan, b0, i0, b1, sb, pre, zs, data, b2, b5, Slot::Double);
            }
        }
    }
    assert forall|i: int| 0 <= i < 512 implies words_of(b5, p.dw[i]) == p.l2[i] by {
        let s = Slot::L1(i);
        assert(slot(p, s) == p.dw[i] && valid_slot(s));
        if p.dw[i] != 0 {
            if i < plan.l2@.len() && plan.l2_dirty@[i] {
                assert(b3[plan.dw@[i] as int] == le_list(plan.l2@[i]@));
                lemma_words_of_list(plan.l2@[i]@);
                assert(b5[plan.dw@[i] as int] == b3[plan.dw@[i] as int]);
            } else {
                lemma_slot_untouched(plan, b0, i0, b1, sb, pre, zs, data, b2, b5, s);
            }
        }
    }
    assert(plan_of(b5, inode).l2 =~= p.l2);
    assert(plan_of(b5, inode) =~= p);
    assert forall|b: int|
        0 <= b < b0.len() && (b < sb.first_data_zone || !held_by(p, b)) implies #[trigger] b5[b]
        == b1[b] by {
        assert forall|s: Slot| valid_slot(s) && #[trigger] slot(p, s) != 0 implies slot(p, s) != b by {
            assert(marked(b1, sb, slot(p, s) as int));
        }
        assert(!listed(zs, zs.len() as int, b)) by {
            if listed(zs, zs.len() as int, b) {
                let k = choose|k: int| 0 <= k < zs.len() && #[trigger] zs[k] == b;
                assert(zs[k] == slot(p, data_slot(k)));
                assert(valid_slot(data_slot(k)));
            }
        }
        assert forall|i: int| 0 <= i < plan.l2@.len() && #[trigger] plan.l2_dirty@[i] implies plan.dw@[i]
            != b by {
            assert(slot(p, Slot::L1(i)) == plan.dw@[i] && valid_slot(Slot::L1(i)));
            assert(p.dw[i] != 0);
        }
        lemma_untouched(plan, b0, i0, b1, sb, pre, zs, data, b2, b5, b);
    }
}

/// The file `ino` holds `data`: its inode says so and keeps what else it said, its
/// old zones are still its own and its new ones were free; no other inode and no
/// zone of another file has changed.
pub open spec fn file_written(
    b0: Seq<Seq<u8>>,
    b1: Seq<Seq<u8>>,
    sb: Superblock,
    ino: int,
    data: Seq<u8>,
) -> bool {
    let i0 = inode_at(b0, sb, ino);
    let i1 = inode_at(b1, sb, ino);
    let p0 = plan_of(b0, i0);
    let p1 = plan_of(b1, i1);
    &&& b1.len() == b0.len()
    &&& i1 == InodeView {
        size: data.len() as u64,
        direct: i1.direct,
        single: i1.single,
        double: i1.double,
        ..i0
    }
    &&& stored(b1, i1, data)
    &&& sound(b1, sb, p1)
    &&& extends(p0, p1)
    &&& forall|s: Slot|
        valid_slot(s) && #[trigger] slot(p1, s) != slot(p0, s) ==> !marked(
            b0,
            sb,
            slot(p1, s) as int,
        )
    &&& forall|other: int|
        valid_ino(sb, other) && other != ino ==> #[trigger] inode_at(b1, sb, other) == inode_at(
            b0,
            sb,
            other,
        )
    &&& forall|z: int| #[trigger]
        marked(b1, sb, z) == (marked(b0, sb, z) || held_by(p1, z) && z != 0)
    &&& forall|b: int|
        0 <= b < b0.len() && (b < sb.zmap() || b >= sb.first_data_zone && !held_by(p1, b))
            ==> #[trigger] b1[b] == b0[b]
}

/// Whether the new zones of the file `ino`, which now has `n` blocks, are the lowest that
/// were free, in the order in which the file needs them, and no more than it needs.
pub open spec fn lowest_chosen(
    b0: Seq<Seq<u8>>,
    b1: Seq<Seq<u8>>,
    sb: Superblock,
    ino: int,
    n: int,
) -> bool {
    let p0 = plan_of(b0, inode_at(b0, sb, ino));
    let p1 = plan_of(b1, inode_at(b1, sb, ino));
    &&& new_before(p0, p1, ranks_for(n))
    &&& ascending(p0, p1)
    &&& lowest_taken(b0, b1, sb)
}

/// Giving back what was set aside and not needed leaves the lowest zones.
proof fn lemma_lowest(
    plan: &Plan,
    b0: Seq<Seq<u8>>,
    ino: int,
    b1: Seq<Seq<u8>>,
    sb: Superblock,
    pre: Seq<u32>,
    b7: Seq<Seq<u8>>,
    data: Seq<u8>,
    n: int,
)
    requires
        sb.wf(),
        sound(b0, sb, plan_of(b0, inode_at(b0, sb, ino))),
        plan_sound(plan, b0, plan_of(b0, inode_at(b0, sb, ino)), b1, sb, pre),
        in_order(
            b0,
            plan_of(b0, inode_at(b0, sb, ino)),
            b1,
            sb,
            plan_view(plan, b0),
            pre,
            ranks_for(n),
        ),
        file_written(b0, b7, sb, ino, data),
        plan_of(b7, inode_at(b7, sb, ino)) == plan_view(plan, b0),
    ensures
        lowest_chosen(b0, b7, sb, ino, n),
{
    reveal(in_order);
    let p0 = plan_of(b0, inode_at(b0, sb, ino));
    let p = plan_view(plan, b0);
    assert forall|z: int, y: int|
        #![trigger marked(b7, sb, z), marked(b7, sb, y)]
        marked(b7, sb, z) && !marked(b0, sb, z) && sb.first_data_zone <= y < z implies marked(
        b7,
        sb,
        y,
    ) by {
        assert(held_by(p, z));
        let s = choose|s: Slot| valid_slot(s) && #[trigger] slot(p, s) == z;
        assert(marked(b1, sb, slot(p, s) as int));
        assert(slot(p, s) != slot(p0, s)) by {
            if slot(p, s) == slot(p0, s) {
                assert(slot(p0, s) == z);
                assert(marked(b0, sb, slot(p0, s) as int));
            }
        }
        assert(marked(b1, sb, y));
        if !marked(b0, sb, y) {
            if pre.contains(y as u32) {
                let i = choose|i: int| 0 <= i < pre.len() && pre[i] == y as u32;
                assert(slot(p, s) < pre[i]);
            } else {
                let t = choose|t: Slot| valid_slot(t) && #[trigger] slot(p, t) == y;
                assert(held_by(p, y));
            }
        }
    }
}

/// What the file holds once its inode is written too, whatever the zone bitmap says.
proof fn lemma_content(
    plan: &Plan,
    b0: Seq<Seq<u8>>,
    ino: int,
    b1: Seq<Seq<u8>>,
    sb: Superblock,
    pre: Seq<u32>,
    zs: Seq<u32>,
    data: Seq<u8>,
    b2: Seq<Seq<u8>>,
    b5: Seq<Seq<u8>>,
    inode: InodeView,
    b7: Seq<Seq<u8>>,
)
    requires
        parts_done(plan, b0, inode_at(b0, sb, ino), b1, sb, pre, zs, data, b2, b5),
        extends(plan_of(b0, inode_at(b0, sb, ino)), plan_view(plan, b0)),
        valid_ino(sb, ino),
        forall|b: int| 0 <= b < b5.len() ==> (#[trigger] b5[b]).len() == 2048,
        inode.direct == plan.direct@,
        inode.direct.len() == 12,
        inode == (InodeView {
            size: data.len() as u64,
            direct: plan.direct@,
            single: plan.single,
            double: plan.double,
            ..inode_at(b0, sb, ino)
        }),
        b7.len() == b5.len(),
        forall|b: int|
            0 <= b < b5.len() && !(sb.zmap() <= b < sb.itable()) ==> #[trigger] b7[b] == with_inode(
                b5,
                sb,
                ino,
                inode,
            )[b],
    ensures
        b7.len() == b0.len(),
        b5.len() == b0.len(),
        inode_at(b7, sb, ino) == inode,
        plan_of(b7, inode) == plan_view(plan, b0),
        stored(b7, inode, data),
        forall|o: int|
            valid_ino(sb, o) && o != ino ==> #[trigger] inode_at(b7, sb, o) == inode_at(b0, sb, o),
        forall|b: int|
            0 <= b < b0.len() && (b < sb.first_data_zone || !held_by(plan_view(plan, b0), b))
                ==> #[trigger] b5[b] == b1[b],
{
    let i0 = inode_at(b0, sb, ino);
    let p = plan_view(plan, b0);
    let b6 = with_inode(b5, sb, ino, inode);
    lemma_parts(plan, b0, i0, b1, sb, pre, zs, data, b2, b5, inode);
    lemma_with_inode(b5, sb, ino, inode, ino);
    let at = sb.itable() + (ino - 1) / 16;
    assert(b6.len() == b5.len());
    assert forall|b: int| 0 <= b < b0.len() && b >= sb.first_data_zone implies #[trigger] b7[b]
        == b5[b] by {
        assert(b6[b] == b5[b]);
    }
    assert forall|o: int| valid_ino(sb, o) implies #[trigger] inode_at(b7, sb, o) == if o == ino {
        inode
    } else {
        inode_at(b0, sb, o)
    } by {
        lemma_with_inode(b5, sb, ino, inode, o);
        let ob = sb.itable() + (o - 1) / 16;
        assert(ob < sb.first_data_zone);
        assert(b7[ob] == b6[ob]);
        assert(inode_record(b7, sb, o) == inode_record(b6, sb, o));
        assert(b5[ob] == b1[ob]);
        assert(b1[ob] == b0[ob]);
        assert(inode_record(b5, sb, o) == inode_record(b0, sb, o));
    }
    assert(inode_at(b7, sb, ino) == inode);
    assert forall|s: Slot| valid_slot(s) && #[trigger] slot(p, s) != 0 implies b7[slot(p, s) as int]
        == b5[slot(p, s) as int] by {
        assert(marked(b1, sb, slot(p, s) as int));
    }
    assert(plan_of(b7, inode) == p) by {
        let q = plan_of(b5, inode);
        assert(slot(p, Slot::Single) == inode.single && valid_slot(Slot::Single));
        assert(slot(p, Slot::Double) == inode.double && valid_slot(Slot::Double));
        assert(words_of(b7, inode.single) == words_of(b5, inode.single));
        assert(words_of(b7, inode.double) == words_of(b5, inode.double));
        assert forall|i: int| 0 <= i < 512 implies words_of(b7, words_of(b7, inode.double)[i])
            == #[trigger] q.l2[i] by {
            assert(slot(p, Slot::L1(i)) == q.dw[i] && valid_slot(Slot::L1(i)));
        }
        assert(plan_of(b7, inode).l2 =~= q.l2);
        assert(plan_of(b7, inode) =~= q);
    }
    assert(stored(b7, inode, data)) by {
        assert forall|k: int| 0 <= k < blocks_for(data.len() as int) implies {
            let z = #[trigger] slot(plan_of(b7, inode), data_slot(k));
            z != 0 && z < b7.len() && b7[z as int] == chunk(data, k)
        } by {
            assert(slot(p, data_slot(k)) != 0);
            assert(valid_slot(data_slot(k)));
        }
    }
}

proof fn lemma_finish(
    plan: &Plan,
    b0: Seq<Seq<u8>>,
    ino: int,
    b1: Seq<Seq<u8>>,
    sb: Superblock,
    pre: Seq<u32>,
    zs: Seq<u32>,
    data: Seq<u8>,
    b2: Seq<Seq<u8>>,
    b5: Seq<Seq<u8>>,
    inode: InodeView,
    b7: Seq<Seq<u8>>,
)
    requires
        parts_done(plan, b0, inode_at(b0, sb, ino), b1, sb, pre, zs, data, b2, b5),
        extends(plan_of(b0, inode_at(b0, sb, ino)), plan_view(plan, b0)),
        valid_ino(sb, ino),
        forall|b: int| 0 <= b < b5.len() ==> (#[trigger] b5[b]).len() == 2048,
        inode.direct == plan.direct@,
        inode.direct.len() == 12,
        inode == (InodeView {
            size: data.len() as u64,
            direct: plan.direct@,
            single: plan.single,
            double: plan.double,
            ..inode_at(b0, sb, ino)
        }),
        given_back(with_inode(b5, sb, ino, inode), b7, sb, pre),
        sound(b0, sb, plan_of(b0, inode_at(b0, sb, ino))),
        in_order(
            b0,
            plan_of(b0, inode_at(b0, sb, ino)),
            b1,
            sb,
            plan_view(plan, b0),
            pre,
            ranks_for(zs.len() as int),
        ),
    ensures
        file_written(b0, b7, sb, ino, data),
        lowest_chosen(b0, b7, sb, ino, zs.len() as int),
{
    let i0 = inode_at(b0, sb, ino);
    let p = plan_view(plan, b0);
    let b6 = with_inode(b5, sb, ino, inode);
    lemma_parts(plan, b0, i0, b1, sb, pre, zs, data, b2, b5, inode);
    assert(b6.len() == b5.len());
    lemma_content(plan, b0, ino, b1, sb, pre, zs, data, b2, b5, inode, b7);
    assert forall|z: int| #[trigger] marked(b6, sb, z) == marked(b1, sb, z) by {
        if sb.first_data_zone <= z < sb.zones {
            let zb = sb.zmap() + (z - sb.first_data_zone) / 16384;
            assert(zb < sb.itable());
            assert(b6[zb] == b5[zb]);
            assert(b5[zb] == b1[zb]);
        }
    }
    assert forall|z: int| #[trigger] marked(b7, sb, z) == (marked(b0, sb, z) || held_by(p, z) && z
        != 0) by {
        assert(marked(b7, sb, z) == (marked(b6, sb, z) && !pre.contains(z as u32)));
        assert(marked(b6, sb, z) == marked(b1, sb, z));
        if marked(b0, sb, z) {
            assert(marked(b1, sb, z));
            if pre.contains(z as u32) {
                let i = choose|i: int| 0 <= i < pre.len() && pre[i] == z as u32;
                assert(!marked(b0, sb, pre[i] as int));
            }
        }
        if held_by(p, z) && z != 0 {
            let s = choose|s: Slot| valid_slot(s) && #[trigger] slot(p, s) == z;
            assert(marked(b1, sb, slot(p, s) as int));
            if pre.contains(z as u32) {
                let i = choose|i: int| 0 <= i < pre.len() && pre[i] == z as u32;
                assert(pre[i] != slot(p, s));
            }
        }
        if marked(b7, sb, z) && !marked(b0, sb, z) {
            let s = choose|s: Slot| valid_slot(s) && #[trigger] slot(p, s) == z;
            assert(held_by(p, z));
        }
    }
    assert(sound(b7, sb, p)) by {
        assert forall|s: Slot| valid_slot(s) && #[trigger] slot(p, s) != 0 implies marked(
            b7,
            sb,
            slot(p, s) as int,
        ) by {
            assert(held_by(p, slot(p, s) as int));
        }
    }
    assert forall|b: int|
        0 <= b < b0.len() && (b < sb.zmap() || b >= sb.first_data_zone && !held_by(p, b)) implies #[trigger] b7[b]
        == b0[b] by {
        assert(b7[b] == b6[b]);
        assert(b6[b] == b5[b]);
        assert(b5[b] == b1[b]);
        assert(b1[b] == b0[b]);
    }
    lemma_lowest(plan, b0, ino, b1, sb, pre, b7, data, zs.len() as int);
}

/// The plan for a file whose zones are as on the volume, with `pre` set aside.
proof fn lemma_start(
    plan: &Plan,
    b0: Seq<Seq<u8>>,
    i0: InodeView,
    b1: Seq<Seq<u8>>,
    sb: Superblock,
    pre: Seq<u32>,
)
    requires
        sb.wf(),
        i0.direct.len() == 12,
        plan.direct@ == i0.direct,
        plan.single == i0.single,
        plan.double == i0.double,
        plan.sw@.len() == 0,
        plan.dw@.len() == 0,
        plan.l2@.len() == 0,
        plan.l2_dirty@.len() == 0,
        !plan.single_dirty,
        !plan.double_dirty,
        sound(b0, sb, plan_of(b0, i0)),
        zmap_grew(b0, b1, sb),
        pre.no_duplicates(),
        forall|i: int|
            0 <= i < pre.len() ==> marked(b1, sb, #[trigger] pre[i] as int) && !marked(
                b0,
                sb,
                pre[i] as int,
            ),
        forall|z: int| #[trigger]
            marked(b1, sb, z) ==> marked(b0, sb, z) || pre.contains(z as u32),
    ensures
        plan_view(plan, b0) == plan_of(b0, i0),
        plan_sound(plan, b0, plan_of(b0, i0), b1, sb, pre),
{
    let p = plan_of(b0, i0);
    assert(plan_view(plan, b0).l2 =~= p.l2);
    assert(plan_view(plan, b0) =~= p);
    assert(shape(p));
    assert(sound(b1, sb, p)) by {
        assert forall|s: Slot| valid_slot(s) && #[trigger] slot(p, s) != 0 implies marked(
            b1,
            sb,
            slot(p, s) as int,
        ) by {
            assert(marked(b0, sb, slot(p, s) as int));
        }
    }
    assert forall|i: int, s: Slot|
        #![trigger pre[i], slot(p, s)]
        0 <= i < pre.len() && valid_slot(s) implies pre[i] != slot(p, s) by {
        assert(marked(b1, sb, pre[i] as int));
        if slot(p, s) != 0 {
            assert(marked(b0, sb, slot(p, s) as int));
        }
    }
}

fn reversed(v: &Vec<u32>) -> (r: Vec<u32>)
    ensures
        r@ == v@.reverse(),
{
    let mut out: Vec<u32> = Vec::new();
    let mut i: usize = v.len();
    while i > 0
        invariant
            i <= v@.len(),
            out@.len() == v@.len() - i,
            forall|k: int| 0 <= k < out@.len() ==> out@[k] == v@[v@.len() - 1 - k],
        decreases i,
    {
        i = i - 1;
        out.push(v[i]);
    }
    proof {
        assert(out@ =~= v@.reverse());
    }
    out
}

/// The number of blocks that `a` blocks lack to be as many as `b`.
pub open spec fn lacking(a: int, b: int) -> int {
    if a < b {
        b - a
    } else {
        0
    }
}

/// The number of second-level blocks of a file of `n` blocks.
pub open spec fn second_level(n: int) -> int {
    (lacking(524, n) + 511) / 512
}

/// How many zones are set aside before a file of `required` blocks is written over one of
/// `existing` blocks: none for a file without indirect blocks.
pub open spec fn set_aside_for(required: int, existing: int, single: u32, double: u32) -> int {
    if required <= 12 {
        0
    } else {
        lacking(existing, required) + (if single == 0 {
            1int
        } else {
            0
        }) + (if required > 524 && double == 0 {
            1int
        } else {
            0
        }) + lacking(second_level(existing), second_level(required))
    }
}

/// How many zones are set aside before a file of `required` blocks is written over
/// one of `existing` blocks.
fn zones_to_reserve(required: usize, existing: u64, single: u32, double: u32) -> (r: usize)
    requires
        required <= 262668,
    ensures
        r == set_aside_for(required as int, existing as int, single, double),
{
    if required <= 12 {
        return 0;
    }
    let missing: usize = if required as u64 > existing {
        (required as u64 - existing) as usize
    } else {
        0
    };
    let mut metadata: usize = 0;
    if single == 0 {
        metadata = metadata + 1;
    }
    if required > 524 {
        if double == 0 {
            metadata = metadata + 1;
        }
        let needed: u64 = (required as u64 - 524 + 511) / 512;
        let beyond: u64 = if existing > 524 {
            existing - 524
        } else {
            0
        };
        let present: u64 = beyond / 512 + if beyond % 512 != 0 {
            1
        } else {
            0
        };
        if needed > present {
            metadata = metadata + (needed - present) as usize;
        }
    }
    missing + metadata
}

/// Whether exactly the zones in `pre`, the lowest that were free, were set aside, so that
/// the lowest is taken first.
pub open spec fn aside(b0: Seq<Seq<u8>>, b1: Seq<Seq<u8>>, sb: Superblock, pre: Seq<u32>) -> bool {
    &&& zmap_grew(b0, b1, sb)
    &&& pre.no_duplicates()
    &&& forall|i: int|
        0 <= i < pre.len() ==> marked(b1, sb, #[trigger] pre[i] as int) && !marked(
            b0,
            sb,
            pre[i] as int,
        )
    &&& forall|z: int| #[trigger]
        marked(b1, sb, z) ==> marked(b0, sb, z) || pre.contains(z as u32)
    &&& avail(b1, sb, pre) == clear_count(b0, sb.zmap(), sb.data_zones())
    &&& forall|p: PlanView| #[trigger] in_order(b0, p, b1, sb, p, pre, 0)
}

/// Whether the file `ino` was filled with `data` while the zones in `pre`, which it did not
/// need, are still set aside: it holds `data`, and once they are given back it is written.
pub open spec fn file_filled(
    b0: Seq<Seq<u8>>,
    b1: Seq<Seq<u8>>,
    sb: Superblock,
    ino: int,
    data: Seq<u8>,
    pre: Seq<u32>,
) -> bool {
    &&& inode_at(b1, sb, ino).size == data.len()
    &&& stored(b1, inode_at(b1, sb, ino), data)
    &&& forall|b2: Seq<Seq<u8>>| #[trigger]
        given_back(b1, b2, sb, pre) ==> file_written(b0, b2, sb, ino, data) && lowest_chosen(
            b0,
            b2,
            sb,
            ino,
            blocks_for(data.len() as int),
        )
}

impl<D: BlockDeviceIO> TwilightFs<D> {
    /// Sets up to `count` zones aside, so that the lowest is taken first. Where zones were
    /// set aside they are as they should be, whatever the device.
    fn set_aside(&mut self, count: usize) -> (pre: Vec<u32>)
        requires
            old(self).wf(),
        ensures
            final(self).wf(),
            final(self).same_but_blocks(old(self)),
            count == 0 ==> pre@.len() == 0 && final(self).blocks() == old(self).blocks(),
            old(self).serves() || count == 0 || pre@.len() > 0 ==> aside(
                old(self).blocks(),
                final(self).blocks(),
                old(self).superblock,
                pre@,
            ),
    {
        let ghost sb = self.superblock;
        let ghost b0 = self.blocks();
        if count == 0 {
            let none: Vec<u32> = Vec::new();
            proof {
                lemma_order_any(b0, b0, sb, none@);
            }
            return none;
        }
        match self.allocate_zones(count) {
            Ok(v) => {
                let pre: Vec<u32> = reversed(&v);
                proof {
                    let n = v@.len();
                    assert forall|i: int, j: int|
                        0 <= i < pre@.len() && 0 <= j < pre@.len() && i != j implies pre@[i]
                        != pre@[j] by {
                        assert(pre@[i] == v@[n - 1 - i] && pre@[j] == v@[n - 1 - j]);
                    }
                    assert forall|i: int| 0 <= i < pre@.len() implies marked(
                        self.blocks(),
                        sb,
                        #[trigger] pre@[i] as int,
                    ) && !marked(b0, sb, pre@[i] as int) by {
                        assert(pre@[i] == v@[n - 1 - i]);
                    }
                    assert forall|z: int| #[trigger] marked(self.blocks(), sb, z) implies marked(
                        b0,
                        sb,
                        z,
                    ) || pre@.contains(z as u32) by {
                        if !marked(b0, sb, z) {
                            let i = choose|i: int| 0 <= i < v@.len() && v@[i] == z;
                            assert(pre@[n - 1 - i] == z);
                        }
                    }
                    assert forall|i: int, j: int| 0 <= i < j < pre@.len() implies pre@[i] > pre@[j] by {
                        assert(pre@[i] == v@[n - 1 - i] && pre@[j] == v@[n - 1 - j]);
                    }
                    assert forall|z: int, y: int|
                        #![trigger marked(self.blocks(), sb, z), marked(self.blocks(), sb, y)]
                        marked(self.blocks(), sb, z) && !marked(b0, sb, z) && sb.first_data_zone <= y
                            < z implies marked(self.blocks(), sb, y) by {
                        let i = choose|i: int| 0 <= i < v@.len() && v@[i] == z;
                        assert(y < v@[i]);
                    }
                    lemma_order_any(b0, self.blocks(), sb, pre@);
                }
                pre
            },
            Err(_) => {
                proof {
                    if old(self).serves() {
                        assert forall|z: int| #[trigger] marked(b0, sb, z) == marked(
                            self.blocks(),
                            sb,
                            z,
                        ) by {
                            if marked(self.blocks(), sb, z) {
                                assert(marked(b0, sb, z));
                            }
                        }
                        lemma_avail_same(b0, self.blocks(), sb);
                        lemma_order_any(b0, self.blocks(), sb, Seq::empty());
                    }
                }
                Vec::new()
            },
        }
    }

    /// Makes `data` the contents of file `inode_num`, with the zones in `pre` taken first
    /// where new ones are needed; those not needed stay in `pre`. `b0` were the blocks
    /// before they were set aside.
    #[verifier::rlimit(40)]
    pub(crate) fn fill_file(
        &mut self,
        inode_num: u32,
        node: &Inode,
        data: &[u8],
        pre: &mut Vec<u32>,
        Ghost(b0): Ghost<Seq<Seq<u8>>>,
    ) -> (res: Result<(), FsError>)
        requires
            old(self).wf(),
            valid_ino(old(self).superblock, inode_num as int),
            blocks_for(data@.len() as int) <= MAX_FILE_BLOCKS,
        ensures
            final(self).wf(),
            final(self).same_but_blocks(old(self)),
            final(pre)@.len() <= old(pre)@.len(),
            ({
                let sb = old(self).superblock;
                let n = blocks_for(data@.len() as int);
                let p0 = plan_of(b0, node@);
                let rest = final(pre)@;
                let ready = node@ == inode_at(b0, sb, inode_num as int) && sound(b0, sb, p0)
                    && b0.len() == old(self).blocks().len() && aside(
                    b0,
                    old(self).blocks(),
                    sb,
                    old(pre)@,
                );
                match res {
                    Ok(_) => ready ==> {
                        &&& file_filled(
                            b0,
                            final(self).blocks(),
                            sb,
                            inode_num as int,
                            data@,
                            rest,
                        )
                        &&& forall|i: int|
                            0 <= i < rest.len() ==> sb.first_data_zone <= #[trigger] rest[i]
                                < sb.zones
                    },
                    Err(e) => {
                        &&& e == FsError::InvalidInode
                        &&& ready && old(self).serves() ==> {
                            &&& clear_count(b0, sb.zmap(), sb.data_zones()) < lacks(p0, n)
                            &&& all_set(final(self).blocks(), sb.zmap(), sb.data_zones())
                            &&& zmap_grew(b0, final(self).blocks(), sb)
                        }
                    },
                }
            }),
    {
        let ghost sb = self.superblock;
        let ghost i0 = node@;
        let ghost ready = i0 == inode_at(b0, sb, inode_num as int) && sound(b0, sb, plan_of(b0, i0))
            && b0.len() == self.blocks().len() && aside(b0, self.blocks(), sb, pre@);
        let mut inode: Inode = *node;
        let len: usize = data.len();
        let required: usize = len / 2048 + if len % 2048 != 0 {
            1
        } else {
            0
        };
        let mut plan: Plan = Plan {
            direct: inode.direct,
            single: inode.single,
            sw: Vec::new(),
            single_dirty: false,
            double: inode.double,
            dw: Vec::new(),
            double_dirty: false,
            l2: Vec::new(),
            l2_dirty: Vec::new(),
        };
        proof {
            if ready {
                lemma_start(&plan, b0, i0, self.blocks(), sb, pre@);
            }
        }
        let zs: Vec<u32> = match self.plan_zones(
            &mut plan,
            pre,
            required,
            Ghost(b0),
            Ghost(plan_of(b0, i0)),
        ) {
            Ok(v) => v,
            Err(e) => return Err(e),
        };
        let ghost b1 = self.blocks();
        proof {
            if ready {
                lemma_zones_fit(&plan, b0, plan_of(b0, i0), b1, sb, pre@, zs@);
            }
        }
        match self.write_data(&zs, data) {
            Ok(_) => {},
            Err(e) => return Err(e),
        }
        let ghost b2 = self.blocks();
        match self.write_indirect(&plan) {
            Ok(_) => {},
            Err(e) => return Err(e),
        }
        let ghost b5 = self.blocks();
        inode.direct = plan.direct;
        inode.single = plan.single;
        inode.double = plan.double;
        inode.size = len as u64;
        proof {
            self.lemma_block_len();
        }
        match self.write_inode(inode_num, &inode) {
            Ok(_) => {},
            Err(_) => return Err(FsError::InvalidInode),
        }
        proof {
            if ready {
                assert forall|i: int| 0 <= i < pre@.len() implies sb.first_data_zone
                    <= #[trigger] pre@[i] < sb.zones by {
                    assert(marked(b1, sb, pre@[i] as int));
                }
                lemma_content(
                    &plan,
                    b0,
                    inode_num as int,
                    b1,
                    sb,
                    pre@,
                    zs@,
                    data@,
                    b2,
                    b5,
                    inode@,
                    self.blocks(),
                );
                assert forall|b7: Seq<Seq<u8>>| #[trigger]
                    given_back(self.blocks(), b7, sb, pre@) implies file_written(
                    b0,
                    b7,
                    sb,
                    inode_num as int,
                    data@,
                ) && lowest_chosen(b0, b7, sb, inode_num as int, zs@.len() as int) by {
                    lemma_finish(
                        &plan,
                        b0,
                        inode_num as int,
                        b1,
                        sb,
                        pre@,
                        zs@,
                        data@,
                        b2,
                        b5,
                        inode@,
                        b7,
                    );
                }
            }
        }
        Ok(())
    }

    /// Makes `data` the contents of file `inode_num`. Where zones are to be set aside for it
    /// and that fails, or giving back those that it did not need, the file is written
    /// nonetheless.
    pub fn write_file(&mut self, inode_num: u32, data: &[u8]) -> (res: Result<(), FsError>)
        requires
            old(self).wf(),
        ensures
            final(self).wf(),
            final(self).same_volume(old(self)),
            ({
                let sb = old(self).superblock;
                let b0 = old(self).blocks();
                let b1 = final(self).blocks();
                let n = blocks_for(data@.len() as int);
                let i0 = inode_at(b0, sb, inode_num as int);
                let p0 = plan_of(b0, i0);
                match res {
                    Ok(_) => {
                        &&& valid_ino(sb, inode_num as int)
                        &&& n <= MAX_FILE_BLOCKS
                        &&& (old(self).serves() || set_aside_for(
                            n,
                            blocks_for(i0.size as int),
                            i0.single,
                            i0.double,
                        ) == 0) && sound(b0, sb, p0) ==> {
                            &&& file_written(b0, b1, sb, inode_num as int, data@)
                            &&& lowest_chosen(b0, b1, sb, inode_num as int, n)
                        }
                        &&& final(self).shared.generation == old(self).shared.generation
                        &&& final(self).shared.lookup_cache == old(self).shared.lookup_cache
                        &&& final(self).shared.dir_index_cache == old(self).shared.dir_index_cache
                        &&& final(self).shared.file_cache.held(old(self).shared.generation)
                            == without_file(
                            old(self).shared.file_cache.held(old(self).shared.generation),
                            inode_num,
                        )
                    },
                    Err(FsError::FileSizeTooLarge) => {
                        &&& valid_ino(sb, inode_num as int)
                        &&& n > MAX_FILE_BLOCKS
                        &&& b1 == b0
                        &&& final(self).shared == old(self).shared
                    },
                    Err(e) => {
                        &&& e == FsError::InvalidInode
                        &&& final(self).shared == old(self).shared
                        &&& !valid_ino(sb, inode_num as int) ==> b1 == b0
                        &&& valid_ino(sb, inode_num as int) && old(self).serves() && sound(
                            b0,
                            sb,
                            p0,
                        ) ==> {
                            &&& n <= MAX_FILE_BLOCKS
                            &&& clear_count(b0, sb.zmap(), sb.data_zones()) < lacks(p0, n)
                            &&& all_set(b1, sb.zmap(), sb.data_zones())
                            &&& zmap_grew(b0, b1, sb)
                        }
                    },
                }
            }),
    {
        let ghost b0 = self.blocks();
        let len: usize = data.len();
        let inode: Inode = match self.read_inode(inode_num) {
            Ok(i) => i,
            Err(_) => return Err(FsError::InvalidInode),
        };
        let required: usize = len / 2048 + if len % 2048 != 0 {
            1
        } else {
            0
        };
        if required > MAX_FILE_BLOCKS {
            return Err(FsError::FileSizeTooLarge);
        }
        let existing: u64 = inode.size / 2048 + if inode.size % 2048 != 0 {
            1
        } else {
            0
        };
        let count: usize = zones_to_reserve(required, existing, inode.single, inode.double);
        let mut pre: Vec<u32> = self.set_aside(count);
        match self.fill_file(inode_num, &inode, data, &mut pre, Ghost(b0)) {
            Ok(_) => {},
            Err(e) => return Err(e),
        }
        self.give_back(&pre);
        let generation: usize = self.shared.generation;
        self.shared.file_cache.invalidate_inode(generation, inode_num);
        Ok(())
    }
}

/// The zones of a sound plan differ and are on the volume.
proof fn lemma_zones_fit(
    plan: &Plan,
    b0: Seq<Seq<u8>>,
    p0: PlanView,
    b1: Seq<Seq<u8>>,
    sb: Superblock,
    pre: Seq<u32>,
    zs: Seq<u32>,
)
    requires
        sb.wf(),
        sb.zones <= b1.len(),
        plan_wf(plan),
        plan_sound(plan, b0, p0, b1, sb, pre),
        zs.len() <= 262668,
        forall|j: int|
            0 <= j < zs.len() ==> #[trigger] zs[j] != 0 && zs[j] == slot(
                plan_view(plan, b0),
                data_slot(j),
            ),
    ensures
        zs.no_duplicates(),
        on_volume(b1, zs),
        on_volume(b1, plan.dw@),
        plan.single < b1.len(),
        plan.double < b1.len(),
{
    let p = plan_view(plan, b0);
    assert forall|i: int, j: int| 0 <= i < zs.len() && 0 <= j < zs.len() && i != j implies zs[i]
        != zs[j] by {
        assert(zs[i] == slot(p, data_slot(i)) && zs[j] == slot(p, data_slot(j)));
        assert(valid_slot(data_slot(i)) && valid_slot(data_slot(j)));
        assert(data_slot(i) != data_slot(j));
    }
    assert forall|i: int| 0 <= i < zs.len() implies #[trigger] zs[i] < b1.len() by {
        assert(valid_slot(data_slot(i)));
        assert(zs[i] == slot(p, data_slot(i)));
        assert(marked(b1, sb, slot(p, data_slot(i)) as int));
    }
    assert forall|i: int| 0 <= i < plan.dw@.len() implies #[trigger] plan.dw@[i] < b1.len() by {
        assert(slot(p, Slot::L1(i)) == plan.dw@[i] && valid_slot(Slot::L1(i)));
        if plan.dw@[i] != 0 {
            assert(marked(b1, sb, slot(p, Slot::L1(i)) as int));
        }
    }
    assert(slot(p, Slot::Single) == plan.single && valid_slot(Slot::Single));
    assert(slot(p, Slot::Double) == plan.double && valid_slot(Slot::Double));
}

proof fn lemma_run_reads(blocks: Seq<Seq<u8>>, zs: Seq<u32>, data: Seq<u8>, base: int)
    requires
        0 <= base,
        base * 2048 <= data.len(),
        forall|k: int|
            0 <= k < zs.len() && base + k < blocks_for(data.len() as int) ==> #[trigger] zs[k] != 0
                && blocks[zs[k] as int] == chunk(data, base + k),
    ensures
        run_bytes(blocks, zs, data.len() - base * 2048) == data.subrange(
            base * 2048,
            if data.len() < (base + zs.len()) * 2048 {
                data.len() as int
            } else {
                (base + zs.len()) * 2048
            },
        ),
    decreases zs.len(),
{
    let left = data.len() - base * 2048;
    let end = if data.len() < (base + zs.len()) * 2048 {
        data.len() as int
    } else {
        (base + zs.len()) * 2048
    };
    let goal = data.subrange(base * 2048, end);
    if zs.len() == 0 {
        assert(goal =~= Seq::<u8>::empty());
    } else if left == 0 {
        assert(goal =~= Seq::<u8>::empty());
        assert(blocks[zs[0] as int].take(0) =~= Seq::<u8>::empty());
    } else {
        assert(base < blocks_for(data.len() as int));
        assert(zs[0] != 0 && blocks[zs[0] as int] == chunk(data, base + 0));
        if left <= 2048 {
            assert(chunk(data, base).take(left) =~= goal);
        } else {
            let rest = zs.skip(1);
            assert forall|k: int|
                0 <= k < rest.len() && base + 1 + k < blocks_for(data.len() as int) implies #[trigger] rest[k]
                != 0 && blocks[rest[k] as int] == chunk(data, base + 1 + k) by {
                assert(rest[k] == zs[k + 1]);
                assert(base + (k + 1) == base + 1 + k);
            }
            lemma_run_reads(blocks, rest, data, base + 1);
            assert(goal =~= chunk(data, base) + data.subrange((base + 1) * 2048, end));
        }
    }
}

/// A file that holds `data`, of at most 523 blocks, reads as `data`. (Of an
/// indirect block reading follows all entries but the last.)
pub proof fn lemma_stored_reads(blocks: Seq<Seq<u8>>, inode: InodeView, data: Seq<u8>)
    requires
        stored(blocks, inode, data),
        inode.size == data.len(),
        inode.direct.len() == 12,
        blocks_for(data.len() as int) <= 523,
    ensures
        file_bytes(blocks, inode) == data,
{
    let n = blocks_for(data.len() as int);
    let p = plan_of(blocks, inode);
    assert forall|k: int| 0 <= k < 12 && 0 + k < n implies #[trigger] inode.direct[k] != 0
        && blocks[inode.direct[k] as int] == chunk(data, 0 + k) by {
        assert(slot(p, data_slot(k)) == inode.direct[k]);
    }
    lemma_run_reads(blocks, inode.direct, data, 0);
    let a = run_bytes(blocks, inode.direct, inode.size as int);
    if n <= 12 {
        assert(a =~= data);
        if inode.single != 0 {
            let w = words(blocks[inode.single as int]).take(511);
            assert(blocks[w[0] as int].take(0) =~= Seq::<u8>::empty());
            assert(run_bytes(blocks, w, 0) =~= Seq::<u8>::empty());
        }
    } else {
        assert(slot(p, data_slot(12)) == p.sw[0]);
        let w = words(blocks[inode.single as int]).take(511);
        assert forall|k: int| 0 <= k < w.len() && 12 + k < n implies #[trigger] w[k] != 0
            && blocks[w[k] as int] == chunk(data, 12 + k) by {
            assert(slot(p, data_slot(12 + k)) == p.sw[k]);
            assert(w[k] == p.sw[k]);
        }
        lemma_run_reads(blocks, w, data, 12);
        assert(a + run_bytes(blocks, w, data.len() - 12 * 2048) =~= data);
    }
    assert(file_bytes(blocks, inode) =~= data);
}

/// Reading a file after it was written gives what was written, where that is at
/// most 523 blocks long.
pub proof fn lemma_write_then_read(
    b0: Seq<Seq<u8>>,
    b1: Seq<Seq<u8>>,
    sb: Superblock,
    ino: int,
    data: Seq<u8>,
)
    requires
        sb.wf(),
        sb.zones <= b0.len(),
        data.len() <= u64::MAX,
        file_written(b0, b1, sb, ino, data),
        blocks_for(data.len() as int) <= 523,
    ensures
        file_reads(b1, inode_at(b1, sb, ino)),
        file_bytes(b1, inode_at(b1, sb, ino)) == data,
{
    let inode = inode_at(b1, sb, ino);
    let p = plan_of(b1, inode);
    lemma_stored_reads(b1, inode, data);
    assert forall|s: Slot| valid_slot(s) implies #[trigger] slot(p, s) < b1.len() by {
        if slot(p, s) != 0 {
            assert(marked(b1, sb, slot(p, s) as int));
        }
    }
    assert forall|i: int| 0 <= i < 12 implies #[trigger] inode.direct[i] < b1.len() by {
        assert(slot(p, Slot::Direct(i)) == inode.direct[i] && valid_slot(Slot::Direct(i)));
    }
    assert(slot(p, Slot::Single) == inode.single && valid_slot(Slot::Single));
    assert(slot(p, Slot::Double) == inode.double && valid_slot(Slot::Double));
    if inode.single != 0 {
        let w = words(b1[inode.single as int]);
        assert forall|i: int| 0 <= i < w.len() implies #[trigger] w[i] < b1.len() by {
            assert(slot(p, Slot::S(i)) == w[i] && valid_slot(Slot::S(i)));
        }
    }
    if inode.double != 0 {
        let w = words(b1[inode.double as int]);
        assert forall|i: int| 0 <= i < w.len() implies #[trigger] w[i] < b1.len() by {
            assert(slot(p, Slot::L1(i)) == w[i] && valid_slot(Slot::L1(i)));
        }
        assert forall|i: int| 0 <= i < 512 && #[trigger] w[i] != 0 implies on_volume(
            b1,
            words(b1[w[i] as int]),
        ) by {
            let u = words(b1[w[i] as int]);
            assert forall|j: int| 0 <= j < u.len() implies #[trigger] u[j] < b1.len() by {
                assert(p.l2[i] == u);
                assert(slot(p, Slot::L2(i, j)) == u[j] && valid_slot(Slot::L2(i, j)));
            }
        }
    }
    lemma_zones_read(b1, inode);
}

} // verus!
