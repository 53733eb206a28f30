//! The zones of a file: where an inode and its indirect blocks keep their
//! numbers, and how new ones are found.

use crate::block::BlockDeviceIO;
use crate::bytes::{le_digits, lemma_le_round_trip, pow256, push_le, read_u32};
use crate::twilight_fs::bitmap::{
    all_set, bit_at, clear_count, lemma_clear_count_same, lemma_clear_count_set,
    lemma_clear_count_zero, lemma_with_bit_at, with_bit_at,
};
use crate::twilight_fs::fs::{Superblock, TwilightFs};
use crate::twilight_fs::inode::{le_list, le_words, lemma_le_list, InodeView};
use crate::twilight_fs::volume::{FsError, TfsError};
use vstd::prelude::*;

verus! {

/// The zone numbers in an indirect block.
pub open spec fn words(block: Seq<u8>) -> Seq<u32> {
    le_words(block, 0, 512)
}

pub open spec fn no_words() -> Seq<u32> {
    Seq::new(512, |i: int| 0u32)
}

/// The zone numbers in the indirect block `zone`, where there is one.
pub open spec fn words_of(blocks: Seq<Seq<u8>>, zone: u32) -> Seq<u32> {
    if zone == 0 {
        no_words()
    } else {
        words(blocks[zone as int])
    }
}

/// All zone numbers of a file: those in the inode, in the indirect block, in the
/// doubly indirect block and in the indirect blocks that it names.
#[verifier::ext_equal]
pub struct PlanView {
    pub direct: Seq<u32>,
    pub single: u32,
    pub sw: Seq<u32>,
    pub double: u32,
    pub dw: Seq<u32>,
    pub l2: Seq<Seq<u32>>,
}

/// A place where a file keeps a zone number.
pub enum Slot {
    Direct(int),
    Single,
    Double,
    S(int),
    L1(int),
    L2(int, int),
}

pub open spec fn valid_slot(s: Slot) -> bool {
    match s {
        Slot::Direct(i) => 0 <= i < 12,
        Slot::Single => true,
        Slot::Double => true,
        Slot::S(i) => 0 <= i < 512,
        Slot::L1(i) => 0 <= i < 512,
        Slot::L2(i, j) => 0 <= i < 512 && 0 <= j < 512,
    }
}

/// The zone number in a slot; zero where there is none.
pub open spec fn slot(p: PlanView, s: Slot) -> u32 {
    match s {
        Slot::Direct(i) => p.direct[i],
        Slot::Single => p.single,
        Slot::Double => p.double,
        Slot::S(i) => p.sw[i],
        Slot::L1(i) => p.dw[i],
        Slot::L2(i, j) => p.l2[i][j],
    }
}

/// `p` with the zone number in a slot replaced.
pub open spec fn claim(p: PlanView, s: Slot, z: u32) -> PlanView {
    match s {
        Slot::Direct(i) => PlanView { direct: p.direct.update(i, z), ..p },
        Slot::Single => PlanView { single: z, ..p },
        Slot::Double => PlanView { double: z, ..p },
        Slot::S(i) => PlanView { sw: p.sw.update(i, z), ..p },
        Slot::L1(i) => PlanView { dw: p.dw.update(i, z), ..p },
        Slot::L2(i, j) => PlanView { l2: p.l2.update(i, p.l2[i].update(j, z)), ..p },
    }
}

pub open spec fn shape(p: PlanView) -> bool {
    &&& p.direct.len() == 12
    &&& p.sw.len() == 512
    &&& p.dw.len() == 512
    &&& p.l2.len() == 512
    &&& forall|i: int| 0 <= i < 512 ==> (#[trigger] p.l2[i]).len() == 512
}

pub proof fn lemma_claim(p: PlanView, s: Slot, z: u32, t: Slot)
    requires
        shape(p),
        valid_slot(s),
        valid_slot(t),
    ensures
        shape(claim(p, s, z)),
        slot(claim(p, s, z), t) == if s == t {
            z
        } else {
            slot(p, t)
        },
{
}

/// The zone numbers of the file with the inode `inode`.
pub open spec fn plan_of(blocks: Seq<Seq<u8>>, inode: InodeView) -> PlanView {
    PlanView {
        direct: inode.direct,
        single: inode.single,
        sw: words_of(blocks, inode.single),
        double: inode.double,
        dw: words_of(blocks, inode.double),
        l2: Seq::new(512, |i: int| words_of(blocks, words_of(blocks, inode.double)[i])),
    }
}

/// Whether `z` is a data zone that is marked as in use.
pub open spec fn marked(blocks: Seq<Seq<u8>>, sb: Superblock, z: int) -> bool {
    &&& sb.first_data_zone <= z < sb.zones
    &&& bit_at(blocks, sb.zmap(), z - sb.first_data_zone)
}

/// Whether no zone number of the file occurs twice and all are in use.
pub open spec fn sound(blocks: Seq<Seq<u8>>, sb: Superblock, p: PlanView) -> bool {
    &&& forall|s: Slot, t: Slot|
        #![trigger slot(p, s), slot(p, t)]
        valid_slot(s) && valid_slot(t) && s != t && slot(p, s) != 0 ==> slot(p, s) != slot(p, t)
    &&& forall|s: Slot|
        valid_slot(s) && #[trigger] slot(p, s) != 0 ==> marked(blocks, sb, slot(p, s) as int)
}

/// Whether the zones in `pre` are in use, differ, and belong to no slot of `p`.
pub open spec fn reserved(blocks: Seq<Seq<u8>>, sb: Superblock, p: PlanView, pre: Seq<u32>) -> bool {
    &&& pre.no_duplicates()
    &&& forall|i: int| 0 <= i < pre.len() ==> marked(blocks, sb, #[trigger] pre[i] as int)
    &&& forall|i: int, s: Slot|
        #![trigger pre[i], slot(p, s)]
        0 <= i < pre.len() && valid_slot(s) ==> pre[i] != slot(p, s)
}

/// Whether `after` differs from `before` only in bits of the zone bitmap that have
/// been set.
pub open spec fn zmap_grew(before: Seq<Seq<u8>>, after: Seq<Seq<u8>>, sb: Superblock) -> bool {
    &&& before.len() == after.len()
    &&& forall|b: int|
        0 <= b < before.len() && !(sb.zmap() <= b < sb.itable()) ==> #[trigger] after[b]
            == before[b]
    &&& forall|z: int| #[trigger] marked(before, sb, z) ==> marked(after, sb, z)
}

pub proof fn lemma_zmap_grew_trans(
    a: Seq<Seq<u8>>,
    b: Seq<Seq<u8>>,
    c: Seq<Seq<u8>>,
    sb: Superblock,
)
    requires
        zmap_grew(a, b, sb),
        zmap_grew(b, c, sb),
    ensures
        zmap_grew(a, c, sb),
{
    assert forall|i: int| 0 <= i < a.len() && !(sb.zmap() <= i < sb.itable()) implies #[trigger] c[i]
        == a[i] by {
        assert(b[i] == a[i]);
    }
}

/// How many zones can still be had: the free ones and those set aside.
pub open spec fn avail(blocks: Seq<Seq<u8>>, sb: Superblock, pre: Seq<u32>) -> int {
    clear_count(blocks, sb.zmap(), sb.data_zones()) as int + pre.len()
}

/// Blocks in which the same zones are in use have the same number of free zones.
pub proof fn lemma_avail_same(a: Seq<Seq<u8>>, b: Seq<Seq<u8>>, sb: Superblock)
    requires
        sb.wf(),
        forall|z: int| #[trigger] marked(a, sb, z) == marked(b, sb, z),
    ensures
        clear_count(a, sb.zmap(), sb.data_zones()) == clear_count(b, sb.zmap(), sb.data_zones()),
{
    assert forall|s: int| 0 <= s < sb.data_zones() implies bit_at(a, sb.zmap(), s) == bit_at(
        b,
        sb.zmap(),
        s,
    ) by {
        assert(marked(a, sb, s + sb.first_data_zone) == marked(b, sb, s + sb.first_data_zone));
    }
    lemma_clear_count_same(a, b, sb.zmap(), sb.data_zones());
}

/// Setting or clearing the bit of one data zone.
pub proof fn lemma_mark(blocks: Seq<Seq<u8>>, sb: Superblock, z: int, v: bool)
    requires
        sb.wf(),
        sb.zones <= blocks.len(),
        forall|b: int| 0 <= b < blocks.len() ==> (#[trigger] blocks[b]).len() == 2048,
        sb.first_data_zone <= z < sb.zones,
    ensures
        ({
            let after = with_bit_at(blocks, sb.zmap(), z - sb.first_data_zone, v);
            &&& after.len() == blocks.len()
            &&& forall|b: int|
                0 <= b < blocks.len() && !(sb.zmap() <= b < sb.itable()) ==> #[trigger] after[b]
                    == blocks[b]
            &&& forall|y: int|
                #[trigger] marked(after, sb, y) == if y == z {
                    v
                } else {
                    marked(blocks, sb, y)
                }
        }),
{
    let r = z - sb.first_data_zone;
    let after = with_bit_at(blocks, sb.zmap(), r, v);
    assert(r / 16384 < sb.zmap_blocks);
    assert forall|y: int|
        #[trigger] marked(after, sb, y) == if y == z {
            v
        } else {
            marked(blocks, sb, y)
        } by {
        if sb.first_data_zone <= y < sb.zones {
            assert((y - sb.first_data_zone) / 16384 < sb.zmap_blocks);
            lemma_with_bit_at(blocks, sb.zmap(), r, y - sb.first_data_zone, v);
        }
    }
}

/// Putting a new zone into an empty slot keeps the zone numbers of a file sound.
pub proof fn lemma_sound_claim(
    before: Seq<Seq<u8>>,
    after: Seq<Seq<u8>>,
    sb: Superblock,
    p: PlanView,
    s: Slot,
    z: u32,
    pre: Seq<u32>,
)
    requires
        shape(p),
        valid_slot(s),
        slot(p, s) == 0,
        sound(before, sb, p),
        zmap_grew(before, after, sb),
        marked(after, sb, z as int),
        forall|t: Slot| valid_slot(t) ==> #[trigger] slot(p, t) != z,
        reserved(before, sb, p, pre),
        !pre.contains(z),
        z != 0,
    ensures
        shape(claim(p, s, z)),
        sound(after, sb, claim(p, s, z)),
        reserved(after, sb, claim(p, s, z), pre),
{
    let q = claim(p, s, z);
    lemma_claim(p, s, z, s);
    assert forall|a: Slot, b: Slot|
        #![trigger slot(q, a), slot(q, b)]
        valid_slot(a) && valid_slot(b) && a != b && slot(q, a) != 0 implies slot(q, a) != slot(
        q,
        b,
    ) by {
        lemma_claim(p, s, z, a);
        lemma_claim(p, s, z, b);
        assert(slot(p, a) != z && slot(p, b) != z);
    }
    assert forall|a: Slot| valid_slot(a) && #[trigger] slot(q, a) != 0 implies marked(
        after,
        sb,
        slot(q, a) as int,
    ) by {
        lemma_claim(p, s, z, a);
        if a != s {
            assert(marked(before, sb, slot(p, a) as int));
        }
    }
    assert forall|i: int, a: Slot|
        #![trigger pre[i], slot(q, a)]
        0 <= i < pre.len() && valid_slot(a) implies pre[i] != slot(q, a) by {
        lemma_claim(p, s, z, a);
        assert(pre.contains(pre[i]));
        assert(slot(p, a) != pre[i] || a == s);
    }
    assert forall|i: int| 0 <= i < pre.len() implies marked(after, sb, #[trigger] pre[i] as int) by {
        assert(marked(before, sb, pre[i] as int));
    }
}

/// Decodes an indirect block.
pub fn decode_words(block: &Vec<u8>) -> (r: Vec<u32>)
    requires
        block@.len() == 2048,
    ensures
        r@ == words(block@),
        r@.len() == 512,
{
    let mut out: Vec<u32> = Vec::new();
    let mut i: usize = 0;
    while i < 512
        invariant
            i <= 512,
            block@.len() == 2048,
            out@.len() == i,
            forall|j: int| 0 <= j < i ==> out@[j] == words(block@)[j],
        decreases 512 - i,
    {
        let w: u32 = read_u32(block, 4 * i);
        out.push(w);
        i = i + 1;
    }
    proof {
        assert(out@ =~= words(block@));
    }
    out
}

/// Encodes an indirect block.
pub fn encode_words(v: &Vec<u32>) -> (r: Vec<u8>)
    requires
        v@.len() == 512,
    ensures
        r@ == le_list(v@),
        r@.len() == 2048,
        words(r@) == v@,
{
    let mut out: Vec<u8> = Vec::new();
    let mut i: usize = 0;
    proof {
        assert(v@.take(0) =~= Seq::<u32>::empty());
        assert(out@ =~= le_list(v@.take(0)));
    }
    while i < 512
        invariant
            i <= 512,
            v@.len() == 512,
            out@ == le_list(v@.take(i as int)),
        decreases 512 - i,
    {
        proof {
            lemma_le_list(v@.take(i as int));
            assert(v@.take(i + 1).drop_last() =~= v@.take(i as int));
        }
        push_le(&mut out, v[i] as u64, 4);
        i = i + 1;
    }
    proof {
        assert(v@.take(512) =~= v@);
        lemma_le_list(v@);
        lemma_words_of_list(v@);
    }
    out
}

pub proof fn lemma_words_of_list(v: Seq<u32>)
    requires
        v.len() == 512,
    ensures
        words(le_list(v)) == v,
{
    lemma_le_list(v);
    let s = le_list(v);
    reveal_with_fuel(pow256, 5);
    assert forall|i: int| 0 <= i < 512 implies words(s)[i] == v[i] by {
        assert(s.subrange(4 * i, 4 * i + 4) == le_digits(v[i] as nat, 4));
        assert(0 + 4 * i == 4 * i);
        lemma_le_round_trip(v[i] as nat, 4);
    }
    assert(words(s) =~= v);
}

impl<D: BlockDeviceIO> TwilightFs<D> {
    /// Takes `count` free zones, the first ones, in ascending order; where there
    /// are fewer, takes none.
    pub fn allocate_zones(&mut self, count: usize) -> (res: Result<Vec<u32>, TfsError>)
        requires
            old(self).wf(),
        ensures
            final(self).wf(),
            final(self).same_but_blocks(old(self)),
            ({
                let sb = old(self).superblock;
                let b0 = old(self).blocks();
                let b1 = final(self).blocks();
                match res {
                    Ok(v) => {
                        &&& v@.len() == count
                        &&& clear_count(b0, sb.zmap(), sb.data_zones()) == count + clear_count(
                            b1,
                            sb.zmap(),
                            sb.data_zones(),
                        )
                        &&& zmap_grew(b0, b1, sb)
                        &&& forall|i: int, j: int| 0 <= i < j < v@.len() ==> v@[i] < v@[j]
                        &&& forall|i: int|
                            0 <= i < v@.len() ==> sb.first_data_zone <= #[trigger] v@[i] < sb.zones
                                && !marked(b0, sb, v@[i] as int)
                        &&& forall|z: int| #[trigger]
                            marked(b1, sb, z) ==> marked(b0, sb, z) || (exists|i: int|
                                0 <= i < v@.len() && v@[i] == z)
                        &&& forall|i: int|
                            0 <= i < v@.len() ==> marked(b1, sb, #[trigger] v@[i] as int)
                        &&& forall|z: int, i: int|
                            #![trigger marked(b1, sb, z), v@[i]]
                            sb.first_data_zone <= z < v@[i] && 0 <= i < v@.len() ==> marked(
                                b1,
                                sb,
                                z,
                            )
                    },
                    Err(e) => {
                        ||| !old(self).serves()
                        ||| (e == TfsError::NoSpaceLeft && clear_count(
                            b0,
                            sb.zmap(),
                            sb.data_zones(),
                        ) < count && zmap_grew(b0, b1, sb) && zmap_grew(b1, b0, sb))
                    },
                }
            }),
    {
        let ghost sb = self.superblock;
        let ghost b0 = self.blocks();
        let ghost n = sb.data_zones();
        let mut zones: Vec<u32> = Vec::new();
        proof {
            self.lemma_block_len();
        }
        while zones.len() < count
            invariant
                self.wf(),
                self.same_but_blocks(old(self)),
                sb == old(self).superblock,
                b0 == old(self).blocks(),
                n == sb.data_zones(),
                zones@.len() <= count,
                zmap_grew(b0, self.blocks(), sb),
                forall|i: int, j: int| 0 <= i < j < zones@.len() ==> zones@[i] < zones@[j],
                forall|i: int|
                    0 <= i < zones@.len() ==> sb.first_data_zone <= #[trigger] zones@[i] < sb.zones
                        && !marked(b0, sb, zones@[i] as int),
                forall|z: int| #[trigger]
                    marked(self.blocks(), sb, z) ==> marked(b0, sb, z) || (exists|i: int|
                        0 <= i < zones@.len() && zones@[i] == z),
                forall|i: int|
                    0 <= i < zones@.len() ==> marked(self.blocks(), sb, #[trigger] zones@[i] as int),
                forall|z: int, i: int|
                    #![trigger marked(self.blocks(), sb, z), zones@[i]]
                    sb.first_data_zone <= z < zones@[i] && 0 <= i < zones@.len() ==> marked(
                        self.blocks(),
                        sb,
                        z,
                    ),
                clear_count(b0, sb.zmap(), n) == zones@.len() + clear_count(
                    self.blocks(),
                    sb.zmap(),
                    n,
                ),
            decreases count - zones@.len(),
        {
            let ghost before = self.blocks();
            proof {
                self.lemma_block_len();
            }
            match self.allocate_zone() {
                Ok(z) => {
                    proof {
                        let r = z - sb.first_data_zone;
                        lemma_mark(before, sb, z as int, true);
                        lemma_clear_count_set(before, sb.zmap(), n, r, true);
                        assert(!marked(before, sb, z as int));
                        assert(!marked(b0, sb, z as int));
                        assert forall|i: int| 0 <= i < zones@.len() implies #[trigger] zones@[i] < z by {
                            assert(marked(before, sb, zones@[i] as int));
                            if zones@[i] > z {
                                assert(!marked(before, sb, z as int));
                            }
                        }
                        assert forall|y: int| sb.first_data_zone <= y < z implies #[trigger] marked(
                            self.blocks(),
                            sb,
                            y,
                        ) by {
                            assert(bit_at(before, sb.zmap(), y - sb.first_data_zone));
                            assert(marked(before, sb, y));
                        }
                        assert(zmap_grew(b0, self.blocks(), sb)) by {
                            lemma_zmap_grew_trans(b0, before, self.blocks(), sb);
                        }
                    }
                    let ghost old_zones = zones@;
                    zones.push(z);
                    proof {
                        assert forall|y: int| #[trigger] marked(self.blocks(), sb, y) implies marked(
                            b0,
                            sb,
                            y,
                        ) || (exists|i: int| 0 <= i < zones@.len() && zones@[i] == y) by {
                            if y == z {
                                assert(zones@[zones@.len() - 1] == y);
                            } else {
                                assert(marked(before, sb, y));
                                if !marked(b0, sb, y) {
                                    let i = choose|i: int|
                                        0 <= i < old_zones.len() && old_zones[i] == y;
                                    assert(zones@[i] == y);
                                }
                            }
                        }
                    }
                },
                Err(e) => {
                    proof {
                        lemma_clear_count_zero(before, sb.zmap(), n);
                    }
                    if let TfsError::NoSpaceLeft = e {
                        self.release(&zones, Ghost(b0));
                        return Err(TfsError::NoSpaceLeft);
                    }
                    return Err(e);
                },
            }
        }
        Ok(zones)
    }

    /// Gives the zones in `zones` back.
    fn release(&mut self, zones: &Vec<u32>, Ghost(b0): Ghost<Seq<Seq<u8>>>)
        requires
            old(self).wf(),
            zmap_grew(b0, old(self).blocks(), old(self).superblock),
            forall|i: int|
                0 <= i < zones@.len() ==> old(self).superblock.first_data_zone
                    <= #[trigger] zones@[i] < old(self).superblock.zones && !marked(
                    b0,
                    old(self).superblock,
                    zones@[i] as int,
                ),
            forall|z: int| #[trigger]
                marked(old(self).blocks(), old(self).superblock, z) ==> marked(
                    b0,
                    old(self).superblock,
                    z,
                ) || (exists|i: int| 0 <= i < zones@.len() && zones@[i] == z),
        ensures
            final(self).wf(),
            final(self).same_but_blocks(old(self)),
            old(self).serves() ==> zmap_grew(b0, final(self).blocks(), old(self).superblock)
                && zmap_grew(final(self).blocks(), b0, old(self).superblock),
    {
        let ghost sb = self.superblock;
        let mut i: usize = 0;
        while i < zones.len()
            invariant
                self.wf(),
                self.same_but_blocks(old(self)),
                sb == old(self).superblock,
                i <= zones@.len(),
                forall|k: int|
                    0 <= k < zones@.len() ==> sb.first_data_zone <= #[trigger] zones@[k] < sb.zones
                        && !marked(b0, sb, zones@[k] as int),
                self.serves() ==> {
                    &&& zmap_grew(b0, self.blocks(), sb)
                    &&& forall|z: int| #[trigger]
                        marked(self.blocks(), sb, z) ==> marked(b0, sb, z) || (exists|k: int|
                            i <= k < zones@.len() && zones@[k] == z)
                },
            decreases zones@.len() - i,
        {
            let ghost before = self.blocks();
            proof {
                self.lemma_block_len();
                lemma_mark(before, sb, zones@[i as int] as int, false);
            }
            let _ = self.dealloc_zone(zones[i]);
            proof {
                if self.serves() {
                    let z = zones@[i as int] as int;
                    let now = self.blocks();
                    assert(0 <= z - sb.first_data_zone < sb.zmap_blocks * 16384);
                    assert forall|y: int| #[trigger] marked(now, sb, y) implies marked(b0, sb, y) || (
                    exists|k: int| i + 1 <= k < zones@.len() && zones@[k] == y) by {
                        assert(marked(before, sb, y));
                        if !marked(b0, sb, y) {
                            let k = choose|k: int| i <= k < zones@.len() && zones@[k] == y;
                            assert(zones@[k] == y && k != i);
                        }
                    }
                    assert forall|y: int| #[trigger] marked(b0, sb, y) implies marked(now, sb, y) by {
                        assert(marked(before, sb, y));
                    }
                    assert forall|b: int|
                        0 <= b < b0.len() && !(sb.zmap() <= b < sb.itable()) implies #[trigger] now[b]
                        == b0[b] by {
                        assert(before[b] == b0[b]);
                    }
                }
            }
            i = i + 1;
        }
        proof {
            if self.serves() {
                let now = self.blocks();
                assert forall|y: int| #[trigger] marked(now, sb, y) implies marked(b0, sb, y) by {}
                assert forall|b: int|
                    0 <= b < b0.len() && !(sb.zmap() <= b < sb.itable()) implies #[trigger] b0[b]
                    == now[b] by {
                    assert(now[b] == b0[b]);
                }
            }
        }
    }

    /// A new zone: one of those set aside, else the first free one.
    pub(crate) fn new_zone(&mut self, pre: &mut Vec<u32>) -> (res: Result<u32, FsError>)
        requires
            old(self).wf(),
        ensures
            final(self).wf(),
            final(self).same_but_blocks(old(self)),
            match res {
                Ok(z) => if old(pre)@.len() > 0 {
                    &&& z == old(pre)@.last()
                    &&& final(pre)@ == old(pre)@.drop_last()
                    &&& final(self).blocks() == old(self).blocks()
                } else {
                    &&& final(pre)@ == old(pre)@
                    &&& avail(final(self).blocks(), old(self).superblock, final(pre)@) == avail(
                        old(self).blocks(),
                        old(self).superblock,
                        old(pre)@,
                    ) - 1
                    &&& !marked(old(self).blocks(), old(self).superblock, z as int)
                    &&& marked(final(self).blocks(), old(self).superblock, z as int)
                    &&& zmap_grew(old(self).blocks(), final(self).blocks(), old(self).superblock)
                    &&& forall|y: int|
                        y != z ==> #[trigger] marked(
                            final(self).blocks(),
                            old(self).superblock,
                            y,
                        ) == marked(old(self).blocks(), old(self).superblock, y)
                    &&& forall|y: int|
                        old(self).superblock.first_data_zone <= y < z ==> #[trigger] marked(
                            old(self).blocks(),
                            old(self).superblock,
                            y,
                        )
                },
                Err(e) => {
                    &&& e == FsError::InvalidInode
                    &&& old(pre)@.len() == 0
                    &&& final(pre)@ == old(pre)@
                    &&& old(self).serves() ==> avail(
                        old(self).blocks(),
                        old(self).superblock,
                        old(pre)@,
                    ) == 0 && all_set(
                        old(self).blocks(),
                        old(self).superblock.zmap(),
                        old(self).superblock.data_zones(),
                    ) && final(self).blocks() == old(self).blocks()
                },
            },
    {
        let ghost sb = self.superblock;
        let ghost before = self.blocks();
        proof {
            self.lemma_block_len();
        }
        match pre.pop() {
            Some(z) => Ok(z),
            None => {
                match self.allocate_zone() {
                    Ok(z) => {
                        proof {
                            lemma_mark(before, sb, z as int, true);
                            lemma_clear_count_set(
                                before,
                                sb.zmap(),
                                sb.data_zones(),
                                z - sb.first_data_zone,
                                true,
                            );
                        }
                        Ok(z)
                    },
                    Err(_) => {
                        proof {
                            lemma_clear_count_zero(before, sb.zmap(), sb.data_zones());
                        }
                        Err(FsError::InvalidInode)
                    },
                }
            },
        }
    }
}

} // verus!
