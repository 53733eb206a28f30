//! Which frames of physical memory are in use.

use bit_field::BitField;
use vstd::prelude::*;

verus! {

/// How many regions the allocator can manage.
pub const MAX_REGIONS: usize = 32;

pub const FRAME: u64 = 4096;

/// Where physical addresses end.
pub const PHYS_END: u64 = 0x10_0000_0000_0000;

/// A part of the memory map that the boot loader hands over.
#[derive(Debug, Clone, Copy, PartialEq, Eq, Structural)]
pub struct MemoryRegion {
    pub base: u64,
    pub length: u64,
    pub usable: bool,
}

/// Frames that follow each other.
#[derive(Debug, Clone, Copy, PartialEq, Eq, Structural)]
pub struct UsableRegion {
    pub first_frame: u64,
    pub frame_count: u64,
}

impl UsableRegion {
    pub open spec fn wf(self) -> bool {
        &&& self.first_frame % 4096 == 0
        &&& self.frame_count > 0
        &&& self.first_frame + self.frame_count * 4096 <= PHYS_END
    }

    pub open spec fn holds(self, frame: u64) -> bool {
        self.first_frame <= frame < self.first_frame + self.frame_count * 4096
    }

    /// The frames that memory from `start_addr` to `end_addr` touches.
    pub fn new(start_addr: u64, end_addr: u64) -> (r: Self)
        requires
            start_addr < end_addr <= PHYS_END,
        ensures
            r.wf(),
            r.first_frame == start_addr - start_addr % 4096,
            r.frame_count == (end_addr - 1) / 4096 - start_addr as int / 4096 + 1,
    {
        let first: u64 = start_addr - start_addr % FRAME;
        let last: u64 = (end_addr - 1) - (end_addr - 1) % FRAME;
        let frame_count: u64 = (last - first) / FRAME + 1;
        UsableRegion { first_frame: first, frame_count }
    }

    pub fn last_frame(&self) -> (r: u64)
        requires
            self.wf(),
        ensures
            r == self.first_frame + (self.frame_count - 1) * 4096,
    {
        self.first_frame + (self.frame_count - 1) * FRAME
    }

    pub fn contains(&self, frame: u64) -> (r: bool)
        requires
            self.wf(),
            frame % 4096 == 0,
        ensures
            r == self.holds(frame),
    {
        self.first_frame <= frame && frame <= self.last_frame()
    }

    pub fn offset(&self, frame: u64) -> (r: u64)
        requires
            self.holds(frame),
        ensures
            r == (frame - self.first_frame) / 4096,
    {
        (frame - self.first_frame) / FRAME
    }
}

/// The frames of all regions together.
pub open spec fn total(rs: Seq<UsableRegion>) -> int
    decreases rs.len(),
{
    if rs.len() == 0 {
        0
    } else {
        total(rs.drop_last()) + rs.last().frame_count
    }
}

/// The address of frame number `i`.
pub open spec fn frame_of(rs: Seq<UsableRegion>, i: int) -> Option<u64>
    decreases rs.len(),
{
    if rs.len() == 0 || i < 0 {
        None
    } else {
        let base = total(rs.drop_last());
        if i < base {
            frame_of(rs.drop_last(), i)
        } else if i < base + rs.last().frame_count {
            Some((rs.last().first_frame + (i - base) * 4096) as u64)
        } else {
            None
        }
    }
}

/// The number of the frame at `frame`.
pub open spec fn index_of(rs: Seq<UsableRegion>, frame: u64) -> Option<int>
    decreases rs.len(),
{
    if rs.len() == 0 {
        None
    } else {
        match index_of(rs.drop_last(), frame) {
            Some(i) => Some(i),
            None => if rs.last().holds(frame) {
                Some(total(rs.drop_last()) + (frame - rs.last().first_frame) / 4096)
            } else {
                None
            },
        }
    }
}

pub open spec fn regions_wf(rs: Seq<UsableRegion>) -> bool {
    forall|i: int| 0 <= i < rs.len() ==> (#[trigger] rs[i]).wf()
}

/// Whether no frame is in two regions.
pub open spec fn disjoint(rs: Seq<UsableRegion>) -> bool {
    forall|i: int, j: int, f: u64|
        0 <= i < j < rs.len() && #[trigger] rs[i].holds(f) ==> !#[trigger] rs[j].holds(f)
}

proof fn lemma_total(rs: Seq<UsableRegion>, k: int)
    requires
        0 <= k <= rs.len(),
    ensures
        0 <= total(rs.take(k)) <= total(rs),
        k < rs.len() ==> total(rs.take(k + 1)) == total(rs.take(k)) + rs[k].frame_count,
    decreases rs.len(),
{
    if k < rs.len() {
        assert(rs.take(k + 1).drop_last() =~= rs.take(k));
        lemma_total(rs.drop_last(), k);
        assert(rs.drop_last().take(k) =~= rs.take(k));
    } else {
        assert(rs.take(k) =~= rs);
        if rs.len() > 0 {
            lemma_total(rs.drop_last(), rs.len() - 1);
            assert(rs.drop_last().take(rs.len() - 1) =~= rs.drop_last());
        }
    }
}

proof fn lemma_frame_of(rs: Seq<UsableRegion>, k: int, i: int)
    requires
        0 <= k < rs.len(),
        total(rs.take(k)) <= i < total(rs.take(k)) + rs[k].frame_count,
    ensures
        frame_of(rs, i) == Some((rs[k].first_frame + (i - total(rs.take(k))) * 4096) as u64),
    decreases rs.len(),
{
    lemma_total(rs, k);
    let front = rs.drop_last();
    if k == rs.len() - 1 {
        assert(rs.take(k) =~= front);
        lemma_total(front, 0);
    } else {
        lemma_total(front, k);
        lemma_total(front, k + 1);
        assert(front.take(k) =~= rs.take(k));
        lemma_frame_of(front, k, i);
    }
}

proof fn lemma_frame_none(rs: Seq<UsableRegion>, i: int)
    requires
        i >= total(rs),
    ensures
        frame_of(rs, i) is None,
    decreases rs.len(),
{
    if rs.len() > 0 {
        lemma_total(rs, rs.len() - 1);
        assert(rs.take(rs.len() - 1) =~= rs.drop_last());
    }
}

proof fn lemma_index_grows(rs: Seq<UsableRegion>, k: int, frame: u64)
    requires
        0 <= k <= rs.len(),
        index_of(rs.take(k), frame) is Some,
    ensures
        index_of(rs, frame) == index_of(rs.take(k), frame),
    decreases rs.len(),
{
    if k < rs.len() {
        assert(rs.drop_last().take(k) =~= rs.take(k));
        lemma_index_grows(rs.drop_last(), k, frame);
    } else {
        assert(rs.take(k) =~= rs);
    }
}

proof fn lemma_index_bound(rs: Seq<UsableRegion>, frame: u64)
    requires
        regions_wf(rs),
    ensures
        index_of(rs, frame) matches Some(i) ==> 0 <= i < total(rs),
    decreases rs.len(),
{
    if rs.len() > 0 {
        let front = rs.drop_last();
        assert forall|i: int| 0 <= i < front.len() implies (#[trigger] front[i]).wf() by {
            assert(front[i] == rs[i]);
        }
        lemma_index_bound(front, frame);
        lemma_total(rs, rs.len() - 1);
        assert(rs.take(rs.len() - 1) =~= front);
        assert(rs.last() == rs[rs.len() - 1]);
    }
}

/// Every frame has a number, and the number leads back to it.
pub proof fn lemma_numbering(rs: Seq<UsableRegion>, i: int)
    requires
        regions_wf(rs),
        disjoint(rs),
        0 <= i < total(rs),
    ensures
        frame_of(rs, i) matches Some(f) && f % 4096 == 0 && index_of(rs, f) == Some(i),
    decreases rs.len(),
{
    if rs.len() > 0 {
        let front = rs.drop_last();
        let last = rs[rs.len() - 1];
        assert(last.wf());
        assert forall|k: int| 0 <= k < front.len() implies (#[trigger] front[k]).wf() by {
            assert(front[k] == rs[k]);
        }
        assert forall|a: int, b: int, f: u64|
            0 <= a < b < front.len() && #[trigger] front[a].holds(f) implies !#[trigger] front[b].holds(
            f,
        ) by {
            assert(rs[a].holds(f));
            assert(rs[b] == front[b]);
        }
        let base = total(front);
        if i < base {
            lemma_numbering(front, i);
        } else {
            let f = (last.first_frame + (i - base) * 4096) as u64;
            assert(last.holds(f));
            lemma_unheld(front, f, last, rs);
        }
    }
}

proof fn lemma_unheld(front: Seq<UsableRegion>, f: u64, last: UsableRegion, rs: Seq<UsableRegion>)
    requires
        rs.len() > 0,
        front.len() < rs.len(),
        forall|k: int| 0 <= k < front.len() ==> front[k] == rs[k],
        last == rs[rs.len() - 1],
        disjoint(rs),
        last.holds(f),
    ensures
        index_of(front, f) is None,
    decreases front.len(),
{
    if front.len() > 0 {
        lemma_unheld(front.drop_last(), f, last, rs);
        let k = front.len() - 1;
        assert(front[k] == rs[k]);
        if rs[k].holds(f) {
            assert(!rs[rs.len() - 1].holds(f));
        }
    }
}

/// Whether bit `k` of a word is set.
pub open spec fn bit_set(word: u64, k: int) -> bool {
    word & (1u64 << (k as u64)) != 0
}

/// Whether bit `k` of a word is set, by `bit_field::BitField::get_bit`, which looks at
/// the bit with that number, counted from the lowest. It panics where there is none.
#[verifier::external_body]
fn word_bit(word: u64, k: usize) -> (r: bool)
    requires
        k < 64,
    ensures
        r == bit_set(word, k as int),
{
    word.get_bit(k)
}

/// A word with bit `k` set or cleared, by `bit_field::BitField::set_bit`, which leaves
/// the other bits alone. It panics where there is no such bit.
#[verifier::external_body]
fn word_with_bit(word: u64, k: usize, value: bool) -> (r: u64)
    requires
        k < 64,
    ensures
        r == if value {
            word | (1u64 << (k as u64))
        } else {
            word & !(1u64 << (k as u64))
        },
{
    let mut w = word;
    w.set_bit(k, value);
    w
}

proof fn lemma_bits(word: u64, a: u64, b: u64)
    requires
        a < 64,
        b < 64,
    ensures
        bit_set(word | (1u64 << a), b as int) == (a == b || bit_set(word, b as int)),
        bit_set(word & !(1u64 << a), b as int) == (a != b && bit_set(word, b as int)),
{
    assert((((word | (1u64 << a)) & (1u64 << b) != 0) == (a == b || word & (1u64 << b) != 0)) && (((word
        & !(1u64 << a)) & (1u64 << b) != 0) == (a != b && word & (1u64 << b) != 0)))
        by (bit_vector)
        requires
            a < 64,
            b < 64,
    ;
}

/// The frames of physical memory.
pub struct BitmapFrameAllocator {
    pub bitmap: Vec<u64>,
    pub next_free_index: usize,
    pub usable_regions: Vec<UsableRegion>,
    pub frames_count: usize,
    /// Where in physical memory the bitmap is kept.
    pub bitmap_addr: u64,
}

/// The frames, as contracts see them: which numbers are taken, where the search for a
/// free one starts, and where the frames lie.
#[verifier::ext_equal]
pub struct FrameView {
    pub taken: Seq<bool>,
    pub next: int,
    pub regions: Seq<UsableRegion>,
}

impl View for BitmapFrameAllocator {
    type V = FrameView;

    open spec fn view(&self) -> FrameView {
        FrameView {
            taken: Seq::new(
                self.frames_count as nat,
                |i: int| bit_set(self.bitmap@[i / 64], i % 64),
            ),
            next: self.next_free_index as int,
            regions: self.usable_regions@,
        }
    }
}

/// The first free frame from `start` on, going round, after `step` frames were looked at.
pub open spec fn free_from(taken: Seq<bool>, start: int, step: int) -> Option<int>
    decreases taken.len() - step,
{
    if step >= taken.len() {
        None
    } else {
        let i = (start + step) % (taken.len() as int);
        if !taken[i] {
            Some(i)
        } else {
            free_from(taken, start, step + 1)
        }
    }
}

/// Whether the `n` frames from `s` on are all free.
pub open spec fn run_free(taken: Seq<bool>, s: int, n: int) -> bool {
    forall|j: int| s <= j < s + n ==> !#[trigger] taken[j]
}

/// The first of the places from `lo` to `hi` where `n` free frames start, or `hi`.
pub open spec fn first_run(taken: Seq<bool>, lo: int, hi: int, n: int) -> int
    decreases hi - lo,
{
    if lo >= hi {
        hi
    } else if run_free(taken, lo, n) {
        lo
    } else {
        first_run(taken, lo + 1, hi, n)
    }
}

/// Frames after the `n` from `s` on were taken.
pub open spec fn run_taken(taken: Seq<bool>, s: int, n: int) -> Seq<bool> {
    Seq::new(taken.len(), |i: int| taken[i] || s <= i < s + n)
}

/// How many frames of a region end at or below address `max`.
pub open spec fn room(r: UsableRegion, max: u64) -> int {
    if r.first_frame > max {
        0
    } else {
        let n = (max + 1 - r.first_frame) / 4096;
        if n < r.frame_count {
            n
        } else {
            r.frame_count as int
        }
    }
}

/// Where the search starts in a region with the numbers from `base` on, of which `len`
/// may be used: where the last search ended, if that lies in it.
pub open spec fn search_start(next: int, base: int, len: int, n: int) -> int {
    if base <= next < base + len {
        if next - base < len - n {
            next - base
        } else {
            len - n
        }
    } else {
        0
    }
}

/// The first of `n` free frames in a region, searched from where the last search ended,
/// and then from the start.
pub open spec fn region_run(taken: Seq<bool>, next: int, base: int, len: int, n: int) -> Option<int> {
    let from = search_start(next, base, len, n);
    let a = first_run(taken, base + from, base + len - n + 1, n);
    let b = first_run(taken, base, base + from, n);
    if a < base + len - n + 1 {
        Some(a)
    } else if b < base + from {
        Some(b)
    } else {
        None
    }
}

/// The first of `n` free frames that follow each other and end at or below `max`, in the
/// first region that has them.
pub open spec fn find_run(v: FrameView, k: int, n: int, max: u64) -> Option<int>
    decreases v.regions.len() - k,
{
    if k < 0 || k >= v.regions.len() {
        None
    } else {
        let base = total(v.regions.take(k));
        let len = room(v.regions[k], max);
        if len < n {
            find_run(v, k + 1, n, max)
        } else {
            match region_run(v.taken, v.next, base, len, n) {
                Some(s) => Some(s),
                None => find_run(v, k + 1, n, max),
            }
        }
    }
}

/// How many frames are taken.
pub open spec fn taken_count(taken: Seq<bool>) -> int
    decreases taken.len(),
{
    if taken.len() == 0 {
        0
    } else {
        taken_count(taken.drop_last()) + if taken.last() {
            1int
        } else {
            0
        }
    }
}

proof fn lemma_taken_count(taken: Seq<bool>)
    ensures
        0 <= taken_count(taken) <= taken.len(),
    decreases taken.len(),
{
    if taken.len() > 0 {
        lemma_taken_count(taken.drop_last());
    }
}

proof fn lemma_turn(start: int, step: int, n: int, i: int)
    requires
        0 <= start <= n,
        0 <= step < n,
        i == if step < n - start {
            start + step
        } else {
            step - (n - start)
        },
    ensures
        (start + step) % n == i,
        0 <= i < n,
{
    if step < n - start {
        vstd::arithmetic::div_mod::lemma_small_mod((start + step) as nat, n as nat);
    } else {
        vstd::arithmetic::div_mod::lemma_mod_multiples_vanish(1, i, n);
        vstd::arithmetic::div_mod::lemma_small_mod(i as nat, n as nat);
    }
}

impl BitmapFrameAllocator {
    pub open spec fn wf(&self) -> bool {
        &&& self.frames_count <= self.bitmap@.len() * 64
        &&& self.next_free_index <= self.frames_count
        &&& regions_wf(self.usable_regions@)
        &&& total(self.usable_regions@) == self.frames_count
    }

    /// The address of frame number `index`.
    pub fn index_to_frame(&self, index: usize) -> (r: Option<u64>)
        requires
            self.wf(),
        ensures
            r == frame_of(self@.regions, index as int),
    {
        let ghost rs = self.usable_regions@;
        if index >= self.frames_count {
            proof {
                lemma_frame_none(rs, index as int);
            }
            return None;
        }
        let mut base: u64 = 0;
        let mut k: usize = 0;
        proof {
            assert(rs.take(0).len() == 0);
        }
        while k < self.usable_regions.len()
            invariant
                self.wf(),
                rs == self.usable_regions@,
                k <= rs.len(),
                base == total(rs.take(k as int)),
                base <= index < self.frames_count,
            decreases rs.len() - k,
        {
            let region: UsableRegion = self.usable_regions[k];
            proof {
                lemma_total(rs, k as int);
                lemma_total(rs, k + 1);
                assert(rs[k as int].wf());
            }
            if (index as u64) < base + region.frame_count {
                proof {
                    lemma_frame_of(rs, k as int, index as int);
                }
                return Some(region.first_frame + (index as u64 - base) * FRAME);
            }
            base = base + region.frame_count;
            k = k + 1;
        }
        proof {
            assert(rs.take(k as int) =~= rs);
        }
        None
    }

    /// The number of the frame at `frame`.
    pub fn frame_to_index(&self, frame: u64) -> (r: Option<usize>)
        requires
            self.wf(),
            frame % 4096 == 0,
        ensures
            match r {
                Some(i) => index_of(self@.regions, frame) == Some(i as int) && i < self.frames_count,
                None => index_of(self@.regions, frame) is None,
            },
    {
        let ghost rs = self.usable_regions@;
        let mut base: u64 = 0;
        let mut k: usize = 0;
        proof {
            assert(rs.take(0).len() == 0);
        }
        while k < self.usable_regions.len()
            invariant
                self.wf(),
                frame % 4096 == 0,
                rs == self.usable_regions@,
                k <= rs.len(),
                base == total(rs.take(k as int)),
                index_of(rs.take(k as int), frame) is None,
            decreases rs.len() - k,
        {
            let region: UsableRegion = self.usable_regions[k];
            proof {
                lemma_total(rs, k as int);
                lemma_total(rs, k + 1);
                assert(rs[k as int].wf());
                assert(rs.take(k + 1).drop_last() =~= rs.take(k as int));
                assert(rs.take(k + 1).last() == region);
            }
            if region.contains(frame) {
                let i: u64 = base + region.offset(frame);
                proof {
                    lemma_index_grows(rs, k + 1, frame);
                    lemma_index_bound(rs, frame);
                }
                return Some(i as usize);
            }
            base = base + region.frame_count;
            k = k + 1;
        }
        proof {
            assert(rs.take(k as int) =~= rs);
        }
        None
    }

    pub fn is_frame_allocated(&self, index: usize) -> (r: bool)
        requires
            self.wf(),
            index < self.frames_count,
        ensures
            r == self@.taken[index as int],
    {
        word_bit(self.bitmap[index / 64], index % 64)
    }

    fn set_frame_allocated(&mut self, index: usize, allocated: bool)
        requires
            old(self).wf(),
            index < old(self).frames_count,
        ensures
            final(self).wf(),
            final(self)@ == (FrameView {
                taken: old(self)@.taken.update(index as int, allocated),
                ..old(self)@
            }),
            final(self).frames_count == old(self).frames_count,
    {
        let ghost before = self@.taken;
        let ghost words = self.bitmap@;
        let w: u64 = self.bitmap[index / 64];
        self.bitmap.set(index / 64, word_with_bit(w, index % 64, allocated));
        proof {
            let now = self@.taken;
            let want = before.update(index as int, allocated);
            assert forall|i: int| 0 <= i < now.len() implies now[i] == want[i] by {
                lemma_bits(w, (index % 64) as u64, (i % 64) as u64);
                if i / 64 == index / 64 && i % 64 == index % 64 {
                    assert(i == index);
                }
            }
            assert(now =~= want);
        }
    }

    pub fn total_frames(&self) -> (r: usize)
        ensures
            r == self@.taken.len(),
    {
        self.frames_count
    }

    pub fn allocated_frames(&self) -> (r: usize)
        requires
            self.wf(),
        ensures
            r == taken_count(self@.taken),
    {
        let ghost taken = self@.taken;
        let mut n: usize = 0;
        let mut i: usize = 0;
        proof {
            assert(taken.take(0).len() == 0);
        }
        while i < self.frames_count
            invariant
                self.wf(),
                taken == self@.taken,
                i <= self.frames_count,
                n <= i,
                n == taken_count(taken.take(i as int)),
            decreases self.frames_count - i,
        {
            proof {
                assert(taken.take(i + 1).drop_last() =~= taken.take(i as int));
            }
            if self.is_frame_allocated(i) {
                n = n + 1;
            }
            i = i + 1;
        }
        proof {
            assert(taken.take(i as int) =~= taken);
        }
        n
    }

    pub fn free_frames(&self) -> (r: usize)
        requires
            self.wf(),
        ensures
            r == self@.taken.len() - taken_count(self@.taken),
    {
        proof {
            lemma_taken_count(self@.taken);
        }
        self.total_frames() - self.allocated_frames()
    }

    /// Takes the next free frame.
    pub fn allocate_frame(&mut self) -> (r: Option<u64>)
        requires
            old(self).wf(),
        ensures
            final(self).wf(),
            ({
                let v = old(self)@;
                match free_from(v.taken, v.next, 0) {
                    Some(i) => {
                        &&& r == frame_of(v.regions, i)
                        &&& r is Some
                        &&& final(self)@ == (FrameView {
                            taken: v.taken.update(i, true),
                            next: i + 1,
                            ..v
                        })
                    },
                    None => r is None && final(self)@ == v,
                }
            }),
    {
        let ghost v = self@;
        let n: usize = self.frames_count;
        let start: usize = self.next_free_index;
        let mut step: usize = 0;
        while step < n
            invariant
                self.wf(),
                self@ == v,
                v == old(self)@,
                n == self.frames_count,
                start == self.next_free_index,
                step <= n,
                free_from(v.taken, v.next, 0) == free_from(v.taken, v.next, step as int),
            decreases n - step,
        {
            let i: usize = if step < n - start {
                start + step
            } else {
                step - (n - start)
            };
            proof {
                lemma_turn(start as int, step as int, n as int, i as int);
            }
            if !self.is_frame_allocated(i) {
                self.set_frame_allocated(i, true);
                self.next_free_index = i + 1;
                proof {
                    lemma_has_frame(v.regions, i as int);
                    assert(self@.taken =~= v.taken.update(i as int, true));
                }
                return self.index_to_frame(i);
            }
            step = step + 1;
        }
        None
    }

    /// Gives a frame back; one that is not taken, or not managed here, is left alone.
    pub fn deallocate_frame(&mut self, frame: u64)
        requires
            old(self).wf(),
            frame % 4096 == 0,
        ensures
            final(self).wf(),
            final(self)@ == freed(old(self)@, frame),
    {
        match self.frame_to_index(frame) {
            Some(i) => {
                if self.is_frame_allocated(i) {
                    self.set_frame_allocated(i, false);
                    if i < self.next_free_index {
                        self.next_free_index = i;
                    }
                }
            },
            None => {},
        }
    }

    fn is_run_free(&self, s: usize, n: usize) -> (r: bool)
        requires
            self.wf(),
            s + n <= self.frames_count,
        ensures
            r == run_free(self@.taken, s as int, n as int),
    {
        let mut j: usize = 0;
        while j < n
            invariant
                self.wf(),
                s + n <= self.frames_count,
                j <= n,
                forall|k: int| s <= k < s + j ==> !#[trigger] self@.taken[k],
            decreases n - j,
        {
            if self.is_frame_allocated(s + j) {
                proof {
                    assert(self@.taken[s + j]);
                }
                return false;
            }
            j = j + 1;
        }
        true
    }

    fn search(&self, lo: usize, hi: usize, n: usize) -> (r: usize)
        requires
            self.wf(),
            lo <= hi,
            lo < hi ==> hi - 1 + n <= self.frames_count,
        ensures
            r == first_run(self@.taken, lo as int, hi as int, n as int),
            lo <= r <= hi,
    {
        let mut s: usize = lo;
        while s < hi
            invariant
                self.wf(),
                lo <= s <= hi,
                lo < hi ==> hi - 1 + n <= self.frames_count,
                first_run(self@.taken, lo as int, hi as int, n as int) == first_run(
                    self@.taken,
                    s as int,
                    hi as int,
                    n as int,
                ),
            decreases hi - s,
        {
            if self.is_run_free(s, n) {
                return s;
            }
            s = s + 1;
        }
        hi
    }

    fn take_run(&mut self, s: usize, n: usize)
        requires
            old(self).wf(),
            s + n <= old(self).frames_count,
        ensures
            final(self).wf(),
            final(self)@ == (FrameView {
                taken: run_taken(old(self)@.taken, s as int, n as int),
                next: s + n,
                ..old(self)@
            }),
    {
        let ghost v = self@;
        let mut j: usize = 0;
        proof {
            assert(self@.taken =~= run_taken(v.taken, s as int, 0));
        }
        while j < n
            invariant
                self.wf(),
                s + n <= self.frames_count,
                j <= n,
                self@ == (FrameView { taken: run_taken(v.taken, s as int, j as int), ..v }),
            decreases n - j,
        {
            self.set_frame_allocated(s + j, true);
            proof {
                assert(self@.taken =~= run_taken(v.taken, s as int, j + 1));
            }
            j = j + 1;
        }
        self.next_free_index = s + n;
    }

    /// Takes `num_pages` frames that follow each other and end at or below `max`.
    fn allocate_run(&mut self, num_pages: usize, max: u64) -> (r: Option<u64>)
        requires
            old(self).wf(),
            num_pages > 0,
            max < u64::MAX,
        ensures
            final(self).wf(),
            run_allocated(old(self)@, final(self)@, num_pages as int, max, r),
    {
        let ghost v = self@;
        let ghost rs = v.regions;
        let n: u64 = num_pages as u64;
        let mut base: u64 = 0;
        let mut k: usize = 0;
        proof {
            assert(rs.take(0).len() == 0);
        }
        while k < self.usable_regions.len()
            invariant
                self.wf(),
                self@ == v,
                v == old(self)@,
                rs == v.regions,
                n == num_pages,
                n > 0,
                max < u64::MAX,
                k <= rs.len(),
                base == total(rs.take(k as int)),
                find_run(v, 0, n as int, max) == find_run(v, k as int, n as int, max),
            decreases rs.len() - k,
        {
            let region: UsableRegion = self.usable_regions[k];
            proof {
                lemma_total(rs, k as int);
                lemma_total(rs, k + 1);
                assert(rs[k as int].wf());
            }
            let fit: u64 = if region.first_frame > max {
                0
            } else {
                (max + 1 - region.first_frame) / FRAME
            };
            let len: u64 = if fit < region.frame_count {
                fit
            } else {
                region.frame_count
            };
            proof {
                assert(len == room(region, max));
            }
            if len >= n {
                let next: u64 = self.next_free_index as u64;
                let from: u64 = if base <= next && next < base + len {
                    if next - base < len - n {
                        next - base
                    } else {
                        len - n
                    }
                } else {
                    0
                };
                let hi: u64 = base + len - n + 1;
                let a: usize = self.search((base + from) as usize, hi as usize, num_pages);
                let b: usize = self.search(base as usize, (base + from) as usize, num_pages);
                let found: Option<usize> = if (a as u64) < hi {
                    Some(a)
                } else if (b as u64) < base + from {
                    Some(b)
                } else {
                    None
                };
                match found {
                    Some(s) => {
                        self.take_run(s, num_pages);
                        proof {
                            lemma_frame_of(rs, k as int, s as int);
                        }
                        return Some(region.first_frame + (s as u64 - base) * FRAME);
                    },
                    None => {},
                }
            }
            base = base + region.frame_count;
            k = k + 1;
        }
        None
    }

    /// Takes frames that follow each other.
    pub fn allocate_contiguous(&mut self, num_pages: usize) -> (r: Option<u64>)
        requires
            old(self).wf(),
        ensures
            final(self).wf(),
            if num_pages == 0 {
                r is None && final(self)@ == old(self)@
            } else {
                run_allocated(old(self)@, final(self)@, num_pages as int, (PHYS_END - 1) as u64, r)
            },
    {
        if num_pages == 0 {
            return None;
        }
        self.allocate_run(num_pages, PHYS_END - 1)
    }

    /// Takes frames that follow each other and end at or below an address.
    pub fn allocate_contiguous_below(&mut self, num_pages: usize, max_phys_addr_inclusive: u64) -> (r: Option<
        u64,
    >)
        requires
            old(self).wf(),
            max_phys_addr_inclusive < u64::MAX,
        ensures
            final(self).wf(),
            if num_pages == 0 {
                r is None && final(self)@ == old(self)@
            } else {
                run_allocated(
                    old(self)@,
                    final(self)@,
                    num_pages as int,
                    max_phys_addr_inclusive,
                    r,
                )
            },
    {
        if num_pages == 0 {
            return None;
        }
        self.allocate_run(num_pages, max_phys_addr_inclusive)
    }
}

proof fn lemma_has_frame(rs: Seq<UsableRegion>, i: int)
    requires
        0 <= i < total(rs),
    ensures
        frame_of(rs, i) is Some,
    decreases rs.len(),
{
    if rs.len() > 0 && i < total(rs.drop_last()) {
        lemma_has_frame(rs.drop_last(), i);
    }
}

/// The frames after the one at `frame` was given back.
pub open spec fn freed(v: FrameView, frame: u64) -> FrameView {
    match index_of(v.regions, frame) {
        Some(i) => if v.taken[i] {
            FrameView {
                taken: v.taken.update(i, false),
                next: if i < v.next {
                    i
                } else {
                    v.next
                },
                ..v
            }
        } else {
            v
        },
        None => v,
    }
}

/// What came of a request for `n` frames that follow each other and end at or below `max`.
pub open spec fn run_allocated(v: FrameView, after: FrameView, n: int, max: u64, r: Option<u64>) -> bool {
    match find_run(v, 0, n, max) {
        Some(s) => {
            &&& r == frame_of(v.regions, s)
            &&& r is Some
            &&& after == (FrameView { taken: run_taken(v.taken, s, n), next: s + n, ..v })
        },
        None => r is None && after == v,
    }
}

proof fn lemma_free_from(taken: Seq<bool>, start: int, step: int)
    requires
        0 <= start <= taken.len(),
        0 <= step,
    ensures
        free_from(taken, start, step) matches Some(i) ==> 0 <= i < taken.len() && !taken[i],
    decreases taken.len() - step,
{
    if step < taken.len() {
        vstd::arithmetic::div_mod::lemma_mod_bound(start + step, taken.len() as int);
        lemma_free_from(taken, start, step + 1);
    }
}

/// A frame that is given out was free, and giving it back leaves the same frames taken
/// as before.
pub proof fn lemma_allocate_free(v: FrameView, i: int, f: u64)
    requires
        regions_wf(v.regions),
        disjoint(v.regions),
        total(v.regions) == v.taken.len(),
        0 <= v.next <= v.taken.len(),
        free_from(v.taken, v.next, 0) == Some(i),
        frame_of(v.regions, i) == Some(f),
    ensures
        !v.taken[i],
        freed(FrameView { taken: v.taken.update(i, true), next: i + 1, ..v }, f).taken == v.taken,
{
    lemma_free_from(v.taken, v.next, 0);
    lemma_numbering(v.regions, i);
    assert(v.taken.update(i, true).update(i, false) =~= v.taken);
}

proof fn lemma_first_run(taken: Seq<bool>, lo: int, hi: int, n: int)
    ensures
        first_run(taken, lo, hi, n) < hi ==> lo <= first_run(taken, lo, hi, n) && run_free(
            taken,
            first_run(taken, lo, hi, n),
            n,
        ),
    decreases hi - lo,
{
    if lo < hi && !run_free(taken, lo, n) {
        lemma_first_run(taken, lo + 1, hi, n);
    }
}

/// Frames that are given out together were all free.
pub proof fn lemma_run_was_free(v: FrameView, k: int, n: int, max: u64)
    ensures
        find_run(v, k, n, max) matches Some(s) ==> run_free(v.taken, s, n),
    decreases v.regions.len() - k,
{
    if 0 <= k < v.regions.len() {
        let base = total(v.regions.take(k));
        let len = room(v.regions[k], max);
        let from = search_start(v.next, base, len, n);
        lemma_first_run(v.taken, base + from, base + len - n + 1, n);
        lemma_first_run(v.taken, base, base + from, n);
        lemma_run_was_free(v, k + 1, n, max);
    }
}

/// Where free frames that follow each other were found: the region that holds them all.
proof fn lemma_run_region(v: FrameView, k0: int, n: int, max: u64) -> (k: int)
    requires
        regions_wf(v.regions),
        k0 >= 0,
        n > 0,
    ensures
        find_run(v, k0, n, max) matches Some(s) ==> {
            &&& k0 <= k < v.regions.len()
            &&& total(v.regions.take(k)) <= s
            &&& s + n <= total(v.regions.take(k)) + room(v.regions[k], max)
        },
    decreases v.regions.len() - k0,
{
    if k0 < v.regions.len() {
        let base = total(v.regions.take(k0));
        let len = room(v.regions[k0], max);
        let from = search_start(v.next, base, len, n);
        lemma_first_run(v.taken, base + from, base + len - n + 1, n);
        lemma_first_run(v.taken, base, base + from, n);
        if len >= n && region_run(v.taken, v.next, base, len, n) is Some {
            k0
        } else {
            lemma_run_region(v, k0 + 1, n, max)
        }
    } else {
        k0
    }
}

/// Frames that are given out together follow each other in memory, and end at or below
/// the address that was asked for.
pub proof fn lemma_run_in_place(v: FrameView, n: int, max: u64, s: int, j: int)
    requires
        regions_wf(v.regions),
        0 <= j < n,
        find_run(v, 0, n, max) == Some(s),
    ensures
        0 <= s,
        s + n <= total(v.regions),
        frame_of(v.regions, s) matches Some(first) && first + n * 4096 <= max + 1 && first % 4096 == 0
            && frame_of(v.regions, s + j) == Some((first + j * 4096) as u64),
{
    let k = lemma_run_region(v, 0, n, max);
    let rs = v.regions;
    assert(rs[k].wf());
    lemma_total(rs, k);
    lemma_total(rs, k + 1);
    lemma_frame_of(rs, k, s);
    lemma_frame_of(rs, k, s + j);
}

/// Whether every usable part of a memory map is made of whole frames.
pub open spec fn map_wf(map: Seq<MemoryRegion>) -> bool {
    forall|i: int|
        0 <= i < map.len() && (#[trigger] map[i]).usable ==> {
            &&& map[i].base % 4096 == 0
            &&& map[i].length % 4096 == 0
            &&& map[i].base + map[i].length <= PHYS_END
        }
}

/// The frames of the usable parts of a memory map.
pub open spec fn map_frames(map: Seq<MemoryRegion>) -> int
    decreases map.len(),
{
    if map.len() == 0 {
        0
    } else {
        map_frames(map.drop_last()) + if map.last().usable {
            map.last().length as int / 4096
        } else {
            0
        }
    }
}

/// How many words the bitmap of `frames` frames has.
pub open spec fn bitmap_words(frames: int) -> int {
    (frames + 63) / 64
}

/// How much memory is set aside for the bitmap of `frames` frames: whole pages.
pub open spec fn bitmap_storage(frames: int) -> int {
    (bitmap_words(frames) * 8 + 4095) / 4096 * 4096
}

/// What came of a memory map: where the bitmap is, which regions are managed, and
/// whether a region was left out for want of room.
#[verifier::ext_equal]
pub struct Survey {
    pub host: Option<u64>,
    pub regions: Seq<UsableRegion>,
    pub full: bool,
}

/// The first large enough region holds the bitmap, and what is left of it is managed as
/// the other regions are.
pub open spec fn survey_step(s: Survey, e: MemoryRegion, storage: int) -> Survey {
    if s.full || !e.usable {
        s
    } else {
        let host = if s.host is None && e.length >= storage {
            Some(e.base)
        } else {
            s.host
        };
        let start = if host == Some(e.base) {
            e.base + storage
        } else {
            e.base as int
        };
        let end = e.base + e.length;
        if end - start < 4096 {
            Survey { host, ..s }
        } else if s.regions.len() >= MAX_REGIONS {
            Survey { host, full: true, ..s }
        } else {
            Survey {
                host,
                regions: s.regions.push(
                    UsableRegion {
                        first_frame: start as u64,
                        frame_count: ((end - start) / 4096) as u64,
                    },
                ),
                ..s
            }
        }
    }
}

pub open spec fn survey(map: Seq<MemoryRegion>, storage: int) -> Survey
    decreases map.len(),
{
    if map.len() == 0 {
        Survey { host: None, regions: Seq::empty(), full: false }
    } else {
        survey_step(survey(map.drop_last(), storage), map.last(), storage)
    }
}

proof fn lemma_map_frames(map: Seq<MemoryRegion>, k: int)
    requires
        0 <= k <= map.len(),
    ensures
        0 <= map_frames(map.take(k)) <= map_frames(map),
        k < map.len() ==> map_frames(map.take(k + 1)) == map_frames(map.take(k)) + if map[k].usable {
            map[k].length as int / 4096
        } else {
            0
        },
    decreases map.len(),
{
    if k < map.len() {
        assert(map.take(k + 1).drop_last() =~= map.take(k));
        lemma_map_frames(map.drop_last(), k);
        assert(map.drop_last().take(k) =~= map.take(k));
    } else {
        assert(map.take(k) =~= map);
        if map.len() > 0 {
            lemma_map_frames(map.drop_last(), map.len() - 1);
            assert(map.drop_last().take(map.len() - 1) =~= map.drop_last());
        }
    }
}

proof fn lemma_survey_full(map: Seq<MemoryRegion>, k: int, storage: int)
    requires
        0 <= k <= map.len(),
        survey(map.take(k), storage).full,
    ensures
        survey(map, storage) == survey(map.take(k), storage),
    decreases map.len(),
{
    if k < map.len() {
        assert(map.drop_last().take(k) =~= map.take(k));
        lemma_survey_full(map.drop_last(), k, storage);
    } else {
        assert(map.take(k) =~= map);
    }
}

proof fn lemma_pushed_total(rs: Seq<UsableRegion>, r: UsableRegion)
    ensures
        total(rs.push(r)) == total(rs) + r.frame_count,
{
    assert(rs.push(r).drop_last() =~= rs);
}

/// Counts the usable frames of a memory map.
fn count_frames(memory_map: &[MemoryRegion]) -> (r: usize)
    requires
        map_frames(memory_map@) <= usize::MAX - 63,
    ensures
        r == map_frames(memory_map@),
{
    let ghost map = memory_map@;
    let mut n: usize = 0;
    let mut k: usize = 0;
    proof {
        assert(map.take(0).len() == 0);
    }
    while k < memory_map.len()
        invariant
            map == memory_map@,
            map_frames(map) <= usize::MAX - 63,
            k <= map.len(),
            n == map_frames(map.take(k as int)),
        decreases map.len() - k,
    {
        proof {
            lemma_map_frames(map, k as int);
            lemma_map_frames(map, k + 1);
        }
        if memory_map[k].usable {
            n = n + (memory_map[k].length / FRAME) as usize;
        }
        k = k + 1;
    }
    proof {
        assert(map.take(k as int) =~= map);
    }
    n
}

fn zero_words(n: usize) -> (r: Vec<u64>)
    ensures
        r@ == Seq::new(n as nat, |i: int| 0u64),
{
    let mut v: Vec<u64> = Vec::new();
    let mut i: usize = 0;
    while i < n
        invariant
            i <= n,
            v@ == Seq::new(i as nat, |j: int| 0u64),
        decreases n - i,
    {
        v.push(0);
        i = i + 1;
        proof {
            assert(v@ =~= Seq::new(i as nat, |j: int| 0u64));
        }
    }
    v
}

impl BitmapFrameAllocator {
    /// An allocator for the usable parts of a memory map, with every frame free; `None`
    /// if no part is large enough to hold the bitmap.
    pub fn init(memory_map: &[MemoryRegion]) -> (r: Option<Self>)
        requires
            map_wf(memory_map@),
            map_frames(memory_map@) <= usize::MAX - 63,
        ensures
            ({
                let s = survey(memory_map@, bitmap_storage(map_frames(memory_map@)));
                match r {
                    Some(a) => {
                        &&& a.wf()
                        &&& s.host == Some(a.bitmap_addr)
                        &&& a@ == (FrameView {
                            taken: Seq::new(total(s.regions) as nat, |i: int| false),
                            next: 0,
                            regions: s.regions,
                        })
                        &&& a.bitmap@.len() == bitmap_words(map_frames(memory_map@))
                    },
                    None => s.host is None,
                }
            }),
    {
        let ghost map = memory_map@;
        let frames: usize = count_frames(memory_map);
        proof {
            lemma_map_frames(map, map.len() as int);
            assert(map.take(map.len() as int) =~= map);
        }
        let words: u64 = (frames as u64 + 63) / 64;
        let storage: u64 = (words * 8 + 4095) / FRAME * FRAME;
        let ghost st = storage as int;
        let mut host: Option<u64> = None;
        let mut regions: Vec<UsableRegion> = Vec::new();
        let mut count: u64 = 0;
        let mut full: bool = false;
        let mut k: usize = 0;
        proof {
            assert(map.take(0).len() == 0);
        }
        while k < memory_map.len() && !full
            invariant
                map == memory_map@,
                map_wf(map),
                map_frames(map) <= usize::MAX - 63,
                storage == st,
                st == bitmap_storage(map_frames(map)),
                storage % 4096 == 0,
                k <= map.len(),
                survey(map.take(k as int), st) == (Survey { host, regions: regions@, full }),
                regions_wf(regions@),
                count == total(regions@),
                count <= map_frames(map.take(k as int)),
            decreases map.len() - k,
        {
            let e: MemoryRegion = memory_map[k];
            proof {
                assert(map.take(k + 1).drop_last() =~= map.take(k as int));
                assert(map.take(k + 1).last() == map[k as int]);
                lemma_map_frames(map, k as int);
                lemma_map_frames(map, k + 1);
            }
            if e.usable {
                let end: u64 = e.base + e.length;
                if host.is_none() && e.length >= storage {
                    host = Some(e.base);
                }
                let here: bool = match host {
                    Some(h) => h == e.base,
                    None => false,
                };
                let reserved: u64 = if here {
                    storage
                } else {
                    0
                };
                if e.length >= reserved && e.length - reserved >= FRAME {
                    if regions.len() >= MAX_REGIONS {
                        full = true;
                    } else {
                        let region: UsableRegion = UsableRegion::new(e.base + reserved, end);
                        proof {
                            lemma_pushed_total(regions@, region);
                            assert(region.frame_count == (end - (e.base + reserved)) / 4096);
                        }
                        regions.push(region);
                        count = count + region.frame_count;
                    }
                }
            }
            k = k + 1;
        }
        proof {
            lemma_map_frames(map, k as int);
            if full {
                lemma_survey_full(map, k as int, st);
            } else {
                assert(map.take(k as int) =~= map);
            }
        }
        match host {
            Some(h) => {
                let a = BitmapFrameAllocator {
                    bitmap: zero_words(words as usize),
                    next_free_index: 0,
                    usable_regions: regions,
                    frames_count: count as usize,
                    bitmap_addr: h,
                };
                proof {
                    assert forall|i: int| 0 <= i < count implies !(#[trigger] a@.taken[i]) by {
                        assert(0u64 & (1u64 << ((i % 64) as u64)) == 0) by {
                            lemma_zero_bit((i % 64) as u64);
                        }
                    }
                    assert(a@.taken =~= Seq::new(total(regions@) as nat, |i: int| false));
                }
                Some(a)
            },
            None => None,
        }
    }
}

proof fn lemma_zero_bit(k: u64)
    ensures
        0u64 & (1u64 << k) == 0,
{
    let m = 1u64 << k;
    assert(0u64 & m == 0) by (bit_vector);
}

/// Whether the parts of a memory map are in order and do not overlap.
pub open spec fn map_sorted(map: Seq<MemoryRegion>) -> bool {
    forall|i: int, j: int|
        0 <= i < j < map.len() ==> (#[trigger] map[i]).base + map[i].length <= (#[trigger] map[j]).base
}

spec fn ends_before(rs: Seq<UsableRegion>, bound: int) -> bool {
    forall|i: int|
        0 <= i < rs.len() ==> (#[trigger] rs[i]).first_frame + rs[i].frame_count * 4096 <= bound
}

spec fn in_order(rs: Seq<UsableRegion>) -> bool {
    forall|i: int, j: int|
        0 <= i < j < rs.len() ==> (#[trigger] rs[i]).first_frame + rs[i].frame_count * 4096
            <= (#[trigger] rs[j]).first_frame
}

/// Whether no region touches the memory from `host` on that the bitmap takes.
pub open spec fn clear_of(rs: Seq<UsableRegion>, host: u64, storage: int) -> bool {
    forall|i: int, f: u64|
        0 <= i < rs.len() && #[trigger] rs[i].holds(f) ==> !(host <= f < host + storage)
}

proof fn lemma_survey(map: Seq<MemoryRegion>, storage: int, k: int, bound: int)
    requires
        map_wf(map),
        map_sorted(map),
        storage % 4096 == 0,
        storage > 0,
        0 <= k <= map.len(),
        k < map.len() ==> bound == map[k].base,
        k == map.len() ==> bound == PHYS_END,
    ensures
        ({
            let s = survey(map.take(k), storage);
            &&& regions_wf(s.regions)
            &&& ends_before(s.regions, if k == 0 {
                0
            } else {
                map[k - 1].base + map[k - 1].length
            })
            &&& in_order(s.regions)
            &&& s.host matches Some(h) ==> clear_of(s.regions, h, storage) && k > 0 && h + storage
                <= map[k - 1].base + map[k - 1].length
        }),
    decreases k,
{
    if k > 0 {
        let e = map[k - 1];
        lemma_survey(map, storage, k - 1, e.base as int);
        assert(map.take(k).drop_last() =~= map.take(k - 1));
        assert(map.take(k).last() == e);
        let a = survey(map.take(k - 1), storage);
        let b = survey(map.take(k), storage);
        if k - 1 > 0 {
            assert(map[k - 2].base + map[k - 2].length <= e.base);
        }
        if b.regions.len() > a.regions.len() {
            let r = b.regions[b.regions.len() - 1];
            assert(b.regions == a.regions.push(r));
            assert(r.wf());
            assert forall|i: int| 0 <= i < b.regions.len() implies (#[trigger] b.regions[i]).wf() by {
                if i < a.regions.len() {
                    assert(b.regions[i] == a.regions[i]);
                }
            }
            assert forall|i: int, j: int| 0 <= i < j < b.regions.len() implies (
            #[trigger] b.regions[i]).first_frame + b.regions[i].frame_count * 4096 <= (
            #[trigger] b.regions[j]).first_frame by {
                assert(b.regions[i] == a.regions[i]);
            }
        }
        match b.host {
            Some(h) => {
                assert forall|i: int, f: u64|
                    0 <= i < b.regions.len() && #[trigger] b.regions[i].holds(f) implies !(h <= f < h
                    + storage) by {
                    if i < a.regions.len() {
                        assert(b.regions[i] == a.regions[i]);
                        assert(a.regions[i].holds(f));
                    }
                }
            },
            None => {},
        }
    }
}

/// In a map whose parts are in order, no frame is managed twice, and none of those that
/// the bitmap takes is managed at all.
pub proof fn lemma_bitmap_reserved(map: Seq<MemoryRegion>)
    requires
        map_wf(map),
        map_sorted(map),
        map_frames(map) > 0,
    ensures
        ({
            let storage = bitmap_storage(map_frames(map));
            let s = survey(map, storage);
            &&& regions_wf(s.regions)
            &&& disjoint(s.regions)
            &&& s.host matches Some(h) ==> clear_of(s.regions, h, storage)
        }),
{
    let storage = bitmap_storage(map_frames(map));
    assert(map.take(map.len() as int) =~= map);
    lemma_survey(map, storage, map.len() as int, PHYS_END as int);
    let rs = survey(map, storage).regions;
    assert forall|i: int, j: int, f: u64|
        0 <= i < j < rs.len() && #[trigger] rs[i].holds(f) implies !#[trigger] rs[j].holds(f) by {
        assert(rs[i].first_frame + rs[i].frame_count * 4096 <= rs[j].first_frame);
    }
}

} // verus!
