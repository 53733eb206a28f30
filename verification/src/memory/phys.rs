//! Memory that devices reach: frames that follow each other.

use crate::memory::bitmap::{
    disjoint, find_run, frame_of, freed, index_of, lemma_numbering, lemma_run_in_place,
    lemma_run_was_free, regions_wf, run_free, run_taken, total, BitmapFrameAllocator, FrameView,
    PHYS_END,
};
use vstd::prelude::*;

verus! {

/// The highest address that a device with 32 address lines reaches.
pub const DMA32_MAX: u64 = 0xFFFF_FFFF;

/// A buffer in physical memory.
#[derive(Debug, PartialEq, Eq, Structural)]
pub struct PhysBuf {
    pub phys: u64,
    pub len: usize,
    pub pages: usize,
}

/// How many pages `len` bytes take.
pub open spec fn page_count(len: int) -> int {
    (len + 4095) / 4096
}

/// What came of a request for a buffer of `len` bytes that ends at or below `max`.
pub open spec fn buffer_made(
    v: FrameView,
    after: FrameView,
    len: usize,
    max: u64,
    r: Option<PhysBuf>,
) -> bool {
    let n = page_count(len as int);
    if n == 0 {
        r is None && after == v
    } else {
        match find_run(v, 0, n, max) {
            Some(s) => {
                &&& r matches Some(b)
                &&& Some(b.phys) == frame_of(v.regions, s)
                &&& b.len == len
                &&& b.pages == n
                &&& after == (FrameView { taken: run_taken(v.taken, s, n), next: s + n, ..v })
            },
            None => r is None && after == v,
        }
    }
}

/// The frames after the `n` at `phys` and behind it were given back.
pub open spec fn run_freed(v: FrameView, phys: u64, n: int) -> FrameView
    decreases n,
{
    if n <= 0 {
        v
    } else {
        freed(run_freed(v, phys, n - 1), (phys + (n - 1) * 4096) as u64)
    }
}

impl PhysBuf {
    pub open spec fn wf(&self) -> bool {
        &&& self.phys % 4096 == 0
        &&& self.phys + self.pages * 4096 <= PHYS_END
    }

    /// A buffer of `len` bytes; `None` if there are not enough free frames that follow
    /// each other, or if no byte is asked for.
    pub fn new(len: usize, frames: &mut BitmapFrameAllocator) -> (r: Option<Self>)
        requires
            old(frames).wf(),
            len <= usize::MAX - 4095,
        ensures
            final(frames).wf(),
            buffer_made(old(frames)@, final(frames)@, len, (PHYS_END - 1) as u64, r),
            r matches Some(b) ==> b.wf(),
    {
        let ghost v = frames@;
        let pages: usize = (len + 0xFFF) / 0x1000;
        match frames.allocate_contiguous(pages) {
            Some(phys) => {
                proof {
                    let s = find_run(v, 0, pages as int, (PHYS_END - 1) as u64)->0;
                    lemma_run_in_place(v, pages as int, (PHYS_END - 1) as u64, s, 0);
                }
                Some(PhysBuf { phys, len, pages })
            },
            None => None,
        }
    }

    /// A buffer that devices with 32 address lines reach.
    pub fn new_dma32(len: usize, frames: &mut BitmapFrameAllocator) -> (r: Option<Self>)
        requires
            old(frames).wf(),
            len <= usize::MAX - 4095,
        ensures
            final(frames).wf(),
            buffer_made(old(frames)@, final(frames)@, len, DMA32_MAX, r),
            r matches Some(b) ==> b.wf() && b.phys + b.pages * 4096 <= DMA32_MAX + 1,
    {
        let ghost v = frames@;
        let pages: usize = (len + 0xFFF) / 0x1000;
        match frames.allocate_contiguous_below(pages, DMA32_MAX) {
            Some(phys) => {
                proof {
                    let s = find_run(v, 0, pages as int, DMA32_MAX)->0;
                    lemma_run_in_place(v, pages as int, DMA32_MAX, s, 0);
                }
                Some(PhysBuf { phys, len, pages })
            },
            None => None,
        }
    }

    /// Where the buffer is mapped for the kernel.
    pub fn virt_addr(&self, offset: u64) -> (r: u64)
        requires
            self.phys + offset <= u64::MAX,
        ensures
            r == self.phys + offset,
    {
        crate::memory::pages::phys_to_virt(self.phys, offset)
    }

    pub fn addr(&self) -> (r: u64)
        ensures
            r == self.phys,
    {
        self.phys
    }

    /// Gives the frames of a buffer back.
    pub fn release(self, frames: &mut BitmapFrameAllocator)
        requires
            old(frames).wf(),
            self.wf(),
        ensures
            final(frames).wf(),
            final(frames)@ == run_freed(old(frames)@, self.phys, self.pages as int),
    {
        let ghost v = frames@;
        let mut i: usize = 0;
        while i < self.pages
            invariant
                self.wf(),
                frames.wf(),
                i <= self.pages,
                frames@ == run_freed(v, self.phys, i as int),
            decreases self.pages - i,
        {
            frames.deallocate_frame(self.phys + (i as u64) * 0x1000);
            i = i + 1;
        }
    }
}

/// A buffer was made of free frames, and once it is released the same frames are taken
/// as before.
pub proof fn lemma_buffer_returned(v: FrameView, after: FrameView, len: usize, max: u64, b: PhysBuf)
    requires
        regions_wf(v.regions),
        disjoint(v.regions),
        total(v.regions) == v.taken.len(),
        max < PHYS_END,
        buffer_made(v, after, len, max, Some(b)),
    ensures
        run_freed(after, b.phys, b.pages as int).taken == v.taken,
        run_freed(after, b.phys, b.pages as int).regions == v.regions,
{
    let n = b.pages as int;
    let s = find_run(v, 0, n, max)->0;
    lemma_run_was_free(v, 0, n, max);
    lemma_run_in_place(v, n, max, s, 0);
    lemma_freed_part(v, after, n, max, s, b.phys, n);
    assert(run_freed(after, b.phys, n).taken =~= v.taken);
}

proof fn lemma_freed_part(
    v: FrameView,
    after: FrameView,
    n: int,
    max: u64,
    s: int,
    phys: u64,
    k: int,
)
    requires
        regions_wf(v.regions),
        disjoint(v.regions),
        total(v.regions) == v.taken.len(),
        0 <= k <= n,
        n > 0,
        find_run(v, 0, n, max) == Some(s),
        frame_of(v.regions, s) == Some(phys),
        run_free(v.taken, s, n),
        0 <= s,
        s + n <= v.taken.len(),
        after == (FrameView { taken: run_taken(v.taken, s, n), next: s + n, ..v }),
    ensures
        run_freed(after, phys, k).regions == v.regions,
        run_freed(after, phys, k).taken == Seq::new(
            v.taken.len(),
            |i: int| v.taken[i] || s + k <= i < s + n,
        ),
    decreases k,
{
    if k > 0 {
        lemma_freed_part(v, after, n, max, s, phys, k - 1);
        lemma_run_in_place(v, n, max, s, k - 1);
        lemma_numbering(v.regions, s + k - 1);
        let f = (phys + (k - 1) * 4096) as u64;
        assert(index_of(v.regions, f) == Some(s + k - 1));
        let prev = run_freed(after, phys, k - 1);
        assert(prev.taken[s + k - 1]);
        assert(run_freed(after, phys, k).taken =~= Seq::new(
            v.taken.len(),
            |i: int| v.taken[i] || s + k <= i < s + n,
        ));
    } else {
        assert(after.taken =~= Seq::new(v.taken.len(), |i: int| v.taken[i] || s + k <= i < s + n));
    }
}

} // verus!
