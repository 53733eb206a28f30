//! The heap of the kernel.

use crate::memory::pages::{page_run, PageRun};
use vstd::prelude::*;

verus! {

pub const HEAP_START: u64 = 0x4444_4444_0000;

/// How much memory is mapped for the heap.
pub const HEAP_MAPPED: u64 = 0x640_0000;

/// What the allocator says of the heap.
#[derive(Debug, Clone, Copy, PartialEq, Eq, Structural)]
pub struct HeapUsage {
    pub size: usize,
    pub used: usize,
}

impl HeapUsage {
    pub open spec fn wf(self) -> bool {
        self.used <= self.size
    }
}

pub fn heap_size(heap: &HeapUsage) -> (r: usize)
    ensures
        r == heap.size,
{
    heap.size
}

pub fn heap_used(heap: &HeapUsage) -> (r: usize)
    ensures
        r == heap.used,
{
    heap.used
}

pub fn heap_free(heap: &HeapUsage) -> (r: usize)
    requires
        heap.wf(),
    ensures
        r == heap.size - heap.used,
{
    heap.size - heap.used
}

/// The pages that the heap is given.
pub fn heap_pages() -> (r: PageRun)
    ensures
        r == (PageRun {
            next: HEAP_START,
            left: HEAP_MAPPED / 4096,
        }),
{
    page_run(HEAP_START, HEAP_MAPPED)
}

} // verus!
