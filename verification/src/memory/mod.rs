//! Physical memory: its frames, and the pages that they are mapped to.

pub mod bitmap;
pub mod heap;
pub mod laws;
pub mod pages;
pub mod phys;

use crate::memory::bitmap::{BitmapFrameAllocator, MemoryRegion};
use vstd::prelude::*;

verus! {

pub const PAGE_SIZE: u64 = 4096;

/// The bytes of `n` frames, as far as they can be told.
pub open spec fn frame_bytes(n: int) -> int {
    if n * 4096 > usize::MAX {
        usize::MAX as int
    } else {
        n * 4096
    }
}

fn bytes_of_frames(n: usize) -> (r: usize)
    ensures
        r == frame_bytes(n as int),
{
    match n.checked_mul(4096) {
        Some(b) => b,
        None => usize::MAX,
    }
}

/// How many bytes of memory are managed, and how many of them are free.
pub fn mem_stats_bytes(frames: &BitmapFrameAllocator) -> (r: (usize, usize))
    requires
        frames.wf(),
    ensures
        r.0 == frame_bytes(frames@.taken.len() as int),
        r.1 == frame_bytes(frames@.taken.len() - bitmap::taken_count(frames@.taken)),
{
    (bytes_of_frames(frames.total_frames()), bytes_of_frames(frames.free_frames()))
}

/// Memory below this address that no map names belongs to the firmware.
pub const FIRMWARE_END: u64 = 0x10_0000;

/// The memory that a map speaks of, and the memory of the firmware that it leaves out.
pub open spec fn mapped_memory(map: Seq<MemoryRegion>) -> int
    decreases map.len(),
{
    if map.len() == 0 {
        0
    } else {
        let front = map.drop_last();
        let before = if front.len() == 0 {
            0
        } else {
            front.last().base + front.last().length
        };
        mapped_memory(front) + map.last().length + if map.last().base < FIRMWARE_END {
            map.last().base - before
        } else {
            0
        }
    }
}

proof fn lemma_mapped(map: Seq<MemoryRegion>, k: int)
    requires
        bitmap::map_sorted(map),
        0 <= k <= map.len(),
        forall|i: int| 0 <= i < map.len() ==> (#[trigger] map[i]).base + map[i].length <= u64::MAX,
    ensures
        0 <= mapped_memory(map.take(k)) <= if k == 0 {
            0
        } else {
            map[k - 1].base + map[k - 1].length
        },
        k > 0 ==> mapped_memory(map.take(k)) == mapped_memory(map.take(k - 1)) + map[k - 1].length + if map[k
            - 1].base < FIRMWARE_END {
            map[k - 1].base - if k == 1 {
                0
            } else {
                map[k - 2].base + map[k - 2].length
            }
        } else {
            0
        },
    decreases k,
{
    if k > 0 {
        lemma_mapped(map, k - 1);
        assert(map.take(k).drop_last() =~= map.take(k - 1));
        if k > 1 {
            assert(map[k - 2].base + map[k - 2].length <= map[k - 1].base);
        }
    }
}

/// How much memory the machine has, from a map whose parts are in order.
pub fn memory_size(memory_map: &[MemoryRegion]) -> (r: u64)
    requires
        bitmap::map_sorted(memory_map@),
        forall|i: int|
            0 <= i < memory_map@.len() ==> (#[trigger] memory_map@[i]).base + memory_map@[i].length
                <= u64::MAX,
    ensures
        r == mapped_memory(memory_map@),
{
    let ghost map = memory_map@;
    let mut size: u64 = 0;
    let mut last_end: u64 = 0;
    let mut k: usize = 0;
    proof {
        assert(map.take(0).len() == 0);
    }
    while k < memory_map.len()
        invariant
            map == memory_map@,
            bitmap::map_sorted(map),
            forall|i: int|
                0 <= i < map.len() ==> (#[trigger] map[i]).base + map[i].length <= u64::MAX,
            k <= map.len(),
            last_end == if k == 0 {
                0
            } else {
                map[k - 1].base + map[k - 1].length
            },
            size == mapped_memory(map.take(k as int)),
        decreases map.len() - k,
    {
        proof {
            lemma_mapped(map, k as int);
            lemma_mapped(map, k + 1);
            if k > 0 {
                assert(map[k - 1].base + map[k - 1].length <= map[k as int].base);
            }
        }
        let e: MemoryRegion = memory_map[k];
        if e.base < FIRMWARE_END {
            size = size + (e.base - last_end);
        }
        size = size + e.length;
        last_end = e.base + e.length;
        k = k + 1;
    }
    proof {
        assert(map.take(k as int) =~= map);
    }
    size
}

} // verus!
