//! What holds of physical memory: which frames are managed, who gets them, and which pages
//! memory lies on.

use crate::memory::bitmap::{
    find_run, first_run, frame_of, free_from, freed, index_of, lemma_numbering, lemma_run_in_place,
    lemma_run_was_free, regions_wf, disjoint, room, run_allocated, run_free, search_start, survey,
    taken_count, total, FrameView, MemoryRegion, UsableRegion,
};
use crate::memory::mapped_memory;
use crate::memory::pages::{device_flags, pages_of};
use crate::memory::phys::{buffer_made, page_count, PhysBuf};
use vstd::prelude::*;

verus! {

/// No two numbers stand for the same frame.
pub proof fn lemma_frames_differ(rs: Seq<UsableRegion>, i: int, j: int)
    requires
        regions_wf(rs),
        disjoint(rs),
        0 <= i < total(rs),
        0 <= j < total(rs),
        i != j,
    ensures
        frame_of(rs, i) is Some,
        frame_of(rs, j) is Some,
        frame_of(rs, i) != frame_of(rs, j),
{
    lemma_numbering(rs, i);
    lemma_numbering(rs, j);
}

/// A frame lies in one of the regions that are managed, on a page boundary.
pub proof fn lemma_frame_in_region(rs: Seq<UsableRegion>, i: int, f: u64)
    requires
        regions_wf(rs),
        frame_of(rs, i) == Some(f),
    ensures
        exists|k: int|
            0 <= k < rs.len() && (#[trigger] rs[k]).first_frame <= f && f + 4096 <= rs[k].first_frame
                + rs[k].frame_count * 4096 && (f - rs[k].first_frame) % 4096 == 0,
    decreases rs.len(),
{
    if rs.len() > 0 && i >= 0 {
        let front = rs.drop_last();
        let base = total(front);
        assert(rs[rs.len() - 1] == rs.last());
        assert(rs.last().wf());
        if i < base {
            assert forall|k: int| 0 <= k < front.len() implies (#[trigger] front[k]).wf() by {
                assert(front[k] == rs[k]);
            }
            lemma_frame_in_region(front, i, f);
            let k = choose|k: int|
                0 <= k < front.len() && (#[trigger] front[k]).first_frame <= f && f + 4096
                    <= front[k].first_frame + front[k].frame_count * 4096 && (f - front[k].first_frame)
                    % 4096 == 0;
            assert(rs[k] == front[k]);
        }
    }
}

/// A free frame is found where there is one, and the frame that is found is free.
pub proof fn lemma_free_frame_found(taken: Seq<bool>, start: int, i: int)
    requires
        0 <= start <= taken.len(),
        0 <= i < taken.len(),
    ensures
        match free_from(taken, start, 0) {
            Some(k) => 0 <= k < taken.len() && !taken[k],
            None => taken[i],
        },
{
    let n = taken.len() as int;
    let step = if i >= start {
        i - start
    } else {
        i - start + n
    };
    if i >= start {
        vstd::arithmetic::div_mod::lemma_small_mod(i as nat, n as nat);
    } else {
        vstd::arithmetic::div_mod::lemma_mod_multiples_vanish(1, i, n);
        vstd::arithmetic::div_mod::lemma_small_mod(i as nat, n as nat);
    }
    assert((start + step) % n == i);
    lemma_free_from_step(taken, start, 0, step);
}

proof fn lemma_free_from_step(taken: Seq<bool>, start: int, at: int, step: int)
    requires
        0 <= start <= taken.len(),
        0 <= at <= step < taken.len(),
    ensures
        match free_from(taken, start, at) {
            Some(k) => 0 <= k < taken.len() && !taken[k],
            None => taken[(start + step) % (taken.len() as int)],
        },
    decreases taken.len() - at,
{
    vstd::arithmetic::div_mod::lemma_mod_bound(start + at, taken.len() as int);
    if taken[(start + at) % (taken.len() as int)] {
        if at < step {
            lemma_free_from_step(taken, start, at + 1, step);
        } else {
            lemma_free_from_any(taken, start, at + 1);
        }
    }
}

proof fn lemma_free_from_any(taken: Seq<bool>, start: int, at: int)
    requires
        0 <= start <= taken.len(),
        0 <= at,
    ensures
        free_from(taken, start, at) matches Some(k) ==> 0 <= k < taken.len() && !taken[k],
    decreases taken.len() - at,
{
    if at < taken.len() {
        vstd::arithmetic::div_mod::lemma_mod_bound(start + at, taken.len() as int);
        lemma_free_from_any(taken, start, at + 1);
    }
}

/// A frame that is given back is free, and no other frame is touched; memory that is not
/// managed is not given back.
pub proof fn lemma_frame_given_back(v: FrameView, frame: u64, k: int)
    requires
        0 <= k < v.taken.len(),
        index_of(v.regions, frame) matches Some(i) ==> 0 <= i < v.taken.len(),
    ensures
        ({
            let w = freed(v, frame);
            &&& w.taken.len() == v.taken.len()
            &&& w.regions == v.regions
            &&& index_of(v.regions, frame) == Some(k) ==> !w.taken[k]
            &&& index_of(v.regions, frame) != Some(k) ==> w.taken[k] == v.taken[k]
            &&& index_of(v.regions, frame) is None ==> w == v
        }),
{
}

/// The number of frames that are taken is one more after a free one was taken, and one less
/// after a taken one was given back.
pub proof fn lemma_taken_counted(taken: Seq<bool>, i: int)
    requires
        0 <= i < taken.len(),
    ensures
        !taken[i] ==> taken_count(taken.update(i, true)) == taken_count(taken) + 1,
        taken[i] ==> taken_count(taken.update(i, false)) == taken_count(taken) - 1,
    decreases taken.len(),
{
    let front = taken.drop_last();
    let up = taken.update(i, true);
    let down = taken.update(i, false);
    if i < front.len() {
        lemma_taken_counted(front, i);
        assert(up.drop_last() =~= front.update(i, true));
        assert(down.drop_last() =~= front.update(i, false));
    } else {
        assert(up.drop_last() =~= front);
        assert(down.drop_last() =~= front);
    }
}

/// Frames that are asked for together were free, are taken afterwards, and follow each other in
/// memory, below the address that was given; no other frame is touched.
pub proof fn lemma_run_given(v: FrameView, after: FrameView, n: int, max: u64, first: u64, k: int)
    requires
        run_allocated(v, after, n, max, Some(first)),
        regions_wf(v.regions),
        total(v.regions) == v.taken.len(),
        0 < n,
        0 <= k < v.taken.len(),
    ensures
        ({
            let s = find_run(v, 0, n, max)->0;
            &&& find_run(v, 0, n, max) is Some
            &&& frame_of(v.regions, s) == Some(first)
            &&& first + n * 4096 <= max + 1
            &&& 0 <= s && s + n <= v.taken.len()
            &&& s <= k < s + n ==> !v.taken[k] && after.taken[k] && frame_of(v.regions, k) == Some(
                (first + (k - s) * 4096) as u64,
            )
            &&& !(s <= k < s + n) ==> after.taken[k] == v.taken[k]
            &&& after.regions == v.regions
        }),
{
    let s = find_run(v, 0, n, max)->0;
    lemma_run_was_free(v, 0, n, max);
    lemma_run_in_place(v, n, max, s, 0);
    if s <= k < s + n {
        lemma_run_in_place(v, n, max, s, k - s);
        assert(!v.taken[k]);
    }
}

/// Frames are refused only where no region has enough that are free, follow each other and lie
/// low enough.
pub proof fn lemma_run_refused(v: FrameView, k0: int, n: int, max: u64, k: int, s: int)
    requires
        find_run(v, k0, n, max) is None,
        0 <= k0 <= k < v.regions.len(),
        0 < n <= room(v.regions[k], max),
        total(v.regions.take(k)) <= s,
        s + n <= total(v.regions.take(k)) + room(v.regions[k], max),
    ensures
        !run_free(v.taken, s, n),
    decreases v.regions.len() - k0,
{
    if k0 < k {
        lemma_run_refused(v, k0 + 1, n, max, k, s);
    } else {
        let base = total(v.regions.take(k));
        let len = room(v.regions[k], max);
        let from = search_start(v.next, base, len, n);
        if s >= base + from {
            lemma_first_run_misses(v.taken, base + from, base + len - n + 1, n, s);
        } else {
            lemma_first_run_misses(v.taken, base, base + from, n, s);
        }
    }
}

proof fn lemma_first_run_misses(taken: Seq<bool>, lo: int, hi: int, n: int, s: int)
    requires
        first_run(taken, lo, hi, n) >= hi,
        lo <= s < hi,
    ensures
        !run_free(taken, s, n),
    decreases hi - lo,
{
    if lo < s {
        lemma_first_run_misses(taken, lo + 1, hi, n, s);
    }
}

/// A buffer has frames enough for its bytes, and none to spare.
pub proof fn lemma_buffer_large_enough(v: FrameView, after: FrameView, len: usize, max: u64, b: PhysBuf)
    requires
        buffer_made(v, after, len, max, Some(b)),
    ensures
        b.len == len,
        b.pages * 4096 >= len,
        b.pages * 4096 < len + 4096,
        len > 0,
{
    assert(page_count(len as int) * 4096 >= len);
}

/// A page is touched only where a byte of the memory lies on it.
pub proof fn lemma_pages_touched(addr: u64, size: u64, p: u64)
    requires
        addr + size <= 0x1_0000_0000_0000_0000,
        size > 0,
        pages_of(addr, size).has(p),
    ensures
        p % 4096 == 0,
        p < addr + size,
        addr < p + 4096,
{
}

/// Through the page of a device it can be read and written, past the cache, and no program is
/// run from there.
pub proof fn lemma_device_flags()
    ensures
        device_flags() & 1 != 0,
        device_flags() & 2 != 0,
        device_flags() & 4 == 0,
        device_flags() & 16 != 0,
        device_flags() & 0x8000_0000_0000_0000 != 0,
{
    assert(1u64 | 2u64 | 16u64 | 0x8000_0000_0000_0000u64 == 0x8000_0000_0000_0013u64
        && 0x8000_0000_0000_0013u64 & 1 != 0 && 0x8000_0000_0000_0013u64 & 2 != 0
        && 0x8000_0000_0000_0013u64 & 4 == 0 && 0x8000_0000_0000_0013u64 & 16 != 0
        && 0x8000_0000_0000_0013u64 & 0x8000_0000_0000_0000 != 0) by (bit_vector);
}

/// Whether a region lies in a part of the memory map that may be used.
pub open spec fn in_map(r: UsableRegion, map: Seq<MemoryRegion>) -> bool {
    exists|i: int|
        0 <= i < map.len() && (#[trigger] map[i]).usable && map[i].base <= r.first_frame
            && r.first_frame + r.frame_count * 4096 <= map[i].base + map[i].length
}

/// Nothing is managed that the memory map does not say may be used.
pub proof fn lemma_only_usable_managed(map: Seq<MemoryRegion>, storage: int, k: int)
    requires
        0 <= storage,
        forall|i: int| 0 <= i < map.len() ==> (#[trigger] map[i]).base + map[i].length <= u64::MAX,
        0 <= k < survey(map, storage).regions.len(),
    ensures
        in_map(survey(map, storage).regions[k], map),
    decreases map.len(),
{
    let front = map.drop_last();
    let s = survey(front, storage);
    let after = survey(map, storage);
    assert(map[map.len() - 1] == map.last());
    assert forall|i: int| 0 <= i < front.len() implies (#[trigger] front[i]).base + front[i].length
        <= u64::MAX by {
        assert(front[i] == map[i]);
    }
    if k < s.regions.len() {
        lemma_only_usable_managed(front, storage, k);
        let r = s.regions[k];
        let i = choose|i: int|
            0 <= i < front.len() && (#[trigger] front[i]).usable && front[i].base <= r.first_frame
                && r.first_frame + r.frame_count * 4096 <= front[i].base + front[i].length;
        assert(map[i] == front[i]);
        assert(after.regions[k] == r);
    }
}

/// All that may be used is managed, but for what holds the bitmap and for parts that are less
/// than a frame, as long as there is room for the list.
pub proof fn lemma_all_usable_managed(map: Seq<MemoryRegion>, storage: int, i: int)
    requires
        0 <= storage,
        0 <= i < map.len(),
        map[i].usable,
        map[i].length >= 4096,
        map[i].base + map[i].length <= u64::MAX,
        !survey(map, storage).full,
        survey(map, storage).host != Some(map[i].base),
    ensures
        survey(map, storage).regions.contains(
            UsableRegion {
                first_frame: map[i].base,
                frame_count: (map[i].length / 4096) as u64,
            },
        ),
    decreases map.len(),
{
    let front = map.drop_last();
    let s = survey(front, storage);
    let after = survey(map, storage);
    let r = UsableRegion { first_frame: map[i].base, frame_count: (map[i].length / 4096) as u64 };
    if i < front.len() {
        assert(front[i] == map[i]);
        assert(s.host is Some ==> after.host == s.host);
        if s.host == Some(map[i].base) {
            assert(after.host == s.host);
        }
        lemma_all_usable_managed(front, storage, i);
        let k = choose|k: int| 0 <= k < s.regions.len() && s.regions[k] == r;
        assert(after.regions[k] == r);
    } else {
        assert(after.regions[after.regions.len() - 1] == r);
    }
}

/// A map of memory without gaps from the first byte on has as much memory as its last part ends at.
pub proof fn lemma_memory_without_gaps(map: Seq<MemoryRegion>)
    requires
        map.len() > 0,
        map[0].base == 0,
        forall|i: int| 0 < i < map.len() ==> (#[trigger] map[i]).base == map[i - 1].base + map[i - 1].length,
    ensures
        mapped_memory(map) == map.last().base + map.last().length,
    decreases map.len(),
{
    let front = map.drop_last();
    if map.len() > 1 {
        assert forall|i: int| 0 < i < front.len() implies (#[trigger] front[i]).base == front[i - 1].base
            + front[i - 1].length by {
            assert(front[i] == map[i]);
            assert(front[i - 1] == map[i - 1]);
        }
        lemma_memory_without_gaps(front);
        assert(map[map.len() - 1].base == map[map.len() - 2].base + map[map.len() - 2].length);
    } else {
        assert(mapped_memory(front) == 0);
    }
}

} // verus!
