//! The pages of an address space, as they are mapped and unmapped one by one.

use crate::memory::bitmap::{frame_of, free_from, freed, BitmapFrameAllocator, FrameView};
use crate::proc::mem::{align_dn, align_up, down, power_of_two, up, PAGE};
use vstd::prelude::*;

verus! {

pub const PRESENT: u64 = 1;

pub const WRITABLE: u64 = 2;

pub const USER_ACCESSIBLE: u64 = 4;

pub const NO_CACHE: u64 = 16;

pub const NO_EXECUTE: u64 = 0x8000_0000_0000_0000;

/// The flags of a page of memory that programs may use.
pub open spec fn page_flags(user: bool, writable: bool, executable: bool) -> u64 {
    let a = if user {
        PRESENT | USER_ACCESSIBLE
    } else {
        PRESENT
    };
    let b = if writable {
        a | WRITABLE
    } else {
        a
    };
    if executable {
        b
    } else {
        b | NO_EXECUTE
    }
}

pub fn user_page_flags_with_access(
    user_accessible: bool,
    is_writable: bool,
    is_executable: bool,
) -> (r: u64)
    ensures
        r == page_flags(user_accessible, is_writable, is_executable),
{
    let mut flags: u64 = PRESENT;
    if user_accessible {
        flags = flags | USER_ACCESSIBLE;
    }
    if is_writable {
        flags = flags | WRITABLE;
    }
    if !is_executable {
        flags = flags | NO_EXECUTE;
    }
    flags
}

pub fn user_page_flags(is_writable: bool, is_executable: bool) -> (r: u64)
    ensures
        r == page_flags(true, is_writable, is_executable),
{
    user_page_flags_with_access(true, is_writable, is_executable)
}

/// Bit by bit, what the flags of a page say.
pub proof fn lemma_page_flags(user: bool, writable: bool, executable: bool)
    ensures
        ({
            let f = page_flags(user, writable, executable);
            &&& f & PRESENT != 0
            &&& (f & USER_ACCESSIBLE != 0) == user
            &&& (f & WRITABLE != 0) == writable
            &&& (f & NO_EXECUTE != 0) == !executable
        }),
{
    let f = page_flags(user, writable, executable);
    assert(f & 1 != 0 && (f & 4 != 0) == user && (f & 2 != 0) == writable && (f
        & 0x8000_0000_0000_0000 != 0) == !executable) by (bit_vector)
        requires
            f == ({
                let a = if user {
                    1u64 | 4u64
                } else {
                    1u64
                };
                let b = if writable {
                    a | 2u64
                } else {
                    a
                };
                if executable {
                    b
                } else {
                    b | 0x8000_0000_0000_0000u64
                }
            }),
    ;
}

/// Pages that are still to be handled: the next one, and how many there are.
#[derive(Debug, Clone, Copy, PartialEq, Eq, Structural)]
pub struct PageRun {
    pub next: u64,
    pub left: u64,
}

impl PageRun {
    pub open spec fn wf(self) -> bool {
        &&& self.next % 4096 == 0
        &&& self.next + self.left * 4096 <= 0x1_0000_0000_0000_0000
    }

    /// Whether the page at `p` is still to be handled.
    pub open spec fn has(self, p: u64) -> bool {
        self.next <= p < self.next + self.left * 4096 && p % 4096 == 0
    }
}

/// The pages that `size` bytes from `addr` on touch; one byte at least.
pub open spec fn pages_of(addr: u64, size: u64) -> PageRun {
    let last = if size == 0 {
        addr as int
    } else {
        addr + size - 1
    };
    PageRun { next: (addr - addr % 4096) as u64, left: (last / 4096 - addr as int / 4096 + 1) as u64 }
}

pub fn page_run(addr: u64, size: u64) -> (r: PageRun)
    requires
        addr + size <= 0x1_0000_0000_0000_0000,
    ensures
        r == pages_of(addr, size),
        r.wf(),
{
    let extra: u64 = if size == 0 {
        0
    } else {
        size - 1
    };
    let last: u64 = addr + extra;
    PageRun { next: addr - addr % PAGE, left: last / PAGE - addr / PAGE + 1 }
}

/// Every byte of memory lies on one of its pages.
pub proof fn lemma_pages_cover(addr: u64, size: u64, a: u64)
    requires
        addr + size <= 0x1_0000_0000_0000_0000,
        addr <= a < addr + size,
    ensures
        pages_of(addr, size).has((a - a % 4096) as u64),
{
}

/// Takes the next page out of a run.
pub fn next_page(run: &mut PageRun) -> (r: Option<u64>)
    requires
        old(run).wf(),
    ensures
        final(run).wf(),
        match r {
            Some(p) => {
                &&& old(run).left > 0
                &&& p == old(run).next
                &&& final(run).left == old(run).left - 1
                &&& forall|q: u64| #[trigger] final(run).has(q) == (old(run).has(q) && q != p)
            },
            None => old(run).left == 0 && *final(run) == *old(run),
        },
{
    if run.left == 0 {
        return None;
    }
    let p: u64 = run.next;
    run.left = run.left - 1;
    if run.left == 0 {
        run.next = 0;
    } else {
        run.next = p + PAGE;
    }
    Some(p)
}

/// What happened when a frame was to be mapped at a page.
#[derive(Debug, Clone, Copy, PartialEq, Eq, Structural)]
pub enum Mapped {
    /// It is mapped now.
    Done,
    /// It is not, since another frame is mapped there.
    Present,
    /// It is not, and nothing is mapped there.
    Failed,
}

/// What to do next for memory that is being given to a program.
#[derive(Debug, Clone, Copy, PartialEq, Eq, Structural)]
pub enum PageAction {
    /// Clear the frame and map it.
    MapFrame { page: u64, frame: u64, flags: u64 },
    /// Give the page, which is mapped, these flags.
    SetFlags { page: u64, flags: u64 },
    /// All pages are there.
    Finished,
    /// It could not be done.
    Refused,
}

/// Memory that is being given to a program.
#[derive(Debug, Clone, Copy, PartialEq, Eq, Structural)]
pub struct PageGrant {
    pub run: PageRun,
    pub flags: u64,
}

/// Begins to give a program memory.
pub fn alloc_pages(addr: u64, size: u64, is_writable: bool, is_executable: bool) -> (r: PageGrant)
    requires
        addr + size <= 0x1_0000_0000_0000_0000,
    ensures
        r.run.wf(),
        r == (PageGrant {
            run: pages_of(addr, size),
            flags: page_flags(true, is_writable, is_executable),
        }),
{
    PageGrant { run: page_run(addr, size), flags: user_page_flags(is_writable, is_executable) }
}

/// The next step: a free frame for the next page.
pub fn grant_next(grant: &mut PageGrant, frames: &mut BitmapFrameAllocator) -> (r: PageAction)
    requires
        old(grant).run.wf(),
        old(frames).wf(),
    ensures
        final(grant).run.wf(),
        final(grant).flags == old(grant).flags,
        final(frames).wf(),
        ({
            let g = *old(grant);
            let v = old(frames)@;
            if g.run.left == 0 {
                r == PageAction::Finished && *final(grant) == g && final(frames)@ == v
            } else {
                &&& final(grant).run.left == g.run.left - 1
                &&& forall|q: u64|
                    #[trigger] final(grant).run.has(q) == (g.run.has(q) && q != g.run.next)
                &&& match free_from(v.taken, v.next, 0) {
                    Some(i) => {
                        &&& frame_of(v.regions, i) matches Some(f) && r == (PageAction::MapFrame {
                            page: g.run.next,
                            frame: f,
                            flags: g.flags,
                        })
                        &&& final(frames)@ == (FrameView {
                            taken: v.taken.update(i, true),
                            next: i + 1,
                            ..v
                        })
                    },
                    None => r == PageAction::Refused && final(frames)@ == v,
                }
            }
        }),
{
    match next_page(&mut grant.run) {
        None => PageAction::Finished,
        Some(page) => match frames.allocate_frame() {
            Some(frame) => PageAction::MapFrame { page, frame, flags: grant.flags },
            None => PageAction::Refused,
        },
    }
}

/// What follows once it is known whether the frame could be mapped; `None` leads on to
/// the next page. A frame that was not used is given back.
pub fn grant_mapped(
    grant: &PageGrant,
    page: u64,
    frame: u64,
    mapped: Mapped,
    frames: &mut BitmapFrameAllocator,
) -> (r: Option<PageAction>)
    requires
        old(frames).wf(),
        frame % 4096 == 0,
    ensures
        final(frames).wf(),
        match mapped {
            Mapped::Done => r is None && final(frames)@ == old(frames)@,
            Mapped::Present => {
                &&& r == Some(PageAction::SetFlags { page, flags: grant.flags })
                &&& final(frames)@ == freed(old(frames)@, frame)
            },
            Mapped::Failed => {
                &&& r == Some(PageAction::Refused)
                &&& final(frames)@ == freed(old(frames)@, frame)
            },
        },
{
    match mapped {
        Mapped::Done => None,
        Mapped::Present => {
            frames.deallocate_frame(frame);
            Some(PageAction::SetFlags { page, flags: grant.flags })
        },
        Mapped::Failed => {
            frames.deallocate_frame(frame);
            Some(PageAction::Refused)
        },
    }
}

/// What follows once it is known whether the flags of a page could be changed.
pub fn grant_flags_set(changed: bool) -> (r: Option<PageAction>)
    ensures
        changed ==> r is None,
        !changed ==> r == Some(PageAction::Refused),
{
    if changed {
        None
    } else {
        Some(PageAction::Refused)
    }
}

/// A page was unmapped, if anything was mapped there: its frame is given back.
pub fn dealloc_page(unmapped: Option<u64>, frames: &mut BitmapFrameAllocator)
    requires
        old(frames).wf(),
        unmapped matches Some(f) ==> f % 4096 == 0,
    ensures
        final(frames).wf(),
        final(frames)@ == match unmapped {
            Some(f) => freed(old(frames)@, f),
            None => old(frames)@,
        },
{
    match unmapped {
        Some(f) => frames.deallocate_frame(f),
        None => {},
    }
}

/// Memory of the kernel that is being mapped for a program: from where, up to where, and
/// to where.
#[derive(Debug, Clone, Copy, PartialEq, Eq, Structural)]
pub struct BufferRun {
    pub src: u64,
    pub end: u64,
    pub dst: u64,
    pub flags: u64,
}

proof fn lemma_page_power()
    ensures
        power_of_two(PAGE),
{
    vstd::arithmetic::power2::lemma2_to64();
    assert(PAGE == vstd::arithmetic::power2::pow2(12));
}

/// Begins to map memory of the kernel; `None` if there is none to map.
pub fn map_kernel_buffer(
    kernel_ptr: u64,
    len: u64,
    user_va: u64,
    writable: bool,
    executable: bool,
) -> (r: Option<BufferRun>)
    requires
        kernel_ptr + len + 4095 <= u64::MAX,
    ensures
        match r {
            Some(b) => {
                &&& len > 0
                &&& b.src == down(kernel_ptr as int, 4096)
                &&& b.end == up(kernel_ptr + len, 4096)
                &&& b.dst == user_va
                &&& b.flags == page_flags(true, writable, executable)
            },
            None => len == 0,
        },
{
    if len == 0 {
        return None;
    }
    proof {
        lemma_page_power();
    }
    Some(
        BufferRun {
            src: align_dn(kernel_ptr, PAGE),
            end: align_up(kernel_ptr + len, PAGE),
            dst: user_va,
            flags: user_page_flags(writable, executable),
        },
    )
}

/// The next page of the kernel that is to be mapped, if one is left, and the page where
/// it goes.
pub fn buffer_next(run: &mut BufferRun) -> (r: Option<(u64, u64)>)
    requires
        old(run).src % 4096 == 0,
        old(run).end % 4096 == 0,
        old(run).src < old(run).end ==> old(run).dst + (old(run).end - old(run).src) <= u64::MAX,
    ensures
        final(run).src % 4096 == 0,
        final(run).end == old(run).end,
        final(run).flags == old(run).flags,
        final(run).src < final(run).end ==> final(run).dst + (final(run).end - final(run).src)
            <= u64::MAX,
        match r {
            Some(p) => {
                &&& old(run).src < old(run).end
                &&& p == (old(run).src, (old(run).dst - old(run).dst % 4096) as u64)
                &&& final(run).src == old(run).src + 4096
                &&& final(run).dst == old(run).dst + 4096
            },
            None => old(run).src >= old(run).end && *final(run) == *old(run),
        },
{
    if run.src >= run.end {
        return None;
    }
    let p: (u64, u64) = (run.src, run.dst - run.dst % PAGE);
    run.src = run.src + PAGE;
    run.dst = run.dst + PAGE;
    Some(p)
}

/// The flags of a page through which a device is reached.
pub open spec fn device_flags() -> u64 {
    PRESENT | WRITABLE | NO_CACHE | NO_EXECUTE
}

/// Begins to map the memory of a device: its frames, each of which goes to the page
/// `phys_to_virt` gives.
pub fn map_mmio(phys_addr: u64, size: u64) -> (r: PageGrant)
    requires
        phys_addr + size <= crate::memory::bitmap::PHYS_END,
    ensures
        r.run.wf(),
        r == (PageGrant { run: pages_of(phys_addr, size), flags: device_flags() }),
{
    PageGrant {
        run: page_run(phys_addr, size),
        flags: PRESENT | WRITABLE | NO_CACHE | NO_EXECUTE,
    }
}

/// Where all of physical memory is mapped for the kernel, the place of an address.
pub fn phys_to_virt(addr: u64, offset: u64) -> (r: u64)
    requires
        addr + offset <= u64::MAX,
    ensures
        r == addr + offset,
{
    addr + offset
}

} // verus!
