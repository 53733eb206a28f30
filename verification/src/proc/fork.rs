//! New processes from old ones, page faults, and the end of an address space.

use crate::bytes::to_vec;
use crate::proc::launch::{PidCounter, Resources};
use crate::proc::mem::{
    down, image_permissions, region_end, shared_at, MmapKind, MmapRegion, ElfRegion, PageFaultPlan,
    ProcMM, VmPermissions, PAGE,
};
use crate::proc::process::{FdEntry, ProcView, Process, ProcessState};
use crate::proc::signals::{no_alt_stack, no_signals, SignalAction, SignalAltStack, SignalSet};
use vstd::prelude::*;

verus! {

fn copy_actions(v: &Vec<SignalAction>) -> (r: Vec<SignalAction>)
    ensures
        r@ == v@,
{
    let mut out: Vec<SignalAction> = Vec::new();
    let mut i: usize = 0;
    while i < v.len()
        invariant
            i <= v@.len(),
            out@ == v@.take(i as int),
        decreases v@.len() - i,
    {
        out.push(v[i]);
        proof {
            assert(out@ =~= v@.take(i + 1));
        }
        i = i + 1;
    }
    proof {
        assert(out@ =~= v@);
    }
    out
}

fn copy_fds(v: &Vec<Option<FdEntry>>) -> (r: Vec<Option<FdEntry>>)
    ensures
        r@ == v@,
{
    let mut out: Vec<Option<FdEntry>> = Vec::new();
    let mut i: usize = 0;
    while i < v.len()
        invariant
            i <= v@.len(),
            out@ == v@.take(i as int),
        decreases v@.len() - i,
    {
        out.push(v[i]);
        proof {
            assert(out@ =~= v@.take(i + 1));
        }
        i = i + 1;
    }
    proof {
        assert(out@ =~= v@);
    }
    out
}

fn copy_ranges(v: &Vec<(u64, u64)>) -> (r: Vec<(u64, u64)>)
    ensures
        r@ == v@,
{
    let mut out: Vec<(u64, u64)> = Vec::new();
    let mut i: usize = 0;
    while i < v.len()
        invariant
            i <= v@.len(),
            out@ == v@.take(i as int),
        decreases v@.len() - i,
    {
        out.push(v[i]);
        proof {
            assert(out@ =~= v@.take(i + 1));
        }
        i = i + 1;
    }
    proof {
        assert(out@ =~= v@);
    }
    out
}

/// The heap of an address space, where it has one.
pub open spec fn heap_range(mm: &ProcMM) -> Seq<(u64, u64)> {
    if mm.mapped_heap_end > mm.heap_start {
        seq![(mm.heap_start, (mm.mapped_heap_end - mm.heap_start) as u64)]
    } else {
        Seq::<(u64, u64)>::empty()
    }
}

pub open spec fn mapping_ranges(rs: Seq<MmapRegion>) -> Seq<(u64, u64)> {
    rs.map_values(|r: MmapRegion| (r.base, r.len))
}

pub open spec fn image_ranges(rs: Seq<ElfRegion>) -> Seq<(u64, u64)> {
    rs.map_values(|r: ElfRegion| (r.base, r.len))
}

/// All that a process may have pages for.
pub open spec fn all_ranges(fixed: Seq<(u64, u64)>, mm: &ProcMM) -> Seq<(u64, u64)> {
    fixed + heap_range(mm) + mapping_ranges(mm.mmap_regions@) + image_ranges(mm.elf_regions@)
}

/// The last byte of a range that is not empty.
pub open spec fn last_byte(r: (u64, u64)) -> int {
    if r.0 + r.1 > u64::MAX {
        u64::MAX - 1
    } else {
        r.0 + r.1 - 1
    }
}

/// Whether the page at `a` holds bytes of range `r`.
pub open spec fn page_in(r: (u64, u64), a: u64) -> bool {
    r.1 > 0 && a % 4096 == 0 && down(r.0 as int, 4096) <= a <= last_byte(r)
}

/// Whether the page at `a` holds bytes of one of the ranges.
pub open spec fn page_wanted(rs: Seq<(u64, u64)>, a: u64) -> bool {
    exists|i: int| 0 <= i < rs.len() && page_in(#[trigger] rs[i], a)
}

pub open spec fn increasing(s: Seq<u64>) -> bool {
    forall|i: int, j: int| 0 <= i < j < s.len() ==> s[i] < s[j]
}

/// Puts `a` into an increasing list that may already hold it.
fn insert_page(pages: &mut Vec<u64>, a: u64)
    requires
        increasing(old(pages)@),
    ensures
        increasing(final(pages)@),
        forall|x: u64| final(pages)@.contains(x) <==> old(pages)@.contains(x) || x == a,
{
    let ghost before = pages@;
    let mut i: usize = pages.len();
    while i > 0 && pages[i - 1] > a
        invariant
            i <= pages@.len(),
            pages@ == before,
            increasing(before),
            forall|k: int| i <= k < before.len() ==> before[k] > a,
        decreases i,
    {
        i = i - 1;
    }
    if i > 0 && pages[i - 1] == a {
        proof {
            assert(before.contains(a)) by {
                assert(before[i - 1] == a);
            }
        }
        return ;
    }
    proof {
        if i > 0 {
            assert forall|k: int| 0 <= k < i implies before[k] < a by {
                if k < i - 1 {
                    assert(before[k] < before[i - 1]);
                }
            }
        }
    }
    pages.insert(i, a);
    proof {
        let after = pages@;
        assert(after =~= before.insert(i as int, a));
        assert forall|x: u64| after.contains(x) <==> before.contains(x) || x == a by {
            if after.contains(x) {
                let k = choose|k: int| 0 <= k < after.len() && after[k] == x;
                if k < i {
                    assert(before[k] == x);
                } else if k > i {
                    assert(before[k - 1] == x);
                }
            }
            if before.contains(x) {
                let k = choose|k: int| 0 <= k < before.len() && before[k] == x;
                if k < i {
                    assert(after[k] == x);
                } else {
                    assert(after[k + 1] == x);
                }
            }
            if x == a {
                assert(after[i as int] == a);
            }
        }
    }
}

fn insert_range(pages: &mut Vec<u64>, r: (u64, u64))
    requires
        increasing(old(pages)@),
    ensures
        increasing(final(pages)@),
        forall|x: u64|
            #![auto]
            final(pages)@.contains(x) <==> old(pages)@.contains(x) || page_in(r, x),
{
    if r.1 == 0 {
        return ;
    }
    let ghost before = pages@;
    let first: u64 = r.0 - r.0 % PAGE;
    let end: u64 = region_end(r.0, r.1);
    let last: u64 = end - 1;
    let top: u64 = last - last % PAGE;
    let mut a: u64 = first;
    while a <= top
        invariant_except_break
            a <= top,
            forall|x: u64|
                #![auto]
                pages@.contains(x) <==> before.contains(x) || (page_in(r, x) && x < a),
        invariant
            a % 4096 == 0,
            first <= a,
            first % 4096 == 0,
            top % 4096 == 0,
            top <= last < top + 4096,
            last == last_byte(r),
            r.1 > 0,
            first == down(r.0 as int, 4096),
            increasing(pages@),
        ensures
            forall|x: u64|
                #![auto]
                pages@.contains(x) <==> before.contains(x) || page_in(r, x),
        decreases top - a,
    {
        let ghost prior = pages@;
        insert_page(pages, a);
        proof {
            assert(page_in(r, a));
            assert forall|x: u64|
                #![auto]
                pages@.contains(x) <==> before.contains(x) || (page_in(r, x) && x <= a) by {
                assert(prior.contains(x) <==> before.contains(x) || (page_in(r, x) && x < a));
            }
        }
        if a == top {
            proof {
                assert forall|x: u64| page_in(r, x) implies x <= top by {
                    assert(x <= last);
                }
            }
            break;
        }
        proof {
            assert forall|x: u64| page_in(r, x) && x > a implies x >= a + 4096 by {
                assert(x % 4096 == 0);
            }
        }
        a = a + PAGE;
    }
}

/// Collects what a process may have pages for.
fn collect_ranges(fixed: &Vec<(u64, u64)>, mm: &ProcMM) -> (r: Vec<(u64, u64)>)
    ensures
        r@ == all_ranges(fixed@, mm),
{
    let mut out: Vec<(u64, u64)> = copy_ranges(fixed);
    if mm.mapped_heap_end > mm.heap_start {
        out.push((mm.heap_start, mm.mapped_heap_end - mm.heap_start));
    }
    let ghost base = fixed@ + heap_range(mm);
    proof {
        assert(out@ =~= base);
    }
    let mut i: usize = 0;
    while i < mm.mmap_regions.len()
        invariant
            i <= mm.mmap_regions@.len(),
            out@ =~= base + mapping_ranges(mm.mmap_regions@).take(i as int),
        decreases mm.mmap_regions@.len() - i,
    {
        out.push((mm.mmap_regions[i].base, mm.mmap_regions[i].len));
        i = i + 1;
    }
    let ghost more = base + mapping_ranges(mm.mmap_regions@);
    proof {
        assert(out@ =~= more);
    }
    let mut k: usize = 0;
    while k < mm.elf_regions.len()
        invariant
            k <= mm.elf_regions@.len(),
            out@ =~= more + image_ranges(mm.elf_regions@).take(k as int),
        decreases mm.elf_regions@.len() - k,
    {
        out.push((mm.elf_regions[k].base, mm.elf_regions[k].len));
        k = k + 1;
    }
    proof {
        assert(out@ =~= all_ranges(fixed@, mm));
    }
    out
}

/// A page that a child takes over: as its own copy, or shared.
#[derive(Debug, Clone, Copy, PartialEq, Eq, Structural)]
pub struct PageCopy {
    pub addr: u64,
    pub shared: bool,
}

pub open spec fn addresses(s: Seq<PageCopy>) -> Seq<u64> {
    s.map_values(|p: PageCopy| p.addr)
}

/// The frames of a parent's pages that a child asks for, each once and in order; only
/// those that are present are copied.
pub fn pages_to_copy(fixed: &Vec<(u64, u64)>, mm: &ProcMM) -> (r: Vec<PageCopy>)
    ensures
        increasing(addresses(r@)),
        forall|a: u64|
            #![auto]
            addresses(r@).contains(a) <==> page_wanted(all_ranges(fixed@, mm), a),
        forall|i: int|
            0 <= i < r@.len() ==> (#[trigger] r@[i]).shared == shared_at(mm.mmap_regions@, r@[i].addr),
{
    let ranges: Vec<(u64, u64)> = collect_ranges(fixed, mm);
    let ghost rs = ranges@;
    let mut pages: Vec<u64> = Vec::new();
    let mut i: usize = 0;
    while i < ranges.len()
        invariant
            ranges@ == rs,
            i <= rs.len(),
            increasing(pages@),
            forall|a: u64| #![auto] pages@.contains(a) <==> page_wanted(rs.take(i as int), a),
        decreases rs.len() - i,
    {
        let ghost prior = pages@;
        insert_range(&mut pages, ranges[i]);
        proof {
            assert forall|a: u64|
                #![auto]
                pages@.contains(a) <==> page_wanted(rs.take(i + 1), a) by {
                let now = rs.take(i + 1);
                let was = rs.take(i as int);
                if page_wanted(was, a) {
                    let k = choose|k: int| 0 <= k < was.len() && page_in(#[trigger] was[k], a);
                    assert(page_in(now[k], a));
                }
                if page_in(rs[i as int], a) {
                    assert(page_in(now[i as int], a));
                }
                if page_wanted(now, a) {
                    let k = choose|k: int| 0 <= k < now.len() && page_in(#[trigger] now[k], a);
                    if k < i {
                        assert(page_in(was[k], a));
                    }
                }
                assert(prior.contains(a) <==> page_wanted(was, a));
            }
        }
        i = i + 1;
    }
    proof {
        assert(rs.take(i as int) =~= rs);
    }
    let mut out: Vec<PageCopy> = Vec::new();
    let mut k: usize = 0;
    while k < pages.len()
        invariant
            k <= pages@.len(),
            addresses(out@) == pages@.take(k as int),
            forall|i: int|
                0 <= i < out@.len() ==> (#[trigger] out@[i]).shared == shared_at(
                    mm.mmap_regions@,
                    out@[i].addr,
                ),
        decreases pages@.len() - k,
    {
        let addr: u64 = pages[k];
        let shared: bool = mm.is_shared_page(addr);
        let ghost prior = out@;
        out.push(PageCopy { addr, shared });
        proof {
            assert(addresses(out@) =~= addresses(prior).push(addr));
            assert(pages@.take(k + 1) =~= pages@.take(k as int).push(addr));
        }
        k = k + 1;
    }
    proof {
        assert(addresses(out@) =~= pages@);
    }
    out
}

/// A copy of an address space.
pub fn copy_memory(mm: &ProcMM) -> (r: ProcMM)
    ensures
        r.heap_start == mm.heap_start,
        r.brk_cur == mm.brk_cur,
        r.mapped_heap_end == mm.mapped_heap_end,
        r.mmap_base_hint == mm.mmap_base_hint,
        r.mmap_regions@ == mm.mmap_regions@,
        r.elf_regions@ == mm.elf_regions@,
{
    let mut maps: Vec<MmapRegion> = Vec::new();
    let mut i: usize = 0;
    while i < mm.mmap_regions.len()
        invariant
            i <= mm.mmap_regions@.len(),
            maps@ =~= mm.mmap_regions@.take(i as int),
        decreases mm.mmap_regions@.len() - i,
    {
        maps.push(mm.mmap_regions[i]);
        i = i + 1;
    }
    let mut parts: Vec<ElfRegion> = Vec::new();
    let mut k: usize = 0;
    while k < mm.elf_regions.len()
        invariant
            k <= mm.elf_regions@.len(),
            parts@ =~= mm.elf_regions@.take(k as int),
        decreases mm.elf_regions@.len() - k,
    {
        parts.push(mm.elf_regions[k]);
        k = k + 1;
    }
    proof {
        assert(maps@ =~= mm.mmap_regions@);
        assert(parts@ =~= mm.elf_regions@);
    }
    ProcMM {
        heap_start: mm.heap_start,
        brk_cur: mm.brk_cur,
        mapped_heap_end: mm.mapped_heap_end,
        mmap_base_hint: mm.mmap_base_hint,
        mmap_regions: maps,
        elf_regions: parts,
    }
}

/// The child of process `p`.
pub open spec fn child(p: ProcView, pid: u16, fs_base: u64, own: Resources) -> ProcView {
    ProcView {
        pid,
        tgid: pid,
        is_thread: false,
        parent_pid: p.pid,
        state: ProcessState::Runnable,
        fs_base,
        kernel_rsp: own.kernel_rsp,
        page_table: own.page_table,
        proc_mm: own.proc_mm,
        exit_code: 0,
        wait_status: 0,
        wait_reported: false,
        preempt_frame: 0,
        pending_io: false,
        pending_signals: 0,
        sigsuspend_saved_mask: no_signals(),
        in_sigsuspend: false,
        wait_token: None,
        wait_deadline_ns: None,
        wake_reason: None,
        ..p
    }
}

/// A thread of process `p`: it shares the address space, has its own stack and its
/// own thread-local memory, and owns no pages.
pub open spec fn thread(p: ProcView, pid: u16, stack: u64, tls: u64, kernel_rsp: u64) -> ProcView {
    ProcView {
        tgid: p.tgid,
        is_thread: true,
        parent_pid: p.parent_pid,
        stack,
        stack_size: 0,
        addr_size_vec: Seq::empty(),
        signal_alt_stack: no_alt_stack(),
        ..child(
            p,
            pid,
            tls,
            Resources { page_table: p.page_table, kernel_rsp, proc_mm: p.proc_mm },
        )
    }
}

impl Process {
    /// Makes a child. `live_fs_base` is the base of the thread-local memory that the
    /// parent has in its registers.
    pub fn fork(&mut self, live_fs_base: u64, own: Resources, pids: &mut PidCounter) -> (r: Process)
        ensures
            final(self)@ == (ProcView { fs_base: live_fs_base, ..old(self)@ }),
            r@ == child(old(self)@, old(pids).next, live_fs_base, own),
            final(pids).next == if old(pids).next == u16::MAX {
                0
            } else {
                (old(pids).next + 1) as u16
            },
    {
        self.fs_base = live_fs_base;
        let pid: u16 = pids.take();
        Process {
            pid,
            tgid: pid,
            is_thread: false,
            parent_pid: self.pid,
            pgid: self.pgid,
            sid: self.sid,
            state: ProcessState::Runnable,
            stack: self.stack,
            stack_size: self.stack_size,
            entry_point: self.entry_point,
            fs_base: live_fs_base,
            gs_base: self.gs_base,
            kernel_rsp: own.kernel_rsp,
            page_table: own.page_table,
            proc_mm: own.proc_mm,
            addr_size_vec: copy_ranges(&self.addr_size_vec),
            exe_path: to_vec(&self.exe_path),
            comm: to_vec(&self.comm),
            pwd: to_vec(&self.pwd),
            fd_table: copy_fds(&self.fd_table),
            umask: self.umask,
            exit_code: 0,
            wait_status: 0,
            wait_reported: false,
            preempt_frame: 0,
            pending_io: false,
            signal_actions: copy_actions(&self.signal_actions),
            signal_mask: self.signal_mask,
            pending_signals: 0,
            sigsuspend_saved_mask: SignalSet { low: 0, high: 0 },
            in_sigsuspend: false,
            signal_alt_stack: self.signal_alt_stack,
            wait_token: None,
            wait_deadline_ns: None,
            wake_reason: None,
        }
    }

    /// Makes a thread.
    pub fn clone_thread(&self, child_stack: u64, tls: u64, kernel_rsp: u64, pids: &mut PidCounter) -> (r:
        Process)
        ensures
            r@ == thread(self@, old(pids).next, child_stack, tls, kernel_rsp),
            final(pids).next == if old(pids).next == u16::MAX {
                0
            } else {
                (old(pids).next + 1) as u16
            },
    {
        let pid: u16 = pids.take();
        Process {
            pid,
            tgid: self.tgid,
            is_thread: true,
            parent_pid: self.parent_pid,
            pgid: self.pgid,
            sid: self.sid,
            state: ProcessState::Runnable,
            stack: child_stack,
            stack_size: 0,
            entry_point: self.entry_point,
            fs_base: tls,
            gs_base: self.gs_base,
            kernel_rsp,
            page_table: self.page_table,
            proc_mm: self.proc_mm,
            addr_size_vec: Vec::new(),
            exe_path: to_vec(&self.exe_path),
            comm: to_vec(&self.comm),
            pwd: to_vec(&self.pwd),
            fd_table: copy_fds(&self.fd_table),
            umask: self.umask,
            exit_code: 0,
            wait_status: 0,
            wait_reported: false,
            preempt_frame: 0,
            pending_io: false,
            signal_actions: copy_actions(&self.signal_actions),
            signal_mask: self.signal_mask,
            pending_signals: 0,
            sigsuspend_saved_mask: SignalSet { low: 0, high: 0 },
            in_sigsuspend: false,
            signal_alt_stack: SignalAltStack::default(),
            wait_token: None,
            wait_deadline_ns: None,
            wake_reason: None,
        }
    }
}

/// Mappings of the kind `shared`, or of the others.
pub open spec fn kind_ranges(rs: Seq<MmapRegion>, shared: bool) -> Seq<(u64, u64)>
    decreases rs.len(),
{
    if rs.len() == 0 {
        Seq::<(u64, u64)>::empty()
    } else {
        let rest = kind_ranges(rs.drop_last(), shared);
        if (rs.last().kind == MmapKind::Shared) == shared {
            rest.push((rs.last().base, rs.last().len))
        } else {
            rest
        }
    }
}

/// What a process gives back when it ends: the ranges whose pages are its own, and
/// those whose pages others may still use.
pub fn cleanup(fixed: &Vec<(u64, u64)>, mm: &ProcMM) -> (r: (Vec<(u64, u64)>, Vec<(u64, u64)>))
    ensures
        r.0@ == fixed@ + heap_range(mm) + kind_ranges(mm.mmap_regions@, false) + image_ranges(
            mm.elf_regions@,
        ),
        r.1@ == kind_ranges(mm.mmap_regions@, true),
{
    let mut owned: Vec<(u64, u64)> = copy_ranges(fixed);
    let mut shared: Vec<(u64, u64)> = Vec::new();
    if mm.mapped_heap_end > mm.heap_start {
        owned.push((mm.heap_start, mm.mapped_heap_end - mm.heap_start));
    }
    let ghost base = fixed@ + heap_range(mm);
    let ghost rs = mm.mmap_regions@;
    let mut i: usize = 0;
    proof {
        assert(owned@ =~= base + kind_ranges(rs.take(0), false));
        assert(shared@ =~= kind_ranges(rs.take(0), true));
    }
    while i < mm.mmap_regions.len()
        invariant
            rs == mm.mmap_regions@,
            i <= rs.len(),
            owned@ == base + kind_ranges(rs.take(i as int), false),
            shared@ == kind_ranges(rs.take(i as int), true),
        decreases rs.len() - i,
    {
        let region: MmapRegion = mm.mmap_regions[i];
        proof {
            assert(rs.take(i + 1).drop_last() =~= rs.take(i as int));
            assert(rs.take(i + 1).last() == region);
        }
        if region.kind == MmapKind::Shared {
            shared.push((region.base, region.len));
        } else {
            owned.push((region.base, region.len));
        }
        proof {
            assert(owned@ =~= base + kind_ranges(rs.take(i + 1), false));
        }
        i = i + 1;
    }
    let ghost more = base + kind_ranges(rs, false);
    proof {
        assert(rs.take(i as int) =~= rs);
    }
    let mut k: usize = 0;
    while k < mm.elf_regions.len()
        invariant
            k <= mm.elf_regions@.len(),
            owned@ =~= more + image_ranges(mm.elf_regions@).take(k as int),
        decreases mm.elf_regions@.len() - k,
    {
        owned.push((mm.elf_regions[k].base, mm.elf_regions[k].len));
        k = k + 1;
    }
    proof {
        assert(owned@ =~= more + image_ranges(mm.elf_regions@));
    }
    (owned, shared)
}

/// What became of a page fault.
#[derive(Debug, Clone, Copy, PartialEq, Eq, Structural)]
pub enum PageFaultResolution {
    Resolved,
    Invalid,
    BusError,
}

/// What a page fault asks for.
pub enum FaultStep {
    /// The fault is dealt with.
    Done(PageFaultResolution),
    /// A zeroed frame is to be filled and mapped at `page`.
    Fill { page: u64, plan: PageFaultPlan },
}

/// Starts to deal with a page fault at `fault_addr`; `mapped` says that the page is
/// there already.
pub fn begin_page_fault(mm: &ProcMM, fault_addr: u64, write: bool, execute: bool, mapped: bool) -> (r:
    FaultStep)
    ensures
        ({
            let page = down(fault_addr as int, 4096) as u64;
            match r {
                FaultStep::Done(PageFaultResolution::Resolved) => mapped,
                FaultStep::Done(d) => {
                    &&& d == PageFaultResolution::Invalid
                    &&& !mapped
                    &&& !fault_allowed(mm, page, write, execute)
                },
                FaultStep::Fill { page: at, plan } => {
                    &&& !mapped
                    &&& at == page
                    &&& fault_allowed(mm, page, write, execute)
                    &&& plan.fragments@ == fault_fragments(mm, page)
                    &&& plan.permissions == fault_permissions(mm, page)
                },
            }
        }),
{
    if mapped {
        return FaultStep::Done(PageFaultResolution::Resolved);
    }
    let page: u64 = fault_addr - fault_addr % PAGE;
    match mm.page_fault_plan(page) {
        None => FaultStep::Done(PageFaultResolution::Invalid),
        Some(plan) => {
            if !plan.permissions.allows(write, execute) {
                return FaultStep::Done(PageFaultResolution::Invalid);
            }
            FaultStep::Fill { page, plan }
        },
    }
}

/// Whether the page belongs to an anonymous mapping or to the program.
pub open spec fn fault_backed(mm: &ProcMM, page: u64) -> bool {
    ||| crate::proc::mem::anonymous_at(mm.mmap_regions@, page) is Some
    ||| {
        &&& page + 4096 <= u64::MAX
        &&& crate::proc::mem::image_meets(mm.elf_regions@, page)
        &&& forall|i: int|
            0 <= i < mm.elf_regions@.len() ==> !crate::proc::mem::beyond(
                #[trigger] mm.elf_regions@[i],
                page,
            )
    }
}

pub open spec fn fault_permissions(mm: &ProcMM, page: u64) -> VmPermissions {
    match crate::proc::mem::anonymous_at(mm.mmap_regions@, page) {
        Some(m) => m.permissions,
        None => image_permissions(mm.elf_regions@, page),
    }
}

pub open spec fn fault_fragments(mm: &ProcMM, page: u64) -> Seq<crate::proc::mem::ElfPageFragment> {
    match crate::proc::mem::anonymous_at(mm.mmap_regions@, page) {
        Some(m) => Seq::empty(),
        None => crate::proc::mem::fragments(mm.elf_regions@, page),
    }
}

/// Whether an access to a page may be made good.
pub open spec fn fault_allowed(mm: &ProcMM, page: u64, write: bool, execute: bool) -> bool {
    fault_backed(mm, page) && if execute {
        fault_permissions(mm, page).execute
    } else if write {
        fault_permissions(mm, page).write
    } else {
        fault_permissions(mm, page).read
    }
}

/// Finishes a page fault: whether a frame was found and filled, whether the page came
/// to be there meanwhile, and whether the frame was mapped. The second result says
/// that the frame is to be given back.
pub fn end_page_fault(has_frame: bool, filled: bool, mapped_meanwhile: bool, map_done: bool) -> (r: (
    PageFaultResolution,
    bool,
))
    ensures
        r.0 == if has_frame && filled && (mapped_meanwhile || map_done) {
            PageFaultResolution::Resolved
        } else {
            PageFaultResolution::BusError
        },
        r.1 == (has_frame && (!filled || mapped_meanwhile || !map_done)),
{
    if !has_frame {
        return (PageFaultResolution::BusError, false);
    }
    if !filled {
        return (PageFaultResolution::BusError, true);
    }
    if mapped_meanwhile {
        return (PageFaultResolution::Resolved, true);
    }
    if !map_done {
        return (PageFaultResolution::BusError, true);
    }
    (PageFaultResolution::Resolved, false)
}

} // verus!
