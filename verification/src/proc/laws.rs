//! What holds of processes whatever they do: what a child has of its parent, what a
//! page of a program holds, and what is left of a process that ends.

use crate::proc::elf::{is_loaded, segment_region, segment_regions, segment_valid, Elf64Phdr};
use crate::proc::fork::{child, thread};
use crate::proc::launch::Resources;
use crate::proc::mem::{
    beyond, down, fragment, fragments, has_fragment, image_permissions, up, ElfPageFragment, ElfRegion,
};
use crate::proc::process::{slot_of, ProcView, ProcessState};
use vstd::prelude::*;

verus! {

/// A child has the descriptors of its parent: each one is open in the child exactly where
/// it is in the parent, for the same file and with the same flags.
pub proof fn lemma_child_has_descriptors(p: ProcView, pid: u16, fs_base: u64, own: Resources, fd: int)
    ensures
        slot_of(child(p, pid, fs_base, own).fd_table, fd) == slot_of(p.fd_table, fd),
{
}

/// A child is a process of its own, with its own number, memory and page table, that its
/// parent waits for; where it is, who it works for, and what it does about signals it has
/// from its parent. No signal waits for it, and it waits for nothing.
pub proof fn lemma_child_inherits(p: ProcView, pid: u16, fs_base: u64, own: Resources)
    ensures
        ({
            let c = child(p, pid, fs_base, own);
            &&& c.pid == pid
            &&& c.tgid == pid
            &&& !c.is_thread
            &&& c.parent_pid == p.pid
            &&& c.state == ProcessState::Runnable
            &&& c.page_table == own.page_table
            &&& c.kernel_rsp == own.kernel_rsp
            &&& c.proc_mm == own.proc_mm
            &&& c.fs_base == fs_base
            &&& c.gs_base == p.gs_base
            &&& c.pgid == p.pgid
            &&& c.sid == p.sid
            &&& c.stack == p.stack
            &&& c.stack_size == p.stack_size
            &&& c.entry_point == p.entry_point
            &&& c.addr_size_vec == p.addr_size_vec
            &&& c.exe_path == p.exe_path
            &&& c.comm == p.comm
            &&& c.pwd == p.pwd
            &&& c.umask == p.umask
            &&& c.signal_actions == p.signal_actions
            &&& c.signal_mask == p.signal_mask
            &&& c.signal_alt_stack == p.signal_alt_stack
            &&& c.pending_signals == 0
            &&& !c.in_sigsuspend
            &&& !c.pending_io
            &&& !c.wait_reported
            &&& c.exit_code == 0
            &&& c.wait_status == 0
            &&& c.preempt_frame == 0
            &&& c.sigsuspend_saved_mask.low == 0
            &&& c.sigsuspend_saved_mask.high == 0
            &&& c.wait_token is None
            &&& c.wait_deadline_ns is None
            &&& c.wake_reason is None
        }),
{
}

/// A thread is of the group of the process that made it, has the same parent, and works in
/// the same memory with the same descriptors. Its number, its stack and its thread-local
/// memory are its own, and it has no pages to give back.
pub proof fn lemma_thread_shares(p: ProcView, pid: u16, stack: u64, tls: u64, kernel_rsp: u64, fd: int)
    ensures
        ({
            let c = thread(p, pid, stack, tls, kernel_rsp);
            &&& slot_of(c.fd_table, fd) == slot_of(p.fd_table, fd)
            &&& c.pid == pid
            &&& c.tgid == p.tgid
            &&& c.is_thread
            &&& c.parent_pid == p.parent_pid
            &&& c.state == ProcessState::Runnable
            &&& c.page_table == p.page_table
            &&& c.proc_mm == p.proc_mm
            &&& c.kernel_rsp == kernel_rsp
            &&& c.stack == stack
            &&& c.stack_size == 0
            &&& c.fs_base == tls
            &&& c.gs_base == p.gs_base
            &&& c.addr_size_vec.len() == 0
            &&& c.entry_point == p.entry_point
            &&& c.pgid == p.pgid
            &&& c.sid == p.sid
            &&& c.exe_path == p.exe_path
            &&& c.comm == p.comm
            &&& c.pwd == p.pwd
            &&& c.umask == p.umask
            &&& c.signal_actions == p.signal_actions
            &&& c.signal_mask == p.signal_mask
            &&& c.signal_alt_stack.flags == 2
            &&& c.signal_alt_stack.sp == 0
            &&& c.signal_alt_stack.size == 0
            &&& c.pending_signals == 0
            &&& !c.in_sigsuspend
            &&& !c.pending_io
            &&& !c.wait_reported
            &&& c.exit_code == 0
            &&& c.wait_status == 0
            &&& c.preempt_frame == 0
            &&& c.wait_token is None
            &&& c.wait_deadline_ns is None
            &&& c.wake_reason is None
        }),
{
}

/// Whether a fragment puts byte `at` of file `file` at address `a`.
pub open spec fn puts(f: ElfPageFragment, page: u64, file: usize, a: int, at: int) -> bool {
    &&& f.file == file
    &&& page + f.page_offset <= a < page + f.page_offset + f.len
    &&& f.file_offset + (a - (page + f.page_offset)) == at
}

/// Whether all that a fragment puts on a page comes from where region `r` has it in the
/// file, and lies on the page and in the region.
pub open spec fn comes_from(f: ElfPageFragment, page: u64, r: ElfRegion) -> bool {
    &&& f.file == r.file
    &&& 0 < f.len
    &&& f.page_offset + f.len <= 4096
    &&& r.base <= page + f.page_offset
    &&& page + f.page_offset + f.len <= r.base + r.len
    &&& r.file_base <= page + f.page_offset
    &&& page + f.page_offset + f.len <= r.file_end
    &&& forall|j: int|
        0 <= j < f.len ==> #[trigger] (f.file_offset + j) - (page + f.page_offset + j)
            == r.file_offset - r.file_base
}

proof fn lemma_one_fragment(r: ElfRegion, page: u64)
    requires
        page + 4096 <= u64::MAX,
        has_fragment(r, page),
        !beyond(r, page),
    ensures
        comes_from(fragment(r, page), page, r),
{
}

/// What is copied to a page comes from a region of the image that the page meets: each
/// byte has the same distance from the start of the region in memory and in the file.
pub proof fn lemma_fragment_source(rs: Seq<ElfRegion>, page: u64, k: int)
    requires
        page + 4096 <= u64::MAX,
        forall|i: int| 0 <= i < rs.len() ==> !beyond(#[trigger] rs[i], page),
        0 <= k < fragments(rs, page).len(),
    ensures
        exists|i: int| 0 <= i < rs.len() && comes_from(fragments(rs, page)[k], page, #[trigger] rs[i]),
    decreases rs.len(),
{
    let front = rs.drop_last();
    let last = rs.last();
    assert(rs[rs.len() - 1] == last);
    assert forall|i: int| 0 <= i < front.len() implies !beyond(#[trigger] front[i], page) by {
        assert(front[i] == rs[i]);
    }
    if k < fragments(front, page).len() {
        lemma_fragment_source(front, page, k);
        let i = choose|i: int|
            0 <= i < front.len() && comes_from(fragments(front, page)[k], page, #[trigger] front[i]);
        assert(rs[i] == front[i]);
    } else {
        lemma_one_fragment(last, page);
    }
}

/// Every byte of a region that is in the file is copied: an address on the page that the
/// region has from the file gets the byte with the same distance from the start.
pub proof fn lemma_bytes_placed(rs: Seq<ElfRegion>, page: u64, i: int, a: int)
    requires
        page + 4096 <= u64::MAX,
        forall|k: int| 0 <= k < rs.len() ==> !beyond(#[trigger] rs[k], page),
        0 <= i < rs.len(),
        page <= a < page + 4096,
        rs[i].base <= a < rs[i].base + rs[i].len,
        rs[i].base + rs[i].len <= u64::MAX,
        rs[i].file_base <= a < rs[i].file_end,
    ensures
        exists|k: int|
            0 <= k < fragments(rs, page).len() && puts(
                #[trigger] fragments(rs, page)[k],
                page,
                rs[i].file,
                a,
                rs[i].file_offset + (a - rs[i].file_base),
            ),
    decreases rs.len(),
{
    let front = rs.drop_last();
    let all = fragments(rs, page);
    let part = fragments(front, page);
    assert forall|k: int| 0 <= k < front.len() implies !beyond(#[trigger] front[k], page) by {
        assert(front[k] == rs[k]);
    }
    if i < front.len() {
        lemma_bytes_placed(front, page, i, a);
        let k = choose|k: int|
            0 <= k < part.len() && puts(
                #[trigger] part[k],
                page,
                front[i].file,
                a,
                front[i].file_offset + (a - front[i].file_base),
            );
        assert(all[k] == part[k]);
    } else {
        let r = rs[i];
        assert(rs.last() == r);
        assert(has_fragment(r, page));
        assert(all[all.len() - 1] == fragment(r, page));
        assert(puts(all[all.len() - 1], page, r.file, a, r.file_offset + (a - r.file_base)));
    }
}

/// Whether a region holds a segment: it covers all its memory in whole pages, permits what
/// the segment permits, and ends where the bytes of the segment end in the file; in memory
/// and in the file these bytes have the same place.
pub open spec fn holds_segment(r: ElfRegion, p: Elf64Phdr, bias: u64, file: usize) -> bool {
    &&& r.file == file
    &&& r.base % 4096 == 0
    &&& (r.base + r.len) % 4096 == 0
    &&& r.base <= bias + p.p_vaddr < r.base + 4096
    &&& bias + p.p_vaddr + p.p_memsz <= r.base + r.len < bias + p.p_vaddr + p.p_memsz + 4096
    &&& r.file_base <= bias + p.p_vaddr
    &&& r.file_end == bias + p.p_vaddr + p.p_filesz
    &&& r.file_offset - r.file_base == p.p_offset - (bias + p.p_vaddr)
    &&& r.permissions.read == (p.p_flags & 4 != 0)
    &&& r.permissions.write == (p.p_flags & 2 != 0)
    &&& r.permissions.execute == (p.p_flags & 1 != 0)
}

/// The region that is made of a segment holds it.
pub proof fn lemma_segment_held(c: Seq<u8>, p: Elf64Phdr, bias: u64, file: usize)
    requires
        is_loaded(p),
        segment_valid(c, p, bias),
    ensures
        holds_segment(segment_region(p, bias, file), p, bias, file),
{
    let start = bias + p.p_vaddr;
    let end = start + p.p_memsz;
    assert(down(start, 4096) == start - start % 4096);
    assert(down(p.p_offset as int, 4096) == p.p_offset - p.p_offset % 4096);
    assert(up(end, 4096) == end + 4095 - (end + 4095) % 4096);
    assert(down(start, 4096) % 4096 == 0);
    assert(up(end, 4096) % 4096 == 0);
}

/// Whether a region is that of a segment that is loaded.
spec fn of_segment(r: ElfRegion, ps: Seq<Elf64Phdr>, bias: u64, file: usize) -> bool {
    exists|j: int|
        0 <= j < ps.len() && is_loaded(#[trigger] ps[j]) && r == segment_region(ps[j], bias, file)
}

/// Every segment that is loaded has its region, and every region is that of a segment.
proof fn lemma_regions_of_segments(ps: Seq<Elf64Phdr>, bias: u64, file: usize)
    ensures
        forall|j: int|
            0 <= j < ps.len() && is_loaded(#[trigger] ps[j]) ==> segment_regions(
                ps,
                bias,
                file,
            ).contains(segment_region(ps[j], bias, file)),
        forall|i: int|
            0 <= i < segment_regions(ps, bias, file).len() ==> of_segment(
                #[trigger] segment_regions(ps, bias, file)[i],
                ps,
                bias,
                file,
            ),
    decreases ps.len(),
{
    let rs = segment_regions(ps, bias, file);
    if ps.len() > 0 {
        let front = ps.drop_last();
        let part = segment_regions(front, bias, file);
        lemma_regions_of_segments(front, bias, file);
        assert forall|j: int| 0 <= j < ps.len() && is_loaded(#[trigger] ps[j]) implies rs.contains(
            segment_region(ps[j], bias, file),
        ) by {
            if j < front.len() {
                assert(front[j] == ps[j]);
                let x = segment_region(front[j], bias, file);
                let i = choose|i: int| 0 <= i < part.len() && part[i] == x;
                assert(rs[i] == x);
            } else {
                assert(rs[rs.len() - 1] == segment_region(ps[j], bias, file));
            }
        }
        assert forall|i: int| 0 <= i < rs.len() implies of_segment(
            #[trigger] rs[i],
            ps,
            bias,
            file,
        ) by {
            if i < part.len() {
                assert(of_segment(part[i], front, bias, file));
                let j = choose|j: int|
                    0 <= j < front.len() && is_loaded(#[trigger] front[j]) && part[i]
                        == segment_region(front[j], bias, file);
                assert(ps[j] == front[j]);
            } else {
                assert(ps[ps.len() - 1] == ps.last());
            }
        }
    }
}

/// No segment that can be laid out has bytes beyond all places in a file.
proof fn lemma_none_beyond(c: Seq<u8>, ps: Seq<Elf64Phdr>, bias: u64, file: usize, page: u64)
    requires
        c.len() <= u64::MAX,
        forall|j: int|
            0 <= j < ps.len() && is_loaded(#[trigger] ps[j]) ==> segment_valid(c, ps[j], bias),
    ensures
        forall|i: int|
            0 <= i < segment_regions(ps, bias, file).len() ==> !beyond(
                #[trigger] segment_regions(ps, bias, file)[i],
                page,
            ),
{
    let rs = segment_regions(ps, bias, file);
    lemma_regions_of_segments(ps, bias, file);
    assert forall|i: int| 0 <= i < rs.len() implies !beyond(#[trigger] rs[i], page) by {
        assert(of_segment(rs[i], ps, bias, file));
        let j = choose|j: int|
            0 <= j < ps.len() && is_loaded(#[trigger] ps[j]) && rs[i] == segment_region(
                ps[j],
                bias,
                file,
            );
        lemma_segment_held(c, ps[j], bias, file);
    }
}

/// A program finds its bytes where its segments say: an address that a segment has from
/// the file is given, when its page is first used, the byte of the file that is as far
/// behind the start of the segment.
pub proof fn lemma_segment_bytes(
    c: Seq<u8>,
    ps: Seq<Elf64Phdr>,
    bias: u64,
    file: usize,
    page: u64,
    j: int,
    a: int,
)
    requires
        c.len() <= u64::MAX,
        page + 4096 <= u64::MAX,
        forall|k: int|
            0 <= k < ps.len() && is_loaded(#[trigger] ps[k]) ==> segment_valid(c, ps[k], bias),
        0 <= j < ps.len(),
        is_loaded(ps[j]),
        page <= a < page + 4096,
        bias + ps[j].p_vaddr <= a < bias + ps[j].p_vaddr + ps[j].p_filesz,
    ensures
        exists|k: int|
            0 <= k < fragments(segment_regions(ps, bias, file), page).len() && puts(
                #[trigger] fragments(segment_regions(ps, bias, file), page)[k],
                page,
                file,
                a,
                ps[j].p_offset + (a - bias - ps[j].p_vaddr),
            ),
{
    let rs = segment_regions(ps, bias, file);
    lemma_regions_of_segments(ps, bias, file);
    lemma_none_beyond(c, ps, bias, file, page);
    let x = segment_region(ps[j], bias, file);
    let i = choose|i: int| 0 <= i < rs.len() && rs[i] == x;
    lemma_segment_held(c, ps[j], bias, file);
    lemma_bytes_placed(rs, page, i, a);
}

/// A program finds nothing else: whatever is copied to a page, when it is first used, is
/// of a segment, from the place in the file that the segment gives for the address, and
/// ends with the bytes that the segment has in the file.
pub proof fn lemma_segment_source(
    c: Seq<u8>,
    ps: Seq<Elf64Phdr>,
    bias: u64,
    file: usize,
    page: u64,
    k: int,
)
    requires
        c.len() <= u64::MAX,
        page + 4096 <= u64::MAX,
        forall|j: int|
            0 <= j < ps.len() && is_loaded(#[trigger] ps[j]) ==> segment_valid(c, ps[j], bias),
        0 <= k < fragments(segment_regions(ps, bias, file), page).len(),
    ensures
        ({
            let f = fragments(segment_regions(ps, bias, file), page)[k];
            exists|j: int|
                {
                    &&& 0 <= j < ps.len()
                    &&& is_loaded(#[trigger] ps[j])
                    &&& f.file == file
                    &&& f.page_offset + f.len <= 4096
                    &&& page + f.page_offset + f.len <= bias + ps[j].p_vaddr + ps[j].p_filesz
                    &&& page + f.page_offset + 4096 > bias + ps[j].p_vaddr
                    &&& f.file_offset == ps[j].p_offset + (page + f.page_offset - bias
                        - ps[j].p_vaddr)
                }
        }),
{
    let rs = segment_regions(ps, bias, file);
    let f = fragments(rs, page)[k];
    lemma_regions_of_segments(ps, bias, file);
    lemma_none_beyond(c, ps, bias, file, page);
    lemma_fragment_source(rs, page, k);
    let i = choose|i: int| 0 <= i < rs.len() && comes_from(f, page, #[trigger] rs[i]);
    assert(of_segment(rs[i], ps, bias, file));
    let j = choose|j: int|
        0 <= j < ps.len() && is_loaded(#[trigger] ps[j]) && rs[i] == segment_region(
            ps[j],
            bias,
            file,
        );
    lemma_segment_held(c, ps[j], bias, file);
    assert((f.file_offset + 0) - (page + f.page_offset + 0) == rs[i].file_offset - rs[i].file_base);
}

/// A page permits what the parts of the image that lie on it permit, and nothing else.
pub proof fn lemma_page_permits(rs: Seq<ElfRegion>, page: u64)
    requires
        forall|i: int| 0 <= i < rs.len() ==> (#[trigger] rs[i]).base + rs[i].len <= u64::MAX,
    ensures
        image_permissions(rs, page).read == exists|i: int|
            0 <= i < rs.len() && page < (#[trigger] rs[i]).base + rs[i].len && rs[i].base < page + 4096
                && rs[i].permissions.read,
        image_permissions(rs, page).write == exists|i: int|
            0 <= i < rs.len() && page < (#[trigger] rs[i]).base + rs[i].len && rs[i].base < page + 4096
                && rs[i].permissions.write,
        image_permissions(rs, page).execute == exists|i: int|
            0 <= i < rs.len() && page < (#[trigger] rs[i]).base + rs[i].len && rs[i].base < page + 4096
                && rs[i].permissions.execute,
    decreases rs.len(),
{
    if rs.len() > 0 {
        let front = rs.drop_last();
        assert forall|i: int| 0 <= i < front.len() implies (#[trigger] front[i]).base + front[i].len
            <= u64::MAX by {
            assert(front[i] == rs[i]);
        }
        lemma_page_permits(front, page);
        assert forall|i: int| 0 <= i < front.len() implies #[trigger] front[i] == rs[i] by {}
        assert forall|i: int| 0 <= i < rs.len() - 1 implies #[trigger] rs[i] == front[i] by {}
        assert(rs[rs.len() - 1] == rs.last());
    }
}

} // verus!
