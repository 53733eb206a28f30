//! What holds of the memory of a process: where its heap and its mappings lie, which pages a
//! child gets, what is given back, and what a fault finds.

use crate::proc::elf::{
    is_loaded, layout, segment_valid, segments_end, header_of, Elf64Phdr, ImageView,
};
use crate::proc::fork::{
    all_ranges, fault_allowed, fault_backed, fault_fragments, fault_permissions, heap_range,
    image_ranges, kind_ranges, mapping_ranges, page_in, page_wanted,
};
use crate::proc::launch::{alone, interpreted, launch_end, launch_ranges, ProgramView};
use crate::proc::mem::{
    anonymous_at, brk_plan, down, end_of, image_permissions, mapping_at, mmap_base, page_permissions,
    up, BrkPlan, ElfRegion, MmapKind, MmapRegion, ProcMM, VmPermissions, USER_UPPER,
};
use crate::syscall::memory::{mmap_choice, mmap_refused, release_of, Release};
use vstd::prelude::*;

verus! {

/// The heap ends on the first page boundary that is not below what was asked for: what lies
/// between that and its old end is added or given back, and nothing below its start.
pub proof fn lemma_break_moves(mm: &ProcMM, new_end: u64)
    requires
        new_end <= u64::MAX - 4095,
    ensures
        match brk_plan(mm, new_end) {
            BrkPlan::Refuse => new_end < mm.heap_start,
            BrkPlan::Keep => new_end <= mm.mapped_heap_end < new_end + 4096 && mm.mapped_heap_end % 4096
                == 0,
            BrkPlan::Grow { from, len } => {
                &&& from == mm.mapped_heap_end
                &&& len > 0
                &&& new_end <= from + len < new_end + 4096
                &&& (from + len) % 4096 == 0
            },
            BrkPlan::Shrink { from, len } => {
                &&& from + len == mm.mapped_heap_end
                &&& len > 0
                &&& new_end <= from < new_end + 4096
                &&& from % 4096 == 0
                &&& from >= mm.heap_start
            },
        },
        new_end >= mm.heap_start ==> !(brk_plan(mm, new_end) is Refuse),
{
    lemma_up(new_end as int);
}

proof fn lemma_up(x: int)
    ensures
        x <= up(x, 4096) < x + 4096,
        up(x, 4096) % 4096 == 0,
        down(x, 4096) <= x < down(x, 4096) + 4096,
        down(x, 4096) % 4096 == 0,
{
}

/// A mapping whose place is left to the system lies on a page boundary, above the heap, and
/// ends before the end of what programs may use; one with a place of its own lies there.
pub proof fn lemma_mapping_placed(mm: &ProcMM, addr: u64, size: u64, flags: u64)
    requires
        mm.wf(),
        size > 0,
    ensures
        flags & 0x10 != 0 ==> mmap_choice(mm, addr, size, flags) == Some(addr),
        flags & 0x10 == 0 ==> match mmap_choice(mm, addr, size, flags) {
            Some(va) => {
                &&& va % 4096 == 0
                &&& va + size < USER_UPPER
                &&& mm.mmap_base_hint == 0 ==> va >= mm.mapped_heap_end
                &&& va >= mm.mmap_base_hint
            },
            None => true,
        },
{
    lemma_up(size as int);
    lemma_up(mmap_base(mm));
    lemma_up(crate::proc::mem::larger(mm.mapped_heap_end, crate::proc::mem::USER_MMAP_BASE) as int);
}

/// A mapping of nothing, one of a file from within a page, and one at a place that is none, are
/// refused; no other is.
pub proof fn lemma_mapping_refused(addr: u64, size: u64, flags: u64, offset: u64)
    ensures
        mmap_refused(addr, 0, flags, offset),
        offset % 4096 != 0 ==> mmap_refused(addr, size, flags, offset),
        flags & 0x10 != 0 && (addr == 0 || addr % 4096 != 0) ==> mmap_refused(
            addr,
            size,
            flags,
            offset,
        ),
        size > 0 && offset % 4096 == 0 && flags & 0x10 == 0 ==> !mmap_refused(addr, size, flags, offset),
        size > 0 && offset % 4096 == 0 && addr != 0 && addr % 4096 == 0 ==> !mmap_refused(
            addr,
            size,
            flags,
            offset,
        ),
{
}

/// The pages of a mapping are given back, but those of one that is shared are only unmapped:
/// they are someone else's.
pub proof fn lemma_pages_let_go(r: MmapRegion)
    ensures
        r.kind == MmapKind::Shared ==> release_of(r) == (Release::Unmap { base: r.base, len: r.len }),
        r.kind != MmapKind::Shared ==> release_of(r) == (Release::Free { base: r.base, len: r.len }),
{
}

/// A child gets the page of every byte that its parent may have: of the ranges that it
/// started with, of its heap, of its mappings and of its program.
pub proof fn lemma_child_gets_pages(fixed: Seq<(u64, u64)>, mm: &ProcMM, x: u64, i: int)
    requires
        x < u64::MAX,
    ensures
        ({
            let page = (x - x % 4096) as u64;
            let wanted = page_wanted(all_ranges(fixed, mm), page);
            &&& 0 <= i < fixed.len() && fixed[i].0 <= x < fixed[i].0 + fixed[i].1 ==> wanted
            &&& mm.heap_start <= x < mm.mapped_heap_end ==> wanted
            &&& 0 <= i < mm.mmap_regions@.len() && mm.mmap_regions@[i].base <= x
                < mm.mmap_regions@[i].base + mm.mmap_regions@[i].len ==> wanted
            &&& 0 <= i < mm.elf_regions@.len() && mm.elf_regions@[i].base <= x
                < mm.elf_regions@[i].base + mm.elf_regions@[i].len ==> wanted
        }),
{
    let page = (x - x % 4096) as u64;
    let rs = all_ranges(fixed, mm);
    let h = heap_range(mm);
    let m = mapping_ranges(mm.mmap_regions@);
    let e = image_ranges(mm.elf_regions@);
    if 0 <= i < fixed.len() && fixed[i].0 <= x < fixed[i].0 + fixed[i].1 {
        assert(rs[i] == fixed[i]);
        lemma_page_of_byte(fixed[i], x);
    }
    if mm.heap_start <= x < mm.mapped_heap_end {
        let r = (mm.heap_start, (mm.mapped_heap_end - mm.heap_start) as u64);
        assert(rs[fixed.len() as int] == r);
        lemma_page_of_byte(r, x);
    }
    if 0 <= i < mm.mmap_regions@.len() && mm.mmap_regions@[i].base <= x < mm.mmap_regions@[i].base
        + mm.mmap_regions@[i].len {
        let r = (mm.mmap_regions@[i].base, mm.mmap_regions@[i].len);
        assert(m[i] == r);
        assert(rs[fixed.len() + h.len() + i] == r);
        lemma_page_of_byte(r, x);
    }
    if 0 <= i < mm.elf_regions@.len() && mm.elf_regions@[i].base <= x < mm.elf_regions@[i].base
        + mm.elf_regions@[i].len {
        let r = (mm.elf_regions@[i].base, mm.elf_regions@[i].len);
        assert(e[i] == r);
        assert(rs[fixed.len() + h.len() + m.len() + i] == r);
        lemma_page_of_byte(r, x);
    }
}

proof fn lemma_page_of_byte(r: (u64, u64), x: u64)
    requires
        r.0 <= x < r.0 + r.1,
        x < u64::MAX,
    ensures
        page_in(r, (x - x % 4096) as u64),
{
    lemma_up(r.0 as int);
    let page = x - x % 4096;
    assert(down(r.0 as int, 4096) == r.0 - r.0 % 4096);
}

/// A child gets no page that holds nothing of its parent.
pub proof fn lemma_child_gets_no_more(rs: Seq<(u64, u64)>, page: u64)
    requires
        page_wanted(rs, page),
        forall|i: int| 0 <= i < rs.len() ==> (#[trigger] rs[i]).0 + rs[i].1 <= u64::MAX,
    ensures
        page % 4096 == 0,
        exists|i: int|
            0 <= i < rs.len() && (#[trigger] rs[i]).1 > 0 && rs[i].0 < page + 4096 && page < rs[i].0
                + rs[i].1,
{
    let i = choose|i: int| 0 <= i < rs.len() && page_in(#[trigger] rs[i], page);
    lemma_up(rs[i].0 as int);
    assert(rs[i].0 < page + 4096);
}

/// What a process gives back when it ends is what is its own: each of its mappings, the shared
/// ones apart from the others.
pub proof fn lemma_given_back(rs: Seq<MmapRegion>, i: int, shared: bool)
    requires
        0 <= i < rs.len(),
    ensures
        (rs[i].kind == MmapKind::Shared) == shared ==> kind_ranges(rs, shared).contains(
            (rs[i].base, rs[i].len),
        ),
        kind_ranges(rs, true).len() + kind_ranges(rs, false).len() == rs.len(),
    decreases rs.len(),
{
    let front = rs.drop_last();
    let all = kind_ranges(rs, shared);
    let part = kind_ranges(front, shared);
    if i < front.len() {
        lemma_given_back(front, i, shared);
        assert(front[i] == rs[i]);
        let x = (rs[i].base, rs[i].len);
        if part.contains(x) {
            let k = choose|k: int| 0 <= k < part.len() && part[k] == x;
            assert(all[k] == x);
        }
    } else {
        if front.len() > 0 {
            lemma_given_back(front, 0, shared);
        } else {
            assert(kind_ranges(front, true).len() == 0);
            assert(kind_ranges(front, false).len() == 0);
        }
        if (rs[i].kind == MmapKind::Shared) == shared {
            assert(all[all.len() - 1] == (rs[i].base, rs[i].len));
        }
    }
}

/// A fault is made good only where the page belongs to the process and what it permits allows
/// the access; a page of a mapping is empty at first, one of the program holds its bytes.
pub proof fn lemma_fault_made_good(mm: &ProcMM, page: u64, write: bool, execute: bool)
    ensures
        fault_allowed(mm, page, write, execute) ==> {
            let p = fault_permissions(mm, page);
            &&& execute ==> p.execute
            &&& write && !execute ==> p.write
            &&& !write && !execute ==> p.read
            &&& fault_backed(mm, page)
        },
        anonymous_at(mm.mmap_regions@, page) matches Some(m) ==> {
            &&& fault_backed(mm, page)
            &&& fault_permissions(mm, page) == m.permissions
            &&& fault_fragments(mm, page).len() == 0
        },
        anonymous_at(mm.mmap_regions@, page) is None ==> fault_permissions(mm, page)
            == image_permissions(mm.elf_regions@, page),
        mm.mmap_regions@.len() == 0 && mm.elf_regions@.len() == 0 ==> !fault_allowed(
            mm,
            page,
            write,
            execute,
        ),
{
}

/// The mapping that a fault finds is one of the process's, and covers the page.
pub proof fn lemma_anonymous_found(rs: Seq<MmapRegion>, addr: u64)
    ensures
        match anonymous_at(rs, addr) {
            Some(m) => {
                &&& rs.contains(m)
                &&& m.kind == MmapKind::Anonymous
                &&& m.base <= addr < end_of(m.base, m.len)
            },
            None => forall|i: int|
                0 <= i < rs.len() && (#[trigger] rs[i]).kind == MmapKind::Anonymous ==> !(rs[i].base
                    <= addr < end_of(rs[i].base, rs[i].len)),
        },
    decreases rs.len(),
{
    if rs.len() > 0 {
        let rest = rs.skip(1);
        lemma_anonymous_found(rest, addr);
        if rs[0].kind == MmapKind::Anonymous && rs[0].covers(addr) {
            assert(rs.contains(rs[0]));
        } else {
            match anonymous_at(rs, addr) {
                Some(m) => {
                    let k = choose|k: int| 0 <= k < rest.len() && rest[k] == m;
                    assert(rs[k + 1] == m);
                },
                None => {
                    assert forall|i: int|
                        0 <= i < rs.len() && (#[trigger] rs[i]).kind == MmapKind::Anonymous implies !(
                    rs[i].base <= addr < end_of(rs[i].base, rs[i].len)) by {
                        if i > 0 {
                            assert(rest[i - 1] == rs[i]);
                        }
                    }
                },
            }
        }
    }
}

/// The mapping that is found at an address is one of the process's, and covers the address.
pub proof fn lemma_mapping_found(rs: Seq<MmapRegion>, addr: u64)
    ensures
        match mapping_at(rs, addr) {
            Some(m) => rs.contains(m) && m.base <= addr < end_of(m.base, m.len),
            None => forall|i: int|
                0 <= i < rs.len() ==> !((#[trigger] rs[i]).base <= addr < end_of(
                    rs[i].base,
                    rs[i].len,
                )),
        },
    decreases rs.len(),
{
    if rs.len() > 0 {
        let rest = rs.skip(1);
        lemma_mapping_found(rest, addr);
        if rs[0].covers(addr) {
            assert(rs.contains(rs[0]));
        } else {
            match mapping_at(rs, addr) {
                Some(m) => {
                    let k = choose|k: int| 0 <= k < rest.len() && rest[k] == m;
                    assert(rs[k + 1] == m);
                },
                None => {
                    assert forall|i: int| 0 <= i < rs.len() implies !((#[trigger] rs[i]).base <= addr
                        < end_of(rs[i].base, rs[i].len)) by {
                        if i > 0 {
                            assert(rest[i - 1] == rs[i]);
                        }
                    }
                },
            }
        }
    }
}

/// What a page permits is what its mapping does, or else what the program does there.
pub proof fn lemma_page_permissions(ms: Seq<MmapRegion>, rs: Seq<ElfRegion>, page: u64)
    ensures
        mapping_at(ms, page) matches Some(m) ==> page_permissions(ms, rs, page) == Some(m.permissions),
        mapping_at(ms, page) is None && page_permissions(ms, rs, page) is Some
            ==> page_permissions(ms, rs, page) == Some(image_permissions(rs, page)),
        mapping_at(ms, page) is None && rs.len() == 0 ==> page_permissions(ms, rs, page) is None,
{
}

/// The bits that a program gives for reading, writing and executing are what is permitted.
pub proof fn lemma_protection_bits(prot: u64)
    ensures
        VmPermissions::of_prot(prot).read == (prot & 1 != 0),
        VmPermissions::of_prot(prot).write == (prot & 2 != 0),
        VmPermissions::of_prot(prot).execute == (prot & 4 != 0),
{
}

/// A program that can be moved is loaded where it is told, one that cannot where it says; its
/// first instruction is as far from there as its header says.
pub proof fn lemma_program_starts(c: Seq<u8>, hint: u64, capture_interp: bool)
    requires
        header_of(c).e_entry + hint <= u64::MAX,
    ensures
        ({
            let h = header_of(c);
            let i = layout(c, Some(hint), capture_interp);
            &&& h.e_type == 3 ==> i.load_base == hint && i.entry_point == h.e_entry + hint
            &&& h.e_type != 3 ==> i.load_base == 0 && i.entry_point == h.e_entry
            &&& i.phent == h.e_phentsize
            &&& i.phnum == h.e_phnum
            &&& !capture_interp ==> i.interp_path is None
        }),
{
}

/// The memory of a program ends with the segment that ends last.
pub proof fn lemma_program_ends(c: Seq<u8>, ps: Seq<Elf64Phdr>, bias: u64)
    requires
        forall|j: int|
            0 <= j < ps.len() && is_loaded(#[trigger] ps[j]) ==> segment_valid(c, ps[j], bias),
    ensures
        forall|j: int|
            0 <= j < ps.len() && is_loaded(#[trigger] ps[j]) ==> bias + ps[j].p_vaddr + ps[j].p_memsz
                <= segments_end(ps, bias),
        segments_end(ps, bias) == 0 || exists|j: int|
            0 <= j < ps.len() && is_loaded(#[trigger] ps[j]) && bias + ps[j].p_vaddr + ps[j].p_memsz
                == segments_end(ps, bias),
    decreases ps.len(),
{
    if ps.len() > 0 {
        let front = ps.drop_last();
        assert forall|j: int| 0 <= j < front.len() && is_loaded(#[trigger] front[j]) implies segment_valid(
            c,
            front[j],
            bias,
        ) by {
            assert(front[j] == ps[j]);
        }
        lemma_program_ends(c, front, bias);
        assert(ps[ps.len() - 1] == ps.last());
        if is_loaded(ps.last()) {
            assert(segment_valid(c, ps[ps.len() - 1], bias));
        }
        assert forall|j: int| 0 <= j < ps.len() && is_loaded(#[trigger] ps[j]) implies bias
            + ps[j].p_vaddr + ps[j].p_memsz <= segments_end(ps, bias) by {
            if j < front.len() {
                assert(front[j] == ps[j]);
            }
        }
        if segments_end(front, bias) != 0 {
            let j = choose|j: int|
                0 <= j < front.len() && is_loaded(#[trigger] front[j]) && bias + front[j].p_vaddr
                    + front[j].p_memsz == segments_end(front, bias);
            assert(ps[j] == front[j]);
        }
    }
}

/// A program without an interpreter starts at its own entry; with one it starts at that of the
/// interpreter, which is told where the program's own entry is and where it lies itself.
pub proof fn lemma_who_starts(i: ImageView, t: ImageView, regions: Seq<ElfRegion>)
    ensures
        ({
            let a = alone(i, regions);
            let p = interpreted(i, t, regions);
            &&& a.entry_point == i.entry_point
            &&& a.aux_entry == i.entry_point
            &&& a.at_base == 0
            &&& a.max_end == i.max_end
            &&& a.spill == (i.has_tls && i.interp_path is None)
            &&& a.regions == regions
            &&& p.entry_point == t.entry_point
            &&& p.aux_entry == i.entry_point
            &&& p.at_base == t.load_base
            &&& p.max_end >= i.max_end
            &&& p.max_end >= t.max_end
            &&& p.max_end == i.max_end || p.max_end == t.max_end
            &&& p.phdr_va == i.phdr_va
            &&& p.phent == i.phent
            &&& p.phnum == i.phnum
            &&& p.regions == regions
        }),
{
}

/// A program starts with a stack of its own, where that was granted, and with two spare pages
/// behind its memory where it asks for thread-local memory without an interpreter.
pub proof fn lemma_memory_at_start(p: ProgramView, stack_granted: bool)
    requires
        p.max_end <= u64::MAX - 16384,
    ensures
        ({
            let rs = launch_ranges(p, stack_granted);
            let n: int = if stack_granted {
                1
            } else {
                0
            };
            &&& rs.len() == n + if p.spill {
                1int
            } else {
                0
            }
            &&& stack_granted ==> rs[0].0 + rs[0].1 == crate::proc::stack::USER_STACK_TOP && rs[0].1
                == 0x64000
            &&& p.spill ==> rs[n].0 >= p.max_end && rs[n].0 % 4096 == 0 && rs[n].1 == 8192 && rs[n].0
                + rs[n].1 == launch_end(p)
            &&& !p.spill ==> launch_end(p) == p.max_end
        }),
{
    lemma_up(p.max_end as int);
}

} // verus!
