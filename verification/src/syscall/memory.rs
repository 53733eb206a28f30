//! Mapping memory.

use crate::errno::{fail, EBADF, EINVAL, EIO, ENOMEM};
use crate::proc::mem::{
    align_up, brk_plan, kept, lemma_page, mmap_base, removed, up, BrkPlan, MmapKind, MmapRegion, ProcMM,
    VmPermissions, PAGE, PROT_EXEC, PROT_WRITE, USER_UPPER,
};
use crate::vfs::FileType;
use vstd::prelude::*;

verus! {

pub const MAP_SHARED: u64 = 0x01;

pub const MAP_PRIVATE: u64 = 0x02;

pub const MAP_FIXED: u64 = 0x10;

pub const MAP_ANONYMOUS: u64 = 0x20;

pub const MADV_DONTNEED: i32 = 4;

pub const MADV_FREE: i32 = 8;

pub const MADV_HUGEPAGE: i32 = 14;

pub const MADV_NOHUGEPAGE: i32 = 15;

/// How the pages of a removed mapping are let go.
#[derive(Debug, Clone, Copy, PartialEq, Eq, Structural)]
pub enum Release {
    /// The pages are given back.
    Free { base: u64, len: u64 },
    /// The pages belong to someone else and are only unmapped.
    Unmap { base: u64, len: u64 },
}

/// How the pages of a mapping are let go.
pub open spec fn release_of(r: MmapRegion) -> Release {
    match r.kind {
        MmapKind::Shared => Release::Unmap { base: r.base, len: r.len },
        _ => Release::Free { base: r.base, len: r.len },
    }
}

pub open spec fn releases(rs: Seq<MmapRegion>) -> Seq<Release> {
    rs.map_values(|r: MmapRegion| release_of(r))
}

/// Takes a range out of the mappings; gives what is to be done with its pages, in
/// order.
pub fn unmap_tracked_range(mm: &mut ProcMM, base: u64, len: u64) -> (r: Vec<Release>)
    ensures
        final(mm).heap_start == old(mm).heap_start,
        final(mm).brk_cur == old(mm).brk_cur,
        final(mm).mapped_heap_end == old(mm).mapped_heap_end,
        final(mm).mmap_base_hint == old(mm).mmap_base_hint,
        final(mm).elf_regions == old(mm).elf_regions,
        base + len > u64::MAX ==> r@.len() == 0 && final(mm).mmap_regions@ == old(mm).mmap_regions@,
        base + len <= u64::MAX ==> r@ == releases(
            removed(old(mm).mmap_regions@, base, (base + len) as u64),
        ) && final(mm).mmap_regions@ == kept(old(mm).mmap_regions@, base, (base + len) as u64),
{
    let regions: Vec<MmapRegion> = mm.remove_mmap_range(base, len);
    let mut out: Vec<Release> = Vec::new();
    let mut i: usize = 0;
    while i < regions.len()
        invariant
            i <= regions@.len(),
            out@ == releases(regions@.take(i as int)),
        decreases regions@.len() - i,
    {
        let r: MmapRegion = regions[i];
        let ghost before = out@;
        match r.kind {
            MmapKind::Shared => out.push(Release::Unmap { base: r.base, len: r.len }),
            _ => out.push(Release::Free { base: r.base, len: r.len }),
        }
        i = i + 1;
        proof {
            assert(releases(regions@.take(i as int)) =~= releases(regions@.take(i - 1)).push(
                release_of(regions@[i - 1]),
            ));
        }
    }
    proof {
        assert(regions@.take(i as int) =~= regions@);
    }
    out
}

/// A mapping that was asked for and may be made.
#[derive(Debug, Clone, Copy, PartialEq, Eq, Structural)]
pub struct MmapRequest {
    pub va: u64,
    pub len: u64,
    pub prot: u64,
    /// Whether what is mapped there goes first.
    pub fixed: bool,
    /// Whether a file is mapped.
    pub file: bool,
}

/// Whether the arguments of `mmap` are refused before any address is chosen.
pub open spec fn mmap_refused(addr: u64, size: u64, flags: u64, offset: u64) -> bool {
    ||| size == 0
    ||| offset % 4096 != 0
    ||| flags & MAP_FIXED != 0 && (addr == 0 || addr % 4096 != 0)
}

/// The address that `mmap` chooses.
pub open spec fn mmap_choice(mm: &ProcMM, addr: u64, size: u64, flags: u64) -> Option<u64> {
    if flags & MAP_FIXED != 0 {
        Some(addr)
    } else {
        let base = up(mmap_base(mm), 4096);
        if base + up(size as int, 4096) < USER_UPPER {
            Some(base as u64)
        } else {
            None
        }
    }
}

/// What is asked of memory at `va`: whole pages, and a file unless the memory is anonymous or no
/// descriptor is given.
pub open spec fn request_for(va: u64, size: u64, prot: u64, flags: u64, fd: u64) -> MmapRequest {
    MmapRequest {
        va,
        len: up(size as int, 4096) as u64,
        prot,
        fixed: flags & MAP_FIXED != 0,
        file: flags & MAP_ANONYMOUS == 0 && fd != u64::MAX,
    }
}

/// Checks the arguments of `mmap` and chooses the address. A size that cannot be
/// rounded up to pages is more than there is memory. Where no address is left, only the place
/// from which one is looked for is settled.
pub fn mmap_begin(
    mm: &mut ProcMM,
    addr: u64,
    size: u64,
    prot: u64,
    flags: u64,
    fd: u64,
    offset: u64,
) -> (res: Result<MmapRequest, i64>)
    requires
        old(mm).wf(),
    ensures
        final(mm).wf(),
        final(mm).mmap_regions == old(mm).mmap_regions,
        final(mm).elf_regions == old(mm).elf_regions,
        final(mm).heap_start == old(mm).heap_start,
        final(mm).brk_cur == old(mm).brk_cur,
        final(mm).mapped_heap_end == old(mm).mapped_heap_end,
        ({
            let choice = mmap_choice(old(mm), addr, size, flags);
            match res {
                Ok(r) => {
                    &&& !mmap_refused(addr, size, flags, offset)
                    &&& size <= u64::MAX - 4095
                    &&& choice == Some(r.va)
                    &&& r.va != 0
                    &&& r.len == up(size as int, 4096)
                    &&& r == request_for(r.va, size, prot, flags, fd)
                    &&& final(mm).mmap_base_hint == if r.fixed {
                        old(mm).mmap_base_hint
                    } else {
                        (r.va + r.len) as u64
                    }
                },
                Err(e) => if mmap_refused(addr, size, flags, offset) {
                    e == fail(EINVAL) && *final(mm) == *old(mm)
                } else if size > u64::MAX - 4095 {
                    e == fail(ENOMEM) && *final(mm) == *old(mm)
                } else {
                    &&& e == fail(ENOMEM)
                    &&& choice is None
                    &&& final(mm).mmap_base_hint == mmap_base(old(mm))
                },
            }
        }),
{
    if size == 0 {
        return Err(fail(EINVAL));
    }
    if offset % PAGE != 0 {
        return Err(fail(EINVAL));
    }
    let file: bool = flags & MAP_ANONYMOUS == 0 && fd != u64::MAX;
    let fixed: bool = flags & MAP_FIXED != 0;
    if fixed && (addr == 0 || addr % PAGE != 0) {
        return Err(fail(EINVAL));
    }
    if size > u64::MAX - 4095 {
        return Err(fail(ENOMEM));
    }
    proof {
        lemma_page();
    }
    let len: u64 = align_up(size, PAGE);
    let va: u64 = if fixed {
        addr
    } else {
        match mm.reserve_mmap_range(len) {
            Some(v) => v,
            None => return Err(fail(ENOMEM)),
        }
    };
    if va == 0 {
        return Err(fail(EINVAL));
    }
    Ok(MmapRequest { va, len, prot, fixed, file })
}

/// What is to be done next for a mapping.
#[derive(Debug, Clone, Copy, PartialEq, Eq, Structural)]
pub enum MmapNext {
    /// The call returns this.
    Return(i64),
    /// The file is asked for a mapping of its own.
    AskFile,
    /// Pages are mapped.
    MapPages { writable: bool, executable: bool },
}

/// The value that `mmap` returns for an address.
pub open spec fn as_result(va: u64) -> i64 {
    va as i64
}

/// How memory that can be used at all is filled: by the file that is mapped, or with pages.
pub open spec fn pages_or_file(r: MmapRequest) -> MmapNext {
    if r.file {
        MmapNext::AskFile
    } else {
        MmapNext::MapPages {
            writable: r.prot & PROT_WRITE != 0,
            executable: r.prot & PROT_EXEC != 0,
        }
    }
}

/// Goes on with a mapping once what was at its place is gone; `cleared` tells
/// whether that worked. A mapping without any permission has no pages.
pub fn mmap_continue(mm: &mut ProcMM, r: &MmapRequest, cleared: bool) -> (next: MmapNext)
    requires
        old(mm).wf(),
    ensures
        final(mm).wf(),
        ({
            if r.fixed && !cleared {
                next == MmapNext::Return(fail(EIO)) && *final(mm) == *old(mm)
            } else if r.prot == 0 {
                &&& next == MmapNext::Return(as_result(r.va))
                &&& mapping_added(old(mm), final(mm), r.va, r.len, MmapKind::Owned, r.prot)
            } else {
                *final(mm) == *old(mm) && next == pages_or_file(*r)
            }
        }),
{
    if r.fixed && !cleared {
        return MmapNext::Return(fail(EIO));
    }
    if r.prot == 0 {
        mm.track_mmap(r.va, r.len, MmapKind::Owned, VmPermissions::from_prot(r.prot));
        return MmapNext::Return(r.va as i64);
    }
    if r.file {
        MmapNext::AskFile
    } else {
        MmapNext::MapPages {
            writable: r.prot & PROT_WRITE != 0,
            executable: r.prot & PROT_EXEC != 0,
        }
    }
}

/// Whether exactly one mapping was added.
pub open spec fn mapping_added(
    before: &ProcMM,
    after: &ProcMM,
    base: u64,
    len: u64,
    kind: MmapKind,
    prot: u64,
) -> bool {
    &&& after.mmap_regions@ == before.mmap_regions@.push(
        MmapRegion { base, len, kind, permissions: VmPermissions::of_prot(prot), memfd: None },
    )
    &&& after.heap_start == before.heap_start
    &&& after.brk_cur == before.brk_cur
    &&& after.mapped_heap_end == before.mapped_heap_end
    &&& after.mmap_base_hint == before.mmap_base_hint
    &&& after.elf_regions == before.elf_regions
}

/// What a file descriptor stands for, as far as mapping goes.
#[derive(Debug, Clone, Copy, PartialEq, Eq, Structural)]
pub enum MmapTarget {
    /// The descriptor is not open.
    Closed,
    Node(FileType),
    Pipe,
    Socket,
}

/// The error with which a descriptor is refused for mapping, if it is. `fd` is
/// taken as a signed 32-bit number.
pub fn mmap_target_error(fd: i32, target: MmapTarget) -> (r: Option<i64>)
    ensures
        r == if fd < 0 {
            Some(fail(EBADF))
        } else {
            match target {
                MmapTarget::Closed => Some(fail(EBADF)),
                MmapTarget::Pipe => Some(fail(EINVAL)),
                MmapTarget::Socket => Some(fail(EINVAL)),
                MmapTarget::Node(t) => if t == FileType::Dir {
                    Some(fail(EINVAL))
                } else {
                    None
                },
            }
        },
{
    if fd < 0 {
        return Some(fail(EBADF));
    }
    match target {
        MmapTarget::Closed => Some(fail(EBADF)),
        MmapTarget::Pipe => Some(fail(EINVAL)),
        MmapTarget::Socket => Some(fail(EINVAL)),
        MmapTarget::Node(t) => {
            if t == FileType::Dir {
                Some(fail(EINVAL))
            } else {
                None
            }
        },
    }
}

/// Goes on with a mapping once the file has answered. A file that has no mapping of
/// its own is read into pages, which are writable while that happens.
pub fn mmap_file(mm: &mut ProcMM, r: &MmapRequest, answer: Result<u64, i32>) -> (next: MmapNext)
    requires
        old(mm).wf(),
    ensures
        final(mm).wf(),
        match answer {
            Ok(mapped) => next == MmapNext::Return(as_result(mapped)) && mapping_added(
                old(mm),
                final(mm),
                mapped,
                r.len,
                MmapKind::Shared,
                r.prot,
            ),
            Err(code) => *final(mm) == *old(mm) && next == if code == -38 {
                MmapNext::MapPages { writable: true, executable: r.prot & PROT_EXEC != 0 }
            } else {
                MmapNext::Return(code as i64)
            },
        },
{
    match answer {
        Ok(mapped) => {
            mm.track_mmap(mapped, r.len, MmapKind::Shared, VmPermissions::from_prot(r.prot));
            MmapNext::Return(mapped as i64)
        },
        Err(code) => {
            if code == -38 {
                MmapNext::MapPages { writable: true, executable: r.prot & PROT_EXEC != 0 }
            } else {
                MmapNext::Return(code as i64)
            }
        },
    }
}

/// How many bytes of a file are read next for a mapping of which `pos` bytes are filled, and from
/// where.
pub open spec fn next_read(len: u64, offset: u64, file_size: u64, pos: u64) -> Option<(u64, u64)> {
    if pos == len || offset + pos >= file_size {
        None
    } else {
        Some(
            (
                if len - pos < file_size - (offset + pos) {
                    (len - pos) as u64
                } else {
                    (file_size - (offset + pos)) as u64
                },
                (offset + pos) as u64,
            ),
        )
    }
}

/// The next bytes of a file to read into a mapping, `pos` of which is filled: how
/// many, and from where in the file.
pub fn mmap_next_read(len: u64, offset: u64, file_size: u64, pos: u64) -> (r: Option<(u64, u64)>)
    requires
        pos <= len,
        offset + pos <= u64::MAX,
    ensures
        r == next_read(len, offset, file_size, pos),
{
    let at: u64 = offset + pos;
    if pos == len || at >= file_size {
        return None;
    }
    let left: u64 = len - pos;
    let have: u64 = file_size - at;
    if left < have {
        Some((left, at))
    } else {
        Some((have, at))
    }
}

/// Whose the pages of a mapping are: those of a file are shared with it.
pub open spec fn kind_mapped(r: MmapRequest) -> MmapKind {
    if r.file {
        MmapKind::Shared
    } else {
        MmapKind::Owned
    }
}

/// Ends a mapping once its pages are there; `mapped` tells whether they are, `read`
/// whether a file could be read into them.
pub fn mmap_finish(mm: &mut ProcMM, r: &MmapRequest, mapped: bool, read: bool) -> (ret: i64)
    requires
        old(mm).wf(),
    ensures
        final(mm).wf(),
        if !mapped {
            ret == fail(ENOMEM) && *final(mm) == *old(mm)
        } else if r.file && !read {
            ret == fail(EIO) && *final(mm) == *old(mm)
        } else {
            ret == as_result(r.va) && mapping_added(
                old(mm),
                final(mm),
                r.va,
                r.len,
                kind_mapped(*r),
                r.prot,
            )
        },
{
    if !mapped {
        return fail(ENOMEM);
    }
    if r.file && !read {
        return fail(EIO);
    }
    let kind: MmapKind = if r.file {
        MmapKind::Shared
    } else {
        MmapKind::Owned
    };
    mm.track_mmap(r.va, r.len, kind, VmPermissions::from_prot(r.prot));
    r.va as i64
}

/// Pages keep their permissions; only an empty range is refused.
pub fn mprotect(_addr: u64, size: u64, _prot: u64) -> (r: i64)
    ensures
        r == if size == 0 {
            fail(EINVAL)
        } else {
            0
        },
{
    if size == 0 {
        return fail(EINVAL);
    }
    0
}

/// Advice on pages is accepted and changes nothing.
pub fn madvise(addr: u64, _size: u64, advice: i32) -> (r: i64)
    ensures
        r == if addr % 4096 == 0 && (advice == MADV_DONTNEED || advice == MADV_FREE || advice
            == MADV_HUGEPAGE || advice == MADV_NOHUGEPAGE) {
            0
        } else {
            fail(EINVAL)
        },
{
    if addr % PAGE != 0 {
        return fail(EINVAL);
    }
    if advice == MADV_DONTNEED || advice == MADV_FREE || advice == MADV_HUGEPAGE || advice
        == MADV_NOHUGEPAGE {
        0
    } else {
        fail(EINVAL)
    }
}

/// What moving the break to `addr` asks of the page tables. An address that cannot
/// be rounded up to a page is refused.
pub fn brk_begin(mm: &ProcMM, addr: u64) -> (r: BrkPlan)
    ensures
        r == if addr == 0 || addr > u64::MAX - 4095 {
            BrkPlan::Refuse
        } else {
            brk_plan(mm, addr)
        },
{
    if addr == 0 || addr > u64::MAX - 4095 {
        return BrkPlan::Refuse;
    }
    mm.plan_brk(addr)
}

/// Whether the end of the heap stays where it is.
pub open spec fn break_kept(mm: &ProcMM, addr: u64, granted: bool) -> bool {
    let plan = brk_plan(mm, addr);
    addr == 0 || addr > u64::MAX - 4095 || plan is Refuse || plan is Grow && !granted
}

/// Where the heap ends after a call.
pub open spec fn break_after(mm: &ProcMM, addr: u64, granted: bool) -> u64 {
    if break_kept(mm, addr, granted) {
        mm.brk_cur
    } else {
        up(addr as int, 4096) as u64
    }
}

/// Moves the break to `addr`, where that is not refused and the pages of a growing
/// heap were `granted`; gives the break.
pub fn brk(mm: &mut ProcMM, addr: u64, granted: bool) -> (r: i64)
    requires
        old(mm).wf(),
    ensures
        final(mm).wf(),
        ({
            let end = break_after(old(mm), addr, granted);
            &&& r == as_result(end)
            &&& break_kept(old(mm), addr, granted) ==> *final(mm) == *old(mm)
            &&& !break_kept(old(mm), addr, granted) ==> *final(mm) == (ProcMM {
                brk_cur: end,
                mapped_heap_end: end,
                ..*old(mm)
            })
        }),
{
    if addr == 0 || addr > u64::MAX - 4095 {
        return mm.curr_brk() as i64;
    }
    match mm.set_brk(addr, granted) {
        Ok(end) => end as i64,
        Err(_) => mm.curr_brk() as i64,
    }
}

/// Takes a range out of the mappings; gives what is to be done with its pages.
pub fn munmap_begin(mm: &mut ProcMM, addr: u64, size: u64) -> (res: Result<Vec<Release>, i64>)
    requires
        old(mm).wf(),
    ensures
        final(mm).wf(),
        final(mm).heap_start == old(mm).heap_start,
        final(mm).brk_cur == old(mm).brk_cur,
        final(mm).mapped_heap_end == old(mm).mapped_heap_end,
        final(mm).mmap_base_hint == old(mm).mmap_base_hint,
        final(mm).elf_regions == old(mm).elf_regions,
        match res {
            Ok(v) => {
                let end = addr + up(size as int, 4096);
                &&& size > 0
                &&& addr % 4096 == 0
                &&& size <= u64::MAX - 4095
                &&& end > u64::MAX ==> v@.len() == 0 && final(mm).mmap_regions@ == old(
                    mm,
                ).mmap_regions@
                &&& end <= u64::MAX ==> v@ == releases(
                    removed(old(mm).mmap_regions@, addr, end as u64),
                ) && final(mm).mmap_regions@ == kept(old(mm).mmap_regions@, addr, end as u64)
            },
            Err(e) => e == fail(EINVAL) && *final(mm) == *old(mm) && (size == 0 || addr % 4096 != 0 || size
                > u64::MAX - 4095),
        },
{
    if size == 0 || addr % PAGE != 0 || size > u64::MAX - 4095 {
        return Err(fail(EINVAL));
    }
    proof {
        lemma_page();
    }
    let len: u64 = align_up(size, PAGE);
    Ok(unmap_tracked_range(mm, addr, len))
}

/// The value that `munmap` returns once the pages were let go, or could not be.
pub fn munmap_finish(released: bool) -> (r: i64)
    ensures
        r == if released {
            0
        } else {
            fail(EIO)
        },
{
    if released {
        0
    } else {
        fail(EIO)
    }
}

/// A mapping that was made at an address of its own shows at every address of its
/// range, where nothing was mapped there before.
pub proof fn lemma_mapped(before: &ProcMM, after: &ProcMM, base: u64, len: u64, kind: MmapKind, prot: u64, addr: u64)
    requires
        mapping_added(before, after, base, len, kind, prot),
        base <= addr < crate::proc::mem::end_of(base, len),
        crate::proc::mem::mapping_at(before.mmap_regions@, addr) is None,
    ensures
        crate::proc::mem::mapping_at(after.mmap_regions@, addr) == Some(
            MmapRegion { base, len, kind, permissions: VmPermissions::of_prot(prot), memfd: None },
        ),
{
    let m = MmapRegion { base, len, kind, permissions: VmPermissions::of_prot(prot), memfd: None };
    assert(after.mmap_regions@ =~= before.mmap_regions@ + seq![m]);
    crate::proc::mem::lemma_mapping_at_concat(before.mmap_regions@, seq![m], addr);
    assert(seq![m][0] == m);
}

} // verus!
