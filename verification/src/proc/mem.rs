//! The address space of a process: its heap, its mappings and its program image.

use vstd::arithmetic::div_mod::lemma_fundamental_div_mod;
use vstd::arithmetic::power2::pow2;
use vstd::prelude::*;

verus! {

pub const PAGE: u64 = 4096;

pub const PROT_READ: u64 = 1;

pub const PROT_WRITE: u64 = 2;

pub const PROT_EXEC: u64 = 4;

/// Where mappings start where the heap ends lower.
pub const USER_MMAP_BASE: u64 = 0x0000_4000_0000_0000;

/// Mappings end below this address.
pub const USER_UPPER: u64 = 0x0000_7FFF_F000_0000;

pub open spec fn power_of_two(a: u64) -> bool {
    exists|k: nat| k < 64 && a == #[trigger] pow2(k)
}

/// The least multiple of `a` that is not below `x`.
pub open spec fn up(x: int, a: int) -> int {
    ((x + a - 1) / a) * a
}

/// The greatest multiple of `a` that is not above `x`.
pub open spec fn down(x: int, a: int) -> int {
    (x / a) * a
}

proof fn lemma_mask(x: u64, a: u64)
    requires
        power_of_two(a),
    ensures
        a > 0,
        x & !((a - 1) as u64) == (x as int / a as int) * a as int,
{
    let k = choose|k: nat| k < 64 && a == #[trigger] pow2(k);
    vstd::arithmetic::power2::lemma_pow2_pos(k);
    vstd::bits::lemma_u64_low_bits_mask_is_mod(x, k);
    let m = (a - 1) as u64;
    assert(vstd::bits::low_bits_mask(k) as u64 == m) by {
        reveal(vstd::bits::low_bits_mask);
    }
    assert(x & !m == x - (x & m)) by (bit_vector);
    lemma_fundamental_div_mod(x as int, a as int);
    assert((x as int / a as int) * a as int == a as int * (x as int / a as int)) by (nonlinear_arith);
}

pub proof fn lemma_power_positive(a: u64)
    requires
        power_of_two(a),
    ensures
        a > 0,
{
    lemma_mask(0, a);
}

pub proof fn lemma_page()
    ensures
        power_of_two(4096),
{
    vstd::arithmetic::power2::lemma2_to64();
    assert(pow2(12) == 4096);
}

/// `x` rounded up to a multiple of `a`, a power of two.
pub fn align_up(x: u64, a: u64) -> (r: u64)
    requires
        power_of_two(a),
        x + a - 1 <= u64::MAX,
    ensures
        r == up(x as int, a as int),
{
    proof {
        lemma_mask((x + a - 1) as u64, a);
    }
    (x + (a - 1)) & !(a - 1)
}

/// `x` rounded down to a multiple of `a`, a power of two.
pub fn align_dn(x: u64, a: u64) -> (r: u64)
    requires
        power_of_two(a),
    ensures
        r == down(x as int, a as int),
{
    proof {
        lemma_mask(x, a);
    }
    x & !(a - 1)
}

/// What may be done with memory.
#[derive(Debug, Clone, Copy, PartialEq, Eq, Structural)]
pub struct VmPermissions {
    pub read: bool,
    pub write: bool,
    pub execute: bool,
}

impl Default for VmPermissions {
    fn default() -> (r: Self)
        ensures
            r == no_permissions(),
    {
        VmPermissions { read: false, write: false, execute: false }
    }
}

pub open spec fn no_permissions() -> VmPermissions {
    VmPermissions { read: false, write: false, execute: false }
}

impl VmPermissions {
    /// The permissions that the bits of `prot` stand for.
    pub open spec fn of_prot(prot: u64) -> VmPermissions {
        VmPermissions {
            read: prot & PROT_READ != 0,
            write: prot & PROT_WRITE != 0,
            execute: prot & PROT_EXEC != 0,
        }
    }

    pub fn from_prot(prot: u64) -> (r: Self)
        ensures
            r == Self::of_prot(prot),
    {
        VmPermissions {
            read: prot & PROT_READ != 0,
            write: prot & PROT_WRITE != 0,
            execute: prot & PROT_EXEC != 0,
        }
    }

    pub open spec fn both(self, other: VmPermissions) -> VmPermissions {
        VmPermissions {
            read: self.read || other.read,
            write: self.write || other.write,
            execute: self.execute || other.execute,
        }
    }

    /// What one or the other permits.
    pub fn union(self, other: Self) -> (r: Self)
        ensures
            r == self.both(other),
    {
        VmPermissions {
            read: self.read || other.read,
            write: self.write || other.write,
            execute: self.execute || other.execute,
        }
    }

    /// Whether an access is permitted.
    pub fn allows(self, write: bool, execute: bool) -> (r: bool)
        ensures
            r == if execute {
                self.execute
            } else if write {
                self.write
            } else {
                self.read
            },
    {
        if execute {
            self.execute
        } else if write {
            self.write
        } else {
            self.read
        }
    }
}

#[derive(Debug, Clone, Copy, PartialEq, Eq, Structural)]
pub enum MmapKind {
    Anonymous,
    Owned,
    Shared,
}

/// A mapping; `memfd` is the number of the file in memory that it shows.
#[derive(Debug, Clone, Copy, PartialEq, Eq, Structural)]
pub struct MmapRegion {
    pub base: u64,
    pub len: u64,
    pub kind: MmapKind,
    pub permissions: VmPermissions,
    pub memfd: Option<usize>,
}

/// A part of the program image; `file` is the number of the file that it comes from.
#[derive(Debug, Clone, Copy, PartialEq, Eq, Structural)]
pub struct ElfRegion {
    pub base: u64,
    pub len: u64,
    pub file_base: u64,
    pub file_offset: u64,
    pub file_end: u64,
    pub permissions: VmPermissions,
    pub file: usize,
}

/// Bytes of a file that belong on a page.
#[derive(Debug, Clone, Copy, PartialEq, Eq, Structural)]
pub struct ElfPageFragment {
    pub file: usize,
    pub file_offset: u64,
    pub page_offset: u64,
    pub len: u64,
}

/// How a missing page is to be filled.
pub struct PageFaultPlan {
    pub permissions: VmPermissions,
    pub fragments: Vec<ElfPageFragment>,
}

/// The end of a region, or the end of the address space.
pub open spec fn end_of(base: u64, len: u64) -> u64 {
    if base + len > u64::MAX {
        u64::MAX
    } else {
        (base + len) as u64
    }
}

/// The end of a region, or the end of the address space.
pub fn region_end(base: u64, len: u64) -> (r: u64)
    ensures
        r == end_of(base, len),
{
    base.saturating_add(len)
}

pub open spec fn larger(a: u64, b: u64) -> u64 {
    if a > b {
        a
    } else {
        b
    }
}

pub open spec fn smaller(a: u64, b: u64) -> u64 {
    if a < b {
        a
    } else {
        b
    }
}

fn max_u64(a: u64, b: u64) -> (r: u64)
    ensures
        r == larger(a, b),
{
    if a > b {
        a
    } else {
        b
    }
}

fn min_u64(a: u64, b: u64) -> (r: u64)
    ensures
        r == smaller(a, b),
{
    if a < b {
        a
    } else {
        b
    }
}

impl MmapRegion {
    /// Whether the mapping covers an address.
    pub open spec fn covers(self, addr: u64) -> bool {
        self.base <= addr < end_of(self.base, self.len)
    }

    fn covers_page(&self, addr: u64) -> (r: bool)
        ensures
            r == self.covers(addr),
    {
        addr >= self.base && addr < region_end(self.base, self.len)
    }
}

/// The first mapping that covers an address.
pub open spec fn mapping_at(rs: Seq<MmapRegion>, addr: u64) -> Option<MmapRegion>
    decreases rs.len(),
{
    if rs.len() == 0 {
        None
    } else if rs[0].covers(addr) {
        Some(rs[0])
    } else {
        mapping_at(rs.skip(1), addr)
    }
}

/// The first anonymous mapping that covers an address.
pub open spec fn anonymous_at(rs: Seq<MmapRegion>, addr: u64) -> Option<MmapRegion>
    decreases rs.len(),
{
    if rs.len() == 0 {
        None
    } else if rs[0].kind == MmapKind::Anonymous && rs[0].covers(addr) {
        Some(rs[0])
    } else {
        anonymous_at(rs.skip(1), addr)
    }
}

/// Whether a shared mapping covers an address.
pub open spec fn shared_at(rs: Seq<MmapRegion>, addr: u64) -> bool {
    exists|i: int|
        0 <= i < rs.len() && (#[trigger] rs[i]).kind == MmapKind::Shared && rs[i].covers(addr)
}

/// Whether a part of the image meets the page at `page`.
pub open spec fn meets(r: ElfRegion, page: u64) -> bool {
    page < end_of(r.base, r.len) && page + 4096 > r.base
}

/// What the parts of the image that meet a page permit together.
pub open spec fn image_permissions(rs: Seq<ElfRegion>, page: u64) -> VmPermissions
    decreases rs.len(),
{
    if rs.len() == 0 {
        no_permissions()
    } else {
        let front = image_permissions(rs.drop_last(), page);
        if meets(rs.last(), page) {
            front.both(rs.last().permissions)
        } else {
            front
        }
    }
}

pub open spec fn image_meets(rs: Seq<ElfRegion>, page: u64) -> bool {
    exists|i: int| 0 <= i < rs.len() && meets(#[trigger] rs[i], page)
}

/// Where the file bytes of a region start on a page.
pub open spec fn copy_start(r: ElfRegion, page: u64) -> u64 {
    larger(page, larger(r.base, r.file_base))
}

/// Where the file bytes of a region end on a page.
pub open spec fn copy_end(r: ElfRegion, page: u64) -> u64 {
    smaller((page + 4096) as u64, smaller(end_of(r.base, r.len), r.file_end))
}

/// The file bytes of a region that belong on a page, where there are any.
pub open spec fn fragment(r: ElfRegion, page: u64) -> ElfPageFragment {
    ElfPageFragment {
        file: r.file,
        file_offset: (r.file_offset + (copy_start(r, page) - r.file_base)) as u64,
        page_offset: (copy_start(r, page) - page) as u64,
        len: (copy_end(r, page) - copy_start(r, page)) as u64,
    }
}

pub open spec fn has_fragment(r: ElfRegion, page: u64) -> bool {
    meets(r, page) && copy_start(r, page) < copy_end(r, page)
}

/// Whether the place of the bytes in the file is beyond all addresses.
pub open spec fn beyond(r: ElfRegion, page: u64) -> bool {
    has_fragment(r, page) && r.file_offset + (copy_start(r, page) - r.file_base) > u64::MAX
}

/// The file bytes that belong on a page, region by region.
pub open spec fn fragments(rs: Seq<ElfRegion>, page: u64) -> Seq<ElfPageFragment>
    decreases rs.len(),
{
    if rs.len() == 0 {
        Seq::<ElfPageFragment>::empty()
    } else if has_fragment(rs.last(), page) {
        fragments(rs.drop_last(), page).push(fragment(rs.last(), page))
    } else {
        fragments(rs.drop_last(), page)
    }
}

/// The part of a mapping between `from` and `to`.
pub open spec fn piece(r: MmapRegion, from: u64, to: u64) -> MmapRegion {
    MmapRegion { base: from, len: (to - from) as u64, ..r }
}

/// A mapping after the addresses from `base` to `end` were given `p`.
pub open spec fn protected_one(r: MmapRegion, base: u64, end: u64, p: VmPermissions) -> Seq<
    MmapRegion,
> {
    let re = end_of(r.base, r.len);
    let a = larger(base, r.base);
    let b = smaller(end, re);
    if a >= b {
        seq![r]
    } else {
        (if r.base < a {
            seq![piece(r, r.base, a)]
        } else {
            Seq::<MmapRegion>::empty()
        }) + seq![MmapRegion { permissions: p, ..piece(r, a, b) }] + (if b < re {
            seq![piece(r, b, re)]
        } else {
            Seq::<MmapRegion>::empty()
        })
    }
}

/// Mappings after the addresses from `base` to `end` were given `p`.
pub open spec fn protected(rs: Seq<MmapRegion>, base: u64, end: u64, p: VmPermissions) -> Seq<
    MmapRegion,
>
    decreases rs.len(),
{
    if rs.len() == 0 {
        rs
    } else {
        protected_one(rs[0], base, end, p) + protected(rs.skip(1), base, end, p)
    }
}

/// What is left of a mapping without the addresses from `base` to `end`.
pub open spec fn kept_one(r: MmapRegion, base: u64, end: u64) -> Seq<MmapRegion> {
    let re = end_of(r.base, r.len);
    let a = larger(base, r.base);
    let b = smaller(end, re);
    if a >= b {
        seq![r]
    } else {
        (if r.base < a {
            seq![piece(r, r.base, a)]
        } else {
            Seq::<MmapRegion>::empty()
        }) + (if b < re {
            seq![piece(r, b, re)]
        } else {
            Seq::<MmapRegion>::empty()
        })
    }
}

/// What of a mapping lies between `base` and `end`.
pub open spec fn removed_one(r: MmapRegion, base: u64, end: u64) -> Seq<MmapRegion> {
    let a = larger(base, r.base);
    let b = smaller(end, end_of(r.base, r.len));
    if a >= b {
        Seq::<MmapRegion>::empty()
    } else {
        seq![piece(r, a, b)]
    }
}

pub open spec fn kept(rs: Seq<MmapRegion>, base: u64, end: u64) -> Seq<MmapRegion>
    decreases rs.len(),
{
    if rs.len() == 0 {
        rs
    } else {
        kept_one(rs[0], base, end) + kept(rs.skip(1), base, end)
    }
}

pub open spec fn removed(rs: Seq<MmapRegion>, base: u64, end: u64) -> Seq<MmapRegion>
    decreases rs.len(),
{
    if rs.len() == 0 {
        rs
    } else {
        removed_one(rs[0], base, end) + removed(rs.skip(1), base, end)
    }
}

/// The part of an image region between `from` and `to`.
pub open spec fn image_piece(r: ElfRegion, from: u64, to: u64) -> ElfRegion {
    ElfRegion { base: from, len: (to - from) as u64, ..r }
}

/// `r` with its place in the file moved by `d`, modulo two to the 64.
pub open spec fn shifted(r: ElfRegion, d: u64) -> ElfRegion {
    ElfRegion {
        file_base: wrapped(r.file_base + d),
        file_offset: wrapped(r.file_offset + d),
        file_end: wrapped(r.file_end + d),
        ..r
    }
}

pub open spec fn wrapped(x: int) -> u64 {
    if x > u64::MAX {
        (x - 0x1_0000_0000_0000_0000) as u64
    } else {
        x as u64
    }
}

pub open spec fn image_protected_one(r: ElfRegion, base: u64, end: u64, p: VmPermissions) -> Seq<
    ElfRegion,
> {
    let re = end_of(r.base, r.len);
    let a = larger(base, r.base);
    let b = smaller(end, re);
    if a >= b {
        seq![r]
    } else {
        (if r.base < a {
            seq![image_piece(r, r.base, a)]
        } else {
            Seq::<ElfRegion>::empty()
        }) + seq![ElfRegion { permissions: p, ..image_piece(r, a, b) }] + (if b < re {
            seq![image_piece(r, b, re)]
        } else {
            Seq::<ElfRegion>::empty()
        })
    }
}

pub open spec fn image_protected(rs: Seq<ElfRegion>, base: u64, end: u64, p: VmPermissions) -> Seq<
    ElfRegion,
>
    decreases rs.len(),
{
    if rs.len() == 0 {
        rs
    } else {
        image_protected_one(rs[0], base, end, p) + image_protected(rs.skip(1), base, end, p)
    }
}

pub open spec fn image_kept_one(r: ElfRegion, base: u64, end: u64) -> Seq<ElfRegion> {
    let re = end_of(r.base, r.len);
    let a = larger(base, r.base);
    let b = smaller(end, re);
    if a >= b {
        seq![r]
    } else {
        (if r.base < a {
            seq![image_piece(r, r.base, a)]
        } else {
            Seq::<ElfRegion>::empty()
        }) + (if b < re {
            seq![shifted(image_piece(r, b, re), (b - r.base) as u64)]
        } else {
            Seq::<ElfRegion>::empty()
        })
    }
}

pub open spec fn image_removed_one(r: ElfRegion, base: u64, end: u64) -> Seq<ElfRegion> {
    let a = larger(base, r.base);
    let b = smaller(end, end_of(r.base, r.len));
    if a >= b {
        Seq::<ElfRegion>::empty()
    } else {
        seq![shifted(image_piece(r, a, b), (a - r.base) as u64)]
    }
}

pub open spec fn image_kept(rs: Seq<ElfRegion>, base: u64, end: u64) -> Seq<ElfRegion>
    decreases rs.len(),
{
    if rs.len() == 0 {
        rs
    } else {
        image_kept_one(rs[0], base, end) + image_kept(rs.skip(1), base, end)
    }
}

pub open spec fn image_removed(rs: Seq<ElfRegion>, base: u64, end: u64) -> Seq<ElfRegion>
    decreases rs.len(),
{
    if rs.len() == 0 {
        rs
    } else {
        image_removed_one(rs[0], base, end) + image_removed(rs.skip(1), base, end)
    }
}

/// What changing the break asks of the page tables.
#[derive(Debug, Clone, Copy, PartialEq, Eq, Structural)]
pub enum BrkPlan {
    /// The break stays.
    Refuse,
    /// The break moves within the mapped heap's end.
    Keep,
    Grow { from: u64, len: u64 },
    Shrink { from: u64, len: u64 },
}

/// The address space of a process.
pub struct ProcMM {
    pub heap_start: u64,
    pub brk_cur: u64,
    pub mapped_heap_end: u64,
    pub mmap_base_hint: u64,
    pub mmap_regions: Vec<MmapRegion>,
    pub elf_regions: Vec<ElfRegion>,
}

/// What changing the break to `new_end` asks of the page tables.
pub open spec fn brk_plan(mm: &ProcMM, new_end: u64) -> BrkPlan {
    let end = up(new_end as int, 4096) as u64;
    if end < mm.heap_start {
        BrkPlan::Refuse
    } else if end > mm.mapped_heap_end {
        BrkPlan::Grow { from: mm.mapped_heap_end, len: (end - mm.mapped_heap_end) as u64 }
    } else if end < mm.mapped_heap_end {
        BrkPlan::Shrink { from: end, len: (mm.mapped_heap_end - end) as u64 }
    } else {
        BrkPlan::Keep
    }
}

/// Where mappings are placed next.
pub open spec fn mmap_base(mm: &ProcMM) -> int {
    if mm.mmap_base_hint == 0 {
        up(larger(mm.mapped_heap_end, USER_MMAP_BASE) as int, 4096)
    } else {
        mm.mmap_base_hint as int
    }
}

impl ProcMM {
    /// The heap and the mappings end where another page fits.
    pub open spec fn wf(&self) -> bool {
        self.mapped_heap_end <= u64::MAX - 4095 && self.mmap_base_hint <= u64::MAX - 4095
    }

    /// An address space with an empty heap.
    pub fn new(heap_start: u64) -> (r: Self)
        requires
            heap_start <= u64::MAX - 4095,
        ensures
            r.wf(),
            r.heap_start == up(heap_start as int, 4096),
            r.brk_cur == r.heap_start,
            r.mapped_heap_end == r.heap_start,
            r.mmap_base_hint == 0,
            r.mmap_regions@.len() == 0,
            r.elf_regions@.len() == 0,
    {
        proof {
            lemma_page();
        }
        let start: u64 = align_up(heap_start, PAGE);
        ProcMM {
            heap_start: start,
            brk_cur: start,
            mapped_heap_end: start,
            mmap_base_hint: 0,
            mmap_regions: Vec::new(),
            elf_regions: Vec::new(),
        }
    }

    /// What changing the break to `new_end` asks of the page tables.
    pub fn plan_brk(&self, new_end: u64) -> (r: BrkPlan)
        requires
            new_end <= u64::MAX - 4095,
        ensures
            r == brk_plan(self, new_end),
    {
        proof {
            lemma_page();
        }
        let end: u64 = align_up(new_end, PAGE);
        if end < self.heap_start {
            BrkPlan::Refuse
        } else if end > self.mapped_heap_end {
            BrkPlan::Grow { from: self.mapped_heap_end, len: end - self.mapped_heap_end }
        } else if end < self.mapped_heap_end {
            BrkPlan::Shrink { from: end, len: self.mapped_heap_end - end }
        } else {
            BrkPlan::Keep
        }
    }

    /// Changes the break; `granted` tells whether the pages that a growing heap
    /// needs could be mapped.
    pub fn set_brk(&mut self, new_end: u64, granted: bool) -> (res: Result<u64, ()>)
        requires
            new_end <= u64::MAX - 4095,
        ensures
            old(self).wf() ==> final(self).wf(),
            ({
                let end = up(new_end as int, 4096);
                match brk_plan(old(self), new_end) {
                    BrkPlan::Refuse => res == Ok::<u64, ()>(old(self).brk_cur) && *final(self)
                        == *old(self),
                    plan => if plan is Grow && !granted {
                        res is Err && *final(self) == *old(self)
                    } else {
                        res == Ok::<u64, ()>(end as u64) && *final(self) == (ProcMM {
                            brk_cur: end as u64,
                            mapped_heap_end: end as u64,
                            ..*old(self)
                        })
                    },
                }
            }),
    {
        proof {
            lemma_page();
        }
        let end: u64 = align_up(new_end, PAGE);
        if end < self.heap_start {
            return Ok(self.brk_cur);
        }
        if end > self.mapped_heap_end && !granted {
            return Err(());
        }
        self.mapped_heap_end = end;
        self.brk_cur = end;
        Ok(self.brk_cur)
    }

    /// Moves the break up by `size` bytes.
    pub fn brk_grow_by(&mut self, size: u64, granted: bool) -> (res: Result<u64, ()>)
        requires
            old(self).brk_cur + size <= u64::MAX - 4095,
        ensures
            size == 0 ==> res == Ok::<u64, ()>(old(self).brk_cur) && *final(self) == *old(self),
            size > 0 ==> ({
                let new_end = (old(self).brk_cur + size) as u64;
                let end = up(new_end as int, 4096);
                match brk_plan(old(self), new_end) {
                    BrkPlan::Refuse => res == Ok::<u64, ()>(old(self).brk_cur) && *final(self)
                        == *old(self),
                    plan => if plan is Grow && !granted {
                        res is Err && *final(self) == *old(self)
                    } else {
                        res == Ok::<u64, ()>(end as u64) && *final(self) == (ProcMM {
                            brk_cur: end as u64,
                            mapped_heap_end: end as u64,
                            ..*old(self)
                        })
                    },
                }
            }),
    {
        if size == 0 {
            return Ok(self.brk_cur);
        }
        self.set_brk(self.brk_cur + size, granted)
    }

    /// Fixes where mappings start, once.
    pub fn ensure_mmap_base(&mut self)
        requires
            old(self).mapped_heap_end <= u64::MAX - 4095,
        ensures
            *final(self) == (ProcMM { mmap_base_hint: mmap_base(old(self)) as u64, ..*old(self) }),
            mmap_base(old(self)) <= u64::MAX,
    {
        proof {
            lemma_page();
        }
        if self.mmap_base_hint == 0 {
            let start: u64 = max_u64(self.mapped_heap_end, USER_MMAP_BASE);
            self.mmap_base_hint = align_up(start, PAGE);
        }
    }

    /// Sets a range of addresses aside for a mapping.
    pub fn reserve_mmap_range(&mut self, length: u64) -> (res: Option<u64>)
        requires
            old(self).wf(),
            length <= u64::MAX - 4095,
        ensures
            final(self).wf(),
            ({
                let base = up(mmap_base(old(self)), 4096);
                let end = base + up(length as int, 4096);
                match res {
                    Some(b) => end < USER_UPPER && b == base && *final(self) == (ProcMM {
                        mmap_base_hint: end as u64,
                        ..*old(self)
                    }),
                    None => end >= USER_UPPER && *final(self) == (ProcMM {
                        mmap_base_hint: mmap_base(old(self)) as u64,
                        ..*old(self)
                    }),
                }
            }),
    {
        proof {
            lemma_page();
        }
        self.ensure_mmap_base();
        let len: u64 = align_up(length, PAGE);
        if self.mmap_base_hint > u64::MAX - 4095 {
            proof {
                assert(up(mmap_base(old(self)), 4096) >= mmap_base(old(self)));
            }
            return None;
        }
        let base: u64 = align_up(self.mmap_base_hint, PAGE);
        if base > u64::MAX - len {
            return None;
        }
        let end: u64 = base + len;
        if end >= USER_UPPER {
            return None;
        }
        self.mmap_base_hint = end;
        Some(base)
    }

    /// Remembers a mapping.
    pub fn track_mmap(&mut self, base: u64, len: u64, kind: MmapKind, permissions: VmPermissions)
        ensures
            final(self).mmap_regions@ == old(self).mmap_regions@.push(
                MmapRegion { base, len, kind, permissions, memfd: None },
            ),
            final(self).heap_start == old(self).heap_start,
            final(self).brk_cur == old(self).brk_cur,
            final(self).mapped_heap_end == old(self).mapped_heap_end,
            final(self).mmap_base_hint == old(self).mmap_base_hint,
            final(self).elf_regions == old(self).elf_regions,
    {
        self.mmap_regions.push(MmapRegion { base, len, kind, permissions, memfd: None });
    }

    /// Remembers a mapping of a file in memory.
    pub fn track_memfd_mmap(&mut self, base: u64, len: u64, permissions: VmPermissions, memfd: usize)
        ensures
            final(self).mmap_regions@ == old(self).mmap_regions@.push(
                MmapRegion {
                    base,
                    len,
                    kind: MmapKind::Shared,
                    permissions,
                    memfd: Some(memfd),
                },
            ),
            final(self).heap_start == old(self).heap_start,
            final(self).brk_cur == old(self).brk_cur,
            final(self).mapped_heap_end == old(self).mapped_heap_end,
            final(self).mmap_base_hint == old(self).mmap_base_hint,
            final(self).elf_regions == old(self).elf_regions,
    {
        self.mmap_regions.push(
            MmapRegion { base, len, kind: MmapKind::Shared, permissions, memfd: Some(memfd) },
        );
    }

    /// The first anonymous mapping that covers an address.
    fn find_anonymous(&self, addr: u64) -> (r: Option<MmapRegion>)
        ensures
            r == anonymous_at(self.mmap_regions@, addr),
    {
        let ghost rs = self.mmap_regions@;
        let mut i: usize = 0;
        proof {
            assert(rs.skip(0) =~= rs);
        }
        while i < self.mmap_regions.len()
            invariant
                rs == self.mmap_regions@,
                i <= rs.len(),
                anonymous_at(rs, addr) == anonymous_at(rs.skip(i as int), addr),
            decreases rs.len() - i,
        {
            proof {
                assert(rs.skip(i as int)[0] == rs[i as int]);
                assert(rs.skip(i as int).skip(1) =~= rs.skip(i + 1));
            }
            if self.mmap_regions[i].kind == MmapKind::Anonymous && self.mmap_regions[i].covers_page(
                addr,
            ) {
                return Some(self.mmap_regions[i]);
            }
            i = i + 1;
        }
        None
    }

    /// The first mapping that covers an address.
    fn find_mapping(&self, addr: u64) -> (r: Option<MmapRegion>)
        ensures
            r == mapping_at(self.mmap_regions@, addr),
    {
        let ghost rs = self.mmap_regions@;
        let mut i: usize = 0;
        proof {
            assert(rs.skip(0) =~= rs);
        }
        while i < self.mmap_regions.len()
            invariant
                rs == self.mmap_regions@,
                i <= rs.len(),
                mapping_at(rs, addr) == mapping_at(rs.skip(i as int), addr),
            decreases rs.len() - i,
        {
            proof {
                assert(rs.skip(i as int)[0] == rs[i as int]);
                assert(rs.skip(i as int).skip(1) =~= rs.skip(i + 1));
            }
            if self.mmap_regions[i].covers_page(addr) {
                return Some(self.mmap_regions[i]);
            }
            i = i + 1;
        }
        None
    }

    /// How the missing page at `page_base` is to be filled: with zeros where an
    /// anonymous mapping covers it, else from the parts of the image that meet it.
    pub fn page_fault_plan(&self, page_base: u64) -> (r: Option<PageFaultPlan>)
        ensures
            match anonymous_at(self.mmap_regions@, page_base) {
                Some(m) => r matches Some(p) && p.permissions == m.permissions
                    && p.fragments@.len() == 0,
                None => {
                    let rs = self.elf_regions@;
                    match r {
                        Some(p) => {
                            &&& page_base + 4096 <= u64::MAX
                            &&& image_meets(rs, page_base)
                            &&& p.permissions == image_permissions(rs, page_base)
                            &&& p.fragments@ == fragments(rs, page_base)
                            &&& forall|i: int| 0 <= i < rs.len() ==> !beyond(#[trigger] rs[i], page_base)
                        },
                        None => {
                            ||| page_base + 4096 > u64::MAX
                            ||| !image_meets(rs, page_base)
                            ||| exists|i: int| 0 <= i < rs.len() && beyond(#[trigger] rs[i], page_base)
                        },
                    }
                },
            },
    {
        match self.find_anonymous(page_base) {
            Some(m) => return Some(
                PageFaultPlan { permissions: m.permissions, fragments: Vec::new() },
            ),
            None => {},
        }
        if page_base > u64::MAX - PAGE {
            return None;
        }
        let page_end: u64 = page_base + PAGE;
        let ghost rs = self.elf_regions@;
        let mut permissions: VmPermissions = VmPermissions::default();
        let mut out: Vec<ElfPageFragment> = Vec::new();
        let mut found: bool = false;
        let mut i: usize = 0;
        while i < self.elf_regions.len()
            invariant
                rs == self.elf_regions@,
                i <= rs.len(),
                page_base + 4096 <= u64::MAX,
                page_end == page_base + 4096,
                anonymous_at(self.mmap_regions@, page_base) is None,
                permissions == image_permissions(rs.take(i as int), page_base),
                out@ == fragments(rs.take(i as int), page_base),
                found == exists|k: int| 0 <= k < i && meets(#[trigger] rs[k], page_base),
                forall|k: int| 0 <= k < i ==> !beyond(#[trigger] rs[k], page_base),
            decreases rs.len() - i,
        {
            let r: ElfRegion = self.elf_regions[i];
            proof {
                assert(rs.take(i + 1).drop_last() =~= rs.take(i as int));
                assert(rs.take(i + 1).last() == r);
            }
            let end: u64 = region_end(r.base, r.len);
            if page_base < end && page_end > r.base {
                proof {
                    assert(meets(rs[i as int], page_base));
                }
                found = true;
                permissions = permissions.union(r.permissions);
                let from: u64 = max_u64(page_base, max_u64(r.base, r.file_base));
                let to: u64 = min_u64(page_end, min_u64(end, r.file_end));
                if from < to {
                    let delta: u64 = from - r.file_base;
                    if r.file_offset > u64::MAX - delta {
                        proof {
                            assert(beyond(rs[i as int], page_base));
                        }
                        return None;
                    }
                    out.push(
                        ElfPageFragment {
                            file: r.file,
                            file_offset: r.file_offset + delta,
                            page_offset: from - page_base,
                            len: to - from,
                        },
                    );
                }
            }
            i = i + 1;
        }
        proof {
            assert(rs.take(i as int) =~= rs);
        }
        if found {
            Some(PageFaultPlan { permissions, fragments: out })
        } else {
            None
        }
    }

    /// What the page at `page_base` permits.
    pub fn permissions_for_page(&self, page_base: u64) -> (r: Option<VmPermissions>)
        ensures
            r == page_permissions(self.mmap_regions@, self.elf_regions@, page_base),
    {
        match self.find_mapping(page_base) {
            Some(m) => return Some(m.permissions),
            None => {},
        }
        if page_base > u64::MAX - PAGE {
            return None;
        }
        let page_end: u64 = page_base + PAGE;
        let ghost rs = self.elf_regions@;
        let mut permissions: VmPermissions = VmPermissions::default();
        let mut found: bool = false;
        let mut i: usize = 0;
        while i < self.elf_regions.len()
            invariant
                rs == self.elf_regions@,
                i <= rs.len(),
                page_base + 4096 <= u64::MAX,
                page_end == page_base + 4096,
                permissions == image_permissions(rs.take(i as int), page_base),
                found == exists|k: int| 0 <= k < i && meets(#[trigger] rs[k], page_base),
            decreases rs.len() - i,
        {
            let r: ElfRegion = self.elf_regions[i];
            proof {
                assert(rs.take(i + 1).drop_last() =~= rs.take(i as int));
                assert(rs.take(i + 1).last() == r);
            }
            if page_base < region_end(r.base, r.len) && page_end > r.base {
                proof {
                    assert(meets(rs[i as int], page_base));
                }
                found = true;
                permissions = permissions.union(r.permissions);
            }
            i = i + 1;
        }
        proof {
            assert(rs.take(i as int) =~= rs);
        }
        if found {
            Some(permissions)
        } else {
            None
        }
    }

    /// Whether a shared mapping covers the page at `page_base`.
    pub fn is_shared_page(&self, page_base: u64) -> (r: bool)
        ensures
            r == shared_at(self.mmap_regions@, page_base),
    {
        let ghost rs = self.mmap_regions@;
        let mut i: usize = 0;
        while i < self.mmap_regions.len()
            invariant
                rs == self.mmap_regions@,
                i <= rs.len(),
                forall|k: int|
                    0 <= k < i ==> !((#[trigger] rs[k]).kind == MmapKind::Shared && rs[k].covers(
                        page_base,
                    )),
            decreases rs.len() - i,
        {
            if self.mmap_regions[i].kind == MmapKind::Shared && self.mmap_regions[i].covers_page(
                page_base,
            ) {
                proof {
                    assert(rs[i as int].covers(page_base));
                }
                return true;
            }
            i = i + 1;
        }
        false
    }

    /// Gives the addresses from `base` on new permissions.
    pub fn protect_range(&mut self, base: u64, len: u64, permissions: VmPermissions)
        ensures
            final(self).heap_start == old(self).heap_start,
            final(self).brk_cur == old(self).brk_cur,
            final(self).mapped_heap_end == old(self).mapped_heap_end,
            final(self).mmap_base_hint == old(self).mmap_base_hint,
            base + len > u64::MAX ==> final(self).mmap_regions@ == old(self).mmap_regions@
                && final(self).elf_regions@ == old(self).elf_regions@,
            base + len <= u64::MAX ==> final(self).mmap_regions@ == protected(
                old(self).mmap_regions@,
                base,
                (base + len) as u64,
                permissions,
            ) && final(self).elf_regions@ == image_protected(
                old(self).elf_regions@,
                base,
                (base + len) as u64,
                permissions,
            ),
    {
        if base > u64::MAX - len {
            return ;
        }
        self.mmap_regions = protect_mmap_regions(&self.mmap_regions, base, base + len, permissions);
        self.elf_regions = protect_elf_regions(&self.elf_regions, base, base + len, permissions);
    }

    /// Takes the addresses from `base` on out of the mappings; gives what was there.
    pub fn remove_mmap_range(&mut self, base: u64, len: u64) -> (r: Vec<MmapRegion>)
        ensures
            final(self).heap_start == old(self).heap_start,
            final(self).brk_cur == old(self).brk_cur,
            final(self).mapped_heap_end == old(self).mapped_heap_end,
            final(self).mmap_base_hint == old(self).mmap_base_hint,
            final(self).elf_regions == old(self).elf_regions,
            base + len > u64::MAX ==> r@.len() == 0 && final(self).mmap_regions@ == old(
                self,
            ).mmap_regions@,
            base + len <= u64::MAX ==> r@ == removed(
                old(self).mmap_regions@,
                base,
                (base + len) as u64,
            ) && final(self).mmap_regions@ == kept(
                old(self).mmap_regions@,
                base,
                (base + len) as u64,
            ),
    {
        if base > u64::MAX - len {
            return Vec::new();
        }
        let end: u64 = base + len;
        let ghost rs = self.mmap_regions@;
        let mut left: Vec<MmapRegion> = Vec::new();
        let mut gone: Vec<MmapRegion> = Vec::new();
        let mut i: usize = 0;
        proof {
            assert(rs.skip(0) =~= rs);
            assert(left@ + kept(rs, base, end) =~= kept(rs, base, end));
            assert(gone@ + removed(rs, base, end) =~= removed(rs, base, end));
        }
        while i < self.mmap_regions.len()
            invariant
                rs == self.mmap_regions@,
                i <= rs.len(),
                left@ + kept(rs.skip(i as int), base, end) == kept(rs, base, end),
                gone@ + removed(rs.skip(i as int), base, end) == removed(rs, base, end),
            decreases rs.len() - i,
        {
            let r: MmapRegion = self.mmap_regions[i];
            let ghost left0 = left@;
            let ghost gone0 = gone@;
            proof {
                assert(rs.skip(i as int)[0] == r);
                assert(rs.skip(i as int).skip(1) =~= rs.skip(i + 1));
            }
            let re: u64 = region_end(r.base, r.len);
            let a: u64 = max_u64(base, r.base);
            let b: u64 = min_u64(end, re);
            if a >= b {
                left.push(r);
            } else {
                gone.push(MmapRegion { base: a, len: b - a, ..r });
                if r.base < a {
                    left.push(MmapRegion { len: a - r.base, ..r });
                }
                if b < re {
                    left.push(MmapRegion { base: b, len: re - b, ..r });
                }
            }
            proof {
                let k = kept(rs.skip(i + 1), base, end);
                let g = removed(rs.skip(i + 1), base, end);
                assert(left@ =~= left0 + kept_one(r, base, end));
                assert(gone@ =~= gone0 + removed_one(r, base, end));
                assert(left0 + (kept_one(r, base, end) + k) =~= left@ + k);
                assert(gone0 + (removed_one(r, base, end) + g) =~= gone@ + g);
            }
            i = i + 1;
        }
        proof {
            assert(rs.skip(i as int).len() == 0);
            assert(left@ + kept(rs.skip(i as int), base, end) =~= left@);
            assert(gone@ + removed(rs.skip(i as int), base, end) =~= gone@);
        }
        self.mmap_regions = left;
        gone
    }

    /// Takes the addresses from `base` on out of the image; gives what was there.
    pub fn remove_elf_range(&mut self, base: u64, len: u64) -> (r: Vec<ElfRegion>)
        ensures
            final(self).heap_start == old(self).heap_start,
            final(self).brk_cur == old(self).brk_cur,
            final(self).mapped_heap_end == old(self).mapped_heap_end,
            final(self).mmap_base_hint == old(self).mmap_base_hint,
            final(self).mmap_regions == old(self).mmap_regions,
            base + len > u64::MAX ==> r@.len() == 0 && final(self).elf_regions@ == old(
                self,
            ).elf_regions@,
            base + len <= u64::MAX ==> r@ == image_removed(
                old(self).elf_regions@,
                base,
                (base + len) as u64,
            ) && final(self).elf_regions@ == image_kept(
                old(self).elf_regions@,
                base,
                (base + len) as u64,
            ),
    {
        if base > u64::MAX - len {
            return Vec::new();
        }
        let end: u64 = base + len;
        let ghost rs = self.elf_regions@;
        let mut left: Vec<ElfRegion> = Vec::new();
        let mut gone: Vec<ElfRegion> = Vec::new();
        let mut i: usize = 0;
        proof {
            assert(rs.skip(0) =~= rs);
            assert(left@ + image_kept(rs, base, end) =~= image_kept(rs, base, end));
            assert(gone@ + image_removed(rs, base, end) =~= image_removed(rs, base, end));
        }
        while i < self.elf_regions.len()
            invariant
                rs == self.elf_regions@,
                i <= rs.len(),
                left@ + image_kept(rs.skip(i as int), base, end) == image_kept(rs, base, end),
                gone@ + image_removed(rs.skip(i as int), base, end) == image_removed(rs, base, end),
            decreases rs.len() - i,
        {
            let r: ElfRegion = self.elf_regions[i];
            let ghost left0 = left@;
            let ghost gone0 = gone@;
            proof {
                assert(rs.skip(i as int)[0] == r);
                assert(rs.skip(i as int).skip(1) =~= rs.skip(i + 1));
            }
            let re: u64 = region_end(r.base, r.len);
            let a: u64 = max_u64(base, r.base);
            let b: u64 = min_u64(end, re);
            if a >= b {
                left.push(r);
            } else {
                gone.push(shift(ElfRegion { base: a, len: b - a, ..r }, a - r.base));
                if r.base < a {
                    left.push(ElfRegion { len: a - r.base, ..r });
                }
                if b < re {
                    left.push(shift(ElfRegion { base: b, len: re - b, ..r }, b - r.base));
                }
            }
            proof {
                let k = image_kept(rs.skip(i + 1), base, end);
                let g = image_removed(rs.skip(i + 1), base, end);
                assert(left@ =~= left0 + image_kept_one(r, base, end));
                assert(gone@ =~= gone0 + image_removed_one(r, base, end));
                assert(left0 + (image_kept_one(r, base, end) + k) =~= left@ + k);
                assert(gone0 + (image_removed_one(r, base, end) + g) =~= gone@ + g);
            }
            i = i + 1;
        }
        proof {
            assert(rs.skip(i as int).len() == 0);
            assert(left@ + image_kept(rs.skip(i as int), base, end) =~= left@);
            assert(gone@ + image_removed(rs.skip(i as int), base, end) =~= gone@);
        }
        self.elf_regions = left;
        gone
    }

    pub fn curr_brk(&self) -> (r: u64)
        ensures
            r == self.brk_cur,
    {
        self.brk_cur
    }
}

fn shift(r: ElfRegion, d: u64) -> (s: ElfRegion)
    ensures
        s == shifted(r, d),
{
    ElfRegion {
        file_base: r.file_base.wrapping_add(d),
        file_offset: r.file_offset.wrapping_add(d),
        file_end: r.file_end.wrapping_add(d),
        ..r
    }
}

/// What a page permits: what the first mapping that covers it does, else what the
/// parts of the image that meet it do together.
pub open spec fn page_permissions(
    ms: Seq<MmapRegion>,
    rs: Seq<ElfRegion>,
    page: u64,
) -> Option<VmPermissions> {
    match mapping_at(ms, page) {
        Some(m) => Some(m.permissions),
        None => if page + 4096 <= u64::MAX && image_meets(rs, page) {
            Some(image_permissions(rs, page))
        } else {
            None
        },
    }
}

/// Gives the pages from `base` up to `end` other permissions: what is mapped is mapped as
/// before, and mappings that cover no address twice still cover none twice.
pub fn protect_mmap_regions(regions: &Vec<MmapRegion>, base: u64, end: u64, permissions: VmPermissions) -> (r:
    Vec<MmapRegion>)
    ensures
        r@ == protected(regions@, base, end, permissions),
        disjoint(regions@) ==> disjoint(r@),
        forall|addr: u64|
            #![trigger mapping_at(r@, addr)]
            #![trigger mapping_at(regions@, addr)]
            protected_page(regions@, r@, base, end, permissions, addr),
{
    proof {
        if disjoint(regions@) {
            lemma_protected_disjoint(regions@, base, end, permissions);
        }
        assert forall|addr: u64|
            protected_page(
                regions@,
                protected(regions@, base, end, permissions),
                base,
                end,
                permissions,
                addr,
            ) by {
            lemma_protected(regions@, base, end, permissions, addr);
        }
    }
    let ghost rs = regions@;
    let mut out: Vec<MmapRegion> = Vec::new();
    let mut i: usize = 0;
    proof {
        assert(rs.skip(0) =~= rs);
        assert(out@ + protected(rs, base, end, permissions) =~= protected(rs, base, end, permissions));
    }
    while i < regions.len()
        invariant
            rs == regions@,
            i <= rs.len(),
            out@ + protected(rs.skip(i as int), base, end, permissions) == protected(
                rs,
                base,
                end,
                permissions,
            ),
        decreases rs.len() - i,
    {
        let r: MmapRegion = regions[i];
        let ghost out0 = out@;
        proof {
            assert(rs.skip(i as int)[0] == r);
            assert(rs.skip(i as int).skip(1) =~= rs.skip(i + 1));
        }
        let re: u64 = region_end(r.base, r.len);
        let a: u64 = max_u64(base, r.base);
        let b: u64 = min_u64(end, re);
        if a >= b {
            out.push(r);
        } else {
            if r.base < a {
                out.push(MmapRegion { len: a - r.base, ..r });
            }
            out.push(MmapRegion { base: a, len: b - a, permissions, ..r });
            if b < re {
                out.push(MmapRegion { base: b, len: re - b, ..r });
            }
        }
        proof {
            let rest = protected(rs.skip(i + 1), base, end, permissions);
            assert(out@ =~= out0 + protected_one(r, base, end, permissions));
            assert(out0 + (protected_one(r, base, end, permissions) + rest) =~= out@ + rest);
        }
        i = i + 1;
    }
    proof {
        assert(rs.skip(i as int).len() == 0);
        assert(out@ + protected(rs.skip(i as int), base, end, permissions) =~= out@);
    }
    out
}

fn protect_elf_regions(regions: &Vec<ElfRegion>, base: u64, end: u64, permissions: VmPermissions) -> (r:
    Vec<ElfRegion>)
    ensures
        r@ == image_protected(regions@, base, end, permissions),
{
    let ghost rs = regions@;
    let mut out: Vec<ElfRegion> = Vec::new();
    let mut i: usize = 0;
    proof {
        assert(rs.skip(0) =~= rs);
        assert(out@ + image_protected(rs, base, end, permissions) =~= image_protected(
            rs,
            base,
            end,
            permissions,
        ));
    }
    while i < regions.len()
        invariant
            rs == regions@,
            i <= rs.len(),
            out@ + image_protected(rs.skip(i as int), base, end, permissions) == image_protected(
                rs,
                base,
                end,
                permissions,
            ),
        decreases rs.len() - i,
    {
        let r: ElfRegion = regions[i];
        let ghost out0 = out@;
        proof {
            assert(rs.skip(i as int)[0] == r);
            assert(rs.skip(i as int).skip(1) =~= rs.skip(i + 1));
        }
        let re: u64 = region_end(r.base, r.len);
        let a: u64 = max_u64(base, r.base);
        let b: u64 = min_u64(end, re);
        if a >= b {
            out.push(r);
        } else {
            if r.base < a {
                out.push(ElfRegion { len: a - r.base, ..r });
            }
            out.push(ElfRegion { base: a, len: b - a, permissions, ..r });
            if b < re {
                out.push(ElfRegion { base: b, len: re - b, ..r });
            }
        }
        proof {
            let rest = image_protected(rs.skip(i + 1), base, end, permissions);
            assert(out@ =~= out0 + image_protected_one(r, base, end, permissions));
            assert(out0 + (image_protected_one(r, base, end, permissions) + rest) =~= out@ + rest);
        }
        i = i + 1;
    }
    proof {
        assert(rs.skip(i as int).len() == 0);
        assert(out@ + image_protected(rs.skip(i as int), base, end, permissions) =~= out@);
    }
    out
}

pub proof fn lemma_mapping_at_concat(a: Seq<MmapRegion>, b: Seq<MmapRegion>, addr: u64)
    ensures
        mapping_at(a + b, addr) == match mapping_at(a, addr) {
            Some(m) => Some(m),
            None => mapping_at(b, addr),
        },
    decreases a.len(),
{
    if a.len() == 0 {
        assert(a + b =~= b);
    } else {
        assert((a + b)[0] == a[0]);
        assert((a + b).skip(1) =~= a.skip(1) + b);
        lemma_mapping_at_concat(a.skip(1), b, addr);
    }
}

proof fn lemma_three(x: Seq<MmapRegion>, addr: u64)
    requires
        x.len() <= 3,
    ensures
        mapping_at(x, addr) == if x.len() > 0 && x[0].covers(addr) {
            Some(x[0])
        } else if x.len() > 1 && x[1].covers(addr) {
            Some(x[1])
        } else if x.len() > 2 && x[2].covers(addr) {
            Some(x[2])
        } else {
            None
        },
{
    reveal_with_fuel(mapping_at, 5);
}

/// Whether an address is mapped after permissions were changed as before, but with the new
/// permissions where they were asked for.
pub open spec fn protected_page(
    before: Seq<MmapRegion>,
    after: Seq<MmapRegion>,
    base: u64,
    end: u64,
    p: VmPermissions,
    addr: u64,
) -> bool {
    match (mapping_at(before, addr), mapping_at(after, addr)) {
        (Some(m), Some(n)) => {
            &&& n.kind == m.kind
            &&& n.memfd == m.memfd
            &&& n.permissions == if base <= addr < end {
                p
            } else {
                m.permissions
            }
        },
        (None, None) => true,
        _ => false,
    }
}

/// After permissions were changed, every address that was mapped still is, in the
/// same way; it has the new permissions where it lies in the range, else its own.
pub proof fn lemma_protected(
    rs: Seq<MmapRegion>,
    base: u64,
    end: u64,
    p: VmPermissions,
    addr: u64,
)
    ensures
        protected_page(rs, protected(rs, base, end, p), base, end, p, addr),
    decreases rs.len(),
{
    if rs.len() > 0 {
        let one = protected_one(rs[0], base, end, p);
        let rest = protected(rs.skip(1), base, end, p);
        lemma_protected(rs.skip(1), base, end, p, addr);
        lemma_mapping_at_concat(one, rest, addr);
        lemma_three(one, addr);
    }
}

/// Whether no two mappings cover the same address.
pub open spec fn disjoint(rs: Seq<MmapRegion>) -> bool {
    forall|i: int, j: int, addr: u64|
        #![trigger rs[i].covers(addr), rs[j].covers(addr)]
        0 <= i < j < rs.len() ==> !(rs[i].covers(addr) && rs[j].covers(addr))
}

/// Whether a mapping covers an address.
pub open spec fn covered(rs: Seq<MmapRegion>, addr: u64) -> bool {
    exists|i: int| 0 <= i < rs.len() && (#[trigger] rs[i]).covers(addr)
}

proof fn lemma_disjoint_concat(r: MmapRegion, one: Seq<MmapRegion>, rs: Seq<MmapRegion>, rest: Seq<
    MmapRegion,
>)
    requires
        disjoint(seq![r] + rs),
        disjoint(one),
        disjoint(rest),
        forall|i: int, addr: u64|
            0 <= i < one.len() && #[trigger] one[i].covers(addr) ==> r.covers(addr),
        forall|i: int, addr: u64|
            0 <= i < rest.len() && #[trigger] rest[i].covers(addr) ==> covered(rs, addr),
    ensures
        disjoint(one + rest),
        forall|i: int, addr: u64|
            0 <= i < (one + rest).len() && #[trigger] (one + rest)[i].covers(addr) ==> covered(
                seq![r] + rs,
                addr,
            ),
{
    let all = one + rest;
    let whole = seq![r] + rs;
    assert forall|i: int, j: int, addr: u64|
        #![trigger all[i].covers(addr), all[j].covers(addr)]
        0 <= i < j < all.len() implies !(all[i].covers(addr) && all[j].covers(addr)) by {
        let n = one.len() as int;
        if all[i].covers(addr) && all[j].covers(addr) {
            if j < n {
                assert(one[i].covers(addr) && one[j].covers(addr));
            } else if i >= n {
                assert(rest[i - n].covers(addr) && rest[j - n].covers(addr));
            } else {
                assert(one[i].covers(addr) && rest[j - n].covers(addr));
                let k = choose|k: int| 0 <= k < rs.len() && (#[trigger] rs[k]).covers(addr);
                assert(whole[0].covers(addr) && whole[k + 1].covers(addr));
            }
        }
    }
    assert forall|i: int, addr: u64|
        0 <= i < all.len() && #[trigger] all[i].covers(addr) implies covered(whole, addr) by {
        let n = one.len() as int;
        if i < n {
            assert(one[i].covers(addr));
            assert(whole[0].covers(addr));
        } else {
            assert(rest[i - n].covers(addr));
            let k = choose|k: int| 0 <= k < rs.len() && (#[trigger] rs[k]).covers(addr);
            assert(whole[k + 1].covers(addr));
        }
    }
}

/// Mappings that cover no address twice do not after permissions were changed, and they
/// cover no address that they did not.
pub proof fn lemma_protected_disjoint(rs: Seq<MmapRegion>, base: u64, end: u64, p: VmPermissions)
    requires
        disjoint(rs),
    ensures
        disjoint(protected(rs, base, end, p)),
        forall|i: int, addr: u64|
            0 <= i < protected(rs, base, end, p).len() && #[trigger] protected(
                rs,
                base,
                end,
                p,
            )[i].covers(addr) ==> covered(rs, addr),
    decreases rs.len(),
{
    if rs.len() > 0 {
        let one = protected_one(rs[0], base, end, p);
        let rest = protected(rs.skip(1), base, end, p);
        assert(disjoint(rs.skip(1))) by {
            assert forall|i: int, j: int, addr: u64|
                #![trigger rs.skip(1)[i].covers(addr), rs.skip(1)[j].covers(addr)]
                0 <= i < j < rs.skip(1).len() implies !(rs.skip(1)[i].covers(addr) && rs.skip(
                1,
            )[j].covers(addr)) by {
                assert(rs[i + 1].covers(addr) == rs.skip(1)[i].covers(addr));
                assert(rs[j + 1].covers(addr) == rs.skip(1)[j].covers(addr));
            }
        }
        lemma_protected_disjoint(rs.skip(1), base, end, p);
        assert(seq![rs[0]] + rs.skip(1) =~= rs);
        lemma_disjoint_concat(rs[0], one, rs.skip(1), rest);
    }
}

/// Mappings that cover no address twice do not after a range was removed, and they cover
/// no address that they did not.
pub proof fn lemma_kept_disjoint(rs: Seq<MmapRegion>, base: u64, end: u64)
    requires
        disjoint(rs),
    ensures
        disjoint(kept(rs, base, end)),
        forall|i: int, addr: u64|
            0 <= i < kept(rs, base, end).len() && #[trigger] kept(rs, base, end)[i].covers(addr)
                ==> covered(rs, addr),
    decreases rs.len(),
{
    if rs.len() > 0 {
        let one = kept_one(rs[0], base, end);
        let rest = kept(rs.skip(1), base, end);
        assert(disjoint(rs.skip(1))) by {
            assert forall|i: int, j: int, addr: u64|
                #![trigger rs.skip(1)[i].covers(addr), rs.skip(1)[j].covers(addr)]
                0 <= i < j < rs.skip(1).len() implies !(rs.skip(1)[i].covers(addr) && rs.skip(
                1,
            )[j].covers(addr)) by {
                assert(rs[i + 1].covers(addr) == rs.skip(1)[i].covers(addr));
                assert(rs[j + 1].covers(addr) == rs.skip(1)[j].covers(addr));
            }
        }
        lemma_kept_disjoint(rs.skip(1), base, end);
        assert(seq![rs[0]] + rs.skip(1) =~= rs);
        lemma_disjoint_concat(rs[0], one, rs.skip(1), rest);
    }
}

/// After a range was removed no address in it is mapped, and every other address is
/// mapped as before.
pub proof fn lemma_kept(rs: Seq<MmapRegion>, base: u64, end: u64, addr: u64)
    ensures
        base <= addr < end ==> mapping_at(kept(rs, base, end), addr) is None,
        !(base <= addr < end) ==> match (
            mapping_at(rs, addr),
            mapping_at(kept(rs, base, end), addr),
        ) {
            (Some(m), Some(n)) => n.kind == m.kind && n.memfd == m.memfd && n.permissions
                == m.permissions,
            (None, None) => true,
            _ => false,
        },
    decreases rs.len(),
{
    if rs.len() > 0 {
        let one = kept_one(rs[0], base, end);
        let rest = kept(rs.skip(1), base, end);
        lemma_kept(rs.skip(1), base, end, addr);
        lemma_mapping_at_concat(one, rest, addr);
        lemma_three(one, addr);
    }
}

/// What was removed is what was mapped in the range.
pub proof fn lemma_removed(rs: Seq<MmapRegion>, base: u64, end: u64, addr: u64)
    ensures
        mapping_at(removed(rs, base, end), addr) is Some <==> base <= addr < end && mapping_at(
            rs,
            addr,
        ) is Some,
    decreases rs.len(),
{
    if rs.len() > 0 {
        let one = removed_one(rs[0], base, end);
        let rest = removed(rs.skip(1), base, end);
        lemma_removed(rs.skip(1), base, end, addr);
        lemma_mapping_at_concat(one, rest, addr);
        lemma_three(one, addr);
    }
}

} // verus!
