//! Program images.

use crate::bytes::{cut, is_utf8, le_value, read_u16, read_u32, read_u64, trim_end_len, trim_end_spec};
use crate::proc::mem::{down, larger, power_of_two, up, wrapped, ElfRegion, VmPermissions};
use vstd::prelude::*;

verus! {

pub const PT_LOAD: u32 = 1;

pub const PT_INTERP: u32 = 3;

pub const PT_PHDR: u32 = 6;

pub const PT_TLS: u32 = 7;

pub const PF_X: u32 = 1;

pub const PF_W: u32 = 2;

pub const PF_R: u32 = 4;

/// Where a program that can be loaded anywhere is loaded.
pub const MAIN_DYN_LOAD_BASE: u64 = 0x4000_0000;

/// Where an interpreter that can be loaded anywhere is loaded.
pub const INTERP_DYN_LOAD_BASE: u64 = 0x6000_0000;

pub const PAGE_SIZE_U64: u64 = 4096;

/// A file that can be read at any place.
pub trait ReadAt {
    /// What the file holds.
    spec fn content(&self) -> Seq<u8>;

    /// Whether every request within the file is carried out.
    spec fn readable(&self) -> bool;

    fn size(&self) -> (r: u64)
        ensures
            r == self.content().len(),
    ;

    /// Reads `n` bytes from `offset` on.
    fn read_exact(&self, offset: u64, n: u64) -> (r: Result<Vec<u8>, ()>)
        ensures
            match r {
                Ok(v) => offset + n <= self.content().len() && v@ == self.content().subrange(
                    offset as int,
                    offset + n,
                ),
                Err(_) => !(self.readable() && offset + n <= self.content().len()),
            },
    ;
}

/// A file whose bytes are at hand.
pub struct MemFile {
    pub data: Vec<u8>,
}

impl ReadAt for MemFile {
    open spec fn content(&self) -> Seq<u8> {
        self.data@
    }

    open spec fn readable(&self) -> bool {
        true
    }

    fn size(&self) -> (r: u64) {
        self.data.len() as u64
    }

    fn read_exact(&self, offset: u64, n: u64) -> (r: Result<Vec<u8>, ()>) {
        let len: u64 = self.data.len() as u64;
        if n > len || offset > len - n {
            return Err(());
        }
        Ok(cut(&self.data, offset as usize, (offset + n) as usize))
    }
}

/// The header of a program file, as far as loading needs it.
#[derive(Debug, Clone, Copy, PartialEq, Eq, Structural)]
pub struct Elf64Ehdr {
    pub e_type: u16,
    pub e_entry: u64,
    pub e_phoff: u64,
    pub e_phentsize: u16,
    pub e_phnum: u16,
}

/// A program header.
#[derive(Debug, Clone, Copy, PartialEq, Eq, Structural)]
pub struct Elf64Phdr {
    pub p_type: u32,
    pub p_flags: u32,
    pub p_offset: u64,
    pub p_vaddr: u64,
    pub p_filesz: u64,
    pub p_memsz: u64,
}

/// A program image that was laid out.
pub struct LoadedImage {
    pub entry_point: u64,
    pub phdr_va: u64,
    pub phent: u64,
    pub phnum: u64,
    pub max_end: u64,
    pub load_base: u64,
    pub has_tls: bool,
    pub interp_path: Option<Vec<u8>>,
}

/// What a laid out image says.
#[verifier::ext_equal]
pub struct ImageView {
    pub entry_point: u64,
    pub phdr_va: u64,
    pub phent: u64,
    pub phnum: u64,
    pub max_end: u64,
    pub load_base: u64,
    pub has_tls: bool,
    pub interp_path: Option<Seq<u8>>,
}

impl View for LoadedImage {
    type V = ImageView;

    open spec fn view(&self) -> ImageView {
        ImageView {
            entry_point: self.entry_point,
            phdr_va: self.phdr_va,
            phent: self.phent,
            phnum: self.phnum,
            max_end: self.max_end,
            load_base: self.load_base,
            has_tls: self.has_tls,
            interp_path: match self.interp_path {
                Some(p) => Some(p@),
                None => None,
            },
        }
    }
}

/// `value` rounded down to a multiple of `align`, a power of two.
pub fn align_down_u64(value: u64, align: u64) -> (r: u64)
    requires
        power_of_two(align),
    ensures
        r == down(value as int, align as int),
{
    crate::proc::mem::align_dn(value, align)
}

/// `value` rounded up to a multiple of `align`, a power of two, where that is an
/// address.
pub fn align_up_u64(value: u64, align: u64) -> (r: Option<u64>)
    requires
        power_of_two(align),
    ensures
        r == if value + (align - 1) > u64::MAX {
            None
        } else {
            Some(up(value as int, align as int) as u64)
        },
        r is Some ==> up(value as int, align as int) <= u64::MAX,
{
    proof {
        crate::proc::mem::lemma_power_positive(align);
    }
    if value > u64::MAX - (align - 1) {
        return None;
    }
    Some(crate::proc::mem::align_up(value, align))
}

pub open spec fn field16(s: Seq<u8>, at: int) -> u16 {
    le_value(s.subrange(at, at + 2)) as u16
}

pub open spec fn field32(s: Seq<u8>, at: int) -> u32 {
    le_value(s.subrange(at, at + 4)) as u32
}

pub open spec fn field64(s: Seq<u8>, at: int) -> u64 {
    le_value(s.subrange(at, at + 8)) as u64
}

/// The header at the start of a program file.
pub open spec fn header_of(c: Seq<u8>) -> Elf64Ehdr {
    Elf64Ehdr {
        e_type: field16(c, 16),
        e_entry: field64(c, 24),
        e_phoff: field64(c, 32),
        e_phentsize: field16(c, 54),
        e_phnum: field16(c, 56),
    }
}

/// The program header at a place in a file.
pub open spec fn phdr_at(c: Seq<u8>, at: int) -> Elf64Phdr {
    Elf64Phdr {
        p_type: field32(c, at),
        p_flags: field32(c, at + 4),
        p_offset: field64(c, at + 8),
        p_vaddr: field64(c, at + 16),
        p_filesz: field64(c, at + 32),
        p_memsz: field64(c, at + 40),
    }
}

/// Whether a file is a program with program headers that lie in it.
pub open spec fn program_file(c: Seq<u8>) -> bool {
    let h = header_of(c);
    &&& c.len() >= 64
    &&& c[0] == 0x7F && c[1] == 0x45 && c[2] == 0x4C && c[3] == 0x46
    &&& h.e_phentsize >= 56
    &&& h.e_phoff + h.e_phentsize * h.e_phnum <= c.len()
}

/// The program headers of a file.
pub open spec fn phdrs(c: Seq<u8>) -> Seq<Elf64Phdr> {
    let h = header_of(c);
    Seq::new(h.e_phnum as nat, |i: int| phdr_at(c, h.e_phoff + i * h.e_phentsize))
}

/// Where a program is loaded.
pub open spec fn load_bias(h: Elf64Ehdr, hint: Option<u64>) -> u64 {
    if h.e_type == 3 {
        match hint {
            Some(b) => b,
            None => MAIN_DYN_LOAD_BASE,
        }
    } else {
        0
    }
}

/// Whether the bytes of a program header lie in the file.
pub open spec fn bytes_in_file(c: Seq<u8>, p: Elf64Phdr) -> bool {
    p.p_offset + p.p_filesz <= c.len()
}

/// Where the program headers say that they are.
pub open spec fn stated_phdr(ps: Seq<Elf64Phdr>, bias: u64) -> u64
    decreases ps.len(),
{
    if ps.len() == 0 {
        0
    } else if ps.last().p_type == PT_PHDR {
        wrapped(bias + ps.last().p_vaddr)
    } else {
        stated_phdr(ps.drop_last(), bias)
    }
}

/// The path that a program header holds.
pub open spec fn path_in(c: Seq<u8>, p: Elf64Phdr) -> Seq<u8> {
    c.subrange(p.p_offset as int, p.p_offset + p.p_filesz)
}

/// The interpreter that the program headers name: the last path that is text.
pub open spec fn interp_of(c: Seq<u8>, ps: Seq<Elf64Phdr>) -> Option<Seq<u8>>
    decreases ps.len(),
{
    if ps.len() == 0 {
        None
    } else if ps.last().p_type == PT_INTERP && vstd::utf8::valid_utf8(path_in(c, ps.last())) {
        Some(trim_end_spec(path_in(c, ps.last()), 0))
    } else {
        interp_of(c, ps.drop_last())
    }
}

/// Whether a program header asks for thread-local memory.
pub open spec fn wants_tls(ps: Seq<Elf64Phdr>) -> bool {
    exists|i: int| 0 <= i < ps.len() && (#[trigger] ps[i]).p_type == PT_TLS && ps[i].p_memsz != 0
}

/// Whether the first segment that holds the program headers is `ps[i]`.
pub open spec fn holds_table(h: Elf64Ehdr, p: Elf64Phdr) -> bool {
    &&& p.p_type == PT_LOAD
    &&& h.e_phoff >= p.p_offset
    &&& h.e_phoff + h.e_phentsize * h.e_phnum <= wrapped(p.p_offset + p.p_filesz)
}

/// Where the program headers are, by the segment that holds them.
pub open spec fn found_phdr(h: Elf64Ehdr, ps: Seq<Elf64Phdr>, bias: u64) -> u64
    decreases ps.len(),
{
    if ps.len() == 0 {
        0
    } else if holds_table(h, ps[0]) {
        wrapped(wrapped(bias + ps[0].p_vaddr) + (h.e_phoff - ps[0].p_offset))
    } else {
        found_phdr(h, ps.skip(1), bias)
    }
}

/// Whether a segment is loaded.
pub open spec fn is_loaded(p: Elf64Phdr) -> bool {
    p.p_type == PT_LOAD && p.p_memsz != 0
}

/// Whether a segment can be laid out: its bytes are in the file and no more than
/// its memory, its memory is in the address space, and file and memory agree on
/// where pages begin.
pub open spec fn segment_valid(c: Seq<u8>, p: Elf64Phdr, bias: u64) -> bool {
    &&& p.p_filesz <= p.p_memsz
    &&& bytes_in_file(c, p)
    &&& bias + p.p_vaddr + p.p_memsz + 4095 <= u64::MAX
    &&& p.p_offset % 4096 == (bias + p.p_vaddr) % 4096
}

/// The memory of a segment.
pub open spec fn segment_region(p: Elf64Phdr, bias: u64, file: usize) -> ElfRegion {
    let start = bias + p.p_vaddr;
    let from = down(start, 4096);
    ElfRegion {
        base: from as u64,
        len: (up(start + p.p_memsz, 4096) - from) as u64,
        file_base: from as u64,
        file_offset: down(p.p_offset as int, 4096) as u64,
        file_end: (start + p.p_filesz) as u64,
        permissions: VmPermissions {
            read: p.p_flags & PF_R != 0,
            write: p.p_flags & PF_W != 0,
            execute: p.p_flags & PF_X != 0,
        },
        file,
    }
}

/// The memory of all segments.
pub open spec fn segment_regions(ps: Seq<Elf64Phdr>, bias: u64, file: usize) -> Seq<ElfRegion>
    decreases ps.len(),
{
    if ps.len() == 0 {
        Seq::<ElfRegion>::empty()
    } else if is_loaded(ps.last()) {
        segment_regions(ps.drop_last(), bias, file).push(segment_region(ps.last(), bias, file))
    } else {
        segment_regions(ps.drop_last(), bias, file)
    }
}

/// Where the memory of all segments ends.
pub open spec fn segments_end(ps: Seq<Elf64Phdr>, bias: u64) -> u64
    decreases ps.len(),
{
    if ps.len() == 0 {
        0
    } else if is_loaded(ps.last()) {
        larger(
            segments_end(ps.drop_last(), bias),
            (bias + ps.last().p_vaddr + ps.last().p_memsz) as u64,
        )
    } else {
        segments_end(ps.drop_last(), bias)
    }
}

/// Whether a program file can be laid out.
pub open spec fn loadable(c: Seq<u8>, hint: Option<u64>, capture_interp: bool) -> bool {
    let ps = phdrs(c);
    let bias = load_bias(header_of(c), hint);
    &&& program_file(c)
    &&& forall|i: int|
        0 <= i < ps.len() && (#[trigger] ps[i]).p_type == PT_INTERP && capture_interp
            ==> bytes_in_file(c, ps[i])
    &&& forall|i: int|
        0 <= i < ps.len() && is_loaded(#[trigger] ps[i]) ==> segment_valid(c, ps[i], bias)
}

/// The layout of a program file.
pub open spec fn layout(c: Seq<u8>, hint: Option<u64>, capture_interp: bool) -> ImageView {
    let h = header_of(c);
    let ps = phdrs(c);
    let bias = load_bias(h, hint);
    let stated = stated_phdr(ps, bias);
    ImageView {
        entry_point: wrapped(h.e_entry + bias),
        phdr_va: if stated != 0 {
            stated
        } else {
            found_phdr(h, ps, bias)
        },
        phent: h.e_phentsize as u64,
        phnum: h.e_phnum as u64,
        max_end: segments_end(ps, bias),
        load_base: bias,
        has_tls: wants_tls(ps),
        interp_path: if capture_interp {
            interp_of(c, ps)
        } else {
            None
        },
    }
}

/// Reads the header of a program file, where it is one.
fn read_header<F: ReadAt>(file: &F) -> (r: Result<Elf64Ehdr, ()>)
    ensures
        match r {
            Ok(h) => program_file(file.content()) && h == header_of(file.content()),
            Err(_) => file.readable() ==> !program_file(file.content()),
        },
{
    let b: Vec<u8> = match file.read_exact(0, 64) {
        Ok(b) => b,
        Err(_) => return Err(()),
    };
    let ghost c = file.content();
    proof {
        assert(b@.subrange(16, 18) =~= c.subrange(16, 18));
        assert(b@.subrange(24, 32) =~= c.subrange(24, 32));
        assert(b@.subrange(32, 40) =~= c.subrange(32, 40));
        assert(b@.subrange(54, 56) =~= c.subrange(54, 56));
        assert(b@.subrange(56, 58) =~= c.subrange(56, 58));
    }
    if b[0] != 0x7F || b[1] != 0x45 || b[2] != 0x4C || b[3] != 0x46 {
        return Err(());
    }
    let h: Elf64Ehdr = Elf64Ehdr {
        e_type: read_u16(&b, 16),
        e_entry: read_u64(&b, 24),
        e_phoff: read_u64(&b, 32),
        e_phentsize: read_u16(&b, 54),
        e_phnum: read_u16(&b, 56),
    };
    if h.e_phentsize < 56 {
        return Err(());
    }
    proof {
        assert(h.e_phentsize * h.e_phnum <= 0xffff * 0xffff) by (nonlinear_arith)
            requires
                h.e_phentsize <= 0xffff,
                h.e_phnum <= 0xffff,
        ;
    }
    let table: u64 = h.e_phentsize as u64 * h.e_phnum as u64;
    let size: u64 = file.size();
    if table > size || h.e_phoff > size - table {
        return Err(());
    }
    Ok(h)
}

/// Reads the program headers.
fn read_phdrs<F: ReadAt>(file: &F, h: &Elf64Ehdr) -> (r: Result<Vec<Elf64Phdr>, ()>)
    requires
        program_file(file.content()),
        *h == header_of(file.content()),
    ensures
        match r {
            Ok(v) => v@ == phdrs(file.content()),
            Err(_) => !file.readable(),
        },
{
    let ghost c = file.content();
    let mut out: Vec<Elf64Phdr> = Vec::new();
    let mut i: u16 = 0;
    let ent: u64 = h.e_phentsize as u64;
    while i < h.e_phnum
        invariant
            program_file(c),
            c == file.content(),
            *h == header_of(c),
            ent == h.e_phentsize,
            i <= h.e_phnum,
            out@.len() == i,
            forall|k: int| 0 <= k < i ==> out@[k] == phdrs(c)[k],
        decreases h.e_phnum - i,
    {
        proof {
            assert(i * ent + ent <= h.e_phentsize * h.e_phnum) by (nonlinear_arith)
                requires
                    0 <= i < h.e_phnum,
                    ent == h.e_phentsize,
            ;
            let _size: int = c.len() as int;
        }
        let size: u64 = file.size();
        let at: u64 = h.e_phoff + i as u64 * ent;
        let b: Vec<u8> = match file.read_exact(at, 56) {
            Ok(b) => b,
            Err(_) => return Err(()),
        };
        proof {
            let a = at as int;
            assert(b@.subrange(0, 4) =~= c.subrange(a, a + 4));
            assert(b@.subrange(4, 8) =~= c.subrange(a + 4, a + 4 + 4));
            assert(b@.subrange(8, 16) =~= c.subrange(a + 8, a + 8 + 8));
            assert(b@.subrange(16, 24) =~= c.subrange(a + 16, a + 16 + 8));
            assert(b@.subrange(32, 40) =~= c.subrange(a + 32, a + 32 + 8));
            assert(b@.subrange(40, 48) =~= c.subrange(a + 40, a + 40 + 8));
        }
        let p: Elf64Phdr = Elf64Phdr {
            p_type: read_u32(&b, 0),
            p_flags: read_u32(&b, 4),
            p_offset: read_u64(&b, 8),
            p_vaddr: read_u64(&b, 16),
            p_filesz: read_u64(&b, 32),
            p_memsz: read_u64(&b, 40),
        };
        out.push(p);
        i = i + 1;
    }
    proof {
        assert(out@ =~= phdrs(c));
    }
    Ok(out)
}

/// What the program headers say beside the segments.
struct Notes {
    phdr_va: u64,
    interp: Option<Vec<u8>>,
    tls: bool,
}

spec fn opt_bytes(p: Option<Vec<u8>>) -> Option<Seq<u8>> {
    match p {
        Some(v) => Some(v@),
        None => None,
    }
}

fn scan_phdrs<F: ReadAt>(file: &F, ps: &Vec<Elf64Phdr>, bias: u64, capture: bool) -> (r: Result<
    Notes,
    (),
>)
    ensures
        match r {
            Ok(n) => {
                &&& n.phdr_va == stated_phdr(ps@, bias)
                &&& opt_bytes(n.interp) == if capture {
                    interp_of(file.content(), ps@)
                } else {
                    None
                }
                &&& n.tls == wants_tls(ps@)
                &&& forall|i: int|
                    0 <= i < ps@.len() && (#[trigger] ps@[i]).p_type == PT_INTERP && capture
                        ==> bytes_in_file(file.content(), ps@[i])
            },
            Err(_) => file.readable() ==> exists|i: int|
                0 <= i < ps@.len() && (#[trigger] ps@[i]).p_type == PT_INTERP && capture
                    && !bytes_in_file(file.content(), ps@[i]),
        },
{
    let ghost c = file.content();
    let mut n: Notes = Notes { phdr_va: 0, interp: None, tls: false };
    let mut i: usize = 0;
    while i < ps.len()
        invariant
            c == file.content(),
            i <= ps@.len(),
            n.phdr_va == stated_phdr(ps@.take(i as int), bias),
            opt_bytes(n.interp) == if capture {
                interp_of(c, ps@.take(i as int))
            } else {
                None
            },
            n.tls == exists|k: int|
                0 <= k < i && (#[trigger] ps@[k]).p_type == PT_TLS && ps@[k].p_memsz != 0,
            forall|k: int|
                0 <= k < i && (#[trigger] ps@[k]).p_type == PT_INTERP && capture ==> bytes_in_file(
                    c,
                    ps@[k],
                ),
        decreases ps@.len() - i,
    {
        let p: Elf64Phdr = ps[i];
        proof {
            assert(ps@.take(i + 1).drop_last() =~= ps@.take(i as int));
            assert(ps@.take(i + 1).last() == p);
        }
        if p.p_type == PT_PHDR {
            n.phdr_va = bias.wrapping_add(p.p_vaddr);
        } else if capture && p.p_type == PT_INTERP {
            let size: u64 = file.size();
            if p.p_filesz > size || p.p_offset > size - p.p_filesz {
                proof {
                    assert(ps@[i as int].p_type == PT_INTERP);
                }
                return Err(());
            }
            let b: Vec<u8> = match file.read_exact(p.p_offset, p.p_filesz) {
                Ok(b) => b,
                Err(_) => return Err(()),
            };
            if is_utf8(&b) {
                let k: usize = trim_end_len(&b, 0);
                let path: Vec<u8> = cut(&b, 0, k);
                proof {
                    assert(path@ =~= b@.take(k as int));
                }
                n.interp = Some(path);
            }
        } else if p.p_type == PT_TLS && p.p_memsz != 0 {
            proof {
                assert(ps@[i as int].p_type == PT_TLS);
            }
            n.tls = true;
        }
        i = i + 1;
    }
    proof {
        assert(ps@.take(i as int) =~= ps@);
    }
    Ok(n)
}

fn find_phdr(h: &Elf64Ehdr, ps: &Vec<Elf64Phdr>, bias: u64, len: u64) -> (r: u64)
    requires
        h.e_phoff + h.e_phentsize * h.e_phnum <= len,
    ensures
        r == found_phdr(*h, ps@, bias),
{
    proof {
        assert(h.e_phentsize * h.e_phnum <= 0xffff * 0xffff) by (nonlinear_arith)
            requires
                h.e_phentsize <= 0xffff,
                h.e_phnum <= 0xffff,
        ;
    }
    let end: u64 = h.e_phoff + h.e_phentsize as u64 * h.e_phnum as u64;
    let mut i: usize = 0;
    proof {
        assert(ps@.skip(0) =~= ps@);
    }
    while i < ps.len()
        invariant
            end == h.e_phoff + h.e_phentsize * h.e_phnum,
            i <= ps@.len(),
            found_phdr(*h, ps@, bias) == found_phdr(*h, ps@.skip(i as int), bias),
        decreases ps@.len() - i,
    {
        let p: Elf64Phdr = ps[i];
        proof {
            assert(ps@.skip(i as int)[0] == p);
            assert(ps@.skip(i as int).skip(1) =~= ps@.skip(i + 1));
        }
        if p.p_type == PT_LOAD && h.e_phoff >= p.p_offset && end <= p.p_offset.wrapping_add(
            p.p_filesz,
        ) {
            return bias.wrapping_add(p.p_vaddr).wrapping_add(h.e_phoff - p.p_offset);
        }
        i = i + 1;
    }
    0
}

/// Lays one segment out.
fn place_segment(p: &Elf64Phdr, bias: u64, file: usize, size: u64) -> (r: Option<ElfRegion>)
    ensures
        match r {
            Some(x) => {
                &&& x == segment_region(*p, bias, file)
                &&& p.p_filesz <= p.p_memsz
                &&& p.p_offset + p.p_filesz <= size
                &&& bias + p.p_vaddr + p.p_memsz + 4095 <= u64::MAX
                &&& p.p_offset % 4096 == (bias + p.p_vaddr) % 4096
            },
            None => !(p.p_filesz <= p.p_memsz && p.p_offset + p.p_filesz <= size && bias + p.p_vaddr
                + p.p_memsz + 4095 <= u64::MAX && p.p_offset % 4096 == (bias + p.p_vaddr) % 4096),
        },
{
    if p.p_filesz > p.p_memsz {
        return None;
    }
    if p.p_filesz > size || p.p_offset > size - p.p_filesz {
        return None;
    }
    if bias > u64::MAX - p.p_vaddr {
        return None;
    }
    let start: u64 = bias + p.p_vaddr;
    if start > u64::MAX - p.p_memsz {
        return None;
    }
    let end: u64 = start + p.p_memsz;
    proof {
        crate::proc::mem::lemma_page();
    }
    let from: u64 = align_down_u64(start, PAGE_SIZE_U64);
    let to: u64 = match align_up_u64(end, PAGE_SIZE_U64) {
        Some(t) => t,
        None => return None,
    };
    if p.p_offset % PAGE_SIZE_U64 != start % PAGE_SIZE_U64 {
        return None;
    }
    let file_offset: u64 = align_down_u64(p.p_offset, PAGE_SIZE_U64);
    Some(
        ElfRegion {
            base: from,
            len: to - from,
            file_base: from,
            file_offset,
            file_end: start + p.p_filesz,
            permissions: VmPermissions {
                read: p.p_flags & PF_R != 0,
                write: p.p_flags & PF_W != 0,
                execute: p.p_flags & PF_X != 0,
            },
            file,
        },
    )
}

/// Lays a program file out: adds the memory of its segments to `elf_regions` and
/// says where it starts and what else it needs. `file_id` is the number by which
/// the file is known.
pub fn load_elf_image<F: ReadAt>(
    file: &F,
    file_id: usize,
    elf_regions: &mut Vec<ElfRegion>,
    dyn_base_hint: Option<u64>,
    capture_interp: bool,
) -> (res: Result<LoadedImage, ()>)
    ensures
        ({
            let c = file.content();
            match res {
                Ok(i) => {
                    &&& loadable(c, dyn_base_hint, capture_interp)
                    &&& i@ == layout(c, dyn_base_hint, capture_interp)
                    &&& final(elf_regions)@ == old(elf_regions)@ + segment_regions(
                        phdrs(c),
                        load_bias(header_of(c), dyn_base_hint),
                        file_id,
                    )
                },
                Err(_) => {
                    &&& final(elf_regions)@ == old(elf_regions)@
                    &&& file.readable() ==> !loadable(c, dyn_base_hint, capture_interp)
                },
            }
        }),
{
    let ghost c = file.content();
    let h: Elf64Ehdr = match read_header(file) {
        Ok(h) => h,
        Err(_) => return Err(()),
    };
    let ps: Vec<Elf64Phdr> = match read_phdrs(file, &h) {
        Ok(p) => p,
        Err(_) => return Err(()),
    };
    let bias: u64 = if h.e_type == 3 {
        match dyn_base_hint {
            Some(b) => b,
            None => MAIN_DYN_LOAD_BASE,
        }
    } else {
        0
    };
    let notes: Notes = match scan_phdrs(file, &ps, bias, capture_interp) {
        Ok(n) => n,
        Err(_) => return Err(()),
    };
    let size: u64 = file.size();
    let phdr_va: u64 = if notes.phdr_va != 0 {
        notes.phdr_va
    } else {
        find_phdr(&h, &ps, bias, size)
    };
    let mut regions: Vec<ElfRegion> = Vec::new();
    let mut max_end: u64 = 0;
    let mut i: usize = 0;
    while i < ps.len()
        invariant
            c == file.content(),
            program_file(c),
            h == header_of(c),
            size == c.len(),
            ps@ == phdrs(c),
            bias == load_bias(h, dyn_base_hint),
            elf_regions@ == old(elf_regions)@,
            i <= ps@.len(),
            regions@ == segment_regions(ps@.take(i as int), bias, file_id),
            max_end == segments_end(ps@.take(i as int), bias),
            forall|k: int|
                0 <= k < i && is_loaded(#[trigger] ps@[k]) ==> segment_valid(c, ps@[k], bias),
        decreases ps@.len() - i,
    {
        let p: Elf64Phdr = ps[i];
        proof {
            assert(ps@.take(i + 1).drop_last() =~= ps@.take(i as int));
            assert(ps@.take(i + 1).last() == p);
        }
        if p.p_type == PT_LOAD && p.p_memsz != 0 {
            match place_segment(&p, bias, file_id, size) {
                Some(r) => {
                    regions.push(r);
                    let end: u64 = bias + p.p_vaddr + p.p_memsz;
                    if end > max_end {
                        max_end = end;
                    }
                },
                None => {
                    proof {
                        assert(is_loaded(ps@[i as int]));
                        assert(!segment_valid(c, ps@[i as int], bias));
                    }
                    return Err(());
                },
            }
        }
        i = i + 1;
    }
    proof {
        assert(ps@.take(i as int) =~= ps@);
    }
    let ghost added = regions@;
    elf_regions.append(&mut regions);
    let image: LoadedImage = LoadedImage {
        entry_point: h.e_entry.wrapping_add(bias),
        phdr_va,
        phent: h.e_phentsize as u64,
        phnum: h.e_phnum as u64,
        max_end,
        load_base: bias,
        has_tls: notes.tls,
        interp_path: notes.interp,
    };
    proof {
        assert(image@ =~= layout(c, dyn_base_hint, capture_interp));
    }
    Ok(image)
}

/// Lays an interpreter out.
pub fn load_interpreter_image<F: ReadAt>(file: &F, file_id: usize, elf_regions: &mut Vec<ElfRegion>) -> (res:
    Result<LoadedImage, ()>)
    ensures
        ({
            let c = file.content();
            let hint = Some(INTERP_DYN_LOAD_BASE);
            match res {
                Ok(i) => {
                    &&& loadable(c, hint, false)
                    &&& i@ == layout(c, hint, false)
                    &&& final(elf_regions)@ == old(elf_regions)@ + segment_regions(
                        phdrs(c),
                        load_bias(header_of(c), hint),
                        file_id,
                    )
                },
                Err(_) => {
                    &&& final(elf_regions)@ == old(elf_regions)@
                    &&& file.readable() ==> !loadable(c, hint, false)
                },
            }
        }),
{
    load_elf_image(file, file_id, elf_regions, Some(INTERP_DYN_LOAD_BASE), false)
}

/// Where the spare memory behind a program with thread-local memory lies: two pages
/// behind its end, where those are addresses.
pub fn static_tls_spill(max_end: u64) -> (r: Option<(u64, u64)>)
    ensures
        match r {
            Some((start, len)) => start == up(max_end as int, 4096) && len == 8192 && start + len
                <= u64::MAX,
            None => max_end + 4095 > u64::MAX || up(max_end as int, 4096) + 8192 > u64::MAX,
        },
{
    proof {
        crate::proc::mem::lemma_page();
    }
    match align_up_u64(max_end, PAGE_SIZE_U64) {
        Some(start) => {
            if start > u64::MAX - 8192 {
                None
            } else {
                Some((start, 8192))
            }
        },
        None => None,
    }
}

} // verus!
