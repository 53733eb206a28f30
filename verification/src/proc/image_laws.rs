//! What holds of program files and of the stack that a program starts with: a field is read
//! from where the format puts it, and a program finds what it was told.

use crate::bytes::{lemma_stands, stands, trim_end_spec};
use crate::proc::elf::{
    found_phdr, header_of, holds_table, interp_of, layout, loadable, path_in, phdr_at, phdrs,
    program_file, segments_end, stated_phdr, Elf64Ehdr, Elf64Phdr,
};
use crate::proc::launch::{can_launch, launch_rsp, launch_stack, launched, Launched, ProgramView};
use crate::proc::stack::{auxv, lemma_tables_found, AuxView};
use vstd::prelude::*;

verus! {

/// The header of a program file: its kind, where the program starts, and where the table of
/// its segments is.
pub proof fn lemma_header_read(c: Seq<u8>, h: Elf64Ehdr)
    requires
        stands(c, 16, 2, h.e_type as nat),
        stands(c, 24, 8, h.e_entry as nat),
        stands(c, 32, 8, h.e_phoff as nat),
        stands(c, 54, 2, h.e_phentsize as nat),
        stands(c, 56, 2, h.e_phnum as nat),
    ensures
        header_of(c) == h,
{
    lemma_stands(c, 16, 2, h.e_type as nat);
    lemma_stands(c, 24, 8, h.e_entry as nat);
    lemma_stands(c, 32, 8, h.e_phoff as nat);
    lemma_stands(c, 54, 2, h.e_phentsize as nat);
    lemma_stands(c, 56, 2, h.e_phnum as nat);
}

/// An entry of the table: entry `i` stands `i` entries behind the start of the table.
pub proof fn lemma_segment_read(c: Seq<u8>, i: int, p: Elf64Phdr)
    requires
        0 <= i < header_of(c).e_phnum,
        ({
            let at = header_of(c).e_phoff + i * header_of(c).e_phentsize;
            &&& stands(c, at, 4, p.p_type as nat)
            &&& stands(c, at + 4, 4, p.p_flags as nat)
            &&& stands(c, at + 8, 8, p.p_offset as nat)
            &&& stands(c, at + 16, 8, p.p_vaddr as nat)
            &&& stands(c, at + 32, 8, p.p_filesz as nat)
            &&& stands(c, at + 40, 8, p.p_memsz as nat)
        }),
    ensures
        phdrs(c).len() == header_of(c).e_phnum,
        phdrs(c)[i] == p,
{
    let at = header_of(c).e_phoff + i * header_of(c).e_phentsize;
    lemma_stands(c, at, 4, p.p_type as nat);
    lemma_stands(c, at + 4, 4, p.p_flags as nat);
    lemma_stands(c, at + 8, 8, p.p_offset as nat);
    lemma_stands(c, at + 16, 8, p.p_vaddr as nat);
    lemma_stands(c, at + 32, 8, p.p_filesz as nat);
    lemma_stands(c, at + 40, 8, p.p_memsz as nat);
    assert(phdr_at(c, at) == p);
}

/// Only a program that can lie anywhere is moved: to the place that was asked for, or to the one
/// for programs that nobody asked a place for.
pub proof fn lemma_where_loaded(c: Seq<u8>, hint: Option<u64>, capture_interp: bool)
    ensures
        ({
            let h = header_of(c);
            let i = layout(c, hint, capture_interp);
            &&& h.e_type != 3 ==> i.load_base == 0 && i.entry_point == h.e_entry
            &&& h.e_type == 3 ==> (hint matches Some(b) ==> i.load_base == b)
            &&& h.e_type == 3 && hint is None ==> i.load_base == 0x4000_0000
            &&& h.e_entry + i.load_base <= u64::MAX ==> i.entry_point == h.e_entry + i.load_base
            &&& i.phnum == h.e_phnum
            &&& i.phent == h.e_phentsize
            &&& !capture_interp ==> i.interp_path is None
            &&& capture_interp ==> i.interp_path == interp_of(c, phdrs(c))
            &&& i.max_end == segments_end(phdrs(c), i.load_base)
            &&& stated_phdr(phdrs(c), i.load_base) != 0 ==> i.phdr_va == stated_phdr(phdrs(c), i.load_base)
            &&& stated_phdr(phdrs(c), i.load_base) == 0 ==> i.phdr_va == found_phdr(
                h,
                phdrs(c),
                i.load_base,
            )
            &&& i.has_tls <==> exists|k: int|
                0 <= k < phdrs(c).len() && (#[trigger] phdrs(c)[k]).p_type == 7 && phdrs(c)[k].p_memsz > 0
        }),
{
}

/// Where a file says where its table will lie, that is what the program is told; the last word
/// counts.
pub proof fn lemma_table_stated(ps: Seq<Elf64Phdr>, bias: u64, k: int)
    requires
        0 <= k < ps.len(),
        ps[k].p_type == 6,
        forall|i: int| k < i < ps.len() ==> (#[trigger] ps[i]).p_type != 6,
        bias + ps[k].p_vaddr <= u64::MAX,
    ensures
        stated_phdr(ps, bias) == bias + ps[k].p_vaddr,
    decreases ps.len(),
{
    if k < ps.len() - 1 {
        assert(ps[ps.len() - 1].p_type != 6);
        let front = ps.drop_last();
        assert forall|i: int| k < i < front.len() implies (#[trigger] front[i]).p_type != 6 by {
            assert(front[i] == ps[i]);
        }
        lemma_table_stated(front, bias, k);
    }
}

/// Where it does not, the table is looked for in what is loaded: byte for byte it lies as far from
/// the start of its segment in memory as in the file.
pub proof fn lemma_table_found(h: Elf64Ehdr, ps: Seq<Elf64Phdr>, bias: u64, k: int)
    requires
        0 <= k < ps.len(),
        holds_table(h, ps[k]),
        forall|i: int| 0 <= i < k ==> !holds_table(h, #[trigger] ps[i]),
        bias + ps[k].p_vaddr + (h.e_phoff - ps[k].p_offset) <= u64::MAX,
    ensures
        found_phdr(h, ps, bias) - (bias + ps[k].p_vaddr) == h.e_phoff - ps[k].p_offset,
        ps[k].p_type == 1,
        h.e_phoff >= ps[k].p_offset,
    decreases ps.len(),
{
    if k > 0 {
        assert(!holds_table(h, ps[0]));
        let rest = ps.skip(1);
        assert(rest[k - 1] == ps[k]);
        assert forall|i: int| 0 <= i < k - 1 implies !holds_table(h, #[trigger] rest[i]) by {
            assert(rest[i] == ps[i + 1]);
        }
        lemma_table_found(h, rest, bias, k - 1);
    }
}

/// A file that names its interpreter with a zero behind the name is run by the program of that
/// name; one that names none is run by itself.
pub proof fn lemma_interpreter_named(c: Seq<u8>, ps: Seq<Elf64Phdr>, k: int, name: Seq<u8>)
    requires
        forall|i: int| k < i < ps.len() ==> (#[trigger] ps[i]).p_type != 3,
        0 <= k < ps.len() ==> ps[k].p_type == 3 && path_in(c, ps[k]) == name.push(0)
            && vstd::utf8::valid_utf8(name.push(0)),
        name.len() > 0,
        name.last() != 0,
        -1 <= k < ps.len(),
    ensures
        k >= 0 ==> interp_of(c, ps) == Some(name),
        k < 0 ==> interp_of(c, ps) is None,
    decreases ps.len(),
{
    if ps.len() > 0 {
        let front = ps.drop_last();
        if k == ps.len() - 1 {
            let path = name.push(0);
            assert(path.drop_last() =~= name);
            assert(trim_end_spec(name, 0) == name);
            assert(trim_end_spec(path, 0) == trim_end_spec(path.drop_last(), 0));
        } else {
            assert(ps[ps.len() - 1].p_type != 3);
            assert forall|i: int| k < i < front.len() implies (#[trigger] front[i]).p_type != 3 by {
                assert(front[i] == ps[i]);
            }
            lemma_interpreter_named(c, front, k, name);
        }
    }
}

/// What a program that looks for a type in its auxiliary vector finds: the value behind the first
/// such type, up to the end.
pub open spec fn looked_up(ws: Seq<u64>, key: u64) -> Option<u64>
    decreases ws.len(),
{
    if ws.len() < 2 || ws[0] == 0 {
        None
    } else if ws[0] == key {
        Some(ws[1])
    } else {
        looked_up(ws.skip(2), key)
    }
}

proof fn lemma_looked_up(ws: Seq<u64>, key: u64, k: int)
    requires
        0 <= 2 * k,
        2 * k + 1 < ws.len(),
        forall|i: int| 0 <= i < k ==> #[trigger] ws[2 * i] != 0 && ws[2 * i] != key,
        ws[2 * k] == key,
        key != 0,
    ensures
        looked_up(ws, key) == Some(ws[2 * k + 1]),
    decreases k,
{
    if k > 0 {
        let first = 0int;
        assert(ws[2 * first] != 0 && ws[2 * first] != key);
        let rest = ws.skip(2);
        assert(rest[2 * (k - 1)] == ws[2 * k]);
        assert forall|i: int| 0 <= i < k - 1 implies #[trigger] rest[2 * i] != 0 && rest[2 * i] != key by {
            assert(rest[2 * i] == ws[2 * (i + 1)]);
        }
        lemma_looked_up(rest, key, k - 1);
    }
}

/// What a program finds when it asks about itself: where its segments' table lies, how long an
/// entry is and how many there are, the size of a page, where its interpreter lies, where it
/// starts, that it is run for the first user, how many ticks a second has, where sixteen random
/// bytes lie, and where its name is.
pub proof fn lemma_program_told(a: AuxView)
    ensures
        looked_up(auxv(a), 3) == Some(a.phdr),
        looked_up(auxv(a), 4) == Some(a.phent),
        looked_up(auxv(a), 5) == Some(a.phnum),
        looked_up(auxv(a), 6) == Some(4096u64),
        looked_up(auxv(a), 7) == Some(a.base),
        looked_up(auxv(a), 9) == Some(a.entry),
        looked_up(auxv(a), 17) == Some(0u64),
        looked_up(auxv(a), 18) == Some(0u64),
        looked_up(auxv(a), 19) == Some(0u64),
        looked_up(auxv(a), 20) == Some(0u64),
        looked_up(auxv(a), 23) == Some(100u64),
        looked_up(auxv(a), 25) == Some(a.random),
        looked_up(auxv(a), 31) == Some(a.execfn),
        auxv(a)[auxv(a).len() - 2] == 0,
{
    let ws = auxv(a);
    assert(ws.len() == 28);
    assert(ws[0] == 3 && ws[2] == 4 && ws[4] == 5 && ws[6] == 7 && ws[8] == 6 && ws[10] == 9 && ws[12] == 25 && ws[14] == 31 && ws[16] == 17);
    lemma_looked_up(ws, 3, 0);
    lemma_looked_up(ws, 4, 1);
    lemma_looked_up(ws, 5, 2);
    lemma_looked_up(ws, 7, 3);
    lemma_looked_up(ws, 6, 4);
    lemma_looked_up(ws, 9, 5);
    lemma_looked_up(ws, 25, 6);
    lemma_looked_up(ws, 31, 7);
    lemma_looked_up(ws, 17, 8);
    assert(ws[18] == 18 && ws[20] == 19 && ws[22] == 20 && ws[24] == 23);
    lemma_looked_up(ws, 18, 9);
    lemma_looked_up(ws, 19, 10);
    lemma_looked_up(ws, 20, 11);
    lemma_looked_up(ws, 23, 12);
}

/// A program starts with its stack aligned; the first words on it are how many arguments there
/// are, where they lie, a zero, where the variables lie, a zero, and what it is told about itself:
/// where it really starts, and where its interpreter and its table lie.
pub proof fn lemma_stack_at_start(p: ProgramView, args: Seq<Seq<u8>>, env: Seq<Seq<u8>>, i: int)
    requires
        0 <= launch_rsp(args, env),
        0 <= i < args.len() + env.len() + 31,
        args.len() <= u64::MAX,
    ensures
        ({
            let s = launch_stack(p, args, env);
            let w = crate::bytes::le_value(s.subrange(8 * i, 8 * i + 8));
            let rest = i - args.len() - env.len() - 3;
            &&& launch_rsp(args, env) % 16 == 0
            &&& s.len() == 0x7FFF_FFFF_F000 - launch_rsp(args, env)
            &&& i == 0 ==> w == args.len()
            &&& i == args.len() + 1 || i == args.len() + env.len() + 2 ==> w == 0
            &&& rest == 1 ==> w == p.phdr_va
            &&& rest == 3 ==> w == p.phent
            &&& rest == 5 ==> w == p.phnum
            &&& rest == 7 ==> w == p.at_base
            &&& rest == 11 ==> w == p.aux_entry
        }),
{
    let top = crate::proc::stack::USER_STACK_TOP;
    let a = crate::proc::stack::aux_of(
        top as int,
        args,
        env,
        p.aux_entry,
        p.at_base,
        p.phdr_va,
        p.phent,
        p.phnum,
        None,
        None,
    );
    lemma_tables_found(top, args, env, a, None, i);
}

/// A program file starts with its mark, is long enough for its header, and holds the whole table
/// of its segments, each entry of which is long enough.
pub proof fn lemma_program_file(c: Seq<u8>)
    requires
        program_file(c),
    ensures
        c.len() >= 64,
        c[0] == 0x7F && c[1] == 69 && c[2] == 76 && c[3] == 70,
        header_of(c).e_phentsize >= 56,
        header_of(c).e_phoff + header_of(c).e_phnum * header_of(c).e_phentsize <= c.len(),
{
    let h = header_of(c);
    assert(h.e_phnum * h.e_phentsize == h.e_phentsize * h.e_phnum) by (nonlinear_arith);
}

/// A file of that form whose segments are all sound can be loaded: what is loaded of a segment is in
/// the file, and there is at least as much memory as file.
pub proof fn lemma_loadable(c: Seq<u8>, hint: Option<u64>, capture_interp: bool, i: int)
    requires
        loadable(c, hint, capture_interp),
        0 <= i < phdrs(c).len(),
    ensures
        program_file(c),
        phdrs(c)[i].p_type == 1 && phdrs(c)[i].p_memsz > 0 ==> {
            &&& phdrs(c)[i].p_offset + phdrs(c)[i].p_filesz <= c.len()
            &&& phdrs(c)[i].p_filesz <= phdrs(c)[i].p_memsz
        },
        phdrs(c)[i].p_type == 3 && capture_interp ==> phdrs(c)[i].p_offset + phdrs(c)[i].p_filesz <= c.len(),
{
    if phdrs(c)[i].p_type == 1 && phdrs(c)[i].p_memsz > 0 {
        assert(crate::proc::elf::is_loaded(phdrs(c)[i]));
    }
}

/// A program that was started runs at its entry with its stack below the top; its heap starts empty
/// on a page boundary behind the program, and nothing is mapped yet but the program itself.
pub proof fn lemma_launched(
    l: Launched,
    p: ProgramView,
    args: Seq<Seq<u8>>,
    env: Seq<Seq<u8>>,
    stack_granted: bool,
    spill_granted: bool,
)
    requires
        launched(l, p, args, env, stack_granted),
        can_launch(p, args, env, spill_granted),
    ensures
        l.entry_point == p.entry_point,
        l.stack.rsp % 16 == 0,
        l.stack.image@ == launch_stack(p, args, env),
        l.memory.heap_start >= p.max_end,
        l.memory.heap_start % 4096 == 0,
        l.memory.brk_cur == l.memory.heap_start,
        l.memory.mapped_heap_end == l.memory.heap_start,
        l.memory.mmap_regions@.len() == 0,
        l.memory.elf_regions@ == p.regions,
        p.spill ==> spill_granted,
{
}

} // verus!
