//! The stack that a program starts with.

use crate::bytes::{le_digits, lemma_le_digits_len, push_all, push_le, push_repeat, views};
use vstd::prelude::*;

verus! {

/// Where the stack of a program ends.
pub const USER_STACK_TOP: u64 = 0x0000_7FFF_FFFF_F000;

/// How much stack a program has.
pub const USER_STACK_SIZE: u64 = 0x64000;

/// An entry of the auxiliary vector.
#[derive(Debug, Clone, Copy, PartialEq, Eq, Structural)]
pub struct AuxvEntry {
    pub key: u64,
    pub value: u64,
}

/// What lies from `rsp` up to the end of the stack.
pub struct InitialStack {
    pub rsp: u64,
    pub image: Vec<u8>,
}

/// The bytes that texts with a zero behind each take.
pub open spec fn texts_len(ss: Seq<Seq<u8>>) -> int
    decreases ss.len(),
{
    if ss.len() == 0 {
        0
    } else {
        texts_len(ss.drop_last()) + ss.last().len() + 1
    }
}

/// The texts, each with a zero behind it, the first one lowest.
pub open spec fn ascending(ss: Seq<Seq<u8>>) -> Seq<u8>
    decreases ss.len(),
{
    if ss.len() == 0 {
        Seq::<u8>::empty()
    } else {
        ascending(ss.drop_last()) + ss.last().push(0)
    }
}

/// The texts, each with a zero behind it, the last one lowest.
pub open spec fn descending(ss: Seq<Seq<u8>>) -> Seq<u8>
    decreases ss.len(),
{
    if ss.len() == 0 {
        Seq::<u8>::empty()
    } else {
        ss.last().push(0) + descending(ss.drop_last())
    }
}

/// The addresses of texts that lie below `top`, the first one lowest.
pub open spec fn ascending_ptrs(top: int, ss: Seq<Seq<u8>>) -> Seq<u64>
    decreases ss.len(),
{
    if ss.len() == 0 {
        Seq::<u64>::empty()
    } else {
        let a = top - (ss.last().len() + 1);
        ascending_ptrs(a, ss.drop_last()).push(a as u64)
    }
}

/// The addresses of texts that lie below `top`, the last one lowest.
pub open spec fn descending_ptrs(top: int, ss: Seq<Seq<u8>>) -> Seq<u64>
    decreases ss.len(),
{
    if ss.len() == 0 {
        Seq::<u64>::empty()
    } else {
        descending_ptrs(top, ss.drop_last()).push((top - texts_len(ss)) as u64)
    }
}

/// Words of eight bytes.
pub open spec fn word_bytes(ws: Seq<u64>) -> Seq<u8>
    decreases ws.len(),
{
    if ws.len() == 0 {
        Seq::<u8>::empty()
    } else {
        word_bytes(ws.drop_last()) + le_digits(ws.last() as nat, 8)
    }
}

pub open spec fn zero_bytes(n: int) -> Seq<u8> {
    Seq::new(n as nat, |i: int| 0u8)
}

/// What a program is told about itself.
pub struct AuxView {
    pub entry: u64,
    pub base: u64,
    pub phdr: u64,
    pub phent: u64,
    pub phnum: u64,
    pub random: u64,
    pub execfn: u64,
}

/// The auxiliary vector.
pub open spec fn auxv(a: AuxView) -> Seq<u64> {
    seq![
        3u64,
        a.phdr,
        4,
        a.phent,
        5,
        a.phnum,
        7,
        a.base,
        6,
        4096,
        9,
        a.entry,
        25,
        a.random,
        31,
        a.execfn,
        17,
        0,
        18,
        0,
        19,
        0,
        20,
        0,
        23,
        100,
        0,
        0,
    ]
}

/// The words at the low end of the stack: the number of arguments, their addresses,
/// those of the environment and the auxiliary vector.
pub open spec fn table_words(args: Seq<u64>, envs: Seq<u64>, a: AuxView) -> Seq<u64> {
    seq![args.len() as u64] + args + seq![0u64] + envs + seq![0u64] + auxv(a)
}

/// The bytes of the tables of `na` arguments and `ne` variables.
pub open spec fn tables_len(na: int, ne: int) -> int {
    8 * (1 + na + 1 + ne + 1 + 28)
}

/// Where the texts of a stack that ends at `top` start.
pub open spec fn texts_start(top: int, args: Seq<Seq<u8>>, envs: Seq<Seq<u8>>) -> int {
    top - texts_len(envs) - texts_len(args)
}

/// Where the tables of a stack end, before they are aligned.
pub open spec fn tables_end(
    top: int,
    args: Seq<Seq<u8>>,
    envs: Seq<Seq<u8>>,
    random: Option<u64>,
) -> int {
    texts_start(top, args, envs) - if random is None {
        16int
    } else {
        0
    }
}

/// The stack pointer of a stack that ends at `top`: the tables start at a multiple
/// of sixteen.
pub open spec fn stack_pointer(
    top: int,
    args: Seq<Seq<u8>>,
    envs: Seq<Seq<u8>>,
    random: Option<u64>,
) -> int {
    let low = tables_end(top, args, envs, random) - tables_len(args.len() as int, envs.len() as int);
    low - low % 16
}

/// What a program is told about itself, on a stack that ends at `top`. Where no
/// name is given, it is told the address of its first argument.
pub open spec fn aux_of(
    top: int,
    args: Seq<Seq<u8>>,
    envs: Seq<Seq<u8>>,
    entry: u64,
    base: u64,
    phdr: u64,
    phent: u64,
    phnum: u64,
    execfn: Option<u64>,
    random: Option<u64>,
) -> AuxView {
    AuxView {
        entry,
        base,
        phdr,
        phent,
        phnum,
        random: match random {
            Some(p) => p,
            None => (texts_start(top, args, envs) - 16) as u64,
        },
        execfn: match execfn {
            Some(p) => p,
            None => if args.len() > 0 {
                (top - texts_len(envs) - (args[0].len() + 1)) as u64
            } else {
                0
            },
        },
    }
}

/// The contents of a stack that ends at `top`.
pub open spec fn stack_bytes(
    top: int,
    args: Seq<Seq<u8>>,
    envs: Seq<Seq<u8>>,
    a: AuxView,
    random: Option<u64>,
) -> Seq<u8> {
    let low = tables_end(top, args, envs, random) - tables_len(args.len() as int, envs.len() as int);
    word_bytes(
        table_words(
            descending_ptrs(top - texts_len(envs), args),
            ascending_ptrs(top, envs),
            a,
        ),
    ) + zero_bytes(low % 16) + zero_bytes(
        if random is None {
            16
        } else {
            0
        },
    ) + descending(args) + ascending(envs)
}

proof fn lemma_texts(ss: Seq<Seq<u8>>)
    ensures
        texts_len(ss) >= ss.len(),
        ascending(ss).len() == texts_len(ss),
        descending(ss).len() == texts_len(ss),
    decreases ss.len(),
{
    if ss.len() > 0 {
        lemma_texts(ss.drop_last());
    }
}

proof fn lemma_texts_take(ss: Seq<Seq<u8>>, i: int)
    requires
        0 <= i <= ss.len(),
    ensures
        0 <= texts_len(ss.take(i)) <= texts_len(ss),
        i < ss.len() ==> texts_len(ss.take(i + 1)) == texts_len(ss.take(i)) + ss[i].len() + 1,
    decreases ss.len(),
{
    lemma_texts(ss.take(i));
    if i == ss.len() {
        assert(ss.take(i) =~= ss);
    } else {
        assert(ss.take(i + 1).drop_last() =~= ss.take(i));
        if i < ss.len() - 1 {
            lemma_texts_take(ss.drop_last(), i);
            assert(ss.drop_last().take(i) =~= ss.take(i));
        } else {
            assert(ss.take(i) =~= ss.drop_last());
        }
    }
}

proof fn lemma_word_bytes(ws: Seq<u64>)
    ensures
        word_bytes(ws).len() == 8 * ws.len(),
    decreases ws.len(),
{
    if ws.len() > 0 {
        lemma_word_bytes(ws.drop_last());
        lemma_le_digits_len(ws.last() as nat, 8);
    }
}

/// How many bytes texts with a zero behind each take, where that is at most `max`.
fn measure(ss: &Vec<Vec<u8>>, max: u64) -> (r: Option<u64>)
    ensures
        match r {
            Some(n) => n == texts_len(views(ss@)) && n <= max,
            None => texts_len(views(ss@)) > max,
        },
{
    let mut n: u64 = 0;
    let mut i: usize = 0;
    proof {
        assert(views(ss@).take(0) =~= Seq::<Seq<u8>>::empty());
    }
    while i < ss.len()
        invariant
            i <= ss@.len(),
            n <= max,
            n == texts_len(views(ss@).take(i as int)),
        decreases ss@.len() - i,
    {
        let len: u64 = ss[i].len() as u64;
        proof {
            lemma_texts_take(views(ss@), i as int);
            lemma_texts_take(views(ss@), i + 1);
            assert(views(ss@)[i as int] == ss@[i as int]@);
        }
        if len >= max - n {
            return None;
        }
        n = n + len + 1;
        i = i + 1;
    }
    proof {
        assert(views(ss@).take(i as int) =~= views(ss@));
    }
    Some(n)
}

/// The addresses of texts of `len` bytes below `top`, the first one lowest.
fn place_ascending(top: u64, len: u64, ss: &Vec<Vec<u8>>) -> (r: Vec<u64>)
    requires
        len == texts_len(views(ss@)),
        len <= top,
    ensures
        r@ == ascending_ptrs(top as int, views(ss@)),
{
    let ghost vs = views(ss@);
    let mut out: Vec<u64> = Vec::new();
    let mut a: u64 = top - len;
    let mut i: usize = 0;
    proof {
        assert(vs.take(0) =~= Seq::<Seq<u8>>::empty());
        assert(out@ =~= ascending_ptrs(a as int, vs.take(0)));
    }
    while i < ss.len()
        invariant
            vs == views(ss@),
            i <= ss@.len(),
            len == texts_len(vs),
            len <= top,
            a == top - len + texts_len(vs.take(i as int)),
            out@ == ascending_ptrs(a as int, vs.take(i as int)),
        decreases ss@.len() - i,
    {
        proof {
            lemma_texts_take(vs, i as int);
            lemma_texts_take(vs, i + 1);
            assert(vs.take(i + 1).drop_last() =~= vs.take(i as int));
            assert(vs.take(i + 1).last() == ss@[i as int]@);
        }
        out.push(a);
        a = a + (ss[i].len() as u64 + 1);
        i = i + 1;
    }
    proof {
        assert(vs.take(i as int) =~= vs);
    }
    out
}

/// The addresses of texts below `top`, the last one lowest.
fn place_descending(top: u64, ss: &Vec<Vec<u8>>) -> (r: Vec<u64>)
    requires
        texts_len(views(ss@)) <= top,
    ensures
        r@ == descending_ptrs(top as int, views(ss@)),
{
    let ghost vs = views(ss@);
    let mut out: Vec<u64> = Vec::new();
    let mut a: u64 = top;
    let mut i: usize = 0;
    proof {
        assert(vs.take(0) =~= Seq::<Seq<u8>>::empty());
        assert(out@ =~= descending_ptrs(top as int, vs.take(0)));
    }
    while i < ss.len()
        invariant
            vs == views(ss@),
            i <= ss@.len(),
            texts_len(vs) <= top,
            a == top - texts_len(vs.take(i as int)),
            out@ == descending_ptrs(top as int, vs.take(i as int)),
        decreases ss@.len() - i,
    {
        proof {
            lemma_texts_take(vs, i as int);
            lemma_texts_take(vs, i + 1);
            assert(vs.take(i + 1).drop_last() =~= vs.take(i as int));
            assert(vs[i as int] == ss@[i as int]@);
        }
        a = a - (ss[i].len() as u64 + 1);
        out.push(a);
        i = i + 1;
    }
    proof {
        assert(vs.take(i as int) =~= vs);
    }
    out
}

fn push_word(out: &mut Vec<u8>, w: u64, Ghost(ws): Ghost<Seq<u64>>)
    requires
        old(out)@ == word_bytes(ws),
        old(out)@.len() + 8 <= usize::MAX,
    ensures
        final(out)@ == word_bytes(ws.push(w)),
{
    push_le(out, w, 8);
    proof {
        assert(ws.push(w).drop_last() =~= ws);
    }
}

fn push_words(out: &mut Vec<u8>, v: &Vec<u64>, Ghost(ws): Ghost<Seq<u64>>)
    requires
        old(out)@ == word_bytes(ws),
        old(out)@.len() + 8 * v@.len() <= usize::MAX,
    ensures
        final(out)@ == word_bytes(ws + v@),
{
    let mut i: usize = 0;
    proof {
        assert(ws + v@.take(0) =~= ws);
        lemma_word_bytes(ws);
    }
    while i < v.len()
        invariant
            i <= v@.len(),
            out@ == word_bytes(ws + v@.take(i as int)),
            out@.len() == 8 * (ws.len() + i),
            8 * ws.len() + 8 * v@.len() <= usize::MAX,
        decreases v@.len() - i,
    {
        push_word(out, v[i], Ghost(ws + v@.take(i as int)));
        proof {
            assert((ws + v@.take(i as int)).push(v@[i as int]) =~= ws + v@.take(i + 1));
            lemma_word_bytes(ws + v@.take(i + 1));
        }
        i = i + 1;
    }
    proof {
        assert(v@.take(i as int) =~= v@);
    }
}

fn aux_words(a: &AuxValues) -> (r: Vec<u64>)
    ensures
        r@ == auxv(a.view()),
{
    let mut v: Vec<u64> = Vec::new();
    v.push(3);
    v.push(a.phdr);
    v.push(4);
    v.push(a.phent);
    v.push(5);
    v.push(a.phnum);
    v.push(7);
    v.push(a.base);
    v.push(6);
    v.push(4096);
    v.push(9);
    v.push(a.entry);
    v.push(25);
    v.push(a.random);
    v.push(31);
    v.push(a.execfn);
    v.push(17);
    v.push(0);
    v.push(18);
    v.push(0);
    v.push(19);
    v.push(0);
    v.push(20);
    v.push(0);
    v.push(23);
    v.push(100);
    v.push(0);
    v.push(0);
    proof {
        assert(v@ =~= auxv(a.view()));
    }
    v
}

/// What a program is told about itself.
struct AuxValues {
    entry: u64,
    base: u64,
    phdr: u64,
    phent: u64,
    phnum: u64,
    random: u64,
    execfn: u64,
}

impl AuxValues {
    spec fn view(&self) -> AuxView {
        AuxView {
            entry: self.entry,
            base: self.base,
            phdr: self.phdr,
            phent: self.phent,
            phnum: self.phnum,
            random: self.random,
            execfn: self.execfn,
        }
    }
}

fn push_ascending(out: &mut Vec<u8>, ss: &Vec<Vec<u8>>)
    ensures
        final(out)@ == old(out)@ + ascending(views(ss@)),
{
    let ghost vs = views(ss@);
    let ghost start = out@;
    let mut i: usize = 0;
    proof {
        assert(vs.take(0) =~= Seq::<Seq<u8>>::empty());
        assert(start + ascending(vs.take(0)) =~= start);
    }
    while i < ss.len()
        invariant
            vs == views(ss@),
            i <= ss@.len(),
            out@ == start + ascending(vs.take(i as int)),
        decreases ss@.len() - i,
    {
        let ghost before = out@;
        proof {
            assert(vs.take(i + 1).drop_last() =~= vs.take(i as int));
            assert(vs.take(i + 1).last() == ss@[i as int]@);
        }
        push_all(out, &ss[i]);
        out.push(0);
        proof {
            assert(out@ =~= start + ascending(vs.take(i + 1)));
        }
        i = i + 1;
    }
    proof {
        assert(vs.take(i as int) =~= vs);
    }
}

fn push_descending(out: &mut Vec<u8>, ss: &Vec<Vec<u8>>)
    ensures
        final(out)@ == old(out)@ + descending(views(ss@)),
{
    let ghost vs = views(ss@);
    let ghost start = out@;
    let ghost goal = start + descending(vs);
    let mut i: usize = ss.len();
    proof {
        assert(vs.take(i as int) =~= vs);
    }
    while i > 0
        invariant
            vs == views(ss@),
            i <= ss@.len(),
            out@ + descending(vs.take(i as int)) == goal,
        decreases i,
    {
        let ghost before = out@;
        proof {
            assert(vs.take(i as int).drop_last() =~= vs.take(i - 1));
            assert(vs.take(i as int).last() == ss@[i - 1]@);
        }
        i = i - 1;
        push_all(out, &ss[i]);
        out.push(0);
        proof {
            let rest = descending(vs.take(i as int));
            assert(before + (ss@[i as int]@.push(0) + rest) =~= out@ + rest);
        }
    }
    proof {
        assert(vs.take(0).len() == 0);
        assert(out@ + descending(vs.take(0)) =~= out@);
    }
}

/// The bytes of the tables.
fn make_tables(args: &Vec<u64>, envs: &Vec<u64>, a: &AuxValues) -> (r: Vec<u8>)
    requires
        tables_len(args@.len() as int, envs@.len() as int) <= usize::MAX,
    ensures
        r@ == word_bytes(table_words(args@, envs@, a.view())),
        r@.len() == tables_len(args@.len() as int, envs@.len() as int),
{
    let mut out: Vec<u8> = Vec::new();
    let ghost w0 = Seq::<u64>::empty();
    let n: u64 = args.len() as u64;
    push_word(&mut out, n, Ghost(w0));
    let ghost w1 = w0.push(n);
    proof {
        lemma_word_bytes(w1);
    }
    push_words(&mut out, args, Ghost(w1));
    let ghost w2 = w1 + args@;
    proof {
        lemma_word_bytes(w2);
    }
    push_word(&mut out, 0, Ghost(w2));
    let ghost w3 = w2.push(0);
    proof {
        lemma_word_bytes(w3);
    }
    push_words(&mut out, envs, Ghost(w3));
    let ghost w4 = w3 + envs@;
    proof {
        lemma_word_bytes(w4);
    }
    push_word(&mut out, 0, Ghost(w4));
    let ghost w5 = w4.push(0);
    proof {
        lemma_word_bytes(w5);
    }
    let aux: Vec<u64> = aux_words(a);
    push_words(&mut out, &aux, Ghost(w5));
    proof {
        assert(w5 + aux@ =~= table_words(args@, envs@, a.view()));
        lemma_word_bytes(w5 + aux@);
    }
    out
}

/// Builds the stack of a program, which ends at `top`. None where it does not fit
/// below `top`.
pub fn build_initial_stack(
    top: u64,
    aux_entry: u64,
    at_base: u64,
    argv: &Vec<Vec<u8>>,
    envp: &Vec<Vec<u8>>,
    phdr_addr: u64,
    phent: u64,
    phnum: u64,
    execfn_ptr: Option<u64>,
    random16_ptr: Option<u64>,
) -> (res: Option<InitialStack>)
    ensures
        ({
            let args = views(argv@);
            let envs = views(envp@);
            let rsp = stack_pointer(top as int, args, envs, random16_ptr);
            match res {
                Some(s) => {
                    &&& s.rsp == rsp
                    &&& s.image@ == stack_bytes(
                        top as int,
                        args,
                        envs,
                        aux_of(
                            top as int,
                            args,
                            envs,
                            aux_entry,
                            at_base,
                            phdr_addr,
                            phent,
                            phnum,
                            execfn_ptr,
                            random16_ptr,
                        ),
                        random16_ptr,
                    )
                    &&& s.rsp % 16 == 0
                    &&& s.rsp + s.image@.len() == top
                },
                None => rsp < 0 || top - rsp > usize::MAX,
            }
        }),
{
    let ghost args = views(argv@);
    let ghost envs = views(envp@);
    proof {
        lemma_texts(args);
        lemma_texts(envs);
    }
    let env_len: u64 = match measure(envp, top) {
        Some(n) => n,
        None => return None,
    };
    let arg_len: u64 = match measure(argv, top - env_len) {
        Some(n) => n,
        None => return None,
    };
    let na: u64 = argv.len() as u64;
    let ne: u64 = envp.len() as u64;
    let start: u64 = top - env_len - arg_len;
    let raw: u64 = if random16_ptr.is_none() {
        16
    } else {
        0
    };
    if start < raw {
        return None;
    }
    let end: u64 = start - raw;
    if na >= 0x2000_0000_0000_0000 || ne >= 0x2000_0000_0000_0000 || na + ne + 31
        >= 0x2000_0000_0000_0000 {
        return None;
    }
    let table: u64 = 8 * (1 + na + 1 + ne + 1 + 28);
    if end < table {
        return None;
    }
    let low: u64 = end - table;
    let pad: u64 = low % 16;
    let rsp: u64 = low - pad;
    if top - rsp > usize::MAX as u64 {
        return None;
    }
    let env_ptrs: Vec<u64> = place_ascending(top, env_len, envp);
    let arg_ptrs: Vec<u64> = place_descending(top - env_len, argv);
    proof {
        lemma_ptr_counts(top as int, envs, top - env_len, args);
        if args.len() > 0 {
            lemma_descending_ptr(top - env_len, args, 0);
            lemma_texts_take(args, 0);
            assert(args.take(0) =~= Seq::<Seq<u8>>::empty());
        }
    }
    let random: u64 = match random16_ptr {
        Some(p) => p,
        None => end,
    };
    let execfn: u64 = match execfn_ptr {
        Some(p) => p,
        None => if argv.len() > 0 {
            arg_ptrs[0]
        } else {
            0
        },
    };
    let aux: AuxValues = AuxValues {
        entry: aux_entry,
        base: at_base,
        phdr: phdr_addr,
        phent,
        phnum,
        random,
        execfn,
    };
    let mut image: Vec<u8> = make_tables(&arg_ptrs, &env_ptrs, &aux);
    push_repeat(&mut image, 0, pad as usize);
    push_repeat(&mut image, 0, raw as usize);
    push_descending(&mut image, argv);
    push_ascending(&mut image, envp);
    proof {
        let a = aux_of(
            top as int,
            args,
            envs,
            aux_entry,
            at_base,
            phdr_addr,
            phent,
            phnum,
            execfn_ptr,
            random16_ptr,
        );
        assert(aux.view() == a);
        assert(image@ =~= stack_bytes(top as int, args, envs, a, random16_ptr));
    }
    Some(InitialStack { rsp, image })
}

proof fn lemma_ptr_counts(top: int, envs: Seq<Seq<u8>>, base: int, args: Seq<Seq<u8>>)
    ensures
        ascending_ptrs(top, envs).len() == envs.len(),
        descending_ptrs(base, args).len() == args.len(),
    decreases envs.len() + args.len(),
{
    if envs.len() > 0 {
        lemma_ptr_counts(top - (envs.last().len() + 1), envs.drop_last(), base, args);
    } else if args.len() > 0 {
        lemma_ptr_counts(top, envs, base, args.drop_last());
    }
}

proof fn lemma_descending_at(ss: Seq<Seq<u8>>, i: int)
    requires
        0 <= i < ss.len(),
    ensures
        ({
            let d = descending(ss);
            let at = d.len() - texts_len(ss.take(i + 1));
            &&& 0 <= at
            &&& at + ss[i].len() + 1 <= d.len()
            &&& d.subrange(at, at + ss[i].len() + 1) == ss[i].push(0)
        }),
    decreases ss.len(),
{
    lemma_texts(ss);
    lemma_texts_take(ss, i);
    lemma_texts_take(ss, i + 1);
    let d = descending(ss);
    let at = d.len() - texts_len(ss.take(i + 1));
    if i == ss.len() - 1 {
        assert(ss.take(i + 1) =~= ss);
        assert(d.subrange(at, at + ss[i].len() + 1) =~= ss[i].push(0));
    } else {
        let front = ss.drop_last();
        lemma_descending_at(front, i);
        lemma_texts(front);
        assert(front.take(i + 1) =~= ss.take(i + 1));
        let head = ss.last().len() + 1;
        assert(d.subrange(at, at + ss[i].len() + 1) =~= descending(front).subrange(
            at - head,
            at - head + ss[i].len() + 1,
        ));
    }
}

proof fn lemma_descending_ptr(base: int, ss: Seq<Seq<u8>>, i: int)
    requires
        0 <= i < ss.len(),
    ensures
        descending_ptrs(base, ss).len() == ss.len(),
        descending_ptrs(base, ss)[i] == (base - texts_len(ss.take(i + 1))) as u64,
    decreases ss.len(),
{
    lemma_ptr_counts(0, Seq::<Seq<u8>>::empty(), base, ss);
    lemma_ptr_counts(0, Seq::<Seq<u8>>::empty(), base, ss.drop_last());
    if i == ss.len() - 1 {
        assert(ss.take(i + 1) =~= ss);
    } else {
        lemma_descending_ptr(base, ss.drop_last(), i);
        assert(ss.drop_last().take(i + 1) =~= ss.take(i + 1));
    }
}

/// A program finds each of its arguments: the table holds its address, and there
/// lies its text with a zero behind it.
pub proof fn lemma_arguments_found(
    top: u64,
    args: Seq<Seq<u8>>,
    envs: Seq<Seq<u8>>,
    a: AuxView,
    random: Option<u64>,
    i: int,
)
    requires
        0 <= i < args.len(),
        0 <= stack_pointer(top as int, args, envs, random),
    ensures
        ({
            let rsp = stack_pointer(top as int, args, envs, random);
            let s = stack_bytes(top as int, args, envs, a, random);
            let t = table_words(
                descending_ptrs(top - texts_len(envs), args),
                ascending_ptrs(top as int, envs),
                a,
            );
            let p = t[1 + i] - rsp;
            &&& s.len() == top - rsp
            &&& 0 <= p
            &&& p + args[i].len() + 1 <= s.len()
            &&& s.subrange(p, p + args[i].len() + 1) == args[i].push(0)
        }),
{
    let rsp = stack_pointer(top as int, args, envs, random);
    let s = stack_bytes(top as int, args, envs, a, random);
    let base = top - texts_len(envs);
    let ptrs = descending_ptrs(base, args);
    let t = table_words(ptrs, ascending_ptrs(top as int, envs), a);
    lemma_texts(args);
    lemma_texts(envs);
    lemma_texts_take(args, i + 1);
    lemma_ptr_counts(top as int, envs, base, args);
    lemma_descending_ptr(base, args, i);
    lemma_descending_at(args, i);
    lemma_word_bytes(t);
    assert(t[1 + i] == ptrs[i]);
    let p = t[1 + i] - rsp;
    let d = descending(args);
    let at = d.len() - texts_len(args.take(i + 1));
    let before = s.len() - d.len() - ascending(envs).len();
    assert(p == before + at);
    assert(s.subrange(p, p + args[i].len() + 1) =~= d.subrange(at, at + args[i].len() + 1));
}

proof fn lemma_ascending_at(ss: Seq<Seq<u8>>, i: int)
    requires
        0 <= i < ss.len(),
    ensures
        ({
            let d = ascending(ss);
            let at = texts_len(ss.take(i));
            &&& 0 <= at
            &&& at + ss[i].len() + 1 <= d.len()
            &&& d.subrange(at, at + ss[i].len() + 1) == ss[i].push(0)
        }),
    decreases ss.len(),
{
    lemma_texts(ss);
    lemma_texts_take(ss, i);
    lemma_texts_take(ss, i + 1);
    let d = ascending(ss);
    let at = texts_len(ss.take(i));
    let front = ss.drop_last();
    lemma_texts(front);
    if i == ss.len() - 1 {
        assert(ss.take(i) =~= front);
        assert(d.subrange(at, at + ss[i].len() + 1) =~= ss[i].push(0));
    } else {
        lemma_ascending_at(front, i);
        assert(front.take(i) =~= ss.take(i));
        assert(d.subrange(at, at + ss[i].len() + 1) =~= ascending(front).subrange(
            at,
            at + ss[i].len() + 1,
        ));
    }
}

proof fn lemma_ascending_ptr(top: int, ss: Seq<Seq<u8>>, i: int)
    requires
        0 <= i < ss.len(),
    ensures
        ascending_ptrs(top, ss).len() == ss.len(),
        ascending_ptrs(top, ss)[i] == (top - texts_len(ss) + texts_len(ss.take(i))) as u64,
    decreases ss.len(),
{
    let a = top - (ss.last().len() + 1);
    lemma_ptr_counts(top, ss, 0, Seq::<Seq<u8>>::empty());
    lemma_ptr_counts(a, ss.drop_last(), 0, Seq::<Seq<u8>>::empty());
    if i == ss.len() - 1 {
        assert(ss.take(i) =~= ss.drop_last());
    } else {
        lemma_ascending_ptr(a, ss.drop_last(), i);
        assert(ss.drop_last().take(i) =~= ss.take(i));
    }
}

/// A program finds each variable of its environment, in the order in which they were given:
/// the table holds its address, and there lies its text with a zero behind it.
pub proof fn lemma_variables_found(
    top: u64,
    args: Seq<Seq<u8>>,
    envs: Seq<Seq<u8>>,
    a: AuxView,
    random: Option<u64>,
    i: int,
)
    requires
        0 <= i < envs.len(),
        0 <= stack_pointer(top as int, args, envs, random),
    ensures
        ({
            let rsp = stack_pointer(top as int, args, envs, random);
            let s = stack_bytes(top as int, args, envs, a, random);
            let t = table_words(
                descending_ptrs(top - texts_len(envs), args),
                ascending_ptrs(top as int, envs),
                a,
            );
            let p = t[2 + args.len() + i] - rsp;
            &&& 0 <= p
            &&& p + envs[i].len() + 1 <= s.len()
            &&& s.subrange(p, p + envs[i].len() + 1) == envs[i].push(0)
        }),
{
    let rsp = stack_pointer(top as int, args, envs, random);
    let s = stack_bytes(top as int, args, envs, a, random);
    let base = top - texts_len(envs);
    let ptrs = ascending_ptrs(top as int, envs);
    let t = table_words(descending_ptrs(base, args), ptrs, a);
    lemma_texts(args);
    lemma_texts(envs);
    lemma_texts_take(envs, i);
    lemma_ptr_counts(top as int, envs, base, args);
    lemma_ascending_ptr(top as int, envs, i);
    lemma_ascending_at(envs, i);
    lemma_word_bytes(t);
    assert(t[2 + args.len() + i] == ptrs[i]);
    let p = t[2 + args.len() + i] - rsp;
    let d = ascending(envs);
    let at = texts_len(envs.take(i));
    assert(p == s.len() - d.len() + at);
    assert(s.subrange(p, p + envs[i].len() + 1) =~= d.subrange(at, at + envs[i].len() + 1));
}

/// Where no name is given, a program is told that of its first argument.
pub proof fn lemma_first_argument_named(
    top: u64,
    args: Seq<Seq<u8>>,
    envs: Seq<Seq<u8>>,
    entry: u64,
    base: u64,
    phdr: u64,
    phent: u64,
    phnum: u64,
    random: Option<u64>,
)
    requires
        args.len() > 0,
    ensures
        aux_of(
            top as int,
            args,
            envs,
            entry,
            base,
            phdr,
            phent,
            phnum,
            None,
            random,
        ).execfn == descending_ptrs(top - texts_len(envs), args)[0],
{
    lemma_descending_ptr(top - texts_len(envs), args, 0);
    lemma_texts_take(args, 0);
    assert(args.take(0) =~= Seq::<Seq<u8>>::empty());
}

proof fn lemma_word_at(ws: Seq<u64>, i: int)
    requires
        0 <= i < ws.len(),
    ensures
        word_bytes(ws).subrange(8 * i, 8 * i + 8) == le_digits(ws[i] as nat, 8),
    decreases ws.len(),
{
    lemma_word_bytes(ws);
    lemma_word_bytes(ws.drop_last());
    crate::bytes::lemma_le_digits_len(ws.last() as nat, 8);
    let front = ws.drop_last();
    if i < front.len() {
        lemma_word_at(front, i);
        assert(word_bytes(ws).subrange(8 * i, 8 * i + 8) =~= word_bytes(front).subrange(
            8 * i,
            8 * i + 8,
        ));
    } else {
        assert(word_bytes(ws).subrange(8 * i, 8 * i + 8) =~= le_digits(ws[i] as nat, 8));
    }
}

/// The tables stand at the stack pointer, word for word.
pub proof fn lemma_tables_found(
    top: u64,
    args: Seq<Seq<u8>>,
    envs: Seq<Seq<u8>>,
    a: AuxView,
    random: Option<u64>,
    i: int,
)
    requires
        0 <= i < args.len() + envs.len() + 31,
        0 <= stack_pointer(top as int, args, envs, random),
    ensures
        ({
            let s = stack_bytes(top as int, args, envs, a, random);
            let t = table_words(
                descending_ptrs(top - texts_len(envs), args),
                ascending_ptrs(top as int, envs),
                a,
            );
            &&& t.len() == args.len() + envs.len() + 31
            &&& t[0] == args.len() as u64
            &&& t[args.len() as int + 1] == 0
            &&& t[args.len() as int + envs.len() + 2] == 0
            &&& 0 <= i - args.len() - envs.len() - 3 ==> t[i] == auxv(a)[i - args.len() - envs.len() - 3]
            &&& crate::bytes::le_value(s.subrange(8 * i, 8 * i + 8)) == t[i]
            &&& s.len() == top - stack_pointer(top as int, args, envs, random)
        }),
{
    let s = stack_bytes(top as int, args, envs, a, random);
    let base = top - texts_len(envs);
    let t = table_words(descending_ptrs(base, args), ascending_ptrs(top as int, envs), a);
    lemma_texts(args);
    lemma_texts(envs);
    lemma_ptr_counts(top as int, envs, base, args);
    lemma_word_bytes(t);
    lemma_word_at(t, i);
    assert(s.subrange(8 * i, 8 * i + 8) =~= word_bytes(t).subrange(8 * i, 8 * i + 8));
    reveal_with_fuel(crate::bytes::pow256, 9);
    crate::bytes::lemma_le_round_trip(t[i] as nat, 8);
}

} // verus!
