//! What holds of the smaller calls: names, links, waiting on a word, and scripts.

use crate::bytes::{first_pos, has_prefix, lemma_first_pos};
use crate::errno::{failed, EAGAIN, EFAULT, EINVAL, ENOENT};
use crate::fs::spelled;
use crate::proc::process::{c_name, comm_of, ProcView};
use crate::proc::sched::process;
use crate::proc::table::{known, TableView};
use crate::syscall::exec::{program_mark, shell_args};
use crate::syscall::misc::{
    affinity_bytes, domain_name, exe_link, first_processor, futexed, link_read, machine_name, named,
    node_name, proc_entry, release_name, rotated, self_exe, state_after, system_name, uts_field,
    version_name, FutexStep,
};
use crate::syscall::path_laws::{decimal, lemma_decimal, lemma_pid_read, lemma_word_added};
use crate::syscall::pathname::{
    is_script, other_shell, script_arg, script_line, script_valid, shell, word_gap, words,
};
use vstd::prelude::*;

verus! {

/// A call that waits on a word gives the processor up exactly where the word holds what the
/// caller saw; whether the word is private, and which clock is meant, makes no difference.
pub proof fn lemma_futex_waits(uaddr: u64, op: i32, val: u32, current: u32)
    requires
        uaddr != 0,
        op & !(128i32 | 256i32) == 0,
    ensures
        futexed(uaddr, op, val, current) == FutexStep::Yield <==> current == val,
        current != val ==> futexed(uaddr, op, val, current) == FutexStep::Return(failed(EAGAIN)),
        futexed(uaddr, op | 128i32, val, current) == futexed(uaddr, op, val, current),
        futexed(uaddr, op | 256i32, val, current) == futexed(uaddr, op, val, current),
{
    assert((op | 128i32) & !(128i32 | 256i32) == op & !(128i32 | 256i32) && (op | 256i32) & !(128i32
        | 256i32) == op & !(128i32 | 256i32)) by (bit_vector);
}

/// No call waits on a word that is nowhere, and one that wakes never waits.
pub proof fn lemma_futex_returns(uaddr: u64, op: i32, val: u32, current: u32)
    ensures
        uaddr == 0 ==> futexed(uaddr, op, val, current) == FutexStep::Return(failed(EFAULT)),
        uaddr != 0 && op & !(128i32 | 256i32) == 1 ==> futexed(uaddr, op, val, current)
            == FutexStep::Return(0),
{
}

/// What is read of a link is the start of where it leads, and all of it where there is room.
pub proof fn lemma_link_read(target: Option<Seq<u8>>, exists_in_fs: bool, buf_len: int)
    requires
        0 < buf_len,
    ensures
        match target {
            Some(t) => link_read(target, exists_in_fs, buf_len) matches Ok(v) && v.is_prefix_of(t)
                && v.len() <= buf_len && (t.len() <= buf_len ==> v == t) && (t.len() > buf_len ==> v.len()
                == buf_len),
            None => link_read(target, exists_in_fs, buf_len) == Err::<Seq<u8>, i64>(
                failed(
                    if exists_in_fs {
                        EINVAL
                    } else {
                        ENOENT
                    },
                ),
            ),
        },
        link_read(target, exists_in_fs, 0) == Err::<Seq<u8>, i64>(failed(EINVAL)),
{
    if let Some(t) = target {
        assert(t.len() <= buf_len ==> t.take(t.len() as int) =~= t);
    }
}

/// The name that is given to a process is the one it has afterwards, up to its first fifteen
/// bytes, and nothing else of the process changes.
pub proof fn lemma_name_given(p: ProcView, name: Seq<u8>, any: Seq<u8>, k: int)
    requires
        0 <= k <= 15,
        k <= name.len(),
        forall|i: int| 0 <= i < k ==> name[i] != 0,
        k == name.len() || k == 15 || name[k] == 0,
    ensures
        ({
            let after = named(p, 15, Some(name)).0;
            let answer = named(after, 16, Some(any)).1;
            &&& after == (ProcView { comm: after.comm, ..p })
            &&& answer == Ok::<Option<Seq<u8>>, i64>(Some(after.comm))
            &&& after.comm.len() == 16
            &&& after.comm.take(k) == name.take(k)
            &&& forall|i: int| k <= i < 16 ==> after.comm[i] == 0
        }),
{
    crate::bytes::lemma_first_pos_is(name, 0);
    let n = first_pos(name, 0);
    if n < k {
        assert(name[n] == 0);
    }
    if k < 15 {
        lemma_first_pos(name, 0, k);
    }
    assert(comm_of(c_name(name)).take(k) =~= name.take(k));
}

/// A process is said to run on the first processor, in as many words as all of them take.
pub proof fn lemma_first_processor(cpus: int, i: int)
    requires
        0 < cpus,
        0 <= i < affinity_bytes(cpus),
    ensures
        affinity_bytes(cpus) * 8 >= cpus,
        affinity_bytes(cpus) * 8 < cpus + 64,
        affinity_bytes(cpus) % 8 == 0,
        first_processor(affinity_bytes(cpus)).len() == affinity_bytes(cpus),
        first_processor(affinity_bytes(cpus))[i] == if i == 0 {
            1u8
        } else {
            0
        },
{
}

/// What is told of this system.
pub proof fn lemma_system_named()
    ensures
        spelled(system_name(), "TwilightOS"@),
        spelled(node_name(), "twilight"@),
        spelled(release_name(), "0.1.0-testing-build.x86_64"@),
        spelled(version_name(), "#1 NON-SMP 16-02-2026"@),
        spelled(machine_name(), "x86_64"@),
        spelled(domain_name(), "(none)"@),
{
    reveal_strlit("TwilightOS");
    reveal_strlit("twilight");
    reveal_strlit("0.1.0-testing-build.x86_64");
    reveal_strlit("#1 NON-SMP 16-02-2026");
    reveal_strlit("x86_64");
    reveal_strlit("(none)");
}

/// A name is found in its field as it is, up to the first zero.
pub proof fn lemma_system_name_read(name: Seq<u8>)
    requires
        name.len() < 65,
        !name.contains(0),
    ensures
        uts_field(name).len() == 65,
        c_name(uts_field(name)) == name,
{
    let f = uts_field(name);
    assert forall|i: int| 0 <= i < name.len() implies f[i] != 0 by {
        assert(name.contains(name[i]));
    }
    lemma_first_pos(f, 0, name.len() as int);
    assert(f.take(name.len() as int) =~= name);
}

/// A caller finds its own program at a path of its own, and that of any process at the path
/// of its entry: what stands between the first part and the last.
pub proof fn lemma_program_links(part: Seq<u8>)
    requires
        part.len() > 0,
        !part.contains(47u8),
    ensures
        spelled(self_exe(), "/proc/self/exe"@),
        proc_entry(seq![47u8, 112, 114, 111, 99, 47] + part + seq![47u8, 101, 120, 101]) == Some(part),
{
    reveal_strlit("/proc/self/exe");
    let path = seq![47u8, 112, 114, 111, 99, 47] + part + seq![47u8, 101, 120, 101];
    assert(path.take(6) =~= seq![47u8, 112, 114, 111, 99, 47]);
    assert(path.skip(6) =~= part + seq![47u8, 101, 120, 101]);
    let rest = path.skip(6);
    assert(rest.skip(rest.len() - 4) =~= seq![47u8, 101, 120, 101]);
    assert(rest.take(rest.len() - 4) =~= part);
}

/// The numbers that follow from a state are those that follow from any state on the way, and
/// a state that is not zero never becomes it.
pub proof fn lemma_states_follow(x: u64, m: nat, n: nat)
    ensures
        state_after(x, m + n) == state_after(state_after(x, m), n),
        x != 0 ==> state_after(x, n) != 0,
    decreases n,
{
    if n > 0 {
        lemma_states_follow(x, m, (n - 1) as nat);
        let y = state_after(x, (n - 1) as nat);
        assert(y != 0 ==> ((y ^ (y >> 12)) ^ ((y ^ (y >> 12)) << 25)) ^ (((y ^ (y >> 12)) ^ ((y ^ (y
            >> 12)) << 25)) >> 27) != 0) by (bit_vector);
    }
}

/// A word that is turned loses nothing.
pub proof fn lemma_word_turned(l: u64)
    ensures
        (rotated(l) >> 17) | (rotated(l) << 47) == l,
        l < 0x8000_0000_0000 ==> rotated(l) == l * 0x2_0000,
{
    assert((((l << 17) | (l >> 47)) >> 17) | (((l << 17) | (l >> 47)) << 47) == l && (l
        < 0x8000_0000_0000 ==> (l << 17) | (l >> 47) == l * 0x2_0000)) by (bit_vector);
}

/// A script that names the shell and one argument runs in the shell: what the shell is given is
/// the argument, the script and what the script was given.
pub proof fn lemma_script_runs(which: Seq<u8>, arg: Seq<u8>, body: Seq<u8>, path: Seq<u8>, argv: Seq<Seq<u8>>)
    requires
        which == shell() || which == other_shell(),
        arg.len() > 0,
        forall|i: int| 0 <= i < arg.len() ==> !word_gap(#[trigger] arg[i]),
        !arg.contains(10),
        arg.last() != 13,
        vstd::utf8::valid_utf8(which + seq![32u8] + arg),
    ensures
        ({
            let c = seq![35u8, 33] + (which + seq![32u8] + arg) + seq![10u8] + body;
            &&& is_script(c)
            &&& !has_prefix(c, program_mark())
            &&& script_valid(c)
            &&& script_arg(c) == Some(arg)
            &&& shell_args(path, script_arg(c), argv).len() >= 3
            &&& shell_args(path, script_arg(c), argv)[0] == shell()
            &&& shell_args(path, script_arg(c), argv)[1] == arg
            &&& shell_args(path, script_arg(c), argv)[2] == path
            &&& forall|k: int|
                1 <= k < argv.len() ==> shell_args(path, script_arg(c), argv)[k + 2] == #[trigger] argv[k]
        }),
{
    let line = which + seq![32u8] + arg;
    let c = seq![35u8, 33] + line + seq![10u8] + body;
    let end = 2 + line.len() as int;
    assert(c.take(2) =~= seq![35u8, 33]);
    assert(c.take(4)[0] == 35);
    assert forall|i: int| 0 <= i < end implies c[i] != 10 by {
        if i >= 2 {
            assert(c[i] == line[i - 2]);
            if i - 2 > which.len() {
                assert(line[i - 2] == arg[i - 3 - which.len()]);
                assert(arg.contains(arg[i - 3 - which.len()]));
            }
        }
    }
    lemma_first_pos(c, 10, end);
    assert(c.subrange(2, end) =~= line);
    assert(line.last() == arg.last());
    assert(script_line(c) == line);
    lemma_word_added(which, arg);
    lemma_shell_is_word(which);
    assert(words(line) =~= seq![which, arg]);
}

proof fn lemma_shell_is_word(which: Seq<u8>)
    requires
        which == shell() || which == other_shell(),
    ensures
        words(which) == seq![which],
{
    let e = Seq::<u8>::empty();
    lemma_word_added(e, which);
    lemma_blank_first(which);
    assert(words(e) =~= Seq::<Seq<u8>>::empty());
    assert(words(e).push(which) =~= seq![which]);
    assert(e + seq![32u8] + which =~= seq![32u8] + which);
}

proof fn lemma_blank_first(s: Seq<u8>)
    ensures
        words(seq![32u8] + s) == words(s),
    decreases s.len(),
{
    let t = seq![32u8] + s;
    assert(t.last() == if s.len() > 0 {
        s.last()
    } else {
        32
    });
    if s.len() == 0 {
        assert(t.drop_last() =~= Seq::<u8>::empty());
        assert(words(t.drop_last()) =~= Seq::<Seq<u8>>::empty());
    } else {
        lemma_blank_first(s.drop_last());
        assert(t.drop_last() =~= seq![32u8] + s.drop_last());
        assert(t.drop_last().last() == if s.len() > 1 {
            s[s.len() - 2]
        } else {
            32
        });
    }
}

/// The shells have these names.
pub proof fn lemma_shells_named()
    ensures
        spelled(shell(), "/bin/oksh"@),
        spelled(other_shell(), "/bin/bash"@),
{
    reveal_strlit("/bin/oksh");
    reveal_strlit("/bin/bash");
}

/// A space, a tab, the end of a line, of a page and a return stand between words, and nothing else
/// does.
pub proof fn lemma_between_words(c: u8)
    ensures
        words(seq![c]).len() == 0 <==> c == 9 || c == 10 || c == 12 || c == 13 || c == 32,
{
    let s = seq![c];
    assert(s.drop_last() =~= Seq::<u8>::empty());
    assert(words(s.drop_last()) =~= Seq::<Seq<u8>>::empty());
    assert(s.last() == c);
}

/// The link to the program of a process leads to the program that it runs, for each process by its
/// number and for the one that asks by its own link too; of a process that is not there it leads
/// nowhere.
pub proof fn lemma_program_link(t: TableView, pid: u16, current_exe: Seq<u8>)
    ensures
        exe_link(t, self_exe(), current_exe) == Ok::<Option<Seq<u8>>, i64>(Some(current_exe)),
        ({
            let path = seq![47u8, 112, 114, 111, 99, 47] + decimal(pid as nat) + seq![47u8, 101, 120, 101];
            let leads = exe_link(t, path, current_exe);
            &&& pid == t.current ==> leads == Ok::<Option<Seq<u8>>, i64>(Some(current_exe))
            &&& pid != t.current && known(t.procs, pid) ==> leads == Ok::<Option<Seq<u8>>, i64>(
                Some(process(t, pid).exe_path),
            )
            &&& pid != t.current && !known(t.procs, pid) ==> leads == Err::<Option<Seq<u8>>, i64>(
                failed(ENOENT),
            )
        }),
{
    let part = decimal(pid as nat);
    let path = seq![47u8, 112, 114, 111, 99, 47] + part + seq![47u8, 101, 120, 101];
    lemma_decimal(pid as nat);
    lemma_pid_read(pid);
    assert(!part.contains(47u8)) by {
        if part.contains(47u8) {
            let i = choose|i: int| 0 <= i < part.len() && part[i] == 47u8;
            assert(48 <= part[i] <= 57);
        }
    }
    lemma_program_links(part);
    if path == self_exe() {
        assert(path[6] == part[0]);
        assert(self_exe()[6] == 115u8);
    }
}

} // verus!
