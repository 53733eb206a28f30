//! Small calls: names, limits, random bytes, links under `/proc`.

use crate::bytes::{has_prefix, push_repeat, same, starts_with, to_vec};
use crate::errno::{fail, failed, EAGAIN, EFAULT, EINVAL, ENOENT, ENOSYS, ESRCH};
use crate::paths::SLASH;
use crate::proc::process::{c_name, comm_of, ProcView, Process};
use crate::proc::sched::process;
use crate::proc::stack::USER_STACK_SIZE;
use crate::proc::table::{known, ProcessTable, TableView};
use crate::syscall::files::{lies_at, resolve_at, DirKind};
use crate::syscall::poll::{valid_timeval, Timeval};
use crate::syscall::queries::{opt_view, same_result};
use vstd::prelude::*;

verus! {

/// Bytes of one name of the system.
pub const UTS_FIELD: usize = 65;

/// A name in a field, with zeros behind it; at least one.
pub open spec fn uts_field(name: Seq<u8>) -> Seq<u8> {
    let n = if name.len() < 64 {
        name.len() as int
    } else {
        64
    };
    Seq::new(
        65,
        |i: int|
            if i < n {
                name[i]
            } else {
                0
            },
    )
}

fn fill(name: &[u8]) -> (r: Vec<u8>)
    ensures
        r@ == uts_field(name@),
{
    let mut out: Vec<u8> = Vec::new();
    let mut i: usize = 0;
    while i < UTS_FIELD
        invariant
            i <= 65,
            out@ == uts_field(name@).take(i as int),
        decreases 65 - i,
    {
        let b: u8 = if i < 64 && i < name.len() {
            name[i]
        } else {
            0
        };
        out.push(b);
        proof {
            assert(out@ =~= uts_field(name@).take(i + 1));
        }
        i = i + 1;
    }
    proof {
        assert(out@ =~= uts_field(name@));
    }
    out
}

/// The names of the system.
pub struct UtsName {
    pub sysname: Vec<u8>,
    pub nodename: Vec<u8>,
    pub release: Vec<u8>,
    pub version: Vec<u8>,
    pub machine: Vec<u8>,
    pub domainname: Vec<u8>,
}

pub open spec fn system_name() -> Seq<u8> {
    seq![84u8, 119, 105, 108, 105, 103, 104, 116, 79, 83]
}

pub open spec fn node_name() -> Seq<u8> {
    seq![116u8, 119, 105, 108, 105, 103, 104, 116]
}

pub open spec fn release_name() -> Seq<u8> {
    seq![
        48u8,
        46,
        49,
        46,
        48,
        45,
        116,
        101,
        115,
        116,
        105,
        110,
        103,
        45,
        98,
        117,
        105,
        108,
        100,
        46,
        120,
        56,
        54,
        95,
        54,
        52,
    ]
}

pub open spec fn version_name() -> Seq<u8> {
    seq![
        35u8,
        49,
        32,
        78,
        79,
        78,
        45,
        83,
        77,
        80,
        32,
        49,
        54,
        45,
        48,
        50,
        45,
        50,
        48,
        50,
        54,
    ]
}

pub open spec fn machine_name() -> Seq<u8> {
    seq![120u8, 56, 54, 95, 54, 52]
}

pub open spec fn domain_name() -> Seq<u8> {
    seq![40u8, 110, 111, 110, 101, 41]
}

/// The names of this system.
pub fn uname() -> (r: UtsName)
    ensures
        r.sysname@ == uts_field(system_name()),
        r.nodename@ == uts_field(node_name()),
        r.release@ == uts_field(release_name()),
        r.version@ == uts_field(version_name()),
        r.machine@ == uts_field(machine_name()),
        r.domainname@ == uts_field(domain_name()),
{
    let sysname: [u8; 10] = [84u8, 119, 105, 108, 105, 103, 104, 116, 79, 83];
    let nodename: [u8; 8] = [116u8, 119, 105, 108, 105, 103, 104, 116];
    let release: [u8; 26] = [
        48u8,
        46,
        49,
        46,
        48,
        45,
        116,
        101,
        115,
        116,
        105,
        110,
        103,
        45,
        98,
        117,
        105,
        108,
        100,
        46,
        120,
        56,
        54,
        95,
        54,
        52,
    ];
    let version: [u8; 21] = [
        35u8,
        49,
        32,
        78,
        79,
        78,
        45,
        83,
        77,
        80,
        32,
        49,
        54,
        45,
        48,
        50,
        45,
        50,
        48,
        50,
        54,
    ];
    let machine: [u8; 6] = [120u8, 56, 54, 95, 54, 52];
    let domain: [u8; 6] = [40u8, 110, 111, 110, 101, 41];
    proof {
        assert(sysname@ =~= system_name());
        assert(nodename@ =~= node_name());
        assert(release@ =~= release_name());
        assert(version@ =~= version_name());
        assert(machine@ =~= machine_name());
        assert(domain@ =~= domain_name());
    }
    UtsName {
        sysname: fill(&sysname),
        nodename: fill(&nodename),
        release: fill(&release),
        version: fill(&version),
        machine: fill(&machine),
        domainname: fill(&domain),
    }
}

pub const ARCH_SET_GS: u64 = 0x1001;

pub const ARCH_SET_FS: u64 = 0x1002;

pub const ARCH_GET_FS: u64 = 0x1003;

pub const ARCH_GET_GS: u64 = 0x1004;

/// What `arch_prctl` asks of the processor.
#[derive(Debug, Clone, Copy, PartialEq, Eq, Structural)]
pub enum BaseRequest {
    Fail(i64),
    SetFs(u64),
    SetGs(u64),
    /// The base is to be stored at this address.
    StoreFs(u64),
    StoreGs(u64),
}

/// Sets or asks for a segment base; the process remembers what is set.
pub fn arch_prctl(p: &mut Process, code: u64, addr: u64) -> (r: BaseRequest)
    ensures
        if code == ARCH_SET_FS {
            r == BaseRequest::SetFs(addr) && final(p)@ == (ProcView { fs_base: addr, ..old(p)@ })
        } else if code == ARCH_SET_GS {
            r == BaseRequest::SetGs(addr) && final(p)@ == (ProcView { gs_base: addr, ..old(p)@ })
        } else {
            &&& final(p)@ == old(p)@
            &&& r == if code == ARCH_GET_FS && addr != 0 {
                BaseRequest::StoreFs(addr)
            } else if code == ARCH_GET_GS && addr != 0 {
                BaseRequest::StoreGs(addr)
            } else if code == ARCH_GET_FS || code == ARCH_GET_GS {
                BaseRequest::Fail(failed(EFAULT))
            } else {
                BaseRequest::Fail(failed(EINVAL))
            }
        },
{
    if code == ARCH_SET_FS {
        p.fs_base = addr;
        BaseRequest::SetFs(addr)
    } else if code == ARCH_SET_GS {
        p.gs_base = addr;
        BaseRequest::SetGs(addr)
    } else if code == ARCH_GET_FS {
        if addr == 0 {
            BaseRequest::Fail(fail(EFAULT))
        } else {
            BaseRequest::StoreFs(addr)
        }
    } else if code == ARCH_GET_GS {
        if addr == 0 {
            BaseRequest::Fail(fail(EFAULT))
        } else {
            BaseRequest::StoreGs(addr)
        }
    } else {
        BaseRequest::Fail(fail(EINVAL))
    }
}

pub const PR_SET_NAME: i32 = 15;

pub const PR_GET_NAME: i32 = 16;

/// The name of a process, given or asked for: the process afterwards, and what is answered.
pub open spec fn named(p: ProcView, option: i32, name: Option<Seq<u8>>) -> (ProcView, Result<
    Option<Seq<u8>>,
    i64,
>) {
    if option == PR_SET_NAME || option == PR_GET_NAME {
        match name {
            None => (p, Err(failed(EFAULT))),
            Some(n) => if option == PR_SET_NAME {
                (ProcView { comm: comm_of(c_name(n)), ..p }, Ok(None))
            } else {
                (p, Ok(Some(p.comm)))
            },
        }
    } else {
        (p, Err(failed(EINVAL)))
    }
}

/// Sets or asks for the name of a task. `name` holds the bytes at the address that is
/// given; None stands for no address.
pub fn prctl(p: &mut Process, option: i32, name: Option<&Vec<u8>>) -> (r: Result<Option<Vec<u8>>, i64>)
    ensures
        ({
            let (after, answer) = named(
                old(p)@,
                option,
                match name {
                    Some(n) => Some(n@),
                    None => None,
                },
            );
            &&& final(p)@ == after
            &&& match r {
                Ok(Some(v)) => answer == Ok::<Option<Seq<u8>>, i64>(Some(v@)),
                Ok(None) => answer == Ok::<Option<Seq<u8>>, i64>(None),
                Err(e) => answer == Err::<Option<Seq<u8>>, i64>(e),
            }
        }),
{
    if option == PR_SET_NAME {
        match name {
            None => Err(fail(EFAULT)),
            Some(n) => {
                p.set_comm(n);
                Ok(None)
            },
        }
    } else if option == PR_GET_NAME {
        match name {
            None => Err(fail(EFAULT)),
            Some(_) => Ok(Some(p.comm())),
        }
    } else {
        Err(fail(EINVAL))
    }
}

pub const CAPABILITY_VERSION_1: u32 = 0x1998_0330;

pub const CAPABILITY_VERSION_2: u32 = 0x2007_1026;

pub const CAPABILITY_VERSION_3: u32 = 0x2008_0522;

/// How many words of capabilities are to be cleared: none has any. A version that is
/// not known is answered with the newest.
pub fn capget(table: &ProcessTable, version: &mut u32, pid: i32, has_data: bool) -> (r: Result<usize, i64>)
    ensures
        ({
            let v = *old(version);
            let words = if v == CAPABILITY_VERSION_1 {
                1usize
            } else {
                2
            };
            let target = if pid == 0 {
                table@.current
            } else {
                pid as u16
            };
            if v != CAPABILITY_VERSION_1 && v != CAPABILITY_VERSION_2 && v != CAPABILITY_VERSION_3 {
                r == Err::<usize, i64>(failed(EINVAL)) && *final(version) == CAPABILITY_VERSION_3
            } else {
                &&& *final(version) == v
                &&& r == if pid < 0 || pid > 65535 {
                    Err::<usize, i64>(failed(EINVAL))
                } else if !known(table@.procs, target) {
                    Err::<usize, i64>(failed(ESRCH))
                } else if !has_data {
                    Err::<usize, i64>(failed(EFAULT))
                } else {
                    Ok::<usize, i64>(words)
                }
            }
        }),
{
    let words: usize = if *version == CAPABILITY_VERSION_1 {
        1
    } else if *version == CAPABILITY_VERSION_2 || *version == CAPABILITY_VERSION_3 {
        2
    } else {
        *version = CAPABILITY_VERSION_3;
        return Err(fail(EINVAL));
    };
    if pid < 0 || pid > 65535 {
        return Err(fail(EINVAL));
    }
    let target: u16 = if pid == 0 {
        table.current
    } else {
        pid as u16
    };
    if table.find_process_index(target).is_none() {
        return Err(fail(ESRCH));
    }
    if !has_data {
        return Err(fail(EFAULT));
    }
    Ok(words)
}

/// A timer of a process.
#[derive(Debug, Clone, Copy, PartialEq, Eq, Structural)]
pub struct Itimerval {
    pub it_interval: Timeval,
    pub it_value: Timeval,
}

pub open spec fn timer_off(t: Itimerval) -> bool {
    t.it_interval.tv_sec == 0 && t.it_interval.tv_usec == 0 && t.it_value.tv_sec == 0
        && t.it_value.tv_usec == 0
}

/// What setting a timer is answered.
pub open spec fn timer_answer(which: i32, new_value: Itimerval) -> i64 {
    if which != 0 {
        failed(ENOSYS)
    } else if !new_value.it_interval.valid() || !new_value.it_value.valid() {
        failed(EINVAL)
    } else if !timer_off(new_value) {
        failed(ENOSYS)
    } else {
        0
    }
}

/// Sets a timer: only switching off the one that counts real time is possible.
pub fn setitimer(which: i32, new_value: Itimerval) -> (r: i64)
    ensures
        r == timer_answer(which, new_value),
{
    if which != 0 {
        return fail(ENOSYS);
    }
    if !valid_timeval(new_value.it_interval) || !valid_timeval(new_value.it_value) {
        return fail(EINVAL);
    }
    if new_value.it_interval.tv_sec != 0 || new_value.it_interval.tv_usec != 0
        || new_value.it_value.tv_sec != 0 || new_value.it_value.tv_usec != 0 {
        return fail(ENOSYS);
    }
    0
}

pub const RLIMIT_STACK: u32 = 3;

/// The limit of a resource, soft and hard: only the stack has one.
pub fn pr_limit64(pid: i32, resource: u32) -> (r: Result<u64, i64>)
    ensures
        r == if pid != 0 {
            Err::<u64, i64>(failed(ESRCH))
        } else if resource != RLIMIT_STACK {
            Err::<u64, i64>(failed(EINVAL))
        } else {
            Ok::<u64, i64>(USER_STACK_SIZE)
        },
{
    if pid != 0 {
        return Err(fail(ESRCH));
    }
    if resource != RLIMIT_STACK {
        return Err(fail(EINVAL));
    }
    Ok(USER_STACK_SIZE)
}

/// The set of processors that a process may run on, in bytes: the first one alone.
pub open spec fn first_processor(n: int) -> Seq<u8> {
    Seq::new(
        n as nat,
        |i: int|
            if i == 0 {
                1u8
            } else {
                0
            },
    )
}

/// How many bytes a set of `cpus` processors takes, in words of eight bytes.
pub open spec fn affinity_bytes(cpus: int) -> int {
    (cpus + 63) / 64 * 8
}

pub fn sched_getaffinity(table: &ProcessTable, pid: i32, cpusetsize: usize, cpus: usize, has_mask: bool) -> (r:
    Result<Vec<u8>, i64>)
    requires
        0 < cpus,
    ensures
        ({
            let target = if pid == 0 {
                table@.current
            } else {
                pid as u16
            };
            let n = if cpusetsize < affinity_bytes(cpus as int) {
                cpusetsize as int
            } else {
                affinity_bytes(cpus as int)
            };
            match r {
                Ok(v) => {
                    &&& cpusetsize * 8 >= cpus
                    &&& cpusetsize % 8 == 0
                    &&& 0 <= pid <= 65535
                    &&& known(table@.procs, target)
                    &&& has_mask
                    &&& v@ == first_processor(n)
                },
                Err(e) => if cpusetsize * 8 < cpus || cpusetsize % 8 != 0 {
                    e == failed(EINVAL)
                } else if pid < 0 || pid > 65535 || !known(table@.procs, target) {
                    e == failed(ESRCH)
                } else {
                    e == failed(EFAULT) && !has_mask
                },
            }
        }),
{
    let words: usize = if cpus % 64 == 0 {
        cpus / 64
    } else {
        cpus / 64 + 1
    };
    let size: usize = words * 8;
    let least: usize = if cpus % 8 == 0 {
        cpus / 8
    } else {
        cpus / 8 + 1
    };
    if cpusetsize < least || cpusetsize % 8 != 0 {
        return Err(fail(EINVAL));
    }
    if pid < 0 || pid > 65535 {
        return Err(fail(ESRCH));
    }
    let target: u16 = if pid == 0 {
        table.current
    } else {
        pid as u16
    };
    if table.find_process_index(target).is_none() {
        return Err(fail(ESRCH));
    }
    if !has_mask {
        return Err(fail(EFAULT));
    }
    let n: usize = if cpusetsize < size {
        cpusetsize
    } else {
        size
    };
    let mut out: Vec<u8> = Vec::new();
    out.push(1);
    push_repeat(&mut out, 0, n - 1);
    proof {
        assert(out@ =~= first_processor(n as int));
    }
    Ok(out)
}

/// Whether the use of resources can be asked for; nothing of it is counted.
pub fn getrusage(who: i32, has_buffer: bool) -> (r: i64)
    ensures
        r == if !has_buffer {
            failed(EFAULT)
        } else if -1 <= who <= 1 {
            0
        } else {
            failed(EINVAL)
        },
{
    if !has_buffer {
        return fail(EFAULT);
    }
    if who < -1 || who > 1 {
        return fail(EINVAL);
    }
    0
}

/// One step of the generator of random bytes: the next state.
pub open spec fn next_state(x: u64) -> u64 {
    let a = x ^ (x >> 12);
    let b = a ^ (a << 25);
    b ^ (b >> 27)
}

/// The states of the generator after `x`.
pub open spec fn state_after(x: u64, n: nat) -> u64
    decreases n,
{
    if n == 0 {
        x
    } else {
        next_state(state_after(x, (n - 1) as nat))
    }
}

/// The byte that a state gives.
pub open spec fn state_byte(x: u64) -> u8 {
    (vstd::wrapping::u64_specs::wrapping_mul(x, 0x2545_F491_4F6C_DD1D) & 0xFF) as u8
}

/// Whether random bytes have nowhere to go.
pub fn getrandom_refused(buf_ptr: u64, len: u64) -> (r: Option<i64>)
    ensures
        r == if buf_ptr == 0 && len != 0 {
            Some(failed(EFAULT))
        } else {
            None::<i64>
        },
{
    if buf_ptr == 0 && len != 0 {
        Some(fail(EFAULT))
    } else {
        None
    }
}

/// Random bytes. `seed` is kept from call to call, `now` is what the clock of the
/// processor shows, and `pid` is who asks.
pub fn getrandom(seed: &mut u64, now: u64, pid: u16, len: usize) -> (r: Vec<u8>)
    ensures
        ({
            let mixed = now ^ vstd::wrapping::u64_specs::wrapping_mul(
                pid as u64,
                0x9E37_79B9_7F4A_7C15,
            );
            let start = *old(seed) ^ mixed;
            &&& *final(seed) == (*old(seed) ^ mixed) ^ rotated(len as u64)
            &&& r@.len() == len
            &&& forall|i: int| 0 <= i < len ==> #[trigger] r@[i] == state_byte(
                state_after(start, (i + 1) as nat),
            )
        }),
{
    let mixed: u64 = now ^ (pid as u64).wrapping_mul(0x9E37_79B9_7F4A_7C15);
    let start: u64 = *seed ^ mixed;
    let l: u64 = len as u64;
    *seed = (*seed ^ mixed) ^ ((l << 17) | (l >> 47));
    let mut x: u64 = start;
    let mut out: Vec<u8> = Vec::new();
    let mut i: usize = 0;
    while i < len
        invariant
            i <= len,
            out@.len() == i,
            x == state_after(start, i as nat),
            forall|k: int| 0 <= k < i ==> #[trigger] out@[k] == state_byte(
                state_after(start, (k + 1) as nat),
            ),
        decreases len - i,
    {
        x = x ^ (x >> 12);
        x = x ^ (x << 25);
        x = x ^ (x >> 27);
        let y: u64 = x.wrapping_mul(0x2545_F491_4F6C_DD1D);
        out.push(#[verifier::truncate]
        ((y & 0xFF) as u8));
        i = i + 1;
    }
    out
}

/// A word turned left by seventeen bits.
pub open spec fn rotated(l: u64) -> u64 {
    (l << 17) | (l >> 47)
}

/// What a futex call comes to.
#[derive(Debug, Clone, Copy, PartialEq, Eq, Structural)]
pub enum FutexStep {
    Return(i64),
    /// The processor is given up once, and then the call returns 0.
    Yield,
}

/// The command of a futex call without its flags.
pub open spec fn futex_cmd(op: i32) -> i32 {
    op & !(128i32 | 256i32)
}

/// What a futex call comes to.
pub open spec fn futexed(uaddr: u64, op: i32, val: u32, current: u32) -> FutexStep {
    let c = futex_cmd(op);
    if uaddr == 0 {
        FutexStep::Return(failed(EFAULT))
    } else if c == 0 || c == 9 {
        if current != val {
            FutexStep::Return(failed(EAGAIN))
        } else {
            FutexStep::Yield
        }
    } else if c == 1 || c == 10 {
        FutexStep::Return(0)
    } else {
        FutexStep::Return(failed(ENOSYS))
    }
}

/// A futex call on the word at `uaddr`, which holds `current`.
pub fn futex(uaddr: u64, op: i32, val: u32, current: u32) -> (r: FutexStep)
    ensures
        r == futexed(uaddr, op, val, current),
{
    let cmd: i32 = op & !(128i32 | 256i32);
    if uaddr == 0 {
        return FutexStep::Return(fail(EFAULT));
    }
    if cmd == 0 || cmd == 9 {
        if current != val {
            return FutexStep::Return(fail(EAGAIN));
        }
        return FutexStep::Yield;
    }
    if cmd == 1 || cmd == 10 {
        return FutexStep::Return(0);
    }
    FutexStep::Return(fail(ENOSYS))
}

pub open spec fn proc_prefix() -> Seq<u8> {
    seq![47u8, 112, 114, 111, 99, 47]
}

pub open spec fn exe_suffix() -> Seq<u8> {
    seq![47u8, 101, 120, 101]
}

pub open spec fn self_exe() -> Seq<u8> {
    seq![47u8, 112, 114, 111, 99, 47, 115, 101, 108, 102, 47, 101, 120, 101]
}

/// The number that decimal digits stand for; a plus sign may stand before them.
pub open spec fn digits_value(s: Seq<u8>) -> int
    decreases s.len(),
{
    if s.len() == 0 {
        0
    } else {
        digits_value(s.drop_last()) * 10 + (s.last() - 48)
    }
}

pub open spec fn all_digits(s: Seq<u8>) -> bool {
    forall|i: int| 0 <= i < s.len() ==> 48 <= #[trigger] s[i] <= 57
}

/// A text without the plus sign before it, where digits follow.
pub open spec fn unsigned_part(s: Seq<u8>) -> Seq<u8> {
    if s.len() > 1 && s[0] == 43 {
        s.skip(1)
    } else {
        s
    }
}

/// The process number that a text is.
pub open spec fn parsed_pid(s: Seq<u8>) -> Option<u16> {
    let d = unsigned_part(s);
    if d.len() > 0 && all_digits(d) && digits_value(d) <= 65535 {
        Some(digits_value(d) as u16)
    } else {
        None
    }
}

proof fn lemma_digits(s: Seq<u8>, i: int)
    requires
        0 <= i <= s.len(),
        all_digits(s),
    ensures
        0 <= digits_value(s.take(i)) <= digits_value(s),
    decreases s.len(),
{
    if s.len() > 0 {
        let front = s.drop_last();
        assert forall|k: int| 0 <= k < front.len() implies 48 <= #[trigger] front[k] <= 57 by {
            assert(front[k] == s[k]);
        }
        assert(s.last() == s[s.len() - 1]);
        if i < s.len() {
            lemma_digits(front, i);
            assert(front.take(i) =~= s.take(i));
        } else {
            lemma_digits(front, front.len() as int);
            assert(front.take(front.len() as int) =~= front);
            assert(s.take(i) =~= s);
        }
    }
}

fn parse_pid(s: &[u8]) -> (r: Option<u16>)
    ensures
        r == parsed_pid(s@),
{
    let len: usize = s.len();
    let start: usize = if len > 1 && s[0] == 43 {
        1
    } else {
        0
    };
    let ghost d = unsigned_part(s@);
    proof {
        assert(d =~= s@.skip(start as int));
    }
    if len == start {
        return None;
    }
    let mut n: u32 = 0;
    let mut i: usize = start;
    proof {
        assert(d.take(0).len() == 0);
    }
    while i < len
        invariant
            len == s@.len(),
            start <= i <= len,
            start < len,
            d == s@.skip(start as int),
            d == unsigned_part(s@),
            n == digits_value(d.take(i - start)),
            n <= 65535,
            forall|k: int| 0 <= k < i - start ==> 48 <= #[trigger] d[k] <= 57,
        decreases len - i,
    {
        let b: u8 = s[i];
        proof {
            assert(d[i - start] == b);
            assert(d.take(i - start + 1).drop_last() =~= d.take(i - start));
        }
        if b < 48 || b > 57 {
            return None;
        }
        n = n * 10 + (b - 48) as u32;
        if n > 65535 {
            proof {
                if all_digits(d) {
                    lemma_digits(d, i - start + 1);
                }
            }
            return None;
        }
        i = i + 1;
    }
    proof {
        assert(d.take(len - start) =~= d);
    }
    Some(n as u16)
}

/// The part of a path between `/proc/` and `/exe`, where it has that form and names one
/// directory.
pub open spec fn proc_entry(path: Seq<u8>) -> Option<Seq<u8>> {
    let rest = path.skip(6);
    let part = rest.take(rest.len() - 4);
    if has_prefix(path, proc_prefix()) && rest.len() >= 4 && rest.skip(rest.len() - 4)
        == exe_suffix() && part.len() > 0 && !part.contains(SLASH) {
        Some(part)
    } else {
        None
    }
}

/// Where the link to the program of a process leads, if the path is that of such a link.
pub open spec fn exe_link(t: TableView, path: Seq<u8>, current_exe: Seq<u8>) -> Result<Option<Seq<u8>>, i64> {
    let pid = match proc_entry(path) {
        Some(part) => parsed_pid(part),
        None => None,
    };
    if path == self_exe() {
        Ok(Some(current_exe))
    } else {
        match pid {
            None => Ok(None),
            Some(n) => if n == t.current {
                Ok(Some(current_exe))
            } else if known(t.procs, n) {
                Ok(Some(process(t, n).exe_path))
            } else {
                Err(failed(ENOENT))
            },
        }
    }
}

/// The program that a link under `/proc` names. None where the path is no such link.
pub fn proc_exe_readlink_target(table: &ProcessTable, path: &[u8], current_exe: &[u8]) -> (r: Result<
    Option<Vec<u8>>,
    i64,
>)
    ensures
        match r {
            Ok(Some(v)) => exe_link(table@, path@, current_exe@) == Ok::<Option<Seq<u8>>, i64>(Some(v@)),
            Ok(None) => exe_link(table@, path@, current_exe@) == Ok::<Option<Seq<u8>>, i64>(None),
            Err(e) => exe_link(table@, path@, current_exe@) == Err::<Option<Seq<u8>>, i64>(e),
        },
{
    let own: [u8; 14] = [47u8, 112, 114, 111, 99, 47, 115, 101, 108, 102, 47, 101, 120, 101];
    let prefix: [u8; 6] = [47u8, 112, 114, 111, 99, 47];
    let suffix: [u8; 4] = [47u8, 101, 120, 101];
    proof {
        assert(own@ =~= self_exe());
        assert(prefix@ =~= proc_prefix());
        assert(suffix@ =~= exe_suffix());
    }
    if same(path, &own) {
        return Ok(Some(to_vec(current_exe)));
    }
    let len: usize = path.len();
    if !starts_with(path, &prefix) || len < 11 {
        return Ok(None);
    }
    let end: Vec<u8> = crate::bytes::cut(path, len - 4, len);
    let part: Vec<u8> = crate::bytes::cut(path, 6, len - 4);
    let ghost rest = path@.skip(6);
    proof {
        assert(end@ =~= rest.skip(rest.len() - 4));
        assert(part@ =~= rest.take(rest.len() - 4));
    }
    if !same(&end, &suffix) {
        return Ok(None);
    }
    match crate::bytes::rfind(&part, SLASH) {
        Some(k) => {
            proof {
                assert(part@[k as int] == SLASH);
                assert(part@.contains(SLASH));
            }
            return Ok(None);
        },
        None => {},
    }
    let pid: u16 = match parse_pid(&part) {
        Some(n) => n,
        None => return Ok(None),
    };
    if pid == table.current {
        return Ok(Some(to_vec(current_exe)));
    }
    match table.get_process(pid) {
        Some(p) => Ok(Some(to_vec(&p.exe_path))),
        None => Err(fail(ENOENT)),
    }
}

/// The path whose link is asked for: `readlinkat` reads it from memory of the program, where
/// None stands for a path that could not be read.
pub fn readlinkat_path(
    path_ptr: u64,
    buf_ptr: u64,
    buf_len: usize,
    path: Option<&[u8]>,
    dirfd: i32,
    pwd: Option<&[u8]>,
    dir: DirKind,
    dir_path: &[u8],
) -> (r: Result<Vec<u8>, i64>)
    ensures
        same_result(
            r,
            if path_ptr == 0 || buf_ptr == 0 {
                Err(failed(EFAULT))
            } else if buf_len == 0 {
                Err(failed(EINVAL))
            } else {
                match (opt_view(pwd), opt_view(path)) {
                    (None, _) => Err(failed(ESRCH)),
                    (_, None) => Err(failed(EFAULT)),
                    (Some(w), Some(p)) => lies_at(dirfd, w, dir, dir_path@, p),
                }
            },
        ),
{
    if path_ptr == 0 || buf_ptr == 0 {
        return Err(fail(EFAULT));
    }
    if buf_len == 0 {
        return Err(fail(EINVAL));
    }
    let w: &[u8] = match pwd {
        Some(w) => w,
        None => {
            return Err(fail(ESRCH));
        },
    };
    match path {
        Some(p) => resolve_at(dirfd, w, dir, dir_path, p),
        None => Err(fail(EFAULT)),
    }
}

/// What reading a link gives: so much of where it leads as there is room for.
pub open spec fn link_read(target: Option<Seq<u8>>, exists_in_fs: bool, buf_len: int) -> Result<
    Seq<u8>,
    i64,
> {
    if buf_len == 0 {
        Err(failed(EINVAL))
    } else {
        match target {
            Some(t) => Ok(
                t.take(
                    if t.len() < buf_len {
                        t.len() as int
                    } else {
                        buf_len
                    },
                ),
            ),
            None => Err(
                if exists_in_fs {
                    failed(EINVAL)
                } else {
                    failed(ENOENT)
                },
            ),
        }
    }
}

/// What a link is answered with: as much of its target as fits. What is no link, but is
/// there, is answered with an error of its own, and so is a buffer without room.
pub fn readlink_answer(target: Option<&Vec<u8>>, exists_in_fs: bool, buf_len: usize) -> (r: Result<Vec<u8>, i64>)
    ensures
        same_result(
            r,
            link_read(
                match target {
                    Some(t) => Some(t@),
                    None => None,
                },
                exists_in_fs,
                buf_len as int,
            ),
        ),
{
    if buf_len == 0 {
        return Err(fail(EINVAL));
    }
    match target {
        Some(t) => {
            let n: usize = if t.len() < buf_len {
                t.len()
            } else {
                buf_len
            };
            let v: Vec<u8> = crate::bytes::cut(t, 0, n);
            proof {
                assert(v@ =~= t@.take(n as int));
            }
            Ok(v)
        },
        None => if exists_in_fs {
            Err(fail(EINVAL))
        } else {
            Err(fail(ENOENT))
        },
    }
}

} // verus!
