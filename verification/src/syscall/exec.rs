//! Replacing the program of a process: which file is run, and with which arguments.

use crate::bytes::{has_prefix, starts_with, to_vec, views};
use crate::errno::{fail, failed, EFAULT, ENOEXEC, ESRCH};
use crate::paths::SLASH;
use crate::proc::process::{c_name, comm_of, program_name, ProcView, Process};
use crate::syscall::pathname::{
    exec_path, is_script, parse_shebang, resolve_exec_path, script_arg, script_valid, shell, trimmed,
    Shebang,
};
use crate::syscall::utils::{
    copy_user_ptr_array, entry_bad, list_ends, list_starts, text_at, UserMemory, UserPtr,
};
use vstd::prelude::*;

verus! {

/// How long a path may be.
pub const MAX_PATH: usize = 4096;

/// How many arguments, and how many variables, a program may have.
pub const MAX_ARGS: usize = 128;

/// The first bytes of a program.
pub open spec fn program_mark() -> Seq<u8> {
    seq![0x7fu8, 69, 76, 70]
}

fn is_program(content: &[u8]) -> (r: bool)
    ensures
        r == has_prefix(content@, program_mark()),
{
    let mark: [u8; 4] = [0x7fu8, 69, 76, 70];
    proof {
        assert(mark@ =~= program_mark());
    }
    starts_with(content, &mark)
}

/// Where the program lies that the path at `path_ptr` names; `pwd` is the directory of
/// the process, where there is one.
pub fn exec_begin<M: UserMemory>(mem: &M, pwd: Option<&Vec<u8>>, path_ptr: u64) -> (r: Result<
    Vec<u8>,
    i64,
>)
    ensures
        match r {
            Ok(v) => exists|p: Seq<u8>|
                {
                    &&& #[trigger] text_at(mem, path_ptr, p, 4096)
                    &&& trimmed(p).len() > 0
                    &&& match pwd {
                        Some(d) => exec_path(d@, p) == Some(v@),
                        None => trimmed(p)[0] == SLASH && exec_path(Seq::empty(), p) == Some(v@),
                    }
                },
            Err(e) => {
                ||| e == failed(EFAULT) && forall|p: Seq<u8>| !text_at(mem, path_ptr, p, 4096)
                ||| e == failed(crate::errno::ENOENT) && exists|p: Seq<u8>| #[trigger]
                    text_at(mem, path_ptr, p, 4096) && trimmed(p).len() == 0
                ||| e == failed(ESRCH) && pwd is None && exists|p: Seq<u8>| #[trigger]
                    text_at(mem, path_ptr, p, 4096) && trimmed(p).len() > 0 && trimmed(p)[0] != SLASH
            },
        },
{
    let path: Vec<u8> = match crate::syscall::utils::read_text(mem, path_ptr, MAX_PATH) {
        Some(p) => p,
        None => return Err(fail(EFAULT)),
    };
    proof {
        assert(text_at(mem, path_ptr, path@, 4096));
    }
    match pwd {
        Some(d) => resolve_exec_path(d, &path),
        None => {
            let p: Vec<u8> = crate::syscall::pathname::trim(&path);
            if p.len() > 0 && p[0] != SLASH {
                return Err(fail(ESRCH));
            }
            let none: Vec<u8> = Vec::new();
            proof {
                assert(none@ =~= Seq::<u8>::empty());
            }
            resolve_exec_path(&none, &path)
        },
    }
}

/// The arguments and the environment that a program gets. A program may be given no
/// environment.
pub fn exec_lists<M: UserMemory>(mem: &M, argv_ptr: u64, env_ptr: u64) -> (r: Result<
    (Vec<Vec<u8>>, Vec<Vec<u8>>),
    i64,
>)
    ensures
        match r {
            Ok((a, e)) => {
                &&& list_read(mem, argv_ptr, views(a@))
                &&& if env_ptr == 0 {
                    e@.len() == 0
                } else {
                    list_read(mem, env_ptr, views(e@))
                }
            },
            Err(e) => e == failed(EFAULT) && (list_unreadable(mem, argv_ptr) || (env_ptr != 0
                && list_unreadable(mem, env_ptr))),
        },
{
    let argv: Vec<Vec<u8>> = match copy_user_ptr_array(mem, UserPtr { addr: argv_ptr }, MAX_ARGS, MAX_PATH) {
        Ok(v) => v,
        Err(_) => {
            proof {
                assert(list_unreadable(mem, argv_ptr));
            }
            return Err(fail(EFAULT));
        },
    };
    if env_ptr == 0 {
        return Ok((argv, Vec::new()));
    }
    match copy_user_ptr_array(mem, UserPtr { addr: env_ptr }, MAX_ARGS, MAX_PATH) {
        Ok(v) => Ok((argv, v)),
        Err(_) => {
            proof {
                assert(list_unreadable(mem, env_ptr));
            }
            Err(fail(EFAULT))
        },
    }
}

/// Whether the list at `addr` holds the texts `ss`, as many as are read.
pub open spec fn list_read<M: UserMemory>(mem: &M, addr: u64, ss: Seq<Seq<u8>>) -> bool {
    &&& list_starts(mem, addr, ss, 4096)
    &&& ss.len() <= 128
    &&& ss.len() < 128 ==> list_ends(mem, addr, ss.len() as int)
}

/// Whether one of the first entries of the list at `addr` cannot be read.
pub open spec fn list_unreadable<M: UserMemory>(mem: &M, addr: u64) -> bool {
    exists|ss: Seq<Seq<u8>>|
        {
            &&& #[trigger] list_starts(mem, addr, ss, 4096)
            &&& ss.len() < 128
            &&& entry_bad(mem, addr, ss.len() as int, 4096)
        }
}

/// What a file is run with.
pub enum ExecPlan {
    /// The file is a program.
    Program,
    /// The file is a script: the shell is run, with these arguments.
    Script { interpreter: Vec<u8>, argv: Vec<Vec<u8>> },
}

/// The arguments of the shell that runs the script at `path`, which was called with
/// `argv`.
pub open spec fn shell_args(path: Seq<u8>, arg: Option<Seq<u8>>, argv: Seq<Seq<u8>>) -> Seq<Seq<u8>> {
    let head = match arg {
        Some(a) => seq![shell(), a, path],
        None => seq![shell(), path],
    };
    if argv.len() > 0 {
        head + argv.skip(1)
    } else {
        head
    }
}

/// Decides how the file at `path` is run.
pub fn exec_plan(content: &[u8], path: &[u8], argv: &Vec<Vec<u8>>) -> (r: Result<ExecPlan, i64>)
    ensures
        match r {
            Ok(ExecPlan::Program) => has_prefix(content@, program_mark()),
            Ok(ExecPlan::Script { interpreter, argv: a }) => {
                &&& !has_prefix(content@, program_mark())
                &&& is_script(content@)
                &&& script_valid(content@)
                &&& interpreter@ == shell()
                &&& views(a@) == shell_args(path@, script_arg(content@), views(argv@))
            },
            Err(e) => {
                &&& e == failed(ENOEXEC)
                &&& !has_prefix(content@, program_mark())
                &&& !(is_script(content@) && script_valid(content@))
            },
        },
{
    if is_program(content) {
        return Ok(ExecPlan::Program);
    }
    let script: Shebang = match parse_shebang(content) {
        Ok(Some(s)) => s,
        Ok(None) => return Err(fail(ENOEXEC)),
        Err(e) => return Err(e),
    };
    let mut out: Vec<Vec<u8>> = Vec::new();
    out.push(to_vec(&script.interpreter));
    let ghost arg = script_arg(content@);
    match &script.arg {
        Some(a) => {
            let copy: Vec<u8> = to_vec(a);
            out.push(copy);
        },
        None => {},
    }
    let name: Vec<u8> = to_vec(path);
    out.push(name);
    let ghost head = match arg {
        Some(a) => seq![shell(), a, path@],
        None => seq![shell(), path@],
    };
    proof {
        assert(views(out@) =~= head);
    }
    let ghost all = views(argv@);
    let mut i: usize = 1;
    let len: usize = argv.len();
    proof {
        if len > 0 {
            assert(views(out@) =~= head + all.subrange(1, 1));
        }
    }
    while i < len
        invariant
            1 <= i,
            len == argv@.len(),
            all == views(argv@),
            len > 0 ==> i <= len && views(out@) == head + all.subrange(1, i as int),
            len == 0 ==> views(out@) == head,
        decreases len - i,
    {
        let ghost before = out@;
        let copy: Vec<u8> = to_vec(&argv[i]);
        out.push(copy);
        proof {
            assert(views(out@) =~= views(before).push(copy@));
            assert(all.subrange(1, i + 1) =~= all.subrange(1, i as int).push(all[i as int]));
            assert(views(out@) =~= head + all.subrange(1, i + 1));
        }
        i = i + 1;
    }
    proof {
        if len > 0 {
            assert(all.subrange(1, len as int) =~= all.skip(1));
        }
    }
    Ok(ExecPlan::Script { interpreter: script.interpreter, argv: out })
}

/// Checks the file of the shell: it has to be a program.
pub fn exec_interpreter(content: &[u8]) -> (r: Result<(), i64>)
    ensures
        match r {
            Ok(_) => has_prefix(content@, program_mark()),
            Err(e) => !has_prefix(content@, program_mark()) && e == failed(ENOEXEC),
        },
{
    if is_program(content) {
        Ok(())
    } else {
        Err(fail(ENOEXEC))
    }
}

/// Names a process after the program that it runs now.
pub fn exec_commit(p: &mut Process, image_path: &[u8])
    ensures
        final(p)@ == (ProcView {
            exe_path: image_path@,
            comm: comm_of(c_name(program_name(image_path@))),
            ..old(p)@
        }),
{
    p.exe_path = to_vec(image_path);
    p.set_comm_from_path(image_path);
}

} // verus!
