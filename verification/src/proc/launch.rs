//! How a program comes to run: it is loaded, given a stack, and put into a process.

use crate::bytes::{to_vec, views};
use crate::proc::elf::{
    layout, load_elf_image, load_interpreter_image, loadable, header_of, is_loaded, load_bias,
    phdrs, segment_regions, segment_valid, segments_end, static_tls_spill, Elf64Phdr, ImageView,
    LoadedImage, ReadAt, INTERP_DYN_LOAD_BASE, MAIN_DYN_LOAD_BASE,
};
use crate::proc::mem::{up, ElfRegion, ProcMM};
use crate::proc::process::{
    comm_of, kept_on_exec, program_name, task_comm_from_path, FdEntry, ProcView, Process,
    ProcessState,
};
use crate::proc::signals::{
    default_actions, fresh_actions, no_alt_stack, no_signals, SignalAltStack, SignalSet,
};
use crate::proc::stack::{
    aux_of, build_initial_stack, stack_bytes, stack_pointer, InitialStack, USER_STACK_SIZE,
    USER_STACK_TOP,
};
use vstd::prelude::*;

verus! {

/// The permissions that a process takes away from files it makes.
pub const DEFAULT_UMASK: u16 = 0o022;

/// The numbers of processes to come.
pub struct PidCounter {
    pub next: u16,
}

impl PidCounter {
    /// Process 0 is the kernel's own; programs start at 1.
    pub fn new() -> (r: Self)
        ensures
            r.next == 1,
    {
        PidCounter { next: 1 }
    }

    /// The number of a new process. After the last number comes 0 again.
    pub fn take(&mut self) -> (r: u16)
        ensures
            r == old(self).next,
            final(self).next == if old(self).next == u16::MAX {
                0
            } else {
                (old(self).next + 1) as u16
            },
    {
        let r: u16 = self.next;
        self.next = if r == u16::MAX {
            0
        } else {
            r + 1
        };
        r
    }
}

/// A program that was read, without the interpreter that it may ask for.
pub struct MainImage {
    pub image: LoadedImage,
    pub regions: Vec<ElfRegion>,
}

/// A program that is complete.
pub struct Program {
    pub entry_point: u64,
    pub aux_entry: u64,
    pub at_base: u64,
    pub phdr_va: u64,
    pub phent: u64,
    pub phnum: u64,
    pub max_end: u64,
    pub spill: bool,
    pub regions: Vec<ElfRegion>,
}

/// A program that is complete.
pub struct ProgramView {
    pub entry_point: u64,
    pub aux_entry: u64,
    pub at_base: u64,
    pub phdr_va: u64,
    pub phent: u64,
    pub phnum: u64,
    pub max_end: u64,
    pub spill: bool,
    pub regions: Seq<ElfRegion>,
}

impl View for Program {
    type V = ProgramView;

    open spec fn view(&self) -> ProgramView {
        ProgramView {
            entry_point: self.entry_point,
            aux_entry: self.aux_entry,
            at_base: self.at_base,
            phdr_va: self.phdr_va,
            phent: self.phent,
            phnum: self.phnum,
            max_end: self.max_end,
            spill: self.spill,
            regions: self.regions@,
        }
    }
}

impl Program {
    /// The pages of the program end where an address ends.
    pub open spec fn wf(&self) -> bool {
        self.max_end <= u64::MAX - 4095
    }
}

/// The parts of a program in file `id`.
pub open spec fn image_regions(c: Seq<u8>, hint: u64, id: usize) -> Seq<ElfRegion> {
    segment_regions(phdrs(c), load_bias(header_of(c), Some(hint)), id)
}

/// What a file holds as a program.
pub open spec fn main_layout(c: Seq<u8>) -> ImageView {
    layout(c, Some(MAIN_DYN_LOAD_BASE), true)
}

/// What a file holds as an interpreter.
pub open spec fn interp_layout(c: Seq<u8>) -> ImageView {
    layout(c, Some(INTERP_DYN_LOAD_BASE), false)
}

/// Whether a file can be run.
pub open spec fn runnable_file(c: Seq<u8>) -> bool {
    c.len() >= 4 && loadable(c, Some(MAIN_DYN_LOAD_BASE), true)
}

/// A program that runs by itself.
pub open spec fn alone(i: ImageView, regions: Seq<ElfRegion>) -> ProgramView {
    ProgramView {
        entry_point: i.entry_point,
        aux_entry: i.entry_point,
        at_base: 0,
        phdr_va: i.phdr_va,
        phent: i.phent,
        phnum: i.phnum,
        max_end: i.max_end,
        spill: i.has_tls && i.interp_path is None,
        regions,
    }
}

/// A program that its interpreter starts.
pub open spec fn interpreted(i: ImageView, t: ImageView, regions: Seq<ElfRegion>) -> ProgramView {
    ProgramView {
        entry_point: t.entry_point,
        at_base: t.load_base,
        max_end: if t.max_end > i.max_end {
            t.max_end
        } else {
            i.max_end
        },
        ..alone(i, regions)
    }
}

proof fn lemma_segments_end(c: Seq<u8>, ps: Seq<Elf64Phdr>, bias: u64)
    requires
        forall|i: int| 0 <= i < ps.len() && is_loaded(ps[i]) ==> segment_valid(c, #[trigger] ps[i], bias),
    ensures
        segments_end(ps, bias) <= u64::MAX - 4095,
    decreases ps.len(),
{
    if ps.len() > 0 {
        assert forall|i: int| 0 <= i < ps.drop_last().len() && is_loaded(ps.drop_last()[i]) implies
            segment_valid(c, #[trigger] ps.drop_last()[i], bias) by {
            assert(ps.drop_last()[i] == ps[i]);
        }
        lemma_segments_end(c, ps.drop_last(), bias);
        assert(ps.last() == ps[ps.len() - 1]);
    }
}

/// Reads the program in a file.
pub fn load_main<F: ReadAt>(file: &F, file_id: usize) -> (res: Result<MainImage, ()>)
    ensures
        ({
            let c = file.content();
            match res {
                Ok(m) => {
                    &&& runnable_file(c)
                    &&& m.image@ == main_layout(c)
                    &&& m.regions@ == image_regions(c, MAIN_DYN_LOAD_BASE, file_id)
                    &&& m.image.max_end <= u64::MAX - 4095
                },
                Err(_) => file.readable() ==> !runnable_file(c),
            }
        }),
{
    if file.size() < 4 {
        return Err(());
    }
    let mut regions: Vec<ElfRegion> = Vec::new();
    match load_elf_image(file, file_id, &mut regions, Some(MAIN_DYN_LOAD_BASE), true) {
        Ok(image) => {
            proof {
                let c = file.content();
                lemma_segments_end(c, phdrs(c), load_bias(header_of(c), Some(MAIN_DYN_LOAD_BASE)));
                assert(regions@ =~= image_regions(c, MAIN_DYN_LOAD_BASE, file_id));
                assert(image@.max_end == image.max_end);
            }
            Ok(MainImage { image, regions })
        },
        Err(_) => Err(()),
    }
}

/// Completes a program that asks for no interpreter. None where it does ask for one.
pub fn complete_alone(main: MainImage) -> (res: Option<Program>)
    requires
        main.image.max_end <= u64::MAX - 4095,
    ensures
        match res {
            Some(p) => main.image@.interp_path is None && p@ == alone(main.image@, main.regions@)
                && p.wf(),
            None => main.image@.interp_path is Some,
        },
{
    if main.image.interp_path.is_some() {
        return None;
    }
    Some(
        Program {
            entry_point: main.image.entry_point,
            aux_entry: main.image.entry_point,
            at_base: 0,
            phdr_va: main.image.phdr_va,
            phent: main.image.phent,
            phnum: main.image.phnum,
            max_end: main.image.max_end,
            spill: main.image.has_tls,
            regions: main.regions,
        },
    )
}

/// Completes a program with the interpreter that it asks for.
pub fn complete_with<G: ReadAt>(main: MainImage, interp: &G, interp_id: usize) -> (res: Result<
    Program,
    (),
>)
    requires
        main.image.max_end <= u64::MAX - 4095,
        main.image@.interp_path is Some,
    ensures
        ({
            let t = interp.content();
            match res {
                Ok(p) => {
                    &&& loadable(t, Some(INTERP_DYN_LOAD_BASE), false)
                    &&& p@ == interpreted(
                        main.image@,
                        interp_layout(t),
                        main.regions@ + image_regions(t, INTERP_DYN_LOAD_BASE, interp_id),
                    )
                    &&& p.wf()
                },
                Err(_) => interp.readable() ==> !loadable(t, Some(INTERP_DYN_LOAD_BASE), false),
            }
        }),
{
    let mut regions: Vec<ElfRegion> = main.regions;
    let ghost t = interp.content();
    match load_interpreter_image(interp, interp_id, &mut regions) {
        Ok(i) => {
            proof {
                lemma_segments_end(t, phdrs(t), load_bias(header_of(t), Some(INTERP_DYN_LOAD_BASE)));
                assert(i@.max_end == i.max_end);
                assert(i@.entry_point == i.entry_point);
            }
            let max_end: u64 = if i.max_end > main.image.max_end {
                i.max_end
            } else {
                main.image.max_end
            };
            Ok(
                Program {
                    entry_point: i.entry_point,
                    aux_entry: main.image.entry_point,
                    at_base: i.load_base,
                    phdr_va: main.image.phdr_va,
                    phent: main.image.phent,
                    phnum: main.image.phnum,
                    max_end,
                    spill: false,
                    regions,
                },
            )
        },
        Err(_) => Err(()),
    }
}

/// A program that is ready to run.
pub struct Launched {
    pub entry_point: u64,
    pub stack: InitialStack,
    pub addr_size_vec: Vec<(u64, u64)>,
    pub memory: ProcMM,
}

/// Where the memory of a program ends, once it has its spare pages.
pub open spec fn launch_end(p: ProgramView) -> int {
    if p.spill {
        up(p.max_end as int, 4096) + 8192
    } else {
        p.max_end as int
    }
}

/// The memory that is mapped before a program starts.
pub open spec fn launch_ranges(p: ProgramView, stack_granted: bool) -> Seq<(u64, u64)> {
    let stack = if stack_granted {
        seq![((USER_STACK_TOP - USER_STACK_SIZE) as u64, USER_STACK_SIZE)]
    } else {
        Seq::<(u64, u64)>::empty()
    };
    if p.spill {
        stack.push((up(p.max_end as int, 4096) as u64, 8192u64))
    } else {
        stack
    }
}

/// The stack pointer of a program that starts.
pub open spec fn launch_rsp(args: Seq<Seq<u8>>, env: Seq<Seq<u8>>) -> int {
    stack_pointer(USER_STACK_TOP as int, args, env, None)
}

/// The stack of a program that starts.
pub open spec fn launch_stack(p: ProgramView, args: Seq<Seq<u8>>, env: Seq<Seq<u8>>) -> Seq<u8> {
    stack_bytes(
        USER_STACK_TOP as int,
        args,
        env,
        aux_of(
            USER_STACK_TOP as int,
            args,
            env,
            p.aux_entry,
            p.at_base,
            p.phdr_va,
            p.phent,
            p.phnum,
            None,
            None,
        ),
        None,
    )
}

/// Whether a program can start: its arguments fit on the stack, and the pages that
/// it needs were granted.
pub open spec fn can_launch(
    p: ProgramView,
    args: Seq<Seq<u8>>,
    env: Seq<Seq<u8>>,
    spill_granted: bool,
) -> bool {
    &&& p.spill ==> spill_granted && launch_end(p) <= u64::MAX
    &&& USER_STACK_TOP - launch_rsp(args, env) <= USER_STACK_SIZE
}

/// What a program that starts finds.
pub open spec fn launched(
    l: Launched,
    p: ProgramView,
    args: Seq<Seq<u8>>,
    env: Seq<Seq<u8>>,
    stack_granted: bool,
) -> bool {
    &&& l.entry_point == p.entry_point
    &&& l.stack.rsp == launch_rsp(args, env)
    &&& l.stack.image@ == launch_stack(p, args, env)
    &&& l.addr_size_vec@ == launch_ranges(p, stack_granted)
    &&& l.memory.wf()
    &&& l.memory.heap_start == up(launch_end(p), 4096)
    &&& l.memory.brk_cur == l.memory.heap_start
    &&& l.memory.mapped_heap_end == l.memory.heap_start
    &&& l.memory.mmap_base_hint == 0
    &&& l.memory.mmap_regions@.len() == 0
    &&& l.memory.elf_regions@ == p.regions
}

/// Prepares a program, with the answers to its requests for pages: those of the
/// stack, and the spare pages behind a program with thread-local memory.
pub fn launch(
    program: Program,
    args: &Vec<Vec<u8>>,
    env: &Vec<Vec<u8>>,
    stack_granted: bool,
    spill_granted: bool,
) -> (res: Result<Launched, ()>)
    requires
        program.wf(),
    ensures
        match res {
            Ok(l) => can_launch(program@, views(args@), views(env@), spill_granted) && launched(
                l,
                program@,
                views(args@),
                views(env@),
                stack_granted,
            ),
            Err(_) => !can_launch(program@, views(args@), views(env@), spill_granted),
        },
{
    let mut ranges: Vec<(u64, u64)> = Vec::new();
    if stack_granted {
        ranges.push((USER_STACK_TOP - USER_STACK_SIZE, USER_STACK_SIZE));
    }
    let mut end: u64 = program.max_end;
    proof {
        crate::proc::mem::lemma_page();
    }
    if program.spill {
        match static_tls_spill(program.max_end) {
            Some((start, len)) => {
                if !spill_granted {
                    return Err(());
                }
                ranges.push((start, len));
                end = start + len;
            },
            None => return Err(()),
        }
    }
    proof {
        assert(ranges@ =~= launch_ranges(program@, stack_granted));
        assert(end == launch_end(program@));
    }
    let stack: InitialStack = match build_initial_stack(
        USER_STACK_TOP,
        program.aux_entry,
        program.at_base,
        args,
        env,
        program.phdr_va,
        program.phent,
        program.phnum,
        None,
        None,
    ) {
        Some(s) => s,
        None => return Err(()),
    };
    if USER_STACK_TOP - stack.rsp > USER_STACK_SIZE {
        return Err(());
    }
    let mut memory: ProcMM = ProcMM::new(end);
    let entry_point: u64 = program.entry_point;
    memory.elf_regions = program.regions;
    Ok(Launched { entry_point, stack, addr_size_vec: ranges, memory })
}

/// The standard descriptors: one open file for reading and two for writing.
pub fn standard_fd_table(input: usize, output: usize, errors: usize) -> (r: Vec<Option<FdEntry>>)
    ensures
        r@ == standard_fds(input, output, errors),
{
    let mut v: Vec<Option<FdEntry>> = Vec::new();
    v.push(Some(FdEntry { file: input, fd_flags: 0 }));
    v.push(Some(FdEntry { file: output, fd_flags: 0 }));
    v.push(Some(FdEntry { file: errors, fd_flags: 0 }));
    proof {
        assert(v@ =~= standard_fds(input, output, errors));
    }
    v
}

pub open spec fn standard_fds(input: usize, output: usize, errors: usize) -> Seq<Option<FdEntry>> {
    seq![
        Some(FdEntry { file: input, fd_flags: 0 }),
        Some(FdEntry { file: output, fd_flags: 0 }),
        Some(FdEntry { file: errors, fd_flags: 0 }),
    ]
}

/// What the machine gives a new process.
#[derive(Debug, Clone, Copy, PartialEq, Eq, Structural)]
pub struct Resources {
    pub page_table: u64,
    pub kernel_rsp: u64,
    pub proc_mm: usize,
}

/// A process that runs the program at `path`, before it has run.
pub open spec fn fresh_process(
    pid: u16,
    path: Seq<u8>,
    pwd: Seq<u8>,
    parent_pid: u16,
    sid: u16,
    state: ProcessState,
    own: Resources,
    fds: Seq<Option<FdEntry>>,
    entry_point: u64,
    stack: u64,
    stack_size: u64,
    ranges: Seq<(u64, u64)>,
) -> ProcView {
    ProcView {
        pid,
        tgid: pid,
        is_thread: false,
        parent_pid,
        pgid: pid,
        sid,
        state,
        stack,
        stack_size,
        entry_point,
        fs_base: 0,
        gs_base: 0,
        kernel_rsp: own.kernel_rsp,
        page_table: own.page_table,
        proc_mm: own.proc_mm,
        addr_size_vec: ranges,
        exe_path: path,
        comm: comm_of(program_name(path)),
        pwd,
        fd_table: fds,
        umask: 0o022,
        exit_code: 0,
        wait_status: 0,
        wait_reported: false,
        preempt_frame: 0,
        pending_io: false,
        signal_actions: default_actions(),
        signal_mask: no_signals(),
        pending_signals: 0,
        sigsuspend_saved_mask: no_signals(),
        in_sigsuspend: false,
        signal_alt_stack: no_alt_stack(),
        wait_token: None,
        wait_deadline_ns: None,
        wake_reason: None,
    }
}

fn make_process(
    pid: u16,
    path: &[u8],
    pwd: &[u8],
    parent_pid: u16,
    sid: u16,
    state: ProcessState,
    own: Resources,
    fds: Vec<Option<FdEntry>>,
    entry_point: u64,
    stack: u64,
    stack_size: u64,
    ranges: Vec<(u64, u64)>,
) -> (r: Process)
    ensures
        r@ == fresh_process(
            pid,
            path@,
            pwd@,
            parent_pid,
            sid,
            state,
            own,
            fds@,
            entry_point,
            stack,
            stack_size,
            ranges@,
        ),
{
    Process {
        pid,
        tgid: pid,
        is_thread: false,
        parent_pid,
        pgid: pid,
        sid,
        state,
        stack,
        stack_size,
        entry_point,
        fs_base: 0,
        gs_base: 0,
        kernel_rsp: own.kernel_rsp,
        page_table: own.page_table,
        proc_mm: own.proc_mm,
        addr_size_vec: ranges,
        exe_path: to_vec(path),
        comm: task_comm_from_path(path),
        pwd: to_vec(pwd),
        fd_table: fds,
        umask: DEFAULT_UMASK,
        exit_code: 0,
        wait_status: 0,
        wait_reported: false,
        preempt_frame: 0,
        pending_io: false,
        signal_actions: fresh_actions(),
        signal_mask: SignalSet { low: 0, high: 0 },
        pending_signals: 0,
        sigsuspend_saved_mask: SignalSet { low: 0, high: 0 },
        in_sigsuspend: false,
        signal_alt_stack: SignalAltStack::default(),
        wait_token: None,
        wait_deadline_ns: None,
        wake_reason: None,
    }
}

/// The session of a new process: that of its parent, where it has one.
pub open spec fn session_for(pid: u16, parent_pid: u16, parent_sid: Option<u16>) -> u16 {
    if parent_pid == 0 {
        pid
    } else {
        match parent_sid {
            Some(s) => s,
            None => pid,
        }
    }
}

/// The replaced process after an exec.
pub open spec fn replaced(
    p: ProcView,
    entry_point: u64,
    stack: u64,
    ranges: Seq<(u64, u64)>,
    page_table: u64,
    proc_mm: usize,
) -> ProcView {
    ProcView {
        page_table,
        proc_mm,
        addr_size_vec: ranges,
        entry_point,
        stack,
        stack_size: USER_STACK_SIZE,
        fs_base: 0,
        gs_base: 0,
        signal_actions: default_actions(),
        signal_mask: no_signals(),
        pending_signals: 0,
        fd_table: kept_on_exec(p.fd_table),
        ..p
    }
}

/// A new process that runs a program.
pub open spec fn spawned(
    pid: u16,
    exe_path: Seq<u8>,
    pwd: Seq<u8>,
    parent_pid: u16,
    parent_sid: Option<u16>,
    own: Resources,
    fds: Seq<Option<FdEntry>>,
    program: ProgramView,
    args: Seq<Seq<u8>>,
    env: Seq<Seq<u8>>,
    stack_granted: bool,
) -> ProcView {
    fresh_process(
        pid,
        exe_path,
        pwd,
        parent_pid,
        session_for(pid, parent_pid, parent_sid),
        ProcessState::Runnable,
        own,
        fds,
        program.entry_point,
        launch_rsp(args, env) as u64,
        USER_STACK_SIZE,
        launch_ranges(program, stack_granted),
    )
}

/// A process that has taken up another program.
pub open spec fn turned_into(
    p: ProcView,
    program: ProgramView,
    args: Seq<Seq<u8>>,
    env: Seq<Seq<u8>>,
    page_table: u64,
    proc_mm: usize,
) -> ProcView {
    replaced(
        p,
        program.entry_point,
        launch_rsp(args, env) as u64,
        launch_ranges(program, true),
        page_table,
        proc_mm,
    )
}

impl Process {
    /// A process that runs `program`, and its memory and stack. A process whose stack
    /// was not granted is made all the same, and has no range for it.
    pub fn new(
        program: Program,
        exe_path: &[u8],
        pwd: &[u8],
        args: &Vec<Vec<u8>>,
        env: &Vec<Vec<u8>>,
        parent_pid: u16,
        parent_sid: Option<u16>,
        own: Resources,
        fds: Vec<Option<FdEntry>>,
        stack_granted: bool,
        spill_granted: bool,
        pids: &mut PidCounter,
    ) -> (res: Result<(Process, ProcMM, InitialStack), ()>)
        requires
            program.wf(),
        ensures
            ({
                let a = views(args@);
                let e = views(env@);
                let pid = old(pids).next;
                match res {
                    Ok((p, memory, stack)) => {
                        &&& can_launch(program@, a, e, spill_granted)
                        &&& p@ == spawned(
                            pid,
                            exe_path@,
                            pwd@,
                            parent_pid,
                            parent_sid,
                            own,
                            fds@,
                            program@,
                            a,
                            e,
                            stack_granted,
                        )
                        &&& launched(
                            (Launched {
                                entry_point: p.entry_point,
                                stack,
                                addr_size_vec: p.addr_size_vec,
                                memory,
                            }),
                            program@,
                            a,
                            e,
                            stack_granted,
                        )
                        &&& final(pids).next == if pid == u16::MAX {
                            0
                        } else {
                            (pid + 1) as u16
                        }
                    },
                    Err(_) => !can_launch(program@, a, e, spill_granted) && *final(pids) == *old(
                        pids,
                    ),
                }
            }),
    {
        let l: Launched = match launch(program, args, env, stack_granted, spill_granted) {
            Ok(l) => l,
            Err(_) => return Err(()),
        };
        let pid: u16 = pids.take();
        let sid: u16 = if parent_pid == 0 {
            pid
        } else {
            match parent_sid {
                Some(s) => s,
                None => pid,
            }
        };
        let p: Process = make_process(
            pid,
            exe_path,
            pwd,
            parent_pid,
            sid,
            ProcessState::Runnable,
            own,
            fds,
            l.entry_point,
            l.stack.rsp,
            USER_STACK_SIZE,
            l.addr_size_vec,
        );
        Ok((p, l.memory, l.stack))
    }

    /// Replaces the program of the process. Nothing changes where the new one cannot
    /// start or its stack was not granted.
    pub fn exec(
        &mut self,
        program: Program,
        args: &Vec<Vec<u8>>,
        env: &Vec<Vec<u8>>,
        page_table: u64,
        proc_mm: usize,
        stack_granted: bool,
        spill_granted: bool,
    ) -> (res: Result<(ProcMM, InitialStack), ()>)
        requires
            program.wf(),
        ensures
            ({
                let a = views(args@);
                let e = views(env@);
                match res {
                    Ok((memory, stack)) => {
                        &&& stack_granted
                        &&& can_launch(program@, a, e, spill_granted)
                        &&& final(self)@ == turned_into(
                            old(self)@,
                            program@,
                            a,
                            e,
                            page_table,
                            proc_mm,
                        )
                        &&& launched(
                            (Launched {
                                entry_point: final(self).entry_point,
                                stack,
                                addr_size_vec: final(self).addr_size_vec,
                                memory,
                            }),
                            program@,
                            a,
                            e,
                            true,
                        )
                    },
                    Err(_) => {
                        &&& !(stack_granted && can_launch(program@, a, e, spill_granted))
                        &&& final(self)@ == old(self)@
                    },
                }
            }),
    {
        if !stack_granted {
            return Err(());
        }
        let l: Launched = match launch(program, args, env, true, spill_granted) {
            Ok(l) => l,
            Err(_) => return Err(()),
        };
        self.page_table = page_table;
        self.proc_mm = proc_mm;
        self.addr_size_vec = l.addr_size_vec;
        self.entry_point = l.entry_point;
        self.stack = l.stack.rsp;
        self.stack_size = USER_STACK_SIZE;
        self.fs_base = 0;
        self.gs_base = 0;
        self.signal_actions = fresh_actions();
        self.signal_mask = SignalSet { low: 0, high: 0 };
        self.pending_signals = 0;
        self.close_on_exec();
        Ok((l.memory, l.stack))
    }
}

/// The name of the kernel's own process.
pub open spec fn kernel_name() -> Seq<u8> {
    seq![91u8, 107, 101, 114, 110, 101, 108, 93]
}

/// The name of the idle task.
pub open spec fn idle_name() -> Seq<u8> {
    seq![91u8, 105, 100, 108, 101, 93]
}

/// The kernel's own process.
pub open spec fn kernel_made(own: Resources) -> ProcView {
    fresh_process(
        0,
        kernel_name(),
        seq![47u8],
        0,
        0,
        ProcessState::Runnable,
        own,
        Seq::empty(),
        0,
        0,
        0,
        Seq::empty(),
    )
}

/// The process that runs when there is nothing to do.
pub open spec fn idle_made(own: Resources, gs_base: u64) -> ProcView {
    ProcView {
        gs_base,
        ..fresh_process(
            0,
            idle_name(),
            seq![47u8],
            0,
            0,
            ProcessState::Running,
            own,
            Seq::empty(),
            0,
            0,
            0,
            Seq::empty(),
        )
    }
}

/// The kernel's own process, number 0.
pub fn kernel_process(own: Resources) -> (r: Process)
    ensures
        r@ == kernel_made(own),
{
    let name: [u8; 8] = [91u8, 107, 101, 114, 110, 101, 108, 93];
    let root: [u8; 1] = [47u8];
    let r: Process = make_process(
        0,
        &name,
        &root,
        0,
        0,
        ProcessState::Runnable,
        own,
        Vec::new(),
        0,
        0,
        0,
        Vec::new(),
    );
    proof {
        assert(name@ =~= kernel_name());
        assert(root@ =~= seq![47u8]);
    }
    r
}

/// The task that has the processor before the first process runs; it finds the
/// kernel's data at `gs_base`.
pub fn idle_process(own: Resources, gs_base: u64) -> (r: Process)
    ensures
        r@ == idle_made(own, gs_base),
{
    let name: [u8; 6] = [91u8, 105, 100, 108, 101, 93];
    let root: [u8; 1] = [47u8];
    let mut r: Process = make_process(
        0,
        &name,
        &root,
        0,
        0,
        ProcessState::Running,
        own,
        Vec::new(),
        0,
        0,
        0,
        Vec::new(),
    );
    proof {
        assert(name@ =~= idle_name());
        assert(root@ =~= seq![47u8]);
    }
    r.gs_base = gs_base;
    r
}

} // verus!
