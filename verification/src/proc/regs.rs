//! Saved registers, and the frames from which a process starts to run.

use vstd::prelude::*;

verus! {

/// How far below the top of its kernel stack the first frame of a process lies.
pub const INITIAL_CONTEXT_STACK_GUARD: u64 = 8192;

/// The flags of a process that starts: interrupts are on.
pub const USER_RFLAGS: u64 = 0x202;

#[derive(Debug, Clone, Copy, PartialEq, Eq, Structural)]
pub struct ScratchRegisters {
    pub r11: u64,
    pub r10: u64,
    pub r9: u64,
    pub r8: u64,
    pub rsi: u64,
    pub rdi: u64,
    pub rdx: u64,
    pub rcx: u64,
    pub rax: u64,
}

#[derive(Debug, Clone, Copy, PartialEq, Eq, Structural)]
pub struct PreservedRegisters {
    pub r15: u64,
    pub r14: u64,
    pub r13: u64,
    pub r12: u64,
    pub rbp: u64,
    pub rbx: u64,
}

#[derive(Debug, Clone, Copy, PartialEq, Eq, Structural)]
pub struct IretRegisters {
    pub rip: u64,
    pub cs: u64,
    pub rflags: u64,
    pub rsp: u64,
    pub ss: u64,
}

impl IretRegisters {
    /// Whether the frame returns to a program: the low two bits of the code
    /// selector are both set.
    pub fn is_user(&self) -> (r: bool)
        ensures
            r == (self.cs % 4 == 3),
    {
        self.cs % 4 == 3
    }
}

#[derive(Debug, Clone, Copy, PartialEq, Eq, Structural)]
pub struct InterruptStack {
    pub preserved: PreservedRegisters,
    pub scratch: ScratchRegisters,
    pub iret: IretRegisters,
}

#[derive(Debug, Clone, Copy, PartialEq, Eq, Structural)]
pub struct InterruptErrorStack {
    pub code: u64,
    pub stack: InterruptStack,
}

/// The registers that a timer interrupt saves.
#[derive(Debug, Clone, Copy, PartialEq, Eq, Structural)]
pub struct PreemptFrame {
    pub cr3: u64,
    pub r15: u64,
    pub r14: u64,
    pub r13: u64,
    pub r12: u64,
    pub r11: u64,
    pub r10: u64,
    pub r9: u64,
    pub r8: u64,
    pub rbp: u64,
    pub rdi: u64,
    pub rsi: u64,
    pub rdx: u64,
    pub rcx: u64,
    pub rbx: u64,
    pub rax: u64,
    pub rip: u64,
    pub cs: u64,
    pub rflags: u64,
    pub rsp: u64,
    pub ss: u64,
}

/// What the kernel finds through its segment base.
#[derive(Debug, Clone, Copy, PartialEq, Eq, Structural)]
pub struct KernelGsData {
    pub kernel_rsp: u64,
    pub user_rsp: u64,
}

pub open spec fn no_preserved() -> PreservedRegisters {
    PreservedRegisters { r15: 0, r14: 0, r13: 0, r12: 0, rbp: 0, rbx: 0 }
}

pub open spec fn no_scratch() -> ScratchRegisters {
    ScratchRegisters { r11: 0, r10: 0, r9: 0, r8: 0, rsi: 0, rdi: 0, rdx: 0, rcx: 0, rax: 0 }
}

impl Default for PreservedRegisters {
    fn default() -> (r: Self)
        ensures
            r == no_preserved(),
    {
        PreservedRegisters { r15: 0, r14: 0, r13: 0, r12: 0, rbp: 0, rbx: 0 }
    }
}

impl Default for ScratchRegisters {
    fn default() -> (r: Self)
        ensures
            r == no_scratch(),
    {
        ScratchRegisters { r11: 0, r10: 0, r9: 0, r8: 0, rsi: 0, rdi: 0, rdx: 0, rcx: 0, rax: 0 }
    }
}

/// Where the first frame of a process with the kernel stack `kernel_rsp` ends.
pub fn initial_context_stack_top(kernel_rsp: u64) -> (r: u64)
    requires
        kernel_rsp >= INITIAL_CONTEXT_STACK_GUARD,
    ensures
        r == kernel_rsp - 8192,
{
    kernel_rsp - INITIAL_CONTEXT_STACK_GUARD
}

/// The frame from which a timer interrupt starts at `rip`, with `rax` and all other
/// registers zero.
pub open spec fn preempt_frame(cr3: u64, rip: u64, rsp: u64, rax: u64, cs: u64, ss: u64) -> PreemptFrame {
    PreemptFrame {
        cr3,
        r15: 0,
        r14: 0,
        r13: 0,
        r12: 0,
        r11: 0,
        r10: 0,
        r9: 0,
        r8: 0,
        rbp: 0,
        rdi: 0,
        rsi: 0,
        rdx: 0,
        rcx: 0,
        rbx: 0,
        rax,
        rip,
        cs,
        rflags: 0x202,
        rsp,
        ss,
    }
}

/// The frame from which a timer interrupt starts a process that has not run yet.
pub fn build_initial_preempt_frame(
    cr3: u64,
    rip: u64,
    rsp: u64,
    rax: u64,
    user_cs: u64,
    user_ss: u64,
) -> (r: PreemptFrame)
    ensures
        r == preempt_frame(cr3, rip, rsp, rax, user_cs, user_ss),
{
    PreemptFrame {
        cr3,
        r15: 0,
        r14: 0,
        r13: 0,
        r12: 0,
        r11: 0,
        r10: 0,
        r9: 0,
        r8: 0,
        rbp: 0,
        rdi: 0,
        rsi: 0,
        rdx: 0,
        rcx: 0,
        rbx: 0,
        rax,
        rip,
        cs: user_cs,
        rflags: USER_RFLAGS,
        rsp,
        ss: user_ss,
    }
}

/// A frame that starts at `rip` with all other registers zero.
pub open spec fn start_frame(rip: u64, cs: u64, rflags: u64, rsp: u64, ss: u64) -> InterruptErrorStack {
    InterruptErrorStack {
        code: 0,
        stack: InterruptStack {
            preserved: no_preserved(),
            scratch: no_scratch(),
            iret: IretRegisters { rip, cs, rflags, rsp, ss },
        },
    }
}

/// The frame from which a program starts.
pub fn launch_frame(entry: u64, stack: u64, user_cs: u64, user_ss: u64) -> (r: InterruptErrorStack)
    ensures
        r == start_frame(entry, user_cs, 0x202, stack, user_ss),
{
    InterruptErrorStack {
        code: 0,
        stack: InterruptStack {
            preserved: PreservedRegisters::default(),
            scratch: ScratchRegisters::default(),
            iret: IretRegisters {
                rip: entry,
                cs: user_cs,
                rflags: USER_RFLAGS,
                rsp: stack,
                ss: user_ss,
            },
        },
    }
}

/// The frame from which the kernel's own first task starts.
pub fn bootstrap_frame(rip: u64, stack: u64) -> (r: InterruptErrorStack)
    ensures
        r == start_frame(rip, 0x08, 0x200, stack, 0x10),
{
    InterruptErrorStack {
        code: 0,
        stack: InterruptStack {
            preserved: PreservedRegisters::default(),
            scratch: ScratchRegisters::default(),
            iret: IretRegisters { rip, cs: 0x08, rflags: 0x200, rsp: stack, ss: 0x10 },
        },
    }
}

/// The frame of a child: that of its parent, with the result zero, and on its own
/// stack where it was given one.
pub open spec fn child_of(tf: InterruptStack, child_stack: u64) -> InterruptErrorStack {
    InterruptErrorStack {
        code: 0,
        stack: InterruptStack {
            preserved: tf.preserved,
            scratch: ScratchRegisters { rax: 0, ..tf.scratch },
            iret: IretRegisters {
                rsp: if child_stack != 0 {
                    child_stack
                } else {
                    tf.iret.rsp
                },
                ..tf.iret
            },
        },
    }
}

pub fn child_frame(tf: &InterruptStack, child_stack: u64) -> (r: InterruptErrorStack)
    ensures
        r == child_of(*tf, child_stack),
{
    let mut stack: InterruptStack = *tf;
    stack.scratch.rax = 0;
    if child_stack != 0 {
        stack.iret.rsp = child_stack;
    }
    InterruptErrorStack { code: 0, stack }
}

/// A child goes on where its parent is, with the same registers: all that differs is that
/// its call gave zero, and its stack where it was given one.
pub proof fn lemma_child_goes_on(tf: InterruptStack, child_stack: u64)
    ensures
        ({
            let c = child_of(tf, child_stack).stack;
            &&& c.scratch.rax == 0
            &&& c.iret.rip == tf.iret.rip
            &&& c.iret.cs == tf.iret.cs
            &&& c.iret.ss == tf.iret.ss
            &&& c.iret.rflags == tf.iret.rflags
            &&& child_stack == 0 ==> c.iret.rsp == tf.iret.rsp
            &&& child_stack != 0 ==> c.iret.rsp == child_stack
            &&& c.preserved == tf.preserved
            &&& c.scratch.rdi == tf.scratch.rdi && c.scratch.rsi == tf.scratch.rsi
            &&& c.scratch.rdx == tf.scratch.rdx && c.scratch.rcx == tf.scratch.rcx
            &&& c.scratch.r8 == tf.scratch.r8 && c.scratch.r9 == tf.scratch.r9
            &&& c.scratch.r10 == tf.scratch.r10 && c.scratch.r11 == tf.scratch.r11
        }),
{
}

/// A program starts in the same way from a timer interrupt as from its launch: at the same
/// place, on the same stack, with nothing in its registers but the result of the call it
/// returns from, and with interrupts on.
pub proof fn lemma_starts_alike(cr3: u64, rip: u64, rsp: u64, rax: u64, cs: u64, ss: u64)
    ensures
        ({
            let p = preempt_frame(cr3, rip, rsp, rax, cs, ss);
            let l = start_frame(rip, cs, 0x202, rsp, ss).stack;
            &&& p.cr3 == cr3
            &&& p.rax == rax
            &&& l.scratch.rax == 0
            &&& p.rip == l.iret.rip == rip
            &&& p.rsp == l.iret.rsp == rsp
            &&& p.cs == l.iret.cs == cs
            &&& p.ss == l.iret.ss == ss
            &&& p.rflags == l.iret.rflags
            &&& p.rflags / 0x200 % 2 == 1
            &&& p.r15 == l.preserved.r15 == 0 && p.r14 == l.preserved.r14 == 0
            &&& p.r13 == l.preserved.r13 == 0 && p.r12 == l.preserved.r12 == 0
            &&& p.rbp == l.preserved.rbp == 0 && p.rbx == l.preserved.rbx == 0
            &&& p.r11 == l.scratch.r11 == 0 && p.r10 == l.scratch.r10 == 0
            &&& p.r9 == l.scratch.r9 == 0 && p.r8 == l.scratch.r8 == 0
            &&& p.rsi == l.scratch.rsi == 0 && p.rdi == l.scratch.rdi == 0
            &&& p.rdx == l.scratch.rdx == 0 && p.rcx == l.scratch.rcx == 0
        }),
{
}

} // verus!
