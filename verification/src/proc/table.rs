//! The table of all processes: who has the processor, who gets it next, and how a
//! process ends.

use crate::proc::process::{signalled, ProcView, Process, ProcessState};
use crate::proc::signals::SIGCHLD;
use vstd::prelude::*;

verus! {

/// All processes, and the number of the one that has the processor.
pub struct ProcessTable {
    pub proc_list: Vec<Process>,
    pub current: u16,
}

/// The processes, as contracts see them.
pub open spec fn proc_views(v: Seq<Process>) -> Seq<ProcView> {
    v.map_values(|p: Process| p@)
}

/// The table, as contracts see it.
#[verifier::ext_equal]
pub struct TableView {
    pub procs: Seq<ProcView>,
    pub current: u16,
}

impl View for ProcessTable {
    type V = TableView;

    open spec fn view(&self) -> TableView {
        TableView { procs: proc_views(self.proc_list@), current: self.current }
    }
}

/// The first process with number `pid`, or the number of processes.
pub open spec fn position(ps: Seq<ProcView>, pid: u16) -> int
    decreases ps.len(),
{
    if ps.len() == 0 {
        0
    } else {
        let k = position(ps.drop_last(), pid);
        if k < ps.len() - 1 {
            k
        } else if ps.last().pid == pid {
            ps.len() - 1
        } else {
            ps.len() as int
        }
    }
}

pub open spec fn known(ps: Seq<ProcView>, pid: u16) -> bool {
    position(ps, pid) < ps.len()
}

pub proof fn lemma_position(ps: Seq<ProcView>, pid: u16)
    ensures
        0 <= position(ps, pid) <= ps.len(),
        known(ps, pid) ==> ps[position(ps, pid)].pid == pid,
        forall|k: int| 0 <= k < position(ps, pid) ==> (#[trigger] ps[k]).pid != pid,
    decreases ps.len(),
{
    if ps.len() > 0 {
        let front = ps.drop_last();
        lemma_position(front, pid);
        assert forall|k: int| 0 <= k < position(ps, pid) implies (#[trigger] ps[k]).pid != pid by {
            if k < front.len() {
                assert(front[k] == ps[k]);
            }
        }
    }
}

/// Where a first match stands is where `position` says.
proof fn lemma_position_is(ps: Seq<ProcView>, pid: u16, k: int)
    requires
        0 <= k <= ps.len(),
        forall|i: int| 0 <= i < k ==> (#[trigger] ps[i]).pid != pid,
        k < ps.len() ==> ps[k].pid == pid,
    ensures
        position(ps, pid) == k,
{
    lemma_position(ps, pid);
}

/// The first process after `cur`, going round, that can have the processor, from
/// `step` places on.
pub open spec fn runnable_from(ps: Seq<ProcView>, cur: int, step: int) -> Option<int>
    decreases ps.len() - step,
{
    if step >= ps.len() {
        None
    } else {
        let i = (cur + step) % (ps.len() as int);
        if ps[i].state == ProcessState::Runnable {
            Some(i)
        } else {
            runnable_from(ps, cur, step + 1)
        }
    }
}

/// The process that gets the processor after `cur`.
pub open spec fn next_runnable(ps: Seq<ProcView>, cur: int) -> Option<int> {
    runnable_from(ps, cur, 1)
}

/// Whether no process but `cur` is marked as running.
pub open spec fn lone_owner(ps: Seq<ProcView>, cur: int) -> bool {
    forall|i: int|
        0 <= i < ps.len() && (#[trigger] ps[i]).state == ProcessState::Running ==> i == cur
}

/// Whether process `owner`, and no other, is marked as running.
pub open spec fn running_owner(ps: Seq<ProcView>, owner: int) -> bool {
    lone_owner(ps, owner) && 0 <= owner < ps.len() && ps[owner].state == ProcessState::Running
}

/// Whether the processor can go from `cur` to `next`.
pub open spec fn can_switch(ps: Seq<ProcView>, cur: int, next: int) -> bool {
    cur != next && lone_owner(ps, cur) && ps[next].state == ProcessState::Runnable
}

/// A process that gives up the processor.
pub open spec fn paused(p: ProcView) -> ProcView {
    if p.state == ProcessState::Running {
        ProcView { state: ProcessState::Runnable, ..p }
    } else {
        p
    }
}

/// The table after an attempt to switch from `cur` to `next`.
pub open spec fn switched(t: TableView, cur: int, next: int) -> TableView {
    if can_switch(t.procs, cur, next) {
        let given = ProcView { state: ProcessState::Running, ..t.procs[next] };
        TableView {
            procs: t.procs.update(cur, paused(t.procs[cur])).update(next, given),
            current: t.procs[next].pid,
        }
    } else {
        t
    }
}

/// A switch leaves one process running: the one that was switched to.
pub proof fn lemma_switch_owner(t: TableView, cur: int, next: int)
    requires
        0 <= cur < t.procs.len(),
        0 <= next < t.procs.len(),
        can_switch(t.procs, cur, next),
    ensures
        running_owner(switched(t, cur, next).procs, next),
{
}

/// A process that was adopted by process 1, where `exiting` was its parent.
pub open spec fn adopted(p: ProcView, exiting: u16) -> ProcView {
    if !p.is_thread && p.parent_pid == exiting {
        ProcView { parent_pid: 1, ..p }
    } else {
        p
    }
}

/// The table after process 1 took over the children of `exiting`. It hears of it
/// where one of them has ended already.
pub open spec fn reparented(ps: Seq<ProcView>, exiting: u16) -> Seq<ProcView> {
    if exiting == 1 || !known(ps, 1) {
        ps
    } else {
        let next = ps.map_values(|p: ProcView| adopted(p, exiting));
        let init = position(ps, 1);
        if exists|i: int|
            0 <= i < ps.len() && !(#[trigger] ps[i]).is_thread && ps[i].parent_pid == exiting
                && ps[i].state == ProcessState::Dead {
            next.update(init, signalled(next[init], 17))
        } else {
            next
        }
    }
}

proof fn lemma_reparented(ps: Seq<ProcView>, exiting: u16)
    ensures
        reparented(ps, exiting).len() == ps.len(),
{
    lemma_position(ps, 1);
    assert(ps.map_values(|p: ProcView| adopted(p, exiting)).len() == ps.len());
}

/// A process that has ended.
pub open spec fn ended(p: ProcView, code: i32) -> ProcView {
    ProcView {
        fd_table: Seq::empty(),
        wait_token: None,
        wait_deadline_ns: None,
        wake_reason: None,
        state: ProcessState::Dead,
        exit_code: code,
        ..p
    }
}

/// A process that has ended, and that its parent is to hear of.
pub open spec fn reported(p: ProcView, status: i32) -> ProcView {
    ProcView { wait_status: status, wait_reported: false, ..p }
}

/// The status with which a process that exits with `code` is reported.
pub open spec fn exit_status(code: i32) -> i32 {
    (code & 0xff) << 8
}

/// The table after process `pid`, where there is one, was sent the signal that a
/// child has ended.
pub open spec fn child_signalled(ps: Seq<ProcView>, pid: u16) -> Seq<ProcView> {
    if known(ps, pid) {
        ps.update(position(ps, pid), signalled(ps[position(ps, pid)], 17))
    } else {
        ps
    }
}

/// Who gets the processor after process `cur` has ended: its parent, where that can
/// run, and else the next in turn.
pub open spec fn successor(ps: Seq<ProcView>, parent: u16, cur: int) -> Option<int> {
    let j = position(ps, parent);
    if j < ps.len() && ps[j].state == ProcessState::Runnable {
        Some(j)
    } else {
        next_runnable(ps, cur)
    }
}

/// The processes after process `i` ended with `code` and was reported with `status`.
pub open spec fn after_end(ps: Seq<ProcView>, i: int, code: i32, status: i32) -> Seq<ProcView> {
    let parent = ps[i].parent_pid;
    let left = reparented(ps, ps[i].pid);
    child_signalled(left.update(i, reported(ended(left[i], code), status)), parent)
}

/// The members of a group after it ended with `code`.
pub open spec fn group_ended(ps: Seq<ProcView>, tgid: u16, code: i32) -> Seq<ProcView> {
    ps.map_values(
        |p: ProcView|
            if p.tgid == tgid {
                ended(p, code)
            } else {
                p
            },
    )
}

/// The processes after group `tgid`, whose leader is process `leader`, ended.
pub open spec fn after_group_end(ps: Seq<ProcView>, tgid: u16, leader: int, code: i32) -> Seq<
    ProcView,
> {
    let parent = ps[leader].parent_pid;
    let gone = group_ended(reparented(ps, tgid), tgid, code);
    child_signalled(gone.update(leader, reported(gone[leader], exit_status(code))), parent)
}

/// What is left to do after a process has ended.
#[derive(Debug, Clone, Copy, PartialEq, Eq, Structural)]
pub enum Departure {
    /// The process that should end is not in the table.
    Unknown,
    /// The processor is to be switched to the process at this place.
    Switch(usize),
    /// Nobody can run yet.
    Idle,
}

/// How a departure follows from the choice of a successor.
pub open spec fn departs(d: Departure, next: Option<int>) -> bool {
    match next {
        Some(n) => d matches Departure::Switch(k) && k == n,
        None => d == Departure::Idle,
    }
}

/// The table after the processor went to the successor.
pub open spec fn handed_over(t: TableView, cur: int, next: Option<int>) -> TableView {
    match next {
        Some(n) => switched(t, cur, n),
        None => t,
    }
}

/// What becomes of the table when the process that has the processor ends.
pub open spec fn exited(t: TableView, after: TableView, code: i32, d: Departure) -> bool {
    let i = position(t.procs, t.current);
    if !known(t.procs, t.current) {
        d == Departure::Unknown && after == t
    } else if t.procs[i].is_thread {
        let ps = t.procs.update(i, ended(t.procs[i], code));
        &&& departs(d, next_runnable(ps, i))
        &&& after == handed_over(
            TableView { procs: ps, ..t },
            i,
            next_runnable(ps, i),
        )
    } else {
        let parent = t.procs[i].parent_pid;
        let ps = after_end(t.procs, i, code, exit_status(code));
        &&& departs(d, successor(ps, parent, i))
        &&& after == handed_over(
            TableView { procs: ps, ..t },
            i,
            successor(ps, parent, i),
        )
    }
}

/// What becomes of the table when a signal ends the process that has the processor.
pub open spec fn ended_by_signal(t: TableView, after: TableView, sig: i32, d: Departure) -> bool {
    let i = position(t.procs, t.current);
    if !known(t.procs, t.current) {
        d == Departure::Unknown && after == t
    } else {
        let parent = t.procs[i].parent_pid;
        let ps = after_end(t.procs, i, (128 + sig) as i32, sig & 0x7f);
        &&& departs(d, successor(ps, parent, i))
        &&& after == handed_over(
            TableView { procs: ps, ..t },
            i,
            successor(ps, parent, i),
        )
    }
}

/// What becomes of the table when the group of the process that has the processor ends.
pub open spec fn group_exited(t: TableView, after: TableView, code: i32, d: Departure) -> bool {
    let i = position(t.procs, t.current);
    let tgid = t.procs[i].tgid;
    let leader = position(t.procs, tgid);
    if !known(t.procs, t.current) || !known(t.procs, tgid) {
        d == Departure::Unknown && after == t
    } else {
        let parent = t.procs[leader].parent_pid;
        let ps = after_group_end(t.procs, tgid, leader, code);
        &&& departs(d, successor(ps, parent, i))
        &&& after == handed_over(
            TableView { procs: ps, ..t },
            i,
            successor(ps, parent, i),
        )
    }
}

impl ProcessTable {
    pub fn new() -> (r: Self)
        ensures
            r@ == (TableView { procs: Seq::empty(), current: 0 }),
    {
        let r: ProcessTable = ProcessTable { proc_list: Vec::new(), current: 0 };
        proof {
            assert(r@.procs =~= Seq::<ProcView>::empty());
        }
        r
    }

    /// The place of process `pid`.
    pub fn find_process_index(&self, pid: u16) -> (r: Option<usize>)
        ensures
            match r {
                Some(i) => i == position(self@.procs, pid) && known(self@.procs, pid),
                None => !known(self@.procs, pid),
            },
    {
        let ghost ps = self@.procs;
        let mut i: usize = 0;
        while i < self.proc_list.len()
            invariant
                ps == self@.procs,
                i <= ps.len(),
                forall|k: int| 0 <= k < i ==> (#[trigger] ps[k]).pid != pid,
            decreases ps.len() - i,
        {
            if self.proc_list[i].pid == pid {
                proof {
                    assert(ps[i as int].pid == pid);
                    lemma_position_is(ps, pid, i as int);
                }
                return Some(i);
            }
            i = i + 1;
        }
        proof {
            lemma_position_is(ps, pid, i as int);
        }
        None
    }

    /// Process `pid`.
    pub fn get_process(&self, pid: u16) -> (r: Option<&Process>)
        ensures
            match r {
                Some(p) => known(self@.procs, pid) && p@ == self@.procs[position(self@.procs, pid)],
                None => !known(self@.procs, pid),
            },
    {
        proof {
            lemma_position(self@.procs, pid);
        }
        match self.find_process_index(pid) {
            Some(i) => Some(&self.proc_list[i]),
            None => None,
        }
    }

    /// Who gets the processor after the process at `current_idx`.
    pub fn find_next_runnable_index(&self, current_idx: usize) -> (r: Option<usize>)
        requires
            current_idx < self@.procs.len(),
        ensures
            match next_runnable(self@.procs, current_idx as int) {
                Some(n) => r matches Some(k) && k == n && k < self@.procs.len() && k != current_idx
                    && self@.procs[n].state == ProcessState::Runnable,
                None => r is None,
            },
    {
        let ghost ps = self@.procs;
        let len: usize = self.proc_list.len();
        let mut step: usize = 1;
        while step < len
            invariant
                ps == self@.procs,
                len == ps.len(),
                len == self.proc_list@.len(),
                current_idx < len,
                1 <= step,
                next_runnable(ps, current_idx as int) == runnable_from(
                    ps,
                    current_idx as int,
                    step as int,
                ),
            decreases len - step,
        {
            let i: usize = if current_idx < len - step {
                current_idx + step
            } else {
                current_idx - (len - step)
            };
            proof {
                lemma_turn(current_idx as int, step as int, len as int, i as int);
                assert(ps[i as int] == self.proc_list@[i as int]@);
            }
            if self.proc_list[i].state == ProcessState::Runnable {
                return Some(i);
            }
            step = step + 1;
        }
        None
    }

    /// Whether no process but the one at `current_idx` is marked as running.
    fn validate_pre_switch_owner(&self, current_idx: usize) -> (r: bool)
        ensures
            r == lone_owner(self@.procs, current_idx as int),
    {
        let ghost ps = self@.procs;
        let mut i: usize = 0;
        while i < self.proc_list.len()
            invariant
                ps == self@.procs,
                i <= ps.len(),
                forall|k: int|
                    0 <= k < i && (#[trigger] ps[k]).state == ProcessState::Running ==> k
                        == current_idx,
            decreases ps.len() - i,
        {
            if i != current_idx && self.proc_list[i].state == ProcessState::Running {
                proof {
                    assert(ps[i as int].state == ProcessState::Running);
                }
                return false;
            }
            i = i + 1;
        }
        true
    }

    /// Whether the process at `expected_idx`, and no other, is marked as running.
    pub fn validate_running_owner(&self, expected_idx: usize) -> (r: bool)
        requires
            expected_idx < self@.procs.len(),
        ensures
            r == running_owner(self@.procs, expected_idx as int),
    {
        self.validate_pre_switch_owner(expected_idx) && self.proc_list[expected_idx].state
            == ProcessState::Running
    }

    /// Gives the processor from one process to another, and says whether that could
    /// be done.
    pub fn switch_by_index(&mut self, cur_idx: usize, next_idx: usize) -> (r: bool)
        requires
            cur_idx < old(self)@.procs.len(),
            next_idx < old(self)@.procs.len(),
        ensures
            final(self)@ == switched(old(self)@, cur_idx as int, next_idx as int),
            r == can_switch(old(self)@.procs, cur_idx as int, next_idx as int),
            r ==> running_owner(final(self)@.procs, next_idx as int),
    {
        if cur_idx == next_idx {
            return false;
        }
        if !self.validate_pre_switch_owner(cur_idx) {
            return false;
        }
        proof {
            assert(self@.procs[next_idx as int] == self.proc_list@[next_idx as int]@);
        }
        if self.proc_list[next_idx].state != ProcessState::Runnable {
            return false;
        }
        let ghost t = self@;
        if self.proc_list[cur_idx].state == ProcessState::Running {
            self.proc_list[cur_idx].state = ProcessState::Runnable;
        }
        self.proc_list[next_idx].state = ProcessState::Running;
        self.current = self.proc_list[next_idx].pid;
        proof {
            assert(self@.procs =~= switched(t, cur_idx as int, next_idx as int).procs);
            lemma_switch_owner(t, cur_idx as int, next_idx as int);
        }
        true
    }

    /// Lets process 1 adopt the children of a process that ends.
    pub fn reparent_children(&mut self, exiting_pid: u16)
        ensures
            final(self)@ == (TableView {
                procs: reparented(old(self)@.procs, exiting_pid),
                ..old(self)@
            }),
    {
        let ghost ps = self@.procs;
        if exiting_pid == 1 {
            return ;
        }
        let init: usize = match self.find_process_index(1) {
            Some(i) => i,
            None => return ,
        };
        let mut adopted_zombie: bool = false;
        let mut i: usize = 0;
        let ghost all = ps.map_values(|p: ProcView| adopted(p, exiting_pid));
        proof {
            assert(self@.procs =~= all.take(0) + ps.skip(0));
        }
        while i < self.proc_list.len()
            invariant
                i <= ps.len(),
                self@.procs.len() == ps.len(),
                self@.current == old(self)@.current,
                all == ps.map_values(|p: ProcView| adopted(p, exiting_pid)),
                self@.procs == all.take(i as int) + ps.skip(i as int),
                adopted_zombie == exists|k: int|
                    0 <= k < i && !(#[trigger] ps[k]).is_thread && ps[k].parent_pid == exiting_pid
                        && ps[k].state == ProcessState::Dead,
            decreases ps.len() - i,
        {
            proof {
                assert(self@.procs[i as int] == ps[i as int]);
                assert(self@.procs[i as int] == self.proc_list@[i as int]@);
            }
            let ghost list = self.proc_list@;
            if !self.proc_list[i].is_thread && self.proc_list[i].parent_pid == exiting_pid {
                self.proc_list[i].parent_pid = 1;
                if self.proc_list[i].state == ProcessState::Dead {
                    adopted_zombie = true;
                    proof {
                        assert(ps[i as int].state == ProcessState::Dead);
                    }
                }
            }
            proof {
                assert(all[i as int] == adopted(ps[i as int], exiting_pid));
                assert(self@.procs[i as int] == self.proc_list@[i as int]@);
                assert(self@.procs[i as int] =~= all[i as int]);
                assert forall|k: int| 0 <= k < ps.len() && k != i implies self@.procs[k]
                    == #[trigger] (all.take(i as int) + ps.skip(i as int))[k] by {
                    assert(self.proc_list@[k] == list[k]);
                    assert(proc_views(list)[k] == list[k]@);
                }
                assert forall|k: int| 0 <= k < ps.len() implies #[trigger] self@.procs[k] == (
                all.take(i + 1) + ps.skip(i + 1))[k] by {
                    if k != i {
                        assert(self@.procs[k] == (all.take(i as int) + ps.skip(i as int))[k]);
                    }
                }
                assert(self@.procs =~= all.take(i + 1) + ps.skip(i + 1));
            }
            i = i + 1;
        }
        proof {
            assert(self@.procs =~= all);
        }
        if adopted_zombie {
            proof {
                lemma_position(ps, 1);
                assert(self@.procs[init as int] == self.proc_list@[init as int]@);
            }
            self.proc_list[init].queue_signal(SIGCHLD);
            proof {
                assert(self@.procs =~= all.update(init as int, signalled(all[init as int], 17)));
            }
        }
        proof {
            assert(self@.procs =~= reparented(ps, exiting_pid));
        }
    }

    /// Tells process `pid`, where there is one, that a child has ended.
    fn signal_child(&mut self, pid: u16)
        ensures
            final(self)@ == (TableView { procs: child_signalled(old(self)@.procs, pid), ..old(self)@ }),
            final(self)@.procs.len() == old(self)@.procs.len(),
    {
        let ghost ps = self@.procs;
        match self.find_process_index(pid) {
            Some(j) => {
                proof {
                    lemma_position(ps, pid);
                    assert(ps[j as int] == self.proc_list@[j as int]@);
                }
                self.proc_list[j].queue_signal(SIGCHLD);
                proof {
                    assert(self@.procs =~= child_signalled(ps, pid));
                }
            },
            None => {},
        }
    }

    fn find_successor(&self, parent: u16, cur: usize) -> (r: Departure)
        requires
            cur < self@.procs.len(),
        ensures
            departs(r, successor(self@.procs, parent, cur as int)),
            r matches Departure::Switch(n) ==> n < self@.procs.len(),
    {
        proof {
            lemma_position(self@.procs, parent);
        }
        match self.find_process_index(parent) {
            Some(j) => {
                proof {
                    assert(self@.procs[j as int] == self.proc_list@[j as int]@);
                }
                if self.proc_list[j].state == ProcessState::Runnable {
                    return Departure::Switch(j);
                }
            },
            None => {},
        }
        match self.find_next_runnable_index(cur) {
            Some(n) => Departure::Switch(n),
            None => Departure::Idle,
        }
    }

    /// Marks the process at `i` as ended.
    fn end_at(&mut self, i: usize, code: i32)
        requires
            i < old(self)@.procs.len(),
        ensures
            final(self)@ == (TableView {
                procs: old(self)@.procs.update(i as int, ended(old(self)@.procs[i as int], code)),
                ..old(self)@
            }),
    {
        let ghost ps = self@.procs;
        proof {
            assert(ps[i as int] == self.proc_list@[i as int]@);
        }
        self.proc_list[i].close_all_fds();
        self.proc_list[i].invalidate_wait_token();
        self.proc_list[i].state = ProcessState::Dead;
        self.proc_list[i].exit_code = code;
        proof {
            assert(self@.procs =~= ps.update(i as int, ended(ps[i as int], code)));
        }
    }

    fn report_at(&mut self, i: usize, status: i32)
        requires
            i < old(self)@.procs.len(),
        ensures
            final(self)@ == (TableView {
                procs: old(self)@.procs.update(i as int, reported(old(self)@.procs[i as int], status)),
                ..old(self)@
            }),
    {
        let ghost ps = self@.procs;
        proof {
            assert(ps[i as int] == self.proc_list@[i as int]@);
        }
        self.proc_list[i].wait_status = status;
        self.proc_list[i].wait_reported = false;
        proof {
            assert(self@.procs =~= ps.update(i as int, reported(ps[i as int], status)));
        }
    }

    fn hand_over(&mut self, cur: usize, d: Departure, Ghost(next): Ghost<Option<int>>)
        requires
            cur < old(self)@.procs.len(),
            departs(d, next),
            d matches Departure::Switch(n) ==> n < old(self)@.procs.len(),
        ensures
            final(self)@ == handed_over(old(self)@, cur as int, next),
    {
        match d {
            Departure::Switch(n) => {
                let _ = self.switch_by_index(cur, n);
            },
            _ => {},
        }
    }

    /// Ends the process that is not a thread at `i`.
    fn end_process(&mut self, i: usize, code: i32, status: i32) -> (r: Departure)
        requires
            i < old(self)@.procs.len(),
        ensures
            ({
                let t = old(self)@;
                let parent = t.procs[i as int].parent_pid;
                let ps = after_end(t.procs, i as int, code, status);
                &&& departs(r, successor(ps, parent, i as int))
                &&& final(self)@ == handed_over(
                    TableView { procs: ps, ..t },
                    i as int,
                    successor(ps, parent, i as int),
                )
            }),
    {
        let ghost t = self@;
        proof {
            assert(t.procs[i as int] == self.proc_list@[i as int]@);
        }
        let parent: u16 = self.proc_list[i].parent_pid;
        let pid: u16 = self.proc_list[i].pid;
        self.reparent_children(pid);
        proof {
            lemma_reparented(t.procs, pid);
        }
        self.end_at(i, code);
        self.report_at(i, status);
        let ghost left = reparented(t.procs, pid);
        proof {
            assert(self@.procs =~= left.update(
                i as int,
                reported(ended(left[i as int], code), status),
            ));
        }
        self.signal_child(parent);
        let d: Departure = self.find_successor(parent, i);
        let ghost next = successor(self@.procs, parent, i as int);
        self.hand_over(i, d, Ghost(next));
        d
    }

    /// Ends the process that has the processor.
    pub fn exit(&mut self, code: i32) -> (r: Departure)
        ensures
            exited(old(self)@, final(self)@, code, r),
    {
        proof {
            lemma_position(self@.procs, self@.current);
        }
        let i: usize = match self.find_process_index(self.current) {
            Some(i) => i,
            None => return Departure::Unknown,
        };
        proof {
            assert(self@.procs[i as int] == self.proc_list@[i as int]@);
        }
        if self.proc_list[i].is_thread {
            self.end_at(i, code);
            let ghost next = next_runnable(self@.procs, i as int);
            let d: Departure = match self.find_next_runnable_index(i) {
                Some(n) => Departure::Switch(n),
                None => Departure::Idle,
            };
            self.hand_over(i, d, Ghost(next));
            return d;
        }
        self.end_process(i, code, (code & 0xff) << 8)
    }

    /// Ends the process that has the processor because of signal `sig`.
    pub fn terminate_current_by_signal(&mut self, sig: i32) -> (r: Departure)
        requires
            sig <= i32::MAX - 128,
        ensures
            ended_by_signal(old(self)@, final(self)@, sig, r),
    {
        proof {
            lemma_position(self@.procs, self@.current);
        }
        let i: usize = match self.find_process_index(self.current) {
            Some(i) => i,
            None => return Departure::Unknown,
        };
        self.end_process(i, 128 + sig, sig & 0x7f)
    }

    /// Marks the members of group `tgid` as ended.
    fn end_group(&mut self, tgid: u16, code: i32)
        ensures
            final(self)@ == (TableView {
                procs: group_ended(old(self)@.procs, tgid, code),
                ..old(self)@
            }),
    {
        let ghost ps = self@.procs;
        let ghost all = group_ended(ps, tgid, code);
        let mut i: usize = 0;
        proof {
            assert(self@.procs =~= all.take(0) + ps.skip(0));
        }
        while i < self.proc_list.len()
            invariant
                i <= ps.len(),
                self@.procs.len() == ps.len(),
                self@.current == old(self)@.current,
                all == group_ended(ps, tgid, code),
                self@.procs == all.take(i as int) + ps.skip(i as int),
            decreases ps.len() - i,
        {
            proof {
                assert(self@.procs[i as int] == ps[i as int]);
                assert(self@.procs[i as int] == self.proc_list@[i as int]@);
            }
            if self.proc_list[i].tgid == tgid {
                self.end_at(i, code);
            }
            proof {
                assert(self@.procs =~= all.take(i + 1) + ps.skip(i + 1));
            }
            i = i + 1;
        }
        proof {
            assert(self@.procs =~= all);
        }
    }

    /// Ends the whole group of the process that has the processor.
    pub fn exit_group(&mut self, code: i32) -> (r: Departure)
        ensures
            group_exited(old(self)@, final(self)@, code, r),
    {
        let ghost t = self@;
        proof {
            lemma_position(self@.procs, self@.current);
        }
        let i: usize = match self.find_process_index(self.current) {
            Some(i) => i,
            None => return Departure::Unknown,
        };
        proof {
            assert(t.procs[i as int] == self.proc_list@[i as int]@);
        }
        let tgid: u16 = self.proc_list[i].tgid;
        proof {
            lemma_position(self@.procs, tgid);
        }
        let leader: usize = match self.find_process_index(tgid) {
            Some(k) => k,
            None => return Departure::Unknown,
        };
        proof {
            assert(t.procs[leader as int] == self.proc_list@[leader as int]@);
        }
        let parent: u16 = self.proc_list[leader].parent_pid;
        self.reparent_children(tgid);
        proof {
            lemma_reparented(t.procs, tgid);
        }
        self.end_group(tgid, code);
        self.report_at(leader, (code & 0xff) << 8);
        self.signal_child(parent);
        proof {
            assert(self@.procs =~= after_group_end(t.procs, tgid, leader as int, code));
        }
        let d: Departure = self.find_successor(parent, i);
        let ghost next = successor(self@.procs, parent, i as int);
        self.hand_over(i, d, Ghost(next));
        d
    }

    /// Gives the processor to the next process in turn, and says whether there was one.
    pub fn schedule_now(&mut self) -> (r: bool)
        ensures
            ({
                let t = old(self)@;
                let i = position(t.procs, t.current);
                let next = next_runnable(t.procs, i);
                if !known(t.procs, t.current) {
                    !r && final(self)@ == t
                } else {
                    &&& final(self)@ == handed_over(t, i, next)
                    &&& r == (next is Some && can_switch(t.procs, i, next->0))
                }
            }),
    {
        proof {
            lemma_position(self@.procs, self@.current);
        }
        let i: usize = match self.find_process_index(self.current) {
            Some(i) => i,
            None => return false,
        };
        match self.find_next_runnable_index(i) {
            Some(n) => self.switch_by_index(i, n),
            None => false,
        }
    }
}

/// The processor goes to whoever can run: the search finds no one only where no other
/// process can, and it passes over no one who can.
pub proof fn lemma_next_in_turn(ps: Seq<ProcView>, cur: int)
    requires
        0 <= cur < ps.len(),
    ensures
        match next_runnable(ps, cur) {
            Some(n) => {
                &&& 0 <= n < ps.len()
                &&& n != cur
                &&& ps[n].state == ProcessState::Runnable
                &&& forall|i: int|
                    (cur < i < n || n < cur < i < ps.len() || 0 <= i < n < cur) ==> (
                    #[trigger] ps[i]).state != ProcessState::Runnable
            },
            None => forall|i: int|
                0 <= i < ps.len() && i != cur ==> (#[trigger] ps[i]).state
                    != ProcessState::Runnable,
        },
{
    lemma_turns_from(ps, cur, 1);
}

/// How many places after `cur`, going round, `i` is.
spec fn turns(cur: int, i: int, len: int) -> int {
    if i > cur {
        i - cur
    } else {
        i - cur + len
    }
}

/// The process that is found from `step` places on is the first that can run.
proof fn lemma_turns_from(ps: Seq<ProcView>, cur: int, step: int)
    requires
        0 <= cur < ps.len(),
        1 <= step,
    ensures
        ({
            let len = ps.len() as int;
            match runnable_from(ps, cur, step) {
                Some(n) => {
                    &&& 0 <= n < len
                    &&& n != cur
                    &&& ps[n].state == ProcessState::Runnable
                    &&& step <= turns(cur, n, len)
                    &&& forall|i: int|
                        0 <= i < len && i != cur && step <= turns(cur, i, len) < turns(cur, n, len)
                            ==> (#[trigger] ps[i]).state != ProcessState::Runnable
                },
                None => forall|i: int|
                    0 <= i < len && i != cur && step <= turns(cur, i, len) ==> (
                    #[trigger] ps[i]).state != ProcessState::Runnable,
            }
        }),
    decreases ps.len() - step,
{
    let len = ps.len() as int;
    if step < len {
        let i = if cur < len - step {
            cur + step
        } else {
            cur - (len - step)
        };
        lemma_turn(cur, step, len, i);
        assert(turns(cur, i, len) == step);
        assert forall|k: int|
            0 <= k < len && k != cur && turns(cur, k, len) == step implies k == i by {}
        if ps[i].state != ProcessState::Runnable {
            lemma_turns_from(ps, cur, step + 1);
        }
    }
}

proof fn lemma_turn(cur: int, step: int, len: int, i: int)
    requires
        0 <= cur < len,
        1 <= step < len,
        i == if cur < len - step {
            cur + step
        } else {
            cur - (len - step)
        },
    ensures
        (cur + step) % len == i,
        0 <= i < len,
        i != cur,
{
    if cur < len - step {
        vstd::arithmetic::div_mod::lemma_small_mod((cur + step) as nat, len as nat);
    } else {
        vstd::arithmetic::div_mod::lemma_mod_multiples_vanish(1, i, len);
        vstd::arithmetic::div_mod::lemma_small_mod(i as nat, len as nat);
    }
}

} // verus!
