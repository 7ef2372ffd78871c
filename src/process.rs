//! Processes and their trap frames.
use vstd::prelude::*;
use crate::encoding::CpuMode;
use crate::trap::TrapFrame;

verus! {

/// The pages of stack a process gets.
pub const STACK_PAGES: u64 = 35;

/// Lifecycle states of a process.
#[derive(PartialEq, Eq, Structural, Clone, Copy, Debug)]
pub enum State {
    /// Created, not yet dispatched.
    Ready,
    /// Eligible for dispatch.
    Running,
    /// Suspended for a while.
    Sleeping,
    /// Terminated.
    Dead,
}

/// A process: its id, state, the address of its trap frame, whether it
/// takes part in result voting, and the time at which it wakes when it
/// sleeps.
#[derive(PartialEq, Eq, Structural, Clone, Copy, Debug)]
pub struct Process {
    pub pid: u64,
    pub state: State,
    pub frame: u64,
    pub voting: bool,
    pub sleep_until: u64,
}

impl Process {
    /// A new process, ready and not voting.
    pub fn new(pid: u64, frame: u64) -> (r: Process)
        ensures
            r == (Process { pid, state: State::Ready, frame, voting: false, sleep_until: 0 }),
    {
        Process { pid, state: State::Ready, frame, voting: false, sleep_until: 0 }
    }

    pub fn is_ready(&self) -> (r: bool)
        ensures
            r == (self.state == State::Ready),
    {
        self.state == State::Ready
    }

    pub fn is_running(&self) -> (r: bool)
        ensures
            r == (self.state == State::Running),
    {
        self.state == State::Running
    }

    /// Whether the process sleeps.
    pub fn is_waiting(&self) -> (r: bool)
        ensures
            r == (self.state == State::Sleeping),
    {
        self.state == State::Sleeping
    }

    pub fn is_dead(&self) -> (r: bool)
        ensures
            r == (self.state == State::Dead),
    {
        self.state == State::Dead
    }

    /// The address of the process's trap frame.
    pub fn get_frame_addr(&self) -> (r: u64)
        ensures
            r == self.frame,
    {
        self.frame
    }
}

/// Prepares `frame` to start a process `pid` at `pc`, with return address
/// `ra` and its stack at page `sp`, in machine mode.
pub fn create_process(frame: &mut TrapFrame, pc: u64, sp: u64, ra: u64, pid: u64)
    requires
        sp * 4096 <= u64::MAX,
    ensures
        final(frame).pc == pc,
        final(frame).regs@ == old(frame).regs@.update(1, ra).update(2, (sp * 4096) as u64),
        final(frame).mode == CpuMode::Machine.spec_val(),
        final(frame).pid == pid,
        final(frame).fregs == old(frame).fregs,
        final(frame).satp == old(frame).satp,
        final(frame).hartid == old(frame).hartid,
        final(frame).qm == old(frame).qm,
{
    frame.pc = pc;
    frame.regs.set(1, ra);
    frame.regs.set(2, sp * 4096);
    frame.mode = CpuMode::Machine.val();
    frame.pid = pid;
}

} // verus!
