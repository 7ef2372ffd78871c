//! Trap frames and trap dispatch.
use vstd::prelude::*;
use crate::encoding::{Register, Interrupt, Exception};
use crate::sched::{Scheduler, NO_FRAME};
use crate::syscall::{Syscall, SyscallOutcome, make_syscall, syscall_effect, next_pc};

verus! {

/// The saved execution context of a hart.
#[derive(Clone, Copy)]
pub struct TrapFrame {
    pub regs: [u64; 32],
    pub fregs: [u64; 32],
    pub satp: u64,
    pub pc: u64,
    pub hartid: u64,
    pub qm: u64,
    pub pid: u64,
    pub mode: u64,
}

impl TrapFrame {
    /// Sets the stack pointer.
    pub fn set_sp(&mut self, addr: u64)
        ensures
            final(self).regs@ == old(self).regs@.update(2, addr),
            final(self).pc == old(self).pc,
            final(self).pid == old(self).pid,
    {
        self.regs.set(2, addr);
    }

    /// A frame with every field zero.
    pub fn zero() -> (r: TrapFrame)
        ensures
            forall|i: int| 0 <= i < 32 ==> #[trigger] r.regs@[i] == 0,
            forall|i: int| 0 <= i < 32 ==> #[trigger] r.fregs@[i] == 0,
            r.satp == 0 && r.pc == 0 && r.hartid == 0 && r.qm == 0 && r.pid == 0 && r.mode == 0,
    {
        TrapFrame {
            regs: [0; 32],
            fregs: [0; 32],
            satp: 0,
            pc: 0,
            hartid: 0,
            qm: 0,
            pid: 0,
            mode: 0,
        }
    }

    /// The system call number, held in register a7.
    pub fn syscall_id(&self) -> (r: u64)
        ensures
            r == self.regs@[Register::A7.spec_index()],
    {
        self.regs[Register::A7.index()]
    }
}

/// A trap that is only reported.
#[derive(PartialEq, Eq, Structural, Clone, Copy, Debug)]
pub enum TrapEvent {
    /// A machine software interrupt on hart `hartid`.
    MachineSoftware { hartid: u64 },
    /// An environment call from supervisor mode.
    EnvCallFromSMode,
}

/// A trap the kernel cannot go on from: it reports it and halts.
#[derive(PartialEq, Eq, Structural, Clone, Copy, Debug)]
pub enum TrapError {
    UnhandledInterrupt { hartid: u64, cause: u64 },
    IllegalInstruction { hartid: u64, epc: u64, tval: u64 },
    UnhandledException { hartid: u64, cause: u64 },
    UnknownSyscall { hartid: u64, id: u64 },
}

/// What the trap handler decided; the trampoline around it carries it out.
#[derive(PartialEq, Eq, Structural, Clone, Copy, Debug)]
pub enum TrapAction {
    /// Report the event and return to the interrupted code.
    Report(TrapEvent),
    /// Re-arm the timer for one interval, then switch in user mode to the
    /// frame at the address given; with none, no process can run and the
    /// hart idles until the next interrupt.
    Reschedule { frame: Option<u64> },
    /// A system call was carried out: report its outcome, re-arm the timer
    /// for one interval and switch in user mode to the frame at `frame`, or
    /// idle when there is none.
    Syscall { outcome: SyscallOutcome, frame: Option<u64> },
    /// The exit call: halt.
    Exit,
    /// Report the error and halt.
    Fatal(TrapError),
}

/// The top bit of the cause code marks an interrupt.
pub open spec fn is_interrupt(cause: u64) -> bool {
    (cause >> 63u64) & 1 == 1
}

/// The cause number in the low bits of the cause code.
pub open spec fn cause_number(cause: u64) -> u64 {
    cause & 0xfff
}

/// The elapsed count after one more interval, held at its maximum.
pub open spec fn tick(elapsed: u64) -> u64 {
    if elapsed < u64::MAX {
        (elapsed + 1) as u64
    } else {
        elapsed
    }
}

/// The frame to switch to for what the scheduler returned: none for the
/// null address and for `NO_FRAME`, which mean no process can run.
pub open spec fn dispatch_target(f: u64) -> Option<u64> {
    if f == 0 || f == NO_FRAME {
        None
    } else {
        Some(f)
    }
}

/// The frame to switch to for what the scheduler returned.
fn dispatch_target_of(f: u64) -> (r: Option<u64>)
    ensures
        r == dispatch_target(f),
{
    if f == 0 || f == NO_FRAME {
        None
    } else {
        Some(f)
    }
}

/// The scheduler after one more interval has elapsed.
pub open spec fn after_tick(s: &Scheduler) -> Scheduler {
    Scheduler { elapsed: tick(s.elapsed), ..*s }
}

/// What follows a system call that returned `res` and left the scheduler as
/// `mid`: an unknown call is fatal, the exit call halts, and any other call
/// is followed by scheduling, which leaves the scheduler as `post`.
pub open spec fn ecall_action(
    mid: &Scheduler,
    post: &Scheduler,
    now: u64,
    res: Result<SyscallOutcome, u64>,
    hartid: u64,
    r: TrapAction,
) -> bool {
    match res {
        Err(id) => r == TrapAction::Fatal(TrapError::UnknownSyscall { hartid, id }) && *post == *mid,
        Ok(SyscallOutcome::Exit) => r == TrapAction::Exit && *post == *mid,
        Ok(outcome) => exists|f: u64|
            #[trigger] mid.schedules(post, now, f) && r == TrapAction::Syscall {
                outcome,
                frame: dispatch_target(f),
            },
    }
}

/// Decides what a trap calls for. `epc` is the interrupted program counter,
/// `tval` the trap value, `cause` the cause code, `now` the current time and
/// `frame` the trap frame of the hart. A machine timer interrupt counts one interval and asks the
/// scheduler for the next frame; an environment call from machine mode moves
/// the saved program counter past the call, carries out the system call and
/// asks the scheduler for the next frame; the other known causes are only
/// reported, an illegal instruction and every unknown cause are fatal.
pub fn trap_handler(
    sched: &mut Scheduler,
    epc: u64,
    tval: u64,
    cause: u64,
    hartid: u64,
    status: u64,
    now: u64,
    frame: &mut TrapFrame,
) -> (r: TrapAction)
    ensures
        !(!is_interrupt(cause) && cause_number(cause) == 11) ==> *final(frame) == *old(frame),
        is_interrupt(cause) ==> match Interrupt::spec_from(cause_number(cause)) {
            Some(Interrupt::MachineSoftware) => r == TrapAction::Report(
                TrapEvent::MachineSoftware { hartid },
            ) && *final(sched) == *old(sched),
            Some(Interrupt::MachineTimer) => exists|f: u64|
                #[trigger] after_tick(old(sched)).schedules(final(sched), now, f) && r
                    == TrapAction::Reschedule { frame: dispatch_target(f) },
            _ => r == TrapAction::Fatal(
                TrapError::UnhandledInterrupt { hartid, cause: cause_number(cause) },
            ) && *final(sched) == *old(sched),
        },
        !is_interrupt(cause) ==> match Exception::spec_from(cause_number(cause)) {
            Some(Exception::EnvCallFromMMode) => {
                &&& final(frame).pc == next_pc(epc)
                &&& epc + 4 <= u64::MAX ==> final(frame).pc == epc + 4
                &&& final(frame).regs == old(frame).regs
                &&& final(frame).pid == old(frame).pid
                &&& exists|mid: Scheduler, res: Result<SyscallOutcome, u64>|
                    #[trigger] syscall_effect(old(sched), &mid, now, old(frame), res) && ecall_action(
                    &mid,
                    final(sched),
                    now,
                    res,
                    hartid,
                    r,
                )
            },
            Some(Exception::EnvCallFromSMode) => r == TrapAction::Report(
                TrapEvent::EnvCallFromSMode,
            ) && *final(sched) == *old(sched),
            Some(Exception::IllegaInstruction) => r == TrapAction::Fatal(
                TrapError::IllegalInstruction { hartid, epc, tval },
            ) && *final(sched) == *old(sched),
            _ => r == TrapAction::Fatal(
                TrapError::UnhandledException { hartid, cause: cause_number(cause) },
            ) && *final(sched) == *old(sched),
        },
{
    let is_async: bool = (cause >> 63) & 1 == 1;
    let cause_num = cause & 0xfff;
    if is_async {
        if !Interrupt::is_known(cause_num) {
            return TrapAction::Fatal(TrapError::UnhandledInterrupt { hartid, cause: cause_num });
        }
        match Interrupt::from_usize(cause_num) {
            Interrupt::MachineSoftware => TrapAction::Report(
                TrapEvent::MachineSoftware { hartid },
            ),
            Interrupt::MachineTimer => {
                if sched.elapsed < u64::MAX {
                    sched.elapsed = sched.elapsed + 1;
                }
                let ghost ticked = *sched;
                let next_frame = sched.schedule(now);
                assert(ticked.schedules(sched, now, next_frame));
                TrapAction::Reschedule { frame: dispatch_target_of(next_frame) }
            },
            _ => TrapAction::Fatal(TrapError::UnhandledInterrupt { hartid, cause: cause_num }),
        }
    } else {
        if !Exception::is_known(cause_num) {
            return TrapAction::Fatal(TrapError::UnhandledException { hartid, cause: cause_num });
        }
        match Exception::from_usize(cause_num) {
            Exception::EnvCallFromMMode => {
                let id = frame.syscall_id();
                if Syscall::try_from(id).is_none() {
                    frame.pc = epc.wrapping_add(4);
                    let ghost res = Err::<SyscallOutcome, u64>(id);
                    assert(syscall_effect(old(sched), sched, now, old(frame), res));
                    assert(ecall_action(sched, sched, now, res, hartid,
                        TrapAction::Fatal(TrapError::UnknownSyscall { hartid, id })));
                    return TrapAction::Fatal(TrapError::UnknownSyscall { hartid, id });
                }
                let outcome = make_syscall(sched, epc, now, frame);
                let ghost res = Ok::<SyscallOutcome, u64>(outcome);
                let ghost mid = *sched;
                let r = match outcome {
                    SyscallOutcome::Exit => TrapAction::Exit,
                    _ => {
                        let next_frame = sched.schedule(now);
                        assert(mid.schedules(sched, now, next_frame));
                        TrapAction::Syscall { outcome, frame: dispatch_target_of(next_frame) }
                    },
                };
                assert(ecall_action(&mid, sched, now, res, hartid, r));
                r
            },
            Exception::EnvCallFromSMode => TrapAction::Report(TrapEvent::EnvCallFromSMode),
            Exception::IllegaInstruction => TrapAction::Fatal(
                TrapError::IllegalInstruction { hartid, epc, tval },
            ),
            _ => TrapAction::Fatal(TrapError::UnhandledException { hartid, cause: cause_num }),
        }
    }
}

} // verus!
