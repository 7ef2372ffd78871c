//! System calls: decoding the call number a trap frame carries and carrying
//! out the kernel side of each call.
use vstd::prelude::*;
use crate::encoding::Register;
use crate::sched::{Scheduler, majority, later, SLEEP_TICKS};
use crate::trap::TrapFrame;

verus! {

/// The system calls, by number from 0.
#[derive(PartialEq, Eq, Structural, Clone, Copy, Debug)]
pub enum Syscall {
    Nop,
    DumpRegisters,
    Sleep,
    Exit,
    TmrAdd,
    Verify,
    PrintTotal,
    Print,
    Sum,
}

impl Syscall {
    pub open spec fn spec_from(v: u64) -> Option<Syscall> {
        if v == 0 {
            Some(Syscall::Nop)
        } else if v == 1 {
            Some(Syscall::DumpRegisters)
        } else if v == 2 {
            Some(Syscall::Sleep)
        } else if v == 3 {
            Some(Syscall::Exit)
        } else if v == 4 {
            Some(Syscall::TmrAdd)
        } else if v == 5 {
            Some(Syscall::Verify)
        } else if v == 6 {
            Some(Syscall::PrintTotal)
        } else if v == 7 {
            Some(Syscall::Print)
        } else if v == 8 {
            Some(Syscall::Sum)
        } else {
            None
        }
    }

    /// The call with number `v`; `None` for an unknown number.
    pub fn try_from(v: u64) -> (r: Option<Syscall>)
        ensures
            r == Self::spec_from(v),
    {
        match v {
            0 => Some(Syscall::Nop),
            1 => Some(Syscall::DumpRegisters),
            2 => Some(Syscall::Sleep),
            3 => Some(Syscall::Exit),
            4 => Some(Syscall::TmrAdd),
            5 => Some(Syscall::Verify),
            6 => Some(Syscall::PrintTotal),
            7 => Some(Syscall::Print),
            8 => Some(Syscall::Sum),
            _ => None,
        }
    }

    /// The call's number.
    pub fn id(self) -> (r: u64)
        ensures
            Self::spec_from(r) == Some(self),
    {
        match self {
            Syscall::Nop => 0,
            Syscall::DumpRegisters => 1,
            Syscall::Sleep => 2,
            Syscall::Exit => 3,
            Syscall::TmrAdd => 4,
            Syscall::Verify => 5,
            Syscall::PrintTotal => 6,
            Syscall::Print => 7,
            Syscall::Sum => 8,
        }
    }
}

/// The total the summing call computes.
pub const SUM_VALUE: u64 = 4;

/// What a system call did, for the caller to report.
#[derive(PartialEq, Eq, Structural, Clone, Copy, Debug)]
pub enum SyscallOutcome {
    Nop,
    /// The frame's registers are to be written out.
    DumpRegisters,
    /// The process `pid` was put to sleep, if it was found.
    Slept { pid: u64, found: bool },
    /// The kernel is to halt.
    Exit,
    /// A result was queued; `vote` is what a vote it set off accepted.
    Queued { value: u64, vote: Option<u64> },
    /// A vote was asked for; `None` while fewer than three results wait.
    Voted { vote: Option<u64> },
    /// The last total and the scheduling intervals elapsed.
    Total { sum: u64, elapsed: u64 },
    /// The value the last vote accepted, and the intervals elapsed.
    LastVote { vote: Option<u64>, elapsed: u64 },
    /// A total was computed; queued for a vote when voting is on.
    Summed { sum: u64, queued: bool, vote: Option<u64> },
}

/// What the system call in `frame`, made at time `now`, does to the
/// scheduler, leaving it as `post`, and what it returns: each call's effect, and the call number as
/// the error for an unknown call.
pub open spec fn syscall_effect(
    pre: &Scheduler,
    post: &Scheduler,
    now: u64,
    frame: &TrapFrame,
    r: Result<SyscallOutcome, u64>,
) -> bool {
    let id = frame.regs@[Register::A7.spec_index()];
    let arg = frame.regs@[Register::A0.spec_index()];
    let q = pre.results@;
    &&& post.elapsed == pre.elapsed
    &&& post.tmr == pre.tmr
    &&& match Syscall::spec_from(id) {
        None => r == Err::<SyscallOutcome, u64>(id) && *post == *pre,
        Some(Syscall::Nop) => r == Ok::<SyscallOutcome, u64>(SyscallOutcome::Nop)
            && *post == *pre,
        Some(Syscall::DumpRegisters) => r == Ok::<SyscallOutcome, u64>(
            SyscallOutcome::DumpRegisters,
        ) && *post == *pre,
        Some(Syscall::Exit) => r == Ok::<SyscallOutcome, u64>(SyscallOutcome::Exit)
            && *post == *pre,
        Some(Syscall::Sleep) => {
            &&& r matches Ok(SyscallOutcome::Slept { pid, found })
            &&& r matches Ok(SyscallOutcome::Slept { pid, found }) ==> pid == frame.pid
                && pre.sleeps(post.procs@, pid, later(now, SLEEP_TICKS), found)
            &&& post.results@ == q
            &&& post.last_vote == pre.last_vote
            &&& post.sum == pre.sum
        },
        Some(Syscall::TmrAdd) => {
            let q2 = q.push(arg);
            &&& r == Ok::<SyscallOutcome, u64>(
                SyscallOutcome::Queued {
                    value: arg,
                    vote: if q2.len() >= 3 {
                        Some(majority(q2[0], q2[1], q2[2]))
                    } else {
                        None
                    },
                },
            )
            &&& post.results@ == if q2.len() >= 3 {
                q2.subrange(3, q2.len() as int)
            } else {
                q2
            }
            &&& post.procs@ == pre.procs@
            &&& post.sum == pre.sum
            &&& post.last_vote == if q2.len() >= 3 {
                Some(majority(q2[0], q2[1], q2[2]))
            } else {
                pre.last_vote
            }
        },
        Some(Syscall::Verify) => {
            &&& r == Ok::<SyscallOutcome, u64>(
                SyscallOutcome::Voted {
                    vote: if q.len() >= 3 {
                        Some(majority(q[0], q[1], q[2]))
                    } else {
                        None
                    },
                },
            )
            &&& post.results@ == if q.len() >= 3 {
                q.subrange(3, q.len() as int)
            } else {
                q
            }
            &&& post.procs@ == pre.procs@
            &&& post.sum == pre.sum
            &&& post.last_vote == if q.len() >= 3 {
                Some(majority(q[0], q[1], q[2]))
            } else {
                pre.last_vote
            }
        },
        Some(Syscall::PrintTotal) => r == Ok::<SyscallOutcome, u64>(
            SyscallOutcome::Total { sum: pre.sum, elapsed: pre.elapsed },
        ) && *post == *pre,
        Some(Syscall::Print) => r == Ok::<SyscallOutcome, u64>(
            SyscallOutcome::LastVote {
                vote: pre.last_vote,
                elapsed: pre.elapsed,
            },
        ) && *post == *pre,
        Some(Syscall::Sum) => {
            let q2 = q.push(SUM_VALUE);
            &&& post.sum == SUM_VALUE
            &&& post.procs@ == pre.procs@
            &&& post.last_vote == if pre.tmr && q2.len() >= 3 {
                Some(majority(q2[0], q2[1], q2[2]))
            } else {
                pre.last_vote
            }
            &&& !pre.tmr ==> r == Ok::<SyscallOutcome, u64>(
                SyscallOutcome::Summed { sum: SUM_VALUE, queued: false, vote: None },
            ) && post.results@ == q
            &&& pre.tmr ==> r == Ok::<SyscallOutcome, u64>(
                SyscallOutcome::Summed {
                    sum: SUM_VALUE,
                    queued: true,
                    vote: if q2.len() >= 3 {
                        Some(majority(q2[0], q2[1], q2[2]))
                    } else {
                        None
                    },
                },
            ) && post.results@ == if q2.len() >= 3 {
                q2.subrange(3, q2.len() as int)
            } else {
                q2
            }
        },
    }

}

/// The address of the instruction after the one at `pc`, wrapping around
/// the address space.
pub open spec fn next_pc(pc: u64) -> u64 {
    ((pc + 4) % 0x1_0000_0000_0000_0000) as u64
}

/// Carries out the system call that `frame` holds in register a7, after
/// moving the frame's saved program counter past the calling instruction at
/// `pc`; `now` is the current time, from which the sleep call counts. An
/// unknown call number is a fatal fault, which callers rule out first with
/// `Syscall::try_from`.
pub fn make_syscall(sched: &mut Scheduler, pc: u64, now: u64, frame: &mut TrapFrame) -> (r: SyscallOutcome)
    requires
        Syscall::spec_from(old(frame).regs@[Register::A7.spec_index()]) is Some,
    ensures
        final(frame).pc == next_pc(pc),
        final(frame).regs == old(frame).regs,
        final(frame).pid == old(frame).pid,
        final(sched).elapsed == old(sched).elapsed,
        final(sched).tmr == old(sched).tmr,
        syscall_effect(old(sched), final(sched), now, old(frame), Ok(r)),
{
    let syscall_id = frame.syscall_id();
    frame.pc = pc.wrapping_add(4);
    match Syscall::try_from(syscall_id) {
        None => SyscallOutcome::Nop,
        Some(Syscall::Nop) => SyscallOutcome::Nop,
        Some(Syscall::DumpRegisters) => SyscallOutcome::DumpRegisters,
        Some(Syscall::Sleep) => {
            let pid = frame.pid;
            let until = if now <= u64::MAX - SLEEP_TICKS {
                now + SLEEP_TICKS
            } else {
                u64::MAX
            };
            let found = sched.sleep_pid(pid, until);
            SyscallOutcome::Slept { pid, found }
        },
        Some(Syscall::Exit) => SyscallOutcome::Exit,
        Some(Syscall::TmrAdd) => {
            let value = frame.regs[Register::A0.index()];
            let vote = sched.push_result(value);
            SyscallOutcome::Queued { value, vote }
        },
        Some(Syscall::Verify) => {
            let vote = sched.vote();
            SyscallOutcome::Voted { vote }
        },
        Some(Syscall::PrintTotal) => SyscallOutcome::Total { sum: sched.sum, elapsed: sched.elapsed },
        Some(Syscall::Print) => SyscallOutcome::LastVote { vote: sched.last_vote, elapsed: sched.elapsed },
        Some(Syscall::Sum) => {
            sched.sum = SUM_VALUE;
            if sched.tmr {
                let vote = sched.push_result(SUM_VALUE);
                SyscallOutcome::Summed { sum: SUM_VALUE, queued: true, vote }
            } else {
                SyscallOutcome::Summed { sum: SUM_VALUE, queued: false, vote: None }
            }
        },
    }
}

} // verus!
