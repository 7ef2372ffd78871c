use strail::encoding::{Exception, Interrupt};
use strail::process::{create_process, Process, State};
use strail::sched::{Scheduler, SLEEP_TICKS};
use strail::syscall::{make_syscall, Syscall, SyscallOutcome};
use strail::trap::{trap_handler, TrapAction, TrapError, TrapEvent, TrapFrame};

const INTERRUPT: u64 = 1 << 63;

fn frame_with_call(id: u64) -> TrapFrame {
    let mut f = TrapFrame::zero();
    f.regs[17] = id;
    f
}

#[test]
fn test_trap_encoding_convertion() {
    assert_eq!(Interrupt::from_usize(0), Interrupt::UserSoftware,);
    assert_eq!(Interrupt::from_usize(1), Interrupt::SupervisorSoftware,);
    assert_eq!(Interrupt::from_usize(3), Interrupt::MachineSoftware,);
    assert_eq!(Interrupt::from_usize(7), Interrupt::MachineTimer);
    assert!(!Interrupt::is_known(5));
    assert_eq!(Exception::from_usize(11), Exception::EnvCallFromMMode);
    assert_eq!(Exception::from_usize(2), Exception::IllegaInstruction);
    assert!(!Exception::is_known(8));
    assert!(Exception::is_known(9));
}

#[test]
fn ecall_moves_pc_past_the_call() {
    let mut s = Scheduler::new();
    s.add_process(Process { pid: 0, state: State::Running, frame: 0x900, voting: false, sleep_until: 0 });
    let mut f = frame_with_call(Syscall::Nop.id());
    let r = trap_handler(&mut s, 0x8000_0100, 0, 11, 0, 0, 0, &mut f);
    assert_eq!(f.pc, 0x8000_0104);
    assert_eq!(r, TrapAction::Syscall { outcome: SyscallOutcome::Nop, frame: Some(0x900) });
}

#[test]
fn unknown_syscall_is_fatal() {
    let mut s = Scheduler::new();
    let mut f = frame_with_call(42);
    let r = trap_handler(&mut s, 0x100, 0, 11, 2, 0, 0, &mut f);
    assert_eq!(r, TrapAction::Fatal(TrapError::UnknownSyscall { hartid: 2, id: 42 }));
    assert_eq!(f.pc, 0x104);
}

#[test]
fn exit_call_halts() {
    let mut s = Scheduler::new();
    let mut f = frame_with_call(Syscall::Exit.id());
    assert_eq!(trap_handler(&mut s, 0x100, 0, 11, 0, 0, 0, &mut f), TrapAction::Exit);
}

#[test]
fn timer_interrupt_reschedules() {
    let mut s = Scheduler::new();
    s.add_process(Process { pid: 0, state: State::Running, frame: 0x900, voting: false, sleep_until: 0 });
    let mut f = TrapFrame::zero();
    let r = trap_handler(&mut s, 0x100, 0, INTERRUPT | 7, 0, 0, 0, &mut f);
    assert_eq!(r, TrapAction::Reschedule { frame: Some(0x900) });
    assert_eq!(s.elapsed, 1);
    assert_eq!(f.pc, 0);
}

#[test]
fn software_interrupt_and_supervisor_call_are_reported() {
    let mut s = Scheduler::new();
    let mut f = TrapFrame::zero();
    assert_eq!(
        trap_handler(&mut s, 0x100, 0, INTERRUPT | 3, 1, 0, 0, &mut f),
        TrapAction::Report(TrapEvent::MachineSoftware { hartid: 1 })
    );
    assert_eq!(
        trap_handler(&mut s, 0x100, 0, 9, 1, 0, 0, &mut f),
        TrapAction::Report(TrapEvent::EnvCallFromSMode)
    );
    assert_eq!(f.pc, 0);
}

#[test]
fn faults_are_fatal() {
    let mut s = Scheduler::new();
    let mut f = TrapFrame::zero();
    assert_eq!(
        trap_handler(&mut s, 0x100, 0xdead, 2, 0, 0, 0, &mut f),
        TrapAction::Fatal(TrapError::IllegalInstruction { hartid: 0, epc: 0x100, tval: 0xdead })
    );
    assert_eq!(
        trap_handler(&mut s, 0x100, 0, 13, 0, 0, 0, &mut f),
        TrapAction::Fatal(TrapError::UnhandledException { hartid: 0, cause: 13 })
    );
    assert_eq!(
        trap_handler(&mut s, 0x100, 0, INTERRUPT | 11, 0, 0, 0, &mut f),
        TrapAction::Fatal(TrapError::UnhandledInterrupt { hartid: 0, cause: 11 })
    );
}

#[test]
fn results_queue_through_syscalls() {
    let mut s = Scheduler::new();
    for (v, expect) in [(5u64, None), (5, None), (9, Some(5))] {
        let mut f = frame_with_call(Syscall::TmrAdd.id());
        f.regs[10] = v;
        let r = make_syscall(&mut s, 0, 0, &mut f);
        assert_eq!(r, SyscallOutcome::Queued { value: v, vote: expect });
    }
    let mut f = frame_with_call(Syscall::Print.id());
    assert_eq!(
        make_syscall(&mut s, 0, 0, &mut f),
        SyscallOutcome::LastVote { vote: Some(5), elapsed: 0 }
    );
}

#[test]
fn sum_goes_to_the_vote_when_voting() {
    let mut s = Scheduler::new();
    let mut f = frame_with_call(Syscall::Sum.id());
    assert_eq!(
        make_syscall(&mut s, 0, 0, &mut f),
        SyscallOutcome::Summed { sum: 4, queued: false, vote: None }
    );
    s.tmr = true;
    for expect in [None, None, Some(4)] {
        let mut f = frame_with_call(Syscall::Sum.id());
        assert_eq!(
            make_syscall(&mut s, 0, 0, &mut f),
            SyscallOutcome::Summed { sum: 4, queued: true, vote: expect }
        );
    }
    let mut f = frame_with_call(Syscall::PrintTotal.id());
    assert_eq!(make_syscall(&mut s, 0, 0, &mut f), SyscallOutcome::Total { sum: 4, elapsed: 0 });
}

#[test]
fn sleep_call_puts_caller_to_sleep() {
    let mut s = Scheduler::new();
    s.add_process(Process { pid: 3, state: State::Running, frame: 0x300, voting: false, sleep_until: 0 });
    let mut f = frame_with_call(Syscall::Sleep.id());
    f.pid = 3;
    assert_eq!(make_syscall(&mut s, 0, 1_000, &mut f), SyscallOutcome::Slept { pid: 3, found: true });
    assert_eq!(s.procs[0].state, State::Sleeping);
    assert_eq!(s.procs[0].sleep_until, 1_000 + SLEEP_TICKS);
    let mut f = frame_with_call(Syscall::Verify.id());
    assert_eq!(make_syscall(&mut s, 0, 0, &mut f), SyscallOutcome::Voted { vote: None });
}

#[test]
fn syscall_numbers_decode() {
    for id in 0..9u64 {
        assert_eq!(Syscall::try_from(id).unwrap().id(), id);
    }
    assert_eq!(Syscall::try_from(9), None);
    assert_eq!(Syscall::try_from(2), Some(Syscall::Sleep));
}

#[test]
fn create_process_sets_up_the_frame() {
    let mut f = TrapFrame::zero();
    create_process(&mut f, 0x2000_0000, 5, 0x1234, 7);
    assert_eq!(f.pc, 0x2000_0000);
    assert_eq!(f.regs[1], 0x1234);
    assert_eq!(f.regs[2], 5 * 4096);
    assert_eq!(f.mode, 3);
    assert_eq!(f.pid, 7);
    f.set_sp(0x42);
    assert_eq!(f.regs[2], 0x42);
    assert_eq!(f.syscall_id(), 0);
}

#[test]
fn timer_interrupt_without_runnable_process_idles() {
    let mut s = Scheduler::new();
    let mut f = TrapFrame::zero();
    let r = trap_handler(&mut s, 0x100, 0, INTERRUPT | 7, 0, 0, 0, &mut f);
    assert_eq!(r, TrapAction::Reschedule { frame: None });
}

#[test]
fn ecall_at_the_top_of_memory_wraps() {
    let mut s = Scheduler::new();
    let mut f = frame_with_call(Syscall::Nop.id());
    let r = trap_handler(&mut s, u64::MAX - 1, 0, 11, 0, 0, 0, &mut f);
    assert_eq!(f.pc, 2);
    assert_eq!(r, TrapAction::Syscall { outcome: SyscallOutcome::Nop, frame: None });
}
