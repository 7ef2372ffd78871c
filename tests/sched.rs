use strail::process::{Process, State};
use strail::sched::{clint_mtimecmp, next_timecmp, vote_of, Scheduler, CONTEXT_SWITCH_TIME, NO_FRAME};

/// A process; a sleeping one sleeps for good.
fn proc(pid: u64, state: State, frame: u64) -> Process {
    Process { pid, state, frame, voting: false, sleep_until: u64::MAX }
}

#[test]
fn vote_accepts_first_agreeing_pair() {
    let mut s = Scheduler::new();
    for v in [5u64, 5, 9] {
        s.results.push_back(v);
    }
    assert_eq!(s.vote(), Some(5));
    assert_eq!(s.last_vote, Some(5));
    assert!(s.results.is_empty());
}

#[test]
fn vote_without_majority_accepts_zero() {
    let mut s = Scheduler::new();
    for v in [1u64, 2, 3] {
        s.results.push_back(v);
    }
    assert_eq!(s.vote(), Some(0));
    assert_eq!(s.last_vote, Some(0));
}

#[test]
fn vote_waits_for_three_results() {
    let mut s = Scheduler::new();
    assert_eq!(s.push_result(5), None);
    assert_eq!(s.push_result(9), None);
    assert_eq!(s.vote(), None);
    assert_eq!(s.results.len(), 2);
    assert_eq!(s.push_result(9), Some(9));
    assert!(s.results.is_empty());
}

#[test]
fn vote_of_neighbours() {
    assert_eq!(vote_of(5, 5, 9), 5);
    assert_eq!(vote_of(9, 5, 5), 5);
    assert_eq!(vote_of(5, 9, 5), 0);
    assert_eq!(vote_of(1, 2, 3), 0);
}

#[test]
fn schedule_finds_the_running_process() {
    let mut s = Scheduler::new();
    s.add_process(proc(0, State::Sleeping, 0x100));
    s.add_process(proc(1, State::Running, 0x200));
    s.add_process(proc(2, State::Dead, 0x300));
    assert_eq!(s.schedule(0), 0x200);
    let states: Vec<(u64, State)> = s.procs.iter().map(|p| (p.pid, p.state)).collect();
    assert_eq!(states, vec![(1, State::Running), (2, State::Dead), (0, State::Sleeping)]);
    // A full turn later the same process comes back.
    assert_eq!(s.schedule(0), 0x200);
}

#[test]
fn schedule_rotates_between_running_processes() {
    let mut s = Scheduler::new();
    s.add_process(proc(0, State::Running, 0x100));
    s.add_process(proc(1, State::Running, 0x200));
    assert_eq!(s.schedule(0), 0x200);
    assert_eq!(s.schedule(0), 0x100);
    assert_eq!(s.schedule(0), 0x200);
}

#[test]
fn schedule_without_running_process_returns_sentinel() {
    let mut s = Scheduler::new();
    assert_eq!(s.schedule(0), NO_FRAME);
    s.add_process(proc(0, State::Sleeping, 0x100));
    s.add_process(proc(1, State::Ready, 0x200));
    assert_eq!(s.schedule(0), NO_FRAME);
    assert_eq!(s.procs[0].pid, 0);
    assert_eq!(s.procs[1].pid, 1);
}

#[test]
fn schedule_votes_for_a_voting_process() {
    let mut s = Scheduler::new();
    s.add_process(Process { pid: 7, state: State::Running, frame: 0x700, voting: true, sleep_until: 0 });
    for v in [4u64, 4, 4, 8] {
        s.results.push_back(v);
    }
    assert_eq!(s.schedule(0), 0x700);
    assert_eq!(s.last_vote, Some(4));
    assert_eq!(s.results.len(), 1);
}

#[test]
fn sleep_marks_the_process() {
    let mut s = Scheduler::new();
    s.add_process(proc(3, State::Running, 0x100));
    assert!(s.sleep_pid(3, 10));
    assert_eq!(s.procs[0].state, State::Sleeping);
    assert_eq!(s.procs[0].sleep_until, 10);
    assert!(!s.sleep_pid(4, 10));
}

#[test]
fn timer_compare_adds_intervals() {
    assert_eq!(CONTEXT_SWITCH_TIME, 40_000);
    assert_eq!(next_timecmp(1_000, 2), 81_000);
    assert_eq!(next_timecmp(u64::MAX, 1), CONTEXT_SWITCH_TIME - 1);
    assert_eq!(clint_mtimecmp(0), 0x2000_4000);
    assert_eq!(clint_mtimecmp(1), 0x2000_8004);
}

#[test]
fn test_process_new() {
    let proc = Process::new(0, 0x1000);
    assert!(!proc.is_waiting());
    assert!(!proc.is_dead());
    assert!(!proc.is_running());
    assert!(proc.is_ready());
    assert_eq!(proc.pid, 0);
    assert_eq!(proc.get_frame_addr(), 0x1000);
}

#[test]
fn sleeping_process_wakes_when_its_time_comes() {
    let mut s = Scheduler::new();
    s.add_process(proc(0, State::Running, 0x100));
    assert!(s.sleep_pid(0, 500));
    assert_eq!(s.procs[0].state, State::Sleeping);
    assert_eq!(s.schedule(499), NO_FRAME);
    assert_eq!(s.procs[0].state, State::Sleeping);
    assert_eq!(s.schedule(500), 0x100);
    assert_eq!(s.procs[0].state, State::Running);
}
