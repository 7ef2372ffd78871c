//! The round-robin scheduler, the queue of results awaiting a vote, and the
//! timer arithmetic that re-arms the scheduling quantum.
use vstd::prelude::*;
use std::collections::VecDeque;
use crate::encoding::{CLINT_BASE_ADDR, MTIME_REG_HI_ADDR, MTIME_REG_LO_ADDR};
use crate::process::{Process, State};

verus! {

/// The timer frequency: 10 MHz.
pub const FREQ: u64 = 10_000_000;

/// Timer ticks in one scheduling interval: 250 switches a second.
pub const CONTEXT_SWITCH_TIME: u64 = 40_000;

/// The frame address returned when no process can run.
pub const NO_FRAME: u64 = 0x1111;

/// The address of the timer compare register.
pub const MMIO_MTIMECMP: u64 = 0x0200_4000;

/// The address of the current time register.
pub const MMIO_MTIME: u64 = 0x0200_bff8;

/// The ring rotated left by `m` places: entry `m` comes to the front.
pub open spec fn rotate<T>(s: Seq<T>, m: int) -> Seq<T> {
    s.subrange(m, s.len() as int) + s.subrange(0, m)
}

/// The value a vote over three results, taken in order, accepts: the value
/// of the first pair of neighbours that agree, and 0 when neither pair does.
pub open spec fn majority(a: u64, b: u64, c: u64) -> u64 {
    if a == b {
        a
    } else if b == c {
        b
    } else {
        0
    }
}

/// The process can be dispatched at time `now`: it runs, or it sleeps and
/// its wake time has come.
pub open spec fn eligible(p: Process, now: u64) -> bool {
    p.state == State::Running || (p.state == State::Sleeping && p.sleep_until <= now)
}

/// The number of places the ring must turn until a process that can be
/// dispatched at `now` is in front, if one turn of the whole ring finds one.
pub open spec fn turns_to_running(s: Seq<Process>, m: int, now: u64) -> bool {
    &&& 1 <= m <= s.len()
    &&& eligible(s[m % s.len() as int], now)
    &&& forall|j: int| 1 <= j < m ==> !eligible(#[trigger] s[j % s.len() as int], now)
}

/// How long the sleep call suspends a process: one scheduling interval.
pub const SLEEP_TICKS: u64 = 40_000;

/// The time `ticks` after `now`, held at the counter's maximum.
pub open spec fn later(now: u64, ticks: u64) -> u64 {
    if now + ticks <= u64::MAX {
        (now + ticks) as u64
    } else {
        u64::MAX
    }
}

/// The value a vote accepts.
pub fn vote_of(a: u64, b: u64, c: u64) -> (r: u64)
    ensures
        r == majority(a, b, c),
{
    if a == b {
        a
    } else if b == c {
        b
    } else {
        0
    }
}

/// The compare value that fires the timer `qm` intervals after `mtime`,
/// wrapping around the counter.
pub fn next_timecmp(mtime: u64, qm: u16) -> (r: u64)
    ensures
        r as int == (mtime + CONTEXT_SWITCH_TIME * qm) % 0x1_0000_0000_0000_0000,
{
    let ticks: u64 = CONTEXT_SWITCH_TIME * qm as u64;
    mtime.wrapping_add(ticks)
}

/// The address of the timer compare register of hart `hartid`.
pub fn clint_mtimecmp(hartid: u64) -> (r: u64)
    requires
        hartid < 0x1_0000_0000,
    ensures
        r == CLINT_BASE_ADDR + MTIME_REG_HI_ADDR + MTIME_REG_LO_ADDR * hartid,
{
    CLINT_BASE_ADDR + MTIME_REG_HI_ADDR + MTIME_REG_LO_ADDR * hartid
}

/// The live processes in ring order, the results awaiting a vote, and the
/// running totals that the bookkeeping calls report.
pub struct Scheduler {
    pub procs: VecDeque<Process>,
    pub results: VecDeque<u64>,
    /// The value the last vote accepted.
    pub last_vote: Option<u64>,
    /// The total that the summing call computed last.
    pub sum: u64,
    /// Scheduling intervals elapsed.
    pub elapsed: u64,
    /// Whether computed totals go to the result queue for a vote.
    pub tmr: bool,
}

impl Scheduler {
    /// A scheduler with no processes and no results.
    pub fn new() -> (r: Scheduler)
        ensures
            r.procs@.len() == 0,
            r.results@.len() == 0,
            r.last_vote is None,
            r.sum == 0,
            r.elapsed == 0,
            !r.tmr,
    {
        Scheduler {
            procs: VecDeque::new(),
            results: VecDeque::new(),
            last_vote: None,
            sum: 0,
            elapsed: 0,
            tmr: false,
        }
    }

    /// Appends a process to the ring.
    pub fn add_process(&mut self, p: Process)
        ensures
            final(self).procs@ == old(self).procs@.push(p),
            final(self).results@ == old(self).results@,
            final(self).last_vote == old(self).last_vote,
            final(self).sum == old(self).sum,
            final(self).tmr == old(self).tmr,
            final(self).elapsed == old(self).elapsed,
    {
        self.procs.push_back(p);
    }

    /// Pops the three oldest results and votes on them; the accepted value is
    /// recorded as the last vote. `None`, and nothing changed, while fewer
    /// than three results wait.
    pub fn vote(&mut self) -> (r: Option<u64>)
        ensures
            final(self).procs@ == old(self).procs@,
            final(self).sum == old(self).sum,
            final(self).tmr == old(self).tmr,
            final(self).elapsed == old(self).elapsed,
            old(self).results@.len() < 3 ==> r is None && final(self).results@ == old(
                self,
            ).results@ && final(self).last_vote == old(self).last_vote,
            old(self).results@.len() >= 3 ==> {
                let q = old(self).results@;
                &&& r == Some(majority(q[0], q[1], q[2]))
                &&& final(self).results@ == q.subrange(3, q.len() as int)
                &&& final(self).last_vote == r
            },
    {
        if self.results.len() < 3 {
            return None;
        }
        let ghost q = self.results@;
        let a = self.results.pop_front().unwrap();
        let b = self.results.pop_front().unwrap();
        let c = self.results.pop_front().unwrap();
        assert(self.results@ =~= q.subrange(3, q.len() as int));
        let v = vote_of(a, b, c);
        self.last_vote = Some(v);
        Some(v)
    }

    /// Appends a result; once three or more wait, votes on the oldest three.
    pub fn push_result(&mut self, value: u64) -> (r: Option<u64>)
        ensures
            final(self).procs@ == old(self).procs@,
            final(self).sum == old(self).sum,
            final(self).tmr == old(self).tmr,
            final(self).elapsed == old(self).elapsed,
            ({
                let q = old(self).results@.push(value);
                &&& q.len() < 3 ==> r is None && final(self).results@ == q && final(self).last_vote
                    == old(self).last_vote
                &&& q.len() >= 3 ==> r == Some(majority(q[0], q[1], q[2])) && final(self).results@
                    == q.subrange(3, q.len() as int) && final(self).last_vote == r
            }),
    {
        self.results.push_back(value);
        if self.results.len() >= 3 {
            self.vote()
        } else {
            None
        }
    }

    /// Puts the process `pid` to sleep until the time `until`; `false` when
    /// no process has that id. Only the first process with the id is touched.
    pub fn sleep_pid(&mut self, pid: u64, until: u64) -> (r: bool)
        ensures
            final(self).procs@.len() == old(self).procs@.len(),
            final(self).results@ == old(self).results@,
            final(self).last_vote == old(self).last_vote,
            final(self).sum == old(self).sum,
            final(self).tmr == old(self).tmr,
            final(self).elapsed == old(self).elapsed,
            old(self).sleeps(final(self).procs@, pid, until, r),
    {
        let n = self.procs.len();
        let mut i: usize = 0;
        while i < n
            invariant
                n == self.procs@.len(),
                self.procs@ == old(self).procs@,
                self.results@ == old(self).results@,
                self.last_vote == old(self).last_vote,
                self.sum == old(self).sum,
                self.tmr == old(self).tmr,
                self.elapsed == old(self).elapsed,
                i <= n,
                forall|j: int| 0 <= j < i ==> (#[trigger] self.procs@[j]).pid != pid,
            decreases n - i,
        {
            if self.procs[i].pid == pid {
                let p = self.procs[i];
                let ghost before = self.procs@;
                self.procs.remove(i);
                self.procs.insert(i, Process { state: State::Sleeping, sleep_until: until, ..p });
                assert(self.procs@ =~= before.update(
                    i as int,
                    Process { state: State::Sleeping, sleep_until: until, ..p },
                ));
                return true;
            }
            i = i + 1;
        }
        false
    }
}

impl Scheduler {
    /// What putting `pid` to sleep until `until` did, leaving the ring as
    /// `post`: when a process has that id, the first such one now sleeps
    /// until then; otherwise nothing changed.
    pub open spec fn sleeps(&self, post: Seq<Process>, pid: u64, until: u64, r: bool) -> bool {
        let s = self.procs@;
        &&& r <==> exists|i: int| 0 <= i < s.len() && (#[trigger] s[i]).pid == pid
        &&& r ==> exists|i: int|
            0 <= i < s.len() && #[trigger] s[i].pid == pid && (forall|j: int|
                0 <= j < i ==> (#[trigger] s[j]).pid != pid) && post == s.update(
                i,
                Process { state: State::Sleeping, sleep_until: until, ..s[i] },
            )
        &&& !r ==> post == s
    }
}

impl Scheduler {
    /// What `schedule` at time `now` does: with no process to dispatch the
    /// ring is left as it was and `NO_FRAME` comes back; otherwise the first
    /// process a turn of the ring finds that can be dispatched is scheduled.
    pub open spec fn schedules(&self, post: &Scheduler, now: u64, r: u64) -> bool {
        &&& post.sum == self.sum
        &&& post.elapsed == self.elapsed
        &&& post.tmr == self.tmr
        &&& (forall|m: int| !turns_to_running(self.procs@, m, now)) ==> {
            &&& r == NO_FRAME
            &&& post.procs@ == self.procs@
            &&& post.results@ == self.results@
            &&& post.last_vote == self.last_vote
        }
        &&& (exists|m: int| turns_to_running(self.procs@, m, now)) ==> exists|m: int|
            #[trigger] turns_to_running(self.procs@, m, now) && self.scheduled(post, m, r)
    }

    /// The ring turned `m` places to bring a process to the front, which now
    /// runs, leaving `post`, and `r` is that process's frame; a voting process
    /// had the waiting results voted on first.
    pub open spec fn scheduled(&self, post: &Scheduler, m: int, r: u64) -> bool {
        let s = self.procs@;
        let p = s[m % s.len() as int];
        let q = self.results@;
        &&& post.procs@ == rotate(s, m % s.len() as int).update(
            0,
            Process { state: State::Running, ..p },
        )
        &&& r == p.frame
        &&& (p.voting && q.len() >= 3) ==> post.results@ == q.subrange(3, q.len() as int)
            && post.last_vote == Some(majority(q[0], q[1], q[2]))
        &&& !(p.voting && q.len() >= 3) ==> post.results@ == q && post.last_vote == self.last_vote
    }
}

impl Scheduler {
    /// Turns the ring one place at a time until a process that can be
    /// dispatched at time `now` is in front, for at most one turn of the whole
    /// ring, and returns that process's frame address; a sleeping process
    /// whose wake time has come is woken. When the process takes part in
    /// voting, the waiting results are voted on first. When no process can be
    /// dispatched, the ring is back where it started and `NO_FRAME` comes back.
    pub fn schedule(&mut self, now: u64) -> (r: u64)
        ensures
            final(self).sum == old(self).sum,
            final(self).tmr == old(self).tmr,
            final(self).elapsed == old(self).elapsed,
            old(self).schedules(final(self), now, r),
    {
        let ghost s = self.procs@;
        let n = self.procs.len();
        if n == 0 {
            return NO_FRAME;
        }
        let mut m: usize = 0;
        while m < n
            invariant
                n == s.len(),
                n > 0,
                m <= n,
                self.procs@ == rotate(s, m as int),
                self.results@ == old(self).results@,
                self.last_vote == old(self).last_vote,
                self.sum == old(self).sum,
                self.tmr == old(self).tmr,
                self.elapsed == old(self).elapsed,
                s == old(self).procs@,
                forall|j: int| 1 <= j <= m ==> !eligible(#[trigger] s[j % n as int], now),
            decreases n - m,
        {
            assert(rotate(s, m as int)[0] == s[m as int]);
            let p = self.procs.pop_front().unwrap();
            self.procs.push_back(p);
            assert(self.procs@ =~= rotate(s, m + 1));
            m = m + 1;
            proof {
                if m == n {
                    assert(rotate(s, m as int) =~= s);
                    vstd::arithmetic::div_mod::lemma_mod_self_0(n as int);
                } else {
                    vstd::arithmetic::div_mod::lemma_small_mod(m as nat, n as nat);
                }
                assert(rotate(s, m as int)[0] == s[(m as int) % (n as int)]);
            }
            let front = self.procs[0];
            if front.is_running() || (front.is_waiting() && front.sleep_until <= now) {
                proof {
                    assert(turns_to_running(s, m as int, now));
                    if m == n {
                        assert(rotate(s, 0) =~= s);
                    }
                    assert(self.procs@ == rotate(s, (m as int) % (n as int)));
                }
                let ghost turned = self.procs@;
                let _ = self.procs.pop_front();
                self.procs.push_front(Process { state: State::Running, ..front });
                assert(self.procs@ =~= turned.update(0, Process { state: State::Running, ..front }));
                if front.voting {
                    self.vote();
                }
                assert(old(self).scheduled(self, m as int, front.frame));
                return front.get_frame_addr();
            }
        }
        proof {
            assert(rotate(s, n as int) =~= s);
            assert forall|m: int| !turns_to_running(s, m, now) by {
                if 1 <= m <= n {
                    assert(!eligible(s[(m as int) % (n as int)], now));
                }
            }
        }
        NO_FRAME
    }
}

} // verus!
