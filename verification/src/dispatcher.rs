use vstd::prelude::*;
use crate::task::{Task, Tasklist};

verus! {

/// The scheduling parameters of one task, in milliseconds.
#[derive(Clone, Copy, Debug)]
pub struct TaskParams {
    pub wcet: u32,
    pub deadline: u32,
    pub period: u32,
}

/// Nanoseconds in a millisecond.
pub const NANOS_PER_MILLI: u64 = 1_000_000u64;

impl TaskParams {
    /// Runtime, deadline and period in nanoseconds, as the SCHED_DEADLINE
    /// scheduler takes them.
    pub fn to_nanoseconds(&self) -> (r: (u64, u64, u64))
        ensures
            r.0 == self.wcet * NANOS_PER_MILLI,
            r.1 == self.deadline * NANOS_PER_MILLI,
            r.2 == self.period * NANOS_PER_MILLI,
            r.0 == self.wcet * 1_000_000,
            r.1 == self.deadline * 1_000_000,
            r.2 == self.period * 1_000_000,
    {
        assert(self.wcet * NANOS_PER_MILLI <= u64::MAX) by (nonlinear_arith)
            requires
                self.wcet <= u32::MAX,
                NANOS_PER_MILLI == 1_000_000,
        ;
        assert(self.deadline * NANOS_PER_MILLI <= u64::MAX) by (nonlinear_arith)
            requires
                self.deadline <= u32::MAX,
                NANOS_PER_MILLI == 1_000_000,
        ;
        assert(self.period * NANOS_PER_MILLI <= u64::MAX) by (nonlinear_arith)
            requires
                self.period <= u32::MAX,
                NANOS_PER_MILLI == 1_000_000,
        ;
        (
            self.wcet as u64 * NANOS_PER_MILLI,
            self.deadline as u64 * NANOS_PER_MILLI,
            self.period as u64 * NANOS_PER_MILLI,
        )
    }
}

/// The parameters a task is registered with.
pub open spec fn params_of(t: Task) -> TaskParams {
    TaskParams { wcet: t.wcet, deadline: t.deadline, period: t.period }
}

/// Dispatcher of a task set under EDF.
pub struct Dispatcher;

impl Dispatcher {
    /// Sets up the EDF dispatcher of a task set: the parameters with which one
    /// thread per task is registered with the scheduler, head task first.
    pub fn dispatch(taskset: &Tasklist) -> (r: Vec<TaskParams>)
        ensures
            r@ == taskset@.map_values(|t: Task| params_of(t)),
            r@.len() == taskset@.len(),
            forall|i: int|
                0 <= i < r@.len() ==> (#[trigger] r@[i]).wcet == taskset@[i].wcet && r@[i].deadline
                    == taskset@[i].deadline && r@[i].period == taskset@[i].period,
    {
        let n = taskset.len();
        let mut r: Vec<TaskParams> = Vec::new();
        let mut i: usize = 0;
        while i < n
            invariant
                n == taskset@.len(),
                0 <= i <= n,
                r@ == taskset@.take(i as int).map_values(|t: Task| params_of(t)),
            decreases n - i,
        {
            let t = taskset.get(i);
            r.push(TaskParams { wcet: t.wcet, deadline: t.deadline, period: t.period });
            proof {
                assert(taskset@.take(i + 1).map_values(|t: Task| params_of(t)) =~= taskset@.take(
                    i as int,
                ).map_values(|t: Task| params_of(t)).push(params_of(t)));
            }
            i += 1;
        }
        proof {
            assert(taskset@.take(n as int) =~= taskset@);
        }
        r
    }
}

} // verus!
