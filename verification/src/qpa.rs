use vstd::prelude::*;
use crate::task::{Task, Tasklist, valid_tasks};
use crate::demand::{DEADLINE_BOUND, demand, min_deadline, last_deadline_before, lemma_dmax_below,
    lemma_demand_terms_nonneg, lemma_sum_tasks_prefix, demand_term, total_wcet_of,
    lemma_demand_monotone, lemma_demand_zero_before_dmin, lemma_demand_flat};
use crate::busy_period::{lb_stops_at, lb_iterate, lemma_lb_fixpoint, lemma_no_miss_beyond,
    lemma_no_work, lemma_lb_at_least_total};

verus! {

/// The QPA loop goes on at `t`: `h(t) <= t` and `h(t) > dmin`.
pub open spec fn qpa_condition_holds(s: Seq<Task>, t: int) -> bool {
    demand(s, t) <= t && demand(s, t) > min_deadline(s)
}

/// The point the QPA loop moves to from `t`: `h(t)` when `h(t) < t`,
/// otherwise the largest absolute deadline before `t`.
pub open spec fn qpa_next(s: Seq<Task>, t: int) -> int {
    if demand(s, t) < t {
        demand(s, t)
    } else {
        last_deadline_before(s, t)
    }
}

/// The verdict of the quick processor-demand analysis started at `t`:
/// while the loop condition holds, move to `qpa_next`; then the task set is
/// judged schedulable when `h(t) <= dmin`.
pub open spec fn qpa_verdict(s: Seq<Task>, t: nat) -> bool
    decreases t,
{
    if qpa_condition_holds(s, t as int) {
        let nt = qpa_next(s, t as int);
        if 0 <= nt < t {
            qpa_verdict(s, nt as nat)
        } else {
            false
        }
    } else {
        demand(s, t as int) <= min_deadline(s)
    }
}

/// The smallest deadline lies in [0, DEADLINE_BOUND].
pub proof fn lemma_min_deadline_range(s: Seq<Task>)
    ensures
        0 <= min_deadline(s) <= DEADLINE_BOUND,
    decreases s.len(),
{
    if s.len() > 0 {
        lemma_min_deadline_range(s.drop_last());
    }
}

/// The demand of a task set is never negative.
pub proof fn lemma_demand_nonneg(s: Seq<Task>, t: int)
    ensures
        demand(s, t) >= 0,
{
    lemma_demand_terms_nonneg(s, t);
    lemma_sum_tasks_prefix(s, demand_term(t), 0);
}

/// Each step of the QPA loop moves to a point in [0, t): the loop terminates.
pub proof fn lemma_qpa_step_decreases(s: Seq<Task>, t: int)
    requires
        valid_tasks(s),
        qpa_condition_holds(s, t),
    ensures
        0 <= qpa_next(s, t) < t,
{
    lemma_min_deadline_range(s);
    lemma_demand_nonneg(s, t);
    if demand(s, t) >= t {
        lemma_dmax_below(s, t);
    }
}

/// The processor-demand criterion up to `t`: at no point of [0, t] does
/// the demand exceed the time.
pub open spec fn demand_within_time(s: Seq<Task>, t: int) -> bool {
    forall|u: int| 0 <= u <= t ==> #[trigger] demand(s, u) <= u
}

/// The processor-demand criterion at every point.
pub open spec fn demand_always_within_time(s: Seq<Task>) -> bool {
    forall|u: int| 0 <= u ==> #[trigger] demand(s, u) <= u
}

/// The QPA verdict started at `t` is the processor-demand criterion on
/// [0, t]: true exactly when `h(u) <= u` at every `u` in [0, t].
pub proof fn lemma_qpa_decides(s: Seq<Task>, t: nat)
    requires
        valid_tasks(s),
    ensures
        qpa_verdict(s, t) == demand_within_time(s, t as int),
    decreases t,
{
    let ti = t as int;
    lemma_min_deadline_range(s);
    lemma_demand_nonneg(s, ti);
    if qpa_condition_holds(s, ti) {
        lemma_qpa_step_decreases(s, ti);
        let nt = qpa_next(s, ti);
        lemma_qpa_decides(s, nt as nat);
        if demand_within_time(s, nt) {
            assert forall|u: int| 0 <= u <= ti implies #[trigger] demand(s, u) <= u by {
                if u > nt {
                    if demand(s, ti) < ti {
                        lemma_demand_monotone(s, u, ti);
                    } else if u < ti {
                        lemma_dmax_below(s, ti);
                        lemma_demand_flat(s, ti, u);
                        assert(demand(s, nt) <= nt);
                    }
                }
            }
        }
    } else if demand(s, ti) > ti {
        assert(!(demand(s, ti) <= ti));
        if ti < min_deadline(s) {
            lemma_demand_zero_before_dmin(s, ti);
        }
    } else {
        assert forall|u: int| 0 <= u <= ti implies #[trigger] demand(s, u) <= u by {
            if u < min_deadline(s) {
                lemma_demand_zero_before_dmin(s, u);
            } else {
                lemma_demand_monotone(s, u, ti);
            }
        }
    }
}

/// Started at or beyond the busy-period bound Lb (the estimate the
/// busy-period iteration from the total worst-case execution time stops
/// at), the QPA verdict is the processor-demand criterion at every point:
/// every such start gives the same verdict.
pub proof fn lemma_qpa_from_busy_period(s: Seq<Task>, k: nat, t: nat)
    requires
        valid_tasks(s),
        lb_stops_at(s, 0, total_wcet_of(s), k),
        lb_iterate(s, total_wcet_of(s), k) <= t,
    ensures
        qpa_verdict(s, t) == demand_always_within_time(s),
{
    let l = lb_iterate(s, total_wcet_of(s), k);
    lemma_qpa_decides(s, t);
    // the estimates never fall below the total worst-case execution time
    lemma_lb_at_least_total(s, k);
    if l == 0 {
        // so the set requests no work
        assert forall|u: int| 0 <= u implies #[trigger] demand(s, u) <= u by {
            lemma_no_work(s, u);
        }
    } else {
        if k >= 1 {
            lemma_lb_fixpoint(s, 0, total_wcet_of(s), k);
        }
        if demand_within_time(s, t as int) {
            assert forall|u: int| 0 <= u implies #[trigger] demand(s, u) <= u by {
                lemma_no_miss_beyond(s, l, u);
            }
        }
    }
}

impl Tasklist {
    /// Whether the QPA loop goes on at `l`: `h(l) <= l && h(l) > dmin`.
    pub fn qpa_condition(&self, l: u64) -> (r: bool)
        ensures
            r == qpa_condition_holds(self@, l as int),
    {
        match self.pdf(l) {
            Some(h) => h <= l && h > self.dmin(),
            None => false,
        }
    }

    /// Quick processor-demand analysis started at `l` (typically the
    /// busy-period bound): true when the set is judged schedulable under EDF.
    pub fn qpa(&self, l: u64) -> (r: bool)
        ensures
            r == qpa_verdict(self@, l as nat),
    {
        let _ = self.len();
        let mut t = l;
        loop
            invariant
                valid_tasks(self@),
                qpa_verdict(self@, t as nat) == qpa_verdict(self@, l as nat),
            decreases t,
        {
            if self.qpa_condition(t) {
                let h = match self.pdf(t) {
                    Some(h) => h,
                    None => {
                        return false;
                    },
                };
                let next = if h < t {
                    h
                } else {
                    self.dmax(t)
                };
                proof {
                    lemma_qpa_step_decreases(self@, t as int);
                }
                t = next;
            } else {
                return match self.pdf(t) {
                    Some(h) => h <= self.dmin(),
                    None => {
                        proof {
                            lemma_min_deadline_range(self@);
                        }
                        false
                    },
                };
            }
        }
    }
}

} // verus!
