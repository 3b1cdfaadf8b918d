use vstd::prelude::*;
use crate::task::{Task, Tasklist};

verus! {

/// The largest `deadline - period` of the set; `i32::MIN` for no task.
pub open spec fn max_delta_of(s: Seq<Task>) -> int
    decreases s.len(),
{
    if s.len() == 0 {
        i32::MIN as int
    } else {
        let m = max_delta_of(s.drop_last());
        let d = s.last().deadline - s.last().period;
        if d > m {
            d
        } else {
            m
        }
    }
}

/// The La* bound from the largest `deadline - period` and the utilisation
/// term: unbounded (`i64::MAX`) when the utilisation reaches 1 (`None`),
/// otherwise the larger of the two.
pub open spec fn lastar_of(s: Seq<Task>, utilization_bound: Option<i64>) -> int {
    match utilization_bound {
        None => i64::MAX as int,
        Some(b) => if max_delta_of(s) > b {
            max_delta_of(s)
        } else {
            b as int
        },
    }
}

/// `max_delta_of` is at least `i32::MIN` and at least every task's
/// `deadline - period`; above `i32::MIN` it is the `deadline - period` of the
/// task at the returned position.
pub proof fn lemma_max_delta_is_max(s: Seq<Task>) -> (w: int)
    ensures
        max_delta_of(s) >= i32::MIN,
        forall|i: int| 0 <= i < s.len() ==> #[trigger] s[i].deadline - s[i].period <= max_delta_of(s),
        max_delta_of(s) > i32::MIN ==> 0 <= w < s.len() && max_delta_of(s) == s[w].deadline
            - s[w].period,
    decreases s.len(),
{
    if s.len() == 0 {
        0
    } else {
        let r = s.drop_last();
        let last = s.len() - 1;
        let w = lemma_max_delta_is_max(r);
        assert forall|i: int| 0 <= i < s.len() implies #[trigger] s[i].deadline - s[i].period
            <= max_delta_of(s) by {
            if i < last {
                assert(r[i] == s[i]);
            }
        }
        if s[last].deadline - s[last].period > max_delta_of(r) {
            last
        } else {
            if max_delta_of(r) > i32::MIN {
                assert(r[w] == s[w]);
            }
            w
        }
    }
}

/// La* with a utilisation term `b` is the larger of `b` and the largest
/// `deadline - period`; with no term (utilisation at least 1) it is `i64::MAX`.
pub proof fn lemma_lastar_is_max(s: Seq<Task>, b: i64)
    ensures
        lastar_of(s, Some(b)) >= max_delta_of(s),
        lastar_of(s, Some(b)) >= b,
        lastar_of(s, Some(b)) == max_delta_of(s) || lastar_of(s, Some(b)) == b,
        lastar_of(s, None) == 0x7fff_ffff_ffff_ffff,
{
}

impl Tasklist {
    /// The largest `deadline - period` over the set (`i32::MIN` when empty).
    pub fn max_delta(&self) -> (r: i64)
        ensures
            r == max_delta_of(self@),
    {
        let n = self.len();
        let mut m: i64 = i32::MIN as i64;
        let mut i: usize = 0;
        while i < n
            invariant
                n == self@.len(),
                0 <= i <= n,
                m == max_delta_of(self@.take(i as int)),
            decreases n - i,
        {
            let t = self.get(i);
            let d: i64 = t.deadline as i64 - t.period as i64;
            proof {
                assert(self@.take(i + 1).drop_last() =~= self@.take(i as int));
            }
            if d > m {
                m = d;
            }
            i += 1;
        }
        proof {
            assert(self@.take(n as int) =~= self@);
        }
        m
    }

    /// La*, the bound on the analysis interval: `i64::MAX` when the total
    /// utilisation reaches 1 (`utilization_bound` is `None`), otherwise the
    /// larger of `max_delta` and `utilization_bound`, the utilisation term
    /// `sum((period - deadline) * wcet / period) / (1 - utilisation)`
    /// truncated to an integer.
    pub fn lastar(&self, utilization_bound: Option<i64>) -> (r: i64)
        ensures
            r == lastar_of(self@, utilization_bound),
    {
        match utilization_bound {
            None => i64::MAX,
            Some(b) => {
                let m = self.max_delta();
                if m > b {
                    m
                } else {
                    b
                }
            },
        }
    }
}

} // verus!
