use vstd::prelude::*;
use vstd::arithmetic::div_mod::*;
use vstd::arithmetic::mul::*;
use crate::task::{Task, Tasklist, valid_tasks};

verus! {

/// The minimum deadline reported for an empty task set.
pub const DEADLINE_BOUND: u64 = 1_000_000_000_000_000_000u64;

/// Sum of `f` over the tasks of `s`.
pub open spec fn sum_tasks(s: Seq<Task>, f: spec_fn(Task) -> int) -> int
    decreases s.len(),
{
    if s.len() == 0 {
        0
    } else {
        sum_tasks(s.drop_last(), f) + f(s.last())
    }
}

/// One more task of the prefix adds its own term.
pub proof fn lemma_sum_tasks_step(s: Seq<Task>, f: spec_fn(Task) -> int, i: int)
    requires
        0 <= i < s.len(),
    ensures
        sum_tasks(s.take(i + 1), f) == sum_tasks(s.take(i), f) + f(s[i]),
{
    assert(s.take(i + 1).drop_last() =~= s.take(i));
}

/// With nonnegative terms, a prefix sums to at most the whole.
pub proof fn lemma_sum_tasks_prefix(s: Seq<Task>, f: spec_fn(Task) -> int, i: int)
    requires
        0 <= i <= s.len(),
        forall|j: int| 0 <= j < s.len() ==> f(#[trigger] s[j]) >= 0,
    ensures
        0 <= sum_tasks(s.take(i), f) <= sum_tasks(s, f),
    decreases s.len(),
{
    if i == s.len() {
        assert(s.take(i) =~= s);
        if s.len() > 0 {
            let r = s.drop_last();
            assert forall|j: int| 0 <= j < r.len() implies f(#[trigger] r[j]) >= 0 by {
                assert(r[j] == s[j]);
            }
            lemma_sum_tasks_prefix(r, f, r.len() as int);
            assert(r.take(r.len() as int) =~= r);
            assert(f(s[s.len() - 1]) >= 0);
        }
    } else {
        let r = s.drop_last();
        assert forall|j: int| 0 <= j < r.len() implies f(#[trigger] r[j]) >= 0 by {
            assert(r[j] == s[j]);
        }
        lemma_sum_tasks_prefix(r, f, i);
        assert(r.take(i) =~= s.take(i));
        assert(f(s[s.len() - 1]) >= 0);
    }
}

/// Termwise smaller functions have a smaller sum.
pub proof fn lemma_sum_tasks_monotone(s: Seq<Task>, f: spec_fn(Task) -> int, g: spec_fn(Task) -> int)
    requires
        forall|j: int| 0 <= j < s.len() ==> f(#[trigger] s[j]) <= g(s[j]),
    ensures
        sum_tasks(s, f) <= sum_tasks(s, g),
    decreases s.len(),
{
    if s.len() > 0 {
        let r = s.drop_last();
        assert forall|j: int| 0 <= j < r.len() implies f(#[trigger] r[j]) <= g(r[j]) by {
            assert(r[j] == s[j]);
        }
        lemma_sum_tasks_monotone(r, f, g);
        assert(f(s[s.len() - 1]) <= g(s[s.len() - 1]));
    }
}

/// The worst-case execution time of a task, as a term of a sum.
pub open spec fn wcet_term() -> spec_fn(Task) -> int {
    |t: Task| t.wcet as int
}

/// Total worst-case execution time of a task sequence.
pub open spec fn total_wcet_of(s: Seq<Task>) -> int {
    sum_tasks(s, wcet_term())
}

/// Processor demand of one task over the interval [0, l]: one `wcet` for
/// each job released at `k * period` whose absolute deadline
/// `k * period + deadline` is at most `l`, that is
/// `max(0, floor((l - deadline) / period) + 1) * wcet`.
pub open spec fn demand_of(t: Task, l: int) -> int {
    let jobs = (l - t.deadline) / (t.period as int) + 1;
    if jobs < 0 {
        0
    } else {
        jobs * t.wcet
    }
}

/// The processor demand of a task, as a term of a sum.
pub open spec fn demand_term(l: int) -> spec_fn(Task) -> int {
    |t: Task| demand_of(t, l)
}

/// Processor demand function h(l) of a task sequence.
pub open spec fn demand(s: Seq<Task>, l: int) -> int {
    sum_tasks(s, demand_term(l))
}

/// Smallest relative deadline, or `DEADLINE_BOUND` for no task.
pub open spec fn min_deadline(s: Seq<Task>) -> int
    decreases s.len(),
{
    if s.len() == 0 {
        DEADLINE_BOUND as int
    } else {
        let m = min_deadline(s.drop_last());
        let d = s.last().deadline as int;
        if d < m {
            d
        } else {
            m
        }
    }
}

/// For a task whose deadline lies before `l`, the last absolute deadline
/// `deadline + k * period` strictly before `l`; 0 otherwise.
pub open spec fn last_deadline_before_of(t: Task, l: int) -> int {
    if (t.deadline as int) < l {
        let h = ((l - t.deadline) / (t.period as int)) * t.period + t.deadline;
        if h == l {
            h - t.period
        } else {
            h
        }
    } else {
        0
    }
}

/// The largest of the tasks' last absolute deadlines before `l` (0 for no task).
pub open spec fn last_deadline_before(s: Seq<Task>, l: int) -> int
    decreases s.len(),
{
    if s.len() == 0 {
        0
    } else {
        let m = last_deadline_before(s.drop_last(), l);
        let d = last_deadline_before_of(s.last(), l);
        if m < d {
            d
        } else {
            m
        }
    }
}

/// A negative numerator gives a negative floor quotient.
proof fn lemma_div_negative(a: int, b: int)
    requires
        a < 0,
        b > 0,
    ensures
        a / b < 0,
{
    lemma_fundamental_div_mod(a, b);
    lemma_mod_bound(a, b);
    if a / b >= 0 {
        lemma_mul_nonnegative(b, a / b);
    }
}

/// The demand of one task is never negative.
pub proof fn lemma_demand_of_nonneg(t: Task, l: int)
    ensures
        demand_of(t, l) >= 0,
{
    let jobs = (l - t.deadline) / (t.period as int) + 1;
    if jobs >= 0 {
        lemma_mul_nonnegative(jobs, t.wcet as int);
    }
}

/// Every term of the demand sum is nonnegative.
pub proof fn lemma_demand_terms_nonneg(s: Seq<Task>, l: int)
    ensures
        forall|j: int| 0 <= j < s.len() ==> (#[trigger] demand_term(l)(s[j])) >= 0,
{
    assert forall|j: int| 0 <= j < s.len() implies (#[trigger] demand_term(l)(s[j])) >= 0 by {
        lemma_demand_of_nonneg(s[j], l);
    }
}

/// The absolute deadline of job `j` of a task (job 0 is released at 0).
pub open spec fn abs_deadline(t: Task, j: int) -> int {
    t.deadline + j * t.period
}

/// For a task whose deadline lies before `l` (`l` > deadline), the value of
/// `last_deadline_before_of` is the absolute deadline of job `k` (the returned
/// `k`, at least 0), it lies strictly before `l`, and every
/// absolute deadline of the task strictly before `l` is at most it.
pub proof fn lemma_last_deadline_before_of(t: Task, l: int) -> (k: int)
    requires
        t.period > 0,
        (t.deadline as int) < l,
    ensures
        k >= 0,
        last_deadline_before_of(t, l) == abs_deadline(t, k),
        last_deadline_before_of(t, l) < l,
        forall|j: int|
            j >= 0 && #[trigger] abs_deadline(t, j) < l ==> abs_deadline(t, j)
                <= last_deadline_before_of(t, l),
{
    let p = t.period as int;
    let x = l - t.deadline;
    let q = x / p;
    let r = x % p;
    lemma_fundamental_div_mod(x, p);
    lemma_mod_bound(x, p);
    lemma_mul_is_commutative(q, p);
    assert(q >= 0) by (nonlinear_arith)
        requires
            x == p * q + r,
            0 <= r < p,
            x > 0,
    ;
    if r != 0 {
        assert forall|j: int| j >= 0 && #[trigger] abs_deadline(t, j) < l implies abs_deadline(t, j)
            <= last_deadline_before_of(t, l) by {
            assert(j * p <= q * p) by (nonlinear_arith)
                requires
                    j * p < x,
                    x == q * p + r,
                    r < p,
                    p > 0,
            ;
        }
        q
    } else {
        assert(q >= 1) by (nonlinear_arith)
            requires
                x == q * p,
                x > 0,
                p > 0,
        ;
        assert((q - 1) * p == q * p - p) by (nonlinear_arith);
        assert forall|j: int| j >= 0 && #[trigger] abs_deadline(t, j) < l implies abs_deadline(t, j)
            <= last_deadline_before_of(t, l) by {
            assert(j * p <= (q - 1) * p) by (nonlinear_arith)
                requires
                    j * p < x,
                    x == q * p,
                    p > 0,
            ;
        }
        q - 1
    }
}

/// For `l` > 0, the largest absolute deadline before `l` lies in [0, l).
pub proof fn lemma_dmax_below(s: Seq<Task>, l: int)
    requires
        valid_tasks(s),
        l > 0,
    ensures
        0 <= last_deadline_before(s, l) < l,
    decreases s.len(),
{
    if s.len() > 0 {
        let r = s.drop_last();
        assert(valid_tasks(r)) by {
            assert forall|i: int| 0 <= i < r.len() implies #[trigger] r[i].period > 0 by {
                assert(r[i] == s[i]);
            }
        }
        lemma_dmax_below(r, l);
        let t = s[s.len() - 1];
        assert(t.period > 0);
        if (t.deadline as int) < l {
            let _ = lemma_last_deadline_before_of(t, l);
        }
    }
}

/// Every absolute deadline of a task of the set that
/// lies strictly before `l` is at most the value of `dmax`.
pub proof fn lemma_dmax_upper_bound(s: Seq<Task>, l: int, i: int, j: int)
    requires
        valid_tasks(s),
        0 <= i < s.len(),
        j >= 0,
        abs_deadline(s[i], j) < l,
    ensures
        abs_deadline(s[i], j) <= last_deadline_before(s, l),
    decreases s.len(),
{
    let r = s.drop_last();
    assert(valid_tasks(r)) by {
        assert forall|k: int| 0 <= k < r.len() implies #[trigger] r[k].period > 0 by {
            assert(r[k] == s[k]);
        }
    }
    assert(j * s[i].period >= 0) by (nonlinear_arith)
        requires
            j >= 0,
            s[i].period > 0,
    ;
    if i == s.len() - 1 {
        let _ = lemma_last_deadline_before_of(s[i], l);
    } else {
        assert(r[i] == s[i]);
        lemma_dmax_upper_bound(r, l, i, j);
    }
}

/// A positive value of `dmax` is the absolute deadline of job `w.1` (at least 0)
/// of the task at the returned position `w.0`.
pub proof fn lemma_dmax_attained(s: Seq<Task>, l: int) -> (w: (int, int))
    requires
        valid_tasks(s),
        last_deadline_before(s, l) > 0,
    ensures
        0 <= w.0 < s.len(),
        w.1 >= 0,
        last_deadline_before(s, l) == abs_deadline(s[w.0], w.1),
        last_deadline_before(s, l) < l,
    decreases s.len(),
{
    let r = s.drop_last();
    assert(valid_tasks(r)) by {
        assert forall|k: int| 0 <= k < r.len() implies #[trigger] r[k].period > 0 by {
            assert(r[k] == s[k]);
        }
    }
    let t = s[s.len() - 1];
    let m = last_deadline_before(r, l);
    let d = last_deadline_before_of(t, l);
    if m < d {
        assert((t.deadline as int) < l);
        let k = lemma_last_deadline_before_of(t, l);
        (s.len() - 1, k)
    } else {
        let w = lemma_dmax_attained(r, l);
        assert(r[w.0] == s[w.0]);
        w
    }
}

/// The demand of one task is nondecreasing in `l`.
pub proof fn lemma_demand_of_monotone(t: Task, l1: int, l2: int)
    requires
        t.period > 0,
        l1 <= l2,
    ensures
        demand_of(t, l1) <= demand_of(t, l2),
{
    let p = t.period as int;
    lemma_div_is_ordered(l1 - t.deadline, l2 - t.deadline, p);
    let j1 = (l1 - t.deadline) / p + 1;
    let j2 = (l2 - t.deadline) / p + 1;
    lemma_demand_of_nonneg(t, l2);
    if j1 >= 0 {
        lemma_mul_inequality(j1, j2, t.wcet as int);
    }
}

/// The processor demand function h is nondecreasing.
pub proof fn lemma_demand_monotone(s: Seq<Task>, l1: int, l2: int)
    requires
        valid_tasks(s),
        l1 <= l2,
    ensures
        demand(s, l1) <= demand(s, l2),
{
    assert forall|j: int| 0 <= j < s.len() implies #[trigger] demand_term(l1)(s[j])
        <= demand_term(l2)(s[j]) by {
        lemma_demand_of_monotone(s[j], l1, l2);
    }
    lemma_sum_tasks_monotone(s, demand_term(l1), demand_term(l2));
}

/// Sums are additive in the summed function.
pub proof fn lemma_sum_tasks_add(
    s: Seq<Task>,
    f: spec_fn(Task) -> int,
    g: spec_fn(Task) -> int,
    h: spec_fn(Task) -> int,
)
    requires
        forall|t: Task| #[trigger] h(t) == f(t) + g(t),
    ensures
        sum_tasks(s, h) == sum_tasks(s, f) + sum_tasks(s, g),
    decreases s.len(),
{
    if s.len() > 0 {
        lemma_sum_tasks_add(s.drop_last(), f, g, h);
        assert(h(s.last()) == f(s.last()) + g(s.last()));
    }
}

/// A sum whose terms are all 0 is 0.
pub proof fn lemma_sum_tasks_zero(s: Seq<Task>, f: spec_fn(Task) -> int)
    requires
        forall|j: int| 0 <= j < s.len() ==> #[trigger] f(s[j]) == 0,
    ensures
        sum_tasks(s, f) == 0,
    decreases s.len(),
{
    if s.len() > 0 {
        let r = s.drop_last();
        assert forall|j: int| 0 <= j < r.len() implies #[trigger] f(r[j]) == 0 by {
            assert(r[j] == s[j]);
        }
        lemma_sum_tasks_zero(r, f);
        assert(f(s[s.len() - 1]) == 0);
    }
}

/// With nonnegative terms summing to 0, each term is 0.
pub proof fn lemma_sum_tasks_zero_term(s: Seq<Task>, f: spec_fn(Task) -> int, j: int)
    requires
        0 <= j < s.len(),
        forall|i: int| 0 <= i < s.len() ==> #[trigger] f(s[i]) >= 0,
        sum_tasks(s, f) == 0,
    ensures
        f(s[j]) == 0,
    decreases s.len(),
{
    let r = s.drop_last();
    assert forall|i: int| 0 <= i < r.len() implies #[trigger] f(r[i]) >= 0 by {
        assert(r[i] == s[i]);
    }
    lemma_sum_tasks_prefix(r, f, 0);
    assert(r.take(0) =~= Seq::<Task>::empty());
    assert(f(s[s.len() - 1]) >= 0);
    if j < s.len() - 1 {
        assert(r[j] == s[j]);
        lemma_sum_tasks_zero_term(r, f, j);
    }
}

/// No task's deadline is smaller than `min_deadline`.
pub proof fn lemma_min_deadline_le(s: Seq<Task>, i: int)
    requires
        0 <= i < s.len(),
    ensures
        min_deadline(s) <= s[i].deadline,
    decreases s.len(),
{
    if i < s.len() - 1 {
        let r = s.drop_last();
        assert(r[i] == s[i]);
        lemma_min_deadline_le(r, i);
    }
}

/// Before the smallest deadline no job is due: the demand is 0.
pub proof fn lemma_demand_zero_before_dmin(s: Seq<Task>, u: int)
    requires
        valid_tasks(s),
        u < min_deadline(s),
    ensures
        demand(s, u) == 0,
{
    assert forall|j: int| 0 <= j < s.len() implies #[trigger] demand_term(u)(s[j]) == 0 by {
        lemma_min_deadline_le(s, j);
        lemma_div_negative(u - s[j].deadline, s[j].period as int);
        lemma_mul_basics(s[j].wcet as int);
    }
    lemma_sum_tasks_zero(s, demand_term(u));
}

/// No absolute deadline lies in (dmax(t), t): the demand is the same at
/// every point of [dmax(t), t).
pub proof fn lemma_demand_flat(s: Seq<Task>, t: int, u: int)
    requires
        valid_tasks(s),
        last_deadline_before(s, t) <= u < t,
    ensures
        demand(s, u) == demand(s, last_deadline_before(s, t)),
{
    let m = last_deadline_before(s, t);
    assert forall|j: int| 0 <= j < s.len() implies #[trigger] demand_term(u)(s[j])
        == demand_term(m)(s[j]) by {
        let tk = s[j];
        let p = tk.period as int;
        assert(p > 0);
        let k = (u - tk.deadline) / p;
        let km = (m - tk.deadline) / p;
        lemma_div_is_ordered(m - tk.deadline, u - tk.deadline, p);
        if k >= 0 {
            lemma_fundamental_div_mod(u - tk.deadline, p);
            lemma_mod_bound(u - tk.deadline, p);
            assert(k * p <= u - tk.deadline) by (nonlinear_arith)
                requires
                    u - tk.deadline == p * k + (u - tk.deadline) % p,
                    (u - tk.deadline) % p >= 0,
            ;
            assert(abs_deadline(tk, k) < t);
            lemma_dmax_upper_bound(s, t, j, k);
            lemma_div_is_ordered(k * p, m - tk.deadline, p);
            lemma_div_multiples_vanish(k, p);
            lemma_mul_is_commutative(k, p);
        } else {
            lemma_mul_basics(tk.wcet as int);
        }
    }
    lemma_sum_tasks_monotone(s, demand_term(u), demand_term(m));
    lemma_sum_tasks_monotone(s, demand_term(m), demand_term(u));
}

/// A sum over no task is 0, and appending a task adds its term.
pub proof fn lemma_sum_tasks_push(s: Seq<Task>, f: spec_fn(Task) -> int, t: Task)
    ensures
        sum_tasks(Seq::<Task>::empty(), f) == 0,
        sum_tasks(s.push(t), f) == sum_tasks(s, f) + f(t),
{
    assert(s.push(t).drop_last() =~= s);
}

/// The total worst-case execution time is the plain sum of the `wcet`
/// fields: 0 for no task, and appending a task adds its `wcet`.
pub proof fn lemma_total_wcet_push(s: Seq<Task>, t: Task)
    ensures
        total_wcet_of(Seq::<Task>::empty()) == 0,
        total_wcet_of(s.push(t)) == total_wcet_of(s) + t.wcet,
{
    lemma_sum_tasks_push(s, wcet_term(), t);
}

/// The demand of a task over [0, l] is `wcet` times the number `n` (the
/// returned value) of its jobs due by `l`: the absolute deadlines of jobs
/// 0 .. n-1 are at most `l`, that of job `n` is after `l`.
pub proof fn lemma_demand_of_counts_jobs(t: Task, l: int) -> (n: int)
    requires
        t.period > 0,
    ensures
        n >= 0,
        demand_of(t, l) == n * t.wcet,
        n > 0 ==> abs_deadline(t, n - 1) <= l,
        abs_deadline(t, n) > l,
{
    let p = t.period as int;
    let x = l - t.deadline;
    let q = x / p;
    lemma_fundamental_div_mod(x, p);
    lemma_mod_bound(x, p);
    lemma_mul_is_commutative(q, p);
    assert((q + 1) * p > x && q * p <= x) by (nonlinear_arith)
        requires
            x == p * q + x % p,
            0 <= x % p < p,
    ;
    if q + 1 < 0 {
        assert(q * p < 0 && x < 0) by (nonlinear_arith)
            requires
                q + 1 < 0,
                p > 0,
                q * p <= x,
                x == p * q + x % p,
                x % p < p,
        ;
        lemma_mul_basics(t.wcet as int);
        lemma_mul_basics(p);
        0
    } else {
        assert(abs_deadline(t, q + 1) == t.deadline + (q + 1) * p);
        q + 1
    }
}

/// The smallest deadline is the relative deadline of some task (and no
/// task has a smaller one, see `lemma_min_deadline_le`); with no task it is
/// 10^18.
pub proof fn lemma_min_deadline_attained(s: Seq<Task>) -> (i: int)
    ensures
        s.len() == 0 ==> min_deadline(s) == 1_000_000_000_000_000_000,
        s.len() > 0 ==> 0 <= i < s.len() && min_deadline(s) == s[i].deadline,
    decreases s.len(),
{
    if s.len() == 0 {
        0
    } else {
        let r = s.drop_last();
        let w = lemma_min_deadline_attained(r);
        if r.len() > 0 {
            assert(r[w] == s[w]);
        }
        if r.len() == 0 || s.last().deadline < min_deadline(r) {
            s.len() - 1
        } else {
            w
        }
    }
}

impl Tasklist {
    /// Total worst-case execution time of the set; `None` when it does not fit in a `u64`.
    pub fn total_wcet(&self) -> (r: Option<u64>)
        ensures
            match r {
                Some(v) => v == total_wcet_of(self@),
                None => total_wcet_of(self@) > u64::MAX,
            },
    {
        let n = self.len();
        let mut acc: u64 = 0;
        let mut i: usize = 0;
        while i < n
            invariant
                n == self@.len(),
                0 <= i <= n,
                acc == sum_tasks(self@.take(i as int), wcet_term()),
            decreases n - i,
        {
            let t = self.get(i);
            proof {
                lemma_sum_tasks_step(self@, wcet_term(), i as int);
            }
            match acc.checked_add(t.wcet as u64) {
                Some(a) => {
                    acc = a;
                },
                None => {
                    proof {
                        lemma_sum_tasks_prefix(self@, wcet_term(), i + 1);
                    }
                    return None;
                },
            }
            i += 1;
        }
        proof {
            assert(self@.take(n as int) =~= self@);
        }
        Some(acc)
    }

    /// Processor demand of the task at `index` over [0, l];
    /// `None` when it does not fit in a `u64`.
    pub fn pdf_value(&self, index: usize, l: u64) -> (r: Option<u64>)
        requires
            index < self@.len(),
        ensures
            match r {
                Some(v) => v == demand_of(self@[index as int], l as int),
                None => demand_of(self@[index as int], l as int) > u64::MAX,
            },
    {
        let t = self.get(index);
        let d = t.deadline as u64;
        let p = t.period as u64;
        if l < d {
            proof {
                lemma_div_negative(l - d, p as int);
            }
            return Some(0);
        }
        let q = (l - d) / p;
        let jobs: u128 = q as u128 + 1;
        let w = t.wcet as u128;
        assert(jobs * w < 0x1_0000_0000_0000_0000_0000_0000u128) by (nonlinear_arith)
            requires
                jobs <= 0x1_0000_0000_0000_0000u128,
                w < 0x1_0000_0000u128,
        ;
        let v: u128 = jobs * w;
        if v <= u64::MAX as u128 {
            Some(v as u64)
        } else {
            None
        }
    }

    /// Processor demand function h(l) of the whole set;
    /// `None` when it does not fit in a `u64`.
    pub fn pdf(&self, l: u64) -> (r: Option<u64>)
        ensures
            match r {
                Some(v) => v == demand(self@, l as int),
                None => demand(self@, l as int) > u64::MAX,
            },
    {
        let n = self.len();
        let mut acc: u64 = 0;
        let mut i: usize = 0;
        proof {
            lemma_demand_terms_nonneg(self@, l as int);
        }
        while i < n
            invariant
                n == self@.len(),
                0 <= i <= n,
                acc == sum_tasks(self@.take(i as int), demand_term(l as int)),
                forall|j: int| 0 <= j < self@.len() ==> (#[trigger] demand_term(l as int)(self@[j])) >= 0,
            decreases n - i,
        {
            proof {
                lemma_sum_tasks_step(self@, demand_term(l as int), i as int);
            }
            match self.pdf_value(i, l) {
                Some(v) => match acc.checked_add(v) {
                    Some(a) => {
                        acc = a;
                    },
                    None => {
                        proof {
                            lemma_sum_tasks_prefix(self@, demand_term(l as int), i + 1);
                        }
                        return None;
                    },
                },
                None => {
                    proof {
                        lemma_sum_tasks_prefix(self@, demand_term(l as int), i + 1);
                        lemma_sum_tasks_prefix(self@, demand_term(l as int), i as int);
                    }
                    return None;
                },
            }
            i += 1;
        }
        proof {
            assert(self@.take(n as int) =~= self@);
        }
        Some(acc)
    }

    /// Smallest relative deadline of the set (`DEADLINE_BOUND` when empty).
    pub fn dmin(&self) -> (r: u64)
        ensures
            r == min_deadline(self@),
    {
        let n = self.len();
        let mut m: u64 = DEADLINE_BOUND;
        let mut i: usize = 0;
        while i < n
            invariant
                n == self@.len(),
                0 <= i <= n,
                m == min_deadline(self@.take(i as int)),
            decreases n - i,
        {
            let t = self.get(i);
            proof {
                assert(self@.take(i + 1).drop_last() =~= self@.take(i as int));
            }
            if (t.deadline as u64) < m {
                m = t.deadline as u64;
            }
            i += 1;
        }
        proof {
            assert(self@.take(n as int) =~= self@);
        }
        m
    }

    /// The largest absolute deadline of the set strictly before `l`
    /// (0 when no task has one).
    pub fn dmax(&self, l: u64) -> (r: u64)
        ensures
            r == last_deadline_before(self@, l as int),
    {
        let n = self.len();
        let mut m: u64 = 0;
        let mut i: usize = 0;
        while i < n
            invariant
                n == self@.len(),
                0 <= i <= n,
                m == last_deadline_before(self@.take(i as int), l as int),
            decreases n - i,
        {
            let t = self.get(i);
            let d = t.deadline as u64;
            let p = t.period as u64;
            let term: u64 = if d < l {
                let q = (l - d) / p;
                proof {
                    lemma_fundamental_div_mod((l - d) as int, p as int);
                    lemma_mod_bound((l - d) as int, p as int);
                    lemma_mul_is_commutative(q as int, p as int);
                }
                let h = q * p + d;
                if h == l {
                    proof {
                        if q == 0 {
                            lemma_mul_basics(p as int);
                        }
                        lemma_mul_inequality(1, q as int, p as int);
                    }
                    h - p
                } else {
                    h
                }
            } else {
                0
            };
            proof {
                assert(self@.take(i + 1).drop_last() =~= self@.take(i as int));
            }
            if m < term {
                m = term;
            }
            i += 1;
        }
        proof {
            assert(self@.take(n as int) =~= self@);
        }
        m
    }
}

} // verus!
