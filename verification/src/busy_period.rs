use vstd::prelude::*;
use vstd::arithmetic::div_mod::*;
use vstd::arithmetic::mul::*;
use crate::task::{Task, Tasklist, valid_tasks};
use crate::demand::{sum_tasks, total_wcet_of, wcet_term, demand, demand_term, demand_of,
    lemma_sum_tasks_step, lemma_sum_tasks_prefix, lemma_sum_tasks_monotone, lemma_sum_tasks_zero,
    lemma_sum_tasks_zero_term, lemma_sum_tasks_add};

verus! {

/// Number of jobs of a task released in [0, l): `ceil(l / period)` for `l` >= 0.
pub open spec fn jobs_released_before(t: Task, l: int) -> int {
    if l % (t.period as int) > 0 {
        l / (t.period as int) + 1
    } else {
        l / (t.period as int)
    }
}

/// Work requested by one task in [0, l): `ceil(l / period) * wcet`.
pub open spec fn workload_of(t: Task, l: int) -> int {
    jobs_released_before(t, l) * t.wcet
}

/// The workload of a task, as a term of a sum.
pub open spec fn workload_term(l: int) -> spec_fn(Task) -> int {
    |t: Task| workload_of(t, l)
}

/// Work requested by the whole set in [0, l): the next busy-period estimate
/// computed from the estimate `l`.
pub open spec fn workload(s: Seq<Task>, l: int) -> int {
    sum_tasks(s, workload_term(l))
}

/// The `k`-th busy-period estimate when the iteration starts from `l0`.
pub open spec fn lb_iterate(s: Seq<Task>, l0: int, k: nat) -> int
    decreases k,
{
    if k == 0 {
        l0
    } else {
        workload(s, lb_iterate(s, l0, (k - 1) as nat))
    }
}

/// The estimate that precedes the `k`-th one; `p0` before the first.
pub open spec fn lb_before(s: Seq<Task>, p0: int, l0: int, k: nat) -> int {
    if k == 0 {
        p0
    } else {
        lb_iterate(s, l0, (k - 1) as nat)
    }
}

/// The iteration started from (`p0`, `l0`) stops at step `k`: there, and not
/// before, an estimate equals its predecessor, and no estimate up to `k`
/// exceeds `u64::MAX`.
pub open spec fn lb_stops_at(s: Seq<Task>, p0: int, l0: int, k: nat) -> bool {
    &&& forall|j: nat| j <= k ==> #[trigger] lb_iterate(s, l0, j) <= u64::MAX
    &&& forall|j: nat| j < k ==> #[trigger] lb_before(s, p0, l0, j) != lb_iterate(s, l0, j)
    &&& lb_before(s, p0, l0, k) == lb_iterate(s, l0, k)
}

/// The iteration started from (`p0`, `l0`) has not stopped before step `k`,
/// and the estimate of step `k` exceeds `u64::MAX`.
pub open spec fn lb_overflows_at(s: Seq<Task>, p0: int, l0: int, k: nat) -> bool {
    &&& forall|j: nat| j < k ==> #[trigger] lb_iterate(s, l0, j) <= u64::MAX
    &&& forall|j: nat| j < k ==> #[trigger] lb_before(s, p0, l0, j) != lb_iterate(s, l0, j)
    &&& lb_iterate(s, l0, k) > u64::MAX
}

/// `ceil(l / period)` is nondecreasing in `l` and never negative for `l` >= 0.
pub proof fn lemma_jobs_released_monotone(t: Task, l1: int, l2: int)
    requires
        t.period > 0,
        0 <= l1 <= l2,
    ensures
        0 <= jobs_released_before(t, l1) <= jobs_released_before(t, l2),
{
    let p = t.period as int;
    lemma_div_is_ordered(l1, l2, p);
    lemma_div_pos_is_pos(l1, p);
    lemma_fundamental_div_mod(l1, p);
    lemma_fundamental_div_mod(l2, p);
    lemma_mod_bound(l1, p);
    lemma_mod_bound(l2, p);
    if l1 % p > 0 && l2 % p == 0 && l1 / p == l2 / p {
        assert(p * (l1 / p) == p * (l2 / p));
        assert(false);
    }
}

/// The workload of one task is nondecreasing in `l` and never negative for `l` >= 0.
pub proof fn lemma_workload_of_monotone(t: Task, l1: int, l2: int)
    requires
        t.period > 0,
        0 <= l1 <= l2,
    ensures
        0 <= workload_of(t, l1) <= workload_of(t, l2),
{
    lemma_jobs_released_monotone(t, l1, l2);
    lemma_mul_inequality(jobs_released_before(t, l1), jobs_released_before(t, l2), t.wcet as int);
    lemma_mul_nonnegative(jobs_released_before(t, l1), t.wcet as int);
}

/// The workload of a task set is nondecreasing in `l` and never negative for `l` >= 0.
pub proof fn lemma_workload_monotone(s: Seq<Task>, l1: int, l2: int)
    requires
        valid_tasks(s),
        0 <= l1 <= l2,
    ensures
        0 <= workload(s, l1) <= workload(s, l2),
{
    assert forall|j: int| 0 <= j < s.len() implies #[trigger] workload_term(l1)(s[j])
        <= workload_term(l2)(s[j]) && workload_term(l1)(s[j]) >= 0 by {
        lemma_workload_of_monotone(s[j], l1, l2);
    }
    lemma_sum_tasks_monotone(s, workload_term(l1), workload_term(l2));
    lemma_sum_tasks_prefix(s, workload_term(l1), 0);
}

/// Iterating from a nonnegative start never gives a negative estimate.
pub proof fn lemma_lb_iterate_nonneg(s: Seq<Task>, l0: int, k: nat)
    requires
        valid_tasks(s),
        l0 >= 0,
    ensures
        lb_iterate(s, l0, k) >= 0,
    decreases k,
{
    if k > 0 {
        lemma_lb_iterate_nonneg(s, l0, (k - 1) as nat);
        lemma_workload_monotone(s, lb_iterate(s, l0, (k - 1) as nat), lb_iterate(s, l0, (k - 1) as nat));
    }
}

/// When the iteration stops after at least one step, the estimate it
/// returns is a fixpoint of the workload.
pub proof fn lemma_lb_fixpoint(s: Seq<Task>, p0: int, l0: int, k: nat)
    requires
        lb_stops_at(s, p0, l0, k),
        k >= 1,
    ensures
        workload(s, lb_iterate(s, l0, k)) == lb_iterate(s, l0, k),
{
}

/// Started from the total worst-case execution time with no previous
/// estimate (0), the estimate the iteration stops at is a fixpoint of the
/// workload, and it is at most every `x` at or above the total worst-case
/// execution time with `workload(x) <= x`: it is the least such fixpoint.
pub proof fn lemma_lb_least_fixpoint(s: Seq<Task>, k: nat, x: int)
    requires
        valid_tasks(s),
        lb_stops_at(s, 0, total_wcet_of(s), k),
        total_wcet_of(s) <= x,
        workload(s, x) <= x,
    ensures
        workload(s, lb_iterate(s, total_wcet_of(s), k)) == lb_iterate(s, total_wcet_of(s), k),
        lb_iterate(s, total_wcet_of(s), k) <= x,
{
    let l0 = total_wcet_of(s);
    assert forall|j: int| 0 <= j < s.len() implies (#[trigger] wcet_term()(s[j])) >= 0 by {}
    lemma_sum_tasks_prefix(s, wcet_term(), 0);
    if k == 0 {
        // the first estimate equals the previous one (0): the set requests no work
        lemma_no_work(s, 0);
    }
    lemma_lb_iterate_below(s, l0, x, k);
}

/// A set whose total worst-case execution time is 0 requests no work and
/// has no demand at any point.
pub proof fn lemma_no_work(s: Seq<Task>, l: int)
    requires
        valid_tasks(s),
        total_wcet_of(s) == 0,
    ensures
        workload(s, l) == 0,
        demand(s, l) == 0,
{
    assert forall|j: int| 0 <= j < s.len() implies (#[trigger] wcet_term()(s[j])) >= 0 by {}
    assert forall|j: int| 0 <= j < s.len() implies #[trigger] workload_term(l)(s[j]) == 0 by {
        lemma_sum_tasks_zero_term(s, wcet_term(), j);
        lemma_mul_basics(jobs_released_before(s[j], l));
    }
    assert forall|j: int| 0 <= j < s.len() implies #[trigger] demand_term(l)(s[j]) == 0 by {
        lemma_sum_tasks_zero_term(s, wcet_term(), j);
        lemma_mul_basics((l - s[j].deadline) / (s[j].period as int) + 1);
    }
    lemma_sum_tasks_zero(s, workload_term(l));
    lemma_sum_tasks_zero(s, demand_term(l));
}

/// Every estimate of an iteration started at or below a post-fixpoint `x`
/// stays at or below `x`.
pub proof fn lemma_lb_iterate_below(s: Seq<Task>, l0: int, x: int, k: nat)
    requires
        valid_tasks(s),
        0 <= l0 <= x,
        workload(s, x) <= x,
    ensures
        lb_iterate(s, l0, k) <= x,
    decreases k,
{
    if k > 0 {
        lemma_lb_iterate_below(s, l0, x, (k - 1) as nat);
        lemma_lb_iterate_nonneg(s, l0, (k - 1) as nat);
        lemma_workload_monotone(s, lb_iterate(s, l0, (k - 1) as nat), x);
    }
}

/// At a positive estimate every task has released at least one job, so the
/// workload is at least the total worst-case execution time.
proof fn lemma_workload_at_least_total(s: Seq<Task>, l: int)
    requires
        valid_tasks(s),
        l > 0,
    ensures
        workload(s, l) >= total_wcet_of(s),
{
    assert forall|j: int| 0 <= j < s.len() implies #[trigger] wcet_term()(s[j])
        <= workload_term(l)(s[j]) by {
        let t = s[j];
        let p = t.period as int;
        assert(p > 0);
        lemma_fundamental_div_mod(l, p);
        lemma_mod_bound(l, p);
        lemma_div_pos_is_pos(l, p);
        if l % p == 0 && l / p == 0 {
            lemma_mul_basics(p);
        }
        assert(jobs_released_before(t, l) >= 1);
        lemma_mul_inequality(1, jobs_released_before(t, l), t.wcet as int);
    }
    lemma_sum_tasks_monotone(s, wcet_term(), workload_term(l));
}

/// Estimates started at a nonzero `l0` with `workload(l0) >= l0` never decrease.
proof fn lemma_lb_iterate_nondecreasing(s: Seq<Task>, l0: int, k: nat)
    requires
        valid_tasks(s),
        l0 >= 0,
        workload(s, l0) >= l0,
    ensures
        lb_iterate(s, l0, k) <= lb_iterate(s, l0, k + 1),
    decreases k,
{
    if k > 0 {
        lemma_lb_iterate_nondecreasing(s, l0, (k - 1) as nat);
        lemma_lb_iterate_nonneg(s, l0, (k - 1) as nat);
        lemma_workload_monotone(
            s,
            lb_iterate(s, l0, (k - 1) as nat),
            lb_iterate(s, l0, k),
        );
    }
}

/// Started from the total worst-case execution time, no estimate falls
/// below it.
pub proof fn lemma_lb_at_least_total(s: Seq<Task>, k: nat)
    requires
        valid_tasks(s),
    ensures
        lb_iterate(s, total_wcet_of(s), k) >= total_wcet_of(s),
        total_wcet_of(s) >= 0,
    decreases k,
{
    let l0 = total_wcet_of(s);
    assert forall|j: int| 0 <= j < s.len() implies (#[trigger] wcet_term()(s[j])) >= 0 by {}
    lemma_sum_tasks_prefix(s, wcet_term(), 0);
    if k > 0 {
        lemma_lb_at_least_total(s, (k - 1) as nat);
        if l0 > 0 {
            lemma_workload_at_least_total(s, lb_iterate(s, l0, (k - 1) as nat));
        } else {
            lemma_lb_iterate_nonneg(s, l0, k);
        }
    }
}

/// From step `k` on, with no stop before `k`, the iteration stops at some
/// step (the returned one) while its estimates rise towards `x`.
proof fn lemma_lb_reaches_stop(s: Seq<Task>, l0: int, x: int, k: nat) -> (m: nat)
    requires
        valid_tasks(s),
        0 < l0 <= x <= u64::MAX,
        workload(s, x) <= x,
        workload(s, l0) >= l0,
        k >= 1,
        forall|j: nat| j < k ==> #[trigger] lb_before(s, 0, l0, j) != lb_iterate(s, l0, j),
    ensures
        lb_stops_at(s, 0, l0, m),
    decreases x - lb_iterate(s, l0, (k - 1) as nat),
{
    lemma_lb_iterate_below(s, l0, x, (k - 1) as nat);
    lemma_lb_iterate_below(s, l0, x, k);
    assert forall|j: nat| j <= k implies #[trigger] lb_iterate(s, l0, j) <= u64::MAX by {
        lemma_lb_iterate_below(s, l0, x, j);
    }
    if lb_before(s, 0, l0, k) == lb_iterate(s, l0, k) {
        k
    } else {
        lemma_lb_iterate_nondecreasing(s, l0, (k - 1) as nat);
        assert(lb_iterate(s, l0, ((k + 1) - 1) as nat) == lb_iterate(s, l0, k));
        lemma_lb_reaches_stop(s, l0, x, k + 1)
    }
}

/// An iteration cannot both stop and overflow.
pub proof fn lemma_lb_outcomes_exclusive(s: Seq<Task>, p0: int, l0: int, m: nat, k: nat)
    requires
        lb_stops_at(s, p0, l0, m),
    ensures
        !lb_overflows_at(s, p0, l0, k),
{
    if lb_overflows_at(s, p0, l0, k) {
        if k <= m {
            assert(lb_iterate(s, l0, k) <= u64::MAX);
        } else {
            assert(lb_before(s, p0, l0, m) != lb_iterate(s, l0, m));
        }
    }
}

/// Convergence of the busy-period iteration from its usual start
/// (previous estimate 0, estimate the total worst-case execution time):
/// when some `x` at or above the total worst-case execution time and within
/// `u64` has `workload(x) <= x` (such as the hyperperiod when the
/// utilisation is at most 1), the iteration stops and never overflows, so
/// `lb` returns `Some`.
pub proof fn lemma_lb_converges(s: Seq<Task>, x: int)
    requires
        valid_tasks(s),
        total_wcet_of(s) <= x <= u64::MAX,
        workload(s, x) <= x,
    ensures
        exists|k: nat| #[trigger] lb_stops_at(s, 0, total_wcet_of(s), k),
        forall|k: nat| !(#[trigger] lb_overflows_at(s, 0, total_wcet_of(s), k)),
{
    let l0 = total_wcet_of(s);
    assert forall|j: int| 0 <= j < s.len() implies (#[trigger] wcet_term()(s[j])) >= 0 by {}
    lemma_sum_tasks_prefix(s, wcet_term(), 0);
    let m: nat = if l0 == 0 {
        assert(lb_stops_at(s, 0, l0, 0));
        0
    } else {
        lemma_workload_at_least_total(s, l0);
        assert(lb_before(s, 0, l0, 0) != lb_iterate(s, l0, 0));
        lemma_lb_reaches_stop(s, l0, x, 1)
    };
    assert(lb_stops_at(s, 0, l0, m));
    assert forall|k: nat| !(#[trigger] lb_overflows_at(s, 0, l0, k)) by {
        lemma_lb_outcomes_exclusive(s, 0, l0, m, k);
    }
}

/// The jobs of a task due by `t` are those released before `x`, at most
/// `ceil(x / period)` of them, and those released from `x` on, which are due
/// by `t - x` counted from `x`: their demand is at most the workload at `x`
/// plus the demand at `t - x`.
pub proof fn lemma_demand_of_shift(tk: Task, x: int, t: int)
    requires
        tk.period > 0,
        0 <= x,
    ensures
        demand_of(tk, t) <= workload_of(tk, x) + demand_of(tk, t - x),
{
    let p = tk.period as int;
    let c = jobs_released_before(tk, x);
    lemma_fundamental_div_mod(x, p);
    lemma_mod_bound(x, p);
    lemma_div_pos_is_pos(x, p);
    assert(c * p >= x && c >= 0) by (nonlinear_arith)
        requires
            x == p * (x / p) + x % p,
            0 <= x % p < p,
            x / p >= 0,
            c == (if x % p > 0 {
                x / p + 1
            } else {
                x / p
            }),
    ;
    let a = (t - tk.deadline) / p;
    let b = (t - x - tk.deadline) / p;
    lemma_hoist_over_denominator(t - x - tk.deadline, c, p as nat);
    lemma_div_is_ordered(t - tk.deadline, t - x - tk.deadline + c * p, p);
    assert(a <= b + c);
    let ja = if a + 1 < 0 {
        0
    } else {
        a + 1
    };
    let jb = if b + 1 < 0 {
        0
    } else {
        b + 1
    };
    assert(ja <= c + jb);
    let w = tk.wcet as int;
    assert(ja * w <= c * w + jb * w) by (nonlinear_arith)
        requires
            ja <= c + jb,
            w >= 0,
    ;
    lemma_mul_basics(w);
}

/// The demand at `t` is at most the workload at `x` plus the demand at `t - x`.
pub proof fn lemma_demand_shift(s: Seq<Task>, x: int, t: int)
    requires
        valid_tasks(s),
        0 <= x,
    ensures
        demand(s, t) <= workload(s, x) + demand(s, t - x),
{
    let g = |tk: Task| workload_of(tk, x) + demand_of(tk, t - x);
    assert forall|j: int| 0 <= j < s.len() implies #[trigger] demand_term(t)(s[j]) <= g(s[j]) by {
        lemma_demand_of_shift(s[j], x, t);
    }
    lemma_sum_tasks_monotone(s, demand_term(t), g);
    lemma_sum_tasks_add(s, workload_term(x), demand_term(t - x), g);
}

/// When the processor is busy up to a point `x` > 0 at most
/// (`workload(x) <= x`), a point where the demand exceeds the time lies in
/// [0, x] if anywhere: no demand in [0, x] exceeding the time means none at
/// any point.
pub proof fn lemma_no_miss_beyond(s: Seq<Task>, x: int, u: int)
    requires
        valid_tasks(s),
        x > 0,
        workload(s, x) <= x,
        forall|v: int| 0 <= v <= x ==> #[trigger] demand(s, v) <= v,
        u >= 0,
    ensures
        demand(s, u) <= u,
    decreases u,
{
    if u > x {
        lemma_no_miss_beyond(s, x, u - x);
        lemma_demand_shift(s, x, u);
    } else {
        assert(demand(s, u) <= u);
    }
}

/// The product of the periods: a common multiple of all of them (1 for no task).
pub open spec fn period_product(s: Seq<Task>) -> int
    decreases s.len(),
{
    if s.len() == 0 {
        1
    } else {
        period_product(s.drop_last()) * s.last().period
    }
}

/// `wcet * (h / period)`: the execution time a task requests in `h` when
/// its period divides `h`.
pub open spec fn scaled_utilization_term(h: int) -> spec_fn(Task) -> int {
    |t: Task| t.wcet * (h / (t.period as int))
}

/// The total utilisation `sum(wcet / period)` is at most 1, written without
/// fractions by multiplying through by the product of the periods.
pub open spec fn utilization_at_most_one(s: Seq<Task>) -> bool {
    sum_tasks(s, scaled_utilization_term(period_product(s))) <= period_product(s)
}

/// The product of positive periods is at least 1.
pub proof fn lemma_period_product_positive(s: Seq<Task>)
    requires
        valid_tasks(s),
    ensures
        period_product(s) >= 1,
    decreases s.len(),
{
    if s.len() > 0 {
        let r = s.drop_last();
        assert(valid_tasks(r)) by {
            assert forall|k: int| 0 <= k < r.len() implies #[trigger] r[k].period > 0 by {
                assert(r[k] == s[k]);
            }
        }
        lemma_period_product_positive(r);
        let p = s[s.len() - 1].period as int;
        assert(p >= 1);
        assert(period_product(r) * p >= 1) by (nonlinear_arith)
            requires
                period_product(r) >= 1,
                p >= 1,
        ;
    }
}

/// The product of the periods is a positive multiple of each period: the
/// returned cofactor.
pub proof fn lemma_period_product_multiple(s: Seq<Task>, i: int) -> (q: int)
    requires
        valid_tasks(s),
        0 <= i < s.len(),
    ensures
        q >= 1,
        period_product(s) == s[i].period * q,
    decreases s.len(),
{
    let r = s.drop_last();
    assert(valid_tasks(r)) by {
        assert forall|k: int| 0 <= k < r.len() implies #[trigger] r[k].period > 0 by {
            assert(r[k] == s[k]);
        }
    }
    let last = s[s.len() - 1];
    assert(last.period > 0);
    let hr = period_product(r);
    lemma_period_product_positive(r);
    if i == s.len() - 1 {
        lemma_mul_is_commutative(hr, last.period as int);
        hr
    } else {
        assert(r[i] == s[i]);
        let qr = lemma_period_product_multiple(r, i);
        assert(period_product(s) == s[i].period * (qr * last.period)) by (nonlinear_arith)
            requires
                period_product(s) == hr * last.period,
                hr == s[i].period * qr,
        ;
        assert(qr * last.period >= 1) by (nonlinear_arith)
            requires
                qr >= 1,
                last.period >= 1,
        ;
        qr * last.period
    }
}

/// Convergence of the busy-period iteration under total utilisation at most
/// 1: when the product of the periods fits in a `u64`, the iteration from
/// (0, total worst-case execution time) stops and never overflows, so `lb`
/// returns `Some`.
pub proof fn lemma_lb_converges_under_utilization(s: Seq<Task>)
    requires
        valid_tasks(s),
        utilization_at_most_one(s),
        period_product(s) <= u64::MAX,
    ensures
        exists|k: nat| #[trigger] lb_stops_at(s, 0, total_wcet_of(s), k),
        forall|k: nat| !(#[trigger] lb_overflows_at(s, 0, total_wcet_of(s), k)),
{
    let h = period_product(s);
    assert forall|j: int| 0 <= j < s.len() implies #[trigger] workload_term(h)(s[j])
        == scaled_utilization_term(h)(s[j]) && wcet_term()(s[j]) <= scaled_utilization_term(h)(
        s[j],
    ) by {
        let p = s[j].period as int;
        let q = lemma_period_product_multiple(s, j);
        lemma_mod_multiples_basic(q, p);
        lemma_mul_is_commutative(q, p);
        lemma_div_multiples_vanish(q, p);
        lemma_mul_is_commutative(q, s[j].wcet as int);
        lemma_mul_inequality(1, q, s[j].wcet as int);
    }
    lemma_sum_tasks_monotone(s, workload_term(h), scaled_utilization_term(h));
    lemma_sum_tasks_monotone(s, wcet_term(), scaled_utilization_term(h));
    lemma_lb_converges(s, h);
}

/// The workload of a task in [0, l) is `wcet` times the number `n` (the
/// returned value) of its jobs released before `l`: job `n - 1` is released
/// before `l`, job `n` at or after it.
pub proof fn lemma_workload_of_counts_releases(t: Task, l: int) -> (n: int)
    requires
        t.period > 0,
        l >= 0,
    ensures
        n >= 0,
        workload_of(t, l) == n * t.wcet,
        n > 0 ==> (n - 1) * t.period < l,
        n * t.period >= l,
{
    let p = t.period as int;
    let q = l / p;
    lemma_fundamental_div_mod(l, p);
    lemma_mod_bound(l, p);
    lemma_div_pos_is_pos(l, p);
    let n = jobs_released_before(t, l);
    assert(n >= 0 && (n > 0 ==> (n - 1) * p < l) && n * p >= l) by (nonlinear_arith)
        requires
            l == p * q + l % p,
            0 <= l % p < p,
            q >= 0,
            n == (if l % p > 0 {
                q + 1
            } else {
                q
            }),
            l >= 0,
    ;
    n
}

/// The estimates follow the workload: the first is the start `l0`, each
/// next one is the workload at the previous one.
pub proof fn lemma_lb_iterate_steps(s: Seq<Task>, l0: int, k: nat)
    ensures
        lb_iterate(s, l0, 0) == l0,
        lb_iterate(s, l0, k + 1) == workload(s, lb_iterate(s, l0, k)),
{
}

impl Tasklist {
    /// The next busy-period estimate from the estimate `l`:
    /// the sum over the tasks of `ceil(l / period) * wcet`;
    /// `None` when it does not fit in a `u64`.
    pub fn next_value(&self, l: u64) -> (r: Option<u64>)
        ensures
            match r {
                Some(v) => v == workload(self@, l as int),
                None => workload(self@, l as int) > u64::MAX,
            },
    {
        let n = self.len();
        let mut acc: u64 = 0;
        let mut i: usize = 0;
        assert forall|j: int| 0 <= j < self@.len() implies (#[trigger] workload_term(l as int)(self@[j]))
            >= 0 by {
            lemma_workload_of_monotone(self@[j], l as int, l as int);
        }
        while i < n
            invariant
                n == self@.len(),
                0 <= i <= n,
                acc == sum_tasks(self@.take(i as int), workload_term(l as int)),
                forall|j: int| 0 <= j < self@.len() ==> (#[trigger] workload_term(l as int)(self@[j])) >= 0,
            decreases n - i,
        {
            let t = self.get(i);
            let p = t.period as u64;
            let q = l / p;
            let jobs: u128 = if l % p > 0 {
                q as u128 + 1
            } else {
                q as u128
            };
            let w = t.wcet as u128;
            assert(jobs * w < 0x1_0000_0000_0000_0000_0000_0000u128) by (nonlinear_arith)
                requires
                    jobs <= 0x1_0000_0000_0000_0000u128,
                    w < 0x1_0000_0000u128,
            ;
            let v: u128 = jobs * w;
            proof {
                lemma_sum_tasks_step(self@, workload_term(l as int), i as int);
            }
            if v > u64::MAX as u128 {
                proof {
                    lemma_sum_tasks_prefix(self@, workload_term(l as int), i + 1);
                    lemma_sum_tasks_prefix(self@, workload_term(l as int), i as int);
                }
                return None;
            }
            match acc.checked_add(v as u64) {
                Some(a) => {
                    acc = a;
                },
                None => {
                    proof {
                        lemma_sum_tasks_prefix(self@, workload_term(l as int), i + 1);
                    }
                    return None;
                },
            }
            i += 1;
        }
        proof {
            assert(self@.take(n as int) =~= self@);
        }
        Some(acc)
    }

    /// Busy-period bound Lb: starting from the previous estimate `prev` and
    /// the estimate `l`, replaces (`prev`, `l`) by (`l`, `next_value(l)`)
    /// until an estimate equals its predecessor, and returns that estimate.
    /// `None` when an estimate does not fit in a `u64`. The usual start is
    /// `prev` = 0 and `l` = the total worst-case execution time.
    pub fn lb(&self, prev: u64, l: u64) -> (r: Option<u64>)
        ensures
            match r {
                Some(v) => exists|k: nat|
                    #[trigger] lb_stops_at(self@, prev as int, l as int, k) && v == lb_iterate(
                        self@,
                        l as int,
                        k,
                    ),
                None => exists|k: nat| #[trigger] lb_overflows_at(self@, prev as int, l as int, k),
            },
    {
        let ghost s = self@;
        let ghost p0 = prev as int;
        let ghost l0 = l as int;
        let _ = self.len();
        if prev == l {
            assert(lb_stops_at(s, p0, l0, 0));
            return Some(l);
        }
        assert(lb_iterate(s, l0, 0) == l0);
        let first = self.next_value(l);
        let mut cur: u64 = match first {
            Some(v) => v,
            None => {
                assert(lb_overflows_at(s, p0, l0, 1));
                return None;
            },
        };
        let mut before: u64 = l;
        let ghost up: bool = l <= cur;
        let ghost mut k: nat = 1;
        assert(lb_iterate(s, l0, 1) == cur);
        loop
            invariant
                s == self@,
                p0 == prev as int,
                l0 == l as int,
                valid_tasks(s),
                k >= 1,
                cur == lb_iterate(s, l0, k),
                before == lb_before(s, p0, l0, k),
                forall|j: nat| j <= k ==> #[trigger] lb_iterate(s, l0, j) <= u64::MAX,
                forall|j: nat| j < k ==> #[trigger] lb_before(s, p0, l0, j) != lb_iterate(s, l0, j),
                up ==> before <= cur,
                !up ==> cur <= before,
            decreases (if up {
                u64::MAX - cur
            } else {
                cur as int
            }),
                (if before == cur {
                    0int
                } else {
                    1int
                }),
        {
            if before == cur {
                assert(lb_stops_at(s, p0, l0, k));
                return Some(cur);
            }
            let next = self.next_value(cur);
            assert(lb_iterate(s, l0, k + 1) == workload(s, cur as int));
            match next {
                None => {
                    assert(lb_overflows_at(s, p0, l0, k + 1));
                    return None;
                },
                Some(v) => {
                    proof {
                        assert(cur == workload(s, before as int));
                        if up {
                            lemma_workload_monotone(s, before as int, cur as int);
                        } else {
                            lemma_workload_monotone(s, cur as int, before as int);
                        }
                        assert(lb_before(s, p0, l0, k + 1) == cur);
                        k = k + 1;
                    }
                    before = cur;
                    cur = v;
                },
            }
        }
    }
}

} // verus!
