use rt_analysis::demand::DEADLINE_BOUND;
use rt_analysis::dispatcher::Dispatcher;
use rt_analysis::task::{Task, Tasklist};

fn taskset(tasks: &[Task]) -> Tasklist {
    let mut set = Tasklist::new();
    for t in tasks {
        set.push(*t);
    }
    set
}

fn example() -> Tasklist {
    taskset(&[
        Task { wcet: 5, deadline: 10, period: 15 },
        Task { wcet: 7, deadline: 12, period: 14 },
    ])
}

#[test]
fn pdf_value_per_task() {
    let set = example();
    // before the first deadline no job counts
    assert_eq!(set.pdf_value(0, 9), Some(0));
    assert_eq!(set.pdf_value(0, 10), Some(5));
    // floor((100 - 10) / 15) + 1 = 7 jobs of 5
    assert_eq!(set.pdf_value(0, 100), Some(35));
    // floor((100 - 12) / 14) + 1 = 7 jobs of 7
    assert_eq!(set.pdf_value(1, 100), Some(49));
}

#[test]
fn pdf_sums_the_tasks() {
    let set = example();
    assert_eq!(set.pdf(100), Some(84));
    assert_eq!(set.pdf(0), Some(0));
    assert_eq!(Tasklist::new().pdf(1000), Some(0));
}

#[test]
fn pdf_is_nondecreasing() {
    let set = example();
    let mut last = 0;
    for t in 0..200u64 {
        let h = set.pdf(t).unwrap();
        assert!(h >= last);
        last = h;
    }
}

#[test]
fn pdf_overflow() {
    let big = taskset(&[Task { wcet: 2, deadline: 0, period: 1 }]);
    assert_eq!(big.pdf_value(0, u64::MAX), None);
    assert_eq!(big.pdf(u64::MAX), None);
    let two = taskset(&[
        Task { wcet: 1, deadline: 0, period: 1 },
        Task { wcet: 1, deadline: 0, period: 1 },
    ]);
    assert_eq!(two.pdf(u64::MAX - 1), None);
    assert_eq!(two.pdf(u64::MAX / 2 - 1), Some(u64::MAX - 1));
}

#[test]
fn total_wcet_and_dmin() {
    let set = example();
    assert_eq!(set.total_wcet(), Some(12));
    assert_eq!(set.dmin(), 10);
    assert_eq!(Tasklist::new().total_wcet(), Some(0));
    assert_eq!(Tasklist::new().dmin(), DEADLINE_BOUND);
    assert_eq!(DEADLINE_BOUND, 1_000_000_000_000_000_000);
}

#[test]
fn dmax_is_last_deadline_before() {
    let set = example();
    // deadlines of task 1: 10, 25, 40, ...; of task 2: 12, 26, 40, ...
    assert_eq!(set.dmax(40), 26);
    assert_eq!(set.dmax(41), 40);
    assert_eq!(set.dmax(11), 10);
    assert_eq!(set.dmax(10), 0);
    assert_eq!(set.dmax(100), 96);
    assert_eq!(Tasklist::new().dmax(100), 0);
}

#[test]
fn next_value_is_workload() {
    let set = example();
    // ceil(12 / 15) * 5 + ceil(12 / 14) * 7
    assert_eq!(set.next_value(12), Some(12));
    // ceil(1000 / 15) * 5 + ceil(1000 / 14) * 7 = 67 * 5 + 72 * 7
    assert_eq!(set.next_value(1000), Some(839));
    assert_eq!(set.next_value(0), Some(0));
    let heavy = taskset(&[Task { wcet: u32::MAX, deadline: 1, period: 1 }]);
    assert_eq!(heavy.next_value(u64::MAX), None);
}

#[test]
fn lb_fixpoint_and_other_starts() {
    let set = example();
    let lb = set.lb(0, 12).unwrap();
    assert_eq!(lb, 12);
    assert_eq!(set.next_value(lb), Some(lb));
    // equal start values stop at once
    assert_eq!(set.lb(7, 7), Some(7));
    // starting above, the estimates decrease to a fixpoint
    let down = set.lb(0, 1000).unwrap();
    assert_eq!(down, 48);
    assert_eq!(set.next_value(down), Some(down));
    // an empty set requests no work
    assert_eq!(Tasklist::new().lb(0, 0), Some(0));
}

#[test]
fn lb_overflow_when_overloaded() {
    // utilisation 3/2: the estimates grow until they overflow
    let overloaded = taskset(&[Task { wcet: 3, deadline: 2, period: 2 }]);
    assert_eq!(overloaded.lb(0, 3), None);
}

#[test]
fn qpa_condition_values() {
    let set = example();
    assert!(set.qpa_condition(100));
    assert!(set.qpa_condition(200));
    assert!(set.qpa_condition(12));
    assert!(!set.qpa_condition(10));
    assert!(!set.qpa_condition(0));
}

#[test]
fn qpa_verdicts() {
    let set = example();
    assert!(set.qpa(12));
    assert!(set.qpa(100));
    // overloaded at the first deadline: 11 units of work are due by 10
    let late = taskset(&[
        Task { wcet: 6, deadline: 10, period: 20 },
        Task { wcet: 5, deadline: 10, period: 20 },
    ]);
    assert!(!late.qpa(10));
    assert!(!late.qpa(100));
    assert!(Tasklist::new().qpa(100));
}

#[test]
fn max_delta_and_lastar() {
    let set = example();
    // deadline - period: 10 - 15 = -5 and 12 - 14 = -2
    assert_eq!(set.max_delta(), -2);
    assert_eq!(Tasklist::new().max_delta(), i32::MIN as i64);
    assert_eq!(set.lastar(None), i64::MAX);
    assert_eq!(set.lastar(Some(-10)), -2);
    assert_eq!(set.lastar(Some(30)), 30);
    let wide = taskset(&[Task { wcet: 1, deadline: u32::MAX, period: 1 }]);
    assert_eq!(wide.max_delta(), u32::MAX as i64 - 1);
}

#[test]
fn dispatch_plan() {
    let set = example();
    let params = Dispatcher::dispatch(&set);
    assert_eq!(params.len(), 2);
    assert_eq!((params[0].wcet, params[0].deadline, params[0].period), (5, 10, 15));
    assert_eq!((params[1].wcet, params[1].deadline, params[1].period), (7, 12, 14));
    assert_eq!(params[0].to_nanoseconds(), (5_000_000, 10_000_000, 15_000_000));
    let max = rt_analysis::dispatcher::TaskParams { wcet: u32::MAX, deadline: 0, period: 1 };
    assert_eq!(max.to_nanoseconds(), (u32::MAX as u64 * 1_000_000, 0, 1_000_000));
    assert!(Dispatcher::dispatch(&Tasklist::new()).is_empty());
}

#[test]
fn task_list_access() {
    let set = example();
    assert_eq!(set.len(), 2);
    assert_eq!(set.get(1).wcet, 7);
    assert_eq!(set.get(0).period, 15);
}

#[test]
fn qpa_same_verdict_from_both_bounds() {
    let set = taskset(&[
        Task { wcet: 6000, deadline: 18000, period: 31000 },
        Task { wcet: 2000, deadline: 9000, period: 9800 },
        Task { wcet: 1000, deadline: 12000, period: 17000 },
        Task { wcet: 90, deadline: 3000, period: 4200 },
        Task { wcet: 8, deadline: 10, period: 96 },
        Task { wcet: 2, deadline: 16, period: 12 },
        Task { wcet: 10, deadline: 19, period: 280 },
        Task { wcet: 26, deadline: 160, period: 660 },
    ]);
    let lb = set.lb(0, set.total_wcet().unwrap()).unwrap();
    assert_eq!(set.dmax(lb), 16972);
    assert_eq!(set.pdf(15400), Some(8298));
    assert_eq!(set.qpa(set.dmax(lb)), set.qpa(set.dmax(15404)));
    assert!(!set.qpa(set.dmax(lb)));
}

#[test]
fn lb_converges_at_full_utilization() {
    // utilisation exactly 1: the iteration reaches the hyperperiod bound
    let full = taskset(&[
        Task { wcet: 1, deadline: 2, period: 2 },
        Task { wcet: 2, deadline: 4, period: 4 },
    ]);
    let total = full.total_wcet().unwrap();
    assert_eq!(total, 3);
    let lb = full.lb(0, total).unwrap();
    assert_eq!(lb, 4);
    assert_eq!(full.next_value(lb), Some(lb));
}

#[test]
fn max_delta_floor_is_i32_min() {
    // a difference below i32::MIN is covered by the empty-set value
    let far = taskset(&[Task { wcet: 1, deadline: 0, period: u32::MAX }]);
    assert_eq!(far.max_delta(), i32::MIN as i64);
}

fn demand_within_time(set: &Tasklist, t: u64) -> bool {
    (0..=t).all(|u| set.pdf(u).unwrap() <= u)
}

#[test]
fn qpa_decides_processor_demand_criterion() {
    let sets = [
        example(),
        taskset(&[
            Task { wcet: 6, deadline: 10, period: 20 },
            Task { wcet: 5, deadline: 10, period: 20 },
        ]),
        taskset(&[
            Task { wcet: 2, deadline: 3, period: 5 },
            Task { wcet: 3, deadline: 6, period: 7 },
            Task { wcet: 1, deadline: 2, period: 10 },
        ]),
        taskset(&[
            Task { wcet: 1, deadline: 1, period: 2 },
            Task { wcet: 2, deadline: 3, period: 4 },
        ]),
    ];
    for set in sets.iter() {
        for t in 0..120u64 {
            assert_eq!(set.qpa(t), demand_within_time(set, t));
        }
    }
}

#[test]
fn qpa_beyond_busy_period_agrees() {
    let set = taskset(&[
        Task { wcet: 2, deadline: 3, period: 5 },
        Task { wcet: 3, deadline: 6, period: 7 },
        Task { wcet: 1, deadline: 2, period: 10 },
    ]);
    let lb = set.lb(0, set.total_wcet().unwrap()).unwrap();
    let verdict = demand_within_time(&set, lb);
    for t in lb..lb + 200 {
        assert_eq!(set.qpa(t), verdict);
    }
}
