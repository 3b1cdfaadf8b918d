# rt_analysis

Schedulability analysis of periodic real-time task sets under EDF, verified
with Verus.

- `src/task.rs`: tasks (worst-case execution time, relative deadline,
  period) and task sets, whose tasks all have a positive period.
- `src/demand.rs`: total WCET, processor demand h(t) per task and per set,
  smallest deadline, largest absolute deadline before t.
- `src/busy_period.rs`: the busy-period iteration Lb and its fixpoint laws.
- `src/qpa.rs`: the quick processor-demand analysis (QPA).
- `src/lastar.rs`: the La* bound (the floating-point utilisation term is
  computed by the caller).
- `src/dispatcher.rs`: the SCHED_DEADLINE parameters of each task.
- `src/integer.rs`: integers in unary form with comparison and maximum.
- `src/rational.rs`: fractions reduced by Euclid's greatest common divisor.
- `app/`: a demonstration program, type-level task declarations and the
  Linux thread set-up.
