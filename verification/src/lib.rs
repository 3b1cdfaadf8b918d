//! Real-time schedulability analysis for periodic task sets under EDF:
//! processor demand, busy-period bound and the quick processor-demand
//! analysis (QPA), together with small exact-arithmetic helpers.

pub mod integer;
pub mod task;
pub mod demand;
pub mod busy_period;
pub mod qpa;
pub mod lastar;
pub mod dispatcher;
pub mod rational;

