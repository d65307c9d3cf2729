//! Whole-schedule feasibility: the single design-time verdict combining
//! per-mode analysis with the exact mode-change analysis.

use vstd::prelude::*;

use crate::simulator::SimulatorMode;
use crate::task::{SimulatorTask, Task, TimeUnit};
use crate::validation;

verus! {

/// The execution budget that `task` is granted in `mode`.
pub fn wcet_in_mode(task: &Task, mode: SimulatorMode) -> (r: TimeUnit)
    ensures
        r == task.spec_props().spec_wcet_in_mode(mode),
{
    match mode {
        SimulatorMode::LMode => task.props().wcet_l,
        SimulatorMode::HMode => task.props().wcet_h,
    }
}

/// A task set is feasible when it passes the response-time analysis in both
/// modes and the exact mode-change analysis.
pub fn feasible_schedule(tasks: &Vec<SimulatorTask>) -> (b: bool)
    ensures
        b == validation::feasible_schedule_design_time_spec(tasks@),
{
    validation::feasible_schedule_design_time(tasks)
}

} // verus!
