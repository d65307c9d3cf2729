//! Task model: immutable scheduling parameters of a periodic task, its
//! criticality level, and the per-instance state the simulator mutates.

use vstd::prelude::*;

use crate::simulator::SimulatorMode;

verus! {

pub type TaskId = u64;
pub type TimeUnit = u64;

/// Scheduling parameters of a periodic task.  `wcet_l` is the tight low-mode
/// execution budget, `wcet_h` the looser high-mode one.  At every schedulable
/// state `0 < wcet_l <= wcet_h <= period` holds; the analyzer enforces this,
/// not the type itself, because a proposed budget mutation may transiently
/// violate it and must then be rejected.
#[derive(Clone, Copy, Debug, PartialEq, Eq, Structural)]
pub struct TaskProps {
    pub id: TaskId,
    pub wcet_l: TimeUnit,
    pub wcet_h: TimeUnit,
    pub offset: TimeUnit,
    pub period: TimeUnit,
}

impl TaskProps {
    pub fn new_empty(id: TaskId) -> (r: Self)
        ensures
            r == (TaskProps { id, wcet_l: 0, wcet_h: 0, offset: 0, period: 0 }),
    {
        Self { id, wcet_l: 0, wcet_h: 0, offset: 0, period: 0 }
    }

    /// The execution budget that applies in `mode`.
    pub open spec fn spec_wcet_in_mode(&self, mode: SimulatorMode) -> TimeUnit {
        match mode {
            SimulatorMode::LMode => self.wcet_l,
            SimulatorMode::HMode => self.wcet_h,
        }
    }

    #[verifier::when_used_as_spec(spec_wcet_in_mode)]
    pub fn wcet_in_mode(&self, mode: SimulatorMode) -> (r: TimeUnit)
        ensures
            r == self.spec_wcet_in_mode(mode),
    {
        match mode {
            SimulatorMode::LMode => self.wcet_l,
            SimulatorMode::HMode => self.wcet_h,
        }
    }
}

/// A task is either low-criticality (killed on budget exceedance, evicted in
/// high mode) or high-criticality (triggers the mode change, always admitted).
#[derive(Clone, Copy, Debug, PartialEq, Eq, Structural)]
pub enum Task {
    LTask(TaskProps),
    HTask(TaskProps),
}

impl Task {
    pub open spec fn spec_props(&self) -> TaskProps {
        match self {
            Task::LTask(props) => *props,
            Task::HTask(props) => *props,
        }
    }

    /// Whether this is a high-criticality task.
    pub open spec fn spec_is_high(&self) -> bool {
        self is HTask
    }

    #[verifier::when_used_as_spec(spec_is_high)]
    pub fn is_high(&self) -> (r: bool)
        ensures
            r == self.spec_is_high(),
    {
        match self {
            Task::LTask(_) => false,
            Task::HTask(_) => true,
        }
    }

    pub fn set_id(&mut self, id: TaskId)
        ensures
            final(self).spec_props() == (TaskProps { id, ..old(self).spec_props() }),
            final(self).spec_is_high() == old(self).spec_is_high(),
    {
        match self {
            Task::LTask(props) => props.id = id,
            Task::HTask(props) => props.id = id,
        }
    }

    #[verifier::when_used_as_spec(spec_props)]
    pub fn props(&self) -> (r: TaskProps)
        ensures
            r == self.spec_props(),
    {
        match self {
            Task::LTask(props) => *props,
            Task::HTask(props) => *props,
        }
    }

    pub fn props_mut(&mut self) -> (r: &mut TaskProps)
        ensures
            *r == old(self).spec_props(),
            final(self).spec_props() == *final(r),
            final(self).spec_is_high() == old(self).spec_is_high(),
    {
        match self {
            Task::LTask(props) => props,
            Task::HTask(props) => props,
        }
    }
}

/// A task as the simulator owns it: the task proper, an optional custom
/// priority (smaller value means higher priority; without one, priority
/// derives from the period, rate-monotonically), the execution-time hints the
/// generator supplied, and the arrival instant of the next instance, which
/// only the engine mutates.
#[derive(Clone, Copy, Debug)]
pub struct SimulatorTask {
    pub task: Task,
    pub custom_priority: Option<u64>,
    pub acet: TimeUnit,
    pub bcet: Option<TimeUnit>,
    pub next_arrival: TimeUnit,
}

impl SimulatorTask {
    /// The priority value used for every scheduling comparison: the custom
    /// one if present, else the period (shorter period = higher priority).
    pub open spec fn spec_priority(&self) -> u64 {
        match self.custom_priority {
            Some(p) => p,
            None => self.task.spec_props().period,
        }
    }

    #[verifier::when_used_as_spec(spec_priority)]
    pub fn priority(&self) -> (r: u64)
        ensures
            r == self.spec_priority(),
    {
        match self.custom_priority {
            Some(p) => p,
            None => self.task.props().period,
        }
    }

    pub fn new(task: Task, acet: TimeUnit, bcet: TimeUnit) -> (r: Self)
        requires
            acet > 0,
            bcet > 0,
        ensures
            r == (SimulatorTask {
                task,
                custom_priority: None,
                acet,
                bcet: Some(bcet),
                next_arrival: task.spec_props().offset,
            }),
    {
        Self {
            task,
            custom_priority: None,
            acet,
            bcet: Some(bcet),
            next_arrival: task.props().offset,
        }
    }

    pub fn new_with_custom_priority(task: Task, priority: TimeUnit, acet: TimeUnit) -> (r: Self)
        requires
            acet > 0,
        ensures
            r == (SimulatorTask {
                task,
                custom_priority: Some(priority),
                acet,
                bcet: None,
                next_arrival: task.spec_props().offset,
            }),
    {
        Self {
            task,
            custom_priority: Some(priority),
            acet,
            bcet: None,
            next_arrival: task.props().offset,
        }
    }

    /// The execution time of the next instance.  The statistical samplers
    /// live with the task-set generator; the engine itself is deterministic
    /// and uses the average-case hint.
    pub fn sample_execution_time(&self) -> (r: TimeUnit)
        ensures
            r == self.acet,
    {
        self.acet
    }
}

} // verus!
