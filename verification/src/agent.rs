//! Budget-adjustment actions: the mutations an external collaborator may
//! propose on a running task set.  The engine validates every applied action
//! with the online schedulability check and undoes it when it fails.

use vstd::prelude::*;

use crate::task::{SimulatorTask, Task, TaskId, TaskProps, TimeUnit};

verus! {

/// An external mutation proposal: one budget increase paired with two
/// budget decreases.
pub type SimulatorAction = (SimulatorActionPart, SimulatorActionPart, SimulatorActionPart);

/// One part of a proposed mutation: raise a task's low-mode budget by a
/// tenth of its high-mode budget, lower it by a twentieth, or (`NoOp`) leave
/// the set alone.
#[derive(Clone, Copy, Debug, PartialEq, Eq, Structural)]
pub enum SimulatorActionPart {
    WcetIncrease(TaskId),
    WcetDecrease(TaskId),
    NoOp,
}

/// The first position in `tasks` holding the task with identifier `id`,
/// scanning from position `p`.
pub open spec fn spec_find_task_index_from(tasks: Seq<SimulatorTask>, id: TaskId, p: nat) -> Option<int>
    decreases tasks.len() - p,
{
    if p >= tasks.len() {
        None
    } else if tasks[p as int].task.spec_props().id == id {
        Some(p as int)
    } else {
        spec_find_task_index_from(tasks, id, (p + 1) as nat)
    }
}

/// The first position in `tasks` holding the task with identifier `id`.
pub open spec fn spec_find_task_index(tasks: Seq<SimulatorTask>, id: TaskId) -> Option<int> {
    spec_find_task_index_from(tasks, id, 0)
}

/// First position in `tasks` with identifier `id`, if any.
pub fn find_task_index(tasks: &Vec<SimulatorTask>, id: TaskId) -> (r: Option<usize>)
    ensures
        match r {
            Some(i) => spec_find_task_index(tasks@, id) == Some(i as int) && i < tasks@.len()
                && tasks@[i as int].task.spec_props().id == id,
            None => spec_find_task_index(tasks@, id) is None,
        },
{
    let mut i: usize = 0;
    while i < tasks.len()
        invariant
            i <= tasks@.len(),
            spec_find_task_index(tasks@, id) == spec_find_task_index_from(tasks@, id, i as nat),
        decreases tasks@.len() - i,
    {
        if tasks[i].task.props().id == id {
            return Some(i);
        }
        i = i + 1;
    }
    None
}

proof fn lemma_find_from_same_ids(
    tasks1: Seq<SimulatorTask>,
    tasks2: Seq<SimulatorTask>,
    id: TaskId,
    p: nat,
)
    requires
        tasks1.len() == tasks2.len(),
        forall |i: int| 0 <= i < tasks1.len()
            ==> (#[trigger] tasks1[i]).task.spec_props().id == tasks2[i].task.spec_props().id,
    ensures
        spec_find_task_index_from(tasks1, id, p) == spec_find_task_index_from(tasks2, id, p),
    decreases tasks1.len() - p,
{
    if p < tasks1.len() {
        lemma_find_from_same_ids(tasks1, tasks2, id, (p + 1) as nat);
    }
}

proof fn lemma_find_from_props(tasks: Seq<SimulatorTask>, id: TaskId, p: nat)
    ensures
        match spec_find_task_index_from(tasks, id, p) {
            Some(j) => p <= j < tasks.len() && tasks[j].task.spec_props().id == id,
            None => true,
        },
    decreases tasks.len() - p,
{
    if p < tasks.len() && tasks[p as int].task.spec_props().id != id {
        lemma_find_from_props(tasks, id, (p + 1) as nat);
    }
}

/// A found index is in range and carries the identifier looked for.
pub proof fn lemma_find_props(tasks: Seq<SimulatorTask>, id: TaskId)
    ensures
        match spec_find_task_index(tasks, id) {
            Some(j) => 0 <= j < tasks.len() && tasks[j].task.spec_props().id == id,
            None => true,
        },
{
    lemma_find_from_props(tasks, id, 0);
}

/// Task sets whose tasks carry the same identifiers position for position
/// are indexed identically.
pub proof fn lemma_find_same_ids(tasks1: Seq<SimulatorTask>, tasks2: Seq<SimulatorTask>, id: TaskId)
    requires
        tasks1.len() == tasks2.len(),
        forall |i: int| 0 <= i < tasks1.len()
            ==> (#[trigger] tasks1[i]).task.spec_props().id == tasks2[i].task.spec_props().id,
    ensures
        spec_find_task_index(tasks1, id) == spec_find_task_index(tasks2, id),
{
    lemma_find_from_same_ids(tasks1, tasks2, id, 0);
}

/// The same `task`, with its scheduling parameters replaced.
pub open spec fn task_with_props(task: Task, p: TaskProps) -> Task {
    match task {
        Task::LTask(_) => Task::LTask(p),
        Task::HTask(_) => Task::HTask(p),
    }
}

impl SimulatorActionPart {
    /// Whether this part proposes no mutation at all.
    pub open spec fn spec_is_noop(&self) -> bool {
        match self {
            SimulatorActionPart::NoOp => true,
            _ => false,
        }
    }

    pub open spec fn spec_task_id(&self) -> TaskId {
        match self {
            SimulatorActionPart::WcetIncrease(id) => *id,
            SimulatorActionPart::WcetDecrease(id) => *id,
            SimulatorActionPart::NoOp => 0,
        }
    }

    /// The task this part targets.
    pub fn task_id(&self) -> (r: TaskId)
        requires
            !self.spec_is_noop(),
        ensures
            r == self.spec_task_id(),
    {
        match self {
            SimulatorActionPart::WcetIncrease(id) => *id,
            SimulatorActionPart::WcetDecrease(id) => *id,
            SimulatorActionPart::NoOp => 0,
        }
    }

    /// The low-mode budget the targeted task is left with: raised by a tenth
    /// of its high-mode budget, or lowered by a twentieth, saturating at the
    /// ends of the time domain.
    pub open spec fn spec_new_wcet_l(&self, t: SimulatorTask) -> TimeUnit {
        let p = t.task.spec_props();
        match self {
            SimulatorActionPart::WcetIncrease(_) => {
                if p.wcet_l + p.wcet_h / 10 > u64::MAX {
                    u64::MAX
                } else {
                    (p.wcet_l + p.wcet_h / 10) as u64
                }
            },
            SimulatorActionPart::WcetDecrease(_) => {
                if p.wcet_l >= p.wcet_h / 20 {
                    (p.wcet_l - p.wcet_h / 20) as u64
                } else {
                    0
                }
            },
            SimulatorActionPart::NoOp => p.wcet_l,
        }
    }

    /// The task set after this part is applied: the first task carrying the
    /// targeted identifier gets the adjusted low-mode budget; everything
    /// else is untouched.
    pub open spec fn spec_apply(&self, tasks: Seq<SimulatorTask>) -> Seq<SimulatorTask> {
        if self.spec_is_noop() {
            tasks
        } else {
            match spec_find_task_index(tasks, self.spec_task_id()) {
                Some(i) => {
                    let t = tasks[i];
                    tasks.update(i, SimulatorTask {
                        task: task_with_props(t.task, TaskProps {
                            wcet_l: self.spec_new_wcet_l(t),
                            ..t.task.spec_props()
                        }),
                        ..t
                    })
                },
                None => tasks,
            }
        }
    }

    /// Mutate the task set in place as `spec_apply` describes.  The targeted
    /// task must be present.
    pub fn apply(&self, tasks: &mut Vec<SimulatorTask>)
        requires
            !self.spec_is_noop() ==> spec_find_task_index(old(tasks)@, self.spec_task_id()) is Some,
        ensures
            final(tasks)@ == self.spec_apply(old(tasks)@),
    {
        if matches!(self, SimulatorActionPart::NoOp) {
            return;
        }
        let id = self.task_id();
        let i = match find_task_index(tasks, id) {
            Some(i) => i,
            None => {
                proof {
                    assert(false);
                }
                return;
            },
        };
        let t = tasks[i];
        let wcet_h = t.task.props().wcet_h;
        let wcet_l = t.task.props().wcet_l;
        let new_wcet_l: TimeUnit = match self {
            SimulatorActionPart::WcetIncrease(_) => wcet_l.saturating_add(wcet_h / 10),
            SimulatorActionPart::WcetDecrease(_) => wcet_l.saturating_sub(wcet_h / 20),
            SimulatorActionPart::NoOp => wcet_l,
        };
        tasks[i].task.props_mut().wcet_l = new_wcet_l;
        proof {
            assert(final(tasks)@ =~= self.spec_apply(old(tasks)@));
        }
    }

    /// The opposite adjustment, targeting the same task.
    pub open spec fn spec_reverse(&self) -> SimulatorActionPart {
        match self {
            SimulatorActionPart::WcetIncrease(id) => SimulatorActionPart::WcetDecrease(*id),
            SimulatorActionPart::WcetDecrease(id) => SimulatorActionPart::WcetIncrease(*id),
            SimulatorActionPart::NoOp => SimulatorActionPart::NoOp,
        }
    }

    /// Applying a part keeps the shape of the task set: its length, and
    /// every field of every task except the targeted low-mode budget.
    pub proof fn lemma_apply_preserves_shape(&self, tasks: Seq<SimulatorTask>)
        ensures
            self.spec_apply(tasks).len() == tasks.len(),
            forall |i: int| 0 <= i < tasks.len() ==> {
                let a = #[trigger] self.spec_apply(tasks)[i];
                let b = tasks[i];
                &&& a.task.spec_props().id == b.task.spec_props().id
                &&& a.task.spec_props().wcet_h == b.task.spec_props().wcet_h
                &&& a.task.spec_props().offset == b.task.spec_props().offset
                &&& a.task.spec_props().period == b.task.spec_props().period
                &&& a.task.spec_is_high() == b.task.spec_is_high()
                &&& a.custom_priority == b.custom_priority
                &&& a.spec_priority() == b.spec_priority()
                &&& a.acet == b.acet
                &&& a.bcet == b.bcet
                &&& a.next_arrival == b.next_arrival
            },
    {
        if !self.spec_is_noop() {
            lemma_find_props(tasks, self.spec_task_id());
        }
    }

    pub fn reverse(&self) -> (r: SimulatorActionPart)
        ensures
            r == self.spec_reverse(),
    {
        match self {
            SimulatorActionPart::WcetIncrease(id) => SimulatorActionPart::WcetDecrease(*id),
            SimulatorActionPart::WcetDecrease(id) => SimulatorActionPart::WcetIncrease(*id),
            SimulatorActionPart::NoOp => SimulatorActionPart::NoOp,
        }
    }
}

} // verus!
