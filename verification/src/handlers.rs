//! Event handlers: the state transitions the engine performs for each
//! popped Start or End event, each proved to follow the model in `model`.

use vstd::prelude::*;

use crate::agent::{find_task_index, lemma_find_props, spec_find_task_index};
use crate::model;
use crate::model::SimState;
use crate::simulator::{
    EndReason, Simulator, SimulatorEvent, SimulatorJob, SimulatorMode, TIME_LIMIT,
};
use crate::task::{TaskId, TimeUnit};

verus! {

/// A found arena index is the only one carrying its identifier when the
/// identifiers are distinct.
pub proof fn lemma_find_unique_from(tasks: Seq<crate::task::SimulatorTask>, j: int, p: nat)
    requires
        model::ids_distinct(tasks),
        0 <= j < tasks.len(),
        p <= j,
    ensures
        crate::agent::spec_find_task_index_from(tasks, tasks[j].task.spec_props().id, p) == Some(j),
    decreases tasks.len() - p,
{
    if p < j {
        lemma_find_unique_from(tasks, j, (p + 1) as nat);
    }
}

pub proof fn lemma_find_unique(tasks: Seq<crate::task::SimulatorTask>, j: int)
    requires
        model::ids_distinct(tasks),
        0 <= j < tasks.len(),
    ensures
        spec_find_task_index(tasks, tasks[j].task.spec_props().id) == Some(j),
        model::idx_of(tasks, tasks[j].task.spec_props().id) == j,
{
    lemma_find_unique_from(tasks, j, 0);
}

/// Structural facts about cancellation: the surviving events all stood in
/// the queue, none belongs to the cancelled task, and distinctness of task
/// identifiers is kept.
pub proof fn lemma_events_without_props(queue: Seq<SimulatorEvent>, id: TaskId)
    ensures
        model::events_without(queue, id).len() <= queue.len(),
        forall |p: int| 0 <= p < model::events_without(queue, id).len()
            ==> model::ev_id(#[trigger] model::events_without(queue, id)[p]) != id,
        forall |p: int| 0 <= p < model::events_without(queue, id).len()
            ==> queue.contains(#[trigger] model::events_without(queue, id)[p]),
    decreases queue.len(),
{
    if queue.len() > 0 {
        lemma_events_without_props(queue.drop_last(), id);
        assert(forall |p: int| 0 <= p < queue.drop_last().len()
            ==> queue.drop_last()[p] == #[trigger] queue[p]);
        assert forall |p: int| 0 <= p < model::events_without(queue, id).len()
            implies queue.contains(#[trigger] model::events_without(queue, id)[p]) by {
            let rest = model::events_without(queue.drop_last(), id);
            if p < rest.len() {
                assert(queue.drop_last().contains(rest[p]));
                let p0 = choose |p0: int| 0 <= p0 < queue.drop_last().len()
                    && queue.drop_last()[p0] == rest[p];
                assert(queue[p0] == rest[p]);
            } else {
                assert(model::events_without(queue, id)[p] == queue.last());
                assert(queue[queue.len() - 1] == queue.last());
            }
        }
    }
}

/// Take every event of task `id` out of the queue, keeping the order of the
/// rest.
fn events_retain_without(q: &mut Vec<SimulatorEvent>, id: TaskId)
    ensures
        final(q)@ == model::events_without(old(q)@, id),
{
    let ghost orig = q@;
    let mut out: Vec<SimulatorEvent> = Vec::new();
    let mut i: usize = 0;
    while i < q.len()
        invariant
            i <= q@.len(),
            q@ == orig,
            out@ == model::events_without(orig.subrange(0, i as int), id),
        decreases q@.len() - i,
    {
        let e = q[i];
        let eid: TaskId = match e {
            SimulatorEvent::Start(id2, _) => id2,
            SimulatorEvent::End(id2, _, _) => id2,
            SimulatorEvent::TaskKill(id2, _) => id2,
            SimulatorEvent::ModeChange(_, _) => 0,
        };
        if eid != id {
            out.push(e);
        }
        proof {
            assert(orig.subrange(0, i + 1).drop_last() =~= orig.subrange(0, i as int));
            assert(orig.subrange(0, i + 1).last() == orig[i as int]);
        }
        i = i + 1;
    }
    proof {
        assert(orig.subrange(0, orig.len() as int) =~= orig);
    }
    *q = out;
}

/// Queue the termination event of job `job`, dispatched at the current
/// instant: the job is cut off at its low-mode budget when its execution
/// time overruns it in low mode, and completes after its execution time
/// otherwise.
pub(crate) fn schedule_termination_event(job: usize, simulator: &mut Simulator)
    requires
        old(simulator)@.jobs.len() == old(simulator)@.tasks.len(),
        job < old(simulator)@.tasks.len(),
        model::wf_time(old(simulator)@),
        model::valid_task(old(simulator)@.tasks[job as int]),
        old(simulator)@.jobs[job as int].exec_time <= TIME_LIMIT,
        old(simulator)@.jobs[job as int].run_time <= model::job_cap(
            old(simulator)@.mode,
            old(simulator)@.jobs[job as int],
            old(simulator)@.tasks[job as int],
        ),
    ensures
        final(simulator)@ == model::spec_schedule_termination(old(simulator)@, job as int),
{
    let t = simulator.tasks[job];
    let j = simulator.jobs[job];
    let wcet_l = t.task.props().wcet_l;
    let budget_exceeded = matches!(simulator.mode, SimulatorMode::LMode) && j.exec_time > wcet_l;
    let termination_time: TimeUnit = if budget_exceeded {
        simulator.now + wcet_l - j.run_time
    } else {
        simulator.now + j.exec_time - j.run_time
    };
    let reason = if budget_exceeded {
        EndReason::BudgetExceedance
    } else {
        EndReason::JobCompletion
    };
    simulator.event_queue.push(SimulatorEvent::End(t.task.props().id, termination_time, reason));
    proof {
        assert(simulator@ =~= model::spec_schedule_termination(old(simulator)@, job as int));
    }
}

/// Put `job` on the processor: cancel the running job's pending termination
/// event, settle its run time and requeue it as ready; then schedule the
/// termination of `job` and mark it running.
pub(crate) fn context_switch(job: usize, simulator: &mut Simulator)
    requires
        model::cs_context(old(simulator)@, job as int),
    ensures
        final(simulator)@ == model::spec_context_switch(old(simulator)@, job as int),
        model::wf(final(simulator)@),
        final(simulator)@.queue.len() >= 1,
        model::ends_at(final(simulator)@.queue, final(simulator)@.now)
            <= model::ends_at(old(simulator)@.queue, old(simulator)@.now),
        model::starts_at(final(simulator)@.queue, final(simulator)@.now)
            <= model::starts_at(old(simulator)@.queue, old(simulator)@.now),
{
    let ghost st0 = simulator@;
    match simulator.running_job {
        Some(r) => {
            proof {
                // The preempted job's pending End lies strictly in the
                // future, so its settled run time stays strictly below its
                // budget.
                assert(simulator@.jobs[r as int].run_time
                    + (simulator@.now - simulator@.last_context_switch)
                    < model::job_cap(simulator@.mode, simulator@.jobs[r as int], simulator@.tasks[r as int]));
            }
            let rid = simulator.tasks[r].task.props().id;
            events_retain_without(&mut simulator.event_queue, rid);
            let elapsed = simulator.now - simulator.last_context_switch;
            let old_run = simulator.jobs[r].run_time;
            simulator.jobs[r].run_time = old_run + elapsed;
            simulator.ready_jobs_queue.push(r);
        },
        None => {},
    }
    let ghost st1 = simulator@;
    proof {
        match st0.running {
            Some(r) => {
                assert(st1 =~= (SimState {
                    queue: model::events_without(st0.queue, st0.tasks[r].task.spec_props().id),
                    jobs: st0.jobs.update(r, SimulatorJob {
                        run_time: (st0.jobs[r].run_time
                            + (st0.now - st0.last_context_switch)) as u64,
                        ..st0.jobs[r]
                    }),
                    ready: st0.ready.push(r),
                    ..st0
                }));
            },
            None => {
                assert(st1 == st0);
            },
        }
    }
    schedule_termination_event(job, simulator);
    simulator.running_job = Some(job);
    simulator.last_context_switch = simulator.now;
    proof {
        assert(simulator@ =~= model::spec_context_switch(st0, job as int));
        lemma_context_switch_wf(st0, job as int);
        lemma_context_switch_counts(st0, job as int);
    }
}

/// The context switch preserves the engine invariant.
proof fn lemma_context_switch_wf(st: SimState, i: int)
    requires
        model::cs_context(st, i),
    ensures
        model::wf(model::spec_context_switch(st, i)),
        model::spec_context_switch(st, i).queue.len() >= 1,
{
    let post = model::spec_context_switch(st, i);
    let id_i = st.tasks[i].task.spec_props().id;
    let capi = model::job_cap(st.mode, st.jobs[i], st.tasks[i]);
    let new_end = SimulatorEvent::End(id_i, (st.now + capi - st.jobs[i].run_time) as u64, if
        st.mode is LMode && st.jobs[i].exec_time > st.tasks[i].task.spec_props().wcet_l {
        EndReason::BudgetExceedance
    } else {
        EndReason::JobCompletion
    });
    lemma_find_unique(st.tasks, i);
    assert(model::valid_task(st.tasks[i]));
    assert(st.jobs[i].exec_time <= TIME_LIMIT);
    assert(capi <= TIME_LIMIT);
    assert(st.now + capi - st.jobs[i].run_time <= st.now + TIME_LIMIT);
    assert(st.now < st.now + capi - st.jobs[i].run_time);
    assert(model::ev_time(new_end) == st.now + capi - st.jobs[i].run_time);
    assert(model::ev_valid(st.tasks, new_end));
    match st.running {
        Some(r) => {
            let id_r = st.tasks[r].task.spec_props().id;
            let mid_queue = model::events_without(st.queue, id_r);
            lemma_events_without_props(st.queue, id_r);
            assert(post.queue == mid_queue.push(new_end));
            // Transfer the per-event facts from the old queue.
            assert forall |p: int| 0 <= p < mid_queue.len()
                implies model::ev_valid(post.tasks, #[trigger] mid_queue[p])
                    && st.now <= model::ev_time(mid_queue[p]) <= st.now + TIME_LIMIT
                    && !(mid_queue[p] is End)
                    && (mid_queue[p] is Start ==> {
                        let k = model::idx_of(st.tasks, model::ev_id(mid_queue[p]));
                        &&& model::ev_time(mid_queue[p]) >= st.tasks[k].next_arrival
                        &&& k != i
                        &&& k != r
                        &&& !st.ready.contains(k)
                    })
                    && (st.mode is HMode
                        ==> st.tasks[model::idx_of(st.tasks, model::ev_id(mid_queue[p]))].task.spec_is_high()) by {
                let e = mid_queue[p];
                assert(st.queue.contains(e));
                let p0 = choose |p0: int| 0 <= p0 < st.queue.len() && st.queue[p0] == e;
                if e is End {
                    // Every End belonged to the running job and was removed.
                    lemma_find_props(st.tasks, model::ev_id(e));
                    assert(st.running == Some(model::idx_of(st.tasks, model::ev_id(e))));
                    assert(model::ev_id(e) == id_r);
                    assert(false);
                }
                if e is Start {
                    let k = model::idx_of(st.tasks, model::ev_id(e));
                    assert(st.running != Some(k));
                    if k == i {
                        lemma_find_props(st.tasks, model::ev_id(e));
                        assert(model::ev_id(e) == st.tasks[k].task.spec_props().id);
                    }
                }
            }
            // Distinct identifiers among surviving events, and the new End's
            // identifier is fresh.
            assert forall |p1: int, p2: int|
                0 <= p1 < p2 < post.queue.len()
                implies model::ev_id(post.queue[p1]) != model::ev_id(post.queue[p2]) by {
                if p2 < mid_queue.len() {
                    lemma_events_without_distinct(st.queue, id_r, p1, p2);
                } else {
                    // p2 is the new End; no surviving event has task i's id.
                    assert(st.queue.contains(mid_queue[p1]));
                    let p0 = choose |p0: int| 0 <= p0 < st.queue.len() && st.queue[p0] == mid_queue[p1];
                    assert(model::ev_id(mid_queue[p1]) != id_i);
                }
            }
            assert(model::wf_queue(post)) by {
                assert(forall |p: int| 0 <= p < mid_queue.len()
                    ==> post.queue[p] == #[trigger] mid_queue[p]);
                assert(post.queue[post.queue.len() - 1] == new_end);
                assert forall |p: int| 0 <= p < post.queue.len()
                    && (#[trigger] post.queue[p]) is Start implies {
                    let k = model::idx_of(post.tasks, model::ev_id(post.queue[p]));
                    &&& model::ev_time(post.queue[p]) >= post.tasks[k].next_arrival
                    &&& post.running != Some(k)
                    &&& !post.ready.contains(k)
                } by {
                    assert(p < mid_queue.len());
                    let k = model::idx_of(st.tasks, model::ev_id(mid_queue[p]));
                    assert(k != i && k != r && !st.ready.contains(k));
                    assert(post.ready == st.ready.push(r));
                    assert(forall |q: int| 0 <= q < st.ready.len()
                        ==> post.ready[q] == #[trigger] st.ready[q]);
                    if post.ready.contains(k) {
                        let q = choose |q: int| 0 <= q < post.ready.len() && post.ready[q] == k;
                        assert(q == st.ready.len());
                        assert(false);
                    }
                }
            }
            assert(model::wf_ready(post)) by {
                assert(st.jobs[r].run_time + (st.now - st.last_context_switch) < capr_of(st, r));
                assert(forall |q: int| 0 <= q < st.ready.len()
                    ==> post.ready[q] == #[trigger] st.ready[q]);
                assert(post.ready[st.ready.len() as int] == r);
                assert(forall |q: int| 0 <= q < st.ready.len() ==> #[trigger] st.ready[q] != r);
                assert(forall |q: int| 0 <= q < st.ready.len() ==> #[trigger] st.ready[q] != i) by {
                    assert(!st.ready.contains(i));
                }
            }
            assert(model::wf_running(post)) by {
                assert(post.queue[post.queue.len() - 1] == new_end);
            }
            assert(model::wf_ends(post)) by {
                assert forall |p: int| 0 <= p < post.queue.len() && (#[trigger] post.queue[p]) is End
                    implies post.running == Some(model::idx_of(post.tasks, model::ev_id(post.queue[p]))) by {
                    if p < mid_queue.len() {
                        assert(st.queue.contains(mid_queue[p]));
                        let p0 = choose |p0: int| 0 <= p0 < st.queue.len() && st.queue[p0] == mid_queue[p];
                        assert(model::ev_id(mid_queue[p]) == id_r);
                        assert(false);
                    }
                }
            }
            assert(model::wf_mode(post));
            assert(model::wf_tasks(post) && model::wf_time(post) && model::wf_jobs(post)
                && model::wf_arrivals(post));
        },
        None => {
            assert(post.queue == st.queue.push(new_end));
            assert forall |p1: int, p2: int|
                0 <= p1 < p2 < post.queue.len()
                implies model::ev_id(post.queue[p1]) != model::ev_id(post.queue[p2]) by {
                if p2 == post.queue.len() - 1 {
                    assert(model::ev_id(post.queue[p1]) != id_i);
                }
            }
            assert(model::wf_queue(post)) by {
                assert(forall |p: int| 0 <= p < st.queue.len()
                    ==> post.queue[p] == #[trigger] st.queue[p]);
                assert(post.queue[post.queue.len() - 1] == new_end);
                assert forall |p: int| 0 <= p < post.queue.len()
                    && (#[trigger] post.queue[p]) is Start implies {
                    let k = model::idx_of(post.tasks, model::ev_id(post.queue[p]));
                    &&& model::ev_time(post.queue[p]) >= post.tasks[k].next_arrival
                    &&& post.running != Some(k)
                    &&& !post.ready.contains(k)
                } by {
                    assert(p < st.queue.len());
                    let k = model::idx_of(st.tasks, model::ev_id(st.queue[p]));
                    if k == i {
                        lemma_find_props(st.tasks, model::ev_id(st.queue[p]));
                        assert(model::ev_id(st.queue[p]) == id_i);
                        assert(false);
                    }
                }
            }
            assert(model::wf_running(post)) by {
                assert(post.queue[post.queue.len() - 1] == new_end);
            }
            assert(model::wf_ends(post)) by {
                assert forall |p: int| 0 <= p < post.queue.len() && (#[trigger] post.queue[p]) is End
                    implies post.running == Some(model::idx_of(post.tasks, model::ev_id(post.queue[p]))) by {
                    if p < st.queue.len() {
                        assert(st.running == Some(model::idx_of(st.tasks, model::ev_id(st.queue[p]))));
                        assert(false);
                    }
                }
            }
            assert(model::wf_tasks(post) && model::wf_time(post) && model::wf_jobs(post)
                && model::wf_arrivals(post) && model::wf_ready(post) && model::wf_mode(post));
        },
    }
}

spec fn capr_of(st: SimState, r: int) -> TimeUnit {
    model::job_cap(st.mode, st.jobs[r], st.tasks[r])
}

proof fn lemma_events_without_distinct(queue: Seq<SimulatorEvent>, id: TaskId, p1: int, p2: int)
    requires
        forall |q1: int, q2: int| #![trigger queue[q1], queue[q2]]
            0 <= q1 < q2 < queue.len() ==> model::ev_id(queue[q1]) != model::ev_id(queue[q2]),
        0 <= p1 < p2 < model::events_without(queue, id).len(),
    ensures
        model::ev_id(model::events_without(queue, id)[p1])
            != model::ev_id(model::events_without(queue, id)[p2]),
    decreases queue.len(),
{
    let res = model::events_without(queue, id);
    let rest = model::events_without(queue.drop_last(), id);
    assert(queue.len() > 0);
    assert(forall |q: int| 0 <= q < queue.len() - 1
        ==> queue.drop_last()[q] == #[trigger] queue[q]);
    if p2 < rest.len() {
        lemma_events_without_distinct(queue.drop_last(), id, p1, p2);
    } else {
        // res[p2] is queue.last(); res[p1] survives from the front part.
        lemma_events_without_props(queue.drop_last(), id);
        assert(queue.drop_last().contains(rest[p1]));
        let p0 = choose |p0: int| 0 <= p0 < queue.drop_last().len()
            && queue.drop_last()[p0] == rest[p1];
        assert(model::ev_id(queue[p0]) != model::ev_id(queue[queue.len() - 1]));
    }
}

/// Structural facts about the high-mode purge of the event queue.
proof fn lemma_events_of_high_props(tasks: Seq<crate::task::SimulatorTask>, queue: Seq<SimulatorEvent>)
    ensures
        model::events_of_high(tasks, queue).len() <= queue.len(),
        forall |p: int| 0 <= p < model::events_of_high(tasks, queue).len()
            ==> tasks[model::idx_of(tasks, model::ev_id(#[trigger] model::events_of_high(tasks, queue)[p]))]
                .task.spec_is_high(),
        forall |p: int| 0 <= p < model::events_of_high(tasks, queue).len()
            ==> queue.contains(#[trigger] model::events_of_high(tasks, queue)[p]),
    decreases queue.len(),
{
    if queue.len() > 0 {
        lemma_events_of_high_props(tasks, queue.drop_last());
        assert(forall |p: int| 0 <= p < queue.drop_last().len()
            ==> queue.drop_last()[p] == #[trigger] queue[p]);
        assert forall |p: int| 0 <= p < model::events_of_high(tasks, queue).len()
            implies queue.contains(#[trigger] model::events_of_high(tasks, queue)[p]) by {
            let rest = model::events_of_high(tasks, queue.drop_last());
            if p < rest.len() {
                assert(queue.drop_last().contains(rest[p]));
                let p0 = choose |p0: int| 0 <= p0 < queue.drop_last().len()
                    && queue.drop_last()[p0] == rest[p];
                assert(queue[p0] == rest[p]);
            } else {
                assert(model::events_of_high(tasks, queue)[p] == queue.last());
                assert(queue[queue.len() - 1] == queue.last());
            }
        }
    }
}

proof fn lemma_events_of_high_distinct(
    tasks: Seq<crate::task::SimulatorTask>,
    queue: Seq<SimulatorEvent>,
    p1: int,
    p2: int,
)
    requires
        forall |q1: int, q2: int| #![trigger queue[q1], queue[q2]]
            0 <= q1 < q2 < queue.len() ==> model::ev_id(queue[q1]) != model::ev_id(queue[q2]),
        0 <= p1 < p2 < model::events_of_high(tasks, queue).len(),
    ensures
        model::ev_id(model::events_of_high(tasks, queue)[p1])
            != model::ev_id(model::events_of_high(tasks, queue)[p2]),
    decreases queue.len(),
{
    let rest = model::events_of_high(tasks, queue.drop_last());
    assert(queue.len() > 0);
    assert(forall |q: int| 0 <= q < queue.len() - 1
        ==> queue.drop_last()[q] == #[trigger] queue[q]);
    if p2 < rest.len() {
        lemma_events_of_high_distinct(tasks, queue.drop_last(), p1, p2);
    } else {
        lemma_events_of_high_props(tasks, queue.drop_last());
        assert(queue.drop_last().contains(rest[p1]));
        let p0 = choose |p0: int| 0 <= p0 < queue.drop_last().len()
            && queue.drop_last()[p0] == rest[p1];
        assert(model::ev_id(queue[p0]) != model::ev_id(queue[queue.len() - 1]));
    }
}

/// Structural facts about the high-mode eviction of the ready queue.
proof fn lemma_ready_of_high_props(tasks: Seq<crate::task::SimulatorTask>, ready: Seq<int>)
    ensures
        model::ready_of_high(tasks, ready).len() <= ready.len(),
        forall |p: int| 0 <= p < model::ready_of_high(tasks, ready).len()
            ==> ready.contains(#[trigger] model::ready_of_high(tasks, ready)[p]),
        forall |p: int| 0 <= p < model::ready_of_high(tasks, ready).len()
            ==> tasks[#[trigger] model::ready_of_high(tasks, ready)[p]].task.spec_is_high(),
        forall |p1: int, p2: int|
            #![trigger model::ready_of_high(tasks, ready)[p1], model::ready_of_high(tasks, ready)[p2]]
            ((forall |q1: int, q2: int| #![trigger ready[q1], ready[q2]]
                0 <= q1 < q2 < ready.len() ==> ready[q1] != ready[q2])
            && 0 <= p1 < p2 < model::ready_of_high(tasks, ready).len())
                ==> model::ready_of_high(tasks, ready)[p1] != model::ready_of_high(tasks, ready)[p2],
    decreases ready.len(),
{
    if ready.len() > 0 {
        lemma_ready_of_high_props(tasks, ready.drop_last());
        assert(forall |p: int| 0 <= p < ready.drop_last().len()
            ==> ready.drop_last()[p] == #[trigger] ready[p]);
        let res = model::ready_of_high(tasks, ready);
        let rest = model::ready_of_high(tasks, ready.drop_last());
        assert forall |p: int| 0 <= p < res.len()
            implies ready.contains(#[trigger] res[p]) by {
            if p < rest.len() {
                assert(ready.drop_last().contains(rest[p]));
                let p0 = choose |p0: int| 0 <= p0 < ready.drop_last().len()
                    && ready.drop_last()[p0] == rest[p];
                assert(ready[p0] == rest[p]);
            } else {
                assert(res[p] == ready.last());
                assert(ready[ready.len() - 1] == ready.last());
            }
        }
        if forall |q1: int, q2: int| #![trigger ready[q1], ready[q2]]
            0 <= q1 < q2 < ready.len() ==> ready[q1] != ready[q2] {
            assert forall |p1: int, p2: int|
                0 <= p1 < p2 < res.len()
                implies res[p1] != res[p2] by {
                if p2 < rest.len() {
                    assert(rest[p1] != rest[p2]);
                } else {
                    assert(ready.drop_last().contains(rest[p1]));
                    let p0 = choose |p0: int| 0 <= p0 < ready.drop_last().len()
                        && ready.drop_last()[p0] == rest[p1];
                    assert(ready[p0] != ready[ready.len() - 1]);
                }
            }
        }
    }
}

/// Per-element facts about the re-admission Start events.
proof fn lemma_l_start_events_props(tasks: Seq<crate::task::SimulatorTask>, now: TimeUnit, n: nat)
    requires
        model::ids_distinct(tasks),
        n <= tasks.len(),
    ensures
        forall |p: int| 0 <= p < model::l_start_events(tasks, now, n).len() ==> {
            let e = #[trigger] model::l_start_events(tasks, now, n)[p];
            exists |j: int| 0 <= j < n && !(#[trigger] tasks[j]).task.spec_is_high()
                && e == SimulatorEvent::Start(
                    tasks[j].task.spec_props().id,
                    model::max_time(now, tasks[j].next_arrival),
                )
        },
        forall |p1: int, p2: int|
            #![trigger model::l_start_events(tasks, now, n)[p1], model::l_start_events(tasks, now, n)[p2]]
            0 <= p1 < p2 < model::l_start_events(tasks, now, n).len()
                ==> model::ev_id(model::l_start_events(tasks, now, n)[p1])
                    != model::ev_id(model::l_start_events(tasks, now, n)[p2]),
    decreases n,
{
    if n > 0 {
        lemma_l_start_events_props(tasks, now, (n - 1) as nat);
        let res = model::l_start_events(tasks, now, n);
        let rest = model::l_start_events(tasks, now, (n - 1) as nat);
        if !tasks[n - 1].task.spec_is_high() {
            assert forall |p: int| 0 <= p < res.len() implies {
                let e = #[trigger] res[p];
                exists |j: int| 0 <= j < n && !(#[trigger] tasks[j]).task.spec_is_high()
                    && e == SimulatorEvent::Start(
                        tasks[j].task.spec_props().id,
                        model::max_time(now, tasks[j].next_arrival),
                    )
            } by {
                if p < rest.len() {
                    let j = choose |j: int| 0 <= j < n - 1 && !(#[trigger] tasks[j]).task.spec_is_high()
                        && rest[p] == SimulatorEvent::Start(
                            tasks[j].task.spec_props().id,
                            model::max_time(now, tasks[j].next_arrival),
                        );
                    assert(0 <= j < n && !tasks[j].task.spec_is_high()
                        && res[p] == SimulatorEvent::Start(
                            tasks[j].task.spec_props().id,
                            model::max_time(now, tasks[j].next_arrival),
                        ));
                } else {
                    assert(res[p] == SimulatorEvent::Start(
                        tasks[n - 1].task.spec_props().id,
                        model::max_time(now, tasks[n - 1].next_arrival),
                    ));
                    assert(0 <= n - 1 < n && !tasks[n - 1].task.spec_is_high());
                }
            }
            assert forall |p1: int, p2: int|
                0 <= p1 < p2 < res.len()
                implies model::ev_id(res[p1]) != model::ev_id(res[p2]) by {
                if p2 < rest.len() {
                } else {
                    let j = choose |j: int| 0 <= j < n - 1 && !(#[trigger] tasks[j]).task.spec_is_high()
                        && rest[p1] == SimulatorEvent::Start(
                            tasks[j].task.spec_props().id,
                            model::max_time(now, tasks[j].next_arrival),
                        );
                    assert(tasks[j].task.spec_props().id != tasks[n - 1].task.spec_props().id);
                }
            }
        }
    }
}

/// Take every event of a low-criticality task out of the queue.
fn events_retain_high(q: &mut Vec<SimulatorEvent>, tasks: &Vec<crate::task::SimulatorTask>)
    requires
        forall |p: int| 0 <= p < old(q)@.len()
            ==> model::ev_valid(tasks@, #[trigger] old(q)@[p]),
    ensures
        final(q)@ == model::events_of_high(tasks@, old(q)@),
{
    let ghost orig = q@;
    let mut out: Vec<SimulatorEvent> = Vec::new();
    let mut i: usize = 0;
    while i < q.len()
        invariant
            i <= q@.len(),
            q@ == orig,
            forall |p: int| 0 <= p < orig.len() ==> model::ev_valid(tasks@, #[trigger] orig[p]),
            out@ == model::events_of_high(tasks@, orig.subrange(0, i as int)),
        decreases q@.len() - i,
    {
        let e = q[i];
        let eid: TaskId = match e {
            SimulatorEvent::Start(id2, _) => id2,
            SimulatorEvent::End(id2, _, _) => id2,
            SimulatorEvent::TaskKill(id2, _) => id2,
            SimulatorEvent::ModeChange(_, _) => 0,
        };
        let k = match find_task_index(tasks, eid) {
            Some(k) => k,
            None => {
                proof {
                    assert(false);
                }
                0
            },
        };
        if tasks[k].task.is_high() {
            out.push(e);
        }
        proof {
            assert(orig.subrange(0, i + 1).drop_last() =~= orig.subrange(0, i as int));
            assert(orig.subrange(0, i + 1).last() == orig[i as int]);
        }
        i = i + 1;
    }
    proof {
        assert(orig.subrange(0, orig.len() as int) =~= orig);
    }
    *q = out;
}

/// Evict every low-criticality job from the ready queue.
fn ready_retain_high(ready: &mut Vec<usize>, tasks: &Vec<crate::task::SimulatorTask>)
    requires
        forall |p: int| 0 <= p < old(ready)@.len() ==> (#[trigger] old(ready)@[p]) < tasks@.len(),
    ensures
        final(ready)@.map_values(|v: usize| v as int)
            == model::ready_of_high(tasks@, old(ready)@.map_values(|v: usize| v as int)),
{
    let ghost orig = ready@;
    let ghost origm = ready@.map_values(|v: usize| v as int);
    let mut out: Vec<usize> = Vec::new();
    let mut i: usize = 0;
    while i < ready.len()
        invariant
            i <= ready@.len(),
            ready@ == orig,
            origm == orig.map_values(|v: usize| v as int),
            forall |p: int| 0 <= p < orig.len() ==> (#[trigger] orig[p]) < tasks@.len(),
            out@.map_values(|v: usize| v as int)
                == model::ready_of_high(tasks@, origm.subrange(0, i as int)),
        decreases ready@.len() - i,
    {
        let j = ready[i];
        if tasks[j].task.is_high() {
            out.push(j);
            proof {
                assert(out@.map_values(|v: usize| v as int)
                    =~= out@.drop_last().map_values(|v: usize| v as int).push(j as int));
            }
        }
        proof {
            assert(origm.subrange(0, i + 1).drop_last() =~= origm.subrange(0, i as int));
            assert(origm.subrange(0, i + 1).last() == origm[i as int]);
            assert(origm[i as int] == j as int);
        }
        i = i + 1;
    }
    proof {
        assert(origm.subrange(0, origm.len() as int) =~= origm);
        assert(origm.len() == orig.len());
    }
    *ready = out;
}

/// Enact a mode change: record it, then re-admit the low-criticality tasks
/// (entering low mode) or purge their events and evict their ready jobs
/// (entering high mode).
pub(crate) fn change_mode(to_mode: SimulatorMode, simulator: &mut Simulator)
    requires
        model::cm_context(old(simulator)@, to_mode),
    ensures
        final(simulator)@ == model::spec_change_mode(old(simulator)@, to_mode),
        model::wf(final(simulator)@),
        final(simulator)@.running is None,
        forall |p: int| 0 <= p < final(simulator)@.queue.len()
            ==> !((#[trigger] final(simulator)@.queue[p]) is End),
        model::ends_at(final(simulator)@.queue, final(simulator)@.now)
            <= model::ends_at(old(simulator)@.queue, old(simulator)@.now),
        to_mode is HMode ==> model::starts_at(final(simulator)@.queue, final(simulator)@.now)
            <= model::starts_at(old(simulator)@.queue, old(simulator)@.now),
{
    let ghost st0 = simulator@;
    simulator.mode = to_mode;
    let now = simulator.now;
    simulator.push_event(SimulatorEvent::ModeChange(to_mode, now));
    let ghost st1 = simulator@;
    proof {
        assert(st1 =~= (SimState {
            mode: to_mode,
            history: st0.history.push(SimulatorEvent::ModeChange(to_mode, st0.now)),
            ..st0
        }));
    }
    match to_mode {
        SimulatorMode::LMode => {
            let mut i: usize = 0;
            while i < simulator.tasks.len()
                invariant
                    i <= st1.tasks.len(),
                    now == st1.now,
                    simulator@ =~= (SimState {
                        queue: st1.queue + model::l_start_events(st1.tasks, st1.now, i as nat),
                        ..st1
                    }),
                decreases st1.tasks.len() - i,
            {
                let t = simulator.tasks[i];
                if !t.task.is_high() {
                    let na = t.next_arrival;
                    let start_time: TimeUnit = if now >= na { now } else { na };
                    simulator.event_queue.push(SimulatorEvent::Start(t.task.props().id, start_time));
                }
                proof {
                    assert(simulator@.queue
                        =~= st1.queue + model::l_start_events(st1.tasks, st1.now, (i + 1) as nat));
                    assert(simulator@ =~= (SimState {
                        queue: st1.queue + model::l_start_events(st1.tasks, st1.now, (i + 1) as nat),
                        ..st1
                    }));
                }
                i = i + 1;
            }
        },
        SimulatorMode::HMode => {
            proof {
                assert forall |p: int| 0 <= p < simulator.ready_jobs_queue@.len()
                    implies (#[trigger] simulator.ready_jobs_queue@[p]) < simulator.tasks@.len() by {
                    assert(st1.ready[p] == simulator.ready_jobs_queue@[p] as int);
                }
            }
            events_retain_high(&mut simulator.event_queue, &simulator.tasks);
            ready_retain_high(&mut simulator.ready_jobs_queue, &simulator.tasks);
            proof {
                assert(simulator@ =~= (SimState {
                    queue: model::events_of_high(st1.tasks, st1.queue),
                    ready: model::ready_of_high(st1.tasks, st1.ready),
                    ..st1
                }));
            }
        },
    }
    proof {
        assert(simulator@ =~= model::spec_change_mode(st0, to_mode));
        lemma_change_mode_wf(st0, to_mode);
        let post = model::spec_change_mode(st0, to_mode);
        match to_mode {
            SimulatorMode::LMode => {
                model::lemma_counts_concat(
                    st0.queue,
                    model::l_start_events(st0.tasks, st0.now, st0.tasks.len()),
                    st0.now,
                );
                model::lemma_l_start_events_no_ends(st0.tasks, st0.now, st0.tasks.len(), st0.now);
            },
            SimulatorMode::HMode => {
                model::lemma_counts_of_high(st0.tasks, st0.queue, st0.now);
            },
        }
    }
}

/// The mode change preserves the engine invariant.
proof fn lemma_change_mode_wf(st: SimState, to: SimulatorMode)
    requires
        model::cm_context(st, to),
    ensures
        model::wf(model::spec_change_mode(st, to)),
        forall |p: int| 0 <= p < model::spec_change_mode(st, to).queue.len()
            ==> !((#[trigger] model::spec_change_mode(st, to).queue[p]) is End),
{
    let post = model::spec_change_mode(st, to);
    match to {
        SimulatorMode::LMode => {
            let fresh = model::l_start_events(st.tasks, st.now, st.tasks.len());
            lemma_l_start_events_props(st.tasks, st.now, st.tasks.len());
            assert(post.queue == st.queue + fresh);
            assert(forall |p: int| 0 <= p < st.queue.len()
                ==> post.queue[p] == #[trigger] st.queue[p]);
            assert(forall |p: int| 0 <= p < fresh.len()
                ==> post.queue[st.queue.len() + p] == #[trigger] fresh[p]);
            // Per-event facts for the fresh Start events.
            assert forall |p: int| 0 <= p < fresh.len() implies {
                let e = #[trigger] fresh[p];
                &&& model::ev_valid(st.tasks, e)
                &&& e is Start
                &&& st.now <= model::ev_time(e) <= st.now + TIME_LIMIT
                &&& model::ev_time(e) >= st.tasks[model::idx_of(st.tasks, model::ev_id(e))].next_arrival
                &&& !st.tasks[model::idx_of(st.tasks, model::ev_id(e))].task.spec_is_high()
            } by {
                let j = choose |j: int| 0 <= j < st.tasks.len()
                    && !(#[trigger] st.tasks[j]).task.spec_is_high()
                    && fresh[p] == SimulatorEvent::Start(
                        st.tasks[j].task.spec_props().id,
                        model::max_time(st.now, st.tasks[j].next_arrival),
                    );
                lemma_find_unique(st.tasks, j);
                assert(model::valid_task(st.tasks[j]));
                assert(st.tasks[j].next_arrival <= model::max_time(
                    st.tasks[j].task.spec_props().offset,
                    (st.now + st.tasks[j].task.spec_props().period) as u64,
                ));
            }
            // Old events belong to high-criticality tasks (the mode was
            // high), fresh ones to low-criticality tasks: identifiers stay
            // distinct.
            assert forall |p1: int, p2: int|
                0 <= p1 < p2 < post.queue.len()
                implies model::ev_id(post.queue[p1]) != model::ev_id(post.queue[p2]) by {
                if p1 < st.queue.len() && p2 >= st.queue.len() {
                    let e1 = st.queue[p1];
                    let e2 = fresh[p2 - st.queue.len()];
                    let k1 = model::idx_of(st.tasks, model::ev_id(e1));
                    let k2 = model::idx_of(st.tasks, model::ev_id(e2));
                    assert(st.tasks[k1].task.spec_is_high());
                    assert(!st.tasks[k2].task.spec_is_high());
                    assert(model::ev_id(e1) != model::ev_id(e2));
                }
            }
            assert(model::wf_queue(post));
            assert(model::wf_ends(post)) by {
                assert forall |p: int| 0 <= p < post.queue.len()
                    implies !((#[trigger] post.queue[p]) is End) by {
                    if p >= st.queue.len() {
                        assert(fresh[p - st.queue.len()] is Start);
                    }
                }
            }
            assert(model::wf_tasks(post) && model::wf_time(post) && model::wf_jobs(post)
                && model::wf_arrivals(post) && model::wf_ready(post) && model::wf_mode(post)
                && model::wf_running(post));
        },
        SimulatorMode::HMode => {
            let newq = model::events_of_high(st.tasks, st.queue);
            let newr = model::ready_of_high(st.tasks, st.ready);
            lemma_events_of_high_props(st.tasks, st.queue);
            lemma_ready_of_high_props(st.tasks, st.ready);
            assert(post.queue == newq && post.ready == newr);
            assert forall |p: int| 0 <= p < newq.len() implies {
                let e = #[trigger] newq[p];
                &&& model::ev_valid(st.tasks, e)
                &&& !(e is End)
                &&& st.now <= model::ev_time(e) <= st.now + TIME_LIMIT
                &&& (e is Start ==> {
                    let k = model::idx_of(st.tasks, model::ev_id(e));
                    &&& model::ev_time(e) >= st.tasks[k].next_arrival
                    &&& !newr.contains(k)
                })
            } by {
                let e = newq[p];
                assert(st.queue.contains(e));
                let p0 = choose |p0: int| 0 <= p0 < st.queue.len() && st.queue[p0] == e;
                if e is Start {
                    let k = model::idx_of(st.tasks, model::ev_id(e));
                    assert(!st.ready.contains(k));
                    if newr.contains(k) {
                        let q = choose |q: int| 0 <= q < newr.len() && newr[q] == k;
                        assert(st.ready.contains(newr[q]));
                        assert(false);
                    }
                }
            }
            assert forall |p1: int, p2: int|
                0 <= p1 < p2 < newq.len()
                implies model::ev_id(newq[p1]) != model::ev_id(newq[p2]) by {
                lemma_events_of_high_distinct(st.tasks, st.queue, p1, p2);
            }
            assert(model::wf_queue(post));
            assert(model::wf_ready(post)) by {
                assert forall |p: int| 0 <= p < newr.len()
                    implies 0 <= #[trigger] newr[p] < st.tasks.len()
                        && post.jobs[newr[p]].run_time
                            < model::job_cap(post.mode, post.jobs[newr[p]], post.tasks[newr[p]]) by {
                    assert(st.ready.contains(newr[p]));
                    let q = choose |q: int| 0 <= q < st.ready.len() && st.ready[q] == newr[p];
                    assert(st.jobs[newr[p]].run_time
                        < model::job_cap(st.mode, st.jobs[newr[p]], st.tasks[newr[p]]));
                }
            }
            assert(model::wf_mode(post));
            assert(model::wf_ends(post));
            assert(model::wf_tasks(post) && model::wf_time(post) && model::wf_jobs(post)
                && model::wf_arrivals(post) && model::wf_running(post));
        },
    }
}

fn clone_tasks(v: &Vec<crate::task::SimulatorTask>) -> (r: Vec<crate::task::SimulatorTask>)
    ensures
        r@ == v@,
{
    let mut out: Vec<crate::task::SimulatorTask> = Vec::new();
    let mut i: usize = 0;
    while i < v.len()
        invariant
            i <= v@.len(),
            out@ == v@.subrange(0, i as int),
        decreases v@.len() - i,
    {
        out.push(v[i]);
        proof {
            assert(out@ =~= v@.subrange(0, i + 1));
        }
        i = i + 1;
    }
    proof {
        assert(out@ =~= v@);
    }
    out
}

/// Whether every in-flight instance — the ready jobs and the job about to
/// be dispatched — still fits its budget under the given task parameters.
fn budgets_ok(
    tasks: &Vec<crate::task::SimulatorTask>,
    jobs: &Vec<SimulatorJob>,
    ready: &Vec<usize>,
    mode: SimulatorMode,
    job: usize,
) -> (b: bool)
    requires
        jobs@.len() == tasks@.len(),
        job < tasks@.len(),
        forall |p: int| 0 <= p < ready@.len() ==> (#[trigger] ready@[p]) < tasks@.len(),
    ensures
        b == (model::ready_jobs_within_budgets(
            tasks@,
            jobs@,
            ready@.map_values(|v: usize| v as int),
            mode,
        ) && jobs@[job as int].run_time
            < model::job_cap(mode, jobs@[job as int], tasks@[job as int])),
{
    let ghost readym = ready@.map_values(|v: usize| v as int);
    let jb = jobs[job];
    let tk = tasks[job];
    let capj: TimeUnit = if matches!(mode, SimulatorMode::LMode) && jb.exec_time > tk.task.props().wcet_l {
        tk.task.props().wcet_l
    } else {
        jb.exec_time
    };
    if jb.run_time >= capj {
        return false;
    }
    let mut i: usize = 0;
    while i < ready.len()
        invariant
            i <= ready@.len(),
            readym == ready@.map_values(|v: usize| v as int),
            jobs@.len() == tasks@.len(),
            forall |p: int| 0 <= p < ready@.len() ==> (#[trigger] ready@[p]) < tasks@.len(),
            forall |p: int| 0 <= p < i
                ==> jobs@[#[trigger] readym[p]].run_time
                    < model::job_cap(mode, jobs@[readym[p]], tasks@[readym[p]]),
        decreases ready@.len() - i,
    {
        let j = ready[i];
        proof {
            assert(readym[i as int] == j as int);
        }
        let jb2 = jobs[j];
        let tk2 = tasks[j];
        let cap2: TimeUnit = if matches!(mode, SimulatorMode::LMode)
            && jb2.exec_time > tk2.task.props().wcet_l {
            tk2.task.props().wcet_l
        } else {
            jb2.exec_time
        };
        if jb2.run_time >= cap2 {
            proof {
                assert(!model::ready_jobs_within_budgets(tasks@, jobs@, readym, mode));
            }
            return false;
        }
        i = i + 1;
    }
    true
}

/// The state `run_job` dispatches from: after the agent's pending mutation
/// was consumed, when the dispatched job is the agent's own.
pub open spec fn apply_stage(st: SimState, i: int) -> SimState {
    if st.agent_index == Some(i) {
        model::spec_apply_pending(st, i)
    } else {
        st
    }
}

/// Consuming the pending mutation keeps the engine invariant and leaves the
/// dispatched job ready for a context switch.
proof fn lemma_run_job_pre(st: SimState, i: int)
    requires
        model::rj_context(st, i),
    ensures
        model::cs_context(apply_stage(st, i), i),
        apply_stage(st, i).queue == st.queue,
        apply_stage(st, i).now == st.now,
        model::spec_run_job(st, i) == model::spec_context_switch(apply_stage(st, i), i),
{
    let st1 = apply_stage(st, i);
    if st.agent_index == Some(i) {
        match st.pending_agent_action {
            None => {
                assert(st1 =~= st);
            },
            Some(action) => {
                let t1 = action.0.spec_apply(st.tasks);
                let t2 = action.1.spec_apply(t1);
                let t3 = action.2.spec_apply(t2);
                action.0.lemma_apply_preserves_shape(st.tasks);
                action.1.lemma_apply_preserves_shape(t1);
                action.2.lemma_apply_preserves_shape(t2);
                assert(t3.len() == st.tasks.len());
                assert(forall |j: int| 0 <= j < st.tasks.len() ==> {
                    let a = #[trigger] t3[j];
                    let b = st.tasks[j];
                    &&& a.task.spec_props().id == b.task.spec_props().id
                    &&& a.task.spec_props().wcet_h == b.task.spec_props().wcet_h
                    &&& a.task.spec_props().offset == b.task.spec_props().offset
                    &&& a.task.spec_props().period == b.task.spec_props().period
                    &&& a.task.spec_is_high() == b.task.spec_is_high()
                    &&& a.spec_priority() == b.spec_priority()
                    &&& a.acet == b.acet
                    &&& a.next_arrival == b.next_arrival
                });
                assert forall |id: crate::task::TaskId| true
                    implies #[trigger] spec_find_task_index(t3, id)
                        == spec_find_task_index(st.tasks, id) by {
                    crate::agent::lemma_find_same_ids(st.tasks, t3, id);
                }
                let ok = crate::validation::feasible_schedule_online_spec(t3, st.cached)
                    && model::ready_jobs_within_budgets(t3, st.jobs, st.ready, st.mode)
                    && st.jobs[i].run_time < model::job_cap(st.mode, st.jobs[i], t3[i]);
                if ok {
                    assert(st1.tasks == t3);
                    assert(crate::validation::props_valid(t3));
                    assert forall |j: int| 0 <= j < t3.len()
                        implies model::valid_task(#[trigger] t3[j]) by {
                        assert(model::valid_task(st.tasks[j]));
                        assert(0 < t3[j].task.spec_props().wcet_l
                            && t3[j].task.spec_props().wcet_l <= t3[j].task.spec_props().wcet_h
                            && t3[j].task.spec_props().wcet_h <= t3[j].task.spec_props().period);
                    }
                    assert(model::wf_tasks(st1));
                    assert(model::wf_queue(st1)) by {
                        assert forall |p: int| 0 <= p < st1.queue.len()
                            implies model::ev_valid(st1.tasks, #[trigger] st1.queue[p])
                                && (st1.queue[p] is Start ==> {
                                    let k = model::idx_of(st1.tasks, model::ev_id(st1.queue[p]));
                                    &&& model::ev_time(st1.queue[p]) >= st1.tasks[k].next_arrival
                                    &&& st1.running != Some(k)
                                    &&& !st1.ready.contains(k)
                                }) by {
                            let e = st.queue[p];
                            assert(model::ev_valid(st.tasks, e));
                            assert(spec_find_task_index(t3, model::ev_id(e))
                                == spec_find_task_index(st.tasks, model::ev_id(e)));
                            lemma_find_props(st.tasks, model::ev_id(e));
                            let k = model::idx_of(st.tasks, model::ev_id(e));
                            assert(0 <= k < st.tasks.len());
                            if e is Start {
                                assert(model::ev_time(e) >= st.tasks[k].next_arrival);
                                assert(t3[k].next_arrival == st.tasks[k].next_arrival);
                            }
                        }
                    }
                    assert(model::wf_arrivals(st1)) by {
                        assert forall |j: int| 0 <= j < st1.tasks.len()
                            implies (#[trigger] st1.tasks[j]).next_arrival
                                <= model::max_time(st1.tasks[j].task.spec_props().offset,
                                    (st1.now + st1.tasks[j].task.spec_props().period) as u64) by {
                            assert(t3[j].next_arrival == st.tasks[j].next_arrival);
                            assert(t3[j].task.spec_props().offset == st.tasks[j].task.spec_props().offset);
                            assert(t3[j].task.spec_props().period == st.tasks[j].task.spec_props().period);
                            assert(st.tasks[j].next_arrival
                                <= model::max_time(st.tasks[j].task.spec_props().offset,
                                    (st.now + st.tasks[j].task.spec_props().period) as u64));
                        }
                    }
                    assert(model::wf_ready(st1));
                    assert(model::wf_mode(st1)) by {
                        if st.mode is HMode {
                            assert forall |p: int| 0 <= p < st1.queue.len()
                                implies st1.tasks[model::idx_of(st1.tasks, model::ev_id(#[trigger] st1.queue[p]))]
                                    .task.spec_is_high() by {
                                let e = st.queue[p];
                                assert(spec_find_task_index(t3, model::ev_id(e))
                                    == spec_find_task_index(st.tasks, model::ev_id(e)));
                                lemma_find_props(st.tasks, model::ev_id(e));
                                let k = model::idx_of(st.tasks, model::ev_id(e));
                                assert(0 <= k < st.tasks.len());
                                assert(st.tasks[k].task.spec_is_high());
                                assert(t3[k].task.spec_is_high() == st.tasks[k].task.spec_is_high());
                            }
                            assert forall |p: int| 0 <= p < st1.ready.len()
                                implies st1.tasks[#[trigger] st1.ready[p]].task.spec_is_high() by {
                                assert(st.tasks[st.ready[p]].task.spec_is_high());
                                assert(t3[st.ready[p]].task.spec_is_high()
                                    == st.tasks[st.ready[p]].task.spec_is_high());
                            }
                        }
                    }
                    assert(model::wf_running(st1) && model::wf_ends(st1));
                } else {
                    assert(st1.tasks == st.tasks);
                }
            },
        }
    }
    assert(model::wf(st1));
    assert(model::cs_context(st1, i));
}

/// Dispatch a job just popped from the ready queue.  The agent's own job
/// first consumes the pending budget mutation: it is applied, validated with
/// the online check, and rolled back in full when validation fails.
pub(crate) fn run_job(job: usize, simulator: &mut Simulator)
    requires
        model::rj_context(old(simulator)@, job as int),
    ensures
        final(simulator)@ == model::spec_run_job(old(simulator)@, job as int),
        model::wf(final(simulator)@),
        final(simulator)@.queue.len() >= 1,
        model::ends_at(final(simulator)@.queue, final(simulator)@.now)
            <= model::ends_at(old(simulator)@.queue, old(simulator)@.now),
        model::starts_at(final(simulator)@.queue, final(simulator)@.now)
            <= model::starts_at(old(simulator)@.queue, old(simulator)@.now),
{
    let ghost st0 = simulator@;
    let is_agent = match simulator.agent_index {
        Some(a) => a == job,
        None => false,
    };
    if is_agent {
        match simulator.pending_agent_action {
            None => {},
            Some(action) => {
                let snapshot = clone_tasks(&simulator.tasks);
                let (a0, a1, a2) = action;
                proof {
                    a0.lemma_apply_preserves_shape(st0.tasks);
                    if !a1.spec_is_noop() {
                        crate::agent::lemma_find_same_ids(
                            st0.tasks,
                            a0.spec_apply(st0.tasks),
                            a1.spec_task_id(),
                        );
                    }
                }
                a0.apply(&mut simulator.tasks);
                proof {
                    a1.lemma_apply_preserves_shape(simulator.tasks@);
                    if !a2.spec_is_noop() {
                        crate::agent::lemma_find_same_ids(
                            st0.tasks,
                            a0.spec_apply(st0.tasks),
                            a2.spec_task_id(),
                        );
                        crate::agent::lemma_find_same_ids(
                            a0.spec_apply(st0.tasks),
                            a1.spec_apply(a0.spec_apply(st0.tasks)),
                            a2.spec_task_id(),
                        );
                    }
                }
                a1.apply(&mut simulator.tasks);
                a2.apply(&mut simulator.tasks);
                proof {
                    assert forall |p: int| 0 <= p < simulator.ready_jobs_queue@.len()
                        implies (#[trigger] simulator.ready_jobs_queue@[p]) < simulator.tasks@.len() by {
                        a0.lemma_apply_preserves_shape(st0.tasks);
                        a1.lemma_apply_preserves_shape(a0.spec_apply(st0.tasks));
                        a2.lemma_apply_preserves_shape(a1.spec_apply(a0.spec_apply(st0.tasks)));
                        assert(st0.ready[p] == simulator.ready_jobs_queue@[p] as int);
                    }
                    a0.lemma_apply_preserves_shape(st0.tasks);
                    a1.lemma_apply_preserves_shape(a0.spec_apply(st0.tasks));
                    a2.lemma_apply_preserves_shape(a1.spec_apply(a0.spec_apply(st0.tasks)));
                    assert(simulator.tasks@.len() == st0.tasks.len());
                    assert(simulator.jobs@.len() == simulator.tasks@.len());
                }
                let ok1 = crate::validation::feasible_schedule_online(
                    &simulator.tasks,
                    &simulator.cached_response_times,
                );
                let ok2 = budgets_ok(
                    &simulator.tasks,
                    &simulator.jobs,
                    &simulator.ready_jobs_queue,
                    simulator.mode,
                    job,
                );
                if !(ok1 && ok2) {
                    simulator.tasks = snapshot;
                }
                simulator.pending_agent_action = None;
            },
        }
    }
    let ghost st1 = simulator@;
    proof {
        assert(st1 =~= apply_stage(st0, job as int));
        lemma_run_job_pre(st0, job as int);
    }
    context_switch(job, simulator);
    proof {
        assert(final(simulator)@ == model::spec_run_job(st0, job as int));
    }
}

/// The state in the middle of a Start handler: the arrival is recorded, the
/// task's next arrival advanced, and a fresh instance set up.
pub open spec fn start_mid(st: SimState, id: TaskId, t: TimeUnit) -> SimState {
    let i = model::idx_of(st.tasks, id);
    let task = st.tasks[i];
    SimState {
        history: st.history.push(SimulatorEvent::Start(id, t)),
        tasks: st.tasks.update(i, crate::task::SimulatorTask {
            next_arrival: (task.next_arrival + task.task.spec_props().period) as u64,
            ..task
        }),
        jobs: st.jobs.update(i, SimulatorJob { exec_time: task.acet, run_time: 0 }),
        ..st
    }
}

/// The first half of the Start handler keeps the invariant and leaves the
/// fresh job dispatchable.
proof fn lemma_handle_start_mid(st: SimState, id: TaskId, t: TimeUnit)
    requires
        model::start_context(st, id, t),
    ensures
        model::wf(start_mid(st, id, t)),
        model::cs_context(start_mid(st, id, t), model::idx_of(st.tasks, id)),
{
    let i = model::idx_of(st.tasks, id);
    lemma_find_props(st.tasks, id);
    let mid = start_mid(st, id, t);
    assert(forall |j: int| 0 <= j < st.tasks.len() && j != i
        ==> #[trigger] mid.tasks[j] == st.tasks[j]);
    assert(mid.tasks[i].task == st.tasks[i].task);
    assert forall |id2: TaskId| true
        implies #[trigger] spec_find_task_index(mid.tasks, id2)
            == spec_find_task_index(st.tasks, id2) by {
        crate::agent::lemma_find_same_ids(st.tasks, mid.tasks, id2);
    }
    assert(model::wf_tasks(mid)) by {
        assert(forall |j: int| 0 <= j < mid.tasks.len()
            ==> model::valid_task(#[trigger] mid.tasks[j]));
        match st.pending_agent_action {
            Some(a) => {
                assert(model::action_applicable(mid.tasks, a));
            },
            None => {},
        }
    }
    assert(model::wf_arrivals(mid)) by {
        assert(st.tasks[i].next_arrival <= t == st.now);
        assert(mid.tasks[i].next_arrival
            <= (st.now + mid.tasks[i].task.spec_props().period) as u64);
    }
    assert(model::wf_jobs(mid)) by {
        assert(model::valid_task(st.tasks[i]));
    }
    assert(model::wf_queue(mid)) by {
        assert forall |p: int| 0 <= p < mid.queue.len() && (#[trigger] mid.queue[p]) is Start
            implies {
            let k = model::idx_of(mid.tasks, model::ev_id(mid.queue[p]));
            &&& model::ev_time(mid.queue[p]) >= mid.tasks[k].next_arrival
            &&& mid.running != Some(k)
            &&& !mid.ready.contains(k)
        } by {
            let e = st.queue[p];
            assert(model::ev_valid(st.tasks, e));
            lemma_find_props(st.tasks, model::ev_id(e));
            let k = model::idx_of(st.tasks, model::ev_id(e));
            assert(model::ev_id(e) != id);
            if k == i {
                assert(st.tasks[k].task.spec_props().id == model::ev_id(e));
                assert(st.tasks[i].task.spec_props().id == id);
                assert(false);
            }
            assert(mid.tasks[k].next_arrival == st.tasks[k].next_arrival);
        }
    }
    assert(model::wf_running(mid)) by {
        match st.running {
            Some(r) => {
                assert(r != i);
                assert(mid.tasks[r] == st.tasks[r]);
                assert(mid.jobs[r] == st.jobs[r]);
            },
            None => {},
        }
    }
    assert(model::wf_ready(mid)) by {
        assert forall |p: int| 0 <= p < mid.ready.len()
            implies mid.jobs[#[trigger] mid.ready[p]].run_time
                < model::job_cap(mid.mode, mid.jobs[mid.ready[p]], mid.tasks[mid.ready[p]]) by {
            assert(st.ready[p] != i);
            assert(mid.jobs[st.ready[p]] == st.jobs[st.ready[p]]);
            assert(mid.tasks[st.ready[p]] == st.tasks[st.ready[p]]);
        }
    }
    assert(model::wf_ends(mid)) by {
        assert forall |p: int| 0 <= p < mid.queue.len() && (#[trigger] mid.queue[p]) is End
            implies mid.running == Some(model::idx_of(mid.tasks, model::ev_id(mid.queue[p]))) by {
            assert(st.running == Some(model::idx_of(st.tasks, model::ev_id(st.queue[p]))));
            assert(spec_find_task_index(mid.tasks, model::ev_id(st.queue[p]))
                == spec_find_task_index(st.tasks, model::ev_id(st.queue[p])));
        }
    }
    assert(model::wf_mode(mid)) by {
        if st.mode is HMode {
            assert forall |p: int| 0 <= p < mid.queue.len()
                implies mid.tasks[model::idx_of(mid.tasks, model::ev_id(#[trigger] mid.queue[p]))]
                    .task.spec_is_high() by {
                let e = st.queue[p];
                lemma_find_props(st.tasks, model::ev_id(e));
                assert(spec_find_task_index(mid.tasks, model::ev_id(e))
                    == spec_find_task_index(st.tasks, model::ev_id(e)));
                let k = model::idx_of(st.tasks, model::ev_id(e));
                assert(st.tasks[k].task.spec_is_high());
                assert(mid.tasks[k].task == st.tasks[k].task);
            }
            assert forall |p: int| 0 <= p < mid.ready.len()
                implies mid.tasks[#[trigger] mid.ready[p]].task.spec_is_high() by {
                assert(st.tasks[st.ready[p]].task.spec_is_high());
                assert(mid.tasks[st.ready[p]].task == st.tasks[st.ready[p]].task);
            }
        }
    }
    assert(model::wf_time(mid));
    // The fresh job is dispatchable.
    assert(mid.jobs[i].run_time == 0);
    assert(model::valid_task(st.tasks[i]));
    assert(model::job_cap(mid.mode, mid.jobs[i], mid.tasks[i]) >= 1);
    assert(model::cs_context(mid, i));
}

/// Handle an arrival event: record it, advance the task's next arrival,
/// start a fresh instance, and either take the processor at once or join
/// the ready queue.
pub fn handle_start_event(task: TaskId, time: TimeUnit, simulator: &mut Simulator)
    requires
        model::start_context(old(simulator)@, task, time),
    ensures
        final(simulator)@ == model::spec_handle_start(old(simulator)@, task, time),
        model::wf(final(simulator)@),
        final(simulator)@.queue.len() >= 1,
        final(simulator)@.now == old(simulator)@.now,
        model::ends_at(final(simulator)@.queue, final(simulator)@.now)
            <= model::ends_at(old(simulator)@.queue, old(simulator)@.now),
        model::starts_at(final(simulator)@.queue, final(simulator)@.now)
            <= model::starts_at(old(simulator)@.queue, old(simulator)@.now),
{
    let ghost st0 = simulator@;
    simulator.push_event(SimulatorEvent::Start(task, time));
    let i = match find_task_index(&simulator.tasks, task) {
        Some(i) => i,
        None => {
            proof {
                assert(false);
            }
            0
        },
    };
    proof {
        lemma_find_props(st0.tasks, task);
        assert(st0.tasks[i as int].next_arrival <= time);
        assert(model::valid_task(st0.tasks[i as int]));
        assert(model::wf_time(st0));
    }
    let period = simulator.tasks[i].task.props().period;
    let na = simulator.tasks[i].next_arrival;
    simulator.tasks[i].next_arrival = na + period;
    let exec_time = {
        let t = simulator.tasks[i];
        t.sample_execution_time()
    };
    simulator.jobs[i] = SimulatorJob { exec_time, run_time: 0 };
    let ghost mid = simulator@;
    proof {
        assert(mid =~= start_mid(st0, task, time));
        lemma_handle_start_mid(st0, task, time);
    }
    let preempt = match simulator.running_job {
        None => true,
        Some(r) => {
            // An arrival of merely equal priority does not preempt.
            let pi = simulator.tasks[i].priority();
            let pr = simulator.tasks[r].priority();
            pi < pr
        },
    };
    proof {
        assert(preempt == match mid.running {
            None => true,
            Some(r) => mid.tasks[i as int].spec_priority() < mid.tasks[r].spec_priority(),
        });
    }
    if preempt {
        context_switch(i, simulator);
        proof {
            assert(final(simulator)@ == model::spec_handle_start(st0, task, time));
        }
    } else {
        simulator.ready_jobs_queue.push(i);
        proof {
            assert(final(simulator)@ =~= (SimState { ready: mid.ready.push(i as int), ..mid }));
            assert(final(simulator)@ == model::spec_handle_start(st0, task, time));
            let post = final(simulator)@;
            assert(model::wf_queue(post)) by {
                assert forall |p: int| 0 <= p < post.queue.len() && (#[trigger] post.queue[p]) is Start
                    implies !post.ready.contains(model::idx_of(post.tasks, model::ev_id(post.queue[p]))) by {
                    let e = st0.queue[p];
                    lemma_find_props(st0.tasks, model::ev_id(e));
                    assert(forall |j: int| 0 <= j < st0.tasks.len()
                        ==> (#[trigger] mid.tasks[j]).task.spec_props().id
                            == st0.tasks[j].task.spec_props().id);
                    crate::agent::lemma_find_same_ids(st0.tasks, mid.tasks, model::ev_id(e));
                    let k = model::idx_of(mid.tasks, model::ev_id(mid.queue[p]));
                    assert(k == model::idx_of(st0.tasks, model::ev_id(e)));
                    assert(!mid.ready.contains(k));
                    assert(k != i as int) by {
                        lemma_find_props(st0.tasks, task);
                        if k == i as int {
                            assert(st0.tasks[k].task.spec_props().id == model::ev_id(e));
                            assert(st0.tasks[i as int].task.spec_props().id == task);
                            assert(false);
                        }
                    }
                    if post.ready.contains(k) {
                        let q = choose |q: int| 0 <= q < post.ready.len() && post.ready[q] == k;
                        assert(forall |q2: int| 0 <= q2 < mid.ready.len()
                            ==> post.ready[q2] == #[trigger] mid.ready[q2]);
                        assert(q == mid.ready.len());
                        assert(false);
                    }
                }
            }
            assert(model::wf_ready(post)) by {
                assert(forall |q2: int| 0 <= q2 < mid.ready.len()
                    ==> post.ready[q2] == #[trigger] mid.ready[q2]);
                assert(post.ready[mid.ready.len() as int] == i as int);
                assert(forall |q2: int| 0 <= q2 < mid.ready.len()
                    ==> #[trigger] mid.ready[q2] != i as int) by {
                    assert(!mid.ready.contains(i as int));
                }
                assert(post.jobs[i as int].run_time
                    < model::job_cap(post.mode, post.jobs[i as int], post.tasks[i as int]));
                assert(post.running != Some(i as int));
            }
            assert(model::wf_mode(post)) by {
                if post.mode is HMode {
                    assert(st0.tasks[i as int].task.spec_is_high());
                }
            }
            assert(model::wf(post));
        }
    }
}

/// The state in the middle of an End handler: the termination is recorded,
/// the next arrival queued, the run time settled, and the processor freed.
pub open spec fn end_mid(st: SimState, id: TaskId, t: TimeUnit, reason: EndReason) -> SimState {
    let i = model::idx_of(st.tasks, id);
    SimState {
        history: st.history.push(SimulatorEvent::End(id, t, reason)),
        queue: st.queue.push(SimulatorEvent::Start(
            id,
            model::max_time(st.now, st.tasks[i].next_arrival),
        )),
        jobs: st.jobs.update(i, SimulatorJob {
            run_time: (st.jobs[i].run_time + (st.now - st.last_context_switch)) as u64,
            ..st.jobs[i]
        }),
        running: None,
        ..st
    }
}

/// The first half of the End handler keeps the invariant and leaves the
/// processor free with no pending End event.
proof fn lemma_handle_end_mid(st: SimState, id: TaskId, t: TimeUnit, reason: EndReason)
    requires
        model::end_context(st, id, t),
    ensures
        model::wf(end_mid(st, id, t, reason)),
        end_mid(st, id, t, reason).running is None,
        forall |p: int| 0 <= p < end_mid(st, id, t, reason).queue.len()
            ==> !((#[trigger] end_mid(st, id, t, reason).queue[p]) is End),
        end_mid(st, id, t, reason).queue.len() >= 1,
        model::ends_at(end_mid(st, id, t, reason).queue, st.now)
            <= model::ends_at(st.queue, st.now),
{
    let i = model::idx_of(st.tasks, id);
    lemma_find_props(st.tasks, id);
    let mid = end_mid(st, id, t, reason);
    let fresh = SimulatorEvent::Start(id, model::max_time(st.now, st.tasks[i].next_arrival));
    assert(mid.queue == st.queue.push(fresh));
    assert(forall |p: int| 0 <= p < st.queue.len()
        ==> mid.queue[p] == #[trigger] st.queue[p]);
    assert(mid.queue[st.queue.len() as int] == fresh);
    assert(model::wf_jobs(mid)) by {
        assert(st.jobs[i].run_time + (st.now - st.last_context_switch)
            == model::job_cap(st.mode, st.jobs[i], st.tasks[i]));
        assert(model::valid_task(st.tasks[i]));
    }
    assert(model::wf_queue(mid)) by {
        assert(model::valid_task(st.tasks[i]));
        assert(st.tasks[i].next_arrival <= model::max_time(
            st.tasks[i].task.spec_props().offset,
            (st.now + st.tasks[i].task.spec_props().period) as u64,
        ));
        assert(st.now <= model::ev_time(fresh) <= st.now + TIME_LIMIT);
        assert forall |p: int| 0 <= p < mid.queue.len() && (#[trigger] mid.queue[p]) is Start
            implies {
            let k = model::idx_of(mid.tasks, model::ev_id(mid.queue[p]));
            &&& model::ev_time(mid.queue[p]) >= mid.tasks[k].next_arrival
            &&& mid.running != Some(k)
            &&& !mid.ready.contains(k)
        } by {
            if p < st.queue.len() {
                assert(st.queue[p] is Start);
            } else {
                assert(mid.queue[p] == fresh);
                assert(model::idx_of(st.tasks, id) == i);
                assert(!st.ready.contains(i)) by {
                    if st.ready.contains(i) {
                        let q = choose |q: int| 0 <= q < st.ready.len() && st.ready[q] == i;
                        assert(st.running != Some(st.ready[q]));
                        assert(false);
                    }
                }
            }
        }
    }
    assert(model::wf_ready(mid)) by {
        assert forall |p: int| 0 <= p < mid.ready.len()
            implies mid.jobs[#[trigger] mid.ready[p]].run_time
                < model::job_cap(mid.mode, mid.jobs[mid.ready[p]], mid.tasks[mid.ready[p]]) by {
            assert(st.running != Some(st.ready[p]));
            assert(st.ready[p] != i);
            assert(mid.jobs[st.ready[p]] == st.jobs[st.ready[p]]);
        }
    }
    assert(model::wf_mode(mid)) by {
        if st.mode is HMode {
            assert(st.tasks[i].task.spec_is_high());
        }
    }
    assert(model::wf_tasks(mid) && model::wf_time(mid) && model::wf_arrivals(mid)
        && model::wf_running(mid) && model::wf_ends(mid));
    model::lemma_counts_push(st.queue, fresh, st.now);
}

/// Handle a termination event: record it, schedule the task's next arrival,
/// settle the job's run time and free the processor; a budget exceedance
/// kills a low-criticality instance or escalates to high mode; then either
/// fall idle (dropping back to low mode) or dispatch the best ready job.
pub fn handle_end_event(task: TaskId, time: TimeUnit, reason: EndReason, simulator: &mut Simulator)
    requires
        model::end_context(old(simulator)@, task, time),
    ensures
        final(simulator)@ == model::spec_handle_end(old(simulator)@, task, time, reason),
        model::wf(final(simulator)@),
        final(simulator)@.queue.len() >= 1,
        final(simulator)@.now == old(simulator)@.now,
        model::ends_at(final(simulator)@.queue, final(simulator)@.now)
            <= model::ends_at(old(simulator)@.queue, old(simulator)@.now),
{
    let ghost st0 = simulator@;
    simulator.push_event(SimulatorEvent::End(task, time, reason));
    let i = match find_task_index(&simulator.tasks, task) {
        Some(i) => i,
        None => {
            proof {
                assert(false);
            }
            0
        },
    };
    let na = simulator.tasks[i].next_arrival;
    let start_time: TimeUnit = if simulator.now >= na { simulator.now } else { na };
    proof {
        assert(model::valid_task(st0.tasks[i as int]));
    }
    simulator.event_queue.push(SimulatorEvent::Start(task, start_time));
    let elapsed = simulator.now - simulator.last_context_switch;
    let old_run = simulator.jobs[i].run_time;
    simulator.jobs[i].run_time = old_run + elapsed;
    simulator.running_job = None;
    let ghost st4 = simulator@;
    proof {
        assert(st4 =~= end_mid(st0, task, time, reason));
        lemma_handle_end_mid(st0, task, time, reason);
    }
    if matches!(reason, EndReason::BudgetExceedance) {
        let high = simulator.tasks[i].task.is_high();
        if !high {
            let nw = simulator.now;
            simulator.push_event(SimulatorEvent::TaskKill(task, nw));
        } else {
            proof {
                assert(model::cm_context(st4, SimulatorMode::HMode));
            }
            change_mode(SimulatorMode::HMode, simulator);
        }
    }
    let ghost st5 = simulator@;
    proof {
        // After the budget handling, the invariant still holds, the
        // processor is free and no End event is queued.
        if reason is BudgetExceedance && !st0.tasks[i as int].task.spec_is_high() {
            assert(st5 =~= (SimState {
                history: st4.history.push(SimulatorEvent::TaskKill(task, st4.now)),
                ..st4
            }));
            assert(model::wf(st5));
        }
        assert(model::wf(st5));
        assert(st5.running is None);
        assert(forall |p: int| 0 <= p < st5.queue.len()
            ==> !((#[trigger] st5.queue[p]) is End));
        assert(st5.now == st0.now);
        assert(model::ends_at(st5.queue, st5.now) <= model::ends_at(st0.queue, st0.now));
    }
    if simulator.ready_jobs_queue.len() == 0 {
        if matches!(simulator.mode, SimulatorMode::HMode) {
            proof {
                assert(model::cm_context(st5, SimulatorMode::LMode));
            }
            change_mode(SimulatorMode::LMode, simulator);
        }
        proof {
            assert(model::wf(simulator@)) by {
                if !(st5.mode is HMode) {
                    assert(simulator@ == st5);
                }
            }
            assert(final(simulator)@ == model::spec_handle_end(st0, task, time, reason));
        }
    } else {
        let p = simulator.best_ready_index();
        let r = simulator.ready_jobs_queue.remove(p);
        let ghost st6 = simulator@;
        proof {
            model::lemma_min_ready_idx(st5.tasks, st5.ready);
            assert(st6 =~= (SimState { ready: st5.ready.remove(p as int), ..st5 }));
            assert(st5.ready[p as int] == r as int);
            lemma_dispatch_pre(st5, p as int);
        }
        run_job(r, simulator);
        proof {
            assert(final(simulator)@ == model::spec_handle_end(st0, task, time, reason));
        }
    }
}

/// Popping the best ready job from an idle, End-free, well-formed state
/// leaves a state from which it can be dispatched.
proof fn lemma_dispatch_pre(st: SimState, p: int)
    requires
        model::wf(st),
        st.running is None,
        forall |q: int| 0 <= q < st.queue.len() ==> !((#[trigger] st.queue[q]) is End),
        0 <= p < st.ready.len(),
    ensures
        model::rj_context(SimState { ready: st.ready.remove(p), ..st }, st.ready[p]),
{
    let r = st.ready[p];
    let st6 = SimState { ready: st.ready.remove(p), ..st };
    assert(forall |q: int| 0 <= q < p ==> st6.ready[q] == #[trigger] st.ready[q]);
    assert(forall |q: int| p <= q < st6.ready.len() ==> st6.ready[q] == #[trigger] st.ready[q + 1]);
    assert(model::wf_ready(st6)) by {
        assert forall |q1: int, q2: int| #![trigger st6.ready[q1], st6.ready[q2]]
            0 <= q1 < q2 < st6.ready.len()
            implies st6.ready[q1] != st6.ready[q2] by {
            if q1 < p && q2 < p {
                assert(st.ready[q1] != st.ready[q2]);
            } else if q1 < p {
                assert(st.ready[q1] != st.ready[q2 + 1]);
            } else {
                assert(st.ready[q1 + 1] != st.ready[q2 + 1]);
            }
        }
    }
    assert(model::wf_queue(st6)) by {
        assert forall |q: int| 0 <= q < st6.queue.len() && (#[trigger] st6.queue[q]) is Start
            implies !st6.ready.contains(model::idx_of(st6.tasks, model::ev_id(st6.queue[q]))) by {
            let k = model::idx_of(st.tasks, model::ev_id(st.queue[q]));
            assert(!st.ready.contains(k));
            if st6.ready.contains(k) {
                let q2 = choose |q2: int| 0 <= q2 < st6.ready.len() && st6.ready[q2] == k;
                if q2 < p {
                    assert(st.ready[q2] == k);
                } else {
                    assert(st.ready[q2 + 1] == k);
                }
                assert(false);
            }
        }
    }
    assert(model::wf(st6));
    assert(!st6.ready.contains(r)) by {
        if st6.ready.contains(r) {
            let q2 = choose |q2: int| 0 <= q2 < st6.ready.len() && st6.ready[q2] == r;
            if q2 < p {
                assert(st.ready[q2] == st.ready[p]);
            } else {
                assert(st.ready[q2 + 1] == st.ready[p]);
            }
            assert(false);
        }
    }
    assert forall |q: int| 0 <= q < st6.queue.len()
        implies model::ev_id(#[trigger] st6.queue[q]) != st6.tasks[r].task.spec_props().id by {
        if model::ev_id(st.queue[q]) == st.tasks[r].task.spec_props().id {
            lemma_find_unique(st.tasks, r);
            assert(st.queue[q] is Start);
            assert(!st.ready.contains(model::idx_of(st.tasks, model::ev_id(st.queue[q]))));
            assert(st.ready.contains(r)) by {
                assert(st.ready[p] == r);
            }
            assert(false);
        }
    }
    assert(model::rj_context(st6, r));
}

impl SimulatorEvent {
    /// Dispatch a popped scheduling event to its handler.  Only Start and
    /// End events drive the simulation.
    pub fn handle(&self, simulator: &mut Simulator)
        requires
            match *self {
                SimulatorEvent::Start(id, t) => model::start_context(old(simulator)@, id, t),
                SimulatorEvent::End(id, t, _) => model::end_context(old(simulator)@, id, t),
                _ => false,
            },
        ensures
            final(simulator)@ == match *self {
                SimulatorEvent::Start(id, t) => model::spec_handle_start(old(simulator)@, id, t),
                SimulatorEvent::End(id, t, reason) =>
                    model::spec_handle_end(old(simulator)@, id, t, reason),
                _ => old(simulator)@,
            },
            model::wf(final(simulator)@),
            final(simulator)@.queue.len() >= 1,
            final(simulator)@.now == old(simulator)@.now,
            model::ends_at(final(simulator)@.queue, final(simulator)@.now)
                <= model::ends_at(old(simulator)@.queue, old(simulator)@.now),
            *self is Start ==> model::starts_at(final(simulator)@.queue, final(simulator)@.now)
                <= model::starts_at(old(simulator)@.queue, old(simulator)@.now),
    {
        match self {
            SimulatorEvent::Start(id, t) => {
                handle_start_event(*id, *t, simulator);
            },
            SimulatorEvent::End(id, t, reason) => {
                handle_end_event(*id, *t, *reason, simulator);
            },
            _ => {
                proof {
                    assert(false);
                }
            },
        }
    }
}

/// The context switch only removes or future-schedules events, so the
/// progress counts at the current instant cannot grow.
proof fn lemma_context_switch_counts(st: SimState, i: int)
    requires
        model::cs_context(st, i),
    ensures
        model::ends_at(model::spec_context_switch(st, i).queue, st.now)
            <= model::ends_at(st.queue, st.now),
        model::starts_at(model::spec_context_switch(st, i).queue, st.now)
            <= model::starts_at(st.queue, st.now),
{
    let post = model::spec_context_switch(st, i);
    let capi = model::job_cap(st.mode, st.jobs[i], st.tasks[i]);
    let tend = (st.now + capi - st.jobs[i].run_time) as u64;
    assert(tend > st.now);
    match st.running {
        Some(r) => {
            let id_r = st.tasks[r].task.spec_props().id;
            model::lemma_counts_without(st.queue, id_r, st.now);
            model::lemma_counts_push(
                model::events_without(st.queue, id_r),
                post.queue[post.queue.len() - 1],
                st.now,
            );
        },
        None => {
            model::lemma_counts_push(st.queue, post.queue[post.queue.len() - 1], st.now);
        },
    }
}

} // verus!
