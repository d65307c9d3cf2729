//! The mathematical model of the discrete-event engine: a state record and a
//! pure transition function over it.  The executable engine in `simulator`
//! and `handlers` is proved to follow this model step by step, which pins the
//! whole simulation down as a function of the initial state.

use vstd::prelude::*;

use crate::agent::{spec_find_task_index, SimulatorAction};
use crate::simulator::{EndReason, SimulatorEvent, SimulatorJob, SimulatorMode, TIME_LIMIT};
use crate::task::{SimulatorTask, TaskId, TimeUnit};
use crate::validation::feasible_schedule_online_spec;

verus! {

/// The complete state of one simulation run.  Tasks and jobs form an arena;
/// `running`, `ready` and the events refer to tasks by arena index or by
/// identifier, never by pointer.
#[verifier::ext_equal]
pub ghost struct SimState {
    pub tasks: Seq<SimulatorTask>,
    pub jobs: Seq<SimulatorJob>,
    pub running: Option<int>,
    pub ready: Seq<int>,
    pub queue: Seq<SimulatorEvent>,
    pub history: Seq<SimulatorEvent>,
    pub ticks: Seq<Option<TaskId>>,
    pub now: TimeUnit,
    pub last_context_switch: TimeUnit,
    pub mode: SimulatorMode,
    pub pending_agent_action: Option<SimulatorAction>,
    pub agent_index: Option<int>,
    pub cached: Seq<Option<TimeUnit>>,
}

// ---------------------------------------------------------------------------
// Events and ordering
// ---------------------------------------------------------------------------

pub open spec fn ev_time(e: SimulatorEvent) -> TimeUnit {
    match e {
        SimulatorEvent::Start(_, t) => t,
        SimulatorEvent::End(_, t, _) => t,
        SimulatorEvent::TaskKill(_, t) => t,
        SimulatorEvent::ModeChange(_, t) => t,
    }
}

pub open spec fn ev_id(e: SimulatorEvent) -> TaskId {
    match e {
        SimulatorEvent::Start(id, _) => id,
        SimulatorEvent::End(id, _, _) => id,
        SimulatorEvent::TaskKill(id, _) => id,
        SimulatorEvent::ModeChange(_, _) => 0,
    }
}

/// The arena index of the task with identifier `id` (the first one, and
/// under distinct identifiers the only one).
pub open spec fn idx_of(tasks: Seq<SimulatorTask>, id: TaskId) -> int {
    match spec_find_task_index(tasks, id) {
        Some(i) => i,
        None => 0,
    }
}

/// Total priority order on jobs: by priority value, ties broken by task
/// identifier.  `a` precedes `b` when the job of task index `a` is
/// dispatched in preference to that of `b`.
pub open spec fn job_precedes(tasks: Seq<SimulatorTask>, a: int, b: int) -> bool {
    let pa = tasks[a].spec_priority();
    let pb = tasks[b].spec_priority();
    ||| pa < pb
    ||| (pa == pb && tasks[a].task.spec_props().id < tasks[b].task.spec_props().id)
}

/// End events sort before Start events at the same instant.
pub open spec fn ev_rank(e: SimulatorEvent) -> int {
    match e {
        SimulatorEvent::End(_, _, _) => 0,
        SimulatorEvent::Start(_, _) => 1,
        SimulatorEvent::TaskKill(_, _) => 2,
        SimulatorEvent::ModeChange(_, _) => 3,
    }
}

/// The total order of the event queue: time ascending; at equal times an End
/// strictly precedes a Start; among equals, the higher-priority task first.
pub open spec fn event_precedes(tasks: Seq<SimulatorTask>, a: SimulatorEvent, b: SimulatorEvent) -> bool {
    ||| ev_time(a) < ev_time(b)
    ||| (ev_time(a) == ev_time(b) && ev_rank(a) < ev_rank(b))
    ||| (ev_time(a) == ev_time(b) && ev_rank(a) == ev_rank(b)
        && job_precedes(tasks, idx_of(tasks, ev_id(a)), idx_of(tasks, ev_id(b))))
}

/// The position the engine pops next among the first `n` queue entries: the
/// earliest minimal event, exactly as a left-to-right scan finds it.
pub open spec fn min_ev_idx_upto(tasks: Seq<SimulatorTask>, queue: Seq<SimulatorEvent>, n: nat) -> int
    decreases n,
{
    if n <= 1 {
        0
    } else {
        let b = min_ev_idx_upto(tasks, queue, (n - 1) as nat);
        if event_precedes(tasks, queue[n - 1], queue[b]) {
            n - 1
        } else {
            b
        }
    }
}

pub open spec fn min_ev_idx(tasks: Seq<SimulatorTask>, queue: Seq<SimulatorEvent>) -> int {
    min_ev_idx_upto(tasks, queue, queue.len())
}

/// The ready-queue position the engine dispatches next: the earliest entry
/// of highest priority.
pub open spec fn min_ready_idx_upto(tasks: Seq<SimulatorTask>, ready: Seq<int>, n: nat) -> int
    decreases n,
{
    if n <= 1 {
        0
    } else {
        let b = min_ready_idx_upto(tasks, ready, (n - 1) as nat);
        if job_precedes(tasks, ready[n - 1], ready[b]) {
            n - 1
        } else {
            b
        }
    }
}

pub open spec fn min_ready_idx(tasks: Seq<SimulatorTask>, ready: Seq<int>) -> int {
    min_ready_idx_upto(tasks, ready, ready.len())
}

proof fn lemma_min_ev_idx_upto(tasks: Seq<SimulatorTask>, queue: Seq<SimulatorEvent>, n: nat)
    requires
        1 <= n <= queue.len(),
    ensures
        0 <= min_ev_idx_upto(tasks, queue, n) < n,
        forall |j: int| 0 <= j < n ==> !event_precedes(
            tasks,
            #[trigger] queue[j],
            queue[min_ev_idx_upto(tasks, queue, n)],
        ),
    decreases n,
{
    if n > 1 {
        lemma_min_ev_idx_upto(tasks, queue, (n - 1) as nat);
        let b = min_ev_idx_upto(tasks, queue, (n - 1) as nat);
        let m = min_ev_idx_upto(tasks, queue, n);
        assert forall |j: int| 0 <= j < n implies !event_precedes(tasks, #[trigger] queue[j], queue[m]) by {
            if j < n - 1 {
                if event_precedes(tasks, queue[n - 1], queue[b]) {
                    // m == n - 1; a j preceding it would also precede b.
                    if event_precedes(tasks, queue[j], queue[m]) {
                        lemma_event_precedes_trans(tasks, queue[j], queue[n - 1], queue[b]);
                    }
                }
            } else {
                if !event_precedes(tasks, queue[n - 1], queue[b]) {
                    // m == b; the scan did not move, so queue[n - 1] does not
                    // precede it.
                }
            }
        }
    }
}

pub proof fn lemma_min_ev_idx(tasks: Seq<SimulatorTask>, queue: Seq<SimulatorEvent>)
    requires
        queue.len() >= 1,
    ensures
        0 <= min_ev_idx(tasks, queue) < queue.len(),
        forall |j: int| 0 <= j < queue.len() ==> !event_precedes(
            tasks,
            #[trigger] queue[j],
            queue[min_ev_idx(tasks, queue)],
        ),
{
    lemma_min_ev_idx_upto(tasks, queue, queue.len());
}

proof fn lemma_event_precedes_trans(
    tasks: Seq<SimulatorTask>,
    a: SimulatorEvent,
    b: SimulatorEvent,
    c: SimulatorEvent,
)
    requires
        event_precedes(tasks, a, b),
        event_precedes(tasks, b, c),
    ensures
        event_precedes(tasks, a, c),
{
}

pub proof fn lemma_min_ready_idx(tasks: Seq<SimulatorTask>, ready: Seq<int>)
    requires
        ready.len() >= 1,
    ensures
        0 <= min_ready_idx(tasks, ready) < ready.len(),
{
    lemma_min_ready_idx_upto_range(tasks, ready, ready.len());
}

proof fn lemma_min_ready_idx_upto_range(tasks: Seq<SimulatorTask>, ready: Seq<int>, n: nat)
    requires
        1 <= n <= ready.len(),
    ensures
        0 <= min_ready_idx_upto(tasks, ready, n) < n,
    decreases n,
{
    if n > 1 {
        lemma_min_ready_idx_upto_range(tasks, ready, (n - 1) as nat);
    }
}

// ---------------------------------------------------------------------------
// Derived queue views
// ---------------------------------------------------------------------------

/// The queue with every event of task `id` taken out (cancellation).
pub open spec fn events_without(queue: Seq<SimulatorEvent>, id: TaskId) -> Seq<SimulatorEvent>
    decreases queue.len(),
{
    if queue.len() == 0 {
        Seq::empty()
    } else {
        let rest = events_without(queue.drop_last(), id);
        if ev_id(queue.last()) == id {
            rest
        } else {
            rest.push(queue.last())
        }
    }
}

/// The queue restricted to events of high-criticality tasks (entering high
/// mode purges everything else).
pub open spec fn events_of_high(tasks: Seq<SimulatorTask>, queue: Seq<SimulatorEvent>) -> Seq<SimulatorEvent>
    decreases queue.len(),
{
    if queue.len() == 0 {
        Seq::empty()
    } else {
        let rest = events_of_high(tasks, queue.drop_last());
        if tasks[idx_of(tasks, ev_id(queue.last()))].task.spec_is_high() {
            rest.push(queue.last())
        } else {
            rest
        }
    }
}

/// The ready queue restricted to high-criticality jobs.
pub open spec fn ready_of_high(tasks: Seq<SimulatorTask>, ready: Seq<int>) -> Seq<int>
    decreases ready.len(),
{
    if ready.len() == 0 {
        Seq::empty()
    } else {
        let rest = ready_of_high(tasks, ready.drop_last());
        if tasks[ready.last()].task.spec_is_high() {
            rest.push(ready.last())
        } else {
            rest
        }
    }
}

pub open spec fn max_time(a: TimeUnit, b: TimeUnit) -> TimeUnit {
    if a >= b {
        a
    } else {
        b
    }
}

/// Fresh Start events for the low-criticality tasks among the first `n`,
/// scheduled at their next arrival or at once if that lies in the past.
pub open spec fn l_start_events(tasks: Seq<SimulatorTask>, now: TimeUnit, n: nat) -> Seq<SimulatorEvent>
    decreases n,
{
    if n == 0 || n > tasks.len() {
        Seq::empty()
    } else {
        let rest = l_start_events(tasks, now, (n - 1) as nat);
        let t = tasks[n - 1];
        if !t.task.spec_is_high() {
            rest.push(SimulatorEvent::Start(t.task.spec_props().id, max_time(now, t.next_arrival)))
        } else {
            rest
        }
    }
}

/// The initial Start events, one per task at its offset.
pub open spec fn init_events(tasks: Seq<SimulatorTask>, n: nat) -> Seq<SimulatorEvent>
    decreases n,
{
    if n == 0 || n > tasks.len() {
        Seq::empty()
    } else {
        init_events(tasks, (n - 1) as nat).push(SimulatorEvent::Start(
            tasks[n - 1].task.spec_props().id,
            tasks[n - 1].task.spec_props().offset,
        ))
    }
}

// ---------------------------------------------------------------------------
// Transition functions
// ---------------------------------------------------------------------------

/// The execution budget that bounds the current instance of job `i`: in low
/// mode the low-mode budget if the sampled execution time overruns it, else
/// the execution time itself.
pub open spec fn job_cap(mode: SimulatorMode, job: SimulatorJob, t: SimulatorTask) -> TimeUnit {
    if mode is LMode && job.exec_time > t.task.spec_props().wcet_l {
        t.task.spec_props().wcet_l
    } else {
        job.exec_time
    }
}

/// Queue the termination event of job `i`, just dispatched at `st.now`: at
/// budget exhaustion in low mode, else at completion of its execution time.
pub open spec fn spec_schedule_termination(st: SimState, i: int) -> SimState {
    let job = st.jobs[i];
    let t = st.tasks[i];
    let budget_exceeded = st.mode is LMode && job.exec_time > t.task.spec_props().wcet_l;
    let cap = job_cap(st.mode, job, t);
    let time = (st.now + cap - job.run_time) as u64;
    let reason = if budget_exceeded {
        EndReason::BudgetExceedance
    } else {
        EndReason::JobCompletion
    };
    SimState {
        queue: st.queue.push(SimulatorEvent::End(t.task.spec_props().id, time, reason)),
        ..st
    }
}

/// Put job `i` on the processor: preempt and re-queue the running job (its
/// pending termination event is cancelled and its run time settled), then
/// queue the termination event of `i`.
pub open spec fn spec_context_switch(st: SimState, i: int) -> SimState {
    let st1 = match st.running {
        Some(r) => SimState {
            queue: events_without(st.queue, st.tasks[r].task.spec_props().id),
            jobs: st.jobs.update(r, SimulatorJob {
                run_time: (st.jobs[r].run_time + (st.now - st.last_context_switch)) as u64,
                ..st.jobs[r]
            }),
            ready: st.ready.push(r),
            ..st
        },
        None => st,
    };
    let st2 = spec_schedule_termination(st1, i);
    SimState { running: Some(i), last_context_switch: st.now, ..st2 }
}

/// Every ready job still fits its budget under the (possibly mutated) task
/// parameters; a mutation that would strand an already-running instance
/// beyond its budget is rejected like any other infeasible one.
pub open spec fn ready_jobs_within_budgets(
    tasks: Seq<SimulatorTask>,
    jobs: Seq<SimulatorJob>,
    ready: Seq<int>,
    mode: SimulatorMode,
) -> bool {
    forall |p: int| 0 <= p < ready.len()
        ==> jobs[#[trigger] ready[p]].run_time < job_cap(mode, jobs[ready[p]], tasks[ready[p]])
}

/// Consume the pending budget mutation, if any: apply its three parts in
/// order, validate the result with the online schedulability check — the
/// mutation must also leave the in-flight instances (the ready jobs and the
/// job `i` about to be dispatched) within their budgets — and keep the old
/// task set when validation fails.
pub open spec fn spec_apply_pending(st: SimState, i: int) -> SimState {
    match st.pending_agent_action {
        None => st,
        Some(action) => {
            let mutated = action.2.spec_apply(action.1.spec_apply(action.0.spec_apply(st.tasks)));
            let ok = feasible_schedule_online_spec(mutated, st.cached)
                && ready_jobs_within_budgets(mutated, st.jobs, st.ready, st.mode)
                && st.jobs[i].run_time < job_cap(st.mode, st.jobs[i], mutated[i]);
            SimState {
                tasks: if ok { mutated } else { st.tasks },
                pending_agent_action: None,
                ..st
            }
        },
    }
}

/// Dispatch job `i` popped from the ready queue; the agent's own job first
/// applies the pending mutation.
pub open spec fn spec_run_job(st: SimState, i: int) -> SimState {
    let st1 = if st.agent_index == Some(i) {
        spec_apply_pending(st, i)
    } else {
        st
    };
    spec_context_switch(st1, i)
}

/// Change the scheduling mode.  Entering low mode re-admits every
/// low-criticality task; entering high mode purges their events and evicts
/// their ready jobs.
pub open spec fn spec_change_mode(st: SimState, to: SimulatorMode) -> SimState {
    let st1 = SimState {
        mode: to,
        history: st.history.push(SimulatorEvent::ModeChange(to, st.now)),
        ..st
    };
    if to is LMode {
        SimState {
            queue: st1.queue + l_start_events(st1.tasks, st1.now, st1.tasks.len()),
            ..st1
        }
    } else {
        SimState {
            queue: events_of_high(st1.tasks, st1.queue),
            ready: ready_of_high(st1.tasks, st1.ready),
            ..st1
        }
    }
}

/// Handle an arrival: record it, advance the task's next arrival by one
/// period, start a fresh instance, and either take the processor (when idle
/// or strictly higher priority than the running job — an arrival of equal
/// priority never preempts) or join the ready queue.
pub open spec fn spec_handle_start(st: SimState, id: TaskId, t: TimeUnit) -> SimState {
    let i = idx_of(st.tasks, id);
    let task = st.tasks[i];
    let st1 = SimState {
        history: st.history.push(SimulatorEvent::Start(id, t)),
        tasks: st.tasks.update(i, SimulatorTask {
            next_arrival: (task.next_arrival + task.task.spec_props().period) as u64,
            ..task
        }),
        jobs: st.jobs.update(i, SimulatorJob { exec_time: task.acet, run_time: 0 }),
        ..st
    };
    let preempt = match st1.running {
        None => true,
        Some(r) => st1.tasks[i].spec_priority() < st1.tasks[r].spec_priority(),
    };
    if preempt {
        spec_context_switch(st1, i)
    } else {
        SimState { ready: st1.ready.push(i), ..st1 }
    }
}

/// Handle a termination: record it, schedule the task's next arrival, settle
/// the job's run time, free the processor; a budget exceedance kills a
/// low-criticality instance or escalates to high mode; then either fall idle
/// (dropping back to low mode) or dispatch the best ready job.
pub open spec fn spec_handle_end(st: SimState, id: TaskId, t: TimeUnit, reason: EndReason) -> SimState {
    let i = idx_of(st.tasks, id);
    let st1 = SimState { history: st.history.push(SimulatorEvent::End(id, t, reason)), ..st };
    let st2 = SimState {
        queue: st1.queue.push(SimulatorEvent::Start(id, max_time(st1.now, st1.tasks[i].next_arrival))),
        ..st1
    };
    let st3 = SimState {
        jobs: st2.jobs.update(i, SimulatorJob {
            run_time: (st2.jobs[i].run_time + (st2.now - st2.last_context_switch)) as u64,
            ..st2.jobs[i]
        }),
        ..st2
    };
    let st4 = SimState { running: None, ..st3 };
    let st5 = if reason is BudgetExceedance {
        if !st4.tasks[i].task.spec_is_high() {
            SimState { history: st4.history.push(SimulatorEvent::TaskKill(id, st4.now)), ..st4 }
        } else {
            spec_change_mode(st4, SimulatorMode::HMode)
        }
    } else {
        st4
    };
    if st5.ready.len() == 0 {
        if st5.mode is HMode {
            spec_change_mode(st5, SimulatorMode::LMode)
        } else {
            st5
        }
    } else {
        let p = min_ready_idx(st5.tasks, st5.ready);
        let r = st5.ready[p];
        let st6 = SimState { ready: st5.ready.remove(p), ..st5 };
        spec_run_job(st6, r)
    }
}

/// The identifier of the running task, as the tick history records it.
pub open spec fn running_id(st: SimState) -> Option<TaskId> {
    match st.running {
        Some(i) => Some(st.tasks[i].task.spec_props().id),
        None => None,
    }
}

/// The tick history extended up to instant `t`: one entry per instant the
/// current processor assignment persisted.
pub open spec fn append_ticks(st: SimState, t: TimeUnit) -> Seq<Option<TaskId>> {
    st.ticks + Seq::new((t - st.now) as nat, |x: int| running_id(st))
}

/// One engine step: pop the minimal event, record the ticks up to it,
/// advance the clock, and handle it.
pub open spec fn sim_step(st: SimState) -> SimState {
    let m = min_ev_idx(st.tasks, st.queue);
    let e = st.queue[m];
    let st1 = SimState {
        ticks: append_ticks(st, ev_time(e)),
        queue: st.queue.remove(m),
        now: ev_time(e),
        ..st
    };
    match e {
        SimulatorEvent::Start(id, t) => spec_handle_start(st1, id, t),
        SimulatorEvent::End(id, t, reason) => spec_handle_end(st1, id, t, reason),
        _ => st1,
    }
}

/// The state after `k` engine steps.
pub open spec fn run_steps(st: SimState, k: nat) -> SimState
    decreases k,
{
    if k == 0 {
        st
    } else {
        sim_step(run_steps(st, (k - 1) as nat))
    }
}

/// The run has consumed its horizon.
pub open spec fn sim_done(st: SimState, duration: TimeUnit) -> bool {
    st.now >= duration
}

/// `fin` is the state in which a run from `st0` with the given horizon
/// stops: the first iterate of `sim_step` whose clock has reached the
/// horizon.
pub open spec fn fire_run(st0: SimState, duration: TimeUnit, fin: SimState) -> bool {
    exists |k: nat| fin == run_steps(st0, k) && sim_done(fin, duration)
        && (forall |j: nat| j < k ==> !sim_done(#[trigger] run_steps(st0, j), duration))
}

/// Event ordering determinism: the stopping state of a run is a function of
/// the initial state and the horizon, so two runs of the same task set
/// produce identical event and tick histories.
pub proof fn lemma_fire_run_deterministic(
    st0: SimState,
    duration: TimeUnit,
    fin1: SimState,
    fin2: SimState,
)
    requires
        fire_run(st0, duration, fin1),
        fire_run(st0, duration, fin2),
    ensures
        fin1 == fin2,
{
    let k1 = choose |k: nat| fin1 == run_steps(st0, k) && sim_done(run_steps(st0, k), duration)
        && (forall |j: nat| j < k ==> !sim_done(#[trigger] run_steps(st0, j), duration));
    let k2 = choose |k: nat| fin2 == run_steps(st0, k) && sim_done(run_steps(st0, k), duration)
        && (forall |j: nat| j < k ==> !sim_done(#[trigger] run_steps(st0, j), duration));
    if k1 < k2 {
        assert(!sim_done(run_steps(st0, k1), duration));
    } else if k2 < k1 {
        assert(!sim_done(run_steps(st0, k2), duration));
    }
}

// ---------------------------------------------------------------------------
// Well-formedness
// ---------------------------------------------------------------------------

/// The parameter bounds the engine asks of every task, enough to rule out
/// any overflow of the time arithmetic during a run.
pub open spec fn valid_task(t: SimulatorTask) -> bool {
    let p = t.task.spec_props();
    &&& 1 <= p.period <= TIME_LIMIT
    &&& p.offset <= TIME_LIMIT
    &&& 1 <= p.wcet_l <= TIME_LIMIT
    &&& p.wcet_h <= TIME_LIMIT
    &&& 1 <= t.acet <= TIME_LIMIT
}

pub proof fn lemma_valid_tasks_periods_positive(tasks: Seq<SimulatorTask>)
    requires
        forall |i: int| 0 <= i < tasks.len() ==> valid_task(#[trigger] tasks[i]),
    ensures
        crate::validation::periods_positive(tasks),
{
}

pub open spec fn ids_distinct(tasks: Seq<SimulatorTask>) -> bool {
    forall |i: int, j: int| #![trigger tasks[i], tasks[j]]
        0 <= i < j < tasks.len()
            ==> tasks[i].task.spec_props().id != tasks[j].task.spec_props().id
}

/// One part of a proposed action targets a task that exists.
pub open spec fn part_applicable(tasks: Seq<SimulatorTask>, p: crate::agent::SimulatorActionPart) -> bool {
    !p.spec_is_noop() ==> spec_find_task_index(tasks, p.spec_task_id()) is Some
}

pub open spec fn action_applicable(tasks: Seq<SimulatorTask>, a: SimulatorAction) -> bool {
    part_applicable(tasks, a.0) && part_applicable(tasks, a.1) && part_applicable(tasks, a.2)
}

pub open spec fn wf_tasks(st: SimState) -> bool {
    &&& st.jobs.len() == st.tasks.len()
    &&& st.cached.len() == st.tasks.len()
    &&& forall |i: int| 0 <= i < st.tasks.len() ==> valid_task(#[trigger] st.tasks[i])
    &&& ids_distinct(st.tasks)
    &&& match st.agent_index {
        Some(a) => 0 <= a < st.tasks.len(),
        None => true,
    }
    &&& match st.pending_agent_action {
        Some(a) => action_applicable(st.tasks, a),
        None => true,
    }
}

pub open spec fn wf_time(st: SimState) -> bool {
    st.last_context_switch <= st.now <= 2 * TIME_LIMIT
}

pub open spec fn wf_jobs(st: SimState) -> bool {
    forall |i: int| 0 <= i < st.jobs.len()
        ==> (#[trigger] st.jobs[i]).exec_time <= TIME_LIMIT && st.jobs[i].run_time <= TIME_LIMIT
}

/// An event the queue may hold: a Start or End of an existing task.
pub open spec fn ev_valid(tasks: Seq<SimulatorTask>, e: SimulatorEvent) -> bool {
    &&& e is Start || e is End
    &&& spec_find_task_index(tasks, ev_id(e)) is Some
}

pub open spec fn wf_queue(st: SimState) -> bool {
    &&& forall |p: int| 0 <= p < st.queue.len() ==> ev_valid(st.tasks, #[trigger] st.queue[p])
    &&& forall |p: int| 0 <= p < st.queue.len()
        ==> st.now <= ev_time(#[trigger] st.queue[p]) <= st.now + TIME_LIMIT
    &&& forall |p: int, q: int| #![trigger st.queue[p], st.queue[q]]
        0 <= p < q < st.queue.len() ==> ev_id(st.queue[p]) != ev_id(st.queue[q])
    &&& forall |p: int| 0 <= p < st.queue.len() && (#[trigger] st.queue[p]) is Start ==> {
        let i = idx_of(st.tasks, ev_id(st.queue[p]));
        &&& ev_time(st.queue[p]) >= st.tasks[i].next_arrival
        &&& st.running != Some(i)
        &&& !st.ready.contains(i)
    }
}

pub open spec fn wf_arrivals(st: SimState) -> bool {
    forall |i: int| 0 <= i < st.tasks.len()
        ==> (#[trigger] st.tasks[i]).next_arrival
            <= max_time(st.tasks[i].task.spec_props().offset,
                (st.now + st.tasks[i].task.spec_props().period) as u64)
}

pub open spec fn wf_ready(st: SimState) -> bool {
    &&& forall |p: int| 0 <= p < st.ready.len() ==> 0 <= #[trigger] st.ready[p] < st.tasks.len()
    &&& forall |p: int| 0 <= p < st.ready.len()
        ==> st.jobs[#[trigger] st.ready[p]].run_time
            < job_cap(st.mode, st.jobs[st.ready[p]], st.tasks[st.ready[p]])
    &&& forall |p: int, q: int| #![trigger st.ready[p], st.ready[q]]
        0 <= p < q < st.ready.len() ==> st.ready[p] != st.ready[q]
    &&& forall |p: int| 0 <= p < st.ready.len() ==> st.running != Some(#[trigger] st.ready[p])
}

/// The running job, when there is one, has its pending End event in the
/// queue, at exactly the instant its budget or execution time runs out.
pub open spec fn wf_running(st: SimState) -> bool {
    match st.running {
        Some(r) => {
            &&& 0 <= r < st.tasks.len()
            &&& st.jobs[r].run_time <= job_cap(st.mode, st.jobs[r], st.tasks[r])
            &&& exists |p: int| 0 <= p < st.queue.len() && (#[trigger] st.queue[p]) is End
                && ev_id(st.queue[p]) == st.tasks[r].task.spec_props().id
                && ev_time(st.queue[p]) == st.last_context_switch
                    + job_cap(st.mode, st.jobs[r], st.tasks[r]) - st.jobs[r].run_time
        },
        None => true,
    }
}

/// Every queued End event belongs to the running job.
pub open spec fn wf_ends(st: SimState) -> bool {
    forall |p: int| 0 <= p < st.queue.len() && (#[trigger] st.queue[p]) is End
        ==> st.running == Some(idx_of(st.tasks, ev_id(st.queue[p])))
}

/// In high mode no low-criticality task has queued events or ready jobs.
pub open spec fn wf_mode(st: SimState) -> bool {
    st.mode is HMode ==> {
        &&& forall |p: int| 0 <= p < st.queue.len()
            ==> st.tasks[idx_of(st.tasks, ev_id(#[trigger] st.queue[p]))].task.spec_is_high()
        &&& forall |p: int| 0 <= p < st.ready.len()
            ==> st.tasks[#[trigger] st.ready[p]].task.spec_is_high()
    }
}

pub open spec fn wf_base(st: SimState) -> bool {
    &&& wf_tasks(st)
    &&& wf_time(st)
    &&& wf_jobs(st)
    &&& wf_queue(st)
    &&& wf_arrivals(st)
    &&& wf_ready(st)
    &&& wf_mode(st)
}

/// The engine's full state invariant.
pub open spec fn wf(st: SimState) -> bool {
    &&& wf_base(st)
    &&& wf_running(st)
    &&& wf_ends(st)
}

// ---------------------------------------------------------------------------
// Event counts at the current instant (the engine's progress measure)
// ---------------------------------------------------------------------------

pub open spec fn ends_at(queue: Seq<SimulatorEvent>, t: TimeUnit) -> nat
    decreases queue.len(),
{
    if queue.len() == 0 {
        0
    } else {
        ends_at(queue.drop_last(), t)
            + if queue.last() is End && ev_time(queue.last()) == t { 1 as nat } else { 0 as nat }
    }
}

pub open spec fn starts_at(queue: Seq<SimulatorEvent>, t: TimeUnit) -> nat
    decreases queue.len(),
{
    if queue.len() == 0 {
        0
    } else {
        starts_at(queue.drop_last(), t)
            + if queue.last() is Start && ev_time(queue.last()) == t { 1 as nat } else { 0 as nat }
    }
}

// ---------------------------------------------------------------------------
// What holds right after an event was popped
// ---------------------------------------------------------------------------

/// What `context_switch` asks of its caller: a fully well-formed state, a
/// dispatchable job `i` (fresh or ready, strictly within its budget, with no
/// queued event of its own), and — when a job is to be preempted — that no
/// queued End has come due yet, so the preempted job stays strictly within
/// its budget.
pub open spec fn cs_context(st: SimState, i: int) -> bool {
    &&& wf(st)
    &&& 0 <= i < st.tasks.len()
    &&& st.jobs[i].run_time < job_cap(st.mode, st.jobs[i], st.tasks[i])
    &&& st.running != Some(i)
    &&& !st.ready.contains(i)
    &&& forall |p: int| 0 <= p < st.queue.len()
        ==> ev_id(#[trigger] st.queue[p]) != st.tasks[i].task.spec_props().id
    &&& (st.mode is HMode ==> st.tasks[i].task.spec_is_high())
    &&& (st.running is Some ==> forall |p: int|
        0 <= p < st.queue.len() && (#[trigger] st.queue[p]) is End
            ==> ev_time(st.queue[p]) > st.now)
}

/// What `change_mode` asks of its caller: the processor is free, no End
/// event is pending, and low mode is only re-entered from an idle high-mode
/// state.
pub open spec fn cm_context(st: SimState, to: SimulatorMode) -> bool {
    &&& wf_base(st)
    &&& st.running is None
    &&& forall |p: int| 0 <= p < st.queue.len() ==> !((#[trigger] st.queue[p]) is End)
    &&& (to is LMode ==> st.ready.len() == 0 && st.mode is HMode)
}

/// What `run_job` asks of its caller: like a context switch with a free
/// processor, plus an applicable pending action.
pub open spec fn rj_context(st: SimState, i: int) -> bool {
    &&& wf(st)
    &&& st.running is None
    &&& 0 <= i < st.tasks.len()
    &&& st.jobs[i].run_time < job_cap(st.mode, st.jobs[i], st.tasks[i])
    &&& !st.ready.contains(i)
    &&& forall |p: int| 0 <= p < st.queue.len()
        ==> ev_id(#[trigger] st.queue[p]) != st.tasks[i].task.spec_props().id
    &&& (st.mode is HMode ==> st.tasks[i].task.spec_is_high())
}

/// The engine state as `fire` sets it up: the initial Start events of all
/// tasks, queued at their offsets.
pub open spec fn spec_init(st: SimState) -> SimState {
    SimState { queue: init_events(st.tasks, st.tasks.len()), ..st }
}

// ---------------------------------------------------------------------------
// Counting lemmas for the progress measure
// ---------------------------------------------------------------------------

pub proof fn lemma_counts_push(queue: Seq<SimulatorEvent>, e: SimulatorEvent, t: TimeUnit)
    ensures
        ends_at(queue.push(e), t) == ends_at(queue, t)
            + if e is End && ev_time(e) == t { 1 as nat } else { 0 as nat },
        starts_at(queue.push(e), t) == starts_at(queue, t)
            + if e is Start && ev_time(e) == t { 1 as nat } else { 0 as nat },
{
    assert(queue.push(e).drop_last() =~= queue);
    assert(queue.push(e).last() == e);
}

pub proof fn lemma_counts_remove(queue: Seq<SimulatorEvent>, i: int, t: TimeUnit)
    requires
        0 <= i < queue.len(),
    ensures
        ends_at(queue.remove(i), t) == ends_at(queue, t)
            - (if queue[i] is End && ev_time(queue[i]) == t { 1 as nat } else { 0 as nat }),
        starts_at(queue.remove(i), t) == starts_at(queue, t)
            - (if queue[i] is Start && ev_time(queue[i]) == t { 1 as nat } else { 0 as nat }),
    decreases queue.len(),
{
    if i == queue.len() - 1 {
        assert(queue.remove(i) =~= queue.drop_last());
    } else {
        assert(queue.remove(i).drop_last() =~= queue.drop_last().remove(i));
        assert(queue.remove(i).last() == queue.last());
        lemma_counts_remove(queue.drop_last(), i, t);
    }
}

pub proof fn lemma_counts_without(queue: Seq<SimulatorEvent>, id: TaskId, t: TimeUnit)
    ensures
        ends_at(events_without(queue, id), t) <= ends_at(queue, t),
        starts_at(events_without(queue, id), t) <= starts_at(queue, t),
    decreases queue.len(),
{
    if queue.len() > 0 {
        lemma_counts_without(queue.drop_last(), id, t);
        if ev_id(queue.last()) != id {
            lemma_counts_push(events_without(queue.drop_last(), id), queue.last(), t);
        }
    }
}

pub proof fn lemma_counts_of_high(
    tasks: Seq<SimulatorTask>,
    queue: Seq<SimulatorEvent>,
    t: TimeUnit,
)
    ensures
        ends_at(events_of_high(tasks, queue), t) <= ends_at(queue, t),
        starts_at(events_of_high(tasks, queue), t) <= starts_at(queue, t),
    decreases queue.len(),
{
    if queue.len() > 0 {
        lemma_counts_of_high(tasks, queue.drop_last(), t);
        if tasks[idx_of(tasks, ev_id(queue.last()))].task.spec_is_high() {
            lemma_counts_push(events_of_high(tasks, queue.drop_last()), queue.last(), t);
        }
    }
}

pub proof fn lemma_counts_concat(q1: Seq<SimulatorEvent>, q2: Seq<SimulatorEvent>, t: TimeUnit)
    ensures
        ends_at(q1 + q2, t) == ends_at(q1, t) + ends_at(q2, t),
        starts_at(q1 + q2, t) == starts_at(q1, t) + starts_at(q2, t),
    decreases q2.len(),
{
    if q2.len() == 0 {
        assert(q1 + q2 =~= q1);
    } else {
        assert((q1 + q2).drop_last() =~= q1 + q2.drop_last());
        assert((q1 + q2).last() == q2.last());
        lemma_counts_concat(q1, q2.drop_last(), t);
    }
}

/// Re-admission events are all Start events.
pub proof fn lemma_l_start_events_no_ends(
    tasks: Seq<SimulatorTask>,
    now: TimeUnit,
    n: nat,
    t: TimeUnit,
)
    ensures
        ends_at(l_start_events(tasks, now, n), t) == 0,
    decreases n,
{
    if n != 0 && n <= tasks.len() {
        lemma_l_start_events_no_ends(tasks, now, (n - 1) as nat, t);
        let rest = l_start_events(tasks, now, (n - 1) as nat);
        let tk = tasks[n - 1];
        if !tk.task.spec_is_high() {
            lemma_counts_push(
                rest,
                SimulatorEvent::Start(tk.task.spec_props().id, max_time(now, tk.next_arrival)),
                t,
            );
        }
    }
}

/// The state handed to a Start handler: the popped event was the queue
/// minimum of a well-formed state, has been removed, and the clock stands at
/// its instant.
pub open spec fn start_context(st: SimState, id: TaskId, t: TimeUnit) -> bool {
    let i = idx_of(st.tasks, id);
    &&& wf_base(st)
    &&& wf_running(st)
    &&& wf_ends(st)
    &&& st.now == t
    &&& spec_find_task_index(st.tasks, id) is Some
    &&& forall |p: int| 0 <= p < st.queue.len() ==> ev_id(#[trigger] st.queue[p]) != id
    &&& forall |p: int| 0 <= p < st.queue.len() && (#[trigger] st.queue[p]) is End
        ==> ev_time(st.queue[p]) > st.now
    &&& st.running != Some(i)
    &&& !st.ready.contains(i)
    &&& st.tasks[i].next_arrival <= t
    &&& st.mode is HMode ==> st.tasks[i].task.spec_is_high()
}

/// The initial event queue carries exactly one Start per task, in arena
/// order, at the task's offset.
pub proof fn lemma_init_events_props(tasks: Seq<SimulatorTask>, n: nat)
    requires
        n <= tasks.len(),
    ensures
        init_events(tasks, n).len() == n,
        forall |j: int| 0 <= j < n ==> #[trigger] init_events(tasks, n)[j]
            == SimulatorEvent::Start(tasks[j].task.spec_props().id, tasks[j].task.spec_props().offset),
    decreases n,
{
    if n > 0 {
        lemma_init_events_props(tasks, (n - 1) as nat);
    }
}

/// Popping the minimal event of a well-formed state and advancing the clock
/// to it establishes the corresponding handler's precondition.
pub proof fn lemma_pop_facts(pre: SimState, m: int)
    requires
        wf(pre),
        0 <= m < pre.queue.len(),
        m == min_ev_idx(pre.tasks, pre.queue),
        ev_time(pre.queue[m]) <= 2 * TIME_LIMIT,
    ensures
        ({
            let e = pre.queue[m];
            let mid = SimState {
                ticks: append_ticks(pre, ev_time(e)),
                queue: pre.queue.remove(m),
                now: ev_time(e),
                ..pre
            };
            &&& (e is Start ==> start_context(mid, ev_id(e), ev_time(e)))
            &&& (e is End ==> end_context(mid, ev_id(e), ev_time(e)))
        }),
{
    let e = pre.queue[m];
    let t = ev_time(e);
    let mid = SimState {
        ticks: append_ticks(pre, t),
        queue: pre.queue.remove(m),
        now: t,
        ..pre
    };
    lemma_min_ev_idx(pre.tasks, pre.queue);
    assert(forall |q: int| 0 <= q < m ==> mid.queue[q] == #[trigger] pre.queue[q]);
    assert(forall |q: int| m <= q < mid.queue.len() ==> mid.queue[q] == #[trigger] pre.queue[q + 1]);
    assert(pre.now <= t);
    // Remaining events do not precede the popped one, so their times are at
    // least its time.
    assert forall |q: int| 0 <= q < mid.queue.len()
        implies t <= ev_time(#[trigger] mid.queue[q]) <= t + TIME_LIMIT by {
        if q < m {
            assert(!event_precedes(pre.tasks, pre.queue[q], e));
        } else {
            assert(!event_precedes(pre.tasks, pre.queue[q + 1], e));
        }
    }
    assert(wf_queue(mid)) by {
        assert forall |q: int| 0 <= q < mid.queue.len() && (#[trigger] mid.queue[q]) is Start
            implies {
            let k = idx_of(mid.tasks, ev_id(mid.queue[q]));
            &&& ev_time(mid.queue[q]) >= mid.tasks[k].next_arrival
            &&& mid.running != Some(k)
            &&& !mid.ready.contains(k)
        } by {
            if q < m {
                assert(pre.queue[q] is Start);
            } else {
                assert(pre.queue[q + 1] is Start);
            }
        }
        assert forall |q1: int, q2: int| #![trigger mid.queue[q1], mid.queue[q2]]
            0 <= q1 < q2 < mid.queue.len()
            implies ev_id(mid.queue[q1]) != ev_id(mid.queue[q2]) by {
            if q2 < m {
                assert(ev_id(pre.queue[q1]) != ev_id(pre.queue[q2]));
            } else if q1 >= m {
                assert(ev_id(pre.queue[q1 + 1]) != ev_id(pre.queue[q2 + 1]));
            } else {
                assert(ev_id(pre.queue[q1]) != ev_id(pre.queue[q2 + 1]));
            }
        }
    }
    assert(wf_arrivals(mid)) by {
        assert forall |j: int| 0 <= j < mid.tasks.len()
            implies (#[trigger] mid.tasks[j]).next_arrival
                <= max_time(mid.tasks[j].task.spec_props().offset,
                    (mid.now + mid.tasks[j].task.spec_props().period) as u64) by {
            assert(pre.tasks[j].next_arrival
                <= max_time(pre.tasks[j].task.spec_props().offset,
                    (pre.now + pre.tasks[j].task.spec_props().period) as u64));
            assert(valid_task(pre.tasks[j]));
        }
    }
    assert(wf_base(mid));
    if e is Start {
        // The running job's pending End survives the removal.
        assert(wf_running(mid)) by {
            match pre.running {
                Some(r) => {
                    let pe = choose |pe: int| 0 <= pe < pre.queue.len()
                        && (#[trigger] pre.queue[pe]) is End
                        && ev_id(pre.queue[pe]) == pre.tasks[r].task.spec_props().id
                        && ev_time(pre.queue[pe]) == pre.last_context_switch
                            + job_cap(pre.mode, pre.jobs[r], pre.tasks[r]) - pre.jobs[r].run_time;
                    assert(pe != m);
                    if pe < m {
                        assert(mid.queue[pe] == pre.queue[pe]);
                    } else {
                        assert(mid.queue[pe - 1] == pre.queue[pe]);
                    }
                },
                None => {},
            }
        }
        assert(wf_ends(mid)) by {
            assert forall |q: int| 0 <= q < mid.queue.len() && (#[trigger] mid.queue[q]) is End
                implies mid.running == Some(idx_of(mid.tasks, ev_id(mid.queue[q]))) by {
                if q < m {
                    assert(pre.queue[q] is End);
                } else {
                    assert(pre.queue[q + 1] is End);
                }
            }
        }
        // The popped task has no other queued event, and every surviving
        // End lies strictly in the future.
        assert forall |q: int| 0 <= q < mid.queue.len()
            implies ev_id(#[trigger] mid.queue[q]) != ev_id(e) by {
            if q < m {
                assert(ev_id(pre.queue[q]) != ev_id(pre.queue[m]));
            } else {
                assert(ev_id(pre.queue[q + 1]) != ev_id(pre.queue[m]));
            }
        }
        assert forall |q: int| 0 <= q < mid.queue.len() && (#[trigger] mid.queue[q]) is End
            implies ev_time(mid.queue[q]) > t by {
            let e2 = if q < m { pre.queue[q] } else { pre.queue[q + 1] };
            assert(!event_precedes(pre.tasks, e2, e));
            assert(ev_rank(e2) < ev_rank(e));
        }
        assert(start_context(mid, ev_id(e), t));
    }
    if e is End {
        let i = idx_of(pre.tasks, ev_id(e));
        assert(pre.running == Some(i));
        let r = i;
        // The popped End is the running job's unique pending End.
        let pe = choose |pe: int| 0 <= pe < pre.queue.len()
            && (#[trigger] pre.queue[pe]) is End
            && ev_id(pre.queue[pe]) == pre.tasks[r].task.spec_props().id
            && ev_time(pre.queue[pe]) == pre.last_context_switch
                + job_cap(pre.mode, pre.jobs[r], pre.tasks[r]) - pre.jobs[r].run_time;
        crate::agent::lemma_find_props(pre.tasks, ev_id(e));
        assert(pre.tasks[r].task.spec_props().id == ev_id(e));
        assert(pe == m) by {
            if pe != m {
                assert(ev_id(pre.queue[pe]) != ev_id(pre.queue[m]));
            }
        }
        assert(pre.last_context_switch + job_cap(pre.mode, pre.jobs[r], pre.tasks[r])
            - pre.jobs[r].run_time == t);
        // No End survives: all of them carried the running task's id.
        assert forall |q: int| 0 <= q < mid.queue.len()
            implies !((#[trigger] mid.queue[q]) is End) by {
            let q0 = if q < m { q } else { q + 1 };
            if pre.queue[q0] is End {
                assert(pre.running == Some(idx_of(pre.tasks, ev_id(pre.queue[q0]))));
                crate::agent::lemma_find_props(pre.tasks, ev_id(pre.queue[q0]));
                assert(ev_id(pre.queue[q0]) == pre.tasks[r].task.spec_props().id);
                assert(ev_id(pre.queue[q0]) != ev_id(pre.queue[m]));
                assert(false);
            }
        }
        assert forall |q: int| 0 <= q < mid.queue.len()
            implies ev_id(#[trigger] mid.queue[q]) != ev_id(e) by {
            if q < m {
                assert(ev_id(pre.queue[q]) != ev_id(pre.queue[m]));
            } else {
                assert(ev_id(pre.queue[q + 1]) != ev_id(pre.queue[m]));
            }
        }
        if pre.mode is HMode {
            assert(pre.tasks[idx_of(pre.tasks, ev_id(pre.queue[m]))].task.spec_is_high());
        }
        assert(end_context(mid, ev_id(e), t));
    }
}

/// The state handed to an End handler: the popped End was the pending
/// termination event of the running job.
pub open spec fn end_context(st: SimState, id: TaskId, t: TimeUnit) -> bool {
    let i = idx_of(st.tasks, id);
    &&& wf_base(st)
    &&& st.now == t
    &&& spec_find_task_index(st.tasks, id) is Some
    &&& st.running == Some(i)
    &&& st.jobs[i].run_time <= job_cap(st.mode, st.jobs[i], st.tasks[i])
    &&& st.last_context_switch + job_cap(st.mode, st.jobs[i], st.tasks[i]) - st.jobs[i].run_time
        == st.now
    &&& forall |p: int| 0 <= p < st.queue.len() ==> !((#[trigger] st.queue[p]) is End)
    &&& forall |p: int| 0 <= p < st.queue.len() ==> ev_id(#[trigger] st.queue[p]) != id
    &&& (st.mode is HMode ==> st.tasks[i].task.spec_is_high())
}

} // verus!
