//! Discrete-event engine: scheduling modes, events, jobs, and the simulator
//! state, with the event loop that drives a run.

use vstd::prelude::*;

use crate::agent::{find_task_index, spec_find_task_index, SimulatorAction};
use crate::model;
use crate::model::SimState;
use crate::task::{SimulatorTask, TaskId, TimeUnit};
use crate::validation::{response_time, rt_spec};

verus! {

/// Largest value the engine accepts for any task parameter or horizon; far
/// beyond any meaningful simulation length, and small enough that no time
/// arithmetic of a run can overflow.
pub const TIME_LIMIT: TimeUnit = 0x100_0000_0000_0000;

/// The two assurance modes of adaptive mixed-criticality scheduling.
#[derive(Clone, Copy, Debug, PartialEq, Eq, Structural)]
pub enum SimulatorMode {
    LMode,
    HMode,
}

/// Why a job instance ended: it ran to completion, or it exhausted the
/// execution budget of the current mode.
#[derive(Clone, Copy, Debug, PartialEq, Eq, Structural)]
pub enum EndReason {
    JobCompletion,
    BudgetExceedance,
}

/// A scheduling event.  Start and End drive the simulation through the event
/// queue; TaskKill and ModeChange are log-only records appended to the
/// history while a Start or End is handled.  Events refer to tasks by
/// identifier.
#[derive(Clone, Copy, Debug, PartialEq, Eq, Structural)]
pub enum SimulatorEvent {
    Start(TaskId, TimeUnit),
    End(TaskId, TimeUnit, EndReason),
    TaskKill(TaskId, TimeUnit),
    ModeChange(SimulatorMode, TimeUnit),
}

impl SimulatorEvent {
    /// The task a Start or End event belongs to.
    pub fn task(&self) -> (r: TaskId)
        requires
            *self is Start || *self is End,
        ensures
            r == model::ev_id(*self),
    {
        match self {
            SimulatorEvent::Start(id, _) => *id,
            SimulatorEvent::End(id, _, _) => *id,
            SimulatorEvent::TaskKill(id, _) => *id,
            SimulatorEvent::ModeChange(_, _) => 0,
        }
    }

    /// The instant the event happens at.
    pub fn time(&self) -> (r: TimeUnit)
        ensures
            r == model::ev_time(*self),
    {
        match self {
            SimulatorEvent::Start(_, t) => *t,
            SimulatorEvent::End(_, t, _) => *t,
            SimulatorEvent::TaskKill(_, t) => *t,
            SimulatorEvent::ModeChange(_, t) => *t,
        }
    }
}

/// Per-task job record, created once and recycled across periodic instances:
/// the execution time sampled for the current instance and the execution it
/// has accumulated since the instance's arrival.
#[derive(Clone, Copy, Debug, PartialEq, Eq, Structural)]
pub struct SimulatorJob {
    pub exec_time: TimeUnit,
    pub run_time: TimeUnit,
}

/// The discrete-event engine: the task and job arenas, the processor state,
/// the ready and event queues, the histories, and the clock.  The engine is
/// the sole mutator of all of it.
pub struct Simulator {
    pub tasks: Vec<SimulatorTask>,
    pub jobs: Vec<SimulatorJob>,
    pub running_job: Option<usize>,
    pub ready_jobs_queue: Vec<usize>,
    pub event_queue: Vec<SimulatorEvent>,
    pub event_history: Vec<SimulatorEvent>,
    pub running_history: Vec<Option<TaskId>>,
    pub now: TimeUnit,
    pub last_context_switch: TimeUnit,
    pub mode: SimulatorMode,
    pub pending_agent_action: Option<SimulatorAction>,
    pub agent_index: Option<usize>,
    pub cached_response_times: Vec<Option<TimeUnit>>,
}

impl View for Simulator {
    type V = SimState;

    open spec fn view(&self) -> SimState {
        SimState {
            tasks: self.tasks@,
            jobs: self.jobs@,
            running: match self.running_job {
                Some(r) => Some(r as int),
                None => None,
            },
            ready: self.ready_jobs_queue@.map_values(|v: usize| v as int),
            queue: self.event_queue@,
            history: self.event_history@,
            ticks: self.running_history@,
            now: self.now,
            last_context_switch: self.last_context_switch,
            mode: self.mode,
            pending_agent_action: self.pending_agent_action,
            agent_index: match self.agent_index {
                Some(a) => Some(a as int),
                None => None,
            },
            cached: self.cached_response_times@,
        }
    }
}

fn clone_ticks(v: &Vec<Option<TaskId>>) -> (r: Vec<Option<TaskId>>)
    ensures
        r@ == v@,
{
    let mut out: Vec<Option<TaskId>> = Vec::new();
    let mut i: usize = 0;
    while i < v.len()
        invariant
            i <= v@.len(),
            out@ == v@.subrange(0, i as int),
        decreases v@.len() - i,
    {
        out.push(v[i]);
        proof {
            assert(out@ =~= v@.subrange(0, i + 1));
        }
        i = i + 1;
    }
    proof {
        assert(out@ =~= v@);
    }
    out
}

fn clone_events(v: &Vec<SimulatorEvent>) -> (r: Vec<SimulatorEvent>)
    ensures
        r@ == v@,
{
    let mut out: Vec<SimulatorEvent> = Vec::new();
    let mut i: usize = 0;
    while i < v.len()
        invariant
            i <= v@.len(),
            out@ == v@.subrange(0, i as int),
        decreases v@.len() - i,
    {
        out.push(v[i]);
        proof {
            assert(out@ =~= v@.subrange(0, i + 1));
        }
        i = i + 1;
    }
    proof {
        assert(out@ =~= v@);
    }
    out
}

impl Simulator {
    /// Build an engine over a task set, appending the collaborator's own
    /// task when one is attached.  Low-mode response times are computed once
    /// here and cached for the online checks.
    pub fn new(tasks: Vec<SimulatorTask>, agent_task: Option<SimulatorTask>) -> (r: Simulator)
        requires
            forall |i: int| 0 <= i < tasks@.len() ==> model::valid_task(#[trigger] tasks@[i]),
            forall |i: int| 0 <= i < tasks@.len()
                ==> (#[trigger] tasks@[i]).next_arrival == tasks@[i].task.spec_props().offset,
            match agent_task {
                Some(a) => model::valid_task(a) && a.next_arrival == a.task.spec_props().offset
                    && model::ids_distinct(tasks@.push(a)),
                None => model::ids_distinct(tasks@),
            },
        ensures
            r@.tasks == match agent_task {
                Some(a) => tasks@.push(a),
                None => tasks@,
            },
            r@.agent_index == match agent_task {
                Some(_) => Some(tasks@.len() as int),
                None => None::<int>,
            },
            model::wf(r@),
            r@.jobs == Seq::new(r@.tasks.len(), |i: int| SimulatorJob { exec_time: 0, run_time: 0 }),
            r@.queue == Seq::<SimulatorEvent>::empty(),
            r@.history == Seq::<SimulatorEvent>::empty(),
            r@.ticks == Seq::<Option<TaskId>>::empty(),
            r@.ready == Seq::<int>::empty(),
            r@.running is None,
            r@.now == 0,
            r@.last_context_switch == 0,
            r@.mode is LMode,
            r@.pending_agent_action is None,
            forall |i: int| 0 <= i < r@.tasks.len()
                ==> #[trigger] r@.cached[i] == rt_spec(r@.tasks[i], r@.tasks, SimulatorMode::LMode),
    {
        let mut all_tasks = tasks;
        let agent_index: Option<usize> = match agent_task {
            Some(a) => {
                let idx = all_tasks.len();
                all_tasks.push(a);
                Some(idx)
            },
            None => None,
        };
        let mut jobs: Vec<SimulatorJob> = Vec::new();
        let mut i: usize = 0;
        while i < all_tasks.len()
            invariant
                i <= all_tasks@.len(),
                jobs@ == Seq::new(i as nat, |x: int| SimulatorJob { exec_time: 0, run_time: 0 }),
            decreases all_tasks@.len() - i,
        {
            jobs.push(SimulatorJob { exec_time: 0, run_time: 0 });
            proof {
                assert(jobs@ =~= Seq::new((i + 1) as nat, |x: int| SimulatorJob {
                    exec_time: 0,
                    run_time: 0,
                }));
            }
            i = i + 1;
        }
        let mut cached: Vec<Option<TimeUnit>> = Vec::new();
        proof {
            model::lemma_valid_tasks_periods_positive(all_tasks@);
        }
        let mut i: usize = 0;
        while i < all_tasks.len()
            invariant
                i <= all_tasks@.len(),
                crate::validation::periods_positive(all_tasks@),
                cached@.len() == i,
                forall |j: int| 0 <= j < i
                    ==> #[trigger] cached@[j] == rt_spec(all_tasks@[j], all_tasks@, SimulatorMode::LMode),
            decreases all_tasks@.len() - i,
        {
            let t = all_tasks[i];
            let rt = response_time(&t, &all_tasks, SimulatorMode::LMode);
            cached.push(rt);
            i = i + 1;
        }
        let r = Simulator {
            tasks: all_tasks,
            jobs,
            running_job: None,
            ready_jobs_queue: Vec::new(),
            event_queue: Vec::new(),
            event_history: Vec::new(),
            running_history: Vec::new(),
            now: 0,
            last_context_switch: 0,
            mode: SimulatorMode::LMode,
            pending_agent_action: None,
            agent_index,
            cached_response_times: cached,
        };
        proof {
            assert(r@.ready =~= Seq::<int>::empty());
            assert(model::wf_tasks(r@));
            assert(model::wf_time(r@));
            assert(model::wf_jobs(r@));
            assert(model::wf_queue(r@));
            assert(model::wf_arrivals(r@)) by {
                assert(forall |i: int| 0 <= i < r@.tasks.len()
                    ==> (#[trigger] r@.tasks[i]).next_arrival == r@.tasks[i].task.spec_props().offset);
            }
            assert(model::wf_ready(r@));
            assert(model::wf_mode(r@));
            assert(model::wf_running(r@));
            assert(model::wf_ends(r@));
        }
        r
    }

    /// Stage a budget mutation for the collaborator's next activation.  Each
    /// part must target a task that exists (or propose nothing).
    pub fn set_pending_agent_action(&mut self, action: Option<SimulatorAction>)
        requires
            match action {
                Some(a) => model::action_applicable(old(self)@.tasks, a),
                None => true,
            },
        ensures
            final(self)@ == (SimState { pending_agent_action: action, ..old(self)@ }),
    {
        self.pending_agent_action = action;
        proof {
            assert(final(self)@ =~= (SimState { pending_agent_action: action, ..old(self)@ }));
        }
    }

    /// Append an event to the run's history.
    pub fn push_event(&mut self, event: SimulatorEvent)
        ensures
            final(self)@ == (SimState {
                history: old(self)@.history.push(event),
                ..old(self)@
            }),
    {
        self.event_history.push(event);
        proof {
            assert(final(self)@ =~= (SimState {
                history: old(self)@.history.push(event),
                ..old(self)@
            }));
        }
    }

    /// Whether queued event `a` is dispatched before queued event `b`.
    fn event_precedes(&self, a: &SimulatorEvent, b: &SimulatorEvent) -> (r: bool)
        requires
            model::ev_valid(self@.tasks, *a),
            model::ev_valid(self@.tasks, *b),
        ensures
            r == model::event_precedes(self@.tasks, *a, *b),
    {
        let ta = a.time();
        let tb = b.time();
        if ta < tb {
            return true;
        }
        if ta > tb {
            return false;
        }
        let ra: u64 = match a {
            SimulatorEvent::End(_, _, _) => 0,
            SimulatorEvent::Start(_, _) => 1,
            SimulatorEvent::TaskKill(_, _) => 2,
            SimulatorEvent::ModeChange(_, _) => 3,
        };
        let rb: u64 = match b {
            SimulatorEvent::End(_, _, _) => 0,
            SimulatorEvent::Start(_, _) => 1,
            SimulatorEvent::TaskKill(_, _) => 2,
            SimulatorEvent::ModeChange(_, _) => 3,
        };
        if ra < rb {
            return true;
        }
        if ra > rb {
            return false;
        }
        let ia = match find_task_index(&self.tasks, a.task()) {
            Some(i) => i,
            None => 0,
        };
        let ib = match find_task_index(&self.tasks, b.task()) {
            Some(i) => i,
            None => 0,
        };
        let pa = self.tasks[ia].priority();
        let pb = self.tasks[ib].priority();
        pa < pb
            || (pa == pb
                && self.tasks[ia].task.props().id < self.tasks[ib].task.props().id)
    }

    /// The queue position of the event the engine pops next.
    pub(crate) fn min_event_index(&self) -> (r: usize)
        requires
            self@.queue.len() >= 1,
            forall |p: int| 0 <= p < self@.queue.len()
                ==> model::ev_valid(self@.tasks, #[trigger] self@.queue[p]),
        ensures
            r as int == model::min_ev_idx(self@.tasks, self@.queue),
            r < self@.queue.len(),
    {
        let mut best: usize = 0;
        let mut i: usize = 1;
        while i < self.event_queue.len()
            invariant
                1 <= i <= self@.queue.len(),
                best < i,
                forall |p: int| 0 <= p < self@.queue.len()
                    ==> model::ev_valid(self@.tasks, #[trigger] self@.queue[p]),
                best as int == model::min_ev_idx_upto(self@.tasks, self@.queue, i as nat),
            decreases self@.queue.len() - i,
        {
            let a = self.event_queue[i];
            let b = self.event_queue[best];
            if self.event_precedes(&a, &b) {
                best = i;
            }
            i = i + 1;
        }
        best
    }

    /// Queue the first arrival of every task, at its offset.
    fn init_event_queue(&mut self)
        requires
            model::wf(old(self)@),
            old(self)@.queue.len() == 0,
            old(self)@.ready.len() == 0,
            old(self)@.running is None,
            old(self)@.now == 0,
            old(self)@.mode is LMode,
            forall |i: int| 0 <= i < old(self)@.tasks.len()
                ==> (#[trigger] old(self)@.tasks[i]).next_arrival
                    == old(self)@.tasks[i].task.spec_props().offset,
        ensures
            final(self)@ == model::spec_init(old(self)@),
            model::wf(final(self)@),
    {
        let ghost st0 = self@;
        let mut i: usize = 0;
        while i < self.tasks.len()
            invariant
                i <= st0.tasks.len(),
                self@ =~= (SimState {
                    queue: model::init_events(st0.tasks, i as nat),
                    ..st0
                }),
            decreases st0.tasks.len() - i,
        {
            let t = self.tasks[i];
            self.event_queue.push(SimulatorEvent::Start(t.task.props().id, t.task.props().offset));
            proof {
                assert(self@ =~= (SimState {
                    queue: model::init_events(st0.tasks, (i + 1) as nat),
                    ..st0
                }));
            }
            i = i + 1;
        }
        proof {
            let post = self@;
            assert(post =~= model::spec_init(st0));
            model::lemma_init_events_props(st0.tasks, st0.tasks.len());
            assert(model::wf_queue(post)) by {
                assert forall |p: int| 0 <= p < post.queue.len() implies {
                    let e = #[trigger] post.queue[p];
                    &&& model::ev_valid(post.tasks, e)
                    &&& post.now <= model::ev_time(e) <= post.now + TIME_LIMIT
                    &&& (e is Start ==> {
                        let k = model::idx_of(post.tasks, model::ev_id(e));
                        &&& model::ev_time(e) >= post.tasks[k].next_arrival
                        &&& post.running != Some(k)
                        &&& !post.ready.contains(k)
                    })
                } by {
                    crate::handlers::lemma_find_unique(st0.tasks, p);
                    assert(model::valid_task(st0.tasks[p]));
                }
                assert forall |p1: int, p2: int| #![trigger post.queue[p1], post.queue[p2]]
                    0 <= p1 < p2 < post.queue.len()
                    implies model::ev_id(post.queue[p1]) != model::ev_id(post.queue[p2]) by {
                    assert(st0.tasks[p1].task.spec_props().id != st0.tasks[p2].task.spec_props().id);
                }
            }
            assert(model::wf_ends(post));
            assert(model::wf(post));
        }
    }

    /// Run the simulation up to the given horizon: pop the next event,
    /// record which task held the processor in the meantime, advance the
    /// clock and handle the event.  Returns the per-instant processor
    /// assignment and the complete event history; both stay readable on the
    /// engine afterwards.  The run is a pure function of the initial state:
    /// two engines built alike produce identical histories.
    #[verifier::rlimit(100)]
    pub fn fire(&mut self, duration: TimeUnit) -> (r: (Vec<Option<TaskId>>, Vec<SimulatorEvent>))
        requires
            model::wf(old(self)@),
            old(self)@.queue.len() == 0,
            old(self)@.ready.len() == 0,
            old(self)@.running is None,
            old(self)@.now == 0,
            old(self)@.mode is LMode,
            forall |i: int| 0 <= i < old(self)@.tasks.len()
                ==> (#[trigger] old(self)@.tasks[i]).next_arrival
                    == old(self)@.tasks[i].task.spec_props().offset,
            old(self)@.tasks.len() >= 1,
            duration <= TIME_LIMIT,
        ensures
            model::fire_run(model::spec_init(old(self)@), duration, final(self)@),
            r.0@ == final(self)@.ticks,
            r.1@ == final(self)@.history,
    {
        self.init_event_queue();
        let ghost st0 = self@;
        let ghost mut steps: nat = 0nat;
        proof {
            assert(st0.queue.len() >= 1) by {
                model::lemma_init_events_props(st0.tasks, st0.tasks.len());
            }
        }
        while self.now < duration
            invariant
                model::wf(self@),
                self@.queue.len() >= 1,
                duration <= TIME_LIMIT,
                self@.now <= duration + TIME_LIMIT,
                self@ == model::run_steps(st0, steps),
                forall |j: nat| j < steps
                    ==> !model::sim_done(#[trigger] model::run_steps(st0, j), duration),
            decreases
                (if self.now >= duration { 0int } else { duration - self.now }),
                model::ends_at(self@.queue, self@.now),
                model::starts_at(self@.queue, self@.now),
        {
            let ghost pre = self@;
            let m = self.min_event_index();
            let e = self.event_queue[m];
            proof {
                model::lemma_min_ev_idx(pre.tasks, pre.queue);
                assert(model::ev_time(e) >= pre.now);
                assert(model::ev_time(e) <= pre.now + TIME_LIMIT);
            }
            let rid: Option<TaskId> = match self.running_job {
                Some(rj) => Some(self.tasks[rj].task.props().id),
                None => None,
            };
            proof {
                assert(rid == model::running_id(pre));
            }
            let ev_t = e.time();
            let mut tt = self.now;
            while tt < ev_t
                invariant
                    pre.now <= tt <= model::ev_time(e),
                    ev_t == model::ev_time(e),
                    rid == model::running_id(pre),
                    self@ =~= (SimState {
                        ticks: pre.ticks
                            + Seq::new((tt - pre.now) as nat, |x: int| model::running_id(pre)),
                        ..pre
                    }),
                decreases model::ev_time(e) - tt,
            {
                self.running_history.push(rid);
                tt = tt + 1;
                proof {
                    assert(Seq::new((tt - pre.now) as nat, |x: int| model::running_id(pre))
                        =~= Seq::new((tt - 1 - pre.now) as nat, |x: int| model::running_id(pre))
                            .push(model::running_id(pre)));
                    assert(self@ =~= (SimState {
                        ticks: pre.ticks
                            + Seq::new((tt - pre.now) as nat, |x: int| model::running_id(pre)),
                        ..pre
                    }));
                }
            }
            self.event_queue.remove(m);
            self.now = ev_t;
            let ghost mid = self@;
            proof {
                assert(mid =~= (SimState {
                    ticks: model::append_ticks(pre, model::ev_time(e)),
                    queue: pre.queue.remove(m as int),
                    now: model::ev_time(e),
                    ..pre
                }));
                model::lemma_pop_facts(pre, m as int);
            }
            match e {
                SimulatorEvent::Start(id, tm) => {
                    crate::handlers::handle_start_event(id, tm, self);
                },
                SimulatorEvent::End(id, tm, rs) => {
                    crate::handlers::handle_end_event(id, tm, rs, self);
                },
                _ => {
                    proof {
                        assert(model::ev_valid(pre.tasks, pre.queue[m as int]));
                        assert(false);
                    }
                },
            }
            proof {
                assert(self@ == model::sim_step(pre));
                assert(model::run_steps(st0, (steps + 1) as nat) == model::sim_step(model::run_steps(st0, steps)));
                assert(!model::sim_done(model::run_steps(st0, steps), duration));
                steps = (steps + 1) as nat;
                assert(self@ == model::run_steps(st0, steps));
                assert(forall |j: nat| j < steps
                    ==> !model::sim_done(#[trigger] model::run_steps(st0, j), duration));
                // The progress measure shrinks: either the clock advanced,
                // or the popped event's count at this instant went down.
                model::lemma_counts_remove(pre.queue, m as int, pre.now);
                assert(self@.now == model::ev_time(e));
                if model::ev_time(e) == pre.now {
                    if e is End {
                        assert(model::ends_at(mid.queue, pre.now)
                            == model::ends_at(pre.queue, pre.now) - 1);
                        assert(model::ends_at(self@.queue, self@.now)
                            < model::ends_at(pre.queue, pre.now));
                    } else {
                        assert(model::ends_at(mid.queue, pre.now)
                            == model::ends_at(pre.queue, pre.now));
                        assert(model::starts_at(mid.queue, pre.now)
                            == model::starts_at(pre.queue, pre.now) - 1);
                        assert(model::ends_at(self@.queue, self@.now)
                            <= model::ends_at(pre.queue, pre.now));
                        assert(model::starts_at(self@.queue, self@.now)
                            < model::starts_at(pre.queue, pre.now));
                    }
                }
            }
        }
        proof {
            assert(model::sim_done(self@, duration));
            assert(model::fire_run(st0, duration, self@)) by {
                assert(self@ == model::run_steps(st0, steps) && model::sim_done(model::run_steps(st0, steps), duration)
                    && (forall |j: nat| j < steps
                        ==> !model::sim_done(#[trigger] model::run_steps(st0, j), duration)));
            }
        }
        let ticks = clone_ticks(&self.running_history);
        let hist = clone_events(&self.event_history);
        (ticks, hist)
    }

    /// The ready-queue position of the job the engine dispatches next.
    pub(crate) fn best_ready_index(&self) -> (r: usize)
        requires
            self@.ready.len() >= 1,
            forall |p: int| 0 <= p < self@.ready.len() ==> 0 <= #[trigger] self@.ready[p] < self@.tasks.len(),
        ensures
            r as int == model::min_ready_idx(self@.tasks, self@.ready),
            r < self@.ready.len(),
    {
        let mut best: usize = 0;
        let mut i: usize = 1;
        while i < self.ready_jobs_queue.len()
            invariant
                1 <= i <= self@.ready.len(),
                best < i,
                self@.ready.len() == self.ready_jobs_queue@.len(),
                forall |p: int| 0 <= p < self@.ready.len() ==> 0 <= #[trigger] self@.ready[p] < self@.tasks.len(),
                best as int == model::min_ready_idx_upto(self@.tasks, self@.ready, i as nat),
            decreases self@.ready.len() - i,
        {
            let a = self.ready_jobs_queue[i];
            let b = self.ready_jobs_queue[best];
            proof {
                assert(self@.ready[i as int] == a as int);
                assert(self@.ready[best as int] == b as int);
            }
            let pa = self.tasks[a].priority();
            let pb = self.tasks[b].priority();
            let precedes = pa < pb
                || (pa == pb && self.tasks[a].task.props().id < self.tasks[b].task.props().id);
            proof {
                assert(self@.ready[i as int] == a as int);
                assert(self@.ready[best as int] == b as int);
                assert(precedes == model::job_precedes(self@.tasks, a as int, b as int));
            }
            if precedes {
                best = i;
            }
            i = i + 1;
        }
        best
    }
}

} // verus!
