use amcsim::agent::SimulatorActionPart;
use amcsim::schedulability::{feasible_schedule, wcet_in_mode};
use amcsim::simulator::{Simulator, SimulatorEvent, SimulatorMode};
use amcsim::task::{SimulatorTask, Task, TaskProps, TimeUnit};
use amcsim::validation::{
    feasible_mode_changes, feasible_schedule_design_time, feasible_schedule_online, response_time,
    AnalysisMode,
};

const UNUSED_TIME: TimeUnit = TimeUnit::MAX;

fn l_task(id: u64, wcet_l: u64, wcet_h: u64, period: u64, priority: u64) -> SimulatorTask {
    SimulatorTask::new_with_custom_priority(
        Task::LTask(TaskProps {
            id,
            wcet_l,
            wcet_h,
            offset: 0,
            period,
        }),
        priority,
        UNUSED_TIME,
    )
}

fn h_task(id: u64, wcet_l: u64, wcet_h: u64, period: u64, priority: u64) -> SimulatorTask {
    SimulatorTask::new_with_custom_priority(
        Task::HTask(TaskProps {
            id,
            wcet_l,
            wcet_h,
            offset: 0,
            period,
        }),
        priority,
        UNUSED_TIME,
    )
}

#[test]
fn response_time_monotone_in_budget() {
    // Raising a higher-priority task's budget never shrinks a response time.
    let low = vec![l_task(1, 2, 2, 8, 1), l_task(2, 2, 2, 8, 2), l_task(3, 2, 2, 8, 3)];
    let high = vec![l_task(1, 3, 3, 8, 1), l_task(2, 2, 2, 8, 2), l_task(3, 2, 2, 8, 3)];

    let r_low = response_time(&low[2], &low, SimulatorMode::LMode).unwrap();
    let r_high = response_time(&high[2], &high, SimulatorMode::LMode).unwrap();
    assert_eq!(r_low, 6);
    assert_eq!(r_high, 7);
    assert!(r_low <= r_high);
}

#[test]
fn response_time_is_stable() {
    // The recurrence is deterministic and its result is a fixed point:
    // asking again gives the same answer.
    let tasks = vec![l_task(1, 4, 4, 8, 1), l_task(2, 2, 2, 8, 2)];
    let first = response_time(&tasks[1], &tasks, SimulatorMode::LMode);
    let second = response_time(&tasks[1], &tasks, SimulatorMode::LMode);
    assert_eq!(first, Some(6));
    assert_eq!(first, second);
}

#[test]
fn response_time_divergence_is_none() {
    // A higher-priority task with utilisation above one starves this one:
    // the recurrence never stabilises and the task counts as infeasible.
    let tasks = vec![l_task(1, 5, 5, 4, 1), l_task(2, 1, 1, 100, 2)];
    assert_eq!(response_time(&tasks[1], &tasks, SimulatorMode::LMode), None);
}

#[test]
fn approximate_mode_change_is_conservative() {
    // Whenever the cheap online variant accepts a task set, the exact
    // design-time variant accepts it as well.
    let tasks = vec![h_task(1, 3, 4, 8, 3), l_task(2, 2, 2, 8, 1), l_task(3, 2, 2, 8, 2)];
    let cache: Vec<Option<TimeUnit>> = Vec::new();
    assert!(feasible_mode_changes(&tasks, AnalysisMode::Approximate, &cache));
    assert!(feasible_mode_changes(&tasks, AnalysisMode::Exact, &cache));
}

#[test]
fn design_time_accepts_and_rejects() {
    let good = vec![h_task(1, 3, 4, 8, 3), l_task(2, 2, 2, 8, 1), l_task(3, 2, 2, 8, 2)];
    assert!(feasible_schedule_design_time(&good));
    assert!(feasible_schedule(&good));

    // Overloaded in low mode.
    let overloaded = vec![l_task(1, 4, 4, 8, 1), l_task(2, 2, 2, 8, 2), l_task(3, 3, 3, 8, 3)];
    assert!(!feasible_schedule_design_time(&overloaded));

    // A low-mode budget above the high-mode one violates the structural
    // invariant and is rejected outright.
    let inverted = vec![l_task(1, 5, 2, 8, 1)];
    assert!(!feasible_schedule_design_time(&inverted));

    // A zero low-mode budget is rejected.
    let zero = vec![l_task(1, 0, 2, 8, 1)];
    assert!(!feasible_schedule_design_time(&zero));
}

#[test]
fn online_check_rejects_invalid_budget() {
    let cache: Vec<Option<TimeUnit>> = Vec::new();
    let good = vec![h_task(1, 3, 4, 8, 3), l_task(2, 2, 2, 8, 1)];
    assert!(feasible_schedule_online(&good, &cache));

    let inverted = vec![h_task(1, 5, 4, 8, 3), l_task(2, 2, 2, 8, 1)];
    assert!(!feasible_schedule_online(&inverted, &cache));
}

#[test]
fn wcet_in_mode_selects_budget() {
    let t = Task::HTask(TaskProps {
        id: 7,
        wcet_l: 3,
        wcet_h: 9,
        offset: 0,
        period: 20,
    });
    assert_eq!(wcet_in_mode(&t, SimulatorMode::LMode), 3);
    assert_eq!(wcet_in_mode(&t, SimulatorMode::HMode), 9);
    assert_eq!(t.props().wcet_in_mode(SimulatorMode::LMode), 3);
    assert_eq!(t.props().wcet_in_mode(SimulatorMode::HMode), 9);
}

#[test]
fn task_accessors() {
    let mut t = Task::LTask(TaskProps::new_empty(4));
    assert_eq!(t.props().id, 4);
    assert_eq!(t.props().period, 0);
    t.set_id(11);
    assert_eq!(t.props().id, 11);
    t.props_mut().period = 25;
    assert_eq!(t.props().period, 25);

    let st = SimulatorTask::new(t, 3, 2);
    assert_eq!(st.sample_execution_time(), 3);
    assert_eq!(st.priority(), 25);
    assert_eq!(st.next_arrival, 0);

    let custom = SimulatorTask::new_with_custom_priority(t, 2, 3);
    assert_eq!(custom.priority(), 2);
}

#[test]
fn event_accessors() {
    let s = SimulatorEvent::Start(3, 14);
    let e = SimulatorEvent::End(4, 15, amcsim::simulator::EndReason::JobCompletion);
    assert_eq!(s.task(), 3);
    assert_eq!(s.time(), 14);
    assert_eq!(e.task(), 4);
    assert_eq!(e.time(), 15);
}

#[test]
fn action_parts_apply_and_reverse() {
    let inc = SimulatorActionPart::WcetIncrease(1);
    let dec = SimulatorActionPart::WcetDecrease(1);
    assert_eq!(inc.reverse(), dec);
    assert_eq!(dec.reverse(), inc);
    assert_eq!(SimulatorActionPart::NoOp.reverse(), SimulatorActionPart::NoOp);
    assert_eq!(inc.task_id(), 1);

    // A tenth of the high-mode budget is added...
    let mut tasks = vec![l_task(1, 2, 10, 20, 1)];
    inc.apply(&mut tasks);
    assert_eq!(tasks[0].task.props().wcet_l, 3);
    // ... and a twentieth taken away, saturating at zero.
    let mut tasks = vec![l_task(1, 1, 40, 100, 1)];
    dec.apply(&mut tasks);
    assert_eq!(tasks[0].task.props().wcet_l, 0);
}

#[test]
fn agent_mutation_applied_when_feasible() {
    let t1 = SimulatorTask::new_with_custom_priority(
        Task::LTask(TaskProps {
            id: 1,
            wcet_l: 2,
            wcet_h: 10,
            offset: 0,
            period: 20,
        }),
        1,
        2,
    );
    let t2 = SimulatorTask::new_with_custom_priority(
        Task::LTask(TaskProps {
            id: 2,
            wcet_l: 2,
            wcet_h: 10,
            offset: 0,
            period: 20,
        }),
        9,
        1,
    );
    let agent = SimulatorTask::new_with_custom_priority(
        Task::HTask(TaskProps {
            id: 9,
            wcet_l: 1,
            wcet_h: 2,
            offset: 1,
            period: 20,
        }),
        5,
        1,
    );
    let mut simulator = Simulator::new(vec![t1, t2], Some(agent));
    simulator.set_pending_agent_action(Some((
        SimulatorActionPart::WcetIncrease(2),
        SimulatorActionPart::NoOp,
        SimulatorActionPart::NoOp,
    )));
    simulator.fire(6);
    // The proposal passed the online check: the budget mutation stuck.
    assert_eq!(simulator.tasks[1].task.props().wcet_l, 3);
    assert!(simulator.pending_agent_action.is_none());
}

#[test]
fn agent_mutation_reverted_when_infeasible() {
    let t1 = SimulatorTask::new_with_custom_priority(
        Task::LTask(TaskProps {
            id: 1,
            wcet_l: 2,
            wcet_h: 10,
            offset: 0,
            period: 20,
        }),
        1,
        2,
    );
    let t2 = SimulatorTask::new_with_custom_priority(
        Task::LTask(TaskProps {
            id: 2,
            wcet_l: 2,
            wcet_h: 10,
            offset: 0,
            period: 20,
        }),
        9,
        1,
    );
    let agent = SimulatorTask::new_with_custom_priority(
        Task::HTask(TaskProps {
            id: 9,
            wcet_l: 1,
            wcet_h: 2,
            offset: 1,
            period: 20,
        }),
        5,
        1,
    );
    let mut simulator = Simulator::new(vec![t1, t2], Some(agent));
    // Raising the budget of the highest-priority task makes the cheap
    // necessary condition fail against the cached response times, so the
    // engine undoes the mutation in full.
    simulator.set_pending_agent_action(Some((
        SimulatorActionPart::WcetIncrease(1),
        SimulatorActionPart::NoOp,
        SimulatorActionPart::NoOp,
    )));
    simulator.fire(6);
    assert_eq!(simulator.tasks[0].task.props().wcet_l, 2);
    assert!(simulator.pending_agent_action.is_none());
}

#[test]
fn push_event_appends_to_history() {
    let t1 = l_task(1, 2, 2, 8, 1);
    let mut simulator = Simulator::new(vec![t1], None);
    assert!(simulator.event_history.is_empty());
    simulator.push_event(SimulatorEvent::ModeChange(SimulatorMode::HMode, 0));
    assert_eq!(
        simulator.event_history,
        vec![SimulatorEvent::ModeChange(SimulatorMode::HMode, 0)]
    );
}
