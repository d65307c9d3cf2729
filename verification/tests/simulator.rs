use amcsim::simulator::{Simulator, SimulatorEvent, SimulatorMode};
use amcsim::task::{SimulatorTask, Task, TaskProps};

fn assert_events_eq(events: Vec<SimulatorEvent>, expected: Vec<SimulatorEvent>) {
    let events_with_stripped_start_end = events
        .iter()
        .filter(|e| {
            !matches!(
                e,
                SimulatorEvent::Start(_, _) | SimulatorEvent::End(_, _, _)
            )
        })
        .cloned()
        .collect::<Vec<_>>();
    for (event, expected) in events_with_stripped_start_end.iter().zip(expected.iter()) {
        match (event, expected) {
            (
                SimulatorEvent::TaskKill(task, time),
                SimulatorEvent::TaskKill(expected_task, expected_time),
            ) => {
                assert_eq!(task, expected_task);
                assert_eq!(time, expected_time);
            }
            (
                SimulatorEvent::ModeChange(mode, time),
                SimulatorEvent::ModeChange(expected_mode, expected_time),
            ) => {
                assert_eq!(mode, expected_mode);
                assert_eq!(time, expected_time);
            }
            _ => panic!("Events do not match"),
        }
    }
}

#[test]
fn same_criticality_1() {
    let task1 = SimulatorTask::new_with_custom_priority(
        Task::LTask(TaskProps {
            id: 1,
            wcet_l: 1,
            wcet_h: 1,
            offset: 1,
            period: 4,
        }),
        1,
        1,
    );
    let task2 = SimulatorTask::new_with_custom_priority(
        Task::LTask(TaskProps {
            id: 2,
            wcet_l: 2,
            wcet_h: 2,
            offset: 0,
            period: 4,
        }),
        2,
        2,
    );

    let mut simulator = Simulator::new(vec![task1, task2], None);
    let (tasks, events) = simulator.fire(10);

    assert_eq!(
        tasks,
        vec![
            Some(2),
            Some(1),
            Some(2),
            None,
            Some(2),
            Some(1),
            Some(2),
            None,
            Some(2),
            Some(1),
        ]
    );

    assert_events_eq(events, vec![]);
}

#[test]
fn same_criticality_2() {
    let task1 = SimulatorTask::new_with_custom_priority(
        Task::LTask(TaskProps {
            id: 1,
            wcet_l: 2,
            wcet_h: 2,
            offset: 1,
            period: 5,
        }),
        2,
        2,
    );
    let task2 = SimulatorTask::new_with_custom_priority(
        Task::LTask(TaskProps {
            id: 2,
            wcet_l: 2,
            wcet_h: 2,
            offset: 0,
            period: 5,
        }),
        3,
        2,
    );
    let task3 = SimulatorTask::new_with_custom_priority(
        Task::LTask(TaskProps {
            id: 3,
            wcet_l: 1,
            wcet_h: 1,
            offset: 1,
            period: 5,
        }),
        1,
        1,
    );

    let mut simulator = Simulator::new(vec![task1, task2, task3], None);
    let (tasks, events) = simulator.fire(10);

    assert_eq!(
        tasks,
        vec![
            Some(2),
            Some(3),
            Some(1),
            Some(1),
            Some(2),
            Some(2),
            Some(3),
            Some(1),
            Some(1),
            Some(2),
        ]
    );

    assert_events_eq(events, vec![]);
}

#[test]
fn different_criticality_1() {
    let task1 = SimulatorTask::new_with_custom_priority(
        Task::HTask(TaskProps {
            id: 1,
            wcet_l: 1,
            wcet_h: 1,
            offset: 1,
            period: 3,
        }),
        1,
        1,
    );
    let task2 = SimulatorTask::new_with_custom_priority(
        Task::LTask(TaskProps {
            id: 2,
            wcet_l: 2,
            wcet_h: 2,
            offset: 0,
            period: 3,
        }),
        2,
        2,
    );

    let mut simulator = Simulator::new(vec![task1, task2], None);
    let (tasks, events) = simulator.fire(8);

    assert_eq!(
        tasks,
        vec![
            Some(2),
            Some(1),
            Some(2),
            Some(2),
            Some(1),
            Some(2),
            Some(2),
            Some(1),
        ]
    );

    assert_events_eq(events, vec![]);
}

#[test]
fn different_criticality_task_kill() {
    let task1 = SimulatorTask::new_with_custom_priority(
        Task::LTask(TaskProps {
            id: 1,
            wcet_l: 2,
            wcet_h: 0,
            offset: 0,
            period: 5,
        }),
        1,
        3,
    );
    let task2 = SimulatorTask::new_with_custom_priority(
        Task::HTask(TaskProps {
            id: 2,
            wcet_l: 2,
            wcet_h: 3,
            offset: 2,
            period: 5,
        }),
        2,
        2,
    );

    let mut simulator = Simulator::new(vec![task1, task2], None);
    let (tasks, events) = simulator.fire(12);

    assert_eq!(
        tasks,
        vec![
            Some(1),
            Some(1),
            Some(2),
            Some(2),
            None,
            Some(1),
            Some(1),
            Some(2),
            Some(2),
            None,
            Some(1),
            Some(1),
        ]
    );

    assert_events_eq(
        events,
        vec![
            SimulatorEvent::TaskKill(1, 2),
            SimulatorEvent::TaskKill(1, 7),
            SimulatorEvent::TaskKill(1, 12),
        ],
    );
}

#[test]
fn different_criticality_mode_change() {
    let task1 = SimulatorTask::new_with_custom_priority(
        Task::HTask(TaskProps {
            id: 1,
            wcet_l: 2,
            wcet_h: 3,
            offset: 0,
            period: 5,
        }),
        1,
        3,
    );
    let task2 = SimulatorTask::new_with_custom_priority(
        Task::LTask(TaskProps {
            id: 2,
            wcet_l: 2,
            wcet_h: 3,
            offset: 2,
            period: 5,
        }),
        2,
        2,
    );

    let mut simulator = Simulator::new(vec![task1, task2], None);
    let (tasks, events) = simulator.fire(12);

    assert_eq!(
        tasks,
        vec![
            Some(1),
            Some(1),
            Some(2),
            Some(2),
            None,
            Some(1),
            Some(1),
            Some(2),
            Some(2),
            None,
            Some(1),
            Some(1),
        ]
    );

    assert_events_eq(
        events,
        vec![
            SimulatorEvent::ModeChange(SimulatorMode::HMode, 2),
            SimulatorEvent::ModeChange(SimulatorMode::LMode, 2),
            SimulatorEvent::ModeChange(SimulatorMode::HMode, 7),
            SimulatorEvent::ModeChange(SimulatorMode::LMode, 7),
            SimulatorEvent::ModeChange(SimulatorMode::HMode, 12),
            SimulatorEvent::ModeChange(SimulatorMode::LMode, 12),
        ],
    );
}

#[test]
fn determinism_same_histories() {
    let mk = || {
        vec![
            SimulatorTask::new_with_custom_priority(
                Task::HTask(TaskProps {
                    id: 1,
                    wcet_l: 2,
                    wcet_h: 3,
                    offset: 0,
                    period: 5,
                }),
                1,
                3,
            ),
            SimulatorTask::new_with_custom_priority(
                Task::LTask(TaskProps {
                    id: 2,
                    wcet_l: 2,
                    wcet_h: 3,
                    offset: 2,
                    period: 5,
                }),
                2,
                2,
            ),
        ]
    };

    let mut sim_a = Simulator::new(mk(), None);
    let mut sim_b = Simulator::new(mk(), None);
    let (ticks_a, events_a) = sim_a.fire(40);
    let (ticks_b, events_b) = sim_b.fire(40);

    assert_eq!(ticks_a, ticks_b);
    assert_eq!(events_a, events_b);
}

#[test]
fn overrun_records_mode_change() {
    // A lone high-criticality task whose sampled execution time overruns
    // both budgets: the engine records a switch to high mode at the low
    // budget's exhaustion.
    let task1 = SimulatorTask::new_with_custom_priority(
        Task::HTask(TaskProps {
            id: 1,
            wcet_l: 2,
            wcet_h: 3,
            offset: 0,
            period: 4,
        }),
        1,
        5,
    );

    let mut simulator = Simulator::new(vec![task1], None);
    let (_, events) = simulator.fire(10);

    assert!(events
        .iter()
        .any(|e| matches!(e, SimulatorEvent::ModeChange(SimulatorMode::HMode, 2))));
}
