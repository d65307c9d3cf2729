use amcsim::simulator::SimulatorMode;
use amcsim::task::{SimulatorTask, Task, TaskProps, TimeUnit};
use amcsim::validation::{
    feasible_in_mode, feasible_mode_changes, response_time, response_time_in_mode_changes,
    AnalysisMode,
};

const UNUSED_TIME: TimeUnit = TimeUnit::MAX;

fn no_cache() -> Vec<Option<TimeUnit>> {
    Vec::new()
}

#[test]
fn validation_feasible_in_mode_1() {
    let task1 = SimulatorTask::new_with_custom_priority(
        Task::LTask(TaskProps {
            id: 1,
            wcet_l: 4,
            wcet_h: 4,
            offset: 0,
            period: 8,
        }),
        1,
        UNUSED_TIME,
    );
    let task2 = SimulatorTask::new_with_custom_priority(
        Task::LTask(TaskProps {
            id: 2,
            wcet_l: 2,
            wcet_h: 2,
            offset: 0,
            period: 8,
        }),
        2,
        UNUSED_TIME,
    );
    let task3 = SimulatorTask::new_with_custom_priority(
        Task::LTask(TaskProps {
            id: 3,
            wcet_l: 2,
            wcet_h: 2,
            offset: 0,
            period: 8,
        }),
        3,
        UNUSED_TIME,
    );

    let tasks = vec![task1.clone(), task2.clone(), task3.clone()];

    assert_eq!(response_time(&task1, &tasks, SimulatorMode::LMode), Some(4));
    assert_eq!(response_time(&task2, &tasks, SimulatorMode::LMode), Some(6));
    assert_eq!(response_time(&task3, &tasks, SimulatorMode::LMode), Some(8));

    assert!(feasible_in_mode(&tasks, SimulatorMode::LMode));
}

#[test]
fn validation_non_feasible_in_mode_1() {
    let task1 = SimulatorTask::new_with_custom_priority(
        Task::LTask(TaskProps {
            id: 1,
            wcet_l: 4,
            wcet_h: 4,
            offset: 0,
            period: 8,
        }),
        1,
        UNUSED_TIME,
    );
    let task2 = SimulatorTask::new_with_custom_priority(
        Task::LTask(TaskProps {
            id: 2,
            wcet_l: 2,
            wcet_h: 2,
            offset: 0,
            period: 8,
        }),
        2,
        UNUSED_TIME,
    );
    let task3 = SimulatorTask::new_with_custom_priority(
        Task::LTask(TaskProps {
            id: 3,
            wcet_l: 3,
            wcet_h: 3,
            offset: 0,
            period: 8,
        }),
        3,
        UNUSED_TIME,
    );

    let tasks = vec![task1.clone(), task2.clone(), task3.clone()];

    assert_eq!(response_time(&task1, &tasks, SimulatorMode::LMode), Some(4));
    assert_eq!(response_time(&task2, &tasks, SimulatorMode::LMode), Some(6));
    assert_eq!(response_time(&task3, &tasks, SimulatorMode::LMode), Some(15));

    assert!(!feasible_in_mode(&tasks, SimulatorMode::LMode));
}

#[test]
fn validation_non_feasible_in_mode_2() {
    let task1 = SimulatorTask::new_with_custom_priority(
        Task::HTask(TaskProps {
            id: 1,
            wcet_l: 1,
            wcet_h: 1,
            offset: 0,
            period: 8,
        }),
        1,
        UNUSED_TIME,
    );
    let task2 = SimulatorTask::new_with_custom_priority(
        Task::HTask(TaskProps {
            id: 2,
            wcet_l: 1,
            wcet_h: 1,
            offset: 0,
            period: 8,
        }),
        2,
        UNUSED_TIME,
    );
    let task3 = SimulatorTask::new_with_custom_priority(
        Task::LTask(TaskProps {
            id: 3,
            wcet_l: 4,
            wcet_h: 4,
            offset: 0,
            period: 10,
        }),
        3,
        UNUSED_TIME,
    );
    let task4 = SimulatorTask::new_with_custom_priority(
        Task::LTask(TaskProps {
            id: 4,
            wcet_l: 2,
            wcet_h: 2,
            offset: 0,
            period: 10,
        }),
        4,
        UNUSED_TIME,
    );
    let task5 = SimulatorTask::new_with_custom_priority(
        Task::LTask(TaskProps {
            id: 5,
            wcet_l: 3,
            wcet_h: 3,
            offset: 0,
            period: 10,
        }),
        5,
        UNUSED_TIME,
    );

    let tasks = vec![
        task1.clone(),
        task2.clone(),
        task3.clone(),
        task4.clone(),
        task5.clone(),
    ];

    assert_eq!(response_time(&task1, &tasks, SimulatorMode::HMode), Some(1));
    assert_eq!(response_time(&task2, &tasks, SimulatorMode::HMode), Some(2));

    assert_eq!(response_time(&task1, &tasks, SimulatorMode::LMode), Some(1));
    assert_eq!(response_time(&task2, &tasks, SimulatorMode::LMode), Some(2));
    assert_eq!(response_time(&task3, &tasks, SimulatorMode::LMode), Some(6));
    assert_eq!(response_time(&task4, &tasks, SimulatorMode::LMode), Some(8));
    assert_eq!(response_time(&task5, &tasks, SimulatorMode::LMode), Some(29));

    assert!(feasible_in_mode(&tasks, SimulatorMode::HMode));

    assert!(!feasible_in_mode(&tasks, SimulatorMode::LMode));
}

#[test]
fn validation_feasible_mode_change_1() {
    let task1 = SimulatorTask::new_with_custom_priority(
        Task::HTask(TaskProps {
            id: 1,
            wcet_l: 3,
            wcet_h: 4,
            offset: 0,
            period: 8,
        }),
        3,
        UNUSED_TIME,
    );
    let task2 = SimulatorTask::new_with_custom_priority(
        Task::LTask(TaskProps {
            id: 2,
            wcet_l: 2,
            wcet_h: 2,
            offset: 0,
            period: 8,
        }),
        1,
        UNUSED_TIME,
    );
    let task3 = SimulatorTask::new_with_custom_priority(
        Task::LTask(TaskProps {
            id: 3,
            wcet_l: 2,
            wcet_h: 2,
            offset: 0,
            period: 8,
        }),
        2,
        UNUSED_TIME,
    );

    let tasks = vec![task1.clone(), task2.clone(), task3.clone()];

    assert_eq!(
        response_time_in_mode_changes(&task1, &tasks, AnalysisMode::Exact, &no_cache()),
        Some(8)
    );

    assert!(feasible_mode_changes(&tasks, AnalysisMode::Exact, &no_cache()));
}

#[test]
fn validation_feasible_mode_change_2() {
    let task1 = SimulatorTask::new_with_custom_priority(
        Task::HTask(TaskProps {
            id: 1,
            wcet_l: 3,
            wcet_h: 4,
            offset: 0,
            period: 8,
        }),
        3,
        UNUSED_TIME,
    );
    let task2 = SimulatorTask::new_with_custom_priority(
        Task::HTask(TaskProps {
            id: 2,
            wcet_l: 2,
            wcet_h: 2,
            offset: 0,
            period: 8,
        }),
        1,
        UNUSED_TIME,
    );
    let task3 = SimulatorTask::new_with_custom_priority(
        Task::LTask(TaskProps {
            id: 3,
            wcet_l: 2,
            wcet_h: 2,
            offset: 0,
            period: 8,
        }),
        2,
        UNUSED_TIME,
    );

    let tasks = vec![task1.clone(), task2.clone(), task3.clone()];

    assert_eq!(
        response_time_in_mode_changes(&task1, &tasks, AnalysisMode::Exact, &no_cache()),
        Some(8)
    );
    assert_eq!(
        response_time_in_mode_changes(&task2, &tasks, AnalysisMode::Exact, &no_cache()),
        Some(2)
    );

    assert!(feasible_mode_changes(&tasks, AnalysisMode::Exact, &no_cache()));
}

fn plain_task(task: Task, priority: u64) -> SimulatorTask {
    SimulatorTask {
        task,
        custom_priority: Some(priority),
        acet: 0,
        bcet: None,
        next_arrival: 0,
    }
}

#[test]
fn schedulability_feasible_in_mode_1() {
    let task1 = plain_task(
        Task::LTask(TaskProps {
            id: 1,
            wcet_l: 4,
            wcet_h: 4,
            offset: 0,
            period: 8,
        }),
        1,
    );
    let task2 = plain_task(
        Task::LTask(TaskProps {
            id: 2,
            wcet_l: 2,
            wcet_h: 2,
            offset: 0,
            period: 8,
        }),
        2,
    );
    let task3 = plain_task(
        Task::LTask(TaskProps {
            id: 3,
            wcet_l: 2,
            wcet_h: 2,
            offset: 0,
            period: 8,
        }),
        3,
    );

    let tasks = vec![task1, task2, task3];

    assert_eq!(response_time(&task1, &tasks, SimulatorMode::LMode), Some(4));
    assert_eq!(response_time(&task2, &tasks, SimulatorMode::LMode), Some(6));
    assert_eq!(response_time(&task3, &tasks, SimulatorMode::LMode), Some(8));

    assert!(feasible_in_mode(&tasks, SimulatorMode::LMode));
}

#[test]
fn schedulability_non_feasible_in_mode_1() {
    let task1 = plain_task(
        Task::LTask(TaskProps {
            id: 1,
            wcet_l: 4,
            wcet_h: 4,
            offset: 0,
            period: 8,
        }),
        1,
    );
    let task2 = plain_task(
        Task::LTask(TaskProps {
            id: 2,
            wcet_l: 2,
            wcet_h: 2,
            offset: 0,
            period: 8,
        }),
        2,
    );
    let task3 = plain_task(
        Task::LTask(TaskProps {
            id: 3,
            wcet_l: 3,
            wcet_h: 3,
            offset: 0,
            period: 8,
        }),
        3,
    );

    let tasks = vec![task1, task2, task3];

    assert_eq!(response_time(&task1, &tasks, SimulatorMode::LMode), Some(4));
    assert_eq!(response_time(&task2, &tasks, SimulatorMode::LMode), Some(6));
    assert_eq!(response_time(&task3, &tasks, SimulatorMode::LMode), Some(15));

    assert!(!feasible_in_mode(&tasks, SimulatorMode::LMode));
}

#[test]
fn schedulability_non_feasible_in_mode_2() {
    let task1 = plain_task(
        Task::HTask(TaskProps {
            id: 1,
            wcet_l: 1,
            wcet_h: 1,
            offset: 0,
            period: 8,
        }),
        1,
    );
    let task2 = plain_task(
        Task::HTask(TaskProps {
            id: 2,
            wcet_l: 1,
            wcet_h: 1,
            offset: 0,
            period: 8,
        }),
        2,
    );
    let task3 = plain_task(
        Task::LTask(TaskProps {
            id: 3,
            wcet_l: 4,
            wcet_h: 4,
            offset: 0,
            period: 10,
        }),
        3,
    );
    let task4 = plain_task(
        Task::LTask(TaskProps {
            id: 4,
            wcet_l: 2,
            wcet_h: 2,
            offset: 0,
            period: 10,
        }),
        4,
    );
    let task5 = plain_task(
        Task::LTask(TaskProps {
            id: 5,
            wcet_l: 3,
            wcet_h: 3,
            offset: 0,
            period: 10,
        }),
        5,
    );

    let tasks = vec![task1, task2, task3, task4, task5];

    assert_eq!(response_time(&task1, &tasks, SimulatorMode::HMode), Some(1));
    assert_eq!(response_time(&task2, &tasks, SimulatorMode::HMode), Some(2));

    assert_eq!(response_time(&task1, &tasks, SimulatorMode::LMode), Some(1));
    assert_eq!(response_time(&task2, &tasks, SimulatorMode::LMode), Some(2));
    assert_eq!(response_time(&task3, &tasks, SimulatorMode::LMode), Some(6));
    assert_eq!(response_time(&task4, &tasks, SimulatorMode::LMode), Some(8));
    assert_eq!(response_time(&task5, &tasks, SimulatorMode::LMode), Some(29));

    assert!(feasible_in_mode(&tasks, SimulatorMode::HMode));

    assert!(!feasible_in_mode(&tasks, SimulatorMode::LMode));
}

#[test]
fn schedulability_feasible_mode_change_1() {
    let task1 = plain_task(
        Task::HTask(TaskProps {
            id: 1,
            wcet_l: 3,
            wcet_h: 4,
            offset: 0,
            period: 8,
        }),
        3,
    );
    let task2 = plain_task(
        Task::LTask(TaskProps {
            id: 2,
            wcet_l: 2,
            wcet_h: 2,
            offset: 0,
            period: 8,
        }),
        1,
    );
    let task3 = plain_task(
        Task::LTask(TaskProps {
            id: 3,
            wcet_l: 2,
            wcet_h: 2,
            offset: 0,
            period: 8,
        }),
        2,
    );

    let tasks = vec![task1, task2, task3];

    assert_eq!(
        response_time_in_mode_changes(&task1, &tasks, AnalysisMode::Exact, &no_cache()),
        Some(8)
    );

    assert!(feasible_mode_changes(&tasks, AnalysisMode::Exact, &no_cache()));
}

#[test]
fn schedulability_feasible_mode_change_2() {
    let task1 = plain_task(
        Task::HTask(TaskProps {
            id: 1,
            wcet_l: 3,
            wcet_h: 4,
            offset: 0,
            period: 8,
        }),
        3,
    );
    let task2 = plain_task(
        Task::HTask(TaskProps {
            id: 2,
            wcet_l: 2,
            wcet_h: 2,
            offset: 0,
            period: 8,
        }),
        1,
    );
    let task3 = plain_task(
        Task::LTask(TaskProps {
            id: 3,
            wcet_l: 2,
            wcet_h: 2,
            offset: 0,
            period: 8,
        }),
        2,
    );

    let tasks = vec![task1, task2, task3];

    assert_eq!(
        response_time_in_mode_changes(&task1, &tasks, AnalysisMode::Exact, &no_cache()),
        Some(8)
    );
    assert_eq!(
        response_time_in_mode_changes(&task2, &tasks, AnalysisMode::Exact, &no_cache()),
        Some(2)
    );

    assert!(feasible_mode_changes(&tasks, AnalysisMode::Exact, &no_cache()));
}
