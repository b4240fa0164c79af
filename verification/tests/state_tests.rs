use pueue::state::{State, StateError};
use pueue::task::{TaskResult, TaskStatus};

fn add(state: &mut State, group: &str, deps: Vec<u64>) -> u64 {
    state
        .add_task(
            String::from("ls"),
            String::from("/tmp"),
            None,
            String::from(group),
            deps,
            0,
            false,
            None,
        )
        .expect("add_task should succeed")
}

#[test]
fn ids_increase_and_survive_removal() {
    let mut s = State::new();
    let a = add(&mut s, "default", vec![]);
    let b = add(&mut s, "default", vec![]);
    assert_eq!(a, 0);
    assert_eq!(b, 1);
    s.remove_task(a).unwrap();
    let c = add(&mut s, "default", vec![]);
    // a removed id never reappears
    assert_eq!(c, 2);
}

#[test]
fn add_to_missing_group_fails() {
    let mut s = State::new();
    let r = s.add_task(
        String::from("ls"),
        String::from("/tmp"),
        None,
        String::from("nope"),
        vec![],
        0,
        false,
        None,
    );
    assert_eq!(r.unwrap_err(), StateError::NotFound);
    assert_eq!(s.tasks.len(), 0);
}

#[test]
fn start_on_running_is_noop() {
    let mut s = State::new();
    let id = add(&mut s, "default", vec![]);
    s.admit_task(id, 5).unwrap();
    assert!(matches!(s.tasks[0].status, TaskStatus::Running));
    let start_before = s.tasks[0].start;
    s.start_task(id).unwrap();
    assert!(matches!(s.tasks[0].status, TaskStatus::Running));
    assert_eq!(s.tasks[0].start, start_before);
}

#[test]
fn pause_on_paused_is_noop() {
    let mut s = State::new();
    let id = add(&mut s, "default", vec![]);
    s.pause_task(id).unwrap();
    assert!(matches!(s.tasks[0].status, TaskStatus::Paused));
    s.pause_task(id).unwrap();
    assert!(matches!(s.tasks[0].status, TaskStatus::Paused));
    // start ungates it again
    s.start_task(id).unwrap();
    assert!(matches!(s.tasks[0].status, TaskStatus::Queued));
}

#[test]
fn remove_absent_id_fails_and_changes_nothing() {
    let mut s = State::new();
    let id = add(&mut s, "default", vec![]);
    assert_eq!(s.remove_task(77).unwrap_err(), StateError::NotFound);
    assert_eq!(s.tasks.len(), 1);
    assert_eq!(s.tasks[0].id, id);
    assert_eq!(s.next_id, 1);
}

#[test]
fn remove_running_is_refused() {
    let mut s = State::new();
    let id = add(&mut s, "default", vec![]);
    s.admit_task(id, 1).unwrap();
    assert_eq!(s.remove_task(id).unwrap_err(), StateError::InvalidState);
    assert_eq!(s.tasks.len(), 1);
}

#[test]
fn group_slots_bound_admission() {
    let mut s = State::new();
    s.add_group(String::from("g"), 2).unwrap();
    let a = add(&mut s, "g", vec![]);
    let b = add(&mut s, "g", vec![]);
    let c = add(&mut s, "g", vec![]);
    s.admit_task(a, 1).unwrap();
    s.admit_task(b, 1).unwrap();
    // the third task has to wait for a free slot
    assert_eq!(s.admit_task(c, 1).unwrap_err(), StateError::InvalidState);
    s.finish_task(a, TaskResult::Success, 2).unwrap();
    s.admit_task(c, 3).unwrap();
    let running = s
        .tasks
        .iter()
        .filter(|t| matches!(t.status, TaskStatus::Running))
        .count();
    assert_eq!(running, 2);
}

#[test]
fn dependencies_gate_admission() {
    let mut s = State::new();
    let first = add(&mut s, "default", vec![]);
    let second = add(&mut s, "default", vec![first]);
    // the dependency has not finished yet
    assert_eq!(s.admit_task(second, 1).unwrap_err(), StateError::InvalidState);
    s.admit_task(first, 1).unwrap();
    s.finish_task(first, TaskResult::Failed(1), 2).unwrap();
    // a failed dependency is not a satisfied one
    assert_eq!(s.admit_task(second, 3).unwrap_err(), StateError::InvalidState);
    let third = add(&mut s, "default", vec![]);
    s.admit_task(third, 4).unwrap();
    s.finish_task(third, TaskResult::Success, 5).unwrap();
    let fourth = add(&mut s, "default", vec![third]);
    s.admit_task(fourth, 6).unwrap();
    assert!(matches!(s.tasks[3].status, TaskStatus::Running));
}

#[test]
fn finish_records_end_not_before_start() {
    let mut s = State::new();
    let id = add(&mut s, "default", vec![]);
    s.admit_task(id, 10).unwrap();
    // a clock that stepped backwards cannot produce end < start
    s.finish_task(id, TaskResult::Success, 5).unwrap();
    assert_eq!(s.tasks[0].start, Some(10));
    assert_eq!(s.tasks[0].end, Some(10));
    assert!(matches!(
        s.tasks[0].status,
        TaskStatus::Done(TaskResult::Success)
    ));
}

#[test]
fn reload_demotes_running_tasks() {
    let mut s = State::new();
    s.add_group(String::from("g"), 3).unwrap();
    let a = add(&mut s, "g", vec![]);
    let b = add(&mut s, "g", vec![]);
    s.admit_task(a, 1).unwrap();
    s.admit_task(b, 2).unwrap();
    s.finish_task(b, TaskResult::Success, 3).unwrap();
    s.demote_running();
    assert!(matches!(s.tasks[0].status, TaskStatus::Queued));
    assert!(matches!(
        s.tasks[1].status,
        TaskStatus::Done(TaskResult::Success)
    ));
}

#[test]
fn group_creation_rules() {
    let mut s = State::new();
    assert_eq!(
        s.add_group(String::from("g"), 0).unwrap_err(),
        StateError::InvalidState
    );
    s.add_group(String::from("g"), 2).unwrap();
    assert_eq!(
        s.add_group(String::from("g"), 3).unwrap_err(),
        StateError::InvalidState
    );
    assert_eq!(
        s.add_group(String::from("default"), 1).unwrap_err(),
        StateError::InvalidState
    );
}

#[test]
fn stashed_task_is_ungated_by_start() {
    let mut s = State::new();
    let id = s
        .add_task(
            String::from("ls"),
            String::from("/tmp"),
            None,
            String::from("default"),
            vec![],
            0,
            true,
            Some(42),
        )
        .unwrap();
    assert!(matches!(
        s.tasks[0].status,
        TaskStatus::Stashed { enqueue_at: Some(42) }
    ));
    // a stashed task is not admissible
    assert_eq!(s.admit_task(id, 1).unwrap_err(), StateError::InvalidState);
    s.start_task(id).unwrap();
    assert!(matches!(s.tasks[0].status, TaskStatus::Queued));
    s.admit_task(id, 1).unwrap();
    assert!(matches!(s.tasks[0].status, TaskStatus::Running));
}

#[test]
fn failed_dependency_fails_the_dependent() {
    let mut s = State::new();
    let first = add(&mut s, "default", vec![]);
    s.admit_task(first, 1).unwrap();
    s.finish_task(first, TaskResult::Failed(1), 2).unwrap();
    let second = add(&mut s, "default", vec![first]);
    // the dependent never runs: it fails outright
    s.fail_dependent_task(second, 3).unwrap();
    assert!(matches!(
        s.tasks[1].status,
        TaskStatus::Done(TaskResult::DependencyFailed)
    ));
    assert_eq!(s.tasks[1].start, Some(3));
    assert_eq!(s.tasks[1].end, Some(3));
}

#[test]
fn unfailed_dependencies_do_not_fail_the_dependent() {
    let mut s = State::new();
    let first = add(&mut s, "default", vec![]);
    let second = add(&mut s, "default", vec![first]);
    // a dependency that has not finished is not a failed one
    assert_eq!(
        s.fail_dependent_task(second, 1).unwrap_err(),
        StateError::InvalidState
    );
    assert!(matches!(s.tasks[1].status, TaskStatus::Queued));
}

#[test]
fn due_stashed_tasks_are_promoted() {
    let mut s = State::new();
    let a = s
        .add_task(
            String::from("ls"),
            String::from("/tmp"),
            None,
            String::from("default"),
            vec![],
            0,
            true,
            Some(10),
        )
        .unwrap();
    let b = s
        .add_task(
            String::from("ls"),
            String::from("/tmp"),
            None,
            String::from("default"),
            vec![],
            0,
            true,
            Some(20),
        )
        .unwrap();
    let c = s
        .add_task(
            String::from("ls"),
            String::from("/tmp"),
            None,
            String::from("default"),
            vec![],
            0,
            true,
            None,
        )
        .unwrap();
    s.enqueue_due(15);
    assert!(matches!(s.tasks[a as usize].status, TaskStatus::Queued));
    assert!(matches!(
        s.tasks[b as usize].status,
        TaskStatus::Stashed { enqueue_at: Some(20) }
    ));
    // a stash without an enqueue time stays until an explicit start
    assert!(matches!(
        s.tasks[c as usize].status,
        TaskStatus::Stashed { enqueue_at: None }
    ));
}

#[test]
fn admission_never_starts_before_creation() {
    let mut s = State::new();
    let id = s
        .add_task(
            String::from("ls"),
            String::from("/tmp"),
            None,
            String::from("default"),
            vec![],
            10,
            false,
            None,
        )
        .unwrap();
    // a clock behind the creation time cannot produce start < created
    s.admit_task(id, 5).unwrap();
    assert_eq!(s.tasks[0].start, Some(10));
    s.finish_task(id, TaskResult::Success, 12).unwrap();
    assert_eq!(s.tasks[0].end, Some(12));
}

#[test]
fn admission_picks_smallest_ready_id() {
    let mut s = State::new();
    s.add_group(String::from("g"), 2).unwrap();
    let a = add(&mut s, "g", vec![]);
    let b = add(&mut s, "g", vec![]);
    let c = add(&mut s, "g", vec![]);
    // admission order within a group is strictly by ascending id
    assert_eq!(s.admit_next_task(&String::from("g"), 1).unwrap(), a);
    assert_eq!(s.admit_next_task(&String::from("g"), 1).unwrap(), b);
    // both slots are taken: the third task has to wait
    assert_eq!(
        s.admit_next_task(&String::from("g"), 1).unwrap_err(),
        StateError::InvalidState
    );
    s.finish_task(a, TaskResult::Success, 2).unwrap();
    assert_eq!(s.admit_next_task(&String::from("g"), 3).unwrap(), c);
    assert_eq!(
        s.admit_next_task(&String::from("missing"), 3).unwrap_err(),
        StateError::NotFound
    );
}
