use std::collections::HashSet;
use turbo_tasks::{Job, NativeFunction, SlotRef, Task, TaskGraph, TaskId, TaskStateType, TurboTasks};

type Graph = TaskGraph<u32, u32>;

fn function(name: &str) -> &'static NativeFunction {
    Box::leak(Box::new(NativeFunction { id: 0, name: name.to_string() }))
}

fn add(graph: &mut Graph, name: &str) -> TaskId {
    graph.add_task(Task::new_resolve_native(Vec::new(), function(name)))
}

/// A root, and below it a chain of `n` tasks.
fn chain(n: usize) -> (Graph, TurboTasks) {
    let mut graph: Graph = TaskGraph::new();
    let mut turbo_tasks = TurboTasks::new();
    graph.add_task(Task::new_root(1));
    for i in 0..n {
        let task = add(&mut graph, "task");
        graph.connect_parent(task, i, &mut turbo_tasks);
    }
    (graph, turbo_tasks)
}

fn scheduled(jobs: Vec<Job>) -> Vec<TaskId> {
    jobs.into_iter()
        .map(|job| match job {
            Job::Schedule(task) => task,
            other => panic!("unexpected job {:?}", other),
        })
        .collect()
}

fn active(graph: &Graph) -> Vec<bool> {
    graph.tasks.iter().map(|task| task.state.active).collect()
}

fn counts(graph: &Graph) -> Vec<u32> {
    graph.tasks.iter().map(|task| task.active_parents).collect()
}

#[test]
fn new_tasks_are_numbered_in_order() {
    let mut graph: Graph = TaskGraph::new();
    assert_eq!(graph.add_task(Task::new_root(1)), 0);
    assert_eq!(add(&mut graph, "a"), 1);
    assert_eq!(graph.add_task(Task::new_once(2)), 2);
    assert_eq!(active(&graph), vec![true, false, true]);
    assert_eq!(counts(&graph), vec![1, 0, 1]);
}

#[test]
fn child_of_active_task_is_activated_and_scheduled() {
    let (graph, mut turbo_tasks) = chain(1);
    assert_eq!(active(&graph), vec![true, true]);
    assert_eq!(counts(&graph), vec![1, 1]);
    assert_eq!(graph.tasks[1].state.state_type, TaskStateType::Scheduled);
    assert_eq!(scheduled(turbo_tasks.take_jobs()), vec![1]);
    assert!(turbo_tasks.take_jobs().is_empty());
}

#[test]
fn child_of_inactive_task_waits() {
    let mut graph: Graph = TaskGraph::new();
    let mut turbo_tasks = TurboTasks::new();
    let a = add(&mut graph, "a");
    let b = add(&mut graph, "b");
    graph.connect_parent(b, a, &mut turbo_tasks);
    assert!(graph.tasks[a].state.children.contains(&b));
    assert_eq!(counts(&graph), vec![0, 0]);
    assert_eq!(graph.tasks[b].state.state_type, TaskStateType::Dirty);
    assert!(turbo_tasks.take_jobs().is_empty());
}

#[test]
fn second_connection_changes_nothing() {
    let (mut graph, mut turbo_tasks) = chain(1);
    turbo_tasks.take_jobs();
    graph.connect_parent(1, 0, &mut turbo_tasks);
    assert_eq!(counts(&graph), vec![1, 1]);
    assert_eq!(graph.tasks[0].state.children.len(), 1);
    assert!(turbo_tasks.take_jobs().is_empty());
}

#[test]
fn activation_goes_down_through_inactive_tasks() {
    let mut graph: Graph = TaskGraph::new();
    let mut turbo_tasks = TurboTasks::new();
    let root = graph.add_task(Task::new_root(1));
    let a = add(&mut graph, "a");
    let b = add(&mut graph, "b");
    let c = add(&mut graph, "c");
    // a -> b, a -> c, b -> c, and a task on a cycle
    graph.connect_parent(b, a, &mut turbo_tasks);
    graph.connect_parent(c, a, &mut turbo_tasks);
    graph.connect_parent(c, b, &mut turbo_tasks);
    graph.connect_parent(a, c, &mut turbo_tasks);
    graph.connect_parent(a, root, &mut turbo_tasks);
    assert_eq!(active(&graph), vec![true, true, true, true]);
    assert_eq!(counts(&graph), vec![1, 2, 1, 2]);
    let ids = scheduled(turbo_tasks.take_jobs());
    assert_eq!(*ids.last().unwrap(), a);
    assert_eq!(ids.iter().cloned().collect::<HashSet<_>>(), HashSet::from([a, b, c]));
    assert_eq!(ids.len(), 3);
}

#[test]
fn activation_does_not_schedule_what_is_done() {
    let (mut graph, mut turbo_tasks) = chain(1);
    turbo_tasks.take_jobs();
    graph.remove_tasks(HashSet::new(), &mut turbo_tasks);
    graph.tasks[1].state.state_type = TaskStateType::Done;
    // the root lets go of its child, and takes it again
    assert!(graph.execution_started(0, &mut turbo_tasks));
    for job in turbo_tasks.take_jobs() {
        match job {
            Job::RemoveTasks(tasks) => graph.remove_tasks(tasks, &mut turbo_tasks),
            other => panic!("unexpected job {:?}", other),
        }
    }
    assert_eq!(active(&graph), vec![true, false]);
    graph.connect_parent(1, 0, &mut turbo_tasks);
    assert_eq!(active(&graph), vec![true, true]);
    assert_eq!(graph.tasks[1].state.state_type, TaskStateType::Done);
    assert!(turbo_tasks.take_jobs().is_empty());
}

#[test]
fn start_gives_the_children_away() {
    let (mut graph, mut turbo_tasks) = chain(1);
    turbo_tasks.take_jobs();
    assert!(graph.execution_started(0, &mut turbo_tasks));
    assert_eq!(graph.tasks[0].state.state_type, TaskStateType::InProgress);
    assert_eq!(graph.tasks[0].state.executions, 1);
    assert!(graph.tasks[0].state.children.is_empty());
    let jobs = turbo_tasks.take_jobs();
    assert_eq!(jobs.len(), 1);
    match &jobs[0] {
        Job::RemoveTasks(tasks) => assert_eq!(tasks, &HashSet::from([1])),
        other => panic!("unexpected job {:?}", other),
    }
    // the child still counts its parent, until it is removed
    assert_eq!(counts(&graph), vec![1, 1]);
    assert_eq!(active(&graph), vec![true, true]);
}

#[test]
fn task_in_progress_does_not_start_again() {
    let (mut graph, mut turbo_tasks) = chain(0);
    assert!(graph.execution_started(0, &mut turbo_tasks));
    assert!(!graph.execution_started(0, &mut turbo_tasks));
    assert_eq!(graph.tasks[0].state.executions, 1);
    assert!(turbo_tasks.take_jobs().is_empty());
}

#[test]
fn inactive_task_does_not_start() {
    let mut graph: Graph = TaskGraph::new();
    let mut turbo_tasks = TurboTasks::new();
    let a = add(&mut graph, "a");
    assert!(!graph.execution_started(a, &mut turbo_tasks));
    assert_eq!(graph.tasks[a].state.executions, 0);
}

#[test]
fn removed_task_with_another_parent_stays_active() {
    let (mut graph, mut turbo_tasks) = chain(2);
    graph.connect_parent(2, 0, &mut turbo_tasks);
    assert_eq!(counts(&graph), vec![1, 1, 2]);
    turbo_tasks.take_jobs();
    assert!(graph.execution_started(1, &mut turbo_tasks));
    for job in turbo_tasks.take_jobs() {
        if let Job::RemoveTasks(tasks) = job {
            graph.remove_tasks(tasks, &mut turbo_tasks);
        }
    }
    assert_eq!(counts(&graph), vec![1, 1, 1]);
    assert_eq!(active(&graph), vec![true, true, true]);
}

#[test]
fn removal_stops_four_levels_and_hands_on_the_rest() {
    // 0 is the root, 1..=6 a chain below it
    let (mut graph, mut turbo_tasks) = chain(6);
    turbo_tasks.take_jobs();
    assert!(graph.execution_started(0, &mut turbo_tasks));
    for job in turbo_tasks.take_jobs() {
        if let Job::RemoveTasks(tasks) = job {
            graph.remove_tasks(tasks, &mut turbo_tasks);
        }
    }
    assert_eq!(active(&graph), vec![true, false, false, false, false, true, true]);
    assert_eq!(counts(&graph), vec![1, 0, 0, 0, 0, 0, 1]);
    let jobs = turbo_tasks.take_jobs();
    assert_eq!(jobs.len(), 1);
    for job in jobs {
        match job {
            Job::DeactivateTasks(tasks) => {
                assert_eq!(tasks, vec![5]);
                graph.deactivate_tasks(tasks, &mut turbo_tasks);
            }
            other => panic!("unexpected job {:?}", other),
        }
    }
    assert_eq!(active(&graph), vec![true, false, false, false, false, false, false]);
    assert_eq!(counts(&graph), vec![1, 0, 0, 0, 0, 0, 0]);
    assert!(turbo_tasks.take_jobs().is_empty());
}

#[test]
fn deepest_stopped_task_hands_on_an_empty_list() {
    let (mut graph, mut turbo_tasks) = chain(4);
    turbo_tasks.take_jobs();
    assert!(graph.execution_started(0, &mut turbo_tasks));
    for job in turbo_tasks.take_jobs() {
        if let Job::RemoveTasks(tasks) = job {
            graph.remove_tasks(tasks, &mut turbo_tasks);
        }
    }
    assert_eq!(active(&graph), vec![true, false, false, false, false]);
    let jobs = turbo_tasks.take_jobs();
    assert_eq!(jobs.len(), 1);
    match &jobs[0] {
        Job::DeactivateTasks(tasks) => assert!(tasks.is_empty()),
        other => panic!("unexpected job {:?}", other),
    }
}

#[test]
fn deactivation_spares_a_task_that_got_a_parent_meanwhile() {
    let (mut graph, mut turbo_tasks) = chain(6);
    turbo_tasks.take_jobs();
    assert!(graph.execution_started(0, &mut turbo_tasks));
    for job in turbo_tasks.take_jobs() {
        if let Job::RemoveTasks(tasks) = job {
            graph.remove_tasks(tasks, &mut turbo_tasks);
        }
    }
    graph.connect_parent(5, 0, &mut turbo_tasks);
    for job in turbo_tasks.take_jobs() {
        if let Job::DeactivateTasks(tasks) = job {
            graph.deactivate_tasks(tasks, &mut turbo_tasks);
        }
    }
    assert_eq!(active(&graph), vec![true, false, false, false, false, true, true]);
    assert_eq!(counts(&graph), vec![1, 0, 0, 0, 0, 1, 1]);
}

#[test]
fn accounts_balance_when_all_jobs_have_run() {
    // 0 -> 1 -> 2, 0 -> 2, 2 -> 3; the root starts again and takes only 3
    let (mut graph, mut turbo_tasks) = chain(3);
    graph.connect_parent(2, 0, &mut turbo_tasks);
    turbo_tasks.take_jobs();
    assert!(graph.execution_started(0, &mut turbo_tasks));
    graph.connect_parent(3, 0, &mut turbo_tasks);
    loop {
        let jobs = turbo_tasks.take_jobs();
        if jobs.is_empty() {
            break;
        }
        for job in jobs {
            match job {
                Job::Schedule(_) => {}
                Job::RemoveTasks(tasks) => graph.remove_tasks(tasks, &mut turbo_tasks),
                Job::DeactivateTasks(tasks) => graph.deactivate_tasks(tasks, &mut turbo_tasks),
            }
        }
    }
    // active exactly where active forever or child of an active task
    assert_eq!(active(&graph), vec![true, false, false, true]);
    assert_eq!(counts(&graph), vec![1, 0, 0, 1]);
}

#[test]
fn roots_stay_active() {
    let (mut graph, mut turbo_tasks) = chain(1);
    graph.deactivate_tasks(vec![0, 1, 0], &mut turbo_tasks);
    assert_eq!(active(&graph), vec![true, true]);
}

#[test]
fn whatever_is_below_an_active_task_is_active() {
    let (graph, _) = chain(9);
    assert!(graph.tasks.iter().all(|task| task.state.active));
}

#[test]
fn each_scheduled_task_has_one_execution() {
    let (mut graph, mut turbo_tasks) = chain(2);
    assert_eq!(scheduled(turbo_tasks.take_jobs()), vec![1, 2]);
    graph.tasks[1].make_dirty(1, &mut turbo_tasks);
    assert!(turbo_tasks.take_jobs().is_empty());
    assert!(graph.execution_started(1, &mut turbo_tasks));
    let jobs = turbo_tasks.take_jobs();
    assert_eq!(jobs.len(), 1);
    assert!(matches!(&jobs[0], Job::RemoveTasks(_)));
}

#[test]
fn dependency_is_recorded_while_its_slot_exists() {
    let (mut graph, mut turbo_tasks) = chain(1);
    turbo_tasks.take_jobs();
    graph.add_dependency(1, SlotRef::TaskOutput(0));
    let snapshot = graph.tasks[1].get_snapshot_for_visualization(1);
    assert_eq!(snapshot.dependencies, vec![SlotRef::TaskOutput(0)]);
    // the same slot once more
    graph.add_dependency(1, SlotRef::TaskOutput(0));
    let slots = graph.tasks[1].clear_dependencies();
    assert_eq!(slots, vec![SlotRef::TaskOutput(0)]);
    assert!(graph.tasks[1].clear_dependencies().is_empty());
}

#[test]
fn dependency_on_a_created_slot_names_the_slot() {
    let (mut graph, mut turbo_tasks) = chain(1);
    turbo_tasks.take_jobs();
    graph.tasks[0].state.created_slots.push(turbo_tasks::Slot::new());
    graph.tasks[0].state.created_slots.push(turbo_tasks::Slot::new());
    graph.add_dependency(1, SlotRef::TaskCreated(0, 1));
    graph.add_dependency(1, SlotRef::TaskOutput(1));
    let slots: HashSet<SlotRef> = graph.tasks[1].clear_dependencies().into_iter().collect();
    assert_eq!(slots, HashSet::from([SlotRef::TaskCreated(0, 1), SlotRef::TaskOutput(1)]));
}

#[test]
fn dependency_on_a_slot_that_is_gone_drops_out() {
    let (mut graph, mut turbo_tasks) = chain(1);
    turbo_tasks.take_jobs();
    graph.tasks[0].state.created_slots.push(turbo_tasks::Slot::new());
    graph.add_dependency(1, SlotRef::TaskCreated(0, 0));
    graph.tasks[0].state.created_slots.pop();
    assert!(graph.tasks[1].clear_dependencies().is_empty());
}

#[test]
fn task_stopped_while_scheduled_stays_scheduled() {
    let (mut graph, mut turbo_tasks) = chain(1);
    assert_eq!(scheduled(turbo_tasks.take_jobs()), vec![1]);
    assert!(graph.execution_started(0, &mut turbo_tasks));
    for job in turbo_tasks.take_jobs() {
        if let Job::RemoveTasks(tasks) = job {
            graph.remove_tasks(tasks, &mut turbo_tasks);
        }
    }
    // its execution finds the task inactive
    assert!(!graph.execution_started(1, &mut turbo_tasks));
    assert_eq!(graph.tasks[1].state.state_type, TaskStateType::Scheduled);
    graph.connect_parent(1, 0, &mut turbo_tasks);
    assert_eq!(active(&graph), vec![true, true]);
    assert_eq!(graph.tasks[1].state.state_type, TaskStateType::Scheduled);
    assert!(turbo_tasks.take_jobs().is_empty());
}

/// Two tasks that are each other's children, below a root that lets go of the first.
fn cycle() -> (Graph, TurboTasks) {
    let (mut graph, mut turbo_tasks) = chain(2);
    graph.connect_parent(1, 2, &mut turbo_tasks);
    turbo_tasks.take_jobs();
    assert_eq!(counts(&graph), vec![1, 2, 1]);
    assert!(graph.execution_started(0, &mut turbo_tasks));
    for job in turbo_tasks.take_jobs() {
        if let Job::RemoveTasks(tasks) = job {
            graph.remove_tasks(tasks, &mut turbo_tasks);
        }
    }
    (graph, turbo_tasks)
}

#[test]
fn removal_leaves_tasks_on_a_cycle_active() {
    let (graph, mut turbo_tasks) = cycle();
    assert_eq!(counts(&graph), vec![1, 1, 1]);
    assert_eq!(active(&graph), vec![true, true, true]);
    assert!(turbo_tasks.take_jobs().is_empty());
}

#[test]
fn deactivation_leaves_tasks_on_a_cycle_active() {
    let (mut graph, mut turbo_tasks) = cycle();
    graph.deactivate_tasks(vec![1, 2], &mut turbo_tasks);
    assert_eq!(counts(&graph), vec![1, 1, 1]);
    assert_eq!(active(&graph), vec![true, true, true]);
    assert!(turbo_tasks.take_jobs().is_empty());
}

#[test]
fn removal_undoes_activation() {
    // a lattice below 1, with a chain of six at its end
    let mut graph: Graph = TaskGraph::new();
    let mut turbo_tasks = TurboTasks::new();
    graph.add_task(Task::new_root(1));
    for _ in 1..=10 {
        add(&mut graph, "task");
    }
    for (parent, child) in [(1, 2), (1, 3), (2, 4), (3, 4), (1, 4)] {
        graph.connect_parent(child, parent, &mut turbo_tasks);
    }
    for task in 4..10 {
        graph.connect_parent(task + 1, task, &mut turbo_tasks);
    }
    let before = (active(&graph), counts(&graph));
    graph.connect_parent(1, 0, &mut turbo_tasks);
    assert_eq!(active(&graph), vec![true; 11]);
    assert_eq!(counts(&graph), vec![1, 1, 1, 1, 3, 1, 1, 1, 1, 1, 1]);
    assert_eq!(scheduled(turbo_tasks.take_jobs()).len(), 10);
    assert!(graph.execution_started(0, &mut turbo_tasks));
    loop {
        let jobs = turbo_tasks.take_jobs();
        if jobs.is_empty() {
            break;
        }
        for job in jobs {
            match job {
                Job::RemoveTasks(tasks) => graph.remove_tasks(tasks, &mut turbo_tasks),
                Job::DeactivateTasks(tasks) => graph.deactivate_tasks(tasks, &mut turbo_tasks),
                Job::Schedule(task) => panic!("unexpected execution of {}", task),
            }
        }
    }
    assert_eq!((active(&graph), counts(&graph)), before);
    for task in 1..=10 {
        assert_eq!(graph.tasks[task].state.state_type, TaskStateType::Scheduled);
    }
}

#[test]
fn value_is_no_dependency() {
    let (mut graph, _) = chain(1);
    graph.add_dependency(1, SlotRef::Value(3));
    assert!(graph.tasks[1].clear_dependencies().is_empty());
}

#[test]
fn each_deep_task_hands_on_its_own_children() {
    // 0 is the root, 1 -> 2 -> 3, and below 3 two deep tasks with two children each
    let (mut graph, mut turbo_tasks) = chain(3);
    for _ in 4..=9 {
        add(&mut graph, "task");
    }
    for (parent, child) in [(3, 4), (3, 5), (4, 6), (4, 7), (5, 8), (5, 9)] {
        graph.connect_parent(child, parent, &mut turbo_tasks);
    }
    turbo_tasks.take_jobs();
    assert!(graph.execution_started(0, &mut turbo_tasks));
    for job in turbo_tasks.take_jobs() {
        if let Job::RemoveTasks(tasks) = job {
            graph.remove_tasks(tasks, &mut turbo_tasks);
        }
    }
    let mut lists: Vec<Vec<TaskId>> = turbo_tasks
        .take_jobs()
        .into_iter()
        .map(|job| match job {
            Job::DeactivateTasks(mut tasks) => {
                tasks.sort();
                tasks
            }
            other => panic!("unexpected job {:?}", other),
        })
        .collect();
    lists.sort();
    assert_eq!(lists, vec![vec![6, 7], vec![8, 9]]);
}

#[test]
fn activation_and_deactivation_of_one_task() {
    let mut graph: Graph = TaskGraph::new();
    let mut turbo_tasks = TurboTasks::new();
    let a = add(&mut graph, "a");
    let b = add(&mut graph, "b");
    graph.connect_parent(b, a, &mut turbo_tasks);
    // without an active parent nothing happens
    assert_eq!(graph.activate(a, &mut turbo_tasks), 0);
    assert_eq!(graph.deactivate(a, 1, &mut turbo_tasks), 0);
    graph.tasks[a].active_parents += 1;
    assert_eq!(graph.activate(a, &mut turbo_tasks), 2);
    assert_eq!(graph.activate(a, &mut turbo_tasks), 0);
    assert_eq!(graph.deactivate(a, 1, &mut turbo_tasks), 0);
    graph.tasks[a].active_parents -= 1;
    assert_eq!(graph.deactivate(a, 1, &mut turbo_tasks), 2);
    assert_eq!(active(&graph), vec![false, false]);
    assert_eq!(counts(&graph), vec![0, 0]);
    assert_eq!(scheduled(turbo_tasks.take_jobs()), vec![b, a]);
}
