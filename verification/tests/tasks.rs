use std::sync::Arc;
use std::time::Duration;
use turbo_tasks::{
    Job, NativeFunction, Slot, SlotRef, SlotValueType, Task, TaskArgumentOptions, TaskGraph,
    TaskLocals, TaskStateType, TaskType, TraitType, TurboTasks,
};

type Native = Task<u32, u32>;

fn function(name: &str) -> &'static NativeFunction {
    Box::leak(Box::new(NativeFunction { id: 7, name: name.to_string() }))
}

fn trait_type(name: &str) -> &'static TraitType {
    Box::leak(Box::new(TraitType { id: 8, name: name.to_string() }))
}

fn started() -> (Native, TurboTasks) {
    let mut turbo_tasks = TurboTasks::new();
    let mut task: Native = Task::new_root(1);
    assert!(task.execution_started(&mut turbo_tasks));
    (task, turbo_tasks)
}

fn schedules(turbo_tasks: &mut TurboTasks) -> Vec<usize> {
    turbo_tasks
        .take_jobs()
        .into_iter()
        .map(|job| match job {
            Job::Schedule(task) => task,
            other => panic!("unexpected job {:?}", other),
        })
        .collect()
}

#[test]
fn native_task_needs_a_bound_function() {
    let inputs = vec![SlotRef::Value(3)];
    let task: Native = Task::new_native::<String>(inputs.clone(), function("f"), Ok(5)).unwrap();
    assert_eq!(task.inputs, inputs);
    assert!(matches!(task.ty, TaskType::Native(f, 5) if f.name == "f"));
    assert!(!task.state.active);
    assert_eq!(task.state.state_type, TaskStateType::Dirty);
    assert_eq!(task.active_parents, 0);
    let failed: Result<Native, String> = Task::new_native(inputs, function("f"), Err("no".to_string()));
    assert_eq!(failed.err(), Some("no".to_string()));
}

#[test]
fn top_tasks_are_active_from_the_beginning() {
    let root: Native = Task::new_root(1);
    let once: Native = Task::new_once(2);
    for task in [&root, &once] {
        assert!(task.state.active);
        assert_eq!(task.state.state_type, TaskStateType::Scheduled);
        assert_eq!(task.active_parents, 1);
        assert_eq!(task.state.executions, 0);
        assert!(task.inputs.is_empty());
    }
}

#[test]
fn valid_execution_makes_the_task_done() {
    let (mut task, mut turbo_tasks) = started();
    let mut locals = TaskLocals::default();
    assert_eq!(task.state.output_slot.linked(), None);
    task.execution_result(SlotRef::Value(9));
    assert_eq!(task.state.output_slot.linked(), Some(SlotRef::Value(9)));
    task.execution_completed(4, &mut locals, &mut turbo_tasks);
    assert_eq!(task.state.state_type, TaskStateType::Done);
    assert!(turbo_tasks.take_jobs().is_empty());
}

#[test]
fn invalid_execution_is_repeated() {
    let (mut task, mut turbo_tasks) = started();
    let mut locals = TaskLocals::default();
    task.make_dirty(4, &mut turbo_tasks);
    assert_eq!(task.state.state_type, TaskStateType::InProgressDirty);
    task.execution_result(SlotRef::Value(9));
    assert_eq!(task.state.output_slot.linked(), None);
    task.execution_completed(4, &mut locals, &mut turbo_tasks);
    assert_eq!(task.state.state_type, TaskStateType::Scheduled);
    assert_eq!(schedules(&mut turbo_tasks), vec![4]);
}

#[test]
fn invalid_execution_of_an_inactive_task_makes_it_dirty() {
    let (mut task, mut turbo_tasks) = started();
    let mut locals = TaskLocals::default();
    task.make_dirty(4, &mut turbo_tasks);
    task.state.active = false;
    task.execution_completed(4, &mut locals, &mut turbo_tasks);
    assert_eq!(task.state.state_type, TaskStateType::Dirty);
    assert!(turbo_tasks.take_jobs().is_empty());
}

#[test]
fn dependency_of_an_invalid_execution_is_cleared_when_the_task_becomes_dirty() {
    let (mut task, mut turbo_tasks) = started();
    let mut locals = TaskLocals::default();
    let handle = Arc::new((5usize, 0usize));
    task.make_dirty(4, &mut turbo_tasks);
    task.add_dependency(handle.clone());
    task.state.active = false;
    let slots = task.execution_completed(4, &mut locals, &mut turbo_tasks);
    assert_eq!(task.state.state_type, TaskStateType::Dirty);
    assert_eq!(slots, vec![SlotRef::TaskOutput(5)]);
    assert!(task.clear_dependencies().is_empty());
}

#[test]
fn dependency_stays_when_the_task_is_done_or_scheduled() {
    for invalid in [false, true] {
        let (mut task, mut turbo_tasks) = started();
        let mut locals = TaskLocals::default();
        let handle = Arc::new((5usize, 2usize));
        if invalid {
            task.make_dirty(4, &mut turbo_tasks);
        }
        task.add_dependency(handle.clone());
        assert!(task.execution_completed(4, &mut locals, &mut turbo_tasks).is_empty());
        assert_eq!(task.clear_dependencies(), vec![SlotRef::TaskCreated(5, 1)]);
    }
}

#[test]
fn invalidation_moves_each_state_on() {
    let cases = [
        (TaskStateType::Done, true, TaskStateType::Scheduled, vec![3]),
        (TaskStateType::Done, false, TaskStateType::Dirty, vec![]),
        (TaskStateType::Dirty, false, TaskStateType::Dirty, vec![]),
        (TaskStateType::Scheduled, true, TaskStateType::Scheduled, vec![]),
        (TaskStateType::InProgress, true, TaskStateType::InProgressDirty, vec![]),
        (TaskStateType::InProgress, false, TaskStateType::InProgressDirty, vec![]),
        (TaskStateType::InProgressDirty, true, TaskStateType::InProgressDirty, vec![]),
    ];
    for (state_type, active, expected, jobs) in cases {
        let mut turbo_tasks = TurboTasks::new();
        let mut task: Native = Task::new_root(1);
        task.state.state_type = state_type;
        task.state.active = active;
        task.dependent_slot_updated(3, &mut turbo_tasks);
        assert_eq!(task.state.state_type, expected);
        assert_eq!(schedules(&mut turbo_tasks), jobs);
    }
}

#[test]
fn second_invalidation_changes_nothing() {
    let mut turbo_tasks = TurboTasks::new();
    let mut task: Native = Task::new_root(1);
    task.state.state_type = TaskStateType::Done;
    task.make_dirty(3, &mut turbo_tasks);
    task.make_dirty(3, &mut turbo_tasks);
    assert_eq!(task.state.state_type, TaskStateType::Scheduled);
    assert_eq!(schedules(&mut turbo_tasks), vec![3]);
}

#[test]
fn invalidation_clears_the_dependencies() {
    let mut turbo_tasks = TurboTasks::new();
    let mut task: Native = Task::new_root(1);
    let handle = Arc::new((5usize, 0usize));
    let other = Arc::new((6usize, 3usize));
    task.add_dependency(handle.clone());
    task.add_dependency(other.clone());
    let slots = task.make_dirty(3, &mut turbo_tasks);
    assert_eq!(slots.len(), 2);
    assert!(slots.contains(&SlotRef::TaskOutput(5)));
    assert!(slots.contains(&SlotRef::TaskCreated(6, 2)));
    assert!(task.clear_dependencies().is_empty());
}

#[test]
fn handles_name_their_slots() {
    assert_eq!(SlotRef::from_handle(&Arc::new((4, 0))), SlotRef::TaskOutput(4));
    assert_eq!(SlotRef::from_handle(&Arc::new((4, 1))), SlotRef::TaskCreated(4, 0));
    assert_eq!(
        turbo_tasks::task::slots_of(&vec![Arc::new((1, 0)), Arc::new((2, 9))]),
        vec![SlotRef::TaskOutput(1), SlotRef::TaskCreated(2, 8)]
    );
}

#[test]
fn slot_gives_the_same_handle_again() {
    let mut slot = Slot::new();
    let handle = slot.handle((1, 2));
    assert_eq!(*handle, (1, 2));
    assert!(Arc::ptr_eq(&handle, &slot.handle((1, 2))));
    assert_eq!(*slot.handle((3, 4)), (3, 4));
}

#[test]
fn waiting_ends_when_the_task_is_done() {
    let (mut task, mut turbo_tasks) = started();
    let mut locals = TaskLocals::default();
    let listener = task.wait_done().expect("the task is not done");
    task.execution_completed(0, &mut locals, &mut turbo_tasks);
    assert!(listener.wait_timeout(Duration::from_secs(5)));
    assert!(task.wait_done().is_none());
}

#[test]
fn invalid_execution_wakes_nobody() {
    let (mut task, mut turbo_tasks) = started();
    let mut locals = TaskLocals::default();
    let listener = task.wait_done().expect("the task is not done");
    task.make_dirty(0, &mut turbo_tasks);
    task.execution_completed(0, &mut locals, &mut turbo_tasks);
    assert!(!listener.wait_timeout(Duration::from_millis(20)));
    assert!(task.wait_done().is_some());
}

#[test]
fn output_is_read_when_the_task_is_done() {
    let (mut task, mut turbo_tasks) = started();
    let mut locals = TaskLocals::default();
    task.execution_result(SlotRef::Value(2));
    let (read, listener) = match task.get_or_wait(|slot: &mut Slot| slot.linked()) {
        Ok(_) => panic!("the task is not done"),
        Err(back) => back,
    };
    task.execution_completed(0, &mut locals, &mut turbo_tasks);
    assert!(listener.wait_timeout(Duration::from_secs(5)));
    match task.get_or_wait(read) {
        Ok(linked) => assert_eq!(linked, Some(SlotRef::Value(2))),
        Err(_) => panic!("the task is done"),
    }
}

#[test]
fn slots_are_handed_to_functions() {
    let mut task: Native = Task::new_root(1);
    task.with_output_slot_mut(|slot: &mut Slot| slot.link(SlotRef::Value(1)));
    assert_eq!(task.with_output_slot(|slot: &Slot| slot.linked()), Some(SlotRef::Value(1)));
    task.state.created_slots.push(Slot::new());
    task.state.created_slots.push(Slot::new());
    task.with_created_slot(1, |slot: &mut Slot| slot.link(SlotRef::TaskOutput(6)));
    assert_eq!(task.state.created_slots[0].linked(), None);
    assert_eq!(task.state.created_slots[1].linked(), Some(SlotRef::TaskOutput(6)));
}

#[test]
fn executions_are_reset_to_one() {
    let mut task: Native = Task::new_root(1);
    for (executions, expected) in [(0, 0), (1, 1), (2, 1), (77, 1)] {
        task.state.executions = executions;
        task.reset_executions();
        assert_eq!(task.state.executions, expected);
        task.reset_executions();
        assert_eq!(task.state.executions, expected);
    }
}

#[test]
fn current_task_is_the_one_that_was_set() {
    let mut locals = TaskLocals::default();
    assert_eq!(Native::current(&locals), None);
    let mut task: Native = Task::new_root(1);
    task.set_current(12, &mut locals);
    assert_eq!(Native::current(&locals), Some(12));
    let seen = Native::with_current(&mut locals, |task: usize, locals: &TaskLocals| {
        (task, Native::current(locals))
    });
    assert_eq!(seen, (12, None));
    assert_eq!(Native::current(&locals), Some(12));
}

#[test]
fn invalidator_makes_its_task_invalid() {
    let mut graph: TaskGraph<u32, u32> = TaskGraph::new();
    let mut turbo_tasks = TurboTasks::new();
    let mut locals = TaskLocals::default();
    graph.add_task(Task::new_root(1));
    let root = graph.add_task(Task::new_root(2));
    graph.execution_started(root, &mut turbo_tasks);
    graph.tasks[root].set_current(root, &mut locals);
    let invalidator = Native::get_invalidator(&locals);
    let late = Native::get_invalidator(&locals);
    graph.tasks[root].execution_completed(root, &mut locals, &mut turbo_tasks);
    assert!(invalidator.invalidate(&mut graph, &mut turbo_tasks).is_empty());
    assert_eq!(graph.tasks[root].state.state_type, TaskStateType::Scheduled);
    assert_eq!(graph.tasks[0].state.state_type, TaskStateType::Scheduled);
    assert_eq!(schedules(&mut turbo_tasks), vec![root]);
    // a task that does not exist
    let mut empty: TaskGraph<u32, u32> = TaskGraph::new();
    assert!(late.invalidate(&mut empty, &mut turbo_tasks).is_empty());
    assert!(turbo_tasks.take_jobs().is_empty());
}

#[test]
fn invalidator_from_outside_of_an_execution_does_nothing() {
    let mut graph: TaskGraph<u32, u32> = TaskGraph::new();
    let mut turbo_tasks = TurboTasks::new();
    let root = graph.add_task(Task::new_root(1));
    graph.tasks[root].state.state_type = TaskStateType::Done;
    let invalidator = Native::get_invalidator(&TaskLocals::default());
    assert!(invalidator.invalidate(&mut graph, &mut turbo_tasks).is_empty());
    assert_eq!(graph.tasks[root].state.state_type, TaskStateType::Done);
    assert!(turbo_tasks.take_jobs().is_empty());
}

#[test]
fn snapshot_shows_the_task() {
    let mut graph: TaskGraph<u32, u32> = TaskGraph::new();
    let mut turbo_tasks = TurboTasks::new();
    let inputs = vec![
        SlotRef::Value(1),
        SlotRef::TaskOutput(0),
        SlotRef::Value(2),
        SlotRef::TaskCreated(0, 3),
    ];
    graph.add_task(Task::new_root(1));
    let task = graph.add_task(Task::new_resolve_trait(trait_type("Asset"), "path".to_string(), inputs));
    let child = graph.add_task(Task::new_resolve_native(Vec::new(), function("f")));
    graph.connect_parent(child, task, &mut turbo_tasks);
    graph.tasks[task].state.created_slots.push(Slot::new());
    graph.tasks[task].state.created_slots.push(Slot::new());
    graph.tasks[task].state.executions = 5;
    let snapshot = graph.tasks[task].get_snapshot_for_visualization(task);
    assert_eq!(snapshot.inputs, vec![SlotRef::TaskOutput(0), SlotRef::TaskCreated(0, 3)]);
    assert_eq!(snapshot.children, vec![child]);
    assert!(snapshot.dependencies.is_empty());
    assert_eq!(snapshot.name, "[resolve trait] path in trait Asset");
    assert_eq!(snapshot.state, "dirty (inactive)");
    assert_eq!(snapshot.output_slot, SlotRef::TaskOutput(task));
    assert_eq!(
        snapshot.slots,
        vec![
            SlotRef::TaskCreated(task, 0),
            SlotRef::TaskCreated(task, 1),
            SlotRef::TaskOutput(task)
        ]
    );
    assert_eq!(snapshot.executions, 5);
}

#[test]
fn snapshot_shows_each_dependency_once() {
    let mut task: Native = Task::new_root(1);
    let handles = vec![Arc::new((5usize, 0usize)), Arc::new((6, 3)), Arc::new((5, 0))];
    for handle in &handles {
        task.add_dependency(handle.clone());
    }
    let mut dependencies = task.get_snapshot_for_visualization(0).dependencies;
    assert_eq!(dependencies.len(), 2);
    dependencies.sort_by_key(|slot| format!("{:?}", slot));
    assert_eq!(dependencies, vec![SlotRef::TaskCreated(6, 2), SlotRef::TaskOutput(5)]);
    // a handle that nobody holds any more
    drop(handles);
    assert!(task.get_snapshot_for_visualization(0).dependencies.is_empty());
}

#[test]
fn argument_options_carry_their_types() {
    let value_type: &'static SlotValueType =
        Box::leak(Box::new(SlotValueType { id: 1, name: "File".to_string() }));
    let options = [
        TaskArgumentOptions::Unresolved,
        TaskArgumentOptions::Slot,
        TaskArgumentOptions::Resolved(value_type),
        TaskArgumentOptions::Trait(trait_type("Asset")),
    ];
    assert!(matches!(options[2], TaskArgumentOptions::Resolved(ty) if ty.name == "File"));
    assert!(matches!(options[3], TaskArgumentOptions::Trait(ty) if ty.name == "Asset"));
}
