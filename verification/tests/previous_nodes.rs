use turbo_tasks::{
    match_previous_node_by_key, match_previous_node_by_type, Slot, SlotRef, Task, TaskGraph,
    TaskLocals, TaskStateType, TurboTasks,
};

type Graph = TaskGraph<u32, u32>;

const FILE: u64 = 1;
const PATH: u64 = 2;

/// Runs one execution of the task, with `requests` in it.
fn execute(graph: &mut Graph, task: usize, requests: impl FnOnce(&mut TaskLocals, &mut Graph)) {
    let mut turbo_tasks = TurboTasks::new();
    let mut locals = TaskLocals::default();
    graph.tasks[task].state.state_type = TaskStateType::Scheduled;
    assert!(graph.execution_started(task, &mut turbo_tasks));
    graph.tasks[task].set_current(task, &mut locals);
    requests(&mut locals, graph);
    graph.tasks[task].execution_completed(task, &mut locals, &mut turbo_tasks);
    assert_eq!(graph.tasks[task].state.state_type, TaskStateType::Done);
}

fn graph() -> Graph {
    let mut graph: Graph = TaskGraph::new();
    graph.add_task(Task::new_root(1));
    graph.add_task(Task::new_root(2));
    graph
}

fn by_type(locals: &mut TaskLocals, graph: &mut Graph, type_id: u64) -> SlotRef {
    match_previous_node_by_type(locals, graph, type_id, |_: &mut Slot| {})
}

fn by_key(locals: &mut TaskLocals, graph: &mut Graph, key: u64) -> SlotRef {
    match_previous_node_by_key(locals, graph, key, |_: &mut Slot| {})
}

#[test]
fn requests_get_new_slots() {
    let mut graph = graph();
    execute(&mut graph, 1, |locals, graph| {
        assert_eq!(by_type(locals, graph, FILE), SlotRef::TaskCreated(1, 0));
        assert_eq!(by_type(locals, graph, FILE), SlotRef::TaskCreated(1, 1));
        assert_eq!(by_type(locals, graph, PATH), SlotRef::TaskCreated(1, 2));
        assert_eq!(by_key(locals, graph, 100), SlotRef::TaskCreated(1, 3));
    });
    assert_eq!(graph.tasks[1].state.created_slots.len(), 4);
    assert_eq!(graph.tasks[0].state.created_slots.len(), 0);
}

#[test]
fn repeated_execution_gets_the_same_slots() {
    let mut graph = graph();
    for _ in 0..3 {
        execute(&mut graph, 1, |locals, graph| {
            assert_eq!(by_key(locals, graph, 7), SlotRef::TaskCreated(1, 0));
            assert_eq!(by_type(locals, graph, FILE), SlotRef::TaskCreated(1, 1));
            assert_eq!(by_type(locals, graph, FILE), SlotRef::TaskCreated(1, 2));
        });
        assert_eq!(graph.tasks[1].state.created_slots.len(), 3);
    }
}

#[test]
fn key_keeps_its_slot_within_an_execution() {
    let mut graph = graph();
    execute(&mut graph, 1, |locals, graph| {
        assert_eq!(by_key(locals, graph, 7), SlotRef::TaskCreated(1, 0));
        assert_eq!(by_key(locals, graph, 8), SlotRef::TaskCreated(1, 1));
        assert_eq!(by_key(locals, graph, 7), SlotRef::TaskCreated(1, 0));
    });
}

#[test]
fn later_execution_can_ask_for_more() {
    let mut graph = graph();
    execute(&mut graph, 1, |locals, graph| {
        by_type(locals, graph, FILE);
        by_key(locals, graph, 7);
    });
    execute(&mut graph, 1, |locals, graph| {
        assert_eq!(by_type(locals, graph, FILE), SlotRef::TaskCreated(1, 0));
        assert_eq!(by_type(locals, graph, FILE), SlotRef::TaskCreated(1, 2));
    });
    // and the next one for less, in another order
    execute(&mut graph, 1, |locals, graph| {
        assert_eq!(by_key(locals, graph, 7), SlotRef::TaskCreated(1, 1));
        assert_eq!(by_type(locals, graph, FILE), SlotRef::TaskCreated(1, 0));
    });
    assert_eq!(graph.tasks[1].state.created_slots.len(), 3);
}

#[test]
fn requests_never_share_a_slot() {
    let mut graph = graph();
    execute(&mut graph, 0, |locals, graph| {
        let slots = vec![
            by_type(locals, graph, FILE),
            by_key(locals, graph, FILE),
            by_type(locals, graph, PATH),
            by_key(locals, graph, PATH),
            by_type(locals, graph, FILE),
        ];
        for i in 0..slots.len() {
            for j in 0..i {
                assert_ne!(slots[i], slots[j]);
            }
        }
    });
}

#[test]
fn functor_sees_and_changes_the_slot() {
    let mut graph = graph();
    for round in 0..2u64 {
        execute(&mut graph, 1, |locals, graph| {
            let expected = if round == 0 { None } else { Some(SlotRef::Value(40)) };
            match_previous_node_by_type(locals, graph, FILE, |slot: &mut Slot| {
                assert_eq!(slot.linked(), expected);
                slot.link(SlotRef::Value(40 + round));
            });
            match_previous_node_by_key(locals, graph, 3, |slot: &mut Slot| {
                slot.link(SlotRef::Value(50 + round));
            });
        });
        assert_eq!(graph.tasks[1].state.created_slots[0].linked(), Some(SlotRef::Value(40 + round)));
        assert_eq!(graph.tasks[1].state.created_slots[1].linked(), Some(SlotRef::Value(50 + round)));
    }
}

#[test]
fn execution_gives_back_what_it_took() {
    let mut graph = graph();
    let mut turbo_tasks = TurboTasks::new();
    let mut locals = TaskLocals::default();
    // the locals of another execution, with one slot of a type
    graph.tasks[0].set_current(0, &mut locals);
    by_type(&mut locals, &mut graph, FILE);
    assert!(graph.execution_started(1, &mut turbo_tasks));
    graph.tasks[1].set_current(1, &mut locals);
    assert_eq!(by_type(&mut locals, &mut graph, FILE), SlotRef::TaskCreated(1, 0));
    graph.tasks[1].execution_completed(1, &mut locals, &mut turbo_tasks);
    // the locals know the slot of the first task again
    locals.current_task = Some(0);
    assert_eq!(by_type(&mut locals, &mut graph, FILE), SlotRef::TaskCreated(0, 1));
    // and the second task knows its own
    graph.tasks[1].set_current(1, &mut locals);
    assert_eq!(by_type(&mut locals, &mut graph, FILE), SlotRef::TaskCreated(1, 0));
}

#[test]
fn slot_of_a_type_goes_by_number_whatever_is_asked_in_between() {
    let mut graph = graph();
    execute(&mut graph, 1, |locals, graph| {
        assert_eq!(by_type(locals, graph, FILE), SlotRef::TaskCreated(1, 0));
        assert_eq!(by_type(locals, graph, PATH), SlotRef::TaskCreated(1, 1));
        assert_eq!(by_type(locals, graph, FILE), SlotRef::TaskCreated(1, 2));
    });
    execute(&mut graph, 1, |locals, graph| {
        assert_eq!(by_key(locals, graph, 9), SlotRef::TaskCreated(1, 3));
        assert_eq!(by_type(locals, graph, PATH), SlotRef::TaskCreated(1, 1));
        assert_eq!(by_type(locals, graph, FILE), SlotRef::TaskCreated(1, 0));
        assert_eq!(by_key(locals, graph, 9), SlotRef::TaskCreated(1, 3));
        assert_eq!(by_type(locals, graph, FILE), SlotRef::TaskCreated(1, 2));
        assert_eq!(by_type(locals, graph, FILE), SlotRef::TaskCreated(1, 4));
    });
    // each of the five slots is got again
    execute(&mut graph, 1, |locals, graph| {
        let mut slots = vec![by_key(locals, graph, 9), by_type(locals, graph, PATH)];
        for _ in 0..3 {
            slots.push(by_type(locals, graph, FILE));
        }
        for index in 0..5 {
            assert!(slots.contains(&SlotRef::TaskCreated(1, index)));
        }
    });
    assert_eq!(graph.tasks[1].state.created_slots.len(), 5);
}
