# turbo_tasks

The core of an incremental task engine, written in Verus. A task is executed, starts other
tasks, creates slots and depends on slots; when one of these changes it becomes invalid
and is executed again, as long as something active needs it.

- `src/task.rs`, `src/state.rs`: a task, its states, and what happens to one task.
- `src/graph.rs`, `src/links.rs`: the tasks with their parents and children; activation,
  deactivation and removal, and what these mean.
- `src/laws.rs`: what holds of all tasks and of the jobs that are yet to run together.
- `src/context.rs`, `src/previous_nodes.rs`, `src/locals.rs`: what a running execution does
  to its own task; slots that are found again in the next execution.
- `src/execute.rs`: what is to be done to execute a task.
- `src/slot.rs`, `src/turbo_tasks.rs`, `src/text.rs`: slots, jobs for the runtime, texts.
- `src/events.rs`, `src/dependencies.rs`: the outside crates `event-listener` and
  `weak-table`, with what is believed of them.
- `app/`: locks, futures, task locals and printing around the library.
- `tests/`: the library at work.
