//! The core of an incremental task engine: tasks, the graph that says which task
//! was started by which, and the rules by which tasks are activated, scheduled,
//! executed, invalidated and shut down.
pub mod context;
pub mod dependencies;
pub mod events;
pub mod execute;
pub mod graph;
pub mod laws;
pub mod links;
pub mod locals;
pub mod previous_nodes;
pub mod slot;
pub mod state;
pub mod task;
pub mod text;
pub mod turbo_tasks;

pub use context::{match_previous_node_by_key, match_previous_node_by_type, Invalidator};
pub use execute::{Execution, NativeResolution, TraitResolution};
pub use graph::TaskGraph;
pub use locals::TaskLocals;
pub use slot::{NativeFunction, Slot, SlotHandle, SlotRef, SlotValueType};
pub use slot::{TaskArgumentOptions, TaskId, TraitType};
pub use state::{TaskState, TaskStateType};
pub use task::{Task, TaskSnapshot, TaskType};
pub use turbo_tasks::{Job, TurboTasks};
