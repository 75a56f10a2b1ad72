//! Slots, references to slots, and the descriptions of functions, traits and value
//! types that tasks carry.
use std::sync::Arc;
use vstd::prelude::*;

verus! {

/// The number of a task in its [`TaskGraph`](crate::graph::TaskGraph).
pub type TaskId = usize;

/// A strong handle on a slot: the number of the task that owns it, and 0 for the
/// output slot of that task or `i + 1` for its created slot `i`.
pub type SlotHandle = Arc<(usize, usize)>;

/// A function that tasks can execute, by the number under which the runtime
/// registered it.
#[derive(Debug)]
pub struct NativeFunction {
    pub id: usize,
    pub name: String,
}

/// A trait whose methods tasks can call.
#[derive(Debug)]
pub struct TraitType {
    pub id: usize,
    pub name: String,
}

/// A type of values that slots can hold.
#[derive(Debug)]
pub struct SlotValueType {
    pub id: usize,
    pub name: String,
}

/// What a function asks of one of its arguments before it is called.
#[derive(Clone, Copy, Debug)]
pub enum TaskArgumentOptions {
    Unresolved,
    Slot,
    Resolved(&'static SlotValueType),
    Trait(&'static TraitType),
}

/// A reference to a slot.
#[derive(Clone, Copy, Debug, PartialEq, Eq, Hash, Structural)]
pub enum SlotRef {
    /// The output slot of a task.
    TaskOutput(TaskId),
    /// A slot that a task created during its execution.
    TaskCreated(TaskId, usize),
    /// A value that no task owns, by the number under which the runtime keeps it.
    Value(u64),
}

impl SlotRef {
    /// Whether a task owns the slot.
    pub open spec fn of_task(self) -> bool {
        !(self is Value)
    }

    /// The task that owns the slot.
    pub open spec fn owner(self) -> TaskId
        recommends
            self.of_task(),
    {
        self.key().0
    }

    /// What a handle on the slot holds.
    pub open spec fn key(self) -> (usize, usize)
        recommends
            self.of_task(),
    {
        match self {
            SlotRef::TaskOutput(task) => (task, 0),
            SlotRef::TaskCreated(task, index) => (task, (index + 1) as usize),
            SlotRef::Value(_) => arbitrary(),
        }
    }

    /// The slot that a handle holds.
    pub open spec fn of_key(key: (usize, usize)) -> SlotRef {
        if key.1 == 0 {
            SlotRef::TaskOutput(key.0)
        } else {
            SlotRef::TaskCreated(key.0, (key.1 - 1) as usize)
        }
    }

    pub fn is_task_ref(&self) -> (res: bool)
        ensures
            res <==> self is TaskOutput || self is TaskCreated,
            res == self.of_task(),
    {
        match self {
            SlotRef::Value(_) => false,
            _ => true,
        }
    }

    /// The slot on which `handle` is a handle.
    pub fn from_handle(handle: &SlotHandle) -> (res: SlotRef)
        ensures
            handle.1 == 0 ==> res == SlotRef::TaskOutput(handle.0),
            handle.1 > 0 ==> res == SlotRef::TaskCreated(handle.0, (handle.1 - 1) as usize),
            res == SlotRef::of_key(**handle),
    {
        let key: &(usize, usize) = &**handle;
        if key.1 == 0 {
            SlotRef::TaskOutput(key.0)
        } else {
            SlotRef::TaskCreated(key.0, key.1 - 1)
        }
    }
}

/// A reference to a slot can be read back from a handle on the slot.
pub proof fn law_handle_names_its_slot(slot: SlotRef)
    requires
        slot.of_task(),
        slot matches SlotRef::TaskCreated(_, index) ==> index < usize::MAX,
    ensures
        SlotRef::of_key(slot.key()) == slot,
{
}

/// Two slots of tasks have handles that hold the same only where they are one slot.
pub proof fn law_handles_tell_slots_apart(slot: SlotRef, other: SlotRef)
    requires
        !(slot is Value),
        !(other is Value),
        slot matches SlotRef::TaskCreated(_, index) ==> index < usize::MAX,
        other matches SlotRef::TaskCreated(_, index) ==> index < usize::MAX,
    ensures
        slot.key() == other.key() <==> slot == other,
        slot matches SlotRef::TaskOutput(task) ==> slot.key() == (task, 0usize),
        slot matches SlotRef::TaskCreated(task, index) ==> slot.key().0 == task
            && slot.key().1 == index + 1,
        slot matches SlotRef::TaskOutput(task) ==> slot.owner() == task,
        slot matches SlotRef::TaskCreated(task, _) ==> slot.owner() == task,
{
}

/// The task slots are those that are no values.
pub proof fn law_slots_of_tasks(slot: SlotRef)
    ensures
        slot.of_task() <==> slot is TaskOutput || slot is TaskCreated,
{
}

/// A slot is linked to what it was linked to last: whatever it was linked to before, and
/// however often, a link replaces the one before it.
pub proof fn law_last_link_counts(
    slot: Slot,
    once: Slot,
    twice: Slot,
    target: SlotRef,
    other: SlotRef,
)
    requires
        once.is_linked(slot, target),
        twice.is_linked(once, other),
    ensures
        once.target() == Some(target),
        twice.target() == Some(other),
        twice.is_linked(slot, other),
        twice.held() == slot.held(),
{
}

/// A place for one value. A slot can be linked to another slot, and hands out
/// handles on itself.
#[derive(Debug)]
pub struct Slot {
    target: Option<SlotRef>,
    handle: Option<SlotHandle>,
}

impl Slot {
    /// The slot to which this one is linked.
    pub closed spec fn target(self) -> Option<SlotRef> {
        self.target
    }

    /// What the handle holds that the slot has given last.
    pub closed spec fn held(self) -> Option<(usize, usize)> {
        match self.handle {
            Some(handle) => Some(*handle),
            None => None,
        }
    }

    /// A slot that is linked to nothing and has given no handle.
    pub open spec fn is_new(self) -> bool {
        self.target() is None && self.held() is None
    }

    /// Whether the slot is `before`, linked to `target`.
    pub open spec fn is_linked(self, before: Slot, target: SlotRef) -> bool {
        self.target() == Some(target) && self.held() == before.held()
    }

    pub fn new() -> (res: Slot)
        ensures
            res.target() is None,
            res.held() is None,
            res.is_new(),
    {
        Slot { target: None, handle: None }
    }

    /// Links the slot to `target`.
    pub fn link(&mut self, target: SlotRef)
        ensures
            final(self).target() == Some(target),
            final(self).held() == old(self).held(),
            final(self).is_linked(*old(self), target),
    {
        self.target = Some(target);
    }

    pub fn linked(&self) -> (res: Option<SlotRef>)
        ensures
            res == self.target(),
    {
        self.target
    }

    /// A handle that holds `key`: the one that the slot gave before where that holds
    /// the same, else a new one.
    pub fn handle(&mut self, key: (usize, usize)) -> (res: SlotHandle)
        ensures
            *res == key,
            final(self).target() == old(self).target(),
            final(self).held() == Some(key),
    {
        if let Some(handle) = &self.handle {
            if handle.0 == key.0 && handle.1 == key.1 {
                return handle.clone();
            }
        }
        let handle: SlotHandle = Arc::new(key);
        self.handle = Some(handle.clone());
        handle
    }
}

} // verus!
