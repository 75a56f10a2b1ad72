//! What is to be done to execute a task.
use vstd::prelude::*;
use vstd::string::StringExecFns;

use crate::slot::{NativeFunction, SlotRef, TraitType};
use crate::task::{Task, TaskType};

verus! {

/// The first thing to do for the execution of a task.
pub enum Execution<'a, F, O> {
    /// Call the function.
    Call(&'a F),
    /// Run the computation.
    Run(O),
    /// Resolve the inputs to slots, and then call a function with them.
    ResolveNative(NativeResolution),
    /// Resolve the first input to a value, and then call a method of it.
    ResolveTrait(TraitResolution),
}

impl<F, O> Task<F, O> {
    /// Whether an execution has something to do: a computation that can run only once
    /// has not run.
    pub open spec fn executable(self) -> bool {
        self.ty matches TaskType::Once(computation) ==> computation is Some
    }

    /// The same task without the computation that can run only once.
    pub open spec fn used_up(self) -> Task<F, O> {
        match self.ty {
            TaskType::Once(_) => Task { ty: TaskType::Once(None), ..self },
            _ => self,
        }
    }

    /// What is to be done to execute the task.
    pub fn execute(&mut self) -> (res: Execution<'_, F, O>)
        requires
            old(self).ty matches TaskType::Once(computation) ==> computation is Some,
        ensures
            *final(self) == old(self).used_up(),
            final(self).inputs == old(self).inputs,
            final(self).active_parents == old(self).active_parents,
            final(self).execution_data.dependencies == old(self).execution_data.dependencies,
            final(self).execution_data.previous_nodes == old(self).execution_data.previous_nodes,
            final(self).state.active == old(self).state.active,
            final(self).state.state_type == old(self).state.state_type,
            final(self).state.children == old(self).state.children,
            final(self).state.output_slot == old(self).state.output_slot,
            final(self).state.created_slots == old(self).state.created_slots,
            final(self).state.event == old(self).state.event,
            final(self).state.executions == old(self).state.executions,
            old(self).ty is Once ==> final(self).ty == TaskType::<F, O>::Once(None),
            !(old(self).ty is Once) ==> final(self).ty == old(self).ty,
            old(self).ty matches TaskType::ResolveNative(native_fn)
                ==> res matches Execution::ResolveNative(resolution)
                && resolution.native_fn() == native_fn && resolution.inputs() == old(self).inputs@
                && resolution.resolved_inputs() == Seq::<SlotRef>::empty(),
            old(self).ty matches TaskType::ResolveTrait(trait_type, name)
                ==> res matches Execution::ResolveTrait(resolution)
                && resolution.trait_type() == trait_type && resolution.name() == name@
                && resolution.inputs() == old(self).inputs@,
            match old(self).ty {
                TaskType::Root(bound_fn) => res == Execution::<'_, F, O>::Call(&bound_fn),
                TaskType::Once(computation) => res == Execution::<'_, F, O>::Run(computation->0),
                TaskType::Native(_, bound_fn) => res == Execution::<'_, F, O>::Call(&bound_fn),
                TaskType::ResolveNative(native_fn) => res matches Execution::ResolveNative(
                    resolution,
                ) && resolution.begins(native_fn, old(self).inputs@),
                TaskType::ResolveTrait(trait_type, name) => res matches Execution::ResolveTrait(
                    resolution,
                ) && resolution.begins(trait_type, name@, old(self).inputs@),
            },
    {
        let inputs: &Vec<SlotRef> = &self.inputs;
        assert(inputs@.skip(0) =~= inputs@);
        match &mut self.ty {
            TaskType::Root(bound_fn) => Execution::Call(&*bound_fn),
            TaskType::Once(computation) => Execution::Run(computation.take().unwrap()),
            TaskType::Native(_, bound_fn) => Execution::Call(&*bound_fn),
            TaskType::ResolveNative(native_fn) => Execution::ResolveNative(
                NativeResolution {
                    native_fn: *native_fn,
                    inputs: copied(inputs, 0),
                    resolved_inputs: Vec::new(),
                },
            ),
            TaskType::ResolveTrait(trait_type, name) => Execution::ResolveTrait(
                TraitResolution {
                    trait_type: *trait_type,
                    name: name.clone(),
                    inputs: copied(inputs, 0),
                },
            ),
        }
    }
}

/// The slots of `inputs` from number `first` on.
fn copied(inputs: &Vec<SlotRef>, first: usize) -> (res: Vec<SlotRef>)
    requires
        first <= inputs@.len(),
    ensures
        res@ == inputs@.skip(first as int),
{
    let mut res: Vec<SlotRef> = Vec::new();
    let mut i: usize = first;
    while i < inputs.len()
        invariant
            first <= i <= inputs@.len(),
            res@ == inputs@.subrange(first as int, i as int),
        decreases inputs@.len() - i,
    {
        res.push(inputs[i]);
        i += 1;
        assert(res@ =~= inputs@.subrange(first as int, i as int));
    }
    assert(res@ =~= inputs@.skip(first as int));
    res
}

/// The execution of a task that resolves its inputs and calls a function with them.
pub struct NativeResolution {
    native_fn: &'static NativeFunction,
    inputs: Vec<SlotRef>,
    resolved_inputs: Vec<SlotRef>,
}

impl NativeResolution {
    /// The function to call at the end.
    pub closed spec fn native_fn(self) -> &'static NativeFunction {
        self.native_fn
    }

    /// The inputs of the task.
    pub closed spec fn inputs(self) -> Seq<SlotRef> {
        self.inputs@
    }

    /// What the first inputs were resolved to.
    pub closed spec fn resolved_inputs(self) -> Seq<SlotRef> {
        self.resolved_inputs@
    }

    /// Whether no input is resolved yet.
    pub open spec fn begins(
        self,
        native_fn: &'static NativeFunction,
        inputs: Seq<SlotRef>,
    ) -> bool {
        &&& self.native_fn() == native_fn
        &&& self.inputs() == inputs
        &&& self.resolved_inputs() == Seq::<SlotRef>::empty()
    }

    /// The input that is to be resolved to a slot next, or none where all are resolved.
    pub fn next_input(&self) -> (res: Option<SlotRef>)
        ensures
            res == if self.resolved_inputs().len() < self.inputs().len() {
                Some(self.inputs()[self.resolved_inputs().len() as int])
            } else {
                None
            },
    {
        if self.resolved_inputs.len() < self.inputs.len() {
            Some(self.inputs[self.resolved_inputs.len()])
        } else {
            None
        }
    }

    /// Takes the slot to which the next input was resolved.
    pub fn input_resolved(&mut self, slot: SlotRef)
        requires
            old(self).resolved_inputs().len() < old(self).inputs().len(),
        ensures
            final(self).native_fn() == old(self).native_fn(),
            final(self).inputs() == old(self).inputs(),
            final(self).resolved_inputs() == old(self).resolved_inputs().push(slot),
    {
        self.resolved_inputs.push(slot);
    }

    /// The function to call, and the slots to call it with.
    pub fn call(self) -> (res: (&'static NativeFunction, Vec<SlotRef>))
        requires
            self.resolved_inputs().len() == self.inputs().len(),
        ensures
            res.0 == self.native_fn(),
            res.1@ == self.resolved_inputs(),
    {
        (self.native_fn, self.resolved_inputs)
    }
}

/// The texts, each with a space before it.
pub open spec fn listing(texts: Seq<String>) -> Seq<char>
    decreases texts.len(),
{
    if texts.len() == 0 {
        Seq::empty()
    } else {
        listing(texts.drop_last()) + (" "@ + texts.last()@)
    }
}

/// The execution of a task that calls a method of its first input.
pub struct TraitResolution {
    trait_type: &'static TraitType,
    name: String,
    inputs: Vec<SlotRef>,
}

impl TraitResolution {
    /// The trait of the method.
    pub closed spec fn trait_type(self) -> &'static TraitType {
        self.trait_type
    }

    /// The name of the method.
    pub closed spec fn name(self) -> Seq<char> {
        self.name@
    }

    /// The inputs of the task.
    pub closed spec fn inputs(self) -> Seq<SlotRef> {
        self.inputs@
    }

    pub open spec fn begins(
        self,
        trait_type: &'static TraitType,
        name: Seq<char>,
        inputs: Seq<SlotRef>,
    ) -> bool {
        &&& self.trait_type() == trait_type
        &&& self.name() == name
        &&& self.inputs() == inputs
    }

    /// The input that is to be resolved to a value, or what is wrong where there is none.
    pub fn this(&self) -> (res: Result<SlotRef, &'static str>)
        ensures
            res is Ok <==> self.inputs().len() > 0,
            res matches Ok(slot) ==> slot == self.inputs()[0],
            res matches Err(message) ==> message@ == "No arguments for trait call"@,
    {
        if self.inputs.len() > 0 {
            Ok(self.inputs[0])
        } else {
            Err("No arguments for trait call")
        }
    }

    /// The trait and the name of the method that the value is to be asked for.
    pub fn method(&self) -> (res: (&'static TraitType, &str))
        ensures
            res.0 == self.trait_type(),
            res.1@ == self.name(),
    {
        (self.trait_type, self.name.as_str())
    }

    /// Takes the value to which the first input was resolved, and its method. Gives the
    /// method, and what to call it with: the value, and the other inputs as they are.
    /// Where the value has no such method, the execution is given back.
    pub fn value_resolved(
        self,
        this: SlotRef,
        method: Option<&'static NativeFunction>,
    ) -> (res: Result<(&'static NativeFunction, Vec<SlotRef>), TraitResolution>)
        requires
            self.inputs().len() > 0,
        ensures
            res is Ok <==> method is Some,
            res matches Ok(call) ==> Some(call.0) == method && call.1@ == seq![this]
                + self.inputs().skip(1),
            res matches Err(resolution) ==> resolution == self,
    {
        match method {
            Some(native_fn) => {
                let mut resolved_inputs: Vec<SlotRef> = Vec::new();
                resolved_inputs.push(this);
                let mut rest: Vec<SlotRef> = copied(&self.inputs, 1);
                resolved_inputs.append(&mut rest);
                assert(resolved_inputs@ =~= seq![this] + self.inputs().skip(1));
                Ok((native_fn, resolved_inputs))
            },
            None => Err(self),
        }
    }

    /// What is wrong where the value `this` has no such method: it does not implement the
    /// trait, but only `traits`, or the method is missing.
    pub open spec fn failure(
        self,
        this: Seq<char>,
        trait_text: Seq<char>,
        has_trait: bool,
        traits: Seq<String>,
    ) -> Seq<char> {
        if !has_trait {
            this + " doesn't implement trait "@ + trait_text + " (only"@ + listing(traits) + ")"@
        } else {
            this + " implements trait "@ + trait_text + ", but method "@ + self.name()
                + " is missing"@
        }
    }

    /// A message that says what is wrong where the value `this` has no such method.
    pub fn failure_message(
        &self,
        this: &str,
        trait_text: &str,
        has_trait: bool,
        traits: &Vec<String>,
    ) -> (res: String)
        ensures
            !has_trait ==> res@ == this@ + " doesn't implement trait "@ + trait_text@ + " (only"@
                + listing(traits@) + ")"@,
            has_trait ==> res@ == this@ + " implements trait "@ + trait_text@ + ", but method "@
                + self.name() + " is missing"@,
            res@ == self.failure(this@, trait_text@, has_trait, traits@),
    {
        let mut res: String = this.to_owned();
        if !has_trait {
            res.append(" doesn't implement trait ");
            res.append(trait_text);
            res.append(" (only");
            let ghost begin = res@;
            let mut i: usize = 0;
            assert(begin + listing(traits@.take(0)) =~= begin);
            while i < traits.len()
                invariant
                    i <= traits@.len(),
                    res@ == begin + listing(traits@.take(i as int)),
                decreases traits@.len() - i,
            {
                res.append(" ");
                res.append(traits[i].as_str());
                i += 1;
                proof {
                    let taken = traits@.take(i as int);
                    assert(taken.drop_last() =~= traits@.take(i - 1));
                    assert(taken.last() == traits@[i - 1]);
                    assert(res@ =~= begin + listing(taken));
                }
            }
            assert(traits@.take(i as int) =~= traits@);
            res.append(")");
        } else {
            res.append(" implements trait ");
            res.append(trait_text);
            res.append(", but method ");
            res.append(self.name.as_str());
            res.append(" is missing");
        }
        res
    }
}

/// A resolution begins with the function and the inputs of the task, in their order, and
/// with nothing resolved.
pub proof fn law_resolution_begins_with_the_inputs(
    resolution: NativeResolution,
    native_fn: &'static NativeFunction,
    inputs: Seq<SlotRef>,
)
    requires
        resolution.begins(native_fn, inputs),
    ensures
        resolution.native_fn() == native_fn,
        resolution.inputs().len() == inputs.len(),
        forall|k: int| 0 <= k < inputs.len() ==> #[trigger] resolution.inputs()[k] == inputs[k],
        resolution.resolved_inputs().len() == 0,
{
}

/// The resolution of a method begins with the trait, the name and the inputs of the task.
pub proof fn law_trait_resolution_begins_with_the_inputs(
    resolution: TraitResolution,
    trait_type: &'static TraitType,
    name: Seq<char>,
    inputs: Seq<SlotRef>,
)
    requires
        resolution.begins(trait_type, name, inputs),
    ensures
        resolution.trait_type() == trait_type,
        resolution.name() == name,
        resolution.inputs().len() == inputs.len(),
        forall|k: int| 0 <= k < inputs.len() ==> #[trigger] resolution.inputs()[k] == inputs[k],
{
}

/// A listing grows by a space and the text at its end.
pub proof fn law_listing_grows_at_its_end(texts: Seq<String>, text: String)
    ensures
        listing(Seq::empty()) == Seq::<char>::empty(),
        listing(texts.push(text)) == listing(texts) + " "@ + text@,
{
    assert(texts.push(text).drop_last() =~= texts);
    assert(listing(texts) + (" "@ + text@) =~= listing(texts) + " "@ + text@);
}

/// What can be executed is everything but a computation that has run already, and an
/// execution uses up that computation and nothing else.
pub proof fn law_execution_uses_up_the_computation<F, O>(task: Task<F, O>)
    ensures
        task.executable() <==> task.ty != TaskType::<F, O>::Once(None),
        task.used_up().ty is Once <==> task.ty is Once,
        !(task.ty is Once) ==> task.used_up().ty == task.ty,
        task.used_up().ty matches TaskType::Once(computation) ==> computation is None,
        task.used_up().inputs == task.inputs,
        task.used_up().state == task.state,
        task.used_up().active_parents == task.active_parents,
        task.used_up().execution_data == task.execution_data,
{
}

/// A computation that can run only once is run at most once: after its execution nothing
/// is left to execute. Every other task can be executed again.
pub proof fn law_once_is_executed_once<F, O>(task: Task<F, O>)
    requires
        task.executable(),
    ensures
        task.used_up().executable() <==> !(task.ty is Once),
        !(task.ty is Once) ==> task.used_up() == task,
{
}

} // verus!
