use turbo_tasks::{Execution, NativeFunction, SlotRef, Task, TaskType, TraitType};

type Native = Task<u32, String>;

fn function(name: &str) -> &'static NativeFunction {
    Box::leak(Box::new(NativeFunction { id: 7, name: name.to_string() }))
}

fn trait_type(name: &str) -> &'static TraitType {
    Box::leak(Box::new(TraitType { id: 8, name: name.to_string() }))
}

#[test]
fn functions_are_called() {
    let mut root: Native = Task::new_root(5);
    let mut native: Native = Task::new_native::<()>(Vec::new(), function("f"), Ok(6)).unwrap();
    for _ in 0..2 {
        assert!(matches!(root.execute(), Execution::Call(&5)));
        assert!(matches!(native.execute(), Execution::Call(&6)));
    }
}

#[test]
fn computation_is_taken_once() {
    let mut once: Native = Task::new_once("result".to_string());
    match once.execute() {
        Execution::Run(computation) => assert_eq!(computation, "result"),
        _ => panic!("the computation is to be run"),
    }
    assert!(matches!(once.ty, TaskType::Once(None)));
}

#[test]
fn inputs_are_resolved_in_order() {
    let inputs = vec![SlotRef::TaskOutput(1), SlotRef::Value(2), SlotRef::TaskOutput(3)];
    let mut task: Native = Task::new_resolve_native(inputs.clone(), function("f"));
    let mut resolution = match task.execute() {
        Execution::ResolveNative(resolution) => resolution,
        _ => panic!("the inputs are to be resolved"),
    };
    let mut asked = Vec::new();
    while let Some(input) = resolution.next_input() {
        asked.push(input);
        resolution.input_resolved(SlotRef::Value(10 + asked.len() as u64));
    }
    assert_eq!(asked, inputs);
    let (native_fn, resolved) = resolution.call();
    assert_eq!(native_fn.name, "f");
    assert_eq!(resolved, vec![SlotRef::Value(11), SlotRef::Value(12), SlotRef::Value(13)]);
    assert_eq!(task.inputs, inputs);
}

#[test]
fn function_without_inputs_is_called_at_once() {
    let mut task: Native = Task::new_resolve_native(Vec::new(), function("f"));
    match task.execute() {
        Execution::ResolveNative(resolution) => {
            assert_eq!(resolution.next_input(), None);
            assert!(resolution.call().1.is_empty());
        }
        _ => panic!("the inputs are to be resolved"),
    }
}

#[test]
fn only_the_first_input_of_a_trait_call_is_resolved() {
    let inputs = vec![SlotRef::TaskOutput(1), SlotRef::TaskOutput(2), SlotRef::Value(3)];
    let mut task: Native = Task::new_resolve_trait(trait_type("Asset"), "path".to_string(), inputs);
    match task.execute() {
        Execution::ResolveTrait(resolution) => {
            assert_eq!(resolution.this(), Ok(SlotRef::TaskOutput(1)));
            assert_eq!(resolution.method().0.name, "Asset");
            assert_eq!(resolution.method().1, "path");
            let call = resolution.value_resolved(SlotRef::Value(9), Some(function("File::path")));
            match call {
                Ok((native_fn, resolved)) => {
                    assert_eq!(native_fn.name, "File::path");
                    assert_eq!(
                        resolved,
                        vec![SlotRef::Value(9), SlotRef::TaskOutput(2), SlotRef::Value(3)]
                    );
                }
                Err(_) => panic!("there is a method"),
            }
        }
        _ => panic!("the trait is to be resolved"),
    }
}

#[test]
fn missing_method_is_explained() {
    let inputs = vec![SlotRef::TaskOutput(1)];
    let mut task: Native = Task::new_resolve_trait(trait_type("Asset"), "path".to_string(), inputs);
    let resolution = match task.execute() {
        Execution::ResolveTrait(resolution) => resolution,
        _ => panic!("the trait is to be resolved"),
    };
    let resolution = match resolution.value_resolved(SlotRef::Value(9), None) {
        Ok(_) => panic!("there is no method"),
        Err(resolution) => resolution,
    };
    let traits = vec!["Module".to_string(), "Chunk".to_string()];
    assert_eq!(
        resolution.failure_message("a file", "Asset", false, &traits),
        "a file doesn't implement trait Asset (only Module Chunk)"
    );
    assert_eq!(
        resolution.failure_message("a file", "Asset", false, &Vec::new()),
        "a file doesn't implement trait Asset (only)"
    );
    assert_eq!(
        resolution.failure_message("a file", "Asset", true, &traits),
        "a file implements trait Asset, but method path is missing"
    );
}

#[test]
fn trait_call_needs_an_input() {
    let mut task: Native = Task::new_resolve_trait(trait_type("Asset"), "path".to_string(), Vec::new());
    match task.execute() {
        Execution::ResolveTrait(resolution) => {
            assert_eq!(resolution.this(), Err("No arguments for trait call"));
        }
        _ => panic!("the trait is to be resolved"),
    }
}
