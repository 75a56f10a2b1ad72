use turbo_tasks::task::report_clearing;
use turbo_tasks::text::decimal_text;
use turbo_tasks::{NativeFunction, Task, TaskStateType, TraitType};

type Native = Task<u32, u32>;

fn function(name: &str) -> &'static NativeFunction {
    Box::leak(Box::new(NativeFunction { id: 7, name: name.to_string() }))
}

fn trait_type(name: &str) -> &'static TraitType {
    Box::leak(Box::new(TraitType { id: 8, name: name.to_string() }))
}

fn native(name: &str) -> Native {
    Task::new_native::<()>(Vec::new(), function(name), Ok(1)).unwrap()
}

#[test]
fn display_forms() {
    let cases: Vec<(Native, &str)> = vec![
        (Task::new_root(1), "Task(root, scheduled)"),
        (Task::new_once(1), "Task(once, scheduled)"),
        (native("read"), "Task(read, dirty (inactive))"),
        (
            Task::new_resolve_native(Vec::new(), function("read")),
            "Task([resolve] read, dirty (inactive))",
        ),
        (
            Task::new_resolve_trait(trait_type("Asset"), "path".to_string(), Vec::new()),
            "Task([resolve trait] path in trait Asset, dirty (inactive))",
        ),
    ];
    for (task, text) in cases {
        assert_eq!(task.display_string(), text);
    }
}

#[test]
fn debug_forms() {
    let cases: Vec<(Native, &str)> = vec![
        (Task::new_root(1), "Task { type: Root, active: true, state: Scheduled }"),
        (Task::new_once(1), "Task { type: Once, active: true, state: Scheduled }"),
        (native("a\"b"), "Task { type: Native(\"a\\\"b\"), active: false, state: Dirty }"),
        (
            Task::new_resolve_native(Vec::new(), function("read")),
            "Task { type: ResolveNative(\"read\"), active: false, state: Dirty }",
        ),
        (
            Task::new_resolve_trait(trait_type("Asset"), "path".to_string(), Vec::new()),
            "Task { type: ResolveTrait(\"Asset\", \"path\"), active: false, state: Dirty }",
        ),
    ];
    for (task, text) in cases {
        assert_eq!(task.debug_string(), text);
    }
}

/// What std makes of a structure of the same shape.
struct Model(&'static str, Vec<&'static str>, bool, TaskStateType);

struct ModelType<'a>(&'a str, &'a [&'static str]);

impl std::fmt::Debug for ModelType<'_> {
    fn fmt(&self, f: &mut std::fmt::Formatter<'_>) -> std::fmt::Result {
        let mut tuple = f.debug_tuple(self.0);
        for field in self.1 {
            tuple.field(field);
        }
        tuple.finish()
    }
}

impl std::fmt::Debug for Model {
    fn fmt(&self, f: &mut std::fmt::Formatter<'_>) -> std::fmt::Result {
        let mut result = f.debug_struct("Task");
        result.field("type", &ModelType(self.0, &self.1));
        result.field("active", &self.2);
        result.field("state", &self.3);
        result.finish()
    }
}

#[test]
fn debug_forms_are_those_of_std() {
    let top = TaskStateType::Scheduled;
    let idle = TaskStateType::Dirty;
    let cases: Vec<(Native, Model)> = vec![
        (Task::new_root(1), Model("Root", vec![], true, top)),
        (Task::new_once(1), Model("Once", vec![], true, top)),
        (native("a\n\"b\""), Model("Native", vec!["a\n\"b\""], false, idle)),
        (
            Task::new_resolve_native(Vec::new(), function("read")),
            Model("ResolveNative", vec!["read"], false, idle),
        ),
        (
            Task::new_resolve_trait(trait_type("Asset"), "path".to_string(), Vec::new()),
            Model("ResolveTrait", vec!["Asset", "path"], false, idle),
        ),
    ];
    for (task, model) in cases {
        assert_eq!(task.debug_string(), format!("{:?}", model));
        assert_eq!(task.pretty_string(), format!("{:#?}", model));
        assert_eq!(
            task.ty.pretty_string(""),
            format!("{:#?}", ModelType(model.0, &model.1))
        );
    }
}

#[test]
fn pretty_form_of_a_native_task() {
    assert_eq!(
        native("f").pretty_string(),
        "Task {\n    type: Native(\n        \"f\",\n    ),\n    active: false,\n    state: Dirty,\n}"
    );
    assert_eq!(
        native("f").ty.pretty_string_with("--", "<1>", "<2>"),
        "Native(\n--    <1>,\n--)"
    );
    assert_eq!(
        native("f").pretty_string_with("<type>"),
        "Task {\n    type: <type>,\n    active: false,\n    state: Dirty,\n}"
    );
}

#[test]
fn quoted_texts_are_put_in_place() {
    let task: Native =
        Task::new_resolve_trait(trait_type("Asset"), "path".to_string(), Vec::new());
    assert_eq!(task.ty.debug_string_with("<1>", "<2>"), "ResolveTrait(<1>, <2>)");
    assert_eq!(native("f").ty.debug_string_with("<1>", "<2>"), "Native(<1>)");
    assert_eq!(
        task.debug_string_with("<type>"),
        "Task { type: <type>, active: false, state: Dirty }"
    );
    assert_eq!(native("tab\there").ty.debug_string(), format!("Native({:?})", "tab\there"));
}

#[test]
fn state_texts() {
    let mut task: Native = Task::new_root(1);
    let cases = [
        (TaskStateType::Scheduled, "scheduled"),
        (TaskStateType::InProgress, "in progress"),
        (TaskStateType::InProgressDirty, "in progress (dirty)"),
        (TaskStateType::Done, "done"),
        (TaskStateType::Dirty, "dirty"),
    ];
    for (state_type, text) in cases {
        task.state.state_type = state_type;
        task.state.active = true;
        assert_eq!(Native::state_string(&task.state), text);
        assert!(task.debug_string().ends_with(&format!("state: {:?} }}", state_type)));
        task.state.active = false;
        assert_eq!(Native::state_string(&task.state), format!("{} (inactive)", text));
    }
}

#[test]
fn decimal_texts() {
    for n in [0u128, 7, 10, 99, 100, 10001, u64::MAX as u128, u128::MAX] {
        assert_eq!(decimal_text(n), n.to_string());
    }
}

#[test]
fn long_clearing_is_reported() {
    let task: Native = Task::new_root(1);
    let debug = "Task { type: Root, active: true, state: Scheduled }";
    let report = |count, millis, micros| task.report_cleared_dependencies(count, millis, micros);
    assert_eq!(report(3, 100, 100500), Some(format!("clear_dependencies(3) took 100 ms: {}", debug)));
    assert_eq!(report(3, 99, 99900), Some(format!("clear_dependencies(3) took 99900 \u{b5}s: {}", debug)));
    assert_eq!(report(0, 1, 1000), Some(format!("clear_dependencies(0) took 1000 \u{b5}s: {}", debug)));
    assert_eq!(report(10001, 0, 12), Some(format!("clear_dependencies(10001) took 12 \u{b5}s: {}", debug)));
    assert_eq!(report(10000, 0, 999), None);
    assert_eq!(
        report_clearing("task", 20000, 0, 3),
        Some("clear_dependencies(20000) took 3 \u{b5}s: task".to_string())
    );
}
