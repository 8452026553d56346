use compi::{load_tasks, substitute_variables, substitute_variables_in_task, ConfigSection, Task};

fn vars() -> Vec<(String, String)> {
    vec![
        ("OUT".to_string(), "build".to_string()),
        ("NAME".to_string(), "app".to_string()),
        ("NEST".to_string(), "$NAME".to_string()),
    ]
}

#[test]
fn braced_and_simple_references_are_replaced() {
    assert_eq!(substitute_variables("${OUT}/$NAME.bin", &vars()), "build/app.bin");
}

#[test]
fn unknown_references_stay_as_written() {
    assert_eq!(substitute_variables("${MISSING} and $MISSING", &vars()), "${MISSING} and $MISSING");
}

#[test]
fn text_without_references_is_unchanged() {
    assert_eq!(substitute_variables("cargo build --release", &vars()), "cargo build --release");
    assert_eq!(substitute_variables("", &vars()), "");
    assert_eq!(substitute_variables("cost: $5 and ${", &vars()), "cost: $5 and ${");
}

#[test]
fn names_end_at_the_first_non_name_character() {
    assert_eq!(substitute_variables("$OUT-dir ${OUT}x $OUTx", &vars()), "build-dir buildx $OUTx");
}

#[test]
fn braced_values_are_expanded_again_by_the_simple_pass() {
    assert_eq!(substitute_variables("${NEST}", &vars()), "app");
}

#[test]
fn first_variable_of_a_name_wins() {
    let v = vec![("A".to_string(), "1".to_string()), ("A".to_string(), "2".to_string())];
    assert_eq!(substitute_variables("$A", &v), "1");
}

#[test]
fn task_command_and_paths_are_substituted() {
    let mut t = Task {
        id: "t".to_string(),
        command: "cc -o ${OUT}/x".to_string(),
        dependencies: vec!["$NAME".to_string()],
        aliases: Vec::new(),
        inputs: vec!["src/$NAME.c".to_string()],
        outputs: vec!["${OUT}/x".to_string()],
        auto_remove: false,
        timeout: None,
    };
    substitute_variables_in_task(&mut t, &vars());
    assert_eq!(t.command, "cc -o build/x");
    assert_eq!(t.inputs, vec!["src/app.c".to_string()]);
    assert_eq!(t.outputs, vec!["build/x".to_string()]);
    assert_eq!(t.dependencies, vec!["$NAME".to_string()]);
}

#[test]
fn configuration_substitutes_before_settling() {
    let t = Task {
        id: String::new(),
        command: "make ${NAME}".to_string(),
        dependencies: Vec::new(),
        aliases: Vec::new(),
        inputs: Vec::new(),
        outputs: vec!["$OUT/out".to_string()],
        auto_remove: false,
        timeout: None,
    };
    let section = ConfigSection { default: None, cache_dir: None, workers: None, default_timeout: None };
    let config = load_tasks(vec![("make".to_string(), t)], section, &vars()).unwrap();
    assert_eq!(config.tasks[0].id, "make");
    assert_eq!(config.tasks[0].command, "make app");
    assert_eq!(config.tasks[0].outputs, vec!["build/out".to_string()]);
}
