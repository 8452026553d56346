use compi::{
    calculate_dependency_levels, detect_cycles, get_required_tasks, load_tasks, sort_topologically,
    task_levels, validate_tasks, CompiError, ConfigSection, DependencyError, Task,
};

fn task(id: &str, deps: &[&str]) -> Task {
    Task {
        id: id.to_string(),
        command: format!("echo {}", id),
        dependencies: deps.iter().map(|d| d.to_string()).collect(),
        aliases: Vec::new(),
        inputs: Vec::new(),
        outputs: Vec::new(),
        auto_remove: false,
        timeout: None,
    }
}

fn position(order: &[String], id: &str) -> usize {
    order.iter().position(|x| x == id).expect("id in order")
}

#[test]
fn sort_chain_orders_dependencies_first() {
    let tasks = vec![task("c", &["b"]), task("b", &["a"]), task("a", &[])];
    let order = sort_topologically(&tasks);
    assert_eq!(order, vec!["a".to_string(), "b".to_string(), "c".to_string()]);
}

#[test]
fn sort_diamond_places_each_task_after_its_dependencies() {
    let tasks = vec![
        task("top", &["left", "right"]),
        task("left", &["base"]),
        task("right", &["base"]),
        task("base", &[]),
    ];
    let order = sort_topologically(&tasks);
    assert_eq!(order.len(), 4);
    for t in &tasks {
        for d in &t.dependencies {
            assert!(position(&order, d) < position(&order, &t.id));
        }
    }
}

#[test]
fn sort_leaves_out_tasks_on_a_cycle() {
    let tasks = vec![task("a", &["b"]), task("b", &["a"]), task("c", &[])];
    let order = sort_topologically(&tasks);
    assert_eq!(order, vec!["c".to_string()]);
}

#[test]
fn sort_empty_set() {
    assert!(sort_topologically(&[]).is_empty());
}

#[test]
fn cycle_fails_validation_and_passes_without_back_edge() {
    let cyclic = vec![task("a", &["b"]), task("b", &["a"])];
    match validate_tasks(&cyclic) {
        Err(CompiError::Dependency(DependencyError::Cycle { path })) => {
            assert_eq!(path, vec!["a".to_string(), "b".to_string(), "a".to_string()]);
        }
        other => panic!("expected a cycle, got {:?}", other),
    }
    let fixed = vec![task("a", &["b"]), task("b", &[])];
    assert!(validate_tasks(&fixed).is_ok());
}

#[test]
fn cycle_report_is_path_then_closing_node() {
    let tasks = vec![task("x", &["a"]), task("a", &["b"]), task("b", &["c"]), task("c", &["a"])];
    match detect_cycles(&tasks) {
        Err(DependencyError::Cycle { path }) => {
            let expected: Vec<String> = ["x", "a", "b", "c", "a"].iter().map(|s| s.to_string()).collect();
            assert_eq!(path, expected);
            let last = path.last().unwrap().clone();
            let first_seen = path.iter().position(|p| *p == last).unwrap();
            assert!(first_seen < path.len() - 1);
            for w in path.windows(2) {
                let t = tasks.iter().find(|t| t.id == w[0]).unwrap();
                assert!(t.dependencies.contains(&w[1]));
            }
        }
        other => panic!("expected a cycle, got {:?}", other),
    }
}

#[test]
fn cycle_report_follows_the_first_dependency_into_a_cycle() {
    let tasks = vec![
        task("ok", &[]),
        task("start", &["ok", "loop1", "loop2"]),
        task("loop1", &["loop2"]),
        task("loop2", &["ok", "loop1"]),
    ];
    match detect_cycles(&tasks) {
        Err(DependencyError::Cycle { path }) => {
            let expected: Vec<String> = ["start", "loop1", "loop2", "loop1"].iter().map(|s| s.to_string()).collect();
            assert_eq!(path, expected);
        }
        other => panic!("expected a cycle, got {:?}", other),
    }
}

#[test]
fn levels_are_the_same_on_every_call() {
    let tasks = vec![task("b", &[]), task("a", &[]), task("c", &["a", "b"]), task("d", &[])];
    let first: Vec<(usize, Vec<String>)> =
        calculate_dependency_levels(&tasks).into_iter().map(|l| (l.level, l.task_ids)).collect();
    let second: Vec<(usize, Vec<String>)> =
        calculate_dependency_levels(&tasks).into_iter().map(|l| (l.level, l.task_ids)).collect();
    assert_eq!(first, second);
    assert_eq!(first[0].1, vec!["b".to_string(), "a".to_string(), "d".to_string()]);
}

#[test]
fn self_dependency_is_rejected() {
    let tasks = vec![task("a", &["a"])];
    assert!(matches!(
        validate_tasks(&tasks),
        Err(CompiError::Dependency(DependencyError::SelfDependency { task })) if task == "a"
    ));
}

#[test]
fn missing_dependency_is_rejected() {
    let tasks = vec![task("a", &["ghost"])];
    match validate_tasks(&tasks) {
        Err(CompiError::Dependency(DependencyError::MissingDependency { task, dependency })) => {
            assert_eq!(task, "a");
            assert_eq!(dependency, "ghost");
        }
        other => panic!("unexpected {:?}", other),
    }
}

#[test]
fn duplicate_id_is_rejected() {
    let tasks = vec![task("a", &[]), task("a", &[])];
    assert!(matches!(
        validate_tasks(&tasks),
        Err(CompiError::Dependency(DependencyError::DuplicateId { id })) if id == "a"
    ));
}

#[test]
fn alias_equal_to_an_id_is_rejected() {
    let mut a = task("a", &[]);
    a.aliases = vec!["b".to_string()];
    let tasks = vec![a, task("b", &[])];
    assert!(matches!(
        validate_tasks(&tasks),
        Err(CompiError::Dependency(DependencyError::AliasShadowsId { task, alias })) if task == "a" && alias == "b"
    ));
}

#[test]
fn alias_used_twice_is_rejected() {
    let mut a = task("a", &[]);
    a.aliases = vec!["build".to_string()];
    let mut b = task("b", &[]);
    b.aliases = vec!["build".to_string()];
    match validate_tasks(&[a, b]) {
        Err(CompiError::Dependency(DependencyError::DuplicateAlias { task, alias, other })) => {
            assert_eq!((task.as_str(), alias.as_str(), other.as_str()), ("b", "build", "a"));
        }
        other => panic!("unexpected {:?}", other),
    }
}

#[test]
fn required_tasks_by_id_is_the_closure_in_order() {
    let tasks = vec![
        task("deploy", &["test"]),
        task("test", &["build"]),
        task("build", &[]),
        task("docs", &[]),
    ];
    let order = get_required_tasks(&tasks, "test").unwrap();
    assert_eq!(order, vec!["build".to_string(), "test".to_string()]);
}

#[test]
fn required_tasks_by_alias() {
    let mut t = task("test", &["build"]);
    t.aliases = vec!["t".to_string()];
    let tasks = vec![t, task("build", &[])];
    let order = get_required_tasks(&tasks, "t").unwrap();
    assert_eq!(order, vec!["build".to_string(), "test".to_string()]);
}

#[test]
fn required_tasks_unknown_target() {
    let tasks = vec![task("a", &[])];
    match get_required_tasks(&tasks, "nope") {
        Err(CompiError::Task(t)) => assert_eq!(t, "nope"),
        other => panic!("unexpected {:?}", other),
    }
}

#[test]
fn levels_follow_the_longest_dependency_chain() {
    let tasks = vec![
        task("a", &[]),
        task("b", &["a"]),
        task("c", &["a"]),
        task("d", &["b", "c"]),
        task("e", &["a", "d"]),
        task("f", &[]),
    ];
    let lv = task_levels(&tasks);
    assert_eq!(lv, vec![0, 1, 1, 2, 3, 0]);
    let levels = calculate_dependency_levels(&tasks);
    let groups: Vec<(usize, Vec<String>)> = levels.into_iter().map(|l| (l.level, l.task_ids)).collect();
    assert_eq!(
        groups,
        vec![
            (0, vec!["a".to_string(), "f".to_string()]),
            (1, vec!["b".to_string(), "c".to_string()]),
            (2, vec!["d".to_string()]),
            (3, vec!["e".to_string()]),
        ]
    );
}

#[test]
fn level_rule_holds_for_every_task() {
    let tasks = vec![
        task("p", &[]),
        task("q", &["p"]),
        task("r", &["q", "p"]),
        task("s", &["r"]),
    ];
    let lv = task_levels(&tasks);
    for (i, t) in tasks.iter().enumerate() {
        let expected = t
            .dependencies
            .iter()
            .map(|d| lv[tasks.iter().position(|x| &x.id == d).unwrap()] + 1)
            .max()
            .unwrap_or(0);
        assert_eq!(lv[i], expected);
    }
}

#[test]
fn levels_of_no_tasks() {
    assert!(calculate_dependency_levels(&[]).is_empty());
}

#[test]
fn declared_tasks_take_their_key_as_id() {
    let mut unnamed = task("", &[]);
    unnamed.command = "make".to_string();
    let named = task("explicit", &["build"]);
    let section = ConfigSection {
        default: Some("explicit".to_string()),
        cache_dir: None,
        workers: Some(3),
        default_timeout: Some("5m".to_string()),
    };
    let config = load_tasks(
        vec![("build".to_string(), unnamed), ("key".to_string(), named)],
        section,
        &Vec::new(),
    )
    .unwrap();
    let ids: Vec<&str> = config.tasks.iter().map(|t| t.id.as_str()).collect();
    assert_eq!(ids, vec!["build", "explicit"]);
    assert_eq!(config.workers, Some(3));
    assert_eq!(config.default_task.as_deref(), Some("explicit"));
    assert_eq!(config.default_timeout.as_deref(), Some("5m"));
}

#[test]
fn declared_tasks_are_validated() {
    let section = ConfigSection { default: None, cache_dir: None, workers: None, default_timeout: None };
    let result = load_tasks(vec![("a".to_string(), task("", &["missing"]))], section, &Vec::new());
    assert!(matches!(result, Err(CompiError::Dependency(DependencyError::MissingDependency { .. }))));
}
