use compi::{
    expand_globs, hash_files, is_glob_pattern, newest_timestamp, oldest_timestamp, outputs_exist,
    parse_timeout, should_run, Cache, ChangeFacts, FileError, GlobMatch, InputFile, PathProbe, Task,
};

fn task_with(inputs: &[&str], outputs: &[&str]) -> Task {
    Task {
        id: "t".to_string(),
        command: "true".to_string(),
        dependencies: Vec::new(),
        aliases: Vec::new(),
        inputs: inputs.iter().map(|s| s.to_string()).collect(),
        outputs: outputs.iter().map(|s| s.to_string()).collect(),
        auto_remove: false,
        timeout: None,
    }
}

fn inputs() -> Vec<InputFile> {
    vec![InputFile { path: "a.txt".to_string(), contents: Some(b"data".to_vec()) }]
}

fn facts(found: bool, input_time: i128, output_time: i128) -> ChangeFacts {
    ChangeFacts {
        outputs_found: vec![found],
        input_times: Some(vec![Some(input_time)]),
        output_times: Some(vec![Some(output_time)]),
        input_files: Some(inputs()),
    }
}

fn cached() -> Cache {
    let mut cache = Cache::new();
    cache.insert(hash_files(inputs()));
    cache
}

#[test]
fn no_inputs_always_runs() {
    let t = task_with(&[], &["out"]);
    assert!(should_run(&t, facts(true, 1, 2), &cached()));
    assert!(should_run(&t, facts(true, 1, 2), &cached()));
}

#[test]
fn up_to_date_and_cached_is_skipped() {
    let t = task_with(&["a.txt"], &["out"]);
    assert!(!should_run(&t, facts(true, 10, 20), &cached()));
}

#[test]
fn missing_output_runs() {
    let t = task_with(&["a.txt"], &["out"]);
    assert!(should_run(&t, facts(false, 10, 20), &cached()));
}

#[test]
fn newer_input_runs() {
    let t = task_with(&["a.txt"], &["out"]);
    assert!(should_run(&t, facts(true, 30, 20), &cached()));
}

#[test]
fn equal_times_are_not_newer() {
    let t = task_with(&["a.txt"], &["out"]);
    assert!(!should_run(&t, facts(true, 20, 20), &cached()));
}

#[test]
fn unknown_times_run() {
    let t = task_with(&["a.txt"], &["out"]);
    let mut f = facts(true, 10, 20);
    f.output_times = Some(vec![None]);
    assert!(should_run(&t, f, &cached()));
    let mut g = facts(true, 10, 20);
    g.input_times = None;
    assert!(should_run(&t, g, &cached()));
}

#[test]
fn uncached_inputs_run() {
    let t = task_with(&["a.txt"], &["out"]);
    assert!(should_run(&t, facts(true, 10, 20), &Cache::new()));
}

#[test]
fn unresolvable_inputs_run() {
    let t = task_with(&["a.txt"], &["out"]);
    let mut f = facts(true, 10, 20);
    f.input_files = None;
    assert!(should_run(&t, f, &cached()));
}

#[test]
fn no_outputs_is_decided_by_the_cache() {
    let t = task_with(&["a.txt"], &[]);
    let mut f = facts(true, 10, 20);
    f.outputs_found = Vec::new();
    f.output_times = Some(Vec::new());
    assert!(!should_run(&t, f, &cached()));
}

#[test]
fn newest_and_oldest_skip_unknown_times() {
    let times = vec![Some(5), None, Some(9), Some(-3)];
    assert_eq!(newest_timestamp(&times), Some(9));
    assert_eq!(oldest_timestamp(&times), Some(-3));
    assert_eq!(newest_timestamp(&vec![None, None]), None);
    assert_eq!(oldest_timestamp(&Vec::new()), None);
}

#[test]
fn outputs_exist_needs_every_pattern() {
    assert!(outputs_exist(&vec![true, true]));
    assert!(!outputs_exist(&vec![true, false]));
    assert!(outputs_exist(&Vec::new()));
}

#[test]
fn cache_insert_reports_new_keys() {
    let mut cache = Cache::new();
    assert!(cache.insert("k1".to_string()));
    assert!(!cache.insert("k1".to_string()));
    assert!(cache.contains(&"k1".to_string()));
    assert!(!cache.contains(&"k2".to_string()));
    assert_eq!(cache.entries().len(), 1);
    let loaded = Cache::from_entries(vec!["x".to_string(), "y".to_string()]);
    assert!(loaded.contains(&"y".to_string()));
}

#[test]
fn timeout_parsing() {
    assert_eq!(parse_timeout(Some("30s"), None), Some((30, 0)));
    assert_eq!(parse_timeout(Some("1h30m"), Some("5s")), Some((5400, 0)));
    assert_eq!(parse_timeout(None, Some("500ms")), Some((0, 500_000_000)));
    assert_eq!(parse_timeout(Some("0"), Some("5s")), None);
    assert_eq!(parse_timeout(Some(""), None), None);
    assert_eq!(parse_timeout(None, None), None);
    assert_eq!(parse_timeout(Some("soon"), None), None);
}

#[test]
fn timeout_with_too_many_digits_is_none() {
    assert_eq!(parse_timeout(Some("18446744073709551615s 1000000000ns"), None), None);
    assert_eq!(parse_timeout(Some("123456789012s"), None), None);
    assert_eq!(parse_timeout(Some("12345678901s"), None), Some((12345678901, 0)));
}

#[test]
fn glob_metacharacters() {
    assert!(is_glob_pattern("src/*.rs"));
    assert!(is_glob_pattern("file?.txt"));
    assert!(is_glob_pattern("[ab].txt"));
    assert!(!is_glob_pattern("plain/path.txt"));
}

#[test]
fn resolution_keeps_existing_files_once() {
    let probes = vec![
        PathProbe::Literal { path: "a.txt".to_string(), exists: true },
        PathProbe::Literal { path: "missing.txt".to_string(), exists: false },
        PathProbe::Glob(Ok(vec![
            GlobMatch { path: "a.txt".to_string(), is_file: true },
            GlobMatch { path: "dir".to_string(), is_file: false },
            GlobMatch { path: "b.txt".to_string(), is_file: true },
        ])),
    ];
    let resolved = expand_globs(&probes).unwrap();
    assert_eq!(resolved, vec!["a.txt".to_string(), "b.txt".to_string()]);
}

#[test]
fn resolution_fails_on_a_bad_glob() {
    let probes = vec![
        PathProbe::Literal { path: "a.txt".to_string(), exists: true },
        PathProbe::Glob(Err(FileError::GlobPattern("[".to_string()))),
    ];
    assert!(expand_globs(&probes).is_err());
}
