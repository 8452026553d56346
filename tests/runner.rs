use compi::{
    get_required_tasks, hash_files, Cache, ChangeFacts, InputFile, OutputMode, RunSummary, Step, Task,
    TaskOutcome, TaskRunner,
};

fn task(id: &str, deps: &[&str], inputs: &[&str], outputs: &[&str]) -> Task {
    Task {
        id: id.to_string(),
        command: format!("run {}", id),
        dependencies: deps.iter().map(|d| d.to_string()).collect(),
        aliases: Vec::new(),
        inputs: inputs.iter().map(|s| s.to_string()).collect(),
        outputs: outputs.iter().map(|s| s.to_string()).collect(),
        auto_remove: false,
        timeout: None,
    }
}

fn input_files(t: &Task) -> Vec<InputFile> {
    t.inputs
        .iter()
        .map(|p| InputFile { path: p.clone(), contents: Some(format!("contents of {}", p).into_bytes()) })
        .collect()
}

/// Facts of a world where outputs exist only for tasks in `built`, and all
/// outputs are newer than all inputs.
fn facts_for(t: &Task, built: &[String]) -> ChangeFacts {
    let present = built.contains(&t.id);
    ChangeFacts {
        outputs_found: t.outputs.iter().map(|_| present).collect(),
        input_times: Some(t.inputs.iter().map(|_| Some(1)).collect()),
        output_times: Some(if present { t.outputs.iter().map(|_| Some(2)).collect() } else { Vec::new() }),
        input_files: Some(input_files(t)),
    }
}

struct Trace {
    summary: RunSummary,
    started: Vec<String>,
    max_running: usize,
    checked_levels: usize,
}

fn drive(runner: &mut TaskRunner, built: &mut Vec<String>, fails: &[&str]) -> Trace {
    let mut started = Vec::new();
    let mut in_flight: Vec<usize> = Vec::new();
    let mut max_running = 0;
    let mut checked_levels = 0;
    loop {
        match runner.next_step() {
            Step::Check(ids) => {
                assert!(in_flight.is_empty());
                checked_levels += 1;
                let facts = ids.iter().map(|&i| facts_for(&runner.tasks()[i], built)).collect();
                runner.admit_level(facts);
            }
            Step::Start(i) => {
                started.push(runner.tasks()[i].id.clone());
                in_flight.push(i);
                max_running = max_running.max(runner.running());
                assert!(runner.running() <= runner.workers());
            }
            Step::Wait => {
                let i = in_flight.remove(0);
                let t = runner.tasks()[i].clone();
                let outcome = if fails.contains(&t.id.as_str()) { TaskOutcome::Failure } else { TaskOutcome::Success };
                if outcome == TaskOutcome::Success && !built.contains(&t.id) {
                    built.push(t.id.clone());
                }
                runner.finish_task(i, outcome, Some(input_files(&t)));
            }
            Step::Done(summary) => {
                return Trace { summary, started, max_running, checked_levels };
            }
        }
    }
}

fn runner(tasks: Vec<Task>, cache: Cache, workers: usize, keep_going: bool) -> TaskRunner {
    TaskRunner::new(tasks, cache, false, false, None, Some(workers), 4, keep_going, OutputMode::Group).unwrap()
}

#[test]
fn worker_cap_is_never_exceeded() {
    let tasks: Vec<Task> = (0..7).map(|i| task(&format!("t{}", i), &[], &[], &[])).collect();
    let mut r = runner(tasks, Cache::new(), 2, false);
    let trace = drive(&mut r, &mut Vec::new(), &[]);
    assert_eq!(trace.started.len(), 7);
    assert_eq!(trace.max_running, 2);
    assert!(!trace.summary.failed);
}

#[test]
fn levels_start_only_after_the_previous_level_drains() {
    let tasks = vec![task("a", &[], &[], &[]), task("b", &[], &[], &[]), task("c", &["a", "b"], &[], &[])];
    let mut r = runner(tasks, Cache::new(), 4, false);
    let trace = drive(&mut r, &mut Vec::new(), &[]);
    assert_eq!(trace.checked_levels, 2);
    assert_eq!(trace.started.last().map(|s| s.as_str()), Some("c"));
}

#[test]
fn first_run_executes_and_caches_then_second_run_skips() {
    let a = task("A", &[], &["a.txt"], &["a.out"]);
    let mut built = Vec::new();
    let mut r1 = runner(vec![a.clone()], Cache::new(), 2, false);
    let first = drive(&mut r1, &mut built, &[]);
    assert_eq!(first.started, vec!["A".to_string()]);
    assert!(first.summary.cache_changed);
    let cache = r1.into_cache();
    assert!(cache.contains(&hash_files(input_files(&a))));

    let mut r2 = runner(vec![a], cache, 2, false);
    let second = drive(&mut r2, &mut built, &[]);
    assert!(second.started.is_empty());
    assert!(!second.summary.cache_changed);
}

#[test]
fn shared_producer_is_not_rerun_for_one_consumer() {
    let c = task("C", &[], &["c.in"], &["shared.out"]);
    let a = task("A", &["C"], &["shared.out"], &["a.out"]);
    let b = task("B", &["C"], &["shared.out"], &["b.out"]);
    let all = vec![a.clone(), b, c.clone()];
    let mut built = Vec::new();

    let mut first = runner(vec![c.clone()], Cache::new(), 2, false);
    drive(&mut first, &mut built, &[]);
    let cache = first.into_cache();

    let order = get_required_tasks(&all, "A").unwrap();
    assert_eq!(order, vec!["C".to_string(), "A".to_string()]);
    let selected: Vec<Task> = all.iter().filter(|t| order.contains(&t.id)).cloned().collect();
    let mut second = runner(selected, cache, 2, false);
    let trace = drive(&mut second, &mut built, &[]);
    assert_eq!(trace.started, vec!["A".to_string()]);
}

#[test]
fn continue_on_failure_runs_later_levels_and_caches_successes() {
    let bad = task("bad", &[], &["bad.in"], &["bad.out"]);
    let good = task("good", &[], &["good.in"], &["good.out"]);
    let later = task("later", &["good"], &[], &[]);
    let mut r = runner(vec![bad, good.clone(), later], Cache::new(), 2, true);
    let trace = drive(&mut r, &mut Vec::new(), &["bad"]);
    assert!(trace.summary.failed);
    assert!(trace.summary.cache_changed);
    assert!(trace.started.contains(&"later".to_string()));
    assert!(r.cache().contains(&hash_files(input_files(&good))));
}

#[test]
fn failure_stops_later_levels_without_continue() {
    let bad = task("bad", &[], &[], &[]);
    let good = task("good", &[], &[], &[]);
    let later = task("later", &["good"], &[], &[]);
    let mut r = runner(vec![bad, good, later], Cache::new(), 2, false);
    let trace = drive(&mut r, &mut Vec::new(), &["bad"]);
    assert!(trace.summary.failed);
    assert!(trace.started.contains(&"good".to_string()));
    assert!(!trace.started.contains(&"later".to_string()));
}

#[test]
fn timed_out_task_counts_as_failure() {
    let slow = task("slow", &[], &[], &[]);
    let mut r = runner(vec![slow], Cache::new(), 1, false);
    assert!(matches!(r.next_step(), Step::Check(_)));
    r.admit_level(vec![ChangeFacts { outputs_found: Vec::new(), input_times: None, output_times: None, input_files: None }]);
    assert!(matches!(r.next_step(), Step::Start(0)));
    assert!(matches!(r.next_step(), Step::Wait));
    assert!(!r.finish_task(0, TaskOutcome::Timeout, None));
    match r.next_step() {
        Step::Done(summary) => assert!(summary.failed),
        other => panic!("unexpected {:?}", other),
    }
}

#[test]
fn successful_task_with_auto_remove_asks_for_cleanup() {
    let mut t = task("gen", &[], &[], &["tmp.out"]);
    t.auto_remove = true;
    let mut r = runner(vec![t], Cache::new(), 1, false);
    assert!(matches!(r.next_step(), Step::Check(_)));
    r.admit_level(vec![ChangeFacts { outputs_found: vec![false], input_times: None, output_times: None, input_files: None }]);
    assert!(matches!(r.next_step(), Step::Start(0)));
    assert!(r.finish_task(0, TaskOutcome::Success, None));
}

#[test]
fn task_timeout_overrides_the_default() {
    let mut t = task("t", &[], &[], &[]);
    t.timeout = Some("2s".to_string());
    let u = task("u", &[], &[], &[]);
    let r = TaskRunner::new(vec![t, u], Cache::new(), false, false, Some("1m".to_string()), None, 3, false, OutputMode::Stream).unwrap();
    assert_eq!(r.workers(), 3);
    assert_eq!(r.timeout_for(0), Some((2, 0)));
    assert_eq!(r.timeout_for(1), Some((60, 0)));
}

#[test]
fn runner_rejects_an_invalid_graph() {
    let tasks = vec![task("a", &["b"], &[], &[]), task("b", &["a"], &[], &[])];
    assert!(TaskRunner::new(tasks, Cache::new(), false, false, None, Some(1), 1, false, OutputMode::Group).is_err());
}

#[test]
fn empty_run_is_done_at_once() {
    let mut r = runner(Vec::new(), Cache::new(), 1, false);
    match r.next_step() {
        Step::Done(summary) => {
            assert!(!summary.failed);
            assert!(!summary.cache_changed);
        }
        other => panic!("unexpected {:?}", other),
    }
}
