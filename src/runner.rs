use vstd::prelude::*;

use crate::cache::Cache;
use crate::detect::{all_found, must_run, outdated, should_run, ChangeFacts};
use crate::fingerprint::{distinct_paths, files_key, hash_files, InputFile};
use crate::graph::has_task;
use crate::levels::{
    calculate_dependency_levels, grouped_by, levels_hold, listed_once, task_at_level, ExecutionLevel,
};
use crate::task::{CompiError, Task};
use crate::timeout::{parse_timeout, timeout_of};
use crate::validate::{find_task, validate_tasks};

verus! {

/// How the output of running tasks reaches the terminal.
#[derive(Debug, Clone, Copy, PartialEq, Eq)]
pub enum OutputMode {
    /// Stream task output live.
    Stream,
    /// Print each task's output as one block after it completes.
    Group,
}

/// How a started task ended.
#[derive(Debug, Clone, Copy, PartialEq, Eq)]
pub enum TaskOutcome {
    /// The command exited with the success status.
    Success,
    /// The command exited with another status.
    Failure,
    /// The command ran past its timeout and was killed.
    Timeout,
    /// The command could not be started or waited for.
    SpawnError,
}

/// What a finished run reports.
#[derive(Debug, Clone, Copy, PartialEq, Eq)]
pub struct RunSummary {
    /// A fingerprint was added to the cache.
    pub cache_changed: bool,
    /// Some task failed.
    pub failed: bool,
}

/// What the driver of the run must do next.
#[derive(Debug, Clone)]
pub enum Step {
    /// Gather the change facts of these tasks (positions in `tasks()`), in
    /// this order, and hand them to `admit_level`.
    Check(Vec<usize>),
    /// Start the task at this position.
    Start(usize),
    /// Wait until a running task ends, then report it to `finish_task`.
    Wait,
    /// The run is over.
    Done(RunSummary),
}

/// The state of a run, as the contracts see it.
pub struct RunnerState {
    pub tasks: Seq<Task>,
    pub default_timeout: Option<Seq<char>>,
    pub verbose: bool,
    pub output_mode: OutputMode,
    pub cache: Set<Seq<char>>,
    pub rm: bool,
    pub workers: nat,
    pub continue_on_failure: bool,
    pub levels: Seq<Seq<usize>>,
    pub level: nat,
    pub gated: bool,
    pub pending: Seq<usize>,
    pub next: nat,
    pub running: nat,
    pub level_failed: bool,
    pub failed: bool,
    pub cache_changed: bool,
    pub finished: bool,
}

/// The steps, as the contracts see them.
pub enum StepView {
    Check(Seq<usize>),
    Start(usize),
    Wait,
    Done(bool, bool),
}

/// The invariant of a run: never more tasks in flight than workers; a level
/// is checked only when nothing runs; positions stay within the task list.
pub open spec fn runner_wf(s: RunnerState) -> bool {
    &&& s.workers >= 1
    &&& s.running <= s.workers
    &&& s.level <= s.levels.len()
    &&& !s.finished ==> s.level < s.levels.len()
    &&& s.next <= s.pending.len()
    &&& !s.gated ==> s.running == 0
    &&& s.finished ==> s.running == 0
    &&& forall|l: int, k: int|
        0 <= l < s.levels.len() && 0 <= k < s.levels[l].len() ==> #[trigger] s.levels[l][k] < s.tasks.len()
    &&& forall|k: int| 0 <= k < s.pending.len() ==> #[trigger] s.pending[k] < s.tasks.len()
}

/// The step taken from state `s`.
pub open spec fn step_of(s: RunnerState) -> StepView {
    if s.finished {
        StepView::Done(s.cache_changed, s.failed)
    } else if !s.gated {
        StepView::Check(s.levels[s.level as int])
    } else if s.next < s.pending.len() && s.running < s.workers {
        StepView::Start(s.pending[s.next as int])
    } else if s.running > 0 {
        StepView::Wait
    } else if s.level_failed && !s.continue_on_failure {
        StepView::Done(s.cache_changed, s.failed)
    } else if s.level + 1 >= s.levels.len() {
        StepView::Done(s.cache_changed, s.failed)
    } else {
        StepView::Check(s.levels[s.level + 1int])
    }
}

/// The state after the step taken from `s`.
pub open spec fn after_step(s: RunnerState) -> RunnerState {
    if s.finished || !s.gated {
        s
    } else if s.next < s.pending.len() && s.running < s.workers {
        RunnerState { next: s.next + 1, running: s.running + 1, ..s }
    } else if s.running > 0 {
        s
    } else if s.level_failed && !s.continue_on_failure {
        RunnerState { finished: true, ..s }
    } else if s.level + 1 >= s.levels.len() {
        RunnerState { finished: true, ..s }
    } else {
        RunnerState {
            level: s.level + 1,
            gated: false,
            level_failed: false,
            pending: Seq::empty(),
            next: 0,
            ..s
        }
    }
}

/// The tasks of a level that must run, in level order.
pub open spec fn runnable(
    tasks: Seq<Task>,
    ids: Seq<usize>,
    facts: Seq<ChangeFacts>,
    cache: Set<Seq<char>>,
) -> Seq<usize>
    decreases ids.len(),
{
    if ids.len() == 0 || facts.len() == 0 {
        Seq::empty()
    } else {
        (if must_run(tasks[ids[0] as int], facts[0], cache) {
            seq![ids[0]]
        } else {
            Seq::empty()
        }) + runnable(tasks, ids.drop_first(), facts.drop_first(), cache)
    }
}

/// The state after the task at `index` ended with `outcome`; `inputs` are
/// its input files as read after it ended.
pub open spec fn after_finish(
    s: RunnerState,
    index: usize,
    outcome: TaskOutcome,
    inputs: Option<Seq<InputFile>>,
) -> RunnerState {
    let t = s.tasks[index as int];
    let s1 = RunnerState { running: (s.running - 1) as nat, ..s };
    if outcome == TaskOutcome::Success {
        if t.inputs@.len() > 0 && inputs is Some {
            let key = files_key(inputs->0);
            RunnerState {
                cache: s.cache.insert(key),
                cache_changed: s.cache_changed || !s.cache.contains(key),
                ..s1
            }
        } else {
            s1
        }
    } else {
        RunnerState { level_failed: true, failed: true, ..s1 }
    }
}

impl Step {
    pub open spec fn view_step(&self) -> StepView {
        match self {
            Step::Check(ids) => StepView::Check(ids@),
            Step::Start(i) => StepView::Start(*i),
            Step::Wait => StepView::Wait,
            Step::Done(s) => StepView::Done(s.cache_changed, s.failed),
        }
    }
}

/// Drives a run level by level: checks each level's tasks against the
/// cache, starts those that must run while a worker is free, collects their
/// outcomes, and moves to the next level only when the current one has
/// drained.
pub struct TaskRunner {
    tasks: Vec<Task>,
    cache: Cache,
    rm: bool,
    verbose: bool,
    default_timeout: Option<String>,
    workers: usize,
    continue_on_failure: bool,
    output_mode: OutputMode,
    levels: Vec<Vec<usize>>,
    level: usize,
    gated: bool,
    pending: Vec<usize>,
    next: usize,
    running: usize,
    level_failed: bool,
    failed: bool,
    cache_changed: bool,
    finished: bool,
}

impl View for TaskRunner {
    type V = RunnerState;

    closed spec fn view(&self) -> RunnerState {
        RunnerState {
            tasks: self.tasks@,
            default_timeout: match self.default_timeout {
                Some(s) => Some(s@),
                None => None,
            },
            verbose: self.verbose,
            output_mode: self.output_mode,
            cache: self.cache@,
            rm: self.rm,
            workers: self.workers as nat,
            continue_on_failure: self.continue_on_failure,
            levels: self.levels@.map_values(|l: Vec<usize>| l@),
            level: self.level as nat,
            gated: self.gated,
            pending: self.pending@,
            next: self.next as nat,
            running: self.running as nat,
            level_failed: self.level_failed,
            failed: self.failed,
            cache_changed: self.cache_changed,
            finished: self.finished,
        }
    }
}

/// The positions of the tasks named in `ids`.
fn positions(tasks: &Vec<Task>, ids: &Vec<String>) -> (r: Vec<usize>)
    requires
        forall|k: int| 0 <= k < ids.len() ==> has_task(tasks@, #[trigger] ids@[k]@),
    ensures
        r.len() == ids.len(),
        forall|k: int| 0 <= k < r.len() ==> #[trigger] r@[k] < tasks@.len() && tasks@[r@[k] as int].id@ == ids@[k]@,
{
    let mut r: Vec<usize> = Vec::new();
    let mut k: usize = 0;
    while k < ids.len()
        invariant
            k <= ids.len(),
            r.len() == k,
            forall|k: int| 0 <= k < ids.len() ==> has_task(tasks@, #[trigger] ids@[k]@),
            forall|q: int| 0 <= q < r.len() ==> #[trigger] r@[q] < tasks@.len() && tasks@[r@[q] as int].id@ == ids@[q]@,
        decreases ids.len() - k,
    {
        match find_task(tasks.as_slice(), &ids[k]) {
            Some(i) => r.push(i),
            None => {
                assert(has_task(tasks@, ids@[k as int]@));
                return r;
            },
        }
        k = k + 1;
    }
    r
}

/// No position occurs twice in the levels, so no task is started twice.
pub open spec fn positions_once(levels: Seq<Seq<usize>>) -> bool {
    forall|l: int, k: int, m: int, j: int|
        0 <= l < levels.len() && 0 <= k < levels[l].len() && 0 <= m < levels.len() && 0 <= j < levels[m].len()
            && (l != m || k != j) ==> #[trigger] levels[l][k] != #[trigger] levels[m][j]
}

/// The runner's levels hold the positions of the tasks of `groups`, group
/// by group and in the same order.
pub open spec fn levels_match(tasks: Seq<Task>, levels: Seq<Seq<usize>>, groups: Seq<ExecutionLevel>) -> bool {
    &&& levels.len() == groups.len()
    &&& forall|l: int| 0 <= l < levels.len() ==> #[trigger] levels[l].len() == groups[l].task_ids@.len()
    &&& forall|l: int, k: int|
        0 <= l < levels.len() && 0 <= k < levels[l].len() ==> tasks[#[trigger] levels[l][k] as int].id@
            == groups[l].task_ids@[k]@
}

impl TaskRunner {
    /// Prepares a run of `tasks` (the tasks to run, dependencies included).
    /// The worker cap is `workers`, or else `default_workers`.
    pub fn new(
        tasks: Vec<Task>,
        cache: Cache,
        rm: bool,
        verbose: bool,
        default_timeout: Option<String>,
        workers: Option<usize>,
        default_workers: usize,
        continue_on_failure: bool,
        output_mode: OutputMode,
    ) -> (r: Result<TaskRunner, CompiError>)
        requires
            workers != Some(0usize),
            default_workers >= 1,
        ensures
            r is Ok <==> crate::validate::valid_graph(tasks@),
            r matches Ok(run) ==> runner_wf(run@) && run@.tasks == tasks@ && run@.cache == cache@
                && run@.workers == (match workers {
                Some(w) => w,
                None => default_workers,
            }) && run@.level == 0 && !run@.gated && run@.running == 0 && !run@.failed
                && !run@.cache_changed && run@.rm == rm && run@.continue_on_failure
                == continue_on_failure && (run@.finished <==> run@.levels.len() == 0)
                && run@.verbose == verbose && run@.output_mode == output_mode && run@.default_timeout
                == (match default_timeout {
                Some(s) => Some(s@),
                None => None,
            }),
            r matches Ok(run) ==> exists|groups: Seq<ExecutionLevel>, lv: Seq<usize>|
                levels_hold(tasks@, lv) && #[trigger] grouped_by(tasks@, lv, groups) && listed_once(groups)
                    && levels_match(tasks@, run@.levels, groups),
            r matches Ok(run) ==> positions_once(run@.levels),
            r matches Err(e) ==> e is Dependency,
    {
        match validate_tasks(tasks.as_slice()) {
            Err(e) => {
                return Err(e);
            },
            Ok(()) => {},
        }
        let groups: Vec<ExecutionLevel> = calculate_dependency_levels(tasks.as_slice());
        let ghost lv = choose|lv: Seq<usize>| levels_hold(tasks@, lv) && #[trigger] grouped_by(tasks@, lv, groups@);
        let mut levels: Vec<Vec<usize>> = Vec::new();
        let mut g: usize = 0;
        while g < groups.len()
            invariant
                g <= groups.len(),
                levels.len() == g,
                levels_hold(tasks@, lv),
                grouped_by(tasks@, lv, groups@),
                forall|l: int, k: int|
                    0 <= l < levels.len() && 0 <= k < levels@[l]@.len() ==> #[trigger] levels@[l]@[k] < tasks@.len()
                        && tasks@[levels@[l]@[k] as int].id@ == groups@[l].task_ids@[k]@,
                forall|l: int| 0 <= l < levels.len() ==> #[trigger] levels@[l]@.len() == groups@[l].task_ids@.len(),
            decreases groups.len() - g,
        {
            proof {
                assert forall|k: int| 0 <= k < groups@[g as int].task_ids@.len() implies has_task(
                    tasks@,
                    #[trigger] groups@[g as int].task_ids@[k]@,
                ) by {
                    assert(task_at_level(tasks@, lv, groups@[g as int].task_ids@[k]@, groups@[g as int].level));
                }
            }
            let p = positions(&tasks, &groups[g].task_ids);
            levels.push(p);
            g = g + 1;
        }
        proof {
            let lvs = levels@.map_values(|l: Vec<usize>| l@);
            assert(levels_match(tasks@, lvs, groups@));
            assert forall|l: int, k: int, m: int, j: int|
                0 <= l < lvs.len() && 0 <= k < lvs[l].len() && 0 <= m < lvs.len() && 0 <= j < lvs[m].len() && (l
                    != m || k != j) implies #[trigger] lvs[l][k] != #[trigger] lvs[m][j] by {
                assert(tasks@[lvs[l][k] as int].id@ == groups@[l].task_ids@[k]@);
                assert(tasks@[lvs[m][j] as int].id@ == groups@[m].task_ids@[j]@);
            }
        }
        let workers = match workers {
            Some(w) => w,
            None => default_workers,
        };
        let finished = levels.len() == 0;
        let run = TaskRunner {
            tasks,
            cache,
            rm,
            verbose,
            default_timeout,
            workers,
            continue_on_failure,
            output_mode,
            levels,
            level: 0,
            gated: false,
            pending: Vec::new(),
            next: 0,
            running: 0,
            level_failed: false,
            failed: false,
            cache_changed: false,
            finished,
        };
        Ok(run)
    }

    /// The tasks of the run.
    pub fn tasks(&self) -> (r: &Vec<Task>)
        ensures
            r@ == self@.tasks,
    {
        &self.tasks
    }

    /// The fingerprint cache.
    pub fn cache(&self) -> (r: &Cache)
        ensures
            r@ == self@.cache,
    {
        &self.cache
    }

    /// Ends the run and hands the cache back.
    pub fn into_cache(self) -> (r: Cache)
        ensures
            r@ == self@.cache,
    {
        self.cache
    }

    /// The worker cap.
    pub fn workers(&self) -> (r: usize)
        ensures
            r == self@.workers,
    {
        self.workers
    }

    /// The number of tasks in flight.
    pub fn running(&self) -> (r: usize)
        ensures
            r == self@.running,
    {
        self.running
    }

    /// Whether progress is to be reported.
    pub fn verbose(&self) -> (r: bool)
        ensures
            r == self@.verbose,
    {
        self.verbose
    }

    /// How task output is shown.
    pub fn output_mode(&self) -> (r: OutputMode)
        ensures
            r == self@.output_mode,
    {
        self.output_mode
    }

    /// The timeout of the task at `index`: its own, else the run's default.
    pub fn timeout_for(&self, index: usize) -> (r: Option<(u64, u32)>)
        requires
            index < self@.tasks.len(),
        ensures
            r == timeout_of(
                match self@.tasks[index as int].timeout {
                    Some(s) => Some(s@),
                    None => None,
                },
                self@.default_timeout,
            ),
    {
        let own = match &self.tasks[index].timeout {
            Some(s) => Some(s.as_str()),
            None => None,
        };
        let default = match &self.default_timeout {
            Some(s) => Some(s.as_str()),
            None => None,
        };
        parse_timeout(own, default)
    }

    /// Records which tasks of the current level must run, from the facts
    /// gathered for each of them (in the order of the `Check` step).
    pub fn admit_level(&mut self, facts: Vec<ChangeFacts>)
        requires
            runner_wf(old(self)@),
            !old(self)@.finished,
            !old(self)@.gated,
            facts@.len() == old(self)@.levels[old(self)@.level as int].len(),
            forall|k: int|
                0 <= k < facts@.len() ==> (#[trigger] facts@[k].input_files matches Some(fs) ==> distinct_paths(fs@)),
        ensures
            runner_wf(final(self)@),
            final(self)@ == (RunnerState {
                gated: true,
                pending: runnable(
                    old(self)@.tasks,
                    old(self)@.levels[old(self)@.level as int],
                    facts@,
                    old(self)@.cache,
                ),
                next: 0,
                ..old(self)@
            }),
    {
        proof {
            assert(self.levels@.map_values(|l: Vec<usize>| l@)[self.level as int] == self.levels@[self.level as int]@);
        }
        let ids = self.levels[self.level].clone();
        let ghost all_ids = ids@;
        let ghost all_facts = facts@;
        let mut rest = facts;
        let mut pending: Vec<usize> = Vec::new();
        let mut k: usize = 0;
        assert(all_ids.skip(0) =~= all_ids);
        while k < ids.len()
            invariant
                ids@ == all_ids,
                all_facts.len() == all_ids.len(),
                k <= ids.len(),
                rest@ == all_facts.skip(k as int),
                forall|q: int| 0 <= q < all_ids.len() ==> #[trigger] all_ids[q] < self.tasks@.len(),
                forall|q: int|
                    0 <= q < all_facts.len() ==> (#[trigger] all_facts[q].input_files matches Some(fs) ==> distinct_paths(fs@)),
                forall|q: int| 0 <= q < pending.len() ==> #[trigger] pending@[q] < self.tasks@.len(),
                pending@ + runnable(self.tasks@, all_ids.skip(k as int), rest@, self.cache@) == runnable(
                    self.tasks@,
                    all_ids,
                    all_facts,
                    self.cache@,
                ),
            decreases ids.len() - k,
        {
            let ghost r0 = rest@;
            let f = rest.remove(0);
            proof {
                assert(f == all_facts[k as int]);
                assert(all_ids.skip(k as int).drop_first() =~= all_ids.skip(k + 1));
                assert(r0.drop_first() =~= rest@);
                assert(rest@ =~= all_facts.skip(k + 1));
            }
            let i = ids[k];
            let ghost pend0 = pending@;
            if should_run(&self.tasks[i], f, &self.cache) {
                pending.push(i);
                proof {
                    assert(pending@ =~= pend0 + seq![i]);
                    assert(pend0 + seq![i] + runnable(self.tasks@, all_ids.skip(k + 1), rest@, self.cache@)
                        =~= pend0 + (seq![i] + runnable(self.tasks@, all_ids.skip(k + 1), rest@, self.cache@)));
                }
            } else {
                proof {
                    assert(Seq::<usize>::empty() + runnable(self.tasks@, all_ids.skip(k + 1), rest@, self.cache@)
                        =~= runnable(self.tasks@, all_ids.skip(k + 1), rest@, self.cache@));
                }
            }
            k = k + 1;
        }
        proof {
            assert(all_ids.skip(k as int).len() == 0);
            assert(pending@ =~= pending@ + runnable(self.tasks@, all_ids.skip(k as int), rest@, self.cache@));
        }
        self.pending = pending;
        self.next = 0;
        self.gated = true;
        proof {
            assert(self@ =~= (RunnerState {
                gated: true,
                pending: runnable(
                    old(self)@.tasks,
                    old(self)@.levels[old(self)@.level as int],
                    all_facts,
                    old(self)@.cache,
                ),
                next: 0,
                ..old(self)@
            }));
        }
    }

    /// Records how the task at `index` ended. On success, the key of its
    /// input files (read after it ended) goes into the cache when it declares
    /// inputs; the result says whether its outputs are to be removed now.
    pub fn finish_task(&mut self, index: usize, outcome: TaskOutcome, inputs: Option<Vec<InputFile>>) -> (remove_outputs: bool)
        requires
            runner_wf(old(self)@),
            old(self)@.running > 0,
            index < old(self)@.tasks.len(),
            inputs matches Some(fs) ==> distinct_paths(fs@),
        ensures
            runner_wf(final(self)@),
            final(self)@ == after_finish(
                old(self)@,
                index,
                outcome,
                match inputs {
                    Some(fs) => Some(fs@),
                    None => None,
                },
            ),
            remove_outputs == (outcome == TaskOutcome::Success && (old(self)@.rm
                || old(self)@.tasks[index as int].auto_remove) && old(self)@.tasks[index as int].outputs@.len() > 0),
    {
        self.running = self.running - 1;
        match outcome {
            TaskOutcome::Success => {
                if self.tasks[index].inputs.len() > 0 {
                    match inputs {
                        Some(fs) => {
                            let key = hash_files(fs);
                            let added = self.cache.insert(key);
                            if added {
                                self.cache_changed = true;
                            }
                        },
                        None => {},
                    }
                }
                (self.rm || self.tasks[index].auto_remove) && self.tasks[index].outputs.len() > 0
            },
            _ => {
                self.level_failed = true;
                self.failed = true;
                false
            },
        }
    }

    /// The next step of the run.
    pub fn next_step(&mut self) -> (r: Step)
        requires
            runner_wf(old(self)@),
        ensures
            runner_wf(final(self)@),
            r.view_step() == step_of(old(self)@),
            final(self)@ == after_step(old(self)@),
    {
        proof {
            assert(self.levels@.map_values(|l: Vec<usize>| l@).len() == self.levels@.len());
        }
        if self.finished {
            return Step::Done(RunSummary { cache_changed: self.cache_changed, failed: self.failed });
        }
        if !self.gated {
            let ids = self.levels[self.level].clone();
            proof {
                assert(ids@ == self@.levels[self.level as int]);
            }
            return Step::Check(ids);
        }
        if self.next < self.pending.len() && self.running < self.workers {
            let i = self.pending[self.next];
            self.next = self.next + 1;
            self.running = self.running + 1;
            return Step::Start(i);
        }
        if self.running > 0 {
            return Step::Wait;
        }
        if self.level_failed && !self.continue_on_failure {
            self.finished = true;
            return Step::Done(RunSummary { cache_changed: self.cache_changed, failed: self.failed });
        }
        assert(self.level < self.levels.len());
        if self.level + 1 >= self.levels.len() {
            self.finished = true;
            return Step::Done(RunSummary { cache_changed: self.cache_changed, failed: self.failed });
        }
        self.level = self.level + 1;
        self.gated = false;
        self.level_failed = false;
        self.pending = Vec::new();
        self.next = 0;
        let ids = self.levels[self.level].clone();
        proof {
            assert(ids@ == self@.levels[self.level as int]);
            assert(self@ == after_step(old(self)@));
        }
        Step::Check(ids)
    }
}

/// At no step do more tasks run than there are workers, and a level is
/// checked, so that its tasks may start, only when no task runs.
pub proof fn lemma_worker_cap(s: RunnerState)
    requires
        runner_wf(s),
    ensures
        runner_wf(after_step(s)),
        after_step(s).running <= after_step(s).workers,
        step_of(s) is Start ==> s.running < s.workers && after_step(s).running == s.running + 1,
        step_of(s) is Check ==> s.running == 0,
{
}

/// When a level has drained, the run goes on to the next level if it may
/// continue after failures or nothing failed in the level, and ends
/// otherwise.
pub proof fn lemma_failure_policy(s: RunnerState)
    requires
        runner_wf(s),
        !s.finished,
        s.gated,
        s.next == s.pending.len(),
        s.running == 0,
    ensures
        s.level + 1 < s.levels.len() && (s.continue_on_failure || !s.level_failed) ==> step_of(s)
            == StepView::Check(s.levels[s.level + 1int]),
        s.level_failed && !s.continue_on_failure ==> step_of(s) == StepView::Done(s.cache_changed, s.failed),
{
}

/// A task that succeeds puts the key of its inputs into the cache; checked
/// again with the same inputs, its outputs present and no older than them,
/// it is skipped.
pub proof fn lemma_success_then_skip(s: RunnerState, index: usize, fs: Seq<InputFile>, f: ChangeFacts)
    requires
        runner_wf(s),
        s.running > 0,
        index < s.tasks.len(),
        s.tasks[index as int].inputs@.len() > 0,
        all_found(f.outputs_found@),
        !outdated(s.tasks[index as int], f),
        f.input_files matches Some(v) && v@ == fs,
    ensures
        after_finish(s, index, TaskOutcome::Success, Some(fs)).cache.contains(files_key(fs)),
        runner_wf(after_finish(s, index, TaskOutcome::Success, Some(fs))),
        !must_run(
            s.tasks[index as int],
            f,
            after_finish(s, index, TaskOutcome::Success, Some(fs)).cache,
        ),
{
}

/// A failing task does not undo what a sibling in its level achieves: the
/// sibling's input key still enters the cache, and the run is marked failed.
pub proof fn lemma_failure_keeps_successes(s: RunnerState, x: usize, y: usize, fs: Seq<InputFile>, outcome: TaskOutcome)
    requires
        runner_wf(s),
        s.running >= 2,
        x < s.tasks.len(),
        y < s.tasks.len(),
        outcome != TaskOutcome::Success,
        s.tasks[y as int].inputs@.len() > 0,
    ensures
        after_finish(after_finish(s, x, outcome, None), y, TaskOutcome::Success, Some(fs)).cache.contains(
            files_key(fs),
        ),
        after_finish(after_finish(s, x, outcome, None), y, TaskOutcome::Success, Some(fs)).failed,
        after_finish(after_finish(s, y, TaskOutcome::Success, Some(fs)), x, outcome, None).cache.contains(
            files_key(fs),
        ),
        after_finish(after_finish(s, y, TaskOutcome::Success, Some(fs)), x, outcome, None).failed,
{
}

} // verus!
