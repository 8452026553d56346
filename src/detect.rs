use vstd::prelude::*;

use crate::cache::Cache;
use crate::fingerprint::{distinct_paths, files_key, hash_files, InputFile};
use crate::task::Task;

verus! {

/// What the file system showed of a task just before its level runs.
#[derive(Debug, Clone)]
pub struct ChangeFacts {
    /// For each declared output pattern, whether it resolved to an existing path.
    pub outputs_found: Vec<bool>,
    /// Modification times of the resolved inputs (`None` for a file whose time
    /// could not be read); `None` when the inputs could not be resolved.
    pub input_times: Option<Vec<Option<i128>>>,
    /// Modification times of the resolved outputs, likewise.
    pub output_times: Option<Vec<Option<i128>>>,
    /// The resolved inputs with their contents; `None` when they could not be
    /// resolved.
    pub input_files: Option<Vec<InputFile>>,
}

/// The latest of the known times, if any is known.
pub open spec fn newest(ts: Seq<Option<i128>>) -> Option<i128>
    decreases ts.len(),
{
    if ts.len() == 0 {
        None
    } else {
        let rest = newest(ts.drop_last());
        match ts.last() {
            None => rest,
            Some(t) => match rest {
                None => Some(t),
                Some(r) => Some(if t > r { t } else { r }),
            },
        }
    }
}

/// The earliest of the known times, if any is known.
pub open spec fn oldest(ts: Seq<Option<i128>>) -> Option<i128>
    decreases ts.len(),
{
    if ts.len() == 0 {
        None
    } else {
        let rest = oldest(ts.drop_last());
        match ts.last() {
            None => rest,
            Some(t) => match rest {
                None => Some(t),
                Some(r) => Some(if t < r { t } else { r }),
            },
        }
    }
}

/// The newest known modification time.
pub fn newest_timestamp(times: &Vec<Option<i128>>) -> (r: Option<i128>)
    ensures
        r == newest(times@),
{
    let mut best: Option<i128> = None;
    let mut i: usize = 0;
    while i < times.len()
        invariant
            i <= times.len(),
            best == newest(times@.subrange(0, i as int)),
        decreases times.len() - i,
    {
        assert(times@.subrange(0, i + 1).drop_last() =~= times@.subrange(0, i as int));
        match times[i] {
            None => {},
            Some(t) => {
                best = match best {
                    None => Some(t),
                    Some(b) => Some(if t > b { t } else { b }),
                };
            },
        }
        i = i + 1;
    }
    assert(times@.subrange(0, times.len() as int) =~= times@);
    best
}

/// The oldest known modification time.
pub fn oldest_timestamp(times: &Vec<Option<i128>>) -> (r: Option<i128>)
    ensures
        r == oldest(times@),
{
    let mut best: Option<i128> = None;
    let mut i: usize = 0;
    while i < times.len()
        invariant
            i <= times.len(),
            best == oldest(times@.subrange(0, i as int)),
        decreases times.len() - i,
    {
        assert(times@.subrange(0, i + 1).drop_last() =~= times@.subrange(0, i as int));
        match times[i] {
            None => {},
            Some(t) => {
                best = match best {
                    None => Some(t),
                    Some(b) => Some(if t < b { t } else { b }),
                };
            },
        }
        i = i + 1;
    }
    assert(times@.subrange(0, times.len() as int) =~= times@);
    best
}

/// Every declared output pattern resolved to an existing path.
pub open spec fn all_found(found: Seq<bool>) -> bool {
    forall|k: int| 0 <= k < found.len() ==> #[trigger] found[k]
}

/// Whether every declared output exists.
pub fn outputs_exist(found: &Vec<bool>) -> (r: bool)
    ensures
        r == all_found(found@),
{
    let mut i: usize = 0;
    while i < found.len()
        invariant
            i <= found.len(),
            forall|k: int| 0 <= k < i ==> #[trigger] found@[k],
        decreases found.len() - i,
    {
        if !found[i] {
            return false;
        }
        i = i + 1;
    }
    true
}

/// Outputs are out of date when an input is newer than the oldest output,
/// or when either side's times are unknown. Without inputs or outputs there
/// is nothing to compare.
pub open spec fn outdated(t: Task, f: ChangeFacts) -> bool {
    if t.outputs@.len() == 0 || t.inputs@.len() == 0 {
        false
    } else {
        match (f.input_times, f.output_times) {
            (Some(it), Some(ot)) => match (newest(it@), oldest(ot@)) {
                (Some(n), Some(o)) => n > o,
                _ => true,
            },
            _ => true,
        }
    }
}

/// Whether the outputs are older than the inputs.
pub fn outputs_outdated(task: &Task, facts: &ChangeFacts) -> (r: bool)
    ensures
        r == outdated(*task, *facts),
{
    if task.outputs.len() == 0 || task.inputs.len() == 0 {
        return false;
    }
    let n = match &facts.input_times {
        Some(it) => newest_timestamp(it),
        None => None,
    };
    let o = match &facts.output_times {
        Some(ot) => oldest_timestamp(ot),
        None => None,
    };
    match (n, o) {
        (Some(n), Some(o)) => n > o,
        _ => true,
    }
}

/// The decision: run when the task has no inputs, when an output is missing,
/// when outputs are older than inputs, when the inputs cannot be resolved, or
/// when their key is not in the cache.
pub open spec fn must_run(t: Task, f: ChangeFacts, cache: Set<Seq<char>>) -> bool {
    if t.inputs@.len() == 0 {
        true
    } else if !all_found(f.outputs_found@) {
        true
    } else if outdated(t, f) {
        true
    } else {
        match f.input_files {
            None => true,
            Some(fs) => !cache.contains(files_key(fs@)),
        }
    }
}

/// Decides whether a task must run, from the facts gathered for it.
pub fn should_run(task: &Task, facts: ChangeFacts, cache: &Cache) -> (r: bool)
    requires
        facts.input_files matches Some(fs) ==> distinct_paths(fs@),
    ensures
        r == must_run(*task, facts, cache@),
{
    if task.inputs.len() == 0 {
        return true;
    }
    if !outputs_exist(&facts.outputs_found) {
        return true;
    }
    if outputs_outdated(task, &facts) {
        return true;
    }
    match facts.input_files {
        None => true,
        Some(fs) => {
            let key = hash_files(fs);
            !cache.contains(&key)
        },
    }
}

/// A task without declared inputs always runs; a task whose outputs all
/// exist, are no older than its inputs, and whose input key is cached is
/// skipped.
pub proof fn lemma_change_detection(t: Task, f: ChangeFacts, cache: Set<Seq<char>>)
    ensures
        t.inputs@.len() == 0 ==> must_run(t, f, cache),
        (t.inputs@.len() > 0 && all_found(f.outputs_found@) && !outdated(t, f) && (f.input_files
            matches Some(fs) && cache.contains(files_key(fs@)))) ==> !must_run(t, f, cache),
{
}

} // verus!
