use vstd::prelude::*;

use crate::substitute::{substitute_variables_in_task, substituted_task};
use crate::task::{CompiError, Task};
use crate::validate::{valid_graph, validate_tasks};

verus! {

/// The global section of a configuration.
#[derive(Debug, Clone)]
pub struct ConfigSection {
    pub default: Option<String>,
    pub cache_dir: Option<String>,
    pub workers: Option<usize>,
    pub default_timeout: Option<String>,
}

/// A validated configuration.
#[derive(Debug, Clone)]
pub struct TaskConfiguration {
    pub tasks: Vec<Task>,
    pub default_task: Option<String>,
    pub cache_dir: Option<String>,
    pub workers: Option<usize>,
    pub default_timeout: Option<String>,
}

/// A declared task takes its declaration key as id when it sets none.
pub open spec fn named(key: String, t: Task) -> Task {
    if t.id@.len() == 0 {
        Task { id: key, ..t }
    } else {
        t
    }
}

/// `t` is the task declared as `(key, before)` once its variables are
/// substituted and its id settled.
pub open spec fn settled(key: String, before: Task, t: Task, vars: Seq<(String, String)>) -> bool {
    exists|s: Task| substituted_task(before, s, vars) && t == #[trigger] named(key, s)
}

/// Each task is the settled form of the declaration at its position.
pub open spec fn settled_all(declared: Seq<(String, Task)>, tasks: Seq<Task>, vars: Seq<(String, String)>) -> bool {
    tasks.len() == declared.len() && forall|k: int|
        0 <= k < tasks.len() ==> settled(declared[k].0, declared[k].1, #[trigger] tasks[k], vars)
}

/// Builds the task graph from the declared tasks (declaration key and
/// record), the variables, and the global section: substitutes variables,
/// settles ids, and validates the graph.
pub fn load_tasks(
    declared: Vec<(String, Task)>,
    section: ConfigSection,
    variables: &Vec<(String, String)>,
) -> (r: Result<TaskConfiguration, CompiError>)
    ensures
        r matches Ok(c) ==> settled_all(declared@, c.tasks@, variables@) && valid_graph(c.tasks@)
            && c.default_task == section.default && c.cache_dir == section.cache_dir && c.workers
            == section.workers && c.default_timeout == section.default_timeout,
        r matches Err(e) ==> e is Dependency && exists|ts: Seq<Task>|
            #[trigger] settled_all(declared@, ts, variables@) && !valid_graph(ts),
{
    let ghost all = declared@;
    let n = declared.len();
    let mut rest = declared;
    let mut tasks: Vec<Task> = Vec::new();
    let mut k: usize = 0;
    while rest.len() > 0
        invariant
            k + rest@.len() == all.len(),
            all.len() == n,
            rest@ == all.skip(k as int),
            tasks@.len() == k,
            forall|q: int| 0 <= q < k ==> settled(all[q].0, all[q].1, #[trigger] tasks@[q], variables@),
        decreases rest.len(),
    {
        let (key, mut task) = rest.remove(0);
        let ghost before = task;
        assert(all[k as int] == (key, before));
        substitute_variables_in_task(&mut task, variables);
        let ghost after = task;
        if task.id.unicode_len() == 0 {
            task.id = key;
        }
        assert(task == named(key, after));
        tasks.push(task);
        proof {
            assert(rest@ =~= all.skip(k + 1));
            assert(settled(all[k as int].0, all[k as int].1, tasks@[k as int], variables@));
        }
        k = k + 1;
    }
    assert(settled_all(all, tasks@, variables@));
    match validate_tasks(tasks.as_slice()) {
        Err(e) => Err(e),
        Ok(()) => Ok(
            TaskConfiguration {
                tasks,
                default_task: section.default,
                cache_dir: section.cache_dir,
                workers: section.workers,
                default_timeout: section.default_timeout,
            },
        ),
    }
}

} // verus!
