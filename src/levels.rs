use vstd::prelude::*;

use crate::graph::{
    acyclic, appears_before, deps_exist, deps_of, has_task, ids_unique, in_order, ranked_by, sort_topologically,
};
use crate::task::Task;
use crate::validate::find_task;

verus! {

/// The tasks of one dependency level, in declaration order.
#[derive(Debug, Clone)]
pub struct ExecutionLevel {
    pub level: usize,
    pub task_ids: Vec<String>,
}

/// The level rule at task `i`: 0 without dependencies, else one more than
/// the highest level among its dependencies.
pub open spec fn level_rule(tasks: Seq<Task>, lv: Seq<usize>, i: int) -> bool {
    let d = deps_of(tasks[i]);
    if d.len() == 0 {
        lv[i] == 0
    } else {
        &&& forall|m: int, j: int|
            0 <= m < d.len() && 0 <= j < tasks.len() && #[trigger] tasks[j].id@ == #[trigger] d[m] ==> lv[j]
                < lv[i]
        &&& exists|m: int, j: int|
            0 <= m < d.len() && 0 <= j < tasks.len() && #[trigger] tasks[j].id@ == #[trigger] d[m] && lv[j]
                + 1 == lv[i]
    }
}

/// The level of every task, by the level rule.
pub open spec fn levels_hold(tasks: Seq<Task>, lv: Seq<usize>) -> bool {
    lv.len() == tasks.len() && forall|i: int| 0 <= i < tasks.len() ==> #[trigger] level_rule(tasks, lv, i)
}

/// Computes each task's level, visiting the tasks in topological order so
/// that every dependency's level is known before it is needed.
pub fn task_levels(tasks: &[Task]) -> (lv: Vec<usize>)
    requires
        ids_unique(tasks@),
        deps_exist(tasks@),
        acyclic(tasks@),
    ensures
        levels_hold(tasks@, lv@),
        forall|i: int| 0 <= i < lv.len() ==> #[trigger] lv@[i] < usize::MAX,
{
    let n = tasks.len();
    let order = sort_topologically(tasks);
    let mut lv: Vec<usize> = Vec::new();
    let mut done: Vec<bool> = Vec::new();
    let mut x: usize = 0;
    while x < n
        invariant
            x <= n,
            lv.len() == x,
            done.len() == x,
            forall|y: int| 0 <= y < x ==> !#[trigger] done@[y],
            forall|y: int| 0 <= y < x ==> #[trigger] lv@[y] == 0,
        decreases n - x,
    {
        lv.push(0);
        done.push(false);
        x = x + 1;
    }
    let mut k: usize = 0;
    while k < order.len()
        invariant
            n == tasks@.len(),
            ids_unique(tasks@),
            deps_exist(tasks@),
            k <= order.len(),
            lv.len() == n,
            done.len() == n,
            forall|q: int| 0 <= q < order.len() ==> has_task(tasks@, #[trigger] order@[q]@),
            forall|a: int, b: int|
                0 <= a < order.len() && 0 <= b < order.len() && a != b ==> #[trigger] order@[a]@
                    != #[trigger] order@[b]@,
            forall|q: int, i: int, m: int|
                0 <= q < order.len() && 0 <= i < tasks@.len() && tasks@[i].id@ == order@[q]@ && 0 <= m
                    < deps_of(tasks@[i]).len() ==> #[trigger] appears_before(
                    order@,
                    q,
                    deps_of(tasks@[i])[m],
                ),
            forall|j: int| 0 <= j < n ==> (#[trigger] done@[j] <==> appears_before(order@, k as int, tasks@[j].id@)),
            forall|j: int| 0 <= j < n && #[trigger] done@[j] ==> lv@[j] < k && level_rule(tasks@, lv@, j),
            forall|j: int| 0 <= j < n ==> #[trigger] lv@[j] < usize::MAX,
        decreases order.len() - k,
    {
        let t = match find_task(tasks, &order[k]) {
            Some(t) => t,
            None => {
                assert(false);
                0
            },
        };
        assert(!done@[t as int]) by {
            if done@[t as int] {
                let q = choose|q: int| 0 <= q < k && #[trigger] order@[q]@ == tasks@[t as int].id@;
            }
        }
        let deps = &tasks[t].dependencies;
        let mut level: usize = 0;
        let mut m: usize = 0;
        while m < deps.len()
            invariant
                n == tasks@.len(),
                ids_unique(tasks@),
                deps_exist(tasks@),
                t < n,
                k < order.len(),
                tasks@[t as int].id@ == order@[k as int]@,
                deps@ == tasks@[t as int].dependencies@,
                lv.len() == n,
                done.len() == n,
                m <= deps.len(),
                level <= k,
                forall|q: int| 0 <= q < deps.len() ==> #[trigger] appears_before(order@, k as int, deps_of(tasks@[t as int])[q]),
                forall|j: int| 0 <= j < n ==> (#[trigger] done@[j] <==> appears_before(order@, k as int, tasks@[j].id@)),
                forall|j: int| 0 <= j < n && #[trigger] done@[j] ==> lv@[j] < k,
                m == 0 ==> level == 0,
                forall|q: int, j: int|
                    0 <= q < m && 0 <= j < n && #[trigger] tasks@[j].id@ == #[trigger] deps_of(tasks@[t as int])[q]
                        ==> lv@[j] < level,
                m > 0 ==> exists|q: int, j: int|
                    0 <= q < m && 0 <= j < n && #[trigger] tasks@[j].id@ == #[trigger] deps_of(tasks@[t as int])[q]
                        && lv@[j] + 1 == level,
            decreases deps.len() - m,
        {
            assert(deps@[m as int]@ == deps_of(tasks@[t as int])[m as int]);
            assert(has_task(tasks@, deps_of(tasks@[t as int])[m as int]));
            let j = match find_task(tasks, &deps[m]) {
                Some(j) => j,
                None => {
                    assert(false);
                    0
                },
            };
            assert(appears_before(order@, k as int, tasks@[j as int].id@));
            assert(done@[j as int]);
            let ghost old_level = level;
            if lv[j] + 1 > level {
                level = lv[j] + 1;
            }
            proof {
                assert forall|q: int, jj: int|
                    0 <= q < m + 1 && 0 <= jj < n && #[trigger] tasks@[jj].id@ == #[trigger] deps_of(tasks@[t as int])[q]
                        implies lv@[jj] < level by {
                    if q == m {
                        assert(jj == j);
                    }
                }
                if level == old_level && m > 0 {
                    let (q, jj) = choose|q: int, jj: int|
                        0 <= q < m && 0 <= jj < n && #[trigger] tasks@[jj].id@ == #[trigger] deps_of(tasks@[t as int])[q]
                            && lv@[jj] + 1 == old_level;
                    assert(tasks@[jj].id@ == deps_of(tasks@[t as int])[q]);
                } else {
                    assert(tasks@[j as int].id@ == deps_of(tasks@[t as int])[m as int]);
                }
            }
            m = m + 1;
        }
        let ghost lv0 = lv@;
        let ghost done0 = done@;
        assert(level < usize::MAX);
        lv.set(t, level);
        done.set(t, true);
        proof {
            assert(deps_of(tasks@[t as int]).len() == deps@.len());
            assert forall|j: int| 0 <= j < n && #[trigger] done@[j] implies lv@[j] < k + 1 && level_rule(tasks@, lv@, j) by {
                if j == t {
                    if deps_of(tasks@[t as int]).len() > 0 {
                        let (q, jj) = choose|q: int, jj: int|
                            0 <= q < deps@.len() && 0 <= jj < n && #[trigger] tasks@[jj].id@ == #[trigger] deps_of(tasks@[t as int])[q]
                                && lv0[jj] + 1 == level;
                        assert(jj != t);
                        assert(lv@[jj] == lv0[jj]);
                    }
                    assert forall|q: int, jj: int|
                        0 <= q < deps_of(tasks@[t as int]).len() && 0 <= jj < n && #[trigger] tasks@[jj].id@ == #[trigger] deps_of(tasks@[t as int])[q]
                            implies lv@[jj] < lv@[t as int] by {
                        assert(appears_before(order@, k as int, tasks@[jj].id@));
                        assert(done0[jj]);
                    }
                } else {
                    assert(done0[j]);
                    assert(level_rule(tasks@, lv0, j));
                    let d = deps_of(tasks@[j]);
                    assert forall|q: int, jj: int|
                        0 <= q < d.len() && 0 <= jj < n && #[trigger] tasks@[jj].id@ == #[trigger] d[q]
                            implies lv@[jj] == lv0[jj] by {
                        let kj = choose|kk: int| 0 <= kk < k && #[trigger] order@[kk]@ == tasks@[j].id@;
                        assert(appears_before(order@, kj, d[q]));
                        let kq = choose|kk: int| 0 <= kk < kj && #[trigger] order@[kk]@ == d[q];
                        assert(appears_before(order@, k as int, tasks@[jj].id@));
                        assert(done0[jj]);
                    }
                    if d.len() > 0 {
                        let (q, jj) = choose|q: int, jj: int|
                            0 <= q < d.len() && 0 <= jj < n && #[trigger] tasks@[jj].id@ == #[trigger] d[q]
                                && lv0[jj] + 1 == lv0[j];
                        assert(lv@[jj] == lv0[jj]);
                    }
                }
            }
            assert forall|j: int| 0 <= j < n implies (#[trigger] done@[j] <==> appears_before(order@, k + 1, tasks@[j].id@)) by {
                if appears_before(order@, k + 1, tasks@[j].id@) && j != t {
                    let q = choose|q: int| 0 <= q < k + 1 && #[trigger] order@[q]@ == tasks@[j].id@;
                    assert(q != k);
                    assert(appears_before(order@, k as int, tasks@[j].id@));
                }
                if j == t {
                    assert(order@[k as int]@ == tasks@[j].id@);
                }
                if done0[j] {
                    let q = choose|q: int| 0 <= q < k && #[trigger] order@[q]@ == tasks@[j].id@;
                    assert(appears_before(order@, k + 1, tasks@[j].id@));
                }
            }
        }
        k = k + 1;
    }
    proof {
        assert forall|i: int| 0 <= i < tasks@.len() implies #[trigger] level_rule(tasks@, lv@, i) by {
            assert(in_order(order@, tasks@[i].id@));
            let q = choose|q: int| 0 <= q < order.len() && #[trigger] order@[q]@ == tasks@[i].id@;
            assert(appears_before(order@, k as int, tasks@[i].id@));
            assert(done@[i]);
        }
    }
    lv
}

/// Some task with this id has level `level`.
pub open spec fn task_at_level(tasks: Seq<Task>, lv: Seq<usize>, id: Seq<char>, level: usize) -> bool {
    exists|x: int| 0 <= x < tasks.len() && #[trigger] tasks[x].id@ == id && lv[x] == level
}

/// `ids` are the ids of the tasks of level `level`, in declaration order;
/// `idx` gives their positions.
pub open spec fn level_positions(
    tasks: Seq<Task>,
    lv: Seq<usize>,
    level: usize,
    ids: Seq<String>,
    idx: Seq<int>,
) -> bool {
    &&& idx.len() == ids.len()
    &&& forall|a: int, b: int| 0 <= a < b < idx.len() ==> #[trigger] idx[a] < #[trigger] idx[b]
    &&& forall|q: int|
        0 <= q < idx.len() ==> 0 <= #[trigger] idx[q] < tasks.len() && lv[idx[q]] == level && tasks[idx[q]].id@
            == ids[q]@
    &&& forall|i: int| 0 <= i < tasks.len() && lv[i] == level ==> exists|q: int| 0 <= q < idx.len() && #[trigger] idx[q] == i
}

/// `ids` are the ids of the tasks of level `level`, in declaration order.
pub open spec fn ids_of_level(tasks: Seq<Task>, lv: Seq<usize>, level: usize, ids: Seq<String>) -> bool {
    exists|idx: Seq<int>| #[trigger] level_positions(tasks, lv, level, ids, idx)
}

/// Group `g` lists the id.
pub open spec fn in_group(levels: Seq<ExecutionLevel>, g: int, id: Seq<char>) -> bool {
    exists|q: int| 0 <= q < levels[g].task_ids@.len() && #[trigger] levels[g].task_ids@[q]@ == id
}

/// `levels` groups the tasks by the levels `lv`: nonempty groups in strictly
/// ascending order of level, each task in the group of its own level.
pub open spec fn grouped_by(tasks: Seq<Task>, lv: Seq<usize>, levels: Seq<ExecutionLevel>) -> bool {
    &&& forall|g: int| 0 <= g < levels.len() ==> #[trigger] levels[g].task_ids@.len() > 0
    &&& forall|g: int, h: int| 0 <= g < h < levels.len() ==> #[trigger] levels[g].level < #[trigger] levels[h].level
    &&& forall|g: int, q: int|
        0 <= g < levels.len() && 0 <= q < levels[g].task_ids@.len() ==> task_at_level(
            tasks,
            lv,
            #[trigger] levels[g].task_ids@[q]@,
            levels[g].level,
        )
    &&& forall|i: int| #![trigger tasks[i]] 0 <= i < tasks.len() ==> exists|g: int|
        0 <= g < levels.len() && levels[g].level == lv[i] && #[trigger] in_group(levels, g, tasks[i].id@)
    &&& forall|g: int| #![trigger levels[g]] 0 <= g < levels.len() ==> ids_of_level(tasks, lv, levels[g].level, levels[g].task_ids@)
}

/// No id is listed twice, within a level or across levels.
pub open spec fn listed_once(levels: Seq<ExecutionLevel>) -> bool {
    forall|g: int, q: int, h: int, p: int|
        0 <= g < levels.len() && 0 <= q < levels[g].task_ids@.len() && 0 <= h < levels.len() && 0 <= p
            < levels[h].task_ids@.len() && (g != h || q != p) ==> #[trigger] levels[g].task_ids@[q]@
            != #[trigger] levels[h].task_ids@[p]@
}

/// In a graph without cycles the level rule has one solution only.
pub proof fn lemma_levels_unique(tasks: Seq<Task>, lv1: Seq<usize>, lv2: Seq<usize>)
    requires
        ids_unique(tasks),
        deps_exist(tasks),
        acyclic(tasks),
        levels_hold(tasks, lv1),
        levels_hold(tasks, lv2),
    ensures
        lv1 == lv2,
{
    let rank = choose|rank: spec_fn(Seq<char>) -> nat| ranked_by(tasks, rank);
    assert forall|i: int| 0 <= i < tasks.len() implies lv1[i] == lv2[i] by {
        lemma_levels_agree_below(tasks, lv1, lv2, rank, rank(tasks[i].id@) + 1);
    }
    assert(lv1 =~= lv2);
}

proof fn lemma_levels_agree_below(
    tasks: Seq<Task>,
    lv1: Seq<usize>,
    lv2: Seq<usize>,
    rank: spec_fn(Seq<char>) -> nat,
    r: nat,
)
    requires
        ids_unique(tasks),
        deps_exist(tasks),
        ranked_by(tasks, rank),
        levels_hold(tasks, lv1),
        levels_hold(tasks, lv2),
    ensures
        forall|i: int| 0 <= i < tasks.len() && rank(#[trigger] tasks[i].id@) < r ==> lv1[i] == lv2[i],
    decreases r,
{
    if r > 0 {
        lemma_levels_agree_below(tasks, lv1, lv2, rank, (r - 1) as nat);
        assert forall|i: int| 0 <= i < tasks.len() && rank(#[trigger] tasks[i].id@) < r implies lv1[i] == lv2[i] by {
            assert(level_rule(tasks, lv1, i));
            assert(level_rule(tasks, lv2, i));
            let d = deps_of(tasks[i]);
            if d.len() > 0 {
                assert forall|m: int, j: int|
                    0 <= m < d.len() && 0 <= j < tasks.len() && #[trigger] tasks[j].id@ == #[trigger] d[m]
                        implies lv1[j] == lv2[j] by {
                    assert(rank(d[m]) < rank(tasks[i].id@));
                }
                let (m1, j1) = choose|m: int, j: int|
                    0 <= m < d.len() && 0 <= j < tasks.len() && #[trigger] tasks[j].id@ == #[trigger] d[m]
                        && lv1[j] + 1 == lv1[i];
                let (m2, j2) = choose|m: int, j: int|
                    0 <= m < d.len() && 0 <= j < tasks.len() && #[trigger] tasks[j].id@ == #[trigger] d[m]
                        && lv2[j] + 1 == lv2[i];
                assert(lv1[j1] == lv2[j1]);
                assert(lv1[j2] == lv2[j2]);
            }
        }
    }
}

/// The tasks of level `level`, in declaration order.
fn tasks_at_level(tasks: &[Task], lv: &Vec<usize>, level: usize) -> (ids: Vec<String>)
    requires
        lv.len() == tasks@.len(),
    ensures
        forall|q: int| 0 <= q < ids.len() ==> task_at_level(tasks@, lv@, #[trigger] ids@[q]@, level),
        forall|i: int| 0 <= i < tasks@.len() && lv@[i] == level ==> exists|q: int|
            0 <= q < ids.len() && #[trigger] ids@[q]@ == tasks@[i].id@,
        ids_of_level(tasks@, lv@, level, ids@),
{
    let mut ids: Vec<String> = Vec::new();
    let ghost mut idx: Seq<int> = Seq::empty();
    let mut i: usize = 0;
    while i < tasks.len()
        invariant
            lv.len() == tasks@.len(),
            i <= tasks@.len(),
            forall|q: int| 0 <= q < ids.len() ==> task_at_level(tasks@, lv@, #[trigger] ids@[q]@, level),
            forall|x: int| 0 <= x < i && lv@[x] == level ==> exists|q: int|
                0 <= q < ids.len() && #[trigger] ids@[q]@ == tasks@[x].id@,
            idx.len() == ids@.len(),
            forall|a: int, b: int| 0 <= a < b < idx.len() ==> #[trigger] idx[a] < #[trigger] idx[b],
            forall|q: int|
                0 <= q < idx.len() ==> 0 <= #[trigger] idx[q] < i && lv@[idx[q]] == level && tasks@[idx[q]].id@
                    == ids@[q]@,
            forall|x: int| 0 <= x < i && lv@[x] == level ==> exists|q: int| 0 <= q < idx.len() && #[trigger] idx[q] == x,
        decreases tasks@.len() - i,
    {
        if lv[i] == level {
            let ghost old_ids = ids@;
            let ghost old_idx = idx;
            ids.push(tasks[i].id.clone());
            proof {
                idx = idx.push(i as int);
                assert forall|q: int|
                    0 <= q < idx.len() implies 0 <= #[trigger] idx[q] < i + 1 && lv@[idx[q]] == level
                        && tasks@[idx[q]].id@ == ids@[q]@ by {
                    if q < old_idx.len() {
                        assert(idx[q] == old_idx[q] && ids@[q] == old_ids[q]);
                    }
                }
                assert forall|x: int| 0 <= x < i + 1 && lv@[x] == level implies exists|q: int|
                    0 <= q < idx.len() && #[trigger] idx[q] == x by {
                    if x < i {
                        let q = choose|q: int| 0 <= q < old_idx.len() && #[trigger] old_idx[q] == x;
                        assert(idx[q] == old_idx[q]);
                    } else {
                        assert(idx[idx.len() - 1] == x);
                    }
                }
                assert(ids@[ids.len() - 1]@ == tasks@[i as int].id@);
                assert forall|q: int| 0 <= q < ids.len() implies task_at_level(tasks@, lv@, #[trigger] ids@[q]@, level) by {
                    if q < old_ids.len() {
                        assert(ids@[q] == old_ids[q]);
                    } else {
                        assert(tasks@[i as int].id@ == ids@[q]@);
                    }
                }
                assert forall|x: int| 0 <= x < i + 1 && lv@[x] == level implies exists|q: int|
                    0 <= q < ids.len() && #[trigger] ids@[q]@ == tasks@[x].id@ by {
                    if x < i {
                        let q = choose|q: int| 0 <= q < old_ids.len() && #[trigger] old_ids[q]@ == tasks@[x].id@;
                        assert(ids@[q] == old_ids[q]);
                    }
                }
            }
        }
        i = i + 1;
    }
    assert(level_positions(tasks@, lv@, level, ids@, idx));
    ids
}

/// Partitions the tasks into dependency levels, ascending; within a level the
/// tasks keep their declaration order.
pub fn calculate_dependency_levels(tasks: &[Task]) -> (levels: Vec<ExecutionLevel>)
    requires
        ids_unique(tasks@),
        deps_exist(tasks@),
        acyclic(tasks@),
    ensures
        exists|lv: Seq<usize>| levels_hold(tasks@, lv) && #[trigger] grouped_by(tasks@, lv, levels@),
        listed_once(levels@),
{
    let lv = task_levels(tasks);
    let mut top: usize = 0;
    let mut i: usize = 0;
    while i < lv.len()
        invariant
            i <= lv.len(),
            forall|x: int| 0 <= x < i ==> lv@[x] <= top,
            forall|x: int| 0 <= x < lv.len() ==> #[trigger] lv@[x] < usize::MAX,
            top < usize::MAX,
        decreases lv.len() - i,
    {
        if lv[i] > top {
            top = lv[i];
        }
        i = i + 1;
    }
    let mut levels: Vec<ExecutionLevel> = Vec::new();
    let mut l: usize = 0;
    while l <= top
        invariant
            lv.len() == tasks@.len(),
            top < usize::MAX,
            l <= top + 1,
            forall|x: int| 0 <= x < lv.len() ==> lv@[x] <= top,
            forall|g: int| 0 <= g < levels.len() ==> #[trigger] levels@[g].task_ids@.len() > 0,
            forall|g: int| 0 <= g < levels.len() ==> #[trigger] levels@[g].level < l,
            forall|g: int, h: int| 0 <= g < h < levels.len() ==> #[trigger] levels@[g].level < #[trigger] levels@[h].level,
            forall|g: int, q: int|
                0 <= g < levels.len() && 0 <= q < levels@[g].task_ids@.len() ==> task_at_level(
                    tasks@,
                    lv@,
                    #[trigger] levels@[g].task_ids@[q]@,
                    levels@[g].level,
                ),
            forall|x: int| #![trigger tasks@[x]] 0 <= x < tasks@.len() && lv@[x] < l ==> exists|g: int|
                0 <= g < levels.len() && levels@[g].level == lv@[x] && #[trigger] in_group(levels@, g, tasks@[x].id@),
            forall|g: int| #![trigger levels@[g]] 0 <= g < levels.len() ==> ids_of_level(tasks@, lv@, levels@[g].level, levels@[g].task_ids@),
        decreases top + 1 - l,
    {
        let ids = tasks_at_level(tasks, &lv, l);
        if ids.len() > 0 {
            let ghost old = levels@;
            let ghost ids_v = ids@;
            levels.push(ExecutionLevel { level: l, task_ids: ids });
            proof {
                let g = levels.len() - 1;
                assert forall|x: int| #![trigger tasks@[x]] 0 <= x < tasks@.len() && lv@[x] < l + 1 implies exists|h: int|
                    0 <= h < levels.len() && levels@[h].level == lv@[x] && #[trigger] in_group(levels@, h, tasks@[x].id@) by {
                    if lv@[x] == l {
                        let q = choose|q: int| 0 <= q < ids.len() && #[trigger] ids@[q]@ == tasks@[x].id@;
                        assert(levels@[g].task_ids@[q]@ == tasks@[x].id@);
                        assert(in_group(levels@, g, tasks@[x].id@));
                    } else {
                        let h = choose|h: int|
                            0 <= h < old.len() && old[h].level == lv@[x] && #[trigger] in_group(old, h, tasks@[x].id@);
                        assert(levels@[h] == old[h]);
                        assert(in_group(levels@, h, tasks@[x].id@));
                    }
                }
                assert forall|g: int| #![trigger levels@[g]] 0 <= g < levels.len() implies ids_of_level(tasks@, lv@, levels@[g].level, levels@[g].task_ids@) by {
                    if g < old.len() {
                        assert(levels@[g] == old[g]);
                        let idx = choose|idx: Seq<int>|
                            #[trigger] level_positions(tasks@, lv@, old[g].level, old[g].task_ids@, idx);
                        assert(level_positions(tasks@, lv@, levels@[g].level, levels@[g].task_ids@, idx));
                    } else {
                        assert(levels@[g].task_ids@ == ids_v && levels@[g].level == l);
                        let idx = choose|idx: Seq<int>| #[trigger] level_positions(tasks@, lv@, l, ids_v, idx);
                        assert(level_positions(tasks@, lv@, levels@[g].level, levels@[g].task_ids@, idx));
                    }
                }
                assert forall|g: int, q: int|
                    0 <= g < levels.len() && 0 <= q < levels@[g].task_ids@.len() implies task_at_level(
                        tasks@,
                        lv@,
                        #[trigger] levels@[g].task_ids@[q]@,
                        levels@[g].level,
                    ) by {
                    if g < old.len() {
                        assert(levels@[g] == old[g]);
                    } else {
                        assert(levels@[g].task_ids@[q] == ids@[q]);
                    }
                }
            }
        } else {
            proof {
                assert forall|g: int| #![trigger levels@[g]] 0 <= g < levels.len() implies ids_of_level(tasks@, lv@, levels@[g].level, levels@[g].task_ids@) by {
                    let idx = choose|idx: Seq<int>|
                        #[trigger] level_positions(tasks@, lv@, levels@[g].level, levels@[g].task_ids@, idx);
                }
                assert forall|x: int| #![trigger tasks@[x]] 0 <= x < tasks@.len() && lv@[x] < l + 1 implies exists|h: int|
                    0 <= h < levels.len() && levels@[h].level == lv@[x] && #[trigger] in_group(levels@, h, tasks@[x].id@) by {
                    if lv@[x] == l {
                        let q = choose|q: int| 0 <= q < ids.len() && #[trigger] ids@[q]@ == tasks@[x].id@;
                    }
                }
            }
        }
        l = l + 1;
    }
    assert(grouped_by(tasks@, lv@, levels@));
    proof {
        assert forall|g: int, q: int, h: int, p: int|
            0 <= g < levels@.len() && 0 <= q < levels@[g].task_ids@.len() && 0 <= h < levels@.len() && 0 <= p
                < levels@[h].task_ids@.len() && (g != h || q != p) implies #[trigger] levels@[g].task_ids@[q]@
                != #[trigger] levels@[h].task_ids@[p]@ by {
            assert(ids_of_level(tasks@, lv@, levels@[g].level, levels@[g].task_ids@));
            assert(ids_of_level(tasks@, lv@, levels@[h].level, levels@[h].task_ids@));
            let ig = choose|idx: Seq<int>| #[trigger] level_positions(tasks@, lv@, levels@[g].level, levels@[g].task_ids@, idx);
            let ih = choose|idx: Seq<int>| #[trigger] level_positions(tasks@, lv@, levels@[h].level, levels@[h].task_ids@, idx);
            assert(0 <= ig[q] < tasks@.len() && lv@[ig[q]] == levels@[g].level && tasks@[ig[q]].id@ == levels@[g].task_ids@[q]@);
            assert(0 <= ih[p] < tasks@.len() && lv@[ih[p]] == levels@[h].level && tasks@[ih[p]].id@ == levels@[h].task_ids@[p]@);
            if g == h {
                assert(ig == ih);
                if q < p {
                    assert(ig[q] < ig[p]);
                } else {
                    assert(ig[p] < ig[q]);
                }
            } else if g < h {
                assert(levels@[g].level < levels@[h].level);
            } else {
                assert(levels@[h].level < levels@[g].level);
            }
            assert(ig[q] != ih[p]);
        }
    }
    levels
}

} // verus!
