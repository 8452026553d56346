use vstd::prelude::*;

use crate::graph::{
    acyclic, deps_exist, deps_of, has_task, ids_unique, in_order, ranked_by, sort_topologically,
    appears_before, count_true, lemma_count_true_bound, lemma_count_true_set,
};
use crate::task::{CompiError, DependencyError, Task};

verus! {

/// Task `a` lists `b` among its dependencies.
pub open spec fn depends_on(tasks: Seq<Task>, a: Seq<char>, b: Seq<char>) -> bool {
    exists|i: int, m: int|
        0 <= i < tasks.len() && 0 <= m < deps_of(tasks[i]).len() && #[trigger] tasks[i].id@ == a
            && #[trigger] deps_of(tasks[i])[m] == b
}

/// A walk along dependency edges whose last node occurs earlier in it.
pub open spec fn is_cycle_report(tasks: Seq<Task>, path: Seq<Seq<char>>) -> bool {
    &&& path.len() >= 2
    &&& forall|k: int| 0 <= k < path.len() - 1 ==> depends_on(tasks, #[trigger] path[k], path[k + 1])
    &&& exists|s: int| 0 <= s < path.len() - 1 && #[trigger] path[s] == path.last()
}

/// The alias at position `a` of task `i`.
pub open spec fn alias_at(tasks: Seq<Task>, i: int, a: int) -> Seq<char> {
    tasks[i].aliases@[a]@
}

/// A valid alias position.
pub open spec fn alias_pos(tasks: Seq<Task>, i: int, a: int) -> bool {
    0 <= i < tasks.len() && 0 <= a < tasks[i].aliases@.len()
}

/// Aliases are disjoint from task ids and pairwise distinct.
pub open spec fn aliases_valid(tasks: Seq<Task>) -> bool {
    &&& forall|i: int, a: int| alias_pos(tasks, i, a) ==> !has_task(tasks, #[trigger] alias_at(tasks, i, a))
    &&& forall|i: int, a: int, j: int, b: int|
        alias_pos(tasks, i, a) && alias_pos(tasks, j, b) && (i != j || a != b) ==> #[trigger] alias_at(
            tasks,
            i,
            a,
        ) != #[trigger] alias_at(tasks, j, b)
}

/// No task lists itself as a dependency.
pub open spec fn no_self_dependency(tasks: Seq<Task>) -> bool {
    forall|i: int, m: int|
        0 <= i < tasks.len() && 0 <= m < deps_of(tasks[i]).len() ==> #[trigger] deps_of(tasks[i])[m]
            != tasks[i].id@
}

/// The checks that come before cycle detection.
pub open spec fn structurally_valid(tasks: Seq<Task>) -> bool {
    &&& ids_unique(tasks)
    &&& no_self_dependency(tasks)
    &&& deps_exist(tasks)
    &&& aliases_valid(tasks)
}

/// A task graph that the engine accepts.
pub open spec fn valid_graph(tasks: Seq<Task>) -> bool {
    structurally_valid(tasks) && acyclic(tasks)
}

/// What each error claims of the graph.
pub open spec fn error_holds(tasks: Seq<Task>, e: DependencyError) -> bool {
    match e {
        DependencyError::DuplicateId { id } => exists|i: int, j: int|
            0 <= i < j < tasks.len() && #[trigger] tasks[i].id@ == id@ && #[trigger] tasks[j].id@ == id@,
        DependencyError::SelfDependency { task } => exists|i: int, m: int|
            0 <= i < tasks.len() && 0 <= m < deps_of(tasks[i]).len() && #[trigger] tasks[i].id@ == task@
                && #[trigger] deps_of(tasks[i])[m] == task@,
        DependencyError::MissingDependency { task, dependency } => depends_on(
            tasks,
            task@,
            dependency@,
        ) && !has_task(tasks, dependency@),
        DependencyError::AliasShadowsId { task, alias } => has_task(tasks, alias@) && exists|i: int, a: int|
            alias_pos(tasks, i, a) && #[trigger] tasks[i].id@ == task@ && #[trigger] alias_at(tasks, i, a) == alias@,
        DependencyError::DuplicateAlias { task, alias, other } => exists|i: int, a: int, j: int, b: int|
            alias_pos(tasks, i, a) && alias_pos(tasks, j, b) && (i != j || a != b) && tasks[i].id@
                == task@ && tasks[j].id@ == other@ && #[trigger] alias_at(tasks, i, a) == alias@
                && #[trigger] alias_at(tasks, j, b) == alias@,
        DependencyError::Cycle { path } => structurally_valid(tasks) && is_cycle_report(
            tasks,
            path@.map_values(|s: String| s@),
        ),
    }
}

/// Along a walk of dependency edges, the rank strictly decreases.
proof fn lemma_rank_decreases(
    tasks: Seq<Task>,
    rank: spec_fn(Seq<char>) -> nat,
    path: Seq<Seq<char>>,
    s: int,
    t: int,
)
    requires
        ranked_by(tasks, rank),
        0 <= s < t < path.len(),
        forall|k: int| 0 <= k < path.len() - 1 ==> depends_on(tasks, #[trigger] path[k], path[k + 1]),
    ensures
        rank(path[t]) < rank(path[s]),
    decreases t - s,
{
    assert(depends_on(tasks, path[t - 1], path[t]));
    let (i, m) = choose|i: int, m: int|
        0 <= i < tasks.len() && 0 <= m < deps_of(tasks[i]).len() && #[trigger] tasks[i].id@ == path[t - 1]
            && #[trigger] deps_of(tasks[i])[m] == path[t];
    if s < t - 1 {
        lemma_rank_decreases(tasks, rank, path, s, t - 1);
    }
}

/// A graph with a cycle report is not acyclic.
pub proof fn lemma_cycle_not_acyclic(tasks: Seq<Task>, path: Seq<Seq<char>>)
    requires
        is_cycle_report(tasks, path),
    ensures
        !acyclic(tasks),
{
    if acyclic(tasks) {
        let rank = choose|rank: spec_fn(Seq<char>) -> nat| ranked_by(tasks, rank);
        let s = choose|s: int| 0 <= s < path.len() - 1 && #[trigger] path[s] == path.last();
        lemma_rank_decreases(tasks, rank, path, s, path.len() - 1);
    }
}

/// A graph in which some walk along dependency edges returns to a task on
/// it is not valid, so `validate_tasks` rejects it.
pub proof fn lemma_cycle_rejected(tasks: Seq<Task>, path: Seq<Seq<char>>)
    requires
        is_cycle_report(tasks, path),
    ensures
        !valid_graph(tasks),
{
    lemma_cycle_not_acyclic(tasks, path);
}

/// Task `x` reaches no cycle within `n` rounds: it names a task, and every
/// dependency of that task does so within `n - 1` rounds.
pub open spec fn grounded_within(tasks: Seq<Task>, x: Seq<char>, n: nat) -> bool
    decreases n,
{
    n > 0 && has_task(tasks, x) && forall|i: int, m: int|
        0 <= i < tasks.len() && tasks[i].id@ == x && 0 <= m < deps_of(tasks[i]).len() ==> grounded_within(
            tasks,
            #[trigger] deps_of(tasks[i])[m],
            (n - 1) as nat,
        )
}

/// Task `x` neither lies on a dependency cycle nor leads into one.
pub open spec fn grounded(tasks: Seq<Task>, x: Seq<char>) -> bool {
    exists|n: nat| #[trigger] grounded_within(tasks, x, n)
}

/// `b` is the first dependency of task `a`, in declaration order, that lies
/// on or leads into a cycle.
pub open spec fn first_cycle_step(tasks: Seq<Task>, a: Seq<char>, b: Seq<char>) -> bool {
    exists|i: int, m: int|
        0 <= i < tasks.len() && 0 <= m < deps_of(tasks[i]).len() && #[trigger] tasks[i].id@ == a
            && #[trigger] deps_of(tasks[i])[m] == b && !grounded(tasks, b) && forall|q: int|
            0 <= q < m ==> grounded(tasks, #[trigger] deps_of(tasks[i])[q])
}

/// The depth-first cycle report: it starts at the first task, in list order,
/// that lies on or leads into a cycle; each step goes to the first
/// dependency that does too; it stops at the first task met twice, which it
/// repeats at the end.
pub open spec fn dfs_cycle_report(tasks: Seq<Task>, path: Seq<Seq<char>>) -> bool {
    &&& path.len() >= 2
    &&& exists|i: int|
        0 <= i < tasks.len() && #[trigger] tasks[i].id@ == path[0] && !grounded(tasks, path[0]) && forall|j: int|
            0 <= j < i ==> grounded(tasks, #[trigger] tasks[j].id@)
    &&& forall|k: int| 0 <= k < path.len() - 1 ==> first_cycle_step(tasks, #[trigger] path[k], path[k + 1])
    &&& forall|a: int, b: int| 0 <= a < b < path.len() - 1 ==> #[trigger] path[a] != #[trigger] path[b]
    &&& exists|s: int| 0 <= s < path.len() - 1 && #[trigger] path[s] == path.last()
}

proof fn lemma_grounded_monotone(tasks: Seq<Task>, x: Seq<char>, n: nat, m: nat)
    requires
        grounded_within(tasks, x, n),
        n <= m,
    ensures
        grounded_within(tasks, x, m),
    decreases n,
{
    assert forall|i: int, q: int|
        0 <= i < tasks.len() && tasks[i].id@ == x && 0 <= q < deps_of(tasks[i]).len() implies grounded_within(
        tasks,
        #[trigger] deps_of(tasks[i])[q],
        (m - 1) as nat,
    ) by {
        lemma_grounded_monotone(tasks, deps_of(tasks[i])[q], (n - 1) as nat, (m - 1) as nat);
    }
}

/// A task that the topological sort leaves out is not grounded.
proof fn lemma_unplaced_not_grounded(tasks: Seq<Task>, order: Seq<String>, n: nat)
    requires
        stuck(tasks, order),
        deps_exist(tasks),
    ensures
        forall|i: int|
            0 <= i < tasks.len() && !in_order(order, #[trigger] tasks[i].id@) ==> !grounded_within(
                tasks,
                tasks[i].id@,
                n,
            ),
    decreases n,
{
    reveal(stuck);
    if n > 0 {
        lemma_unplaced_not_grounded(tasks, order, (n - 1) as nat);
        assert forall|i: int|
            0 <= i < tasks.len() && !in_order(order, #[trigger] tasks[i].id@) implies !grounded_within(
            tasks,
            tasks[i].id@,
            n,
        ) by {
            let m = choose|m: int|
                0 <= m < deps_of(tasks[i]).len() && !in_order(order, #[trigger] deps_of(tasks[i])[m]);
            let d = deps_of(tasks[i])[m];
            assert(has_task(tasks, d));
            let j = choose|j: int| 0 <= j < tasks.len() && #[trigger] tasks[j].id@ == d;
            assert(!grounded_within(tasks, tasks[j].id@, (n - 1) as nat));
        }
    }
}

/// A task placed at position `k` by the topological sort is grounded.
proof fn lemma_placed_grounded(tasks: Seq<Task>, order: Seq<String>, k: int)
    requires
        0 <= k < order.len(),
        forall|q: int| 0 <= q < order.len() ==> has_task(tasks, #[trigger] order[q]@),
        forall|q: int, i: int, m: int|
            0 <= q < order.len() && 0 <= i < tasks.len() && tasks[i].id@ == order[q]@ && 0 <= m
                < deps_of(tasks[i]).len() ==> #[trigger] appears_before(order, q, deps_of(tasks[i])[m]),
    ensures
        grounded_within(tasks, order[k]@, (k + 1) as nat),
    decreases k,
{
    assert forall|i: int, m: int|
        0 <= i < tasks.len() && tasks[i].id@ == order[k]@ && 0 <= m < deps_of(tasks[i]).len() implies grounded_within(
        tasks,
        #[trigger] deps_of(tasks[i])[m],
        k as nat,
    ) by {
        assert(appears_before(order, k, deps_of(tasks[i])[m]));
        let j = choose|j: int| 0 <= j < k && #[trigger] order[j]@ == deps_of(tasks[i])[m];
        lemma_placed_grounded(tasks, order, j);
        lemma_grounded_monotone(tasks, order[j]@, (j + 1) as nat, k as nat);
    }
}

/// The topological sort places exactly the grounded tasks.
proof fn lemma_order_is_grounded(tasks: Seq<Task>, order: Seq<String>)
    requires
        deps_exist(tasks),
        stuck(tasks, order),
        forall|q: int| 0 <= q < order.len() ==> has_task(tasks, #[trigger] order[q]@),
        forall|q: int, i: int, m: int|
            0 <= q < order.len() && 0 <= i < tasks.len() && tasks[i].id@ == order[q]@ && 0 <= m
                < deps_of(tasks[i]).len() ==> #[trigger] appears_before(order, q, deps_of(tasks[i])[m]),
    ensures
        forall|x: Seq<char>| has_task(tasks, x) ==> (in_order(order, x) <==> #[trigger] grounded(tasks, x)),
{
    assert forall|x: Seq<char>| has_task(tasks, x) implies (in_order(order, x) <==> #[trigger] grounded(tasks, x)) by {
        let i = choose|i: int| 0 <= i < tasks.len() && #[trigger] tasks[i].id@ == x;
        if in_order(order, x) {
            let k = choose|k: int| 0 <= k < order.len() && #[trigger] order[k]@ == x;
            lemma_placed_grounded(tasks, order, k);
            assert(grounded_within(tasks, x, (k + 1) as nat));
        } else {
            assert forall|n: nat| !#[trigger] grounded_within(tasks, x, n) by {
                lemma_unplaced_not_grounded(tasks, order, n);
                assert(!in_order(order, tasks[i].id@));
            }
        }
    }
}

/// The walk through unplaced dependencies, from the first unplaced task, is
/// the depth-first cycle report.
proof fn lemma_walk_is_dfs(tasks: Seq<Task>, order: Seq<String>, path: Seq<Seq<char>>, start: int)
    requires
        deps_exist(tasks),
        0 <= start < tasks.len(),
        path.len() >= 1 && path[0] == tasks[start].id@,
        !in_order(order, tasks[start].id@),
        forall|j: int| 0 <= j < start ==> in_order(order, #[trigger] tasks[j].id@),
        walk_report(tasks, order, path),
        forall|x: Seq<char>| has_task(tasks, x) ==> (in_order(order, x) <==> #[trigger] grounded(tasks, x)),
    ensures
        dfs_cycle_report(tasks, path),
{
    assert(has_task(tasks, tasks[start].id@));
    assert forall|j: int| 0 <= j < start implies grounded(tasks, #[trigger] tasks[j].id@) by {
        assert(has_task(tasks, tasks[j].id@));
    }
    assert forall|k: int| 0 <= k < path.len() - 1 implies first_cycle_step(tasks, #[trigger] path[k], path[k + 1]) by {
        assert(first_step(tasks, order, path[k], path[k + 1]));
        let (i, m) = choose|i: int, m: int|
            0 <= i < tasks.len() && 0 <= m < deps_of(tasks[i]).len() && #[trigger] tasks[i].id@ == path[k]
                && #[trigger] deps_of(tasks[i])[m] == path[k + 1] && !in_order(order, path[k + 1]) && forall|q: int|
                0 <= q < m ==> in_order(order, #[trigger] deps_of(tasks[i])[q]);
        assert(has_task(tasks, deps_of(tasks[i])[m]));
        assert forall|q: int| 0 <= q < m implies grounded(tasks, #[trigger] deps_of(tasks[i])[q]) by {
            assert(has_task(tasks, deps_of(tasks[i])[q]));
            assert(in_order(order, deps_of(tasks[i])[q]));
        }
    }
}

/// Whether `v` holds an entry equal to `x`.
fn contains_string(v: &Vec<String>, x: &String) -> (r: bool)
    ensures
        r == in_order(v@, x@),
{
    let mut k: usize = 0;
    while k < v.len()
        invariant
            k <= v.len(),
            forall|j: int| 0 <= j < k ==> #[trigger] v@[j]@ != x@,
        decreases v.len() - k,
    {
        if v[k] == *x {
            assert(v@[k as int]@ == x@);
            return true;
        }
        k = k + 1;
    }
    false
}

/// The position of the task carrying `id`, if any.
pub fn find_task(tasks: &[Task], id: &String) -> (r: Option<usize>)
    ensures
        r matches Some(i) ==> i < tasks@.len() && tasks@[i as int].id@ == id@,
        r is None <==> !has_task(tasks@, id@),
{
    let mut k: usize = 0;
    while k < tasks.len()
        invariant
            k <= tasks@.len(),
            forall|j: int| 0 <= j < k ==> #[trigger] tasks@[j].id@ != id@,
        decreases tasks@.len() - k,
    {
        if tasks[k].id == *id {
            return Some(k);
        }
        k = k + 1;
    }
    None
}

/// `b` is the first dependency of task `a`, in declaration order, that
/// `order` leaves out.
pub open spec fn first_step(tasks: Seq<Task>, order: Seq<String>, a: Seq<char>, b: Seq<char>) -> bool {
    exists|i: int, m: int|
        0 <= i < tasks.len() && 0 <= m < deps_of(tasks[i]).len() && #[trigger] tasks[i].id@ == a
            && #[trigger] deps_of(tasks[i])[m] == b && !in_order(order, b) && forall|q: int|
            0 <= q < m ==> in_order(order, #[trigger] deps_of(tasks[i])[q])
}

/// The walk goes from its `a`-th task to the first dependency of it that
/// `order` leaves out.
pub open spec fn edge_at(tasks: Seq<Task>, order: Seq<String>, walk: Seq<usize>, a: int) -> bool {
    first_step(tasks, order, tasks[walk[a] as int].id@, tasks[walk[a + 1] as int].id@)
}

/// A walk that always takes the first dependency left out of `order`, with
/// no task twice before its last node, which closes the loop.
pub open spec fn walk_report(tasks: Seq<Task>, order: Seq<String>, path: Seq<Seq<char>>) -> bool {
    &&& path.len() >= 2
    &&& forall|k: int| 0 <= k < path.len() - 1 ==> first_step(tasks, order, #[trigger] path[k], path[k + 1])
    &&& forall|a: int, b: int| 0 <= a < b < path.len() - 1 ==> #[trigger] path[a] != #[trigger] path[b]
    &&& exists|s: int| 0 <= s < path.len() - 1 && #[trigger] path[s] == path.last()
}

/// Every task missing from `order` has a dependency missing from it too.
#[verifier::opaque]
pub open spec fn stuck(tasks: Seq<Task>, order: Seq<String>) -> bool {
    forall|i: int|
        0 <= i < tasks.len() && !in_order(order, #[trigger] tasks[i].id@) ==> exists|m: int|
            0 <= m < deps_of(tasks[i]).len() && !in_order(order, #[trigger] deps_of(tasks[i])[m])
}

/// A dependency of task `cur` that the topological sort could not place,
/// given as the position of the task that carries it.
fn unplaced_dependency(tasks: &[Task], order: &Vec<String>, cur: usize) -> (next: usize)
    requires
        deps_exist(tasks@),
        cur < tasks@.len(),
        stuck(tasks@, order@),
        !in_order(order@, tasks@[cur as int].id@),
    ensures
        next < tasks@.len(),
        first_step(tasks@, order@, tasks@[cur as int].id@, tasks@[next as int].id@),
        !in_order(order@, tasks@[next as int].id@),
{
    proof {
        reveal(stuck);
    }
    let deps = &tasks[cur].dependencies;
    let mut m: usize = 0;
    while m < deps.len() && contains_string(order, &deps[m])
        invariant
            deps@ == tasks@[cur as int].dependencies@,
            m <= deps.len(),
            forall|q: int| 0 <= q < m ==> in_order(order@, #[trigger] deps_of(tasks@[cur as int])[q]),
        decreases deps.len() - m,
    {
        m = m + 1;
    }
    if m >= deps.len() {
        proof {
            let q = choose|q: int|
                0 <= q < deps_of(tasks@[cur as int]).len() && !in_order(
                    order@,
                    #[trigger] deps_of(tasks@[cur as int])[q],
                );
        }
        assert(false);
    }
    let ghost dep_id = deps_of(tasks@[cur as int])[m as int];
    assert(deps@[m as int]@ == dep_id);
    assert(has_task(tasks@, dep_id));
    match find_task(tasks, &deps[m]) {
        Some(j) => {
            assert(first_step(tasks@, order@, tasks@[cur as int].id@, tasks@[j as int].id@));
            j
        },
        None => {
            assert(false);
            0
        },
    }
}

/// The ids along `walk`, then the id of `next`, which lies on the walk.
fn cycle_report(tasks: &[Task], order: &Vec<String>, walk: &Vec<usize>, next: usize) -> (report: Vec<String>)
    requires
        ids_unique(tasks@),
        walk.len() >= 1,
        next < tasks@.len(),
        walk@.contains(next),
        forall|a: int| 0 <= a < walk.len() ==> #[trigger] walk@[a] < tasks@.len(),
        forall|a: int, b: int| 0 <= a < b < walk.len() ==> #[trigger] walk@[a] != #[trigger] walk@[b],
        forall|a: int|
            0 <= a < walk.len() - 1 ==> #[trigger] edge_at(tasks@, order@, walk@, a),
        first_step(tasks@, order@, tasks@[walk@.last() as int].id@, tasks@[next as int].id@),
    ensures
        is_cycle_report(tasks@, report@.map_values(|s: String| s@)),
        walk_report(tasks@, order@, report@.map_values(|s: String| s@)),
        report@.len() >= 1 && report@[0]@ == tasks@[walk@[0] as int].id@,
{
    let ghost w = walk@;
    let n = tasks.len();
    let mut report: Vec<String> = Vec::new();
    let mut a: usize = 0;
    while a < walk.len()
        invariant
            walk@ == w,
            a <= w.len(),
            report.len() == a,
            forall|b: int| 0 <= b < w.len() ==> #[trigger] w[b] < n,
            n == tasks@.len(),
            forall|b: int| 0 <= b < a ==> #[trigger] report@[b]@ == tasks@[w[b] as int].id@,
        decreases w.len() - a,
    {
        report.push(tasks[walk[a]].id.clone());
        a = a + 1;
    }
    report.push(tasks[next].id.clone());
    proof {
        let rv = report@.map_values(|s: String| s@);
        assert(rv.len() == w.len() + 1);
        assert forall|k: int| 0 <= k < rv.len() - 1 implies first_step(
            tasks@,
            order@,
            #[trigger] rv[k],
            rv[k + 1],
        ) by {
            if k < w.len() - 1 {
                assert(edge_at(tasks@, order@, w, k));
            }
        }
        assert forall|k: int| 0 <= k < rv.len() - 1 implies depends_on(
            tasks@,
            #[trigger] rv[k],
            rv[k + 1],
        ) by {
            assert(first_step(tasks@, order@, rv[k], rv[k + 1]));
            let (i, m) = choose|i: int, m: int|
                0 <= i < tasks@.len() && 0 <= m < deps_of(tasks@[i]).len() && #[trigger] tasks@[i].id@ == rv[k]
                    && #[trigger] deps_of(tasks@[i])[m] == rv[k + 1] && !in_order(order@, rv[k + 1]) && forall|q: int|
                    0 <= q < m ==> in_order(order@, #[trigger] deps_of(tasks@[i])[q]);
        }
        assert forall|a: int, b: int| 0 <= a < b < rv.len() - 1 implies #[trigger] rv[a] != #[trigger] rv[b] by {
            assert(rv[a] == tasks@[w[a] as int].id@ && rv[b] == tasks@[w[b] as int].id@);
        }
        let s = choose|s: int| 0 <= s < w.len() && w[s] == next;
        assert(rv[s] == rv.last());
    }
    report
}

/// Walks from a task that the topological sort could not place, always to a
/// dependency that it could not place either, keeping the current path; the
/// walk stops when it reaches a task already on the path.
#[verifier::rlimit(40)]
fn find_cycle(tasks: &[Task], order: &Vec<String>, start: usize) -> (path: Vec<String>)
    requires
        deps_exist(tasks@),
        start < tasks@.len(),
        !in_order(order@, tasks@[start as int].id@),
        stuck(tasks@, order@),
        ids_unique(tasks@),
    ensures
        is_cycle_report(tasks@, path@.map_values(|s: String| s@)),
        walk_report(tasks@, order@, path@.map_values(|s: String| s@)),
        path@.len() >= 1 && path@[0]@ == tasks@[start as int].id@,
{
    let n = tasks.len();
    let mut on_path: Vec<bool> = Vec::new();
    let mut x: usize = 0;
    while x < n
        invariant
            x <= n,
            on_path.len() == x,
            forall|y: int| 0 <= y < x ==> !#[trigger] on_path@[y],
            count_true(on_path@) == 0,
        decreases n - x,
    {
        let ghost o = on_path@;
        on_path.push(false);
        assert(on_path@.drop_last() =~= o);
        x = x + 1;
    }
    let mut walk: Vec<usize> = Vec::new();
    walk.push(start);
    proof {
        lemma_count_true_set(on_path@, start as int);
    }
    on_path.set(start, true);
    assert(walk@[0] == start);
    loop
        invariant
            n == tasks@.len(),
            deps_exist(tasks@),
            stuck(tasks@, order@),
            on_path.len() == n,
            walk.len() >= 1,
            walk.len() == count_true(on_path@),
            forall|a: int| 0 <= a < walk.len() ==> #[trigger] walk@[a] < n,
            forall|a: int| 0 <= a < walk.len() ==> !in_order(order@, tasks@[#[trigger] walk@[a] as int].id@),
            forall|y: int| 0 <= y < n && #[trigger] on_path@[y] ==> walk@.contains(y as usize),
            forall|y: int| 0 <= y < n && walk@.contains(y as usize) ==> #[trigger] on_path@[y],
            forall|a: int|
                0 <= a < walk.len() - 1 ==> #[trigger] edge_at(tasks@, order@, walk@, a),
            forall|a: int, b: int| 0 <= a < b < walk.len() ==> #[trigger] walk@[a] != #[trigger] walk@[b],
            walk@[0] == start,
            ids_unique(tasks@),
        decreases n - walk.len(),
    {
        proof {
            lemma_count_true_bound(on_path@);
        }
        let cur = walk[walk.len() - 1];
        let next = unplaced_dependency(tasks, order, cur);
        if on_path[next] {
            return cycle_report(tasks, order, &walk, next);
        }
        let ghost w0 = walk@;
        let ghost path0 = on_path@;
        proof {
            lemma_count_true_set(on_path@, next as int);
        }
        walk.push(next);
        on_path.set(next, true);
        proof {
            lemma_count_true_bound(on_path@);
            assert forall|y: int| 0 <= y < n && #[trigger] on_path@[y] implies walk@.contains(y as usize) by {
                if y != next {
                    assert(path0[y]);
                    let a = choose|a: int| 0 <= a < w0.len() && w0[a] == y as usize;
                    assert(walk@[a] == y as usize);
                } else {
                    assert(walk@[walk.len() - 1] == next);
                }
            }
            assert forall|y: int| 0 <= y < n && walk@.contains(y as usize) implies #[trigger] on_path@[y] by {
                if y != next {
                    let a = choose|a: int| 0 <= a < walk.len() && walk@[a] == y as usize;
                    assert(w0[a] == y as usize);
                }
            }
            assert forall|a: int| 0 <= a < walk.len() - 1 implies #[trigger] edge_at(tasks@, order@, walk@, a) by {
                if a < walk.len() - 2 {
                    assert(walk@[a] == w0[a] && walk@[a + 1] == w0[a + 1]);
                    assert(edge_at(tasks@, order@, w0, a));
                }
            }
            assert forall|a: int, b: int| 0 <= a < b < walk.len() implies #[trigger] walk@[a] != #[trigger] walk@[b] by {
                if b == walk.len() - 1 {
                    assert(!path0[next as int]);
                    assert(path0[w0[a] as int]);
                } else {
                    assert(walk@[a] == w0[a] && walk@[b] == w0[b]);
                }
            }
        }
    }
}

/// Reports a dependency cycle if the graph has one. The tasks that Kahn's
/// algorithm cannot place are exactly those on or leading into a cycle; the
/// report walks from the first of them, always to the first dependency that
/// is unplaced too, and ends with the node that closes the loop: the path a
/// depth-first search from the first such task finds.
pub fn detect_cycles(tasks: &[Task]) -> (r: Result<(), DependencyError>)
    requires
        structurally_valid(tasks@),
    ensures
        r is Ok <==> acyclic(tasks@),
        r matches Err(e) ==> e is Cycle && error_holds(tasks@, e),
        r matches Err(DependencyError::Cycle { path }) ==> dfs_cycle_report(tasks@, path@.map_values(|s: String| s@)),
{
    let order = sort_topologically(tasks);
    proof {
        reveal(stuck);
    }
    let n = tasks.len();
    let mut i: usize = 0;
    while i < n
        invariant
            n == tasks@.len(),
            i <= n,
            structurally_valid(tasks@),
            stuck(tasks@, order@),
            forall|j: int| 0 <= j < i ==> in_order(order@, #[trigger] tasks@[j].id@),
            forall|q: int| 0 <= q < order@.len() ==> has_task(tasks@, #[trigger] order@[q]@),
            forall|q: int, t: int, m: int|
                0 <= q < order@.len() && 0 <= t < tasks@.len() && tasks@[t].id@ == order@[q]@ && 0 <= m
                    < deps_of(tasks@[t]).len() ==> #[trigger] appears_before(order@, q, deps_of(tasks@[t])[m]),
        decreases n - i,
    {
        if !contains_string(&order, &tasks[i].id) {
            let path = find_cycle(tasks, &order, i);
            proof {
                lemma_order_is_grounded(tasks@, order@);
                lemma_walk_is_dfs(tasks@, order@, path@.map_values(|s: String| s@), i as int);
            }
            assert(error_holds(tasks@, DependencyError::Cycle { path }));
            proof {
                lemma_cycle_not_acyclic(tasks@, path@.map_values(|s: String| s@));
            }
            return Err(DependencyError::Cycle { path });
        }
        i = i + 1;
    }
    proof {
        let rank = |id: Seq<char>|
            (choose|k: int| 0 <= k < order@.len() && #[trigger] order@[k]@ == id) as nat;
        assert forall|i: int, m: int|
            0 <= i < tasks@.len() && 0 <= m < deps_of(tasks@[i]).len() implies rank(
            #[trigger] deps_of(tasks@[i])[m],
        ) < rank(tasks@[i].id@) by {
            assert(in_order(order@, tasks@[i].id@));
            let ki = choose|k: int| 0 <= k < order@.len() && #[trigger] order@[k]@ == tasks@[i].id@;
            assert(appears_before(order@, ki, deps_of(tasks@[i])[m]));
            let j = choose|j: int| 0 <= j < ki && #[trigger] order@[j]@ == deps_of(tasks@[i])[m];
            let kd = choose|k: int|
                0 <= k < order@.len() && #[trigger] order@[k]@ == deps_of(tasks@[i])[m];
            assert(kd == j);
        }
        assert(ranked_by(tasks@, rank));
    }
    Ok(())
}

/// Rejects a graph in which two tasks share an id.
fn check_unique_ids(tasks: &[Task]) -> (r: Result<(), DependencyError>)
    ensures
        r is Ok <==> ids_unique(tasks@),
        r matches Err(e) ==> e is DuplicateId && error_holds(tasks@, e),
{
    let n = tasks.len();
    let mut i: usize = 0;
    while i < n
        invariant
            n == tasks@.len(),
            i <= n,
            forall|a: int, b: int|
                0 <= a < i && 0 <= b < i && a != b ==> #[trigger] tasks@[a].id@ != #[trigger] tasks@[b].id@,
        decreases n - i,
    {
        let mut j: usize = 0;
        while j < i
            invariant
                n == tasks@.len(),
                j <= i < n,
                forall|b: int| 0 <= b < j ==> #[trigger] tasks@[b].id@ != tasks@[i as int].id@,
            decreases i - j,
        {
            if tasks[j].id == tasks[i].id {
                let e = DependencyError::DuplicateId { id: tasks[i].id.clone() };
                assert(error_holds(tasks@, e));
                return Err(e);
            }
            j = j + 1;
        }
        i = i + 1;
    }
    Ok(())
}

/// Rejects a task that depends on itself or on an id that no task carries.
fn check_dependencies(tasks: &[Task]) -> (r: Result<(), DependencyError>)
    ensures
        r is Ok <==> no_self_dependency(tasks@) && deps_exist(tasks@),
        r matches Err(e) ==> (e is SelfDependency || e is MissingDependency) && error_holds(tasks@, e),
{
    let n = tasks.len();
    let mut i: usize = 0;
    while i < n
        invariant
            n == tasks@.len(),
            i <= n,
            forall|a: int, m: int|
                0 <= a < i && 0 <= m < deps_of(tasks@[a]).len() ==> #[trigger] deps_of(tasks@[a])[m]
                    != tasks@[a].id@ && has_task(tasks@, deps_of(tasks@[a])[m]),
        decreases n - i,
    {
        let deps = &tasks[i].dependencies;
        let mut m: usize = 0;
        while m < deps.len()
            invariant
                n == tasks@.len(),
                i < n,
                deps@ == tasks@[i as int].dependencies@,
                m <= deps.len(),
                forall|q: int|
                    0 <= q < m ==> #[trigger] deps_of(tasks@[i as int])[q] != tasks@[i as int].id@
                        && has_task(tasks@, deps_of(tasks@[i as int])[q]),
            decreases deps.len() - m,
        {
            assert(deps@[m as int]@ == deps_of(tasks@[i as int])[m as int]);
            if deps[m] == tasks[i].id {
                let e = DependencyError::SelfDependency { task: tasks[i].id.clone() };
                assert(error_holds(tasks@, e));
                return Err(e);
            }
            if find_task(tasks, &deps[m]).is_none() {
                let e = DependencyError::MissingDependency {
                    task: tasks[i].id.clone(),
                    dependency: deps[m].clone(),
                };
                assert(depends_on(tasks@, tasks@[i as int].id@, deps_of(tasks@[i as int])[m as int]));
                assert(error_holds(tasks@, e));
                return Err(e);
            }
            m = m + 1;
        }
        i = i + 1;
    }
    Ok(())
}

/// Alias position `(j, b)` comes before `(i, a)` in declaration order.
pub open spec fn alias_before(j: int, b: int, i: int, a: int) -> bool {
    j < i || (j == i && b < a)
}

/// The task of an alias declared before position `(i, a)` with the same text.
fn earlier_alias(tasks: &[Task], i: usize, a: usize) -> (r: Option<usize>)
    requires
        alias_pos(tasks@, i as int, a as int),
    ensures
        r matches Some(j) ==> j < tasks@.len() && exists|b: int|
            alias_pos(tasks@, j as int, b) && alias_before(j as int, b, i as int, a as int)
                && #[trigger] alias_at(tasks@, j as int, b) == alias_at(tasks@, i as int, a as int),
        r is None ==> forall|j: int, b: int|
            alias_pos(tasks@, j, b) && alias_before(j, b, i as int, a as int) ==> #[trigger] alias_at(
                tasks@,
                j,
                b,
            ) != alias_at(tasks@, i as int, a as int),
{
    let alias = &tasks[i].aliases[a];
    let mut j: usize = 0;
    while j <= i
        invariant
            i < tasks@.len(),
            alias_pos(tasks@, i as int, a as int),
            alias@ == alias_at(tasks@, i as int, a as int),
            j <= i + 1,
            forall|jj: int, b: int|
                0 <= jj < j && alias_pos(tasks@, jj, b) && alias_before(jj, b, i as int, a as int)
                    ==> #[trigger] alias_at(tasks@, jj, b) != alias_at(tasks@, i as int, a as int),
        decreases i + 1 - j,
    {
        let names = &tasks[j].aliases;
        let limit = if j == i {
            a
        } else {
            names.len()
        };
        let mut b: usize = 0;
        while b < limit
            invariant
                j <= i < tasks@.len(),
                names@ == tasks@[j as int].aliases@,
                limit <= names.len(),
                j == i ==> limit == a,
                j < i ==> limit == names.len(),
                alias@ == alias_at(tasks@, i as int, a as int),
                b <= limit,
                forall|bb: int| 0 <= bb < b ==> #[trigger] alias_at(tasks@, j as int, bb) != alias@,
            decreases limit - b,
        {
            if names[b] == *alias {
                assert(alias_at(tasks@, j as int, b as int) == alias@);
                assert(alias_pos(tasks@, j as int, b as int));
                assert(alias_before(j as int, b as int, i as int, a as int));
                assert(exists|bb: int|
                    alias_pos(tasks@, j as int, bb) && alias_before(j as int, bb, i as int, a as int)
                        && #[trigger] alias_at(tasks@, j as int, bb) == alias_at(tasks@, i as int, a as int));
                return Some(j);
            }
            b = b + 1;
        }
        j = j + 1;
    }
    None
}

/// Rejects an alias that equals a task id or another alias.
fn check_aliases(tasks: &[Task]) -> (r: Result<(), DependencyError>)
    ensures
        r is Ok <==> aliases_valid(tasks@),
        r matches Err(e) ==> (e is AliasShadowsId || e is DuplicateAlias) && error_holds(tasks@, e),
{
    let n = tasks.len();
    let mut i: usize = 0;
    while i < n
        invariant
            n == tasks@.len(),
            i <= n,
            forall|j: int, b: int|
                alias_pos(tasks@, j, b) && j < i ==> !has_task(tasks@, #[trigger] alias_at(tasks@, j, b)),
            forall|j: int, b: int, k: int, c: int|
                alias_pos(tasks@, j, b) && alias_pos(tasks@, k, c) && j < i && k < i && (j != k || b
                    != c) ==> #[trigger] alias_at(tasks@, j, b) != #[trigger] alias_at(tasks@, k, c),
        decreases n - i,
    {
        let names = &tasks[i].aliases;
        let mut a: usize = 0;
        while a < names.len()
            invariant
                n == tasks@.len(),
                i < n,
                names@ == tasks@[i as int].aliases@,
                a <= names.len(),
                forall|j: int, b: int|
                    alias_pos(tasks@, j, b) && alias_before(j, b, i as int, a as int) ==> !has_task(
                        tasks@,
                        #[trigger] alias_at(tasks@, j, b),
                    ),
                forall|j: int, b: int, k: int, c: int|
                    alias_pos(tasks@, j, b) && alias_pos(tasks@, k, c) && alias_before(j, b, i as int, a as int)
                        && alias_before(k, c, i as int, a as int) && (j != k || b != c)
                        ==> #[trigger] alias_at(tasks@, j, b) != #[trigger] alias_at(tasks@, k, c),
            decreases names.len() - a,
        {
            assert(names@[a as int]@ == alias_at(tasks@, i as int, a as int));
            if find_task(tasks, &names[a]).is_some() {
                let task = tasks[i].id.clone();
                let alias = names[a].clone();
                assert(alias_pos(tasks@, i as int, a as int));
                assert(tasks@[i as int].id@ == task@ && alias_at(tasks@, i as int, a as int) == alias@);
                let e = DependencyError::AliasShadowsId { task, alias };
                assert(error_holds(tasks@, e));
                return Err(e);
            }
            match earlier_alias(tasks, i, a) {
                Some(j) => {
                    let e = DependencyError::DuplicateAlias {
                        task: tasks[i].id.clone(),
                        alias: names[a].clone(),
                        other: tasks[j].id.clone(),
                    };
                    proof {
                        let b = choose|b: int|
                            alias_pos(tasks@, j as int, b) && alias_before(j as int, b, i as int, a as int)
                                && #[trigger] alias_at(tasks@, j as int, b) == alias_at(tasks@, i as int, a as int);
                        assert(alias_at(tasks@, j as int, b) == alias_at(tasks@, i as int, a as int));
                    }
                    assert(error_holds(tasks@, e));
                    return Err(e);
                },
                None => {},
            }
            a = a + 1;
        }
        i = i + 1;
    }
    Ok(())
}

/// Checks the graph's invariants in turn: unique ids, dependencies that
/// exist and are not the task itself, aliases that collide with nothing, and
/// no dependency cycle.
pub fn validate_tasks(tasks: &[Task]) -> (r: Result<(), CompiError>)
    ensures
        r is Ok <==> valid_graph(tasks@),
        r matches Err(e) ==> e matches CompiError::Dependency(d) && error_holds(tasks@, d),
        structurally_valid(tasks@) && !acyclic(tasks@) ==> r matches Err(
            CompiError::Dependency(DependencyError::Cycle { .. }),
        ),
        r matches Err(CompiError::Dependency(DependencyError::Cycle { path })) ==> dfs_cycle_report(
            tasks@,
            path@.map_values(|s: String| s@),
        ),
{
    match check_unique_ids(tasks) {
        Err(e) => return Err(CompiError::Dependency(e)),
        Ok(()) => {},
    }
    match check_dependencies(tasks) {
        Err(e) => return Err(CompiError::Dependency(e)),
        Ok(()) => {},
    }
    match check_aliases(tasks) {
        Err(e) => return Err(CompiError::Dependency(e)),
        Ok(()) => {},
    }
    match detect_cycles(tasks) {
        Err(e) => Err(CompiError::Dependency(e)),
        Ok(()) => Ok(()),
    }
}

} // verus!
