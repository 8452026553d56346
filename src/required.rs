use vstd::prelude::*;

use crate::graph::{
    acyclic, count_true, deps_exist, deps_of, has_task, ids_unique, in_order, lemma_count_true_bound,
    lemma_count_true_set, ranked_by, sort_topologically, appears_before,
};
use crate::task::{CompiError, Task};
use crate::validate::{alias_at, alias_pos, find_task};

verus! {

broadcast use vstd::std_specs::vec::vec_clone_deep_view_proof;

/// `s` holds every dependency, that names a task, of each task whose id it holds.
pub open spec fn closed_under_deps(tasks: Seq<Task>, s: Set<Seq<char>>) -> bool {
    forall|i: int, m: int|
        0 <= i < tasks.len() && 0 <= m < deps_of(tasks[i]).len() && s.contains(tasks[i].id@) && has_task(
            tasks,
            deps_of(tasks[i])[m],
        ) ==> s.contains(#[trigger] deps_of(tasks[i])[m])
}

/// Task `x` is needed to run `root`: `x` names a task and lies in every set
/// that holds `root` and is closed under dependencies.
pub open spec fn required(tasks: Seq<Task>, root: Seq<char>, x: Seq<char>) -> bool {
    has_task(tasks, x) && forall|s: Set<Seq<char>>|
        #[trigger] closed_under_deps(tasks, s) && s.contains(root) ==> s.contains(x)
}

/// Some task declares `name` as an alias.
pub open spec fn has_alias(tasks: Seq<Task>, name: Seq<char>) -> bool {
    exists|i: int, a: int| alias_pos(tasks, i, a) && #[trigger] alias_at(tasks, i, a) == name
}

/// What `target` resolves to: itself when it is a task id, else the id of a
/// task that declares it as an alias.
pub open spec fn resolves_to(tasks: Seq<Task>, target: Seq<char>, root: Seq<char>) -> bool {
    if has_task(tasks, target) {
        root == target
    } else {
        exists|i: int, a: int|
            alias_pos(tasks, i, a) && #[trigger] alias_at(tasks, i, a) == target && tasks[i].id@ == root
    }
}

/// A copy of the task with the same id, dependencies and aliases.
fn copy_task(t: &Task) -> (r: Task)
    ensures
        r.id@ == t.id@,
        deps_of(r) == deps_of(*t),
{
    let r = Task {
        id: t.id.clone(),
        command: t.command.clone(),
        dependencies: t.dependencies.clone(),
        aliases: t.aliases.clone(),
        inputs: t.inputs.clone(),
        outputs: t.outputs.clone(),
        auto_remove: t.auto_remove,
        timeout: t.timeout.clone(),
    };
    assert(r.dependencies.deep_view() == t.dependencies.deep_view());
    assert(deps_of(r) =~= r.dependencies.deep_view());
    assert(deps_of(*t) =~= t.dependencies.deep_view());
    r
}

/// The position of a task that declares `name` as an alias.
fn find_alias(tasks: &[Task], name: &String) -> (r: Option<usize>)
    ensures
        r matches Some(i) ==> i < tasks@.len() && exists|a: int|
            alias_pos(tasks@, i as int, a) && #[trigger] alias_at(tasks@, i as int, a) == name@,
        r is None <==> !has_alias(tasks@, name@),
{
    let mut i: usize = 0;
    while i < tasks.len()
        invariant
            i <= tasks@.len(),
            forall|j: int, a: int| alias_pos(tasks@, j, a) && j < i ==> #[trigger] alias_at(tasks@, j, a) != name@,
        decreases tasks@.len() - i,
    {
        let names = &tasks[i].aliases;
        let mut a: usize = 0;
        while a < names.len()
            invariant
                i < tasks@.len(),
                names@ == tasks@[i as int].aliases@,
                a <= names.len(),
                forall|j: int, b: int| alias_pos(tasks@, j, b) && j < i ==> #[trigger] alias_at(tasks@, j, b) != name@,
                forall|b: int| 0 <= b < a ==> #[trigger] alias_at(tasks@, i as int, b) != name@,
            decreases names.len() - a,
        {
            if names[a] == *name {
                assert(alias_at(tasks@, i as int, a as int) == name@);
                assert(alias_pos(tasks@, i as int, a as int));
                assert(exists|b: int|
                    alias_pos(tasks@, i as int, b) && #[trigger] alias_at(tasks@, i as int, b) == name@);
                return Some(i);
            }
            a = a + 1;
        }
        i = i + 1;
    }
    None
}

/// Some task marked in `needed` carries the id `d`.
pub open spec fn marked(tasks: Seq<Task>, needed: Seq<bool>, d: Seq<char>) -> bool {
    exists|y: int| 0 <= y < tasks.len() && needed[y] && #[trigger] tasks[y].id@ == d
}

proof fn lemma_marked_grow(tasks: Seq<Task>, b0: Seq<bool>, b1: Seq<bool>, d: Seq<char>)
    requires
        b0.len() == b1.len(),
        forall|y: int| 0 <= y < b0.len() && #[trigger] b0[y] ==> b1[y],
        b0.len() == tasks.len(),
        marked(tasks, b0, d),
    ensures
        marked(tasks, b1, d),
{
    let y = choose|y: int| 0 <= y < tasks.len() && b0[y] && #[trigger] tasks[y].id@ == d;
    assert(b1[y]);
}

/// The tasks needed to run task `root`: a breadth-first walk over the
/// dependency relation from `root`, marking each task that it reaches.
fn mark_required(tasks: &[Task], root: usize) -> (needed: Vec<bool>)
    requires
        root < tasks@.len(),
        ids_unique(tasks@),
    ensures
        needed.len() == tasks@.len(),
        forall|i: int|
            0 <= i < tasks@.len() ==> (#[trigger] needed@[i] ==> required(
                tasks@,
                tasks@[root as int].id@,
                tasks@[i].id@,
            )),
        closed_under_deps(tasks@, Set::new(|x: Seq<char>| marked(tasks@, needed@, x))),
        needed@[root as int],
{
    let n = tasks.len();
    let ghost rid = tasks@[root as int].id@;
    let mut needed: Vec<bool> = Vec::new();
    let mut x: usize = 0;
    while x < n
        invariant
            x <= n,
            needed.len() == x,
            forall|y: int| 0 <= y < x ==> !#[trigger] needed@[y],
            count_true(needed@) == 0,
        decreases n - x,
    {
        let ghost o = needed@;
        needed.push(false);
        assert(needed@.drop_last() =~= o);
        x = x + 1;
    }
    proof {
        lemma_count_true_set(needed@, root as int);
        assert forall|s: Set<Seq<char>>|
            #[trigger] closed_under_deps(tasks@, s) && s.contains(rid) implies s.contains(rid) by {}
    }
    needed.set(root, true);
    let mut queue: Vec<usize> = Vec::new();
    queue.push(root);
    assert(queue@[0] == root);
    let mut head: usize = 0;
    while head < queue.len()
        invariant
            n == tasks@.len(),
            root < n,
            rid == tasks@[root as int].id@,
            needed.len() == n,
            head <= queue.len(),
            queue.len() == count_true(needed@),
            needed@[root as int],
            forall|a: int| 0 <= a < queue.len() ==> #[trigger] queue@[a] < n,
            forall|a: int| 0 <= a < queue.len() ==> #[trigger] needed@[queue@[a] as int],
            forall|y: int| 0 <= y < n && #[trigger] needed@[y] ==> queue@.contains(y as usize),
            forall|y: int| 0 <= y < n && #[trigger] needed@[y] ==> required(tasks@, rid, tasks@[y].id@),
            forall|a: int, m: int|
                0 <= a < head && 0 <= m < deps_of(tasks@[queue@[a] as int]).len() && has_task(
                    tasks@,
                    deps_of(tasks@[queue@[a] as int])[m],
                ) ==> #[trigger] marked(tasks@, needed@, deps_of(tasks@[queue@[a] as int])[m]),
        decreases n - head,
    {
        proof {
            lemma_count_true_bound(needed@);
        }
        let t = queue[head];
        let deps = &tasks[t].dependencies;
        let mut m: usize = 0;
        while m < deps.len()
            invariant
                n == tasks@.len(),
                root < n,
                rid == tasks@[root as int].id@,
                t < n,
                needed@[t as int],
                deps@ == tasks@[t as int].dependencies@,
                needed.len() == n,
                m <= deps.len(),
                head < queue.len(),
                queue@[head as int] == t,
                queue.len() == count_true(needed@),
                needed@[root as int],
                forall|a: int| 0 <= a < queue.len() ==> #[trigger] queue@[a] < n,
                forall|a: int| 0 <= a < queue.len() ==> #[trigger] needed@[queue@[a] as int],
                forall|y: int| 0 <= y < n && #[trigger] needed@[y] ==> queue@.contains(y as usize),
                forall|y: int| 0 <= y < n && #[trigger] needed@[y] ==> required(tasks@, rid, tasks@[y].id@),
                forall|a: int, mm: int|
                    0 <= a < head && 0 <= mm < deps_of(tasks@[queue@[a] as int]).len() && has_task(
                        tasks@,
                        deps_of(tasks@[queue@[a] as int])[mm],
                    ) ==> #[trigger] marked(tasks@, needed@, deps_of(tasks@[queue@[a] as int])[mm]),
                forall|mm: int|
                    0 <= mm < m && has_task(tasks@, deps_of(tasks@[t as int])[mm]) ==> #[trigger] marked(
                        tasks@,
                        needed@,
                        deps_of(tasks@[t as int])[mm],
                    ),
            decreases deps.len() - m,
        {
            assert(deps@[m as int]@ == deps_of(tasks@[t as int])[m as int]);
            match find_task(tasks, &deps[m]) {
                Some(j) => {
                    if !needed[j] {
                        proof {
                            lemma_count_true_set(needed@, j as int);
                            assert forall|s: Set<Seq<char>>|
                                #[trigger] closed_under_deps(tasks@, s) && s.contains(rid) implies s.contains(
                                tasks@[j as int].id@,
                            ) by {
                                assert(required(tasks@, rid, tasks@[t as int].id@));
                                assert(s.contains(tasks@[t as int].id@));
                                assert(s.contains(deps_of(tasks@[t as int])[m as int]));
                            }
                        }
                        let ghost q0 = queue@;
                        let ghost b0 = needed@;
                        needed.set(j, true);
                        queue.push(j);
                        proof {
                            assert(queue@[queue.len() - 1] == j);
                            assert forall|y: int| 0 <= y < n && #[trigger] needed@[y] implies queue@.contains(y as usize) by {
                                if y != j {
                                    assert(b0[y]);
                                    let a = choose|a: int| 0 <= a < q0.len() && q0[a] == y as usize;
                                    assert(queue@[a] == y as usize);
                                }
                            }
                            assert forall|a: int, mm: int|
                                0 <= a < head && 0 <= mm < deps_of(tasks@[queue@[a] as int]).len() && has_task(
                                    tasks@,
                                    deps_of(tasks@[queue@[a] as int])[mm],
                                ) implies #[trigger] marked(tasks@, needed@, deps_of(tasks@[queue@[a] as int])[mm]) by {
                                assert(queue@[a] == q0[a]);
                                assert(marked(tasks@, b0, deps_of(tasks@[q0[a] as int])[mm]));
                                lemma_marked_grow(tasks@, b0, needed@, deps_of(tasks@[q0[a] as int])[mm]);
                            }
                            assert forall|mm: int|
                                0 <= mm < m && has_task(tasks@, deps_of(tasks@[t as int])[mm]) implies #[trigger] marked(
                                tasks@,
                                needed@,
                                deps_of(tasks@[t as int])[mm],
                            ) by {
                                lemma_marked_grow(tasks@, b0, needed@, deps_of(tasks@[t as int])[mm]);
                            }
                        }
                    }
                    assert(needed@[j as int] && tasks@[j as int].id@ == deps_of(tasks@[t as int])[m as int]);
                    assert(marked(tasks@, needed@, deps_of(tasks@[t as int])[m as int]));
                },
                None => {},
            }
            m = m + 1;
        }
        proof {
            assert forall|a: int, mm: int|
                0 <= a < head + 1 && 0 <= mm < deps_of(tasks@[queue@[a] as int]).len() && has_task(
                    tasks@,
                    deps_of(tasks@[queue@[a] as int])[mm],
                ) implies #[trigger] marked(tasks@, needed@, deps_of(tasks@[queue@[a] as int])[mm]) by {
                if a == head {
                    assert(has_task(tasks@, deps_of(tasks@[t as int])[mm]));
                }
            }
        }
        head = head + 1;
    }
    proof {
        let s = Set::new(|x: Seq<char>| marked(tasks@, needed@, x));
        assert forall|i: int, m: int|
            0 <= i < tasks@.len() && 0 <= m < deps_of(tasks@[i]).len() && s.contains(tasks@[i].id@) && has_task(
                tasks@,
                deps_of(tasks@[i])[m],
            ) implies s.contains(#[trigger] deps_of(tasks@[i])[m]) by {
            let y = choose|y: int| 0 <= y < tasks@.len() && needed@[y] && #[trigger] tasks@[y].id@ == tasks@[i].id@;
            assert(y == i);
            let a = choose|a: int| 0 <= a < queue.len() && queue@[a] == y as usize;
            assert(marked(tasks@, needed@, deps_of(tasks@[queue@[a] as int])[m]));
        }
    }
    needed
}

/// Resolves `target_task_id` as a task id, or else as an alias, and returns
/// the tasks it needs (itself and everything it depends on, transitively) in
/// an order where each comes after its dependencies.
pub fn get_required_tasks(tasks: &[Task], target_task_id: &str) -> (r: Result<Vec<String>, CompiError>)
    requires
        ids_unique(tasks@),
    ensures
        r is Err <==> !has_task(tasks@, target_task_id@) && !has_alias(tasks@, target_task_id@),
        r matches Err(e) ==> e matches CompiError::Task(t) && t@ == target_task_id@,
        r matches Ok(order) ==> exists|root: Seq<char>|
            #[trigger] resolves_to(tasks@, target_task_id@, root) && (forall|k: int|
                0 <= k < order.len() ==> required(tasks@, root, #[trigger] order@[k]@)) && (deps_exist(tasks@)
                && acyclic(tasks@) ==> forall|x: Seq<char>|
                required(tasks@, root, x) ==> #[trigger] in_order(order@, x)),
        r matches Ok(order) ==> forall|k: int, i: int, m: int|
            0 <= k < order.len() && 0 <= i < tasks@.len() && tasks@[i].id@ == order@[k]@ && 0 <= m
                < deps_of(tasks@[i]).len() ==> #[trigger] appears_before(
                order@,
                k,
                deps_of(tasks@[i])[m],
            ),
        r matches Ok(order) ==> forall|a: int, b: int|
            0 <= a < order.len() && 0 <= b < order.len() && a != b ==> #[trigger] order@[a]@
                != #[trigger] order@[b]@,
{
    let target = target_task_id.to_owned();
    let root = match find_task(tasks, &target) {
        Some(i) => i,
        None => match find_alias(tasks, &target) {
            Some(i) => i,
            None => {
                return Err(CompiError::Task(target));
            },
        },
    };
    let ghost rid = tasks@[root as int].id@;
    assert(resolves_to(tasks@, target_task_id@, rid));
    let needed = mark_required(tasks, root);
    let n = tasks.len();
    let mut filtered: Vec<Task> = Vec::new();
    let ghost mut idx: Seq<int> = Seq::empty();
    let mut i: usize = 0;
    while i < n
        invariant
            n == tasks@.len(),
            needed.len() == n,
            i <= n,
            ids_unique(tasks@),
            filtered.len() == idx.len(),
            forall|k: int| 0 <= k < idx.len() ==> 0 <= #[trigger] idx[k] < i,
            forall|k: int| 0 <= k < idx.len() ==> needed@[#[trigger] idx[k]],
            forall|a: int, b: int| 0 <= a < b < idx.len() ==> #[trigger] idx[a] < #[trigger] idx[b],
            forall|k: int|
                0 <= k < idx.len() ==> #[trigger] filtered@[k].id@ == tasks@[idx[k]].id@ && deps_of(
                    filtered@[k],
                ) == deps_of(tasks@[idx[k]]),
            forall|y: int| 0 <= y < i && #[trigger] needed@[y] ==> exists|k: int| 0 <= k < idx.len() && #[trigger] idx[k] == y,
        decreases n - i,
    {
        if needed[i] {
            let ghost f0 = filtered@;
            let ghost i0 = idx;
            let c = copy_task(&tasks[i]);
            filtered.push(c);
            proof {
                idx = idx.push(i as int);
                assert(idx[idx.len() - 1] == i);
                assert forall|k: int|
                    0 <= k < idx.len() implies #[trigger] filtered@[k].id@ == tasks@[idx[k]].id@ && deps_of(
                        filtered@[k],
                    ) == deps_of(tasks@[idx[k]]) by {
                    if k < i0.len() {
                        assert(filtered@[k] == f0[k]);
                        assert(idx[k] == i0[k]);
                    }
                }
                assert forall|y: int| 0 <= y < i + 1 && #[trigger] needed@[y] implies exists|k: int|
                    0 <= k < idx.len() && #[trigger] idx[k] == y by {
                    if y < i {
                        let k = choose|k: int| 0 <= k < i0.len() && #[trigger] i0[k] == y;
                        assert(idx[k] == i0[k]);
                    } else {
                        assert(idx[idx.len() - 1] == y);
                    }
                }
            }
        }
        i = i + 1;
    }
    proof {
        assert forall|a: int, b: int|
            0 <= a < filtered@.len() && 0 <= b < filtered@.len() && a != b implies #[trigger] filtered@[a].id@
                != #[trigger] filtered@[b].id@ by {
            assert(filtered@[a].id@ == tasks@[idx[a]].id@);
            assert(filtered@[b].id@ == tasks@[idx[b]].id@);
            assert(idx[a] != idx[b]);
        }
    }
    let order = sort_topologically(&filtered);
    proof {
        let fs = filtered@;
        assert forall|k: int| 0 <= k < order.len() implies required(tasks@, rid, #[trigger] order@[k]@) by {
            assert(has_task(fs, order@[k]@));
            let f = choose|f: int| 0 <= f < fs.len() && #[trigger] fs[f].id@ == order@[k]@;
            assert(fs[f].id@ == tasks@[idx[f]].id@);
            assert(needed@[idx[f]]);
        }
        if deps_exist(tasks@) && acyclic(tasks@) {
            let ms = Set::new(|x: Seq<char>| marked(tasks@, needed@, x));
            assert forall|f: int, m: int|
                0 <= f < fs.len() && 0 <= m < deps_of(fs[f]).len() implies has_task(
                fs,
                #[trigger] deps_of(fs[f])[m],
            ) by {
                let t = idx[f];
                assert(fs[f].id@ == tasks@[idx[f]].id@);
                assert(deps_of(fs[f]) == deps_of(tasks@[t]));
                assert(has_task(tasks@, deps_of(tasks@[t])[m]));
                assert(ms.contains(tasks@[t].id@));
                assert(ms.contains(deps_of(tasks@[t])[m]));
                let y = choose|y: int| 0 <= y < tasks@.len() && needed@[y] && #[trigger] tasks@[y].id@ == deps_of(tasks@[t])[m];
                let k = choose|k: int| 0 <= k < idx.len() && #[trigger] idx[k] == y;
                assert(fs[k].id@ == deps_of(fs[f])[m]);
            }
            let rank = choose|rank: spec_fn(Seq<char>) -> nat| ranked_by(tasks@, rank);
            assert forall|f: int, m: int|
                0 <= f < fs.len() && 0 <= m < deps_of(fs[f]).len() implies rank(
                #[trigger] deps_of(fs[f])[m],
            ) < rank(fs[f].id@) by {
                let t = idx[f];
                assert(fs[f].id@ == tasks@[idx[f]].id@);
                assert(deps_of(fs[f]) == deps_of(tasks@[t]));
                assert(rank(deps_of(tasks@[t])[m]) < rank(tasks@[t].id@));
            }
            assert(ranked_by(fs, rank));
            assert forall|x: Seq<char>| required(tasks@, rid, x) implies #[trigger] in_order(order@, x) by {
                assert(closed_under_deps(tasks@, ms));
                assert(ms.contains(rid)) by {
                    assert(needed@[root as int]);
                }
                assert(ms.contains(x));
                let y = choose|y: int| 0 <= y < tasks@.len() && needed@[y] && #[trigger] tasks@[y].id@ == x;
                let k = choose|k: int| 0 <= k < idx.len() && #[trigger] idx[k] == y;
                assert(fs[k].id@ == x);
                assert(in_order(order@, fs[k].id@));
            }
        }
        assert forall|k: int, i: int, m: int|
            0 <= k < order.len() && 0 <= i < tasks@.len() && tasks@[i].id@ == order@[k]@ && 0 <= m
                < deps_of(tasks@[i]).len() implies #[trigger] appears_before(
            order@,
            k,
            deps_of(tasks@[i])[m],
        ) by {
            assert(has_task(fs, order@[k]@));
            let f = choose|f: int| 0 <= f < fs.len() && #[trigger] fs[f].id@ == order@[k]@;
            assert(fs[f].id@ == tasks@[idx[f]].id@);
            assert(idx[f] == i);
            assert(appears_before(order@, k, deps_of(fs[f])[m]));
        }
    }
    Ok(order)
}

} // verus!
