use vstd::prelude::*;

use crate::task::Task;

verus! {

/// The dependency ids of a task, as sequences of characters.
pub open spec fn deps_of(t: Task) -> Seq<Seq<char>> {
    t.dependencies@.map_values(|d: String| d@)
}

/// No two tasks share an id.
pub open spec fn ids_unique(tasks: Seq<Task>) -> bool {
    forall|i: int, j: int|
        0 <= i < tasks.len() && 0 <= j < tasks.len() && i != j ==> #[trigger] tasks[i].id@
            != #[trigger] tasks[j].id@
}

/// Some task carries the id.
pub open spec fn has_task(tasks: Seq<Task>, id: Seq<char>) -> bool {
    exists|i: int| 0 <= i < tasks.len() && #[trigger] tasks[i].id@ == id
}

/// Every dependency names a task of the set.
pub open spec fn deps_exist(tasks: Seq<Task>) -> bool {
    forall|i: int, k: int|
        0 <= i < tasks.len() && 0 <= k < deps_of(tasks[i]).len() ==> has_task(
            tasks,
            #[trigger] deps_of(tasks[i])[k],
        )
}

/// `rank` strictly decreases along every dependency edge.
pub open spec fn ranked_by(tasks: Seq<Task>, rank: spec_fn(Seq<char>) -> nat) -> bool {
    forall|i: int, k: int|
        0 <= i < tasks.len() && 0 <= k < deps_of(tasks[i]).len() ==> rank(
            #[trigger] deps_of(tasks[i])[k],
        ) < rank(tasks[i].id@)
}

/// The dependency relation has no cycle: some rank decreases along every edge.
pub open spec fn acyclic(tasks: Seq<Task>) -> bool {
    exists|rank: spec_fn(Seq<char>) -> nat| ranked_by(tasks, rank)
}

/// The number of entries of `s` that are not in `d`.
pub open spec fn count_not_in(s: Seq<Seq<char>>, d: Set<Seq<char>>) -> nat
    decreases s.len(),
{
    if s.len() == 0 {
        0
    } else {
        count_not_in(s.drop_last(), d) + if d.contains(s.last()) {
            0nat
        } else {
            1nat
        }
    }
}

/// The number of entries of `s` equal to `x`.
pub open spec fn count_eq(s: Seq<Seq<char>>, x: Seq<char>) -> nat
    decreases s.len(),
{
    if s.len() == 0 {
        0
    } else {
        count_eq(s.drop_last(), x) + if s.last() == x {
            1nat
        } else {
            0nat
        }
    }
}

proof fn lemma_count_not_in_zero(s: Seq<Seq<char>>, d: Set<Seq<char>>)
    ensures
        count_not_in(s, d) == 0 <==> forall|k: int| 0 <= k < s.len() ==> d.contains(#[trigger] s[k]),
    decreases s.len(),
{
    if s.len() > 0 {
        lemma_count_not_in_zero(s.drop_last(), d);
        if count_not_in(s, d) == 0 {
            assert forall|k: int| 0 <= k < s.len() implies d.contains(#[trigger] s[k]) by {
                if k < s.len() - 1 {
                    assert(s.drop_last()[k] == s[k]);
                }
            }
        }
        if forall|k: int| 0 <= k < s.len() ==> d.contains(#[trigger] s[k]) {
            assert forall|k: int| 0 <= k < s.drop_last().len() implies d.contains(
                #[trigger] s.drop_last()[k],
            ) by {
                assert(s.drop_last()[k] == s[k]);
            }
            assert(d.contains(s[s.len() - 1]));
        }
    }
}

proof fn lemma_count_not_in_insert(s: Seq<Seq<char>>, d: Set<Seq<char>>, x: Seq<char>)
    requires
        !d.contains(x),
    ensures
        count_not_in(s, d.insert(x)) + count_eq(s, x) == count_not_in(s, d),
    decreases s.len(),
{
    if s.len() > 0 {
        lemma_count_not_in_insert(s.drop_last(), d, x);
    }
}

proof fn lemma_count_eq_prefix(s: Seq<Seq<char>>, x: Seq<char>, k: int)
    requires
        0 <= k < s.len(),
    ensures
        count_eq(s.subrange(0, k + 1), x) == count_eq(s.subrange(0, k), x) + if s[k] == x {
            1nat
        } else {
            0nat
        },
{
    assert(s.subrange(0, k + 1).drop_last() =~= s.subrange(0, k));
}

/// If every task outside `done` has a dependency outside `done`, then the
/// rank of each task outside `done` is at least `r`, for every `r`.
proof fn lemma_stuck_rank(
    tasks: Seq<Task>,
    rank: spec_fn(Seq<char>) -> nat,
    done: Set<Seq<char>>,
    r: nat,
)
    requires
        ranked_by(tasks, rank),
        deps_exist(tasks),
        forall|i: int|
            0 <= i < tasks.len() && !done.contains(#[trigger] tasks[i].id@) ==> exists|m: int|
                0 <= m < deps_of(tasks[i]).len() && !done.contains(#[trigger] deps_of(tasks[i])[m]),
    ensures
        forall|i: int|
            0 <= i < tasks.len() && !done.contains(#[trigger] tasks[i].id@) ==> rank(tasks[i].id@)
                >= r,
    decreases r,
{
    if r > 0 {
        lemma_stuck_rank(tasks, rank, done, (r - 1) as nat);
        assert forall|i: int|
            0 <= i < tasks.len() && !done.contains(#[trigger] tasks[i].id@) implies rank(
            tasks[i].id@,
        ) >= r by {
            let m = choose|m: int|
                0 <= m < deps_of(tasks[i]).len() && !done.contains(
                    #[trigger] deps_of(tasks[i])[m],
                );
            let d = deps_of(tasks[i])[m];
            assert(has_task(tasks, d));
            let j = choose|j: int| 0 <= j < tasks.len() && #[trigger] tasks[j].id@ == d;
            assert(rank(tasks[j].id@) >= r - 1);
        }
    }
}

/// Some entry of `order` is `id`.
pub open spec fn in_order(order: Seq<String>, id: Seq<char>) -> bool {
    exists|k: int| 0 <= k < order.len() && #[trigger] order[k]@ == id
}

/// Some entry of `order` before position `k` is `id`.
pub open spec fn appears_before(order: Seq<String>, k: int, id: Seq<char>) -> bool {
    exists|j: int| 0 <= j < k && #[trigger] order[j]@ == id
}

/// The number of `true` entries of `s`.
pub open spec fn count_true(s: Seq<bool>) -> nat
    decreases s.len(),
{
    if s.len() == 0 {
        0
    } else {
        count_true(s.drop_last()) + if s.last() {
            1nat
        } else {
            0nat
        }
    }
}

/// At most every entry is `true`.
pub proof fn lemma_count_true_bound(s: Seq<bool>)
    ensures
        count_true(s) <= s.len(),
    decreases s.len(),
{
    if s.len() > 0 {
        lemma_count_true_bound(s.drop_last());
    }
}

/// Setting a `false` entry adds one `true` entry.
pub proof fn lemma_count_true_set(s: Seq<bool>, i: int)
    requires
        0 <= i < s.len(),
        !s[i],
    ensures
        count_true(s.update(i, true)) == count_true(s) + 1,
    decreases s.len(),
{
    if i < s.len() - 1 {
        assert(s.update(i, true).drop_last() =~= s.drop_last().update(i, true));
        lemma_count_true_set(s.drop_last(), i);
    } else {
        assert(s.update(i, true).drop_last() =~= s.drop_last());
    }
}

/// Orders the tasks so that each one comes after all of its dependencies
/// (Kahn's algorithm). Tasks caught in a cycle, or waiting on a dependency
/// that is not in the set, are left out.
pub fn sort_topologically(tasks: &[Task]) -> (order: Vec<String>)
    requires
        ids_unique(tasks@),
    ensures
        forall|k: int| 0 <= k < order.len() ==> has_task(tasks@, #[trigger] order@[k]@),
        forall|a: int, b: int|
            0 <= a < order.len() && 0 <= b < order.len() && a != b ==> #[trigger] order@[a]@
                != #[trigger] order@[b]@,
        forall|k: int, i: int, m: int|
            0 <= k < order.len() && 0 <= i < tasks@.len() && tasks@[i].id@ == order@[k]@ && 0 <= m
                < deps_of(tasks@[i]).len() ==> #[trigger] appears_before(
                order@,
                k,
                deps_of(tasks@[i])[m],
            ),
        forall|i: int|
            0 <= i < tasks@.len() && !in_order(order@, #[trigger] tasks@[i].id@) ==> exists|m: int|
                0 <= m < deps_of(tasks@[i]).len() && !in_order(
                    order@,
                    #[trigger] deps_of(tasks@[i])[m],
                ),
        deps_exist(tasks@) && acyclic(tasks@) ==> forall|i: int|
            0 <= i < tasks@.len() ==> in_order(order@, #[trigger] tasks@[i].id@),
{
    let n = tasks.len();
    let mut in_degree: Vec<usize> = Vec::new();
    let mut queued: Vec<bool> = Vec::new();
    let mut queue: Vec<usize> = Vec::new();
    let mut i: usize = 0;
    while i < n
        invariant
            n == tasks@.len(),
            i <= n,
            in_degree.len() == i,
            queued.len() == i,
            forall|j: int| 0 <= j < i ==> #[trigger] in_degree@[j] == deps_of(tasks@[j]).len(),
            forall|j: int| 0 <= j < i ==> (#[trigger] queued@[j] <==> in_degree@[j] == 0),
            forall|a: int| 0 <= a < queue.len() ==> #[trigger] queue@[a] < i,
            forall|a: int| 0 <= a < queue.len() ==> #[trigger] queued@[queue@[a] as int],
            forall|j: int| 0 <= j < i && #[trigger] queued@[j] ==> queue@.contains(j as usize),
            forall|a: int, b: int|
                0 <= a < b < queue.len() ==> #[trigger] queue@[a] != #[trigger] queue@[b],
            queue.len() == count_true(queued@),
        decreases n - i,
    {
        let d = tasks[i].dependencies.len();
        in_degree.push(d);
        let ghost q0 = queue@;
        let ghost b0 = queued@;
        if d == 0 {
            queue.push(i);
            queued.push(true);
            assert(queue@[queue.len() - 1] == i);
        } else {
            queued.push(false);
        }
        assert(queued@.drop_last() =~= b0);
        assert forall|j: int| 0 <= j <= i && #[trigger] queued@[j] implies queue@.contains(j as usize) by {
            if j < i {
                assert(b0[j]);
                let a = choose|a: int| 0 <= a < q0.len() && q0[a] == j as usize;
                assert(queue@[a] == j as usize);
            } else {
                assert(queue@[queue.len() - 1] == i);
            }
        }
        i = i + 1;
    }
    assert forall|j: int| 0 <= j < n implies #[trigger] in_degree@[j] == count_not_in(
        deps_of(tasks@[j]),
        Set::empty(),
    ) by {
        lemma_count_not_in_all(deps_of(tasks@[j]));
    }
    let mut order: Vec<String> = Vec::new();
    let ghost mut done: Set<Seq<char>> = Set::empty();
    let mut head: usize = 0;
    while head < queue.len()
        invariant
            n == tasks@.len(),
            ids_unique(tasks@),
            in_degree.len() == n,
            queued.len() == n,
            head <= queue.len(),
            queue.len() == count_true(queued@),
            order.len() == head,
            forall|a: int| 0 <= a < queue.len() ==> #[trigger] queue@[a] < n,
            forall|a: int| 0 <= a < queue.len() ==> #[trigger] queued@[queue@[a] as int],
            forall|j: int| 0 <= j < n && #[trigger] queued@[j] ==> queue@.contains(j as usize),
            forall|a: int, b: int|
                0 <= a < b < queue.len() ==> #[trigger] queue@[a] != #[trigger] queue@[b],
            forall|k: int| 0 <= k < head ==> #[trigger] order@[k]@ == tasks@[queue@[k] as int].id@,
            forall|x: Seq<char>| done.contains(x) <==> exists|k: int| 0 <= k < head && #[trigger] order@[k]@ == x,
            forall|j: int| 0 <= j < n ==> #[trigger] in_degree@[j] == count_not_in(deps_of(tasks@[j]), done),
            forall|j: int| 0 <= j < n ==> (#[trigger] queued@[j] <==> in_degree@[j] == 0),
            forall|k: int, m: int|
                0 <= k < head && 0 <= m < deps_of(tasks@[queue@[k] as int]).len()
                    ==> #[trigger] appears_before(order@, k, deps_of(tasks@[queue@[k] as int])[m]),
        decreases n - head,
    {
        proof {
            lemma_count_true_bound(queued@);
        }
        let t = queue[head];
        let ghost tid = tasks@[t as int].id@;
        proof {
            assert(!done.contains(tid)) by {
                if done.contains(tid) {
                    let k = choose|k: int| 0 <= k < head && #[trigger] order@[k]@ == tid;
                    assert(tasks@[queue@[k] as int].id@ == tid);
                }
            }
            assert(queued@[queue@[head as int] as int]);
            assert(in_degree@[t as int] == count_not_in(deps_of(tasks@[t as int]), done));
            lemma_count_not_in_zero(deps_of(tasks@[t as int]), done);
        }
        let ghost deps_done = forall|m: int|
            0 <= m < deps_of(tasks@[t as int]).len() ==> done.contains(#[trigger] deps_of(tasks@[t as int])[m]);
        assert(deps_done);
        let ghost order0 = order@;
        order.push(tasks[t].id.clone());
        let ghost old_done = done;
        proof {
            done = done.insert(tid);
            assert(order@[head as int]@ == tid);
            assert forall|x: Seq<char>| done.contains(x) <==> exists|k: int| 0 <= k < head + 1 && #[trigger] order@[k]@ == x by {
                if old_done.contains(x) {
                    let k = choose|k: int| 0 <= k < head && #[trigger] order0[k]@ == x;
                    assert(order@[k] == order0[k]);
                }
                if exists|k: int| 0 <= k < head + 1 && #[trigger] order@[k]@ == x {
                    let k = choose|k: int| 0 <= k < head + 1 && #[trigger] order@[k]@ == x;
                    if k < head {
                        assert(order@[k] == order0[k]);
                    }
                }
            }
        }
        let ghost q0 = queue@;
        let mut j: usize = 0;
        while j < n
            invariant
                n == tasks@.len(),
                order.len() == head + 1,
                forall|x: Seq<char>| done.contains(x) <==> exists|k: int| 0 <= k < head + 1 && #[trigger] order@[k]@ == x,
                head < q0.len() <= queue.len(),
                forall|a: int| 0 <= a < q0.len() ==> #[trigger] queue@[a] == q0[a],
                queue.len() == count_true(queued@),
                0 <= t < n,
                tid == tasks@[t as int].id@,
                !old_done.contains(tid),
                done == old_done.insert(tid),
                j <= n,
                in_degree.len() == n,
                queued.len() == n,
                forall|a: int| 0 <= a < queue.len() ==> #[trigger] queue@[a] < n,
                forall|a: int| 0 <= a < queue.len() ==> #[trigger] queued@[queue@[a] as int],
                forall|x: int| 0 <= x < n && #[trigger] queued@[x] ==> queue@.contains(x as usize),
                forall|a: int, b: int|
                    0 <= a < b < queue.len() ==> #[trigger] queue@[a] != #[trigger] queue@[b],
                forall|x: int| 0 <= x < j ==> #[trigger] in_degree@[x] == count_not_in(deps_of(tasks@[x]), done),
                forall|x: int| j <= x < n ==> #[trigger] in_degree@[x] == count_not_in(deps_of(tasks@[x]), old_done),
                forall|x: int| 0 <= x < n ==> (#[trigger] queued@[x] <==> in_degree@[x] == 0),
            decreases n - j,
        {
            let deps = &tasks[j].dependencies;
            let mut c: usize = 0;
            let mut k: usize = 0;
            while k < deps.len()
                invariant
                    n == tasks@.len(),
                    j < n,
                    t < n,
                    deps@ == tasks@[j as int].dependencies@,
                    k <= deps.len(),
                    c == count_eq(deps_of(tasks@[j as int]).subrange(0, k as int), tid),
                    c <= k,
                    tid == tasks@[t as int].id@,
                decreases deps.len() - k,
            {
                proof {
                    lemma_count_eq_prefix(deps_of(tasks@[j as int]), tid, k as int);
                }
                if deps[k] == tasks[t].id {
                    c = c + 1;
                }
                k = k + 1;
            }
            proof {
                assert(deps_of(tasks@[j as int]).subrange(0, deps@.len() as int) =~= deps_of(tasks@[j as int]));
                lemma_count_not_in_insert(deps_of(tasks@[j as int]), old_done, tid);
            }
            if c > 0 {
                let d = in_degree[j] - c;
                in_degree.set(j, d);
                if d == 0 && !queued[j] {
                    let ghost qq = queue@;
                    let ghost bb = queued@;
                    proof {
                        lemma_count_true_set(bb, j as int);
                    }
                    queue.push(j);
                    queued.set(j, true);
                    assert(queue@[queue.len() - 1] == j);
                    assert forall|x: int| 0 <= x < n && #[trigger] queued@[x] implies queue@.contains(x as usize) by {
                        if x != j {
                            assert(bb[x]);
                            let a = choose|a: int| 0 <= a < qq.len() && qq[a] == x as usize;
                            assert(queue@[a] == x as usize);
                        }
                    }
                    assert forall|a: int, b: int|
                        0 <= a < b < queue.len() implies #[trigger] queue@[a] != #[trigger] queue@[b] by {
                        if b == queue.len() - 1 {
                            assert(!bb[j as int]);
                            assert(bb[qq[a] as int]);
                        }
                    }
                }
            }
            j = j + 1;
        }
        proof {
            assert forall|k: int, m: int|
                0 <= k < head + 1 && 0 <= m < deps_of(tasks@[queue@[k] as int]).len()
                    implies #[trigger] appears_before(order@, k, deps_of(tasks@[queue@[k] as int])[m]) by {
                if k == head {
                    let d = deps_of(tasks@[t as int])[m];
                    assert(deps_done);
                    assert(old_done.contains(d));
                    let j = choose|j: int| 0 <= j < head && #[trigger] order0[j]@ == d;
                    assert(order@[j] == order0[j]);
                } else {
                    assert(queue@[k] == q0[k]);
                    assert(appears_before(order0, k, deps_of(tasks@[q0[k] as int])[m]));
                    let j = choose|j: int|
                        0 <= j < k && #[trigger] order0[j]@ == deps_of(tasks@[q0[k] as int])[m];
                    assert(order@[j] == order0[j]);
                }
            }
        }
        head = head + 1;
    }
    proof {
        assert forall|k: int, i: int, m: int|
            0 <= k < order.len() && 0 <= i < tasks@.len() && tasks@[i].id@ == order@[k]@ && 0 <= m
                < deps_of(tasks@[i]).len() implies #[trigger] appears_before(
            order@,
            k,
            deps_of(tasks@[i])[m],
        ) by {
            assert(tasks@[queue@[k] as int].id@ == order@[k]@);
            assert(queue@[k] as int == i);
            assert(appears_before(order@, k, deps_of(tasks@[queue@[k] as int])[m]));
        }
        assert forall|a: int, b: int|
            0 <= a < order.len() && 0 <= b < order.len() && a != b implies #[trigger] order@[a]@
                != #[trigger] order@[b]@ by {
            assert(tasks@[queue@[a] as int].id@ == order@[a]@);
            assert(tasks@[queue@[b] as int].id@ == order@[b]@);
        }
        assert forall|k: int| 0 <= k < order.len() implies has_task(tasks@, #[trigger] order@[k]@) by {
            assert(tasks@[queue@[k] as int].id@ == order@[k]@);
        }
        assert forall|x: Seq<char>| done.contains(x) == in_order(order@, x) by {}
        assert forall|i: int|
            0 <= i < tasks@.len() && !done.contains(#[trigger] tasks@[i].id@) implies exists|m: int|
                0 <= m < deps_of(tasks@[i]).len() && !done.contains(
                    #[trigger] deps_of(tasks@[i])[m],
                ) by {
            if queued@[i] {
                let a = choose|a: int| 0 <= a < queue.len() && queue@[a] == i as usize;
                assert(order@[a]@ == tasks@[i].id@);
            }
            lemma_count_not_in_zero(deps_of(tasks@[i]), done);
        }
        if deps_exist(tasks@) && acyclic(tasks@) {
            let rank = choose|rank: spec_fn(Seq<char>) -> nat| ranked_by(tasks@, rank);
            assert forall|i: int| 0 <= i < tasks@.len() implies in_order(order@, #[trigger] tasks@[i].id@) by {
                if !done.contains(tasks@[i].id@) {
                    lemma_stuck_rank(tasks@, rank, done, rank(tasks@[i].id@) + 1);
                }
            }
        }
    }
    order
}

proof fn lemma_count_not_in_all(s: Seq<Seq<char>>)
    ensures
        count_not_in(s, Set::empty()) == s.len(),
    decreases s.len(),
{
    if s.len() > 0 {
        lemma_count_not_in_all(s.drop_last());
    }
}

} // verus!
