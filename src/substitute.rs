use vstd::prelude::*;

use crate::fingerprint::push_char;
use crate::task::Task;

verus! {

/// A character that may start a variable name: an ASCII letter or `_`.
pub open spec fn is_name_start(c: char) -> bool {
    (65 <= (c as int) <= 90) || (97 <= (c as int) <= 122) || c == '_'
}

/// A character that may continue a variable name: also an ASCII digit.
pub open spec fn is_name_char(c: char) -> bool {
    is_name_start(c) || (48 <= (c as int) <= 57)
}

/// Where the run of name characters of `t` that starts at `k` ends.
pub open spec fn name_end(t: Seq<char>, k: int) -> int
    decreases t.len() - k,
{
    if 0 <= k < t.len() && is_name_char(t[k]) {
        name_end(t, k + 1)
    } else {
        k
    }
}

/// The length of a `${NAME}` reference at the start of `t`, or 0.
pub open spec fn braced_len(t: Seq<char>) -> int {
    if t.len() >= 3 && t[0] == '$' && t[1] == '{' && is_name_start(t[2]) && name_end(t, 2) < t.len()
        && t[name_end(t, 2)] == '}' {
        name_end(t, 2) + 1
    } else {
        0
    }
}

/// The length of a `$NAME` reference at the start of `t`, or 0. The name is
/// the longest run of ASCII letters, digits and `_`, so whatever character
/// follows it (a non-ASCII letter too) ends it. The bound on `name_end`
/// always holds; it is stated so that the recursion below visibly ends.
pub open spec fn simple_len(t: Seq<char>) -> int {
    if t.len() >= 2 && t[0] == '$' && is_name_start(t[1]) && name_end(t, 1) <= t.len() {
        name_end(t, 1)
    } else {
        0
    }
}

/// The value of the first variable called `name`.
pub open spec fn lookup(vars: Seq<(String, String)>, name: Seq<char>) -> Option<Seq<char>>
    decreases vars.len(),
{
    if vars.len() == 0 {
        None
    } else if vars[0].0@ == name {
        Some(vars[0].1@)
    } else {
        lookup(vars.drop_first(), name)
    }
}

/// A reference becomes the variable's value; an unknown one stays as written.
pub open spec fn replacement(vars: Seq<(String, String)>, name: Seq<char>, whole: Seq<char>) -> Seq<char> {
    match lookup(vars, name) {
        Some(v) => v,
        None => whole,
    }
}

/// `t` with each `${NAME}` reference replaced, left to right.
pub open spec fn subst_braced(t: Seq<char>, vars: Seq<(String, String)>) -> Seq<char>
    decreases t.len(),
{
    if t.len() == 0 {
        Seq::empty()
    } else if braced_len(t) > 0 {
        replacement(vars, t.subrange(2, braced_len(t) - 1), t.take(braced_len(t))) + subst_braced(
            t.skip(braced_len(t)),
            vars,
        )
    } else {
        seq![t[0]] + subst_braced(t.skip(1), vars)
    }
}

/// `t` with each `$NAME` reference replaced, left to right.
pub open spec fn subst_simple(t: Seq<char>, vars: Seq<(String, String)>) -> Seq<char>
    decreases t.len(),
{
    if t.len() == 0 {
        Seq::empty()
    } else if simple_len(t) > 0 {
        replacement(vars, t.subrange(1, simple_len(t)), t.take(simple_len(t))) + subst_simple(
            t.skip(simple_len(t)),
            vars,
        )
    } else {
        seq![t[0]] + subst_simple(t.skip(1), vars)
    }
}

proof fn lemma_name_end_bounds(t: Seq<char>, k: int)
    requires
        0 <= k <= t.len(),
    ensures
        k <= name_end(t, k) <= t.len(),
        forall|j: int| k <= j < name_end(t, k) ==> is_name_char(#[trigger] t[j]),
        name_end(t, k) < t.len() ==> !is_name_char(t[name_end(t, k)]),
    decreases t.len() - k,
{
    if k < t.len() && is_name_char(t[k]) {
        lemma_name_end_bounds(t, k + 1);
    }
}

/// `name_end` of a suffix is shifted by where the suffix starts.
proof fn lemma_name_end_skip(t: Seq<char>, i: int, k: int)
    requires
        0 <= i <= t.len(),
        0 <= k <= t.len() - i,
    ensures
        name_end(t.skip(i), k) == name_end(t, i + k) - i,
    decreases t.len() - i - k,
{
    if k < t.len() - i && is_name_char(t[i + k]) {
        assert(t.skip(i)[k] == t[i + k]);
        lemma_name_end_skip(t, i, k + 1);
    } else if k < t.len() - i {
        assert(t.skip(i)[k] == t[i + k]);
    }
}

fn is_name_start_exec(c: char) -> (r: bool)
    ensures
        r == is_name_start(c),
{
    ('A' <= c && c <= 'Z') || ('a' <= c && c <= 'z') || c == '_'
}

fn is_name_char_exec(c: char) -> (r: bool)
    ensures
        r == is_name_char(c),
{
    is_name_start_exec(c) || ('0' <= c && c <= '9')
}

fn chars_of(s: &str) -> (v: Vec<char>)
    ensures
        v@ == s@,
{
    let n = s.unicode_len();
    let mut v: Vec<char> = Vec::new();
    let mut i: usize = 0;
    while i < n
        invariant
            n == s@.len(),
            i <= n,
            v@ == s@.take(i as int),
        decreases n - i,
    {
        v.push(s.get_char(i));
        assert(v@ =~= s@.take(i + 1));
        i = i + 1;
    }
    assert(v@ =~= s@);
    v
}

fn push_all(out: &mut String, s: &Vec<char>, from: usize, to: usize)
    requires
        from <= to <= s@.len(),
    ensures
        final(out)@ == old(out)@ + s@.subrange(from as int, to as int),
{
    let mut i = from;
    while i < to
        invariant
            from <= i <= to,
            to <= s@.len(),
            out@ == old(out)@ + s@.subrange(from as int, i as int),
        decreases to - i,
    {
        push_char(out, s[i]);
        assert(old(out)@ + s@.subrange(from as int, i + 1) =~= old(out)@ + s@.subrange(from as int, i as int) + seq![s@[i as int]]);
        i = i + 1;
    }
}

fn name_end_exec(t: &Vec<char>, k: usize) -> (e: usize)
    requires
        k <= t@.len(),
    ensures
        e == name_end(t@, k as int),
{
    let mut j = k;
    while j < t.len() && is_name_char_exec(t[j])
        invariant
            k <= j <= t@.len(),
            name_end(t@, j as int) == name_end(t@, k as int),
        decreases t@.len() - j,
    {
        j = j + 1;
    }
    j
}

/// The value of the first variable called `t[from..to]`, if any.
fn lookup_exec(vars: &Vec<(String, String)>, t: &Vec<char>, from: usize, to: usize) -> (r: Option<usize>)
    requires
        from <= to <= t@.len(),
    ensures
        r matches Some(i) ==> i < vars@.len() && lookup(vars@, t@.subrange(from as int, to as int)) == Some(
            vars@[i as int].1@,
        ),
        r is None ==> lookup(vars@, t@.subrange(from as int, to as int)) is None,
{
    let ghost name = t@.subrange(from as int, to as int);
    assert(vars@.skip(0) =~= vars@);
    let mut i: usize = 0;
    while i < vars.len()
        invariant
            i <= vars@.len(),
            from <= to <= t@.len(),
            name == t@.subrange(from as int, to as int),
            lookup(vars@, name) == lookup(vars@.skip(i as int), name),
        decreases vars@.len() - i,
    {
        let key = vars[i].0.as_str();
        let mut same = key.unicode_len() == to - from;
        let mut c: usize = 0;
        while same && c < to - from
            invariant
                from <= to <= t@.len(),
                i < vars@.len(),
                key@ == vars@[i as int].0@,
                same ==> key@.len() == to - from,
                c <= to - from,
                same ==> forall|q: int| 0 <= q < c ==> key@[q] == t@[from + q],
                !same ==> key@ != t@.subrange(from as int, to as int),
            decreases to - from - c,
        {
            if key.get_char(c) != t[from + c] {
                assert(t@.subrange(from as int, to as int)[c as int] == t@[from + c]);
                same = false;
            }
            c = c + 1;
        }
        assert(vars@.skip(i as int)[0] == vars@[i as int]);
        assert(vars@.skip(i as int).drop_first() =~= vars@.skip(i + 1));
        if same {
            assert(key@ =~= name);
            return Some(i);
        }
        i = i + 1;
    }
    None
}

/// Appends the replacement of the reference `t[start..end]` named
/// `t[from..to]`.
fn push_replacement(out: &mut String, vars: &Vec<(String, String)>, t: &Vec<char>, start: usize, from: usize, to: usize, end: usize)
    requires
        start <= from <= to <= end <= t@.len(),
    ensures
        final(out)@ == old(out)@ + replacement(
            vars@,
            t@.subrange(from as int, to as int),
            t@.subrange(start as int, end as int),
        ),
{
    match lookup_exec(vars, t, from, to) {
        Some(i) => {
            let value = chars_of(vars[i].1.as_str());
            push_all(out, &value, 0, value.len());
            assert(value@.subrange(0, value@.len() as int) =~= value@);
        },
        None => {
            push_all(out, t, start, end);
        },
    }
}

/// Replaces each `${NAME}` reference with the variable's value, keeping
/// unknown references as written.
fn substitute_braced(t: &Vec<char>, vars: &Vec<(String, String)>) -> (r: String)
    ensures
        r@ == subst_braced(t@, vars@),
{
    let mut out = String::new();
    let n = t.len();
    let mut i: usize = 0;
    assert(t@.skip(0) =~= t@);
    while i < n
        invariant
            n == t@.len(),
            i <= n,
            out@ + subst_braced(t@.skip(i as int), vars@) == subst_braced(t@, vars@),
        decreases n - i,
    {
        let ghost rest = t@.skip(i as int);
        let mut len: usize = 0;
        if n - i > 2 && t[i] == '$' && t[i + 1] == '{' && is_name_start_exec(t[i + 2]) {
            let e = name_end_exec(t, i + 2);
            proof {
                lemma_name_end_skip(t@, i as int, 2);
                lemma_name_end_bounds(t@, i + 2);
                assert(rest[0] == t@[i as int] && rest[1] == t@[i + 1] && rest[2] == t@[i + 2]);
            }
            if e < n && t[e] == '}' {
                len = e + 1 - i;
            }
            proof {
                if e < n {
                    assert(rest[e - i] == t@[e as int]);
                }
                assert(braced_len(rest) == len);
            }
        } else {
            proof {
                if rest.len() >= 3 {
                    assert(rest[0] == t@[i as int] && rest[1] == t@[i + 1] && rest[2] == t@[i + 2]);
                }
                assert(braced_len(rest) == 0);
            }
        }
        if len > 0 {
            push_replacement(&mut out, vars, t, i, i + 2, i + len - 1, i + len);
            proof {
                assert(rest.subrange(2, len - 1) =~= t@.subrange(i + 2, i + len - 1));
                assert(rest.take(len as int) =~= t@.subrange(i as int, i + len));
                assert(rest.skip(len as int) =~= t@.skip(i + len));
            }
            i = i + len;
        } else {
            push_char(&mut out, t[i]);
            proof {
                assert(rest.skip(1) =~= t@.skip(i + 1));
                assert(rest[0] == t@[i as int]);
            }
            i = i + 1;
        }
        proof {
            assert(out@ + subst_braced(t@.skip(i as int), vars@) =~= subst_braced(t@, vars@));
        }
    }
    assert(t@.skip(n as int) =~= Seq::<char>::empty());
    assert(out@ =~= out@ + subst_braced(t@.skip(n as int), vars@));
    out
}

/// Replaces each `$NAME` reference with the variable's value, keeping
/// unknown references as written.
fn substitute_simple(t: &Vec<char>, vars: &Vec<(String, String)>) -> (r: String)
    ensures
        r@ == subst_simple(t@, vars@),
{
    let mut out = String::new();
    let n = t.len();
    let mut i: usize = 0;
    assert(t@.skip(0) =~= t@);
    while i < n
        invariant
            n == t@.len(),
            i <= n,
            out@ + subst_simple(t@.skip(i as int), vars@) == subst_simple(t@, vars@),
        decreases n - i,
    {
        let ghost rest = t@.skip(i as int);
        let mut len: usize = 0;
        if n - i > 1 && t[i] == '$' && is_name_start_exec(t[i + 1]) {
            let e = name_end_exec(t, i + 1);
            proof {
                lemma_name_end_skip(t@, i as int, 1);
                lemma_name_end_bounds(t@, i + 1);
                assert(rest[0] == t@[i as int] && rest[1] == t@[i + 1]);
                assert(is_name_char(t@[i + 1]));
                assert(name_end(t@, i + 1) == name_end(t@, i + 2));
                lemma_name_end_bounds(t@, i + 2);
            }
            len = e - i;
            assert(simple_len(rest) == len);
        } else {
            proof {
                if rest.len() >= 2 {
                    assert(rest[0] == t@[i as int] && rest[1] == t@[i + 1]);
                }
                assert(simple_len(rest) == 0);
            }
        }
        if len > 0 {
            push_replacement(&mut out, vars, t, i, i + 1, i + len, i + len);
            proof {
                assert(rest.subrange(1, len as int) =~= t@.subrange(i + 1, i + len));
                assert(rest.take(len as int) =~= t@.subrange(i as int, i + len));
                assert(rest.skip(len as int) =~= t@.skip(i + len));
            }
            i = i + len;
        } else {
            push_char(&mut out, t[i]);
            proof {
                assert(rest.skip(1) =~= t@.skip(i + 1));
                assert(rest[0] == t@[i as int]);
            }
            i = i + 1;
        }
        proof {
            assert(out@ + subst_simple(t@.skip(i as int), vars@) =~= subst_simple(t@, vars@));
        }
    }
    assert(t@.skip(n as int) =~= Seq::<char>::empty());
    assert(out@ =~= out@ + subst_simple(t@.skip(n as int), vars@));
    out
}

/// `${NAME}` references first, then `$NAME` references in the result.
pub open spec fn substituted(t: Seq<char>, vars: Seq<(String, String)>) -> Seq<char> {
    subst_simple(subst_braced(t, vars), vars)
}

/// Replaces variable references, `${NAME}` first and then `$NAME`, with
/// the value of the first variable of that name; a reference to an unknown
/// variable stays as written.
pub fn substitute_variables(text: &str, variables: &Vec<(String, String)>) -> (r: String)
    ensures
        r@ == substituted(text@, variables@),
{
    let t = chars_of(text);
    let once = substitute_braced(&t, variables);
    let u = chars_of(once.as_str());
    substitute_simple(&u, variables)
}

fn substitute_all(paths: &Vec<String>, variables: &Vec<(String, String)>) -> (r: Vec<String>)
    ensures
        r@.len() == paths@.len(),
        forall|k: int| 0 <= k < r@.len() ==> #[trigger] r@[k]@ == substituted(paths@[k]@, variables@),
{
    let mut r: Vec<String> = Vec::new();
    let mut k: usize = 0;
    while k < paths.len()
        invariant
            k <= paths@.len(),
            r@.len() == k,
            forall|q: int| 0 <= q < k ==> #[trigger] r@[q]@ == substituted(paths@[q]@, variables@),
        decreases paths@.len() - k,
    {
        r.push(substitute_variables(paths[k].as_str(), variables));
        k = k + 1;
    }
    r
}

/// `after` is `before` with variables substituted in its command, inputs
/// and outputs, and everything else unchanged.
pub open spec fn substituted_task(before: Task, after: Task, vars: Seq<(String, String)>) -> bool {
    &&& after.id == before.id
    &&& after.command@ == substituted(before.command@, vars)
    &&& after.dependencies == before.dependencies
    &&& after.aliases == before.aliases
    &&& after.inputs@.len() == before.inputs@.len()
    &&& forall|k: int| 0 <= k < after.inputs@.len() ==> #[trigger] after.inputs@[k]@ == substituted(before.inputs@[k]@, vars)
    &&& after.outputs@.len() == before.outputs@.len()
    &&& forall|k: int| 0 <= k < after.outputs@.len() ==> #[trigger] after.outputs@[k]@ == substituted(before.outputs@[k]@, vars)
    &&& after.auto_remove == before.auto_remove
    &&& after.timeout == before.timeout
}

/// Substitutes variables in the task's command and path patterns.
pub fn substitute_variables_in_task(task: &mut Task, variables: &Vec<(String, String)>)
    ensures
        substituted_task(*old(task), *final(task), variables@),
{
    task.command = substitute_variables(task.command.as_str(), variables);
    task.inputs = substitute_all(&task.inputs, variables);
    task.outputs = substitute_all(&task.outputs, variables);
}

} // verus!
