use vstd::prelude::*;

use crate::task::{is_glob_pattern, spec_is_glob, Task};

verus! {

/// `**` starts at position `i` of `s`.
pub open spec fn double_star_at(s: Seq<char>, i: int) -> bool {
    0 <= i && i + 1 < s.len() && s[i] == '*' && s[i + 1] == '*'
}

/// The output lies under the text before the input's first `**`, and that
/// text is not empty.
pub open spec fn under_double_star(output: Seq<char>, input: Seq<char>) -> bool {
    exists|i: int|
        #[trigger] double_star_at(input, i) && (forall|j: int| 0 <= j < i ==> !double_star_at(input, j))
            && i > 0 && i <= output.len() && output.subrange(0, i) == input.subrange(0, i)
}

/// The output equals the input pattern, or the input is a glob that
/// currently matches it.
pub open spec fn direct_match(output: Seq<char>, input: Seq<char>, matches: Seq<String>) -> bool {
    ||| output == input
    ||| spec_is_glob(input) && exists|k: int| 0 <= k < matches.len() && #[trigger] matches[k]@ == output
}

/// A dependency's output feeds an input pattern: the two are equal, the
/// input is a glob that currently matches the output, or the output lies
/// under the input's `**` prefix.
pub open spec fn feeds(output: Seq<char>, input: Seq<char>, matches: Seq<String>) -> bool {
    direct_match(output, input, matches) || under_double_star(output, input)
}

/// Whether a dependency's declared output feeds a task's declared input;
/// `input_matches` are the paths that the input glob currently matches.
pub fn paths_match(output: &str, input: &str, input_matches: &Vec<String>) -> (r: bool)
    ensures
        r == feeds(output@, input@, input_matches@),
{
    let no = output.unicode_len();
    let ni = input.unicode_len();
    let mut same = no == ni;
    let mut k: usize = 0;
    while same && k < no
        invariant
            no == output@.len(),
            ni == input@.len(),
            k <= no,
            same ==> no == ni,
            same ==> forall|j: int| 0 <= j < k ==> output@[j] == input@[j],
            !same ==> output@ != input@,
        decreases no - k,
    {
        if output.get_char(k) != input.get_char(k) {
            same = false;
        }
        k = k + 1;
    }
    if same {
        assert(output@ =~= input@);
        return true;
    }
    if is_glob_pattern(input) {
        let mut m: usize = 0;
        while m < input_matches.len()
            invariant
                no == output@.len(),
                spec_is_glob(input@),
                m <= input_matches.len(),
                forall|j: int| 0 <= j < m ==> #[trigger] input_matches@[j]@ != output@,
            decreases input_matches.len() - m,
        {
            if input_matches[m].as_str().unicode_len() == no {
                let cand = input_matches[m].as_str();
                let mut eq = true;
                let mut c: usize = 0;
                while eq && c < no
                    invariant
                        no == output@.len(),
                        m < input_matches@.len(),
                        cand@ == input_matches@[m as int]@,
                        cand@.len() == no,
                        c <= no,
                        eq ==> forall|j: int| 0 <= j < c ==> output@[j] == cand@[j],
                        !eq ==> output@ != cand@,
                    decreases no - c,
                {
                    if cand.get_char(c) != output.get_char(c) {
                        eq = false;
                    }
                    c = c + 1;
                }
                if eq {
                    assert(cand@ =~= output@);
                    assert(input_matches@[m as int]@ == output@);
                    return true;
                }
            }
            m = m + 1;
        }
    }
    assert(!direct_match(output@, input@, input_matches@));
    let mut i: usize = 0;
    while i < ni && i + 1 < ni && !(input.get_char(i) == '*' && input.get_char(i + 1) == '*')
        invariant
            !direct_match(output@, input@, input_matches@),
            ni == input@.len(),
            i <= ni,
            forall|j: int| 0 <= j < i ==> !double_star_at(input@, j),
        decreases ni - i,
    {
        i = i + 1;
    }
    if i >= ni || i + 1 >= ni {
        assert(!under_double_star(output@, input@)) by {
            if under_double_star(output@, input@) {
                let q = choose|q: int|
                    #[trigger] double_star_at(input@, q) && (forall|j: int| 0 <= j < q ==> !double_star_at(input@, j))
                        && q > 0 && q <= output@.len() && output@.subrange(0, q) == input@.subrange(0, q);
            }
        }
        return false;
    }
    assert(double_star_at(input@, i as int));
    if i == 0 || i > no {
        assert(!under_double_star(output@, input@)) by {
            if under_double_star(output@, input@) {
                let q = choose|q: int|
                    #[trigger] double_star_at(input@, q) && (forall|j: int| 0 <= j < q ==> !double_star_at(input@, j))
                        && q > 0 && q <= output@.len() && output@.subrange(0, q) == input@.subrange(0, q);
                assert(q == i);
            }
        }
        return false;
    }
    let mut c: usize = 0;
    while c < i
        invariant
            !direct_match(output@, input@, input_matches@),
            double_star_at(input@, i as int),
            forall|j: int| 0 <= j < i ==> !double_star_at(input@, j),
            i <= no,
            no == output@.len(),
            ni == input@.len(),
            i < ni,
            c <= i,
            forall|j: int| 0 <= j < c ==> output@[j] == input@[j],
        decreases i - c,
    {
        if output.get_char(c) != input.get_char(c) {
            assert(!under_double_star(output@, input@)) by {
                if under_double_star(output@, input@) {
                    let q = choose|q: int|
                        #[trigger] double_star_at(input@, q) && (forall|j: int| 0 <= j < q ==> !double_star_at(input@, j))
                            && q > 0 && q <= output@.len() && output@.subrange(0, q) == input@.subrange(0, q);
                    assert(q == i);
                    assert(output@.subrange(0, q)[c as int] == output@[c as int]);
                }
            }
            return false;
        }
        c = c + 1;
    }
    assert(output@.subrange(0, i as int) =~= input@.subrange(0, i as int));
    assert(under_double_star(output@, input@));
    true
}

/// Some declared output of the dependency feeds some declared input of the
/// task (`input_matches[k]` holds the current matches of input `k`).
pub open spec fn file_relationship(task: Task, dependency: Task, input_matches: Seq<Vec<String>>) -> bool {
    exists|o: int, k: int|
        0 <= o < dependency.outputs@.len() && 0 <= k < task.inputs@.len() && #[trigger] feeds(
            dependency.outputs@[o]@,
            task.inputs@[k]@,
            input_matches[k]@,
        )
}

/// Whether the dependency passes a file to the task, rather than only
/// ordering it.
pub fn has_file_relationship(task: &Task, dependency: &Task, input_matches: &Vec<Vec<String>>) -> (r: bool)
    requires
        input_matches@.len() == task.inputs@.len(),
    ensures
        r == file_relationship(*task, *dependency, input_matches@),
{
    let mut o: usize = 0;
    while o < dependency.outputs.len()
        invariant
            input_matches@.len() == task.inputs@.len(),
            o <= dependency.outputs@.len(),
            forall|a: int, k: int|
                0 <= a < o && 0 <= k < task.inputs@.len() ==> !#[trigger] feeds(
                    dependency.outputs@[a]@,
                    task.inputs@[k]@,
                    input_matches@[k]@,
                ),
        decreases dependency.outputs@.len() - o,
    {
        let mut k: usize = 0;
        while k < task.inputs.len()
            invariant
                input_matches@.len() == task.inputs@.len(),
                o < dependency.outputs@.len(),
                k <= task.inputs@.len(),
                forall|a: int, kk: int|
                    0 <= a < o && 0 <= kk < task.inputs@.len() ==> !#[trigger] feeds(
                        dependency.outputs@[a]@,
                        task.inputs@[kk]@,
                        input_matches@[kk]@,
                    ),
                forall|kk: int|
                    0 <= kk < k ==> !#[trigger] feeds(dependency.outputs@[o as int]@, task.inputs@[kk]@, input_matches@[kk]@),
            decreases task.inputs@.len() - k,
        {
            if paths_match(dependency.outputs[o].as_str(), task.inputs[k].as_str(), &input_matches[k]) {
                return true;
            }
            k = k + 1;
        }
        o = o + 1;
    }
    false
}

} // verus!
