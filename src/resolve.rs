use vstd::prelude::*;

use crate::task::FileError;

verus! {

/// A path that a glob matched, and whether it is a regular file.
#[derive(Debug, Clone)]
pub struct GlobMatch {
    pub path: String,
    pub is_file: bool,
}

/// What the file system showed for one declared path pattern.
#[derive(Debug)]
pub enum PathProbe {
    /// A literal path, and whether it exists.
    Literal { path: String, exists: bool },
    /// A glob pattern: its matches, or why it could not be expanded.
    Glob(Result<Vec<GlobMatch>, FileError>),
}

/// The paths that a probe keeps: an existing literal path, or the regular
/// files that a glob matched.
pub open spec fn kept(p: PathProbe) -> Seq<Seq<char>> {
    match p {
        PathProbe::Literal { path, exists } => if exists {
            seq![path@]
        } else {
            Seq::empty()
        },
        PathProbe::Glob(Ok(ms)) => kept_matches(ms@),
        PathProbe::Glob(Err(_)) => Seq::empty(),
    }
}

/// The regular files among glob matches.
pub open spec fn kept_matches(ms: Seq<GlobMatch>) -> Seq<Seq<char>>
    decreases ms.len(),
{
    if ms.len() == 0 {
        Seq::empty()
    } else {
        kept_matches(ms.drop_last()) + if ms.last().is_file {
            seq![ms.last().path@]
        } else {
            Seq::empty()
        }
    }
}

/// The paths kept by all probes, in order.
pub open spec fn all_kept(ps: Seq<PathProbe>) -> Seq<Seq<char>>
    decreases ps.len(),
{
    if ps.len() == 0 {
        Seq::empty()
    } else {
        all_kept(ps.drop_last()) + kept(ps.last())
    }
}

/// `s` without repeats, each path where it first occurs.
pub open spec fn first_occurrences(s: Seq<Seq<char>>) -> Seq<Seq<char>>
    decreases s.len(),
{
    if s.len() == 0 {
        Seq::empty()
    } else {
        let d = first_occurrences(s.drop_last());
        if d.contains(s.last()) {
            d
        } else {
            d.push(s.last())
        }
    }
}

/// The paths held by a vector of strings.
pub open spec fn paths_of(v: Seq<String>) -> Seq<Seq<char>> {
    v.map_values(|s: String| s@)
}

/// Some probe is a glob that could not be expanded.
pub open spec fn has_error(ps: Seq<PathProbe>) -> bool {
    exists|k: int| 0 <= k < ps.len() && #[trigger] ps[k] is Glob && ps[k]->Glob_0 is Err
}

/// Whether `v` already holds the path.
fn holds(v: &Vec<String>, x: &String) -> (r: bool)
    ensures
        r == paths_of(v@).contains(x@),
{
    let mut k: usize = 0;
    while k < v.len()
        invariant
            k <= v.len(),
            forall|j: int| 0 <= j < k ==> #[trigger] v@[j]@ != x@,
        decreases v.len() - k,
    {
        if v[k] == *x {
            assert(paths_of(v@)[k as int] == x@);
            return true;
        }
        k = k + 1;
    }
    assert forall|j: int| 0 <= j < v@.len() implies #[trigger] paths_of(v@)[j] != x@ by {
        assert(paths_of(v@)[j] == v@[j]@);
    }
    false
}

/// Appends the path unless it is already there.
fn add_once(v: &mut Vec<String>, x: &String)
    ensures
        paths_of(final(v)@) == if paths_of(old(v)@).contains(x@) {
            paths_of(old(v)@)
        } else {
            paths_of(old(v)@).push(x@)
        },
{
    if !holds(v, x) {
        v.push(x.clone());
        assert(paths_of(v@) =~= paths_of(old(v)@).push(x@));
    }
}

/// Resolves declared path patterns into the concrete files they name: an
/// existing literal path, or the regular files a glob matches, each path
/// once, in the order first met. A glob that could not be expanded makes the
/// whole resolution fail with its error.
pub fn expand_globs(probes: &Vec<PathProbe>) -> (r: Result<Vec<String>, FileError>)
    ensures
        r is Err <==> has_error(probes@),
        r matches Ok(v) ==> paths_of(v@) == first_occurrences(all_kept(probes@)),
{
    let mut out: Vec<String> = Vec::new();
    let mut k: usize = 0;
    while k < probes.len()
        invariant
            k <= probes.len(),
            !has_error(probes@.subrange(0, k as int)),
            paths_of(out@) == first_occurrences(all_kept(probes@.subrange(0, k as int))),
        decreases probes.len() - k,
    {
        let ghost pre = probes@.subrange(0, k as int);
        let ghost pre1 = probes@.subrange(0, k + 1);
        assert(pre1.drop_last() =~= pre);
        assert(pre1.last() == probes@[k as int]);
        match &probes[k] {
            PathProbe::Literal { path, exists } => {
                if *exists {
                    add_once(&mut out, path);
                    assert(all_kept(pre1) =~= all_kept(pre).push(path@));
                    assert(all_kept(pre1).drop_last() =~= all_kept(pre));
                } else {
                    assert(all_kept(pre1) =~= all_kept(pre));
                }
            },
            PathProbe::Glob(Err(e)) => {
                assert(has_error(probes@)) by {
                    assert(probes@[k as int] is Glob);
                }
                return Err(e.clone());
            },
            PathProbe::Glob(Ok(ms)) => {
                let mut j: usize = 0;
                assert(ms@.subrange(0, 0) =~= Seq::<GlobMatch>::empty());
                assert(all_kept(pre) + kept_matches(ms@.subrange(0, 0)) =~= all_kept(pre));
                while j < ms.len()
                    invariant
                        j <= ms.len(),
                        paths_of(out@) == first_occurrences(
                            all_kept(pre) + kept_matches(ms@.subrange(0, j as int)),
                        ),
                    decreases ms.len() - j,
                {
                    let ghost before = all_kept(pre) + kept_matches(ms@.subrange(0, j as int));
                    assert(ms@.subrange(0, j + 1).drop_last() =~= ms@.subrange(0, j as int));
                    if ms[j].is_file {
                        add_once(&mut out, &ms[j].path);
                        assert(all_kept(pre) + kept_matches(ms@.subrange(0, j + 1)) =~= before.push(ms@[j as int].path@));
                        assert(before.push(ms@[j as int].path@).drop_last() =~= before);
                    } else {
                        assert(all_kept(pre) + kept_matches(ms@.subrange(0, j + 1)) =~= before);
                    }
                    j = j + 1;
                }
                assert(ms@.subrange(0, ms.len() as int) =~= ms@);
                assert(all_kept(pre1) =~= all_kept(pre) + kept_matches(ms@));
            },
        }
        assert(!has_error(pre1)) by {
            if has_error(pre1) {
                let q = choose|q: int| 0 <= q < pre1.len() && #[trigger] pre1[q] is Glob && pre1[q]->Glob_0 is Err;
                if q < k {
                    assert(pre[q] == pre1[q]);
                }
            }
        }
        k = k + 1;
    }
    assert(probes@.subrange(0, probes.len() as int) =~= probes@);
    Ok(out)
}

} // verus!
