use vstd::prelude::*;

verus! {

/// A named unit of work: a shell command, its declared input and output path
/// patterns, and the tasks that must finish before it starts.
#[derive(Debug, Clone)]
pub struct Task {
    pub id: String,
    pub command: String,
    pub dependencies: Vec<String>,
    pub aliases: Vec<String>,
    pub inputs: Vec<String>,
    pub outputs: Vec<String>,
    pub auto_remove: bool,
    pub timeout: Option<String>,
}

/// A pattern is a glob when it holds one of the metacharacters `*`, `?`, `[`.
pub open spec fn spec_is_glob(p: Seq<char>) -> bool {
    p.contains('*') || p.contains('?') || p.contains('[')
}

/// Whether a declared path pattern must be expanded as a glob.
pub fn is_glob_pattern(path: &str) -> (r: bool)
    ensures
        r == spec_is_glob(path@),
{
    let n = path.unicode_len();
    let mut i: usize = 0;
    while i < n
        invariant
            n == path@.len(),
            0 <= i <= n,
            forall|j: int| 0 <= j < i ==> path@[j] != '*' && path@[j] != '?' && path@[j] != '[',
        decreases n - i,
    {
        let c = path.get_char(i);
        if c == '*' || c == '?' || c == '[' {
            assert(path@[i as int] == c);
            return true;
        }
        i = i + 1;
    }
    false
}

} // verus!

verus! {

/// Why a task graph was rejected.
#[derive(Debug, Clone)]
pub enum DependencyError {
    /// Two tasks carry this id.
    DuplicateId { id: String },
    /// The task lists itself among its dependencies.
    SelfDependency { task: String },
    /// The task depends on an id that no task carries.
    MissingDependency { task: String, dependency: String },
    /// The task defines an alias equal to a task id.
    AliasShadowsId { task: String, alias: String },
    /// The task defines an alias that `other` defines as well.
    DuplicateAlias { task: String, alias: String, other: String },
    /// A dependency cycle: the traversal path, then the node that closes it.
    Cycle { path: Vec<String> },
}

/// The errors of the engine.
#[derive(Debug, Clone)]
pub enum CompiError {
    /// The requested task id or alias names no task.
    Task(String),
    /// The task graph is malformed.
    Dependency(DependencyError),
    /// A file could not be read or written.
    Io(String),
    /// A path pattern could not be resolved.
    File(FileError),
    /// A command failed to start or ran out of time.
    Command(CommandError),
    /// The configuration could not be parsed.
    Parse(String),
}

/// Why a set of path patterns could not be resolved.
#[derive(Debug, Clone, PartialEq, Eq)]
pub enum FileError {
    /// The pattern is not a valid glob.
    GlobPattern(String),
    /// A path matched by the glob could not be read.
    GlobExpansion(String),
    /// Another I/O failure.
    Io(String),
}

/// Why a command did not produce an exit status.
#[derive(Debug, Clone, PartialEq, Eq)]
pub enum CommandError {
    /// The command could not be started or waited for.
    Io(String),
    /// The command ran past its deadline and was killed.
    Timeout,
}

} // verus!
