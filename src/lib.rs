//! An incremental task-orchestration engine: a validated graph of tasks,
//! dependency levels, change detection against a fingerprint cache, and a
//! level-by-level scheduler with a worker cap.

pub mod analysis;
pub mod cache;
pub mod config;
pub mod detect;
pub mod fingerprint;
pub mod graph;
pub mod levels;
pub mod required;
pub mod resolve;
pub mod runner;
pub mod substitute;
pub mod task;
pub mod timeout;
pub mod validate;

pub use analysis::{has_file_relationship, paths_match};
pub use cache::Cache;
pub use config::{load_tasks, ConfigSection, TaskConfiguration};
pub use substitute::{substitute_variables, substitute_variables_in_task};
pub use detect::{newest_timestamp, oldest_timestamp, outputs_exist, outputs_outdated, should_run, ChangeFacts};
pub use fingerprint::{has_distinct_paths, hash_files, to_hex, InputFile};
pub use graph::sort_topologically;
pub use levels::{calculate_dependency_levels, task_levels, ExecutionLevel};
pub use required::get_required_tasks;
pub use resolve::{expand_globs, GlobMatch, PathProbe};
pub use runner::{OutputMode, RunSummary, Step, TaskOutcome, TaskRunner};
pub use task::{is_glob_pattern, CommandError, CompiError, DependencyError, FileError, Task};
pub use timeout::parse_timeout;
pub use validate::{detect_cycles, find_task, validate_tasks};
