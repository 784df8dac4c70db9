//! Estimates the hours that contributors spent on a repository from the
//! timestamps of the commits reachable from its branches.
pub mod estimate;
pub mod idset;
pub mod repo;
pub mod report;
pub mod walk;

pub use estimate::{estimate_hours, Args};
pub use repo::{
    branch_prefix, collect_from_tips, get_commit_times_by_author, select_tips, CollectError, ListedRef,
};
pub use report::{build_reports, sort_by_hours, AuthorReport};
pub use walk::{AuthorTimes, CommitRecord, CommitWalk, Signature};
