//! A small work-item tracker: issues, typed dependency edges between them, an
//! audit trail, and the bookkeeping that keeps a line-oriented snapshot in
//! step with the store. Every operation carries a contract over the store's
//! mathematical view.

pub mod clock;
pub mod commands;
pub mod error;
pub mod hash;
pub mod ident;
pub mod laws;
pub mod lines;
pub mod listing;
pub mod order;
pub mod schema;
pub mod seqs;
pub mod snapshot;
pub mod storage;
pub mod sync;
pub mod text;
pub mod textmap;
pub mod types;
pub mod utils;

pub use crate::error::TraceError;
pub use crate::storage::{IssueUpdates, MemoryStorage, Storage};
pub use crate::types::{
    BlockedIssue, Dependency, DependencyType, Event, EventType, Issue, IssueFilter, IssueType, Label,
    Statistics, Status, Timestamp, TreeNode, WorkFilter,
};
pub use crate::utils::{find_database_path, find_jsonl_path, get_actor};
