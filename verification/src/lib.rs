//! Core of a vocabulary-learning backend: batching of submitted words into
//! capacity-bounded review sets, a staged review schedule with time-based
//! eligibility, and an active/archive repository split with recall and search.

use vstd::prelude::*;

pub mod auth;
pub mod card;
pub mod cardset;
mod clock;
pub mod config;
pub mod llm;
pub mod repo;
pub mod rule;
pub mod service;
pub mod stage;
pub mod table;
pub mod text;

verus! {

/// Maximum number of cards a review set may hold.
pub const MAX_SET_LEN: usize = 8;

/// The failures the lifecycle core can report.
///
/// `NotFound` and `InvalidTransition` arise inside the core. A caller
/// environment that persists the stores or calls a content generator maps
/// its own failures onto `StorageFailure` and `UpstreamContentError`.
#[derive(Debug, PartialEq, Eq, Structural, Clone, Copy)]
pub enum LifecycleError {
    /// A set or card identifier holds no record.
    NotFound,
    /// An operation was asked of a set whose stage forbids it, such as an
    /// append to a set that is not writable.
    InvalidTransition,
    /// Reading or writing a backing store failed.
    StorageFailure,
    /// An outside content collaborator failed.
    UpstreamContentError,
}

impl LifecycleError {
    /// A short description of the failure.
    pub fn describe(&self) -> (r: &'static str)
        ensures
            r@.len() > 0,
    {
        let msg: &'static str = match self {
            LifecycleError::NotFound => "record not found",
            LifecycleError::InvalidTransition => "operation not allowed in this stage",
            LifecycleError::StorageFailure => "storage failure",
            LifecycleError::UpstreamContentError => "upstream content service failure",
        };
        proof {
            reveal_strlit("record not found");
            reveal_strlit("operation not allowed in this stage");
            reveal_strlit("storage failure");
            reveal_strlit("upstream content service failure");
        }
        msg
    }
}

} // verus!
