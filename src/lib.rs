//! Per-request batched loading of the skills that belong to coders.
//!
//! Lookups issued while one request is resolved are collected into a batch,
//! sent to the store as one grouped fetch, partitioned by coder, and handed
//! back to every caller that asked for a coder of that batch.
pub mod grouping;
pub mod loader;
pub mod model;
pub mod mutation;

pub use grouping::group_by_coder;
pub use loader::{CoderDataLoader, Outcome, ScopeClosed, ScopeState, Slot};
pub use model::{parse_key, Coder, KeyParseError, Skill, StoreError};
pub use mutation::{Mutation, NewSkill, SkillUpdate};
