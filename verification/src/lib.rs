//! Duplicate-file consolidation core.
//!
//! A filename may carry an enumeration suffix — a parenthesized positive
//! number, as in `report (2).pdf` — that file managers append to avoid
//! collisions. This
//! library derives the canonical identity of a filename by stripping that
//! suffix, groups file records that share an identity, orders each group by
//! its timestamps, and computes the deletion/rename plan that consolidates
//! each group into one canonical file. All filesystem traversal and mutation
//! is left to the caller; the functions here are pure and verified.

pub mod consolidate;
pub mod grouping;
pub mod names;
pub mod records;

pub use consolidate::GroupPlan;
pub use consolidate::consolidate_plan;
pub use grouping::DuplicateGroup;
pub use grouping::group;
pub use names::is_hidden;
pub use names::normalize;
pub use records::FileRecord;
