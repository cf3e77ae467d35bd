//! Lazy, in-memory relational joins of a left-hand side (LHS) slice against a
//! right-hand side ([RHS]) slice, driven by a three-way comparison predicate.
//!
//! Per-match joins ([Joinable]) yield one element per matching pair; grouped
//! joins ([JoinableGrouped]) yield one element per LHS record, together with all
//! of its matches, or the bare LHS record for semi- and anti-joins.
pub mod laws;
pub mod model;
pub mod joined;
pub mod joined_grouped;
pub mod rhs;

pub use joined::{Joinable, JoinedEachInner, JoinedEachOuter};
pub use joined_grouped::{JoinableGrouped, JoinedGrouped, JoinedLeft};
pub use rhs::RHS;
