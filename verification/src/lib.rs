//! An in-memory, line-indexed rope: a self-balancing binary tree that stores
//! an ordered sequence of lines split across bounded-size leaves, giving
//! logarithmic indexed access, insertion and deletion.
//!
//! Out-of-range indices are a caller contract: every indexed operation states
//! its precondition with `requires`, and verified callers must establish it.

pub mod rope;
pub mod row;
