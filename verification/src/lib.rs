//! A virtual-branch engine: several independent lines of development share one
//! working directory. Uncommitted changes are partitioned at hunk granularity
//! among virtual branches, hunks that overlap committed content are reported as
//! locked to the commits they depend on, and selected hunks can be materialized
//! into commits without disturbing the rest of the working tree.

pub mod branch;
pub mod errors;
pub mod hunks;
pub mod laws;
pub mod locks;
pub mod project;
pub mod reconcile;
pub mod store;
pub mod tree;
pub mod util;
