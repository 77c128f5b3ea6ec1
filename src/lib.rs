//! Process schedulers for a single-CPU embedded kernel: a priority round-robin
//! scheduler whose priorities reward processes that use little CPU time, and a
//! fixed-priority scheduler that always runs the lowest-indexed ready process.
use vstd::prelude::*;

pub mod collections;
pub mod scheduler;
pub mod components;

verus! {

} // verus!
