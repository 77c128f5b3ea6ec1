//! Collections used by the schedulers.
use vstd::prelude::*;

pub mod bounded;
pub mod list;

verus! {

} // verus!
