//! An in-memory task list keyed by integer identifiers, with a flat
//! line-per-record text format for saving and restoring it.
use vstd::prelude::*;

pub mod codec;
pub mod laws;
pub mod registry;
pub mod task;
pub mod text;

verus! {

} // verus!
