//! Mirror selection engine: retrieves a mirror status document through a
//! TTL-bound cache, filters the mirror records by composable inclusive
//! criteria, optionally rates a bounded subset by measured throughput, and
//! sorts and truncates the survivors into an ordered selection.

use vstd::prelude::*;

pub mod cache;
pub mod codec;
pub mod config;
pub mod country;
pub mod errors;
pub mod filters;
pub mod rate;
pub mod select;
pub mod sort;
pub mod status;
pub mod strutil;
pub mod timeparse;

verus! {

/// Sets up logging for the surrounding tool. The engine itself logs
/// nothing, so there is nothing to initialize.
pub fn get_logger() {
}

} // verus!
