//! Cache-aware collection of repository metadata from a code-hosting
//! provider: target enumeration, freshness checks, bounded dispatch over a
//! pool of credentials, and merging of per-target outcomes.
use vstd::prelude::*;

pub mod error;
pub mod target;
pub mod freshness;
pub mod pool;
pub mod collect;
pub mod record;

verus! {

} // verus!
