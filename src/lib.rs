// A state compressor for room state: each version of a room's state is a
// layer of added and removed events over an earlier version, stored as one
// packed record per short state hash, with a bounded cache of materialized
// stacks.
use vstd::prelude::*;

pub mod event;
pub mod stateset;
pub mod codec;
pub mod layers;
pub mod cache;
pub mod content_disposition;
pub mod service;

verus! {

} // verus!
