//! The stages that a worker node runs: map, shuffle and reduce, and the bucket hash.
pub mod hasher;
pub mod map;
pub mod reduce;
pub mod shuffle;
