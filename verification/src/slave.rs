//! The stages of the earlier worker node ("slave"): shuffle into numbered files and reduce.
pub mod hasher;
pub mod reduce;
pub mod shuffle;
