//! The shape of a map/reduce job: a mapper from input records to intermediate pairs,
//! and a reducer from a key and its values to results.
use vstd::prelude::*;

verus! {

/// Turns one input record into intermediate values.
pub trait Mapper<K, V> {
    type Intermediate;

    fn map(key: K, value: V) -> Vec<Self::Intermediate>;
}

/// Turns a key and all of its intermediate values into results.
pub trait Reducer<K, V> {
    type Result;

    fn reduce(key: K, mappings: Vec<V>) -> Vec<Self::Result>;
}

} // verus!
