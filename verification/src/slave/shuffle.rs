//! The shuffle stage of the earlier worker node: its split files are named `shuffle_split_{k}.txt`.
use vstd::prelude::*;
use crate::json::{json_count_map, reads_counts_json, lists_map};
use crate::worker::shuffle::{files_view, map_hashable, shuffle_files};

pub use crate::worker::shuffle::format_shuffled;

verus! {

/// The shuffle stage on the text of a map output: the counts it holds distributed over the
/// files `shuffle_split_{k}.txt`; `None` where the text is not a JSON object of counts or a
/// key cannot be hashed.
pub fn shuffle(ip: &str, splits: usize) -> (r: Option<Vec<(String, Vec<u8>)>>)
    ensures
        reads_counts_json(ip@, true),
        match json_count_map(ip@) {
            None => r is None,
            Some(m) => {
                &&& (r is None <==> !map_hashable(m, splits as nat))
                &&& (r matches Some(files) ==> exists|t: Seq<(Seq<char>, nat)>|
                    lists_map(t, m) && files_view(files@) == shuffle_files("shuffle"@, t, splits as nat))
            },
        },
{
    crate::worker::shuffle::shuffle("shuffle", ip, splits)
}

} // verus!
