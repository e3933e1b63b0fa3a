//! The reduce stage of the earlier worker node: the file it writes is numbered after
//! the split it read.
use vstd::prelude::*;
use crate::number::{decimal, parse_u8, parse_u8_range, push_decimal};
use crate::text::{chars_of, last_index_of_char, push_str, rfind_char, rsplit_once, string_of};
use crate::worker::reduce::{listing, reducible, reduced_totals, try_wordcount};

pub use crate::worker::reduce::format_reduced;

verus! {

/// The split number in a file name `..._{n}.{ext}`: the text between the last `_` and the
/// last `.` after it, read as a `u8`.
pub open spec fn file_number(f: Seq<char>) -> Option<u8> {
    match rsplit_once(f, '_') {
        Some(p) => match rsplit_once(p.1, '.') {
            Some(q) => parse_u8(q.0),
            None => None,
        },
        None => None,
    }
}

/// The split number in the file name `f`, or `None` where it has none.
pub fn file_number_of(f: &str) -> (r: Option<u8>)
    ensures
        r == file_number(f@),
{
    let cs = chars_of(f);
    assert(cs@.subrange(0, cs@.len() as int) == cs@);
    match rfind_char(&cs, 0, cs.len(), '_') {
        None => None,
        Some(u) => {
            let ghost after = cs@.skip(u as int + 1);
            assert(after == cs@.subrange(u + 1, cs@.len() as int));
            match rfind_char(&cs, u + 1, cs.len(), '.') {
                None => None,
                Some(d) => {
                    assert(after.take((d - (u + 1)) as int) == cs@.subrange(u + 1, d as int));
                    parse_u8_range(&cs, u + 1, d)
                },
            }
        },
    }
}

/// The split number in the file name `f`.
pub fn extract_num(f: &str) -> (n: u8)
    requires
        file_number(f@) is Some,
    ensures
        file_number(f@) == Some(n),
{
    match file_number_of(f) {
        Some(n) => n,
        None => 0,
    }
}

/// The name of the file that the reduce stage writes for split `n`: `reduce_split_{n}.txt`.
pub open spec fn reduce_split_name(n: nat) -> Seq<char> {
    "reduce_split_"@ + decimal(n) + ".txt"@
}

pub fn reduce_file_name(n: u8) -> (s: String)
    ensures
        s@ == reduce_split_name(n as nat),
{
    let mut s = String::new();
    push_str(&mut s, "reduce_split_");
    push_decimal(&mut s, n as u64);
    push_str(&mut s, ".txt");
    s
}

/// The directory part of a file name: everything up to and including its last `/`.
pub open spec fn dir_prefix(f: Seq<char>) -> Seq<char> {
    match last_index_of_char(f, '/') {
        Some(i) => f.take((i + 1) as int),
        None => Seq::empty(),
    }
}

/// The directory part of `f`.
pub fn dir_of(f: &str) -> (d: String)
    ensures
        d@ == dir_prefix(f@),
{
    let cs = chars_of(f);
    assert(cs@.subrange(0, cs@.len() as int) == cs@);
    match rfind_char(&cs, 0, cs.len(), '/') {
        Some(i) => {
            let d = string_of(&cs, 0, i + 1);
            assert(cs@.subrange(0, i + 1) == cs@.take(i + 1));
            d
        },
        None => String::new(),
    }
}

/// The reduce stage of the earlier worker: the output file, beside the input `file` and
/// numbered after it, and its contents, the summed totals of `ip`.
pub fn reduce(file: &str, ip: &str) -> (out: (String, Vec<u8>))
    requires
        file_number(file@) is Some,
        reducible(ip@),
    ensures
        out.0@ == dir_prefix(file@) + reduce_split_name(file_number(file@).unwrap() as nat),
        out.1@ == vstd::utf8::encode_utf8(listing(reduced_totals(ip@))),
{
    let bytes = match try_wordcount(ip) {
        Some(b) => b,
        None => Vec::new(),
    };
    let n = extract_num(file);
    let mut name = dir_of(file);
    let base = reduce_file_name(n);
    push_str(&mut name, base.as_str());
    (name, bytes)
}

} // verus!
