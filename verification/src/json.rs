//! JSON text: the quoting of strings that serde_json performs, and the framing of
//! objects and arrays around members.
use vstd::prelude::*;
use crate::number::digit_char;
use crate::counts::{has_key, key_index, keys_distinct, lemma_key_index_distinct, lemma_table_finite, table_map};
use crate::text::push_str;

verus! {

/// The lowercase hexadecimal digit for `d < 16`.
pub open spec fn hex_digit(d: nat) -> char {
    if d < 10 {
        digit_char(d)
    } else if d == 10 {
        'a'
    } else if d == 11 {
        'b'
    } else if d == 12 {
        'c'
    } else if d == 13 {
        'd'
    } else if d == 14 {
        'e'
    } else {
        'f'
    }
}

/// How serde_json writes one character inside a JSON string: quote, backslash and the
/// control characters are escaped, everything else stands for itself.
pub open spec fn json_escape(c: char) -> Seq<char> {
    if c == '"' {
        seq!['\\', '"']
    } else if c == '\\' {
        seq!['\\', '\\']
    } else if c == '\x08' {
        seq!['\\', 'b']
    } else if c == '\t' {
        seq!['\\', 't']
    } else if c == '\n' {
        seq!['\\', 'n']
    } else if c == '\x0C' {
        seq!['\\', 'f']
    } else if c == '\r' {
        seq!['\\', 'r']
    } else if (c as u32) < 0x20 {
        seq!['\\', 'u', '0', '0', hex_digit((c as u32 / 16) as nat), hex_digit((c as u32 % 16) as nat)]
    } else {
        seq![c]
    }
}

/// `s` as a JSON string literal, as serde_json writes it.
pub open spec fn json_quote(s: Seq<char>) -> Seq<char> {
    seq!['"'] + s.flat_map(|c: char| json_escape(c)) + seq!['"']
}

/// The items joined with `sep` between each two of them.
pub open spec fn join(items: Seq<Seq<char>>, sep: Seq<char>) -> Seq<char>
    decreases items.len(),
{
    if items.len() == 0 {
        Seq::empty()
    } else if items.len() == 1 {
        items[0]
    } else {
        join(items.drop_last(), sep) + sep + items.last()
    }
}

/// `serde_json::to_string` on a string slice.
/// Trusted: the contract claims that the result is the JSON string literal of `s`,
/// quoted and escaped as `json_quote` states (serde_json's `format_escaped_str`);
/// serialising a `str` into memory does not fail.
#[verifier::external_body]
pub(crate) fn json_string(s: &str) -> (r: String)
    ensures
        r@ == json_quote(s@),
{
    serde_json::to_string(s).unwrap()
}

/// Appends the JSON string literal of `t`.
pub fn push_quoted(s: &mut String, t: &str)
    ensures
        final(s)@ == old(s)@ + json_quote(t@),
{
    let q = json_string(t);
    push_str(s, q.as_str());
}

pub proof fn lemma_join_push(items: Seq<Seq<char>>, x: Seq<char>, sep: Seq<char>)
    ensures
        join(items.push(x), sep) == if items.len() == 0 {
            x
        } else {
            join(items, sep) + sep + x
        },
{
    assert(items.push(x).drop_last() == items);
    if items.len() == 0 {
        assert(items.push(x)[0] == x);
    }
}

/// What serde_json reads from `s` as a JSON object of strings to `u32` numbers
/// (`serde_json::from_str::<HashMap<String, u32>>`); `None` where it reports an error.
pub uninterp spec fn json_count_map(s: Seq<char>) -> Option<Map<Seq<char>, u32>>;

/// `t` lists the entries of `m`, each key once, in some order.
pub open spec fn lists_map(t: Seq<(Seq<char>, nat)>, m: Map<Seq<char>, u32>) -> bool {
    &&& keys_distinct(t)
    &&& forall|i: int|
        0 <= i < t.len() ==> m.contains_key(#[trigger] t[i].0) && m[t[i].0] as nat == t[i].1
    &&& forall|k: Seq<char>| m.contains_key(k) ==> has_key(t, k)
}

/// The map from each key of `t` to its amount.
pub open spec fn counts_map(t: Seq<(Seq<char>, nat)>) -> Map<Seq<char>, u32> {
    Map::new(|k: Seq<char>| has_key(t, k), |k: Seq<char>| t[crate::counts::key_index(t, k)].1 as u32)
}

/// The entries of `t` have distinct keys and amounts that fit in a `u32`.
pub open spec fn counts_fit(t: Seq<(Seq<char>, nat)>) -> bool {
    &&& keys_distinct(t)
    &&& forall|i: int| 0 <= i < t.len() ==> #[trigger] t[i].1 <= u32::MAX
}

/// Where `s` is an object written as `counts_json` writes the entries `t`, the parse succeeded
/// (`parsed`) and gave the entries of `t`.
pub open spec fn reads_counts_json(s: Seq<char>, parsed: bool) -> bool {
    forall|t: Seq<(Seq<char>, nat)>|
        #![trigger crate::worker::map::counts_json(t)]
        s == crate::worker::map::counts_json(t) && counts_fit(t) ==> parsed && json_count_map(s) == Some(
            counts_map(t),
        )
}

/// `serde_json::from_str::<HashMap<String, u32>>`, with the map's entries walked into a vector.
/// Trusted: the contract claims that the parse succeeds exactly where `json_count_map` is
/// `Some`, and that the vector then lists that map's entries once each; and that an object
/// written as `counts_json` writes it (string keys quoted as `json_quote` does, distinct,
/// numbers in decimal that fit in a `u32`) parses back to its entries. The order of the walk
/// (that of a `HashMap` with a per-process seed) is left unsaid.
#[verifier::external_body]
pub(crate) fn parse_count_map(s: &str) -> (r: Option<Vec<(String, u32)>>)
    ensures
        r is Some <==> json_count_map(s@) is Some,
        r matches Some(v) ==> lists_map(
            v@.map_values(|e: (String, u32)| (e.0@, e.1 as nat)),
            json_count_map(s@).unwrap(),
        ),
        reads_counts_json(s@, r is Some),
{
    match serde_json::from_str::<std::collections::HashMap<String, u32>>(s) {
        Ok(m) => Some(m.into_iter().collect()),
        Err(_) => None,
    }
}

/// The read-back law: a listing of the map of entries `t` is `t` reordered: as many entries,
/// each an entry of `t`, and each entry of `t` among them.
pub proof fn law_listing_reorders(t: Seq<(Seq<char>, nat)>, u: Seq<(Seq<char>, nat)>)
    requires
        counts_fit(t),
        lists_map(u, counts_map(t)),
    ensures
        u.len() == t.len(),
        forall|i: int| 0 <= i < u.len() ==> t.contains(#[trigger] u[i]),
        forall|i: int| 0 <= i < t.len() ==> u.contains(#[trigger] t[i]),
{
    assert forall|i: int| 0 <= i < u.len() implies t.contains(#[trigger] u[i]) by {
        let k = u[i].0;
        assert(counts_map(t).contains_key(k));
        let j = key_index(t, k);
        let m = choose|m: int| 0 <= m < t.len() && #[trigger] t[m].0 == k;
        lemma_key_index_distinct(t, m);
        assert(t[j].1 <= u32::MAX);
        assert(u[i] == t[j]);
    }
    assert forall|i: int| 0 <= i < t.len() implies u.contains(#[trigger] t[i]) by {
        let k = t[i].0;
        assert(has_key(t, k));
        assert(counts_map(t).contains_key(k));
        assert(has_key(u, k));
        let m = choose|m: int| 0 <= m < u.len() && #[trigger] u[m].0 == k;
        lemma_key_index_distinct(t, i);
        assert(u[m] == t[i]);
    }
    lemma_table_finite(t);
    lemma_table_finite(u);
    assert(table_map(u).dom() =~= table_map(t).dom()) by {
        assert forall|k: Seq<char>| table_map(u).dom().contains(k) <==> table_map(t).dom().contains(k) by {
            if has_key(u, k) {
                let m = choose|m: int| 0 <= m < u.len() && #[trigger] u[m].0 == k;
                assert(counts_map(t).contains_key(u[m].0));
            }
            if has_key(t, k) {
                assert(counts_map(t).contains_key(k));
            }
        }
    }
}

} // verus!
