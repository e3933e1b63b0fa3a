//! The shuffle stage: distributing the counts of a map output over the split files by key hash.
use vstd::prelude::*;
use vstd::string::StrSliceExecFns;
use crate::counts::{gather, gather_add, has_key, key_index, keys_distinct, lemma_gather, lemma_has_key_last, values_for};
use crate::json::{json_count_map, reads_counts_json, lists_map, parse_count_map};
use crate::number::{decimal, push_decimal};
use crate::text::{push_char, push_str};
use crate::worker::hasher::{bucket_of, get_hash, hash_fits_usize, try_get_hash};
use crate::worker::reduce::{listing, listing_text, pairs_view};

verus! {

/// The listing of the shuffled pairs as UTF-8 bytes.
pub fn format_shuffled(shuffled: &[(String, u32)]) -> (out: Vec<u8>)
    ensures
        out@ == vstd::utf8::encode_utf8(listing(pairs_view(shuffled@))),
{
    let s = listing_text(shuffled);
    s.as_str().as_bytes_vec()
}

/// The name of the file of split `k` of stage `name`: `{name}_split_{k}.txt`.
pub open spec fn split_name(name: Seq<char>, k: nat) -> Seq<char> {
    name + seq!['_', 's', 'p', 'l', 'i', 't', '_'] + decimal(k) + seq!['.', 't', 'x', 't']
}

pub fn split_file_name(name: &str, k: usize) -> (s: String)
    ensures
        s@ == split_name(name@, k as nat),
{
    let mut s = String::new();
    push_str(&mut s, name);
    push_str(&mut s, "_split_");
    push_decimal(&mut s, k as u64);
    push_str(&mut s, ".txt");
    proof {
        reveal_strlit("_split_");
        reveal_strlit(".txt");
    }
    assert(s@ =~= split_name(name@, k as nat));
    s
}

/// The key `k` can be hashed into `splits` buckets without overflow.
pub open spec fn key_hashable(k: Seq<char>, splits: nat) -> bool {
    splits > 0 && hash_fits_usize(k, splits)
}

/// Every key of `es` can be hashed into `splits` buckets without overflow.
pub open spec fn hashable(es: Seq<(Seq<char>, nat)>, splits: nat) -> bool {
    forall|i: int| 0 <= i < es.len() ==> #[trigger] key_hashable(es[i].0, splits)
}

/// Each entry paired with its bucket.
pub open spec fn by_bucket(es: Seq<(Seq<char>, nat)>, splits: nat) -> Seq<(nat, (Seq<char>, nat))> {
    es.map_values(|e: (Seq<char>, nat)| (bucket_of(e.0, splits), e))
}

/// The entries of `es` collected per bucket, buckets in order of first use.
pub open spec fn shuffle_groups(es: Seq<(Seq<char>, nat)>, splits: nat) -> Seq<(nat, Seq<(Seq<char>, nat)>)> {
    gather(by_bucket(es, splits))
}

pub open spec fn buckets_view(b: Seq<(usize, Vec<(String, u32)>)>) -> Seq<(nat, Seq<(Seq<char>, nat)>)> {
    b.map_values(|g: (usize, Vec<(String, u32)>)| (g.0 as nat, pairs_view(g.1@)))
}

/// The entries of `es` whose key hashes to bucket `b`.
pub open spec fn in_bucket(es: Seq<(Seq<char>, nat)>, splits: nat, b: nat) -> Seq<(Seq<char>, nat)> {
    es.filter(bucket_test(splits, b))
}

/// The test for entries whose key hashes to bucket `b`.
pub open spec fn bucket_test(splits: nat, b: nat) -> spec_fn((Seq<char>, nat)) -> bool {
    |e: (Seq<char>, nat)| bucket_of(e.0, splits) == b
}

proof fn lemma_values_by_bucket(es: Seq<(Seq<char>, nat)>, splits: nat, b: nat)
    ensures
        values_for(by_bucket(es, splits), b) == in_bucket(es, splits, b),
        has_key(by_bucket(es, splits), b) <==> in_bucket(es, splits, b).len() > 0,
    decreases es.len(),
{
    let p = bucket_test(splits, b);
    let items = by_bucket(es, splits);
    if es.len() == 0 {
        assert(es.filter(p) =~= Seq::<(Seq<char>, nat)>::empty());
        if has_key(items, b) {
            let i = choose|i: int| 0 <= i < items.len() && #[trigger] items[i].0 == b;
        }
    } else {
        let prev = es.drop_last();
        lemma_values_by_bucket(prev, splits, b);
        assert(items.drop_last() == by_bucket(prev, splits));
        assert(es == prev.push(es.last()));
        prev.lemma_filter_push(es.last(), p);
        lemma_has_key_last(items);
    }
}

/// The shuffle law: every entry lands in exactly one bucket, the one its key hashes to;
/// each bucket holds its entries in input order, and only buckets that receive entries exist.
pub proof fn law_shuffle_partition(es: Seq<(Seq<char>, nat)>, splits: nat)
    ensures
        keys_distinct(shuffle_groups(es, splits)),
        forall|i: int|
            0 <= i < shuffle_groups(es, splits).len() ==> #[trigger] shuffle_groups(es, splits)[i].1
                == in_bucket(es, splits, shuffle_groups(es, splits)[i].0),
        forall|b: nat| has_key(shuffle_groups(es, splits), b) <==> in_bucket(es, splits, b).len() > 0,
{
    lemma_gather(by_bucket(es, splits));
    assert forall|i: int| 0 <= i < shuffle_groups(es, splits).len() implies #[trigger] shuffle_groups(
        es,
        splits,
    )[i].1 == in_bucket(es, splits, shuffle_groups(es, splits)[i].0) by {
        lemma_values_by_bucket(es, splits, shuffle_groups(es, splits)[i].0);
    }
    assert forall|b: nat| has_key(shuffle_groups(es, splits), b) <==> in_bucket(es, splits, b).len() > 0 by {
        lemma_values_by_bucket(es, splits, b);
    }
}

/// The entries of `entries` collected per bucket of their key.
pub fn shuffle_buckets(entries: &Vec<(String, u32)>, splits: usize) -> (b: Vec<(usize, Vec<(String, u32)>)>)
    requires
        hashable(pairs_view(entries@), splits as nat),
    ensures
        buckets_view(b@) == shuffle_groups(pairs_view(entries@), splits as nat),
{
    let ghost es = pairs_view(entries@);
    let ghost items = by_bucket(es, splits as nat);
    let mut b: Vec<(usize, Vec<(String, u32)>)> = Vec::new();
    let mut j: usize = 0;
    assert(items.take(0) =~= Seq::<(nat, (Seq<char>, nat))>::empty());
    assert(buckets_view(b@) =~= Seq::<(nat, Seq<(Seq<char>, nat)>)>::empty());
    while j < entries.len()
        invariant
            es == pairs_view(entries@),
            items == by_bucket(es, splits as nat),
            hashable(es, splits as nat),
            j <= entries@.len(),
            buckets_view(b@) == gather(items.take(j as int)),
        decreases entries@.len() - j,
    {
        let key = entries[j].0.clone();
        let n = entries[j].1;
        assert(es[j as int] == (key@, n as nat));
        assert(key_hashable(es[j as int].0, splits as nat));
        let h = get_hash(key.as_str(), splits);
        let ghost g = buckets_view(b@);
        proof {
            lemma_gather(items.take(j as int));
            assert(items.take(j + 1).drop_last() == items.take(j as int));
            assert(items.take(j + 1).last() == (h as nat, (key@, n as nat)));
        }
        let mut m: usize = 0;
        while m < b.len() && b[m].0 != h
            invariant
                g == buckets_view(b@),
                keys_distinct(g),
                m <= b@.len(),
                forall|x: int| 0 <= x < m ==> g[x].0 != h as nat,
            decreases b@.len() - m,
        {
            m = m + 1;
        }
        if m < b.len() {
            assert(g[m as int].0 == h as nat);
            assert(key_index(g, h as nat) == m as int);
            let ghost before = b@;
            let (hk, mut group) = b.remove(m);
            let ghost old_group = group@;
            group.push((key, n));
            assert(pairs_view(group@) =~= pairs_view(old_group).push((key@, n as nat)));
            b.insert(m, (hk, group));
            assert(b@ =~= before.update(m as int, (hk, group)));
            assert(buckets_view(b@) =~= gather_add(g, h as nat, (key@, n as nat)));
        } else {
            assert(key_index(g, h as nat) < 0) by {
                if exists|i: int| 0 <= i < g.len() && #[trigger] g[i].0 == h as nat {
                    let i = choose|i: int| 0 <= i < g.len() && #[trigger] g[i].0 == h as nat;
                    assert(g[i].0 != h as nat);
                }
            }
            let mut group: Vec<(String, u32)> = Vec::new();
            group.push((key, n));
            b.push((h, group));
            assert(pairs_view(group@) =~= seq![(key@, n as nat)]);
            assert(buckets_view(b@) =~= gather_add(g, h as nat, (key@, n as nat)));
        }
        j = j + 1;
    }
    assert(items.take(items.len() as int) == items);
    b
}

/// One output file of the shuffle stage: the split's file name and the listing of its entries.
pub open spec fn shuffle_file(name: Seq<char>, g: (nat, Seq<(Seq<char>, nat)>)) -> (Seq<char>, Seq<u8>) {
    (split_name(name, g.0), vstd::utf8::encode_utf8(listing(g.1)))
}

/// The output files of the shuffle stage for the entries `es`.
pub open spec fn shuffle_files(name: Seq<char>, es: Seq<(Seq<char>, nat)>, splits: nat) -> Seq<(Seq<char>, Seq<u8>)> {
    shuffle_groups(es, splits).map_values(|g: (nat, Seq<(Seq<char>, nat)>)| shuffle_file(name, g))
}

pub open spec fn files_view(v: Seq<(String, Vec<u8>)>) -> Seq<(Seq<char>, Seq<u8>)> {
    v.map_values(|f: (String, Vec<u8>)| (f.0@, f.1@))
}

/// The output files of the shuffle stage: one per split that receives entries.
pub fn shuffle_outputs(name: &str, entries: &Vec<(String, u32)>, splits: usize) -> (out: Vec<(String, Vec<u8>)>)
    requires
        hashable(pairs_view(entries@), splits as nat),
    ensures
        files_view(out@) == shuffle_files(name@, pairs_view(entries@), splits as nat),
{
    let b = shuffle_buckets(entries, splits);
    let ghost g = shuffle_groups(pairs_view(entries@), splits as nat);
    let mut out: Vec<(String, Vec<u8>)> = Vec::new();
    let mut j: usize = 0;
    while j < b.len()
        invariant
            buckets_view(b@) == g,
            j <= b@.len(),
            files_view(out@) == g.take(j as int).map_values(
                |x: (nat, Seq<(Seq<char>, nat)>)| shuffle_file(name@, x),
            ),
        decreases b@.len() - j,
    {
        let file = split_file_name(name, b[j].0);
        let bytes = format_shuffled(b[j].1.as_slice());
        assert(g[j as int] == (b@[j as int].0 as nat, pairs_view(b@[j as int].1@)));
        let ghost prev = out@;
        out.push((file, bytes));
        assert(files_view(out@) =~= files_view(prev).push((file@, bytes@)));
        assert((file@, bytes@) == shuffle_file(name@, g[j as int]));
        assert(g.take(j + 1) == g.take(j as int).push(g[j as int]));
        assert(files_view(out@) =~= g.take(j + 1).map_values(
            |x: (nat, Seq<(Seq<char>, nat)>)| shuffle_file(name@, x),
        ));
        j = j + 1;
    }
    assert(g.take(g.len() as int) == g);
    out
}

/// Every key of `m` can be hashed into `splits` buckets without overflow.
pub open spec fn map_hashable(m: Map<Seq<char>, u32>, splits: nat) -> bool {
    forall|k: Seq<char>| #[trigger] m.contains_key(k) ==> key_hashable(k, splits)
}

/// The shuffle stage on the text of a map output file: the JSON object of counts that `ip`
/// holds, distributed over the split files of stage `name`; `None` where the text is not
/// such an object or a key cannot be hashed. A map output `counts_json(t)` is read back as
/// the entries of `t`.
pub fn shuffle(name: &str, ip: &str, splits: usize) -> (r: Option<Vec<(String, Vec<u8>)>>)
    ensures
        reads_counts_json(ip@, true),
        match json_count_map(ip@) {
            None => r is None,
            Some(m) => {
                &&& (r is None <==> !map_hashable(m, splits as nat))
                &&& (r matches Some(files) ==> exists|t: Seq<(Seq<char>, nat)>|
                    lists_map(t, m) && files_view(files@) == shuffle_files(name@, t, splits as nat))
            },
        },
{
    let v = match parse_count_map(ip) {
        Some(v) => v,
        None => return None,
    };
    let ghost m = json_count_map(ip@).unwrap();
    let ghost t = pairs_view(v@);
    let mut j: usize = 0;
    while j < v.len()
        invariant
            t == pairs_view(v@),
            json_count_map(ip@) == Some(m),
            reads_counts_json(ip@, true),
            lists_map(t, m),
            j <= v@.len(),
            forall|i: int| 0 <= i < j ==> #[trigger] key_hashable(t[i].0, splits as nat),
        decreases v@.len() - j,
    {
        assert(t[j as int] == (v@[j as int].0@, v@[j as int].1 as nat));
        assert(m.contains_key(t[j as int].0));
        if splits == 0 {
            assert(!key_hashable(t[j as int].0, splits as nat));
            return None;
        }
        if try_get_hash(v[j].0.as_str(), splits).is_none() {
            assert(!key_hashable(t[j as int].0, splits as nat));
            return None;
        }
        j = j + 1;
    }
    assert(map_hashable(m, splits as nat)) by {
        assert forall|k: Seq<char>| #[trigger] m.contains_key(k) implies key_hashable(
            k,
            splits as nat,
        ) by {
            assert(crate::counts::has_key(t, k));
            let i = choose|i: int| 0 <= i < t.len() && #[trigger] t[i].0 == k;
            assert(key_hashable(t[i].0, splits as nat));
        }
    }
    let files = shuffle_outputs(name, &v, splits);
    Some(files)
}

} // verus!
