//! The stages taken together: the totals that the reduce stage writes for a word are the
//! word's count in the whole input.
use vstd::prelude::*;
use crate::counts::{
    accumulate, amount_for, has_key, key_index, keys_distinct, lemma_accumulate,
    lemma_accumulate_distinct, lemma_amount_without_key, lemma_key_index_distinct, totals_fit_u32,
};
use crate::json::{counts_fit, counts_map, law_listing_reorders, lists_map};
use crate::job_manager::{law_split_counts_add, split_contents, split_occurrences, with_newlines};
use crate::worker::hasher::bucket_of;
use crate::worker::map::{law_word_totals, lemma_ones_amount, occurrences, ones, word_totals, words};
use crate::worker::shuffle::{bucket_test, in_bucket};

verus! {

/// Amounts add up over joined sequences.
proof fn lemma_amount_concat(a: Seq<(Seq<char>, nat)>, b: Seq<(Seq<char>, nat)>, k: Seq<char>)
    ensures
        amount_for(a + b, k) == amount_for(a, k) + amount_for(b, k),
    decreases b.len(),
{
    if b.len() > 0 {
        lemma_amount_concat(a, b.drop_last(), k);
        assert((a + b).drop_last() == a + b.drop_last());
        assert((a + b).last() == b.last());
    } else {
        assert(a + b == a);
    }
}

/// In a table with distinct keys, the amount of a key is its entry's amount, or 0.
proof fn lemma_amount_distinct(t: Seq<(Seq<char>, nat)>, k: Seq<char>)
    requires
        keys_distinct(t),
    ensures
        has_key(t, k) ==> amount_for(t, k) == t[key_index(t, k)].1,
        !has_key(t, k) ==> amount_for(t, k) == 0,
{
    lemma_accumulate_distinct(t);
    lemma_accumulate(t);
    if has_key(t, k) {
        let m = choose|m: int| 0 <= m < t.len() && #[trigger] t[m].0 == k;
        lemma_key_index_distinct(t, m);
        assert(accumulate(t)[m].1 == amount_for(t, accumulate(t)[m].0));
    } else if amount_for(t, k) != 0 {
        lemma_amount_without_key(t, k);
    }
}

/// The amount of a word in the totals of a text is its number of occurrences.
proof fn lemma_total_amount(s: Seq<char>, w: Seq<char>)
    ensures
        amount_for(word_totals(s), w) == occurrences(words(s), w),
{
    let es = ones(words(s));
    let t = word_totals(s);
    lemma_accumulate(es);
    lemma_ones_amount(words(s), w);
    lemma_amount_distinct(t, w);
    if has_key(t, w) {
        let m = choose|m: int| 0 <= m < t.len() && #[trigger] t[m].0 == w;
        lemma_key_index_distinct(t, m);
        assert(t[m].1 == amount_for(es, t[m].0));
    } else if amount_for(es, w) != 0 {
        lemma_amount_without_key(es, w);
    }
}

/// A listing of the entries of `t` gives every key the amount that `t` gives it.
proof fn lemma_listing_amount(t: Seq<(Seq<char>, nat)>, u: Seq<(Seq<char>, nat)>, k: Seq<char>)
    requires
        counts_fit(t),
        lists_map(u, counts_map(t)),
    ensures
        amount_for(u, k) == amount_for(t, k),
{
    law_listing_reorders(t, u);
    lemma_amount_distinct(t, k);
    lemma_amount_distinct(u, k);
    if has_key(u, k) {
        let j = choose|j: int| 0 <= j < u.len() && #[trigger] u[j].0 == k;
        lemma_key_index_distinct(u, j);
        assert(t.contains(u[j]));
        let m = choose|m: int| 0 <= m < t.len() && t[m] == u[j];
        assert(t[m].0 == k);
        lemma_key_index_distinct(t, m);
    } else if has_key(t, k) {
        let m = choose|m: int| 0 <= m < t.len() && #[trigger] t[m].0 == k;
        assert(u.contains(t[m]));
        let j = choose|j: int| 0 <= j < u.len() && u[j] == t[m];
        assert(u[j].0 == k);
    }
}

/// The entries of a bucket give a key of that bucket its whole amount.
proof fn lemma_bucket_amount(u: Seq<(Seq<char>, nat)>, splits: nat, k: Seq<char>)
    ensures
        amount_for(in_bucket(u, splits, bucket_of(k, splits)), k) == amount_for(u, k),
    decreases u.len(),
{
    let b = bucket_of(k, splits);
    let p = bucket_test(splits, b);
    if u.len() == 0 {
        assert(u.filter(p) =~= Seq::<(Seq<char>, nat)>::empty());
    } else {
        let prev = u.drop_last();
        lemma_bucket_amount(prev, splits, k);
        assert(u == prev.push(u.last()));
        prev.lemma_filter_push(u.last(), p);
        let fp = prev.filter(p);
        if p(u.last()) {
            assert(u.filter(p) == fp.push(u.last()));
            assert(fp.push(u.last()).drop_last() == fp);
            assert(amount_for(fp.push(u.last()), k) == amount_for(fp, k) + if u.last().0 == k {
                u.last().1
            } else {
                0
            });
        } else {
            assert(u.last().0 != k);
            assert(u.filter(p) == fp);
        }
    }
}

/// The parts that the reduce of bucket `bucket_of(w)` reads: from each split's shuffle, the
/// entries of that bucket.
pub open spec fn bucket_parts(us: Seq<Seq<(Seq<char>, nat)>>, splits: nat, w: Seq<char>) -> Seq<
    Seq<(Seq<char>, nat)>,
> {
    Seq::new(us.len(), |i: int| in_bucket(us[i], splits, bucket_of(w, splits)))
}

/// Each `us[i]` lists the word totals of split file `files[i]`, as the shuffle stage reads
/// them back from the map stage's output.
pub open spec fn lists_split_totals(us: Seq<Seq<(Seq<char>, nat)>>, files: Seq<Seq<char>>) -> bool {
    &&& us.len() == files.len()
    &&& forall|i: int|
        0 <= i < files.len() ==> totals_fit_u32(ones(words(#[trigger] files[i]))) && lists_map(
            us[i],
            counts_map(word_totals(files[i])),
        )
}

proof fn lemma_parts_sum(us: Seq<Seq<(Seq<char>, nat)>>, files: Seq<Seq<char>>, splits: nat, w: Seq<char>)
    requires
        lists_split_totals(us, files),
    ensures
        amount_for(bucket_parts(us, splits, w).flatten(), w) == split_occurrences(files, w),
    decreases files.len(),
{
    let parts = bucket_parts(us, splits, w);
    if files.len() == 0 {
        assert(parts.flatten() =~= Seq::<(Seq<char>, nat)>::empty());
    } else {
        let us2 = us.drop_first();
        let f2 = files.drop_first();
        assert forall|i: int| 0 <= i < f2.len() implies totals_fit_u32(ones(words(#[trigger] f2[i])))
            && lists_map(us2[i], counts_map(word_totals(f2[i]))) by {
            assert(f2[i] == files[i + 1]);
            assert(us2[i] == us[i + 1]);
        }
        lemma_parts_sum(us2, f2, splits, w);
        assert(parts.drop_first() =~= bucket_parts(us2, splits, w));
        lemma_amount_concat(parts[0], parts.drop_first().flatten(), w);
        let t = word_totals(files[0]);
        assert(totals_fit_u32(ones(words(files[0]))) && lists_map(us[0], counts_map(t)));
        law_word_totals(files[0]);
        lemma_accumulate(ones(words(files[0])));
        assert(counts_fit(t)) by {
            assert forall|i: int| 0 <= i < t.len() implies #[trigger] t[i].1 <= u32::MAX by {
                assert(has_key(ones(words(files[0])), t[i].0));
                let m = choose|m: int| 0 <= m < ones(words(files[0])).len() && #[trigger] ones(words(files[0]))[m].0 == t[i].0;
                assert(amount_for(ones(words(files[0])), ones(words(files[0]))[m].0) <= u32::MAX);
            }
        }
        lemma_bucket_amount(us[0], splits, w);
        lemma_listing_amount(t, us[0], w);
        lemma_total_amount(files[0], w);
    }
}

/// The distributed count law: split the lines `ls` into `n` files, map each to its word
/// totals, shuffle each into `splits` buckets, and reduce bucket `bucket_of(w)` over what
/// every split's shuffle gave it: the total it finds for `w` is the number of occurrences
/// of `w` in the whole text of the split files, as the single-node count finds it there.
pub proof fn law_distributed_count(
    ls: Seq<Seq<char>>,
    n: nat,
    size: nat,
    splits: nat,
    us: Seq<Seq<(Seq<char>, nat)>>,
    w: Seq<char>,
)
    requires
        n >= 1,
        lists_split_totals(us, split_contents(ls, n, size)),
    ensures
        amount_for(bucket_parts(us, splits, w).flatten(), w) == occurrences(words(with_newlines(ls)), w),
        amount_for(bucket_parts(us, splits, w).flatten(), w) == amount_for(word_totals(with_newlines(ls)), w),
{
    lemma_parts_sum(us, split_contents(ls, n, size), splits, w);
    law_split_counts_add(ls, n, size, w);
    lemma_total_amount(with_newlines(ls), w);
}

} // verus!
