//! Adding up amounts per key, keeping the keys in the order in which they first appear,
//! and collecting values per key in the same way.
use vstd::prelude::*;

verus! {

/// The position of key `k` in `t`, or -1 when no entry has it.
pub open spec fn key_index<K, V>(t: Seq<(K, V)>, k: K) -> int {
    if exists|i: int| 0 <= i < t.len() && #[trigger] t[i].0 == k {
        choose|i: int| 0 <= i < t.len() && #[trigger] t[i].0 == k
    } else {
        -1
    }
}

/// No two entries of `t` have the same key.
pub open spec fn keys_distinct<K, V>(t: Seq<(K, V)>) -> bool {
    forall|i: int, j: int| 0 <= i < j < t.len() ==> #[trigger] t[i].0 != #[trigger] t[j].0
}

/// `t` with `n` added to the amount of key `k`, or with a new entry `(k, n)` at the end.
pub open spec fn bump<K>(t: Seq<(K, nat)>, k: K, n: nat) -> Seq<(K, nat)> {
    let i = key_index(t, k);
    if i >= 0 {
        t.update(i, (k, t[i].1 + n))
    } else {
        t.push((k, n))
    }
}

/// The amounts of `es` added up per key, keys in order of first appearance.
pub open spec fn accumulate<K>(es: Seq<(K, nat)>) -> Seq<(K, nat)>
    decreases es.len(),
{
    if es.len() == 0 {
        Seq::empty()
    } else {
        bump(accumulate(es.drop_last()), es.last().0, es.last().1)
    }
}

/// The sum of the amounts of the entries of `es` with key `k`.
pub open spec fn amount_for<K>(es: Seq<(K, nat)>, k: K) -> nat
    decreases es.len(),
{
    if es.len() == 0 {
        0
    } else {
        amount_for(es.drop_last(), k) + if es.last().0 == k {
            es.last().1
        } else {
            0
        }
    }
}

/// Every key's total amount in `es` fits in a `u32`.
pub open spec fn totals_fit_u32<K>(es: Seq<(K, nat)>) -> bool {
    forall|i: int| 0 <= i < es.len() ==> amount_for(es, #[trigger] es[i].0) <= u32::MAX
}

/// The key of `k` appears in `es`.
pub open spec fn has_key<K, V>(es: Seq<(K, V)>, k: K) -> bool {
    exists|i: int| 0 <= i < es.len() && #[trigger] es[i].0 == k
}

/// What adding up gives: each key of `es` once, with the sum of its amounts, and no other key.
pub proof fn lemma_accumulate<K>(es: Seq<(K, nat)>)
    ensures
        keys_distinct(accumulate(es)),
        forall|i: int|
            0 <= i < accumulate(es).len() ==> #[trigger] accumulate(es)[i].1 == amount_for(
                es,
                accumulate(es)[i].0,
            ),
        forall|k: K| has_key(accumulate(es), k) <==> has_key(es, k),
    decreases es.len(),
{
    if es.len() > 0 {
        let prev = es.drop_last();
        lemma_accumulate(prev);
        let t = accumulate(prev);
        let (k, n) = es.last();
        let i = key_index(t, k);
        let r = accumulate(es);
        assert(r == bump(t, k, n));
        assert forall|x: K| amount_for(es, x) == amount_for(prev, x) + if x == k { n } else { 0 } by {}
        lemma_has_key_push(prev, es);
        if i >= 0 {
            assert(t[i].0 == k);
            assert(r == t.update(i, (k, t[i].1 + n)));
            assert forall|x: K| has_key(r, x) <==> has_key(t, x) by {
                if has_key(r, x) {
                    let m = choose|m: int| 0 <= m < r.len() && #[trigger] r[m].0 == x;
                    assert(t[m].0 == x);
                }
                if has_key(t, x) {
                    let m = choose|m: int| 0 <= m < t.len() && #[trigger] t[m].0 == x;
                    assert(r[m].0 == x);
                }
            }
        } else {
            assert forall|j: int| 0 <= j < t.len() implies t[j].0 != k by {
                if t[j].0 == k {
                    assert(exists|m: int| 0 <= m < t.len() && #[trigger] t[m].0 == k);
                }
            }
            assert(!has_key(t, k));
            assert(amount_for(prev, k) == 0) by {
                if amount_for(prev, k) != 0 {
                    lemma_amount_without_key(prev, k);
                }
            }
            assert(r == t.push((k, n)));
            assert forall|x: K| has_key(r, x) <==> (has_key(t, x) || x == k) by {
                if has_key(r, x) {
                    let m = choose|m: int| 0 <= m < r.len() && #[trigger] r[m].0 == x;
                    if m < t.len() {
                        assert(t[m].0 == x);
                    }
                }
                if has_key(t, x) {
                    let m = choose|m: int| 0 <= m < t.len() && #[trigger] t[m].0 == x;
                    assert(r[m].0 == x);
                }
                if x == k {
                    assert(r[t.len() as int].0 == x);
                }
            }
        }
    }
}

/// The keys of `es` are those of `es` without its last entry, and the last entry's key.
pub proof fn lemma_has_key_push<K>(prev: Seq<(K, nat)>, es: Seq<(K, nat)>)
    requires
        es.len() > 0,
        prev == es.drop_last(),
    ensures
        forall|x: K| has_key(es, x) <==> (has_key(prev, x) || x == es.last().0),
{
    assert forall|x: K| has_key(es, x) <==> (has_key(prev, x) || x == es.last().0) by {
        if has_key(es, x) {
            let j = choose|j: int| 0 <= j < es.len() && #[trigger] es[j].0 == x;
            if j < prev.len() {
                assert(prev[j].0 == x);
            }
        }
        if has_key(prev, x) {
            let j = choose|j: int| 0 <= j < prev.len() && #[trigger] prev[j].0 == x;
            assert(es[j].0 == x);
        }
        if x == es.last().0 {
            assert(es[es.len() - 1].0 == x);
        }
    }
}

/// A key that no entry has adds up to nothing.
pub proof fn lemma_amount_without_key<K>(es: Seq<(K, nat)>, k: K)
    requires
        amount_for(es, k) != 0,
    ensures
        has_key(es, k),
    decreases es.len(),
{
    if es.len() > 0 {
        if es.last().0 == k {
            assert(es[es.len() - 1].0 == k);
        } else {
            lemma_amount_without_key(es.drop_last(), k);
            let j = choose|j: int| 0 <= j < es.drop_last().len() && #[trigger] es.drop_last()[j].0 == k;
            assert(es[j].0 == k);
        }
    }
}

/// A prefix holds no more of any key than the whole.
pub proof fn lemma_amount_prefix<K>(es: Seq<(K, nat)>, j: int, k: K)
    requires
        0 <= j <= es.len(),
    ensures
        amount_for(es.take(j), k) <= amount_for(es, k),
    decreases es.len() - j,
{
    if j < es.len() {
        lemma_amount_prefix(es, j + 1, k);
        assert(es.take(j + 1).drop_last() == es.take(j));
    } else {
        assert(es.take(j) == es);
    }
}

/// `g` with `v` appended to the values of key `k`, or with a new group `(k, [v])` at the end.
pub open spec fn gather_add<K, V>(g: Seq<(K, Seq<V>)>, k: K, v: V) -> Seq<(K, Seq<V>)> {
    let i = key_index(g, k);
    if i >= 0 {
        g.update(i, (k, g[i].1.push(v)))
    } else {
        g.push((k, seq![v]))
    }
}

/// The values of `items` collected per key, keys in order of first appearance,
/// values in their order in `items`.
pub open spec fn gather<K, V>(items: Seq<(K, V)>) -> Seq<(K, Seq<V>)>
    decreases items.len(),
{
    if items.len() == 0 {
        Seq::empty()
    } else {
        gather_add(gather(items.drop_last()), items.last().0, items.last().1)
    }
}

/// The values of the items of `items` with key `k`, in order.
pub open spec fn values_for<K, V>(items: Seq<(K, V)>, k: K) -> Seq<V>
    decreases items.len(),
{
    if items.len() == 0 {
        Seq::empty()
    } else if items.last().0 == k {
        values_for(items.drop_last(), k).push(items.last().1)
    } else {
        values_for(items.drop_last(), k)
    }
}

/// A key that no item has collects no values.
pub proof fn lemma_values_without_key<K, V>(items: Seq<(K, V)>, k: K)
    requires
        values_for(items, k).len() != 0,
    ensures
        has_key(items, k),
    decreases items.len(),
{
    if items.len() > 0 {
        if items.last().0 == k {
            assert(items[items.len() - 1].0 == k);
        } else {
            lemma_values_without_key(items.drop_last(), k);
            let j = choose|j: int|
                0 <= j < items.drop_last().len() && #[trigger] items.drop_last()[j].0 == k;
            assert(items[j].0 == k);
        }
    }
}

/// The keys of `items` are those of `items` without its last item, and the last item's key.
pub proof fn lemma_has_key_last<K, V>(items: Seq<(K, V)>)
    requires
        items.len() > 0,
    ensures
        forall|x: K| has_key(items, x) <==> (has_key(items.drop_last(), x) || x == items.last().0),
{
    let prev = items.drop_last();
    assert forall|x: K| has_key(items, x) <==> (has_key(prev, x) || x == items.last().0) by {
        if has_key(items, x) {
            let j = choose|j: int| 0 <= j < items.len() && #[trigger] items[j].0 == x;
            if j < prev.len() {
                assert(prev[j].0 == x);
            }
        }
        if has_key(prev, x) {
            let j = choose|j: int| 0 <= j < prev.len() && #[trigger] prev[j].0 == x;
            assert(items[j].0 == x);
        }
        if x == items.last().0 {
            assert(items[items.len() - 1].0 == x);
        }
    }
}

/// What collecting gives: each key of `items` once, with all of its values in order,
/// and no other key.
pub proof fn lemma_gather<K, V>(items: Seq<(K, V)>)
    ensures
        keys_distinct(gather(items)),
        forall|i: int|
            0 <= i < gather(items).len() ==> #[trigger] gather(items)[i].1 == values_for(
                items,
                gather(items)[i].0,
            ),
        forall|k: K| has_key(gather(items), k) <==> has_key(items, k),
    decreases items.len(),
{
    if items.len() > 0 {
        let prev = items.drop_last();
        lemma_gather(prev);
        let t = gather(prev);
        let (k, v) = items.last();
        let i = key_index(t, k);
        let r = gather(items);
        assert(r == gather_add(t, k, v));
        lemma_has_key_last(items);
        if i >= 0 {
            assert(t[i].0 == k);
            assert(r == t.update(i, (k, t[i].1.push(v))));
            assert forall|x: K| has_key(r, x) <==> has_key(t, x) by {
                if has_key(r, x) {
                    let m = choose|m: int| 0 <= m < r.len() && #[trigger] r[m].0 == x;
                    assert(t[m].0 == x);
                }
                if has_key(t, x) {
                    let m = choose|m: int| 0 <= m < t.len() && #[trigger] t[m].0 == x;
                    assert(r[m].0 == x);
                }
            }
        } else {
            assert forall|j: int| 0 <= j < t.len() implies t[j].0 != k by {
                if t[j].0 == k {
                    assert(exists|m: int| 0 <= m < t.len() && #[trigger] t[m].0 == k);
                }
            }
            assert(values_for(prev, k).len() == 0) by {
                if values_for(prev, k).len() != 0 {
                    lemma_values_without_key(prev, k);
                }
            }
            assert(r == t.push((k, seq![v])));
            assert forall|x: K| has_key(r, x) <==> (has_key(t, x) || x == k) by {
                if has_key(r, x) {
                    let m = choose|m: int| 0 <= m < r.len() && #[trigger] r[m].0 == x;
                    if m < t.len() {
                        assert(t[m].0 == x);
                    }
                }
                if has_key(t, x) {
                    let m = choose|m: int| 0 <= m < t.len() && #[trigger] t[m].0 == x;
                    assert(r[m].0 == x);
                }
                if x == k {
                    assert(r[t.len() as int].0 == x);
                }
            }
        }
    }
}

/// The map that a list of distinct keys with values stands for.
pub open spec fn table_map<K, V>(t: Seq<(K, V)>) -> Map<K, V> {
    Map::new(|k: K| has_key(t, k), |k: K| t[key_index(t, k)].1)
}

/// Adding up entries whose keys are already distinct changes nothing.
pub proof fn lemma_accumulate_distinct<K>(t: Seq<(K, nat)>)
    requires
        keys_distinct(t),
    ensures
        accumulate(t) == t,
    decreases t.len(),
{
    if t.len() > 0 {
        let p = t.drop_last();
        assert(keys_distinct(p)) by {
            assert forall|i: int, j: int| 0 <= i < j < p.len() implies #[trigger] p[i].0 != #[trigger] p[j].0 by {
                assert(t[i].0 != t[j].0);
            }
        }
        lemma_accumulate_distinct(p);
        assert(!(exists|i: int| 0 <= i < p.len() && #[trigger] p[i].0 == t.last().0)) by {
            if exists|i: int| 0 <= i < p.len() && #[trigger] p[i].0 == t.last().0 {
                let i = choose|i: int| 0 <= i < p.len() && #[trigger] p[i].0 == t.last().0;
                assert(t[i].0 != t[t.len() - 1].0);
            }
        }
        assert(p.push((t.last().0, t.last().1)) =~= t);
    }
}

/// The keys of a table are finitely many, one per entry when they are distinct.
pub proof fn lemma_table_finite<K, V>(t: Seq<(K, V)>)
    ensures
        table_map(t).dom().finite(),
        keys_distinct(t) ==> table_map(t).dom().len() == t.len(),
{
    let ks = Seq::new(t.len(), |i: int| t[i].0);
    assert forall|k: K| table_map(t).dom().contains(k) <==> ks.to_set().contains(k) by {
        if has_key(t, k) {
            let i = choose|i: int| 0 <= i < t.len() && #[trigger] t[i].0 == k;
            assert(ks[i] == k);
        }
        if ks.contains(k) {
            let i = choose|i: int| 0 <= i < ks.len() && ks[i] == k;
            assert(t[i].0 == k);
        }
    }
    assert(table_map(t).dom() =~= ks.to_set());
    vstd::seq_lib::seq_to_set_is_finite(ks);
    if keys_distinct(t) {
        assert(ks.no_duplicates()) by {
            assert forall|i: int, j: int| 0 <= i < ks.len() && 0 <= j < ks.len() && i != j implies ks[i]
                != ks[j] by {
                if i < j {
                    assert(t[i].0 != t[j].0);
                } else {
                    assert(t[j].0 != t[i].0);
                }
            }
        }
        ks.unique_seq_to_set();
    }
}

/// With distinct keys, the key of entry `i` is found at `i`.
pub proof fn lemma_key_index_distinct<K, V>(t: Seq<(K, V)>, i: int)
    requires
        keys_distinct(t),
        0 <= i < t.len(),
    ensures
        key_index(t, t[i].0) == i,
{
    let k = t[i].0;
    assert(exists|m: int| 0 <= m < t.len() && #[trigger] t[m].0 == k);
    let c = choose|m: int| 0 <= m < t.len() && #[trigger] t[m].0 == k;
    if c != i {
        if c < i {
            assert(t[c].0 != t[i].0);
        } else {
            assert(t[i].0 != t[c].0);
        }
    }
}

/// Replacing the value of an existing key.
pub proof fn lemma_table_update<K, V>(t: Seq<(K, V)>, i: int, v: V)
    requires
        keys_distinct(t),
        0 <= i < t.len(),
    ensures
        keys_distinct(t.update(i, (t[i].0, v))),
        table_map(t.update(i, (t[i].0, v))) == table_map(t).insert(t[i].0, v),
{
    let k = t[i].0;
    let u = t.update(i, (k, v));
    assert forall|a: int, b: int| 0 <= a < b < u.len() implies #[trigger] u[a].0 != #[trigger] u[b].0 by {
        assert(u[a].0 == t[a].0 && u[b].0 == t[b].0);
    }
    assert forall|x: K| has_key(u, x) <==> has_key(t, x) by {
        if has_key(u, x) {
            let m = choose|m: int| 0 <= m < u.len() && #[trigger] u[m].0 == x;
            assert(t[m].0 == x);
        }
        if has_key(t, x) {
            let m = choose|m: int| 0 <= m < t.len() && #[trigger] t[m].0 == x;
            assert(u[m].0 == x);
        }
    }
    assert forall|x: K| has_key(u, x) implies u[key_index(u, x)].1 == table_map(t).insert(k, v)[x] by {
        let m = choose|m: int| 0 <= m < u.len() && #[trigger] u[m].0 == x;
        lemma_key_index_distinct(u, m);
        lemma_key_index_distinct(t, m);
        assert(t[m].0 == x);
    }
    assert(table_map(u) =~= table_map(t).insert(k, v));
}

/// Adding a new key at the end.
pub proof fn lemma_table_push<K, V>(t: Seq<(K, V)>, k: K, v: V)
    requires
        keys_distinct(t),
        !has_key(t, k),
    ensures
        keys_distinct(t.push((k, v))),
        table_map(t.push((k, v))) == table_map(t).insert(k, v),
{
    let u = t.push((k, v));
    assert forall|a: int, b: int| 0 <= a < b < u.len() implies #[trigger] u[a].0 != #[trigger] u[b].0 by {
        if b == t.len() {
            assert(u[a].0 == t[a].0);
        }
    }
    assert forall|x: K| has_key(u, x) <==> (has_key(t, x) || x == k) by {
        if has_key(u, x) {
            let m = choose|m: int| 0 <= m < u.len() && #[trigger] u[m].0 == x;
            if m < t.len() {
                assert(t[m].0 == x);
            }
        }
        if has_key(t, x) {
            let m = choose|m: int| 0 <= m < t.len() && #[trigger] t[m].0 == x;
            assert(u[m].0 == x);
        }
        if x == k {
            assert(u[t.len() as int].0 == x);
        }
    }
    assert forall|x: K| has_key(u, x) implies u[key_index(u, x)].1 == table_map(t).insert(k, v)[x] by {
        let m = choose|m: int| 0 <= m < u.len() && #[trigger] u[m].0 == x;
        lemma_key_index_distinct(u, m);
        if m < t.len() {
            lemma_key_index_distinct(t, m);
            assert(t[m].0 == x);
        }
    }
    assert(table_map(u) =~= table_map(t).insert(k, v));
}


/// The number of buckets of the index of a `Tally`.
pub const TALLY_BUCKETS: usize = 4096;

/// The bucket of a key in the index of a `Tally`: a polynomial hash of its characters.
pub open spec fn key_hash(s: Seq<char>) -> nat
    decreases s.len(),
{
    if s.len() == 0 {
        0
    } else {
        (key_hash(s.drop_last()) * 31 + (s.last() as u32) as nat) % (TALLY_BUCKETS as nat)
    }
}

fn key_hash_of(key: &String) -> (h: usize)
    ensures
        h == key_hash(key@),
        h < TALLY_BUCKETS,
{
    let cs = crate::text::chars_of(key.as_str());
    let mut h: usize = 0;
    let mut i: usize = 0;
    assert(cs@.take(0) =~= Seq::<char>::empty());
    while i < cs.len()
        invariant
            cs@ == key@,
            i <= cs@.len(),
            h < TALLY_BUCKETS,
            h == key_hash(cs@.take(i as int)),
        decreases cs@.len() - i,
    {
        assert(cs@.take(i + 1).drop_last() == cs@.take(i as int));
        assert(cs@.take(i + 1).last() == cs@[i as int]);
        let c: u32 = cs[i] as u32;
        let next: u64 = (h as u64 * 31 + c as u64) % 4096;
        h = next as usize;
        i = i + 1;
    }
    assert(cs@.take(cs@.len() as int) == cs@);
    h
}

/// A table of totals per key: the keys in order of first appearance, with an index of
/// the entries by the hash of their key.
pub struct Tally {
    entries: Vec<(String, u32)>,
    index: Vec<Vec<usize>>,
}

impl View for Tally {
    type V = Seq<(Seq<char>, nat)>;

    closed spec fn view(&self) -> Seq<(Seq<char>, nat)> {
        self.entries@.map_values(|e: (String, u32)| (e.0@, e.1 as nat))
    }
}

impl Tally {
    /// The index finds each entry in the bucket of its key, and only there.
    pub closed spec fn index_ok(&self) -> bool {
        &&& self.index@.len() == TALLY_BUCKETS
        &&& forall|b: int, j: int|
            0 <= b < TALLY_BUCKETS && 0 <= j < self.index@[b]@.len() ==> #[trigger] self.index@[b]@[j]
                < self.entries@.len() && key_hash(self.entries@[self.index@[b]@[j] as int].0@) == b
        &&& forall|i: int|
            0 <= i < self.entries@.len() ==> self.index@[key_hash(
                (#[trigger] self.entries@[i]).0@,
            ) as int]@.contains(i as usize)
    }

    /// Keys appear once each, and every total fits in a `u32`.
    pub open spec fn wf(&self) -> bool {
        &&& self.index_ok()
        &&& keys_distinct(self@)
        &&& forall|i: int| 0 <= i < self@.len() ==> #[trigger] self@[i].1 <= u32::MAX
    }

    pub fn new() -> (t: Tally)
        ensures
            t.wf(),
            t@ == Seq::<(Seq<char>, nat)>::empty(),
    {
        let mut index: Vec<Vec<usize>> = Vec::new();
        let mut b: usize = 0;
        while b < TALLY_BUCKETS
            invariant
                b <= TALLY_BUCKETS,
                index@.len() == b,
                forall|x: int| 0 <= x < b ==> (#[trigger] index@[x])@.len() == 0,
            decreases TALLY_BUCKETS - b,
        {
            index.push(Vec::new());
            b = b + 1;
        }
        let t = Tally { entries: Vec::new(), index };
        assert(t@ =~= Seq::<(Seq<char>, nat)>::empty());
        t
    }

    /// The position of `key`, whose hash is `h`.
    fn find(&self, key: &String, h: usize) -> (r: Option<usize>)
        requires
            self.wf(),
            h == key_hash(key@),
        ensures
            match r {
                Some(j) => j < self@.len() && self@[j as int].0 == key@ && key_index(self@, key@) == j,
                None => !has_key(self@, key@) && key_index(self@, key@) < 0,
            },
    {
        let ghost t = self@;
        assert(h < TALLY_BUCKETS) by {
            if key@.len() > 0 {
            }
        }
        let bucket = &self.index[h];
        let n_entries = self.entries.len();
        let mut k: usize = 0;
        while k < bucket.len()
            invariant
                n_entries == self.entries@.len(),
                t == self@,
                self.wf(),
                h == key_hash(key@),
                h < TALLY_BUCKETS,
                bucket == self.index@[h as int],
                k <= bucket@.len(),
                forall|m: int| 0 <= m < k ==> t[bucket@[m] as int].0 != key@,
            decreases bucket@.len() - k,
        {
            let x = bucket[k];
            assert(x == self.index@[h as int]@[k as int]);
            assert(x < self.entries@.len());
            assert(t[x as int] == (self.entries@[x as int].0@, self.entries@[x as int].1 as nat));
            if self.entries[x].0 == *key {
                proof {
                    lemma_key_index_distinct(t, x as int);
                }
                return Some(x);
            }
            k = k + 1;
        }
        assert(!has_key(t, key@)) by {
            if has_key(t, key@) {
                let i = choose|i: int| 0 <= i < t.len() && #[trigger] t[i].0 == key@;
                assert(t[i] == (self.entries@[i].0@, self.entries@[i].1 as nat));
                assert(self.entries@[i].0@ == key@);
                assert(self.index@[key_hash(self.entries@[i].0@) as int]@.contains(i as usize));
                assert(bucket@.contains(i as usize));
                let m = choose|m: int| 0 <= m < bucket@.len() && bucket@[m] == i as usize;
                assert(k == bucket@.len());
                assert(t.len() == n_entries);
                assert((i as usize) as int == i);
                assert(t[bucket@[m] as int].0 != key@);
                assert(false);
            }
        }
        None
    }

    /// Puts the new key `key` with hash `h` and total `n` at the end.
    fn push_new(&mut self, key: String, h: usize, n: u32)
        requires
            old(self).wf(),
            h == key_hash(key@),
            !has_key(old(self)@, key@),
        ensures
            final(self).wf(),
            final(self)@ == old(self)@.push((key@, n as nat)),
    {
        let ghost t = self@;
        let ghost e0 = self.entries@;
        let ghost ix0 = self.index@;
        let len = self.entries.len();
        assert(h < TALLY_BUCKETS);
        self.entries.push((key, n));
        self.index[h].push(len);
        assert(self@ =~= t.push((key@, n as nat)));
        proof {
            lemma_table_push(t, key@, n as nat);
            assert forall|b: int, j: int|
                0 <= b < TALLY_BUCKETS && 0 <= j < self.index@[b]@.len() implies #[trigger] self.index@[b]@[j]
                < self.entries@.len() && key_hash(self.entries@[self.index@[b]@[j] as int].0@) == b by {
                if b == h && j == ix0[b]@.len() {
                    assert(self.index@[b]@[j] == len);
                } else {
                    assert(self.index@[b]@[j] == ix0[b]@[j]);
                    assert(self.entries@[ix0[b]@[j] as int] == e0[ix0[b]@[j] as int]);
                }
            }
            assert forall|i: int| 0 <= i < self.entries@.len() implies self.index@[key_hash(
                (#[trigger] self.entries@[i]).0@,
            ) as int]@.contains(i as usize) by {
                if i < e0.len() {
                    assert(self.entries@[i] == e0[i]);
                    let hb = key_hash(e0[i].0@) as int;
                    assert(ix0[hb]@.contains(i as usize));
                    let m = choose|m: int| 0 <= m < ix0[hb]@.len() && ix0[hb]@[m] == i as usize;
                    assert(self.index@[hb]@[m] == i as usize);
                } else {
                    assert(self.index@[h as int]@[ix0[h as int]@.len() as int] == len);
                }
            }
            assert forall|i: int| 0 <= i < self@.len() implies #[trigger] self@[i].1 <= u32::MAX by {
                assert(self@[i] == (self.entries@[i].0@, self.entries@[i].1 as nat));
            }
        }
    }

    /// Replaces the total at position `j` by `v`.
    fn set_total(&mut self, j: usize, v: u32)
        requires
            old(self).wf(),
            j < old(self)@.len(),
        ensures
            final(self).wf(),
            final(self)@ == old(self)@.update(j as int, (old(self)@[j as int].0, v as nat)),
    {
        let ghost t = self@;
        let ghost e0 = self.entries@;
        let key = self.entries[j].0.clone();
        self.entries.set(j, (key, v));
        assert(self@ =~= t.update(j as int, (t[j as int].0, v as nat)));
        proof {
            lemma_table_update(t, j as int, v as nat);
            assert forall|b: int, x: int|
                0 <= b < TALLY_BUCKETS && 0 <= x < self.index@[b]@.len() implies #[trigger] self.index@[b]@[x]
                < self.entries@.len() && key_hash(self.entries@[self.index@[b]@[x] as int].0@) == b by {
                assert(self.entries@[self.index@[b]@[x] as int].0@ == e0[self.index@[b]@[x] as int].0@);
            }
            assert forall|i: int| 0 <= i < self.entries@.len() implies self.index@[key_hash(
                (#[trigger] self.entries@[i]).0@,
            ) as int]@.contains(i as usize) by {
                assert(self.entries@[i].0@ == e0[i].0@);
            }
            assert forall|i: int| 0 <= i < self@.len() implies #[trigger] self@[i].1 <= u32::MAX by {
                assert(self@[i] == (self.entries@[i].0@, self.entries@[i].1 as nat));
            }
        }
    }

    /// Adds `n` to the total of `key`, or enters `key` with total `n`.
    pub fn add(&mut self, key: String, n: u32)
        requires
            old(self).wf(),
            key_index(old(self)@, key@) >= 0 ==> old(self)@[key_index(old(self)@, key@)].1 + n
                <= u32::MAX,
        ensures
            final(self).wf(),
            final(self)@ == bump(old(self)@, key@, n as nat),
    {
        let added = self.try_add(key, n);
    }

    /// Adds `n` to the total of `key` as `add` does, unless the total would exceed `u32::MAX`;
    /// then nothing changes and the result is `false`.
    pub fn try_add(&mut self, key: String, n: u32) -> (added: bool)
        requires
            old(self).wf(),
        ensures
            final(self).wf(),
            added == !(key_index(old(self)@, key@) >= 0 && old(self)@[key_index(
                old(self)@,
                key@,
            )].1 + n > u32::MAX),
            added ==> final(self)@ == bump(old(self)@, key@, n as nat),
            !added ==> final(self)@ == old(self)@,
    {
        let ghost t = self@;
        let h = key_hash_of(&key);
        match self.find(&key, h) {
            Some(j) => {
                assert(t[j as int] == (self.entries@[j as int].0@, self.entries@[j as int].1 as nat));
                let old_n = self.entries[j].1;
                if old_n > u32::MAX - n {
                    return false;
                }
                self.set_total(j, old_n + n);
                assert(bump(t, key@, n as nat) == t.update(j as int, (key@, t[j as int].1 + n as nat)));
                true
            },
            None => {
                self.push_new(key, h, n);
                true
            },
        }
    }

    /// The entries, in order.
    pub fn entries(&self) -> (v: &Vec<(String, u32)>)
        ensures
            v@.map_values(|e: (String, u32)| (e.0@, e.1 as nat)) == self@,
    {
        &self.entries
    }

    pub fn into_entries(self) -> (v: Vec<(String, u32)>)
        ensures
            v@.map_values(|e: (String, u32)| (e.0@, e.1 as nat)) == self@,
    {
        self.entries
    }
}

} // verus!
