//! The reduce stage: adding up the counts that the shuffle stage gathered per key.
use vstd::prelude::*;
use vstd::string::StrSliceExecFns;
use crate::counts::{
    gather, gather_add, keys_distinct, lemma_gather,
    accumulate, amount_for, has_key, key_index, lemma_accumulate, lemma_accumulate_distinct, lemma_amount_prefix,
    totals_fit_u32, Tally,
};
use crate::number::{
    decimal, is_digit, law_parse_decimal_u32, parse_usize, parse_usize_range, lemma_decimal_digits, parse_u32, parse_u32_range,
    push_decimal,
};
use crate::text::{
    lemma_lines_no_newline, lemma_trim_facts,
    chars_of, find_char, index_of_char, is_whitespace, lemma_index_of_char_facts,
    lemma_index_of_char_found, lemma_lines_concat, lemma_lines_newline, lemma_lines_record,
    line_ranges, lines, push_char, push_str, ranges_within, slices, split_once, string_of, strip_cr,
    trim, trim_end, trim_range, trim_start, token_ranges, CharClass,
};
use crate::worker::map::fields;

verus! {

/// One entry as the listing writes it: a line feed, the key, a space and the amount.
pub open spec fn listing_line(e: (Seq<char>, nat)) -> Seq<char> {
    seq!['\n'] + e.0 + seq![' '] + decimal(e.1)
}

/// The listing of key/amount pairs that the shuffle and reduce stages write:
/// each entry on a line of its own after a leading line feed, and a final line feed.
pub open spec fn listing(t: Seq<(Seq<char>, nat)>) -> Seq<char> {
    t.flat_map(|e: (Seq<char>, nat)| listing_line(e)) + seq!['\n']
}

pub open spec fn pairs_view(v: Seq<(String, u32)>) -> Seq<(Seq<char>, nat)> {
    v.map_values(|e: (String, u32)| (e.0@, e.1 as nat))
}

/// The listing of `entries` as text.
pub fn listing_text(entries: &[(String, u32)]) -> (out: String)
    ensures
        out@ == listing(pairs_view(entries@)),
{
    let ghost t = pairs_view(entries@);
    let ghost f = |e: (Seq<char>, nat)| listing_line(e);
    let mut out = String::new();
    let mut j: usize = 0;
    assert(t.take(0).flat_map(f) =~= Seq::<char>::empty());
    while j < entries.len()
        invariant
            t == pairs_view(entries@),
            f == (|e: (Seq<char>, nat)| listing_line(e)),
            j <= entries@.len(),
            out@ == t.take(j as int).flat_map(f),
        decreases entries@.len() - j,
    {
        let ghost before = out@;
        push_char(&mut out, '\n');
        push_str(&mut out, entries[j].0.as_str());
        push_char(&mut out, ' ');
        push_decimal(&mut out, entries[j].1 as u64);
        proof {
            t.take(j as int).lemma_flat_map_push(f, t[j as int]);
            assert(t.take(j + 1) == t.take(j as int).push(t[j as int]));
            assert(out@ == before + listing_line(t[j as int]));
        }
        j = j + 1;
    }
    push_char(&mut out, '\n');
    assert(t.take(t.len() as int) == t);
    out
}

/// The listing of the reduced totals as UTF-8 bytes.
pub fn format_reduced(reduced: &Vec<(String, u32)>) -> (out: Vec<u8>)
    ensures
        out@ == vstd::utf8::encode_utf8(listing(pairs_view(reduced@))),
{
    let s = listing_text(reduced.as_slice());
    s.as_str().as_bytes_vec()
}

/// A line that trims to nothing, which the reduce stage skips.
pub open spec fn is_blank(l: Seq<char>) -> bool {
    trim(l).len() == 0
}

/// The key and amount of a line `key amount`: the trimmed line split at its first space,
/// the rest read as a `u32`.
pub open spec fn line_entry(l: Seq<char>) -> Option<(Seq<char>, nat)> {
    match split_once(trim(l), ' ') {
        Some(p) => match parse_u32(p.1) {
            Some(n) => Some((p.0, n as nat)),
            None => None,
        },
        None => None,
    }
}

/// The entries of the lines that are not blank, in order (malformed lines give none).
pub open spec fn entries_of(ls: Seq<Seq<char>>) -> Seq<(Seq<char>, nat)>
    decreases ls.len(),
{
    if ls.len() == 0 {
        Seq::empty()
    } else {
        let prev = entries_of(ls.drop_last());
        if is_blank(ls.last()) {
            prev
        } else {
            match line_entry(ls.last()) {
                Some(e) => prev.push(e),
                None => prev,
            }
        }
    }
}

/// Every line is blank or has the form `key amount`.
pub open spec fn well_formed_lines(ls: Seq<Seq<char>>) -> bool {
    forall|i: int| 0 <= i < ls.len() ==> is_blank(#[trigger] ls[i]) || line_entry(ls[i]) is Some
}

/// The reduce stage accepts `s`: its lines are well formed and no key's total exceeds `u32::MAX`.
pub open spec fn reducible(s: Seq<char>) -> bool {
    well_formed_lines(lines(s)) && totals_fit_u32(entries_of(lines(s)))
}

/// The totals per key of the entries of `s`.
pub open spec fn reduced_totals(s: Seq<char>) -> Seq<(Seq<char>, nat)> {
    accumulate(entries_of(lines(s)))
}

pub proof fn lemma_entries_prefix(ls: Seq<Seq<char>>, j: int)
    requires
        0 <= j <= ls.len(),
    ensures
        entries_of(ls.take(j)).is_prefix_of(entries_of(ls)),
    decreases ls.len() - j,
{
    if j < ls.len() {
        lemma_entries_prefix(ls, j + 1);
        assert(ls.take(j + 1).drop_last() == ls.take(j));
        let a = entries_of(ls.take(j));
        let b = entries_of(ls.take(j + 1));
        let c = entries_of(ls);
        assert(a.is_prefix_of(b));
        assert forall|i: int| 0 <= i < a.len() implies a[i] == c[i] by {
            assert(a[i] == b[i]);
        }
    } else {
        assert(ls.take(j) == ls);
    }
}

/// Reads the line `cs[a..b]`: `Ok(None)` for a blank line, `Ok(Some(..))` for an entry,
/// `Err(())` for a malformed line.
fn read_line(cs: &Vec<char>, a: usize, b: usize) -> (r: Result<Option<(String, u32)>, ()>)
    requires
        a <= b <= cs@.len(),
    ensures
        match r {
            Ok(None) => is_blank(cs@.subrange(a as int, b as int)),
            Ok(Some(e)) => !is_blank(cs@.subrange(a as int, b as int)) && line_entry(
                cs@.subrange(a as int, b as int),
            ) == Some((e.0@, e.1 as nat)),
            Err(_) => !is_blank(cs@.subrange(a as int, b as int)) && line_entry(
                cs@.subrange(a as int, b as int),
            ) is None,
        },
{
    let ghost l = cs@.subrange(a as int, b as int);
    let (ta, tb) = trim_range(cs, a, b);
    let ghost t = cs@.subrange(ta as int, tb as int);
    assert(t == trim(l));
    if ta == tb {
        return Ok(None);
    }
    proof {
        lemma_index_of_char_facts(t, ' ');
    }
    match find_char(cs, ta, tb, ' ') {
        None => Err(()),
        Some(p) => {
            let ghost i = (p - ta) as int;
            assert(t.take(i) == cs@.subrange(ta as int, p as int));
            assert(t.skip(i + 1) == cs@.subrange(p + 1, tb as int));
            match parse_u32_range(cs, p + 1, tb) {
                None => Err(()),
                Some(n) => {
                    let k = string_of(cs, ta, p);
                    Ok(Some((k, n)))
                },
            }
        },
    }
}

/// A key that a listing line carries intact: not empty, without space or line feed,
/// and not starting with whitespace.
pub open spec fn listable_key(k: Seq<char>) -> bool {
    &&& k.len() > 0
    &&& !is_whitespace(k[0])
    &&& forall|i: int| 0 <= i < k.len() ==> #[trigger] k[i] != ' ' && k[i] != '\n'
}

/// Every entry of `t` can be written as a listing line and read back.
pub open spec fn listable(t: Seq<(Seq<char>, nat)>) -> bool {
    forall|i: int| 0 <= i < t.len() ==> listable_key((#[trigger] t[i]).0) && t[i].1 <= u32::MAX
}

/// The text of a listing line without its line feed: `key amount`.
pub open spec fn record_text(e: (Seq<char>, nat)) -> Seq<char> {
    e.0 + seq![' '] + decimal(e.1)
}

pub open spec fn record(e: (Seq<char>, nat)) -> Seq<char> {
    record_text(e).push('\n')
}

proof fn lemma_listing_shape(t: Seq<(Seq<char>, nat)>)
    ensures
        listing(t) == seq!['\n'] + t.flat_map(|e: (Seq<char>, nat)| record(e)),
    decreases t.len(),
{
    let ll = |e: (Seq<char>, nat)| listing_line(e);
    let rc = |e: (Seq<char>, nat)| record(e);
    if t.len() == 0 {
        assert(t.flat_map(ll) =~= Seq::<char>::empty());
        assert(t.flat_map(rc) =~= Seq::<char>::empty());
        assert(listing(t) =~= seq!['\n'] + t.flat_map(rc));
    } else {
        let prev = t.drop_last();
        let e = t.last();
        lemma_listing_shape(prev);
        assert(t == prev.push(e));
        prev.lemma_flat_map_push(ll, e);
        prev.lemma_flat_map_push(rc, e);
        let a = prev.flat_map(ll);
        let b = prev.flat_map(rc);
        let nl = seq!['\n'];
        assert(a + nl == nl + b);
        assert(ll(e) == nl + record_text(e));
        assert(rc(e) == record_text(e) + nl);
        assert(listing(t) == a + ll(e) + nl);
        assert(a + ll(e) + nl =~= (a + nl) + record_text(e) + nl);
        assert(nl + t.flat_map(rc) =~= (nl + b) + record_text(e) + nl);
    }
}

proof fn lemma_record_text_facts(e: (Seq<char>, nat))
    requires
        listable_key(e.0),
        e.1 <= u32::MAX,
    ensures
        forall|i: int| 0 <= i < record_text(e).len() ==> #[trigger] record_text(e)[i] != '\n',
        strip_cr(record_text(e)) == record_text(e),
        !is_blank(record_text(e)),
        line_entry(record_text(e)) == Some(e),
{
    let k = e.0;
    let d = decimal(e.1);
    let r = record_text(e);
    lemma_decimal_digits(e.1);
    law_parse_decimal_u32(e.1 as u32);
    assert forall|i: int| 0 <= i < r.len() implies #[trigger] r[i] != '\n' by {
        if i < k.len() {
            assert(r[i] == k[i]);
        } else if i > k.len() {
            assert(r[i] == d[i - k.len() - 1]);
            assert(is_digit(d[i - k.len() - 1]));
        }
    }
    assert(r.last() == d.last());
    assert(is_digit(r.last()));
    assert(r.last() != '\r');
    assert(!is_whitespace(r.last())) by {
        assert('0' as u32 == 48 && '9' as u32 == 57);
    }
    assert(r[0] == k[0]);
    assert(trim_start(r) == r);
    assert(trim_end(r) == r);
    assert(trim(r) == r);
    assert(r[k.len() as int] == ' ');
    assert forall|j: int| 0 <= j < k.len() implies r[j] != ' ' by {
        assert(r[j] == k[j]);
    }
    lemma_index_of_char_found(r, ' ', k.len());
    assert(r.take(k.len() as int) =~= k);
    assert(r.skip(k.len() as int + 1) =~= d);
}

proof fn lemma_records_lines(t: Seq<(Seq<char>, nat)>)
    requires
        listable(t),
    ensures
        lines(t.flat_map(|e: (Seq<char>, nat)| record(e))) == t.map_values(
            |e: (Seq<char>, nat)| record_text(e),
        ),
    decreases t.len(),
{
    let rc = |e: (Seq<char>, nat)| record(e);
    let rt = |e: (Seq<char>, nat)| record_text(e);
    if t.len() == 0 {
        assert(t.flat_map(rc) =~= Seq::<char>::empty());
        lemma_lines_empty();
        assert(t.map_values(rt) =~= Seq::<Seq<char>>::empty());
    } else {
        let prev = t.drop_last();
        let e = t.last();
        assert(listable_key(t[t.len() - 1].0) && t[t.len() - 1].1 <= u32::MAX);
        assert(listable(prev)) by {
            assert forall|i: int| 0 <= i < prev.len() implies listable_key((#[trigger] prev[i]).0)
                && prev[i].1 <= u32::MAX by {
                assert(prev[i] == t[i]);
            }
        }
        lemma_records_lines(prev);
        lemma_record_text_facts(e);
        lemma_lines_record(record_text(e));
        assert(t == prev.push(e));
        prev.lemma_flat_map_push(rc, e);
        assert(t.map_values(rt) =~= prev.map_values(rt).push(record_text(e)));
        if prev.len() == 0 {
            assert(prev.flat_map(rc) =~= Seq::<char>::empty());
            assert(t.flat_map(rc) =~= record(e));
            assert(prev.map_values(rt) =~= Seq::<Seq<char>>::empty());
        } else {
            let pp = prev.drop_last();
            pp.lemma_flat_map_push(rc, prev.last());
            assert(prev == pp.push(prev.last()));
            assert(prev.flat_map(rc).last() == '\n');
            lemma_lines_concat(prev.flat_map(rc), record(e));
        }
    }
}

proof fn lemma_lines_empty()
    ensures
        lines(Seq::<char>::empty()) == Seq::<Seq<char>>::empty(),
{
    let e = Seq::<char>::empty();
    assert(lines(e) =~= Seq::<Seq<char>>::empty());
}

proof fn lemma_entries_concat(a: Seq<Seq<char>>, b: Seq<Seq<char>>)
    ensures
        entries_of(a + b) == entries_of(a) + entries_of(b),
    decreases b.len(),
{
    if b.len() == 0 {
        assert(a + b == a);
        assert(entries_of(a) + entries_of(b) =~= entries_of(a));
    } else {
        lemma_entries_concat(a, b.drop_last());
        assert((a + b).drop_last() == a + b.drop_last());
        assert((a + b).last() == b.last());
        assert(entries_of(a + b) =~= entries_of(a) + entries_of(b));
    }
}

proof fn lemma_record_entries(t: Seq<(Seq<char>, nat)>)
    requires
        listable(t),
    ensures
        well_formed_lines(t.map_values(|e: (Seq<char>, nat)| record_text(e))),
        entries_of(t.map_values(|e: (Seq<char>, nat)| record_text(e))) == t,
    decreases t.len(),
{
    let rt = |e: (Seq<char>, nat)| record_text(e);
    let ls = t.map_values(rt);
    if t.len() > 0 {
        let prev = t.drop_last();
        assert(listable(prev)) by {
            assert forall|i: int| 0 <= i < prev.len() implies listable_key((#[trigger] prev[i]).0)
                && prev[i].1 <= u32::MAX by {
                assert(prev[i] == t[i]);
            }
        }
        lemma_record_entries(prev);
        assert(listable_key(t[t.len() - 1].0) && t[t.len() - 1].1 <= u32::MAX);
        lemma_record_text_facts(t.last());
        assert(ls.drop_last() =~= prev.map_values(rt));
        assert(ls.last() == record_text(t.last()));
        assert(t =~= prev.push(t.last()));
        assert forall|i: int| 0 <= i < ls.len() implies is_blank(#[trigger] ls[i]) || line_entry(ls[i]) is Some by {
            if i < prev.len() {
                assert(ls[i] == prev.map_values(rt)[i]);
            }
        }
    } else {
        assert(t =~= Seq::<(Seq<char>, nat)>::empty());
    }
}

/// The text of shuffle outputs appended one after the other to one split file.
pub open spec fn appended(parts: Seq<Seq<(Seq<char>, nat)>>) -> Seq<char> {
    parts.flat_map(|t: Seq<(Seq<char>, nat)>| listing(t))
}

proof fn lemma_listing_lines(t: Seq<(Seq<char>, nat)>)
    requires
        listable(t),
    ensures
        lines(listing(t)) == seq![Seq::<char>::empty()] + t.map_values(
            |e: (Seq<char>, nat)| record_text(e),
        ),
        listing(t).len() > 0,
        listing(t).last() == '\n',
{
    lemma_listing_shape(t);
    lemma_records_lines(t);
    lemma_lines_concat(seq!['\n'], t.flat_map(|e: (Seq<char>, nat)| record(e)));
    lemma_lines_newline();
}

/// The key of a well formed line can be written back as a listing line.
proof fn lemma_line_entry_listable(l: Seq<char>)
    requires
        forall|j: int| 0 <= j < l.len() ==> #[trigger] l[j] != '\n',
        line_entry(l) is Some,
    ensures
        listable_key(line_entry(l).unwrap().0),
        line_entry(l).unwrap().1 <= u32::MAX,
{
    let t = trim(l);
    lemma_trim_facts(l);
    lemma_index_of_char_facts(t, ' ');
    let i = index_of_char(t, ' ').unwrap();
    let k = t.take(i as int);
    assert(is_whitespace(' '));
    assert(t[0] != ' ');
    assert(i > 0);
    assert(k[0] == t[0]);
    assert forall|j: int| 0 <= j < k.len() implies #[trigger] k[j] != ' ' && k[j] != '\n' by {
        assert(k[j] == t[j]);
        let m = choose|m: int| 0 <= m < l.len() && #[trigger] t[j] == l[m];
        assert(l[m] != '\n');
    }
}

/// Every entry read from lines without line feeds can be written back as a listing line.
proof fn lemma_entries_listable(ls: Seq<Seq<char>>)
    requires
        forall|i: int, j: int| 0 <= i < ls.len() && 0 <= j < ls[i].len() ==> #[trigger] ls[i][j] != '\n',
    ensures
        listable(entries_of(ls)),
    decreases ls.len(),
{
    if ls.len() > 0 {
        let p = ls.drop_last();
        assert forall|i: int, j: int| 0 <= i < p.len() && 0 <= j < p[i].len() implies #[trigger] p[i][j] != '\n' by {
            assert(p[i] == ls[i]);
        }
        lemma_entries_listable(p);
        let l = ls.last();
        if !is_blank(l) && line_entry(l) is Some {
            assert forall|j: int| 0 <= j < l.len() implies #[trigger] l[j] != '\n' by {
                assert(ls[ls.len() - 1][j] != '\n');
            }
            lemma_line_entry_listable(l);
            let e = entries_of(ls);
            assert forall|i: int| 0 <= i < e.len() implies listable_key((#[trigger] e[i]).0) && e[i].1 <= u32::MAX by {
                if i < entries_of(p).len() {
                    assert(e[i] == entries_of(p)[i]);
                }
            }
        }
    }
}

/// The totals of a reducible text can be written as a listing and read back.
pub proof fn lemma_reduced_listable(s: Seq<char>)
    requires
        reducible(s),
    ensures
        listable(reduced_totals(s)),
{
    let es = entries_of(lines(s));
    lemma_lines_no_newline(s);
    lemma_entries_listable(lines(s));
    lemma_accumulate(es);
    let t = reduced_totals(s);
    assert forall|i: int| 0 <= i < t.len() implies listable_key((#[trigger] t[i]).0) && t[i].1 <= u32::MAX by {
        assert(has_key(t, t[i].0));
        assert(has_key(es, t[i].0));
        let m = choose|m: int| 0 <= m < es.len() && #[trigger] es[m].0 == t[i].0;
        assert(listable_key(es[m].0));
        assert(amount_for(es, es[m].0) <= u32::MAX);
    }
}

/// The idempotence law: reducing the output of a reduce again gives the same totals, so the
/// same output.
pub proof fn law_reduce_twice(s: Seq<char>)
    requires
        reducible(s),
    ensures
        reducible(listing(reduced_totals(s))),
        reduced_totals(listing(reduced_totals(s))) == reduced_totals(s),
{
    let t = reduced_totals(s);
    lemma_reduced_listable(s);
    lemma_accumulate(entries_of(lines(s)));
    law_reduce_reads_shuffle_output(seq![t]);
    let lf = |x: Seq<(Seq<char>, nat)>| listing(x);
    assert(appended(seq![t]) == listing(t)) by {
        seq![t].lemma_flat_map_singleton(lf);
    }
    assert(seq![t].flatten() == t) by {
        seq![t].lemma_flatten_one_element();
    }
    lemma_accumulate_distinct(t);
    lemma_accumulate(t);
    assert(totals_fit_u32(t)) by {
        assert forall|i: int| 0 <= i < t.len() implies amount_for(t, #[trigger] t[i].0) <= u32::MAX by {
            assert(accumulate(t)[i].1 == amount_for(t, accumulate(t)[i].0));
        }
    }
}

pub proof fn law_reduce_reads_shuffle_output(parts: Seq<Seq<(Seq<char>, nat)>>)
    requires
        forall|i: int| 0 <= i < parts.len() ==> listable(#[trigger] parts[i]),
    ensures
        well_formed_lines(lines(appended(parts))),
        entries_of(lines(appended(parts))) == parts.flatten(),
        reduced_totals(appended(parts)) == accumulate(parts.flatten()),
    decreases parts.len(),
{
    let lf = |t: Seq<(Seq<char>, nat)>| listing(t);
    if parts.len() == 0 {
        assert(appended(parts) =~= Seq::<char>::empty());
        lemma_lines_empty();
        assert(entries_of(Seq::<Seq<char>>::empty()) == Seq::<(Seq<char>, nat)>::empty());
        assert(parts.flatten() =~= Seq::<(Seq<char>, nat)>::empty());
    } else {
        let prev = parts.drop_last();
        let t = parts.last();
        assert(listable(parts[parts.len() - 1]));
        law_reduce_reads_shuffle_output(prev);
        assert(parts == prev.push(t));
        prev.lemma_flat_map_push(lf, t);
        prev.lemma_flatten_push(t);
        lemma_listing_lines(t);
        lemma_record_entries(t);
        let head = seq![Seq::<char>::empty()];
        let recs = t.map_values(|e: (Seq<char>, nat)| record_text(e));
        lemma_entries_concat(head, recs);
        assert(entries_of(head) =~= Seq::<(Seq<char>, nat)>::empty()) by {
            assert(head.drop_last() =~= Seq::<Seq<char>>::empty());
            assert(head.last() == Seq::<char>::empty());
            assert(trim_start(Seq::<char>::empty()) == Seq::<char>::empty());
            assert(trim_end(Seq::<char>::empty()) == Seq::<char>::empty());
            assert(is_blank(Seq::<char>::empty()));
            assert(entries_of(Seq::<Seq<char>>::empty()) == Seq::<(Seq<char>, nat)>::empty());
        }
        assert(entries_of(lines(listing(t))) =~= t);
        assert(well_formed_lines(lines(listing(t)))) by {
            let ls = lines(listing(t));
            assert forall|i: int| 0 <= i < ls.len() implies is_blank(#[trigger] ls[i]) || line_entry(ls[i]) is Some by {
                if i > 0 {
                    assert(ls[i] == recs[i - 1]);
                }
            }
        }
        if prev.len() == 0 {
            assert(appended(prev) =~= Seq::<char>::empty());
            assert(appended(parts) =~= listing(t));
            assert(prev.flatten() =~= Seq::<(Seq<char>, nat)>::empty());
            assert(parts.flatten() =~= t);
        } else {
            let pp = prev.drop_last();
            assert(listable(prev[prev.len() - 1]));
            lemma_listing_lines(prev.last());
            pp.lemma_flat_map_push(lf, prev.last());
            assert(prev == pp.push(prev.last()));
            assert(appended(prev).last() == '\n');
            lemma_lines_concat(appended(prev), listing(t));
            let a = lines(appended(prev));
            let b = lines(listing(t));
            lemma_entries_concat(a, b);
            assert forall|i: int| 0 <= i < (a + b).len() implies is_blank(#[trigger] (a + b)[i])
                || line_entry((a + b)[i]) is Some by {
                if i < a.len() {
                    assert((a + b)[i] == a[i]);
                } else {
                    assert((a + b)[i] == b[i - a.len()]);
                }
            }
        }
    }
}

/// The reduce stage of the word count, or `None` where the input is not reducible.
pub fn try_wordcount(ip: &str) -> (out: Option<Vec<u8>>)
    ensures
        match out {
            Some(bytes) => reducible(ip@) && bytes@ == vstd::utf8::encode_utf8(
                listing(reduced_totals(ip@)),
            ),
            None => !reducible(ip@),
        },
{
    let cs = chars_of(ip);
    let lrs = line_ranges(&cs, 0, cs.len());
    assert(cs@.subrange(0, cs@.len() as int) == cs@);
    let ghost ls = lines(ip@);
    let mut tally = Tally::new();
    let mut j: usize = 0;
    assert(ls.take(0) =~= Seq::<Seq<char>>::empty());
    while j < lrs.len()
        invariant
            cs@ == ip@,
            ls == lines(ip@),
            slices(cs@, lrs@) == ls,
            ranges_within(lrs@, 0, cs@.len() as int),
            j <= lrs@.len(),
            tally.wf(),
            tally@ == accumulate(entries_of(ls.take(j as int))),
            well_formed_lines(ls.take(j as int)),
        decreases lrs@.len() - j,
    {
        let r = lrs[j];
        assert(r == lrs@[j as int]);
        let ghost l = cs@.subrange(r.0 as int, r.1 as int);
        assert(l == ls[j as int]);
        let ghost pre = ls.take(j as int);
        assert(ls.take(j + 1).drop_last() == pre);
        assert(ls.take(j + 1).last() == l);
        match read_line(&cs, r.0, r.1) {
            Err(_) => {
                assert(!well_formed_lines(ls));
                return None;
            },
            Ok(None) => {},
            Ok(Some(e)) => {
                let ghost es = entries_of(ls.take(j + 1));
                let ghost kv = e.0@;
                assert(es == entries_of(pre).push((kv, e.1 as nat)));
                proof {
                    lemma_accumulate(entries_of(pre));
                    assert(es.drop_last() == entries_of(pre));
                    assert(amount_for(es, kv) == amount_for(entries_of(pre), kv) + e.1);
                    let ki = key_index(tally@, kv);
                    if ki >= 0 {
                        assert(tally@[ki].1 == amount_for(entries_of(pre), kv));
                    }
                }
                if !tally.try_add(e.0, e.1) {
                    proof {
                        if well_formed_lines(ls) {
                            lemma_entries_prefix(ls, j + 1);
                            let all = entries_of(ls);
                            assert(es == all.take(es.len() as int));
                            lemma_amount_prefix(all, es.len() as int, kv);
                            assert(all[es.len() - 1].0 == kv);
                            assert(!totals_fit_u32(all));
                        }
                    }
                    return None;
                }
            },
        }
        assert(well_formed_lines(ls.take(j + 1))) by {
            assert forall|i: int| 0 <= i < j + 1 implies is_blank(#[trigger] ls.take(j + 1)[i])
                || line_entry(ls.take(j + 1)[i]) is Some by {
                if i < j {
                    assert(ls.take(j + 1)[i] == pre[i]);
                }
            }
        }
        j = j + 1;
    }
    assert(ls.take(ls.len() as int) == ls);
    let ghost all = entries_of(ls);
    proof {
        lemma_accumulate(all);
    }
    assert(totals_fit_u32(all)) by {
        assert forall|i: int| 0 <= i < all.len() implies amount_for(all, #[trigger] all[i].0)
            <= u32::MAX by {
            let k = all[i].0;
            assert(crate::counts::has_key(all, k));
            assert(crate::counts::has_key(tally@, k));
            let m = choose|m: int| 0 <= m < tally@.len() && #[trigger] tally@[m].0 == k;
            assert(tally@[m].1 == amount_for(all, k));
        }
    }
    let v = tally.into_entries();
    Some(format_reduced(&v))
}

/// The reduce stage of the word count: the listing of the totals per key of `ip`.
pub fn wordcount(ip: &str) -> (out: Vec<u8>)
    requires
        reducible(ip@),
    ensures
        out@ == vstd::utf8::encode_utf8(listing(reduced_totals(ip@))),
{
    match try_wordcount(ip) {
        Some(b) => b,
        None => Vec::new(),
    }
}

// ---------------------------------------------------------------------------
// The matrix reduce: the entries of each cell, per matrix
// ---------------------------------------------------------------------------

/// A matrix reduce line `i k name j value`: at least five fields, with `i`, `k` and `j`
/// read as `usize`.
pub open spec fn matrix_line_ok(l: Seq<char>) -> bool {
    let f = fields(l);
    &&& f.len() >= 5
    &&& parse_usize(f[0]) is Some
    &&& parse_usize(f[1]) is Some
    &&& parse_usize(f[3]) is Some
}

/// Every line of `s` is a matrix reduce line.
pub open spec fn matrix_reduce_input_ok(s: Seq<char>) -> bool {
    forall|i: int| 0 <= i < lines(s).len() ==> #[trigger] matrix_line_ok(lines(s)[i])
}

/// A matrix reduce line as its cell `(i, k)` and its entry: whether it is of matrix `A`,
/// its `j` and its value text.
pub open spec fn matrix_entry(l: Seq<char>) -> ((usize, usize), (bool, usize, Seq<char>)) {
    let f = fields(l);
    (
        (parse_usize(f[0]).unwrap(), parse_usize(f[1]).unwrap()),
        (f[2] == seq!['A'], parse_usize(f[3]).unwrap(), f[4]),
    )
}

/// The test for entries of matrix `A` (or of the other matrix, for `false`).
pub open spec fn of_matrix_a(a: bool) -> spec_fn((bool, usize, Seq<char>)) -> bool {
    |e: (bool, usize, Seq<char>)| e.0 == a
}

/// The entries of one matrix as `(j, value text)`, in order.
pub open spec fn matrix_part(es: Seq<(bool, usize, Seq<char>)>, a: bool) -> Seq<(usize, Seq<char>)> {
    es.filter(of_matrix_a(a)).map_values(|e: (bool, usize, Seq<char>)| (e.1, e.2))
}

/// The cells of the lines of `s`, in order of first appearance, each with the entries of
/// matrix `A` and those of the other matrix, in input order.
pub open spec fn matrix_groups_spec(s: Seq<char>) -> Seq<((usize, usize), Seq<(usize, Seq<char>)>, Seq<(usize, Seq<char>)>)> {
    gather(lines(s).map_values(|l: Seq<char>| matrix_entry(l))).map_values(
        |g: ((usize, usize), Seq<(bool, usize, Seq<char>)>)|
            (g.0, matrix_part(g.1, true), matrix_part(g.1, false)),
    )
}

pub open spec fn part_view(v: Seq<(usize, String)>) -> Seq<(usize, Seq<char>)> {
    v.map_values(|e: (usize, String)| (e.0, e.1@))
}

pub open spec fn groups_view(g: Seq<((usize, usize), Vec<(usize, String)>, Vec<(usize, String)>)>) -> Seq<((usize, usize), Seq<(usize, Seq<char>)>, Seq<(usize, Seq<char>)>)> {
    g.map_values(
        |x: ((usize, usize), Vec<(usize, String)>, Vec<(usize, String)>)| (x.0, part_view(x.1@), part_view(x.2@)),
    )
}

pub open spec fn entries_view(v: Seq<(bool, usize, String)>) -> Seq<(bool, usize, Seq<char>)> {
    v.map_values(|e: (bool, usize, String)| (e.0, e.1, e.2@))
}

pub open spec fn cells_view(g: Seq<((usize, usize), Vec<(bool, usize, String)>)>) -> Seq<((usize, usize), Seq<(bool, usize, Seq<char>)>)> {
    g.map_values(|x: ((usize, usize), Vec<(bool, usize, String)>)| (x.0, entries_view(x.1@)))
}

/// Splits the entries of a cell into those of matrix `A` and the others.
fn split_matrices(es: &Vec<(bool, usize, String)>) -> (r: (Vec<(usize, String)>, Vec<(usize, String)>))
    ensures
        part_view(r.0@) == matrix_part(entries_view(es@), true),
        part_view(r.1@) == matrix_part(entries_view(es@), false),
{
    let ghost ev = entries_view(es@);
    let ghost f = |e: (bool, usize, Seq<char>)| (e.1, e.2);
    let mut a: Vec<(usize, String)> = Vec::new();
    let mut b: Vec<(usize, String)> = Vec::new();
    let mut x: usize = 0;
    assert(ev.take(0).filter(of_matrix_a(true)) =~= Seq::<(bool, usize, Seq<char>)>::empty());
    assert(ev.take(0).filter(of_matrix_a(false)) =~= Seq::<(bool, usize, Seq<char>)>::empty());
    assert(part_view(a@) =~= Seq::<(usize, Seq<char>)>::empty());
    while x < es.len()
        invariant
            ev == entries_view(es@),
            f == (|e: (bool, usize, Seq<char>)| (e.1, e.2)),
            x <= es@.len(),
            part_view(a@) == ev.take(x as int).filter(of_matrix_a(true)).map_values(f),
            part_view(b@) == ev.take(x as int).filter(of_matrix_a(false)).map_values(f),
        decreases es@.len() - x,
    {
        let e = &es[x];
        let ghost evx = ev[x as int];
        assert(evx == (e.0, e.1, e.2@));
        assert(ev.take(x + 1) == ev.take(x as int).push(evx));
        proof {
            ev.take(x as int).lemma_filter_push(evx, of_matrix_a(true));
            ev.take(x as int).lemma_filter_push(evx, of_matrix_a(false));
        }
        let ghost pa = a@;
        let ghost pb = b@;
        if e.0 {
            a.push((e.1, e.2.clone()));
            assert(part_view(a@) =~= part_view(pa).push((e.1, e.2@)));
            assert(part_view(b@) == part_view(pb));
        } else {
            b.push((e.1, e.2.clone()));
            assert(part_view(b@) =~= part_view(pb).push((e.1, e.2@)));
            assert(part_view(a@) == part_view(pa));
        }
        x = x + 1;
    }
    assert(ev.take(es@.len() as int) == ev);
    (a, b)
}

/// The entries of the matrix reduce lines of `ip` per cell `(i, k)`, cells in order of first
/// appearance, each split into the entries `(j, value text)` of matrix `A` and those of the
/// other matrix, in input order; `None` where a line is not `i k name j value` with `i`, `k`
/// and `j` numbers.
pub fn matrix_groups(ip: &str) -> (r: Option<Vec<((usize, usize), Vec<(usize, String)>, Vec<(usize, String)>)>>)
    ensures
        match r {
            Some(g) => matrix_reduce_input_ok(ip@) && groups_view(g@) == matrix_groups_spec(ip@),
            None => !matrix_reduce_input_ok(ip@),
        },
{
    let cs = chars_of(ip);
    let lrs = line_ranges(&cs, 0, cs.len());
    assert(cs@.subrange(0, cs@.len() as int) == cs@);
    let ghost items = lines(ip@).map_values(|l: Seq<char>| matrix_entry(l));
    let mut g: Vec<((usize, usize), Vec<(bool, usize, String)>)> = Vec::new();
    let mut j: usize = 0;
    assert(items.take(0) =~= Seq::<((usize, usize), (bool, usize, Seq<char>))>::empty());
    assert(cells_view(g@) =~= Seq::<((usize, usize), Seq<(bool, usize, Seq<char>)>)>::empty());
    while j < lrs.len()
        invariant
            cs@ == ip@,
            forall|i: int| 0 <= i < j ==> #[trigger] matrix_line_ok(lines(ip@)[i]),
            items == lines(ip@).map_values(|l: Seq<char>| matrix_entry(l)),
            slices(cs@, lrs@) == lines(ip@),
            ranges_within(lrs@, 0, cs@.len() as int),
            j <= lrs@.len(),
            cells_view(g@) == gather(items.take(j as int)),
        decreases lrs@.len() - j,
    {
        let r = lrs[j];
        assert(r == lrs@[j as int]);
        let ghost l = lines(ip@)[j as int];
        assert(cs@.subrange(r.0 as int, r.1 as int) == l);
        let ts = token_ranges(&cs, r.0, r.1, CharClass::AsciiWhitespace);
        assert(slices(cs@, ts@) == fields(l));
        if ts.len() < 5 {
            assert(!matrix_line_ok(lines(ip@)[j as int]));
            return None;
        }
        let ghost f = fields(l);
        assert(f[0] == cs@.subrange(ts@[0].0 as int, ts@[0].1 as int));
        assert(f[1] == cs@.subrange(ts@[1].0 as int, ts@[1].1 as int));
        assert(f[2] == cs@.subrange(ts@[2].0 as int, ts@[2].1 as int));
        assert(f[3] == cs@.subrange(ts@[3].0 as int, ts@[3].1 as int));
        assert(f[4] == cs@.subrange(ts@[4].0 as int, ts@[4].1 as int));
        let ci = parse_usize_range(&cs, ts[0].0, ts[0].1);
        let ck = parse_usize_range(&cs, ts[1].0, ts[1].1);
        let cj = parse_usize_range(&cs, ts[3].0, ts[3].1);
        if ci.is_none() || ck.is_none() || cj.is_none() {
            assert(!matrix_line_ok(lines(ip@)[j as int]));
            return None;
        }
        let i_val = ci.unwrap();
        let k_val = ck.unwrap();
        let j_val = cj.unwrap();
        let is_a = ts[2].1 - ts[2].0 == 1 && cs[ts[2].0] == 'A';
        assert(is_a == (f[2] == seq!['A'])) by {
            if f[2] == seq!['A'] {
                assert(f[2][0] == cs@[ts@[2].0 as int]);
            }
            if is_a {
                assert(f[2] =~= seq!['A']);
            }
        }
        let val = string_of(&cs, ts[4].0, ts[4].1);
        let ghost entry = (is_a, j_val, val@);
        assert(items[j as int] == ((i_val, k_val), entry));
        let ghost before = cells_view(g@);
        proof {
            lemma_gather(items.take(j as int));
            assert(items.take(j + 1).drop_last() == items.take(j as int));
            assert(items.take(j + 1).last() == ((i_val, k_val), entry));
        }
        let mut m: usize = 0;
        while m < g.len() && (g[m].0.0 != i_val || g[m].0.1 != k_val)
            invariant
                before == cells_view(g@),
                keys_distinct(before),
                m <= g@.len(),
                forall|x: int| 0 <= x < m ==> before[x].0 != (i_val, k_val),
            decreases g@.len() - m,
        {
            m = m + 1;
        }
        if m < g.len() {
            assert(before[m as int].0 == (i_val, k_val));
            assert(key_index(before, (i_val, k_val)) == m as int);
            let ghost prev = g@;
            let (key, mut es) = g.remove(m);
            let ghost old_es = es@;
            es.push((is_a, j_val, val));
            assert(entries_view(es@) =~= entries_view(old_es).push(entry));
            g.insert(m, (key, es));
            assert(g@ =~= prev.update(m as int, (key, es)));
            assert(cells_view(g@) =~= gather_add(before, (i_val, k_val), entry));
        } else {
            assert(key_index(before, (i_val, k_val)) < 0) by {
                if exists|i: int| 0 <= i < before.len() && #[trigger] before[i].0 == (i_val, k_val) {
                    let i = choose|i: int| 0 <= i < before.len() && #[trigger] before[i].0 == (i_val, k_val);
                    assert(before[i].0 != (i_val, k_val));
                }
            }
            let mut es: Vec<(bool, usize, String)> = Vec::new();
            es.push((is_a, j_val, val));
            assert(entries_view(es@) =~= seq![entry]);
            g.push(((i_val, k_val), es));
            assert(cells_view(g@) =~= gather_add(before, (i_val, k_val), entry));
        }
        j = j + 1;
    }
    assert(items.take(items.len() as int) == items);
    let ghost cells = cells_view(g@);
    let mut out: Vec<((usize, usize), Vec<(usize, String)>, Vec<(usize, String)>)> = Vec::new();
    let mut x: usize = 0;
    while x < g.len()
        invariant
            cells == cells_view(g@),
            cells == gather(items),
            items == lines(ip@).map_values(|l: Seq<char>| matrix_entry(l)),
            x <= g@.len(),
            out@.len() == x,
            forall|y: int| 0 <= y < x ==> #[trigger] groups_view(out@)[y] == (
                cells[y].0,
                matrix_part(cells[y].1, true),
                matrix_part(cells[y].1, false),
            ),
        decreases g@.len() - x,
    {
        let (a, b) = split_matrices(&g[x].1);
        assert(cells[x as int] == (g@[x as int].0, entries_view(g@[x as int].1@)));
        let ghost po = out@;
        let key = g[x].0;
        assert(key == cells[x as int].0);
        out.push((key, a, b));
        assert forall|y: int| 0 <= y < x + 1 implies #[trigger] groups_view(out@)[y] == (
            cells[y].0,
            matrix_part(cells[y].1, true),
            matrix_part(cells[y].1, false),
        ) by {
            assert(groups_view(out@)[y] == (out@[y].0, part_view(out@[y].1@), part_view(out@[y].2@)));
            if y < x {
                assert(out@[y] == po[y]);
                assert(groups_view(po)[y] == (po[y].0, part_view(po[y].1@), part_view(po[y].2@)));
            }
        }
        x = x + 1;
    }
    assert(groups_view(out@) =~= matrix_groups_spec(ip@));
    assert(matrix_reduce_input_ok(ip@));
    Some(out)
}

} // verus!
