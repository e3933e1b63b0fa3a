//! The map stage: turning a split of the input into intermediate key/value data.
use vstd::prelude::*;
use crate::counts::{
    accumulate, amount_for, gather, gather_add, has_key, key_index, keys_distinct, lemma_accumulate,
    lemma_amount_prefix, lemma_gather, totals_fit_u32, Tally,
};
use crate::json::{join, json_quote, lemma_join_push, push_quoted};
use crate::number::{decimal, push_decimal};
use crate::text::{
    chars_of, line_ranges, lines, push_char, push_str, ranges_within, slices, string_of,
    token_ranges, tokens, CharClass, in_class, lemma_split_by_concat, non_empty, split_by,
};

verus! {

/// The words of `s`: the non-empty pieces between word separators.
pub open spec fn words(s: Seq<char>) -> Seq<Seq<char>> {
    tokens(s, CharClass::WordSeparator)
}

/// Each word paired with the amount 1.
pub open spec fn ones(ws: Seq<Seq<char>>) -> Seq<(Seq<char>, nat)> {
    ws.map_values(|w: Seq<char>| (w, 1nat))
}

/// How often each word of `s` occurs, words in order of first occurrence.
pub open spec fn word_totals(s: Seq<char>) -> Seq<(Seq<char>, nat)> {
    accumulate(ones(words(s)))
}

/// One member `"word":count` of a JSON object.
pub open spec fn count_member(e: (Seq<char>, nat)) -> Seq<char> {
    json_quote(e.0) + seq![':'] + decimal(e.1)
}

/// The JSON object that maps each word to its count, in the order of `t`.
pub open spec fn counts_json(t: Seq<(Seq<char>, nat)>) -> Seq<char> {
    seq!['{'] + join(t.map_values(|e: (Seq<char>, nat)| count_member(e)), seq![',']) + seq!['}']
}

/// The test for the word `w`.
pub open spec fn is_word(w: Seq<char>) -> spec_fn(Seq<char>) -> bool {
    |x: Seq<char>| x == w
}

/// How often `w` occurs in `ws`.
pub open spec fn occurrences(ws: Seq<Seq<char>>, w: Seq<char>) -> nat {
    ws.filter(is_word(w)).len()
}

pub proof fn lemma_ones_amount(ws: Seq<Seq<char>>, w: Seq<char>)
    ensures
        amount_for(ones(ws), w) == occurrences(ws, w),
        has_key(ones(ws), w) <==> ws.contains(w),
    decreases ws.len(),
{
    let p = is_word(w);
    if ws.len() == 0 {
        assert(ws.filter(p) =~= Seq::<Seq<char>>::empty());
        if has_key(ones(ws), w) {
            let i = choose|i: int| 0 <= i < ones(ws).len() && #[trigger] ones(ws)[i].0 == w;
        }
    } else {
        let prev = ws.drop_last();
        lemma_ones_amount(prev, w);
        assert(ones(ws).drop_last() == ones(prev));
        assert(ws == prev.push(ws.last()));
        prev.lemma_filter_push(ws.last(), p);
        crate::counts::lemma_has_key_last(ones(ws));
        assert(ones(ws).last() == (ws.last(), 1nat));
        if ws.contains(w) {
            let i = choose|i: int| 0 <= i < ws.len() && ws[i] == w;
            if i < prev.len() {
                assert(prev[i] == w);
            }
        }
        if prev.contains(w) {
            let i = choose|i: int| 0 <= i < prev.len() && prev[i] == w;
            assert(ws[i] == w);
        }
    }
}

/// The words of a text that is empty or ends with a separator, followed by another text, are
/// the words of the first, then those of the second.
pub proof fn lemma_words_concat(a: Seq<char>, b: Seq<char>)
    requires
        a.len() == 0 || in_class(CharClass::WordSeparator, a.last()),
    ensures
        words(a + b) == words(a) + words(b),
{
    let k = CharClass::WordSeparator;
    let e = Seq::<char>::empty();
    if a.len() == 0 {
        assert(a + b == b);
        assert(split_by(a, k) == Seq::<Seq<char>>::empty().push(e));
        Seq::<Seq<char>>::empty().lemma_filter_push(e, non_empty());
        assert(words(a) =~= Seq::<Seq<char>>::empty());
        assert(words(a) + words(b) == words(b));
    } else {
        lemma_split_by_concat(a, b, k);
        let pa = split_by(a, k);
        crate::text::lemma_split_by_nonempty(a, k);
        assert(pa == pa.drop_last().push(e));
        pa.drop_last().lemma_filter_push(e, non_empty());
        Seq::filter_distributes_over_add(pa.drop_last(), split_by(b, k), non_empty());
    }
}

/// The whole-word law: a non-empty text without any of the eleven word separators is one
/// word, counted once.
pub proof fn law_separator_free_text_is_one_word(s: Seq<char>)
    requires
        s.len() > 0,
        forall|i: int|
            0 <= i < s.len() ==> !(#[trigger] s[i] == ' ' || s[i] == '.' || s[i] == ',' || s[i] == '\n'
                || s[i] == '\t' || s[i] == '?' || s[i] == '!' || s[i] == '\'' || s[i] == '"' || s[i]
                == '_' || s[i] == '-'),
    ensures
        words(s) == seq![s],
        word_totals(s) == seq![(s, 1nat)],
{
    let k = CharClass::WordSeparator;
    assert forall|i: int| 0 <= i < s.len() implies !in_class(k, #[trigger] s[i]) by {
        crate::text::law_separators(s[i]);
    }
    crate::text::lemma_split_by_single(s, k);
    Seq::<Seq<char>>::empty().lemma_filter_push(s, non_empty());
    assert(seq![s] == Seq::<Seq<char>>::empty().push(s));
    assert(Seq::<Seq<char>>::empty().filter(non_empty()) =~= Seq::<Seq<char>>::empty());
    assert(words(s) == seq![s]);
    let es = ones(seq![s]);
    assert(es =~= seq![(s, 1nat)]);
    assert(es.drop_last() =~= Seq::<(Seq<char>, nat)>::empty());
    assert(accumulate(es.drop_last()) == Seq::<(Seq<char>, nat)>::empty());
    assert(key_index(Seq::<(Seq<char>, nat)>::empty(), s) == -1);
    assert(word_totals(s) =~= seq![(s, 1nat)]);
}

/// The additivity law: the words of two texts joined by a space are the words of the first,
/// then those of the second, so each word's count in the joined text is the sum of its counts.
pub proof fn law_word_counts_add(a: Seq<char>, b: Seq<char>, w: Seq<char>)
    ensures
        words(a + seq![' '] + b) == words(a) + words(b),
        occurrences(words(a + seq![' '] + b), w) == occurrences(words(a), w) + occurrences(words(b), w),
{
    let k = CharClass::WordSeparator;
    let x = a + seq![' '];
    assert(x.drop_last() == a);
    assert(in_class(k, x.last()));
    lemma_split_by_concat(x, b, k);
    assert(split_by(x, k) == split_by(a, k).push(Seq::<char>::empty()));
    assert(split_by(x, k).drop_last() == split_by(a, k));
    Seq::filter_distributes_over_add(split_by(a, k), split_by(b, k), non_empty());
    Seq::filter_distributes_over_add(words(a), words(b), is_word(w));
}

/// The word count law: the map output names every word of the input once,
/// with the number of times it occurs, and names nothing else.
pub proof fn law_word_totals(s: Seq<char>)
    ensures
        keys_distinct(word_totals(s)),
        forall|i: int|
            0 <= i < word_totals(s).len() ==> #[trigger] word_totals(s)[i].1 == occurrences(
                words(s),
                word_totals(s)[i].0,
            ),
        forall|w: Seq<char>| has_key(word_totals(s), w) <==> words(s).contains(w),
{
    let es = ones(words(s));
    lemma_accumulate(es);
    assert forall|i: int| 0 <= i < word_totals(s).len() implies #[trigger] word_totals(s)[i].1
        == occurrences(words(s), word_totals(s)[i].0) by {
        lemma_ones_amount(words(s), word_totals(s)[i].0);
    }
    assert forall|w: Seq<char>| has_key(word_totals(s), w) <==> words(s).contains(w) by {
        lemma_ones_amount(words(s), w);
    }
}

/// Counts the words of `ip`, or `None` where some word occurs more than `u32::MAX` times.
pub fn try_count_words(ip: &str) -> (r: Option<Tally>)
    ensures
        match r {
            Some(t) => t.wf() && t@ == word_totals(ip@) && totals_fit_u32(ones(words(ip@))),
            None => !totals_fit_u32(ones(words(ip@))),
        },
{
    let cs = chars_of(ip);
    let rs = token_ranges(&cs, 0, cs.len(), CharClass::WordSeparator);
    assert(cs@.subrange(0, cs@.len() as int) == cs@);
    let ghost es = ones(words(ip@));
    let mut tally = Tally::new();
    let mut j: usize = 0;
    assert(es.take(0) =~= Seq::<(Seq<char>, nat)>::empty());
    while j < rs.len()
        invariant
            cs@ == ip@,
            es == ones(words(ip@)),
            slices(cs@, rs@) == words(ip@),
            ranges_within(rs@, 0, cs@.len() as int),
            j <= rs@.len(),
            tally.wf(),
            tally@ == accumulate(es.take(j as int)),
        decreases rs@.len() - j,
    {
        let r = rs[j];
        assert(r == rs@[j as int]);
        let w = string_of(&cs, r.0, r.1);
        assert(w@ == words(ip@)[j as int]);
        assert(es[j as int] == (w@, 1nat));
        let ghost kw = w@;
        proof {
            let pre = es.take(j as int);
            assert(es.take(j + 1).drop_last() == pre);
            lemma_accumulate(pre);
            assert(amount_for(es.take(j + 1), w@) == amount_for(pre, w@) + 1);
            let ki = key_index(tally@, w@);
            if ki >= 0 {
                assert(tally@[ki].1 == amount_for(pre, w@));
            }
        }
        if !tally.try_add(w, 1) {
            proof {
                lemma_amount_prefix(es, j + 1, kw);
                assert(es[j as int].0 == kw);
            }
            return None;
        }
        j = j + 1;
    }
    assert(es.take(es.len() as int) == es);
    proof {
        lemma_accumulate(es);
        assert forall|i: int| 0 <= i < es.len() implies amount_for(es, #[trigger] es[i].0) <= u32::MAX by {
            let k = es[i].0;
            assert(has_key(es, k));
            assert(has_key(tally@, k));
            let m = choose|m: int| 0 <= m < tally@.len() && #[trigger] tally@[m].0 == k;
            assert(tally@[m].1 == amount_for(es, k));
        }
    }
    Some(tally)
}

/// Counts the words of `ip`.
pub fn count_words(ip: &str) -> (t: Tally)
    requires
        totals_fit_u32(ones(words(ip@))),
    ensures
        t.wf(),
        t@ == word_totals(ip@),
{
    match try_count_words(ip) {
        Some(t) => t,
        None => Tally::new(),
    }
}

/// Writes the word/count pairs as a JSON object.
pub fn counts_to_json(entries: &Vec<(String, u32)>) -> (out: String)
    ensures
        out@ == counts_json(entries@.map_values(|e: (String, u32)| (e.0@, e.1 as nat))),
{
    let ghost t = entries@.map_values(|e: (String, u32)| (e.0@, e.1 as nat));
    let ghost members = t.map_values(|e: (Seq<char>, nat)| count_member(e));
    let mut out = String::new();
    push_char(&mut out, '{');
    let mut j: usize = 0;
    assert(members.take(0) =~= Seq::<Seq<char>>::empty());
    while j < entries.len()
        invariant
            t == entries@.map_values(|e: (String, u32)| (e.0@, e.1 as nat)),
            members == t.map_values(|e: (Seq<char>, nat)| count_member(e)),
            j <= entries@.len(),
            out@ == seq!['{'] + join(members.take(j as int), seq![',']),
        decreases entries@.len() - j,
    {
        let ghost before = out@;
        if j > 0 {
            push_char(&mut out, ',');
        }
        push_quoted(&mut out, entries[j].0.as_str());
        push_char(&mut out, ':');
        push_decimal(&mut out, entries[j].1 as u64);
        proof {
            assert(members[j as int] == count_member(t[j as int]));
            assert(members.take(j + 1) == members.take(j as int).push(members[j as int]));
            lemma_join_push(members.take(j as int), members[j as int], seq![',']);
            if j > 0 {
                assert(out@ == before + seq![','] + members[j as int]);
            } else {
                assert(out@ == before + members[j as int]);
            }
        }
        j = j + 1;
    }
    push_char(&mut out, '}');
    assert(members.take(members.len() as int) == members);
    out
}

/// The map stage of the word count: the JSON object mapping each word of `ip` to its count.
pub fn wordcount(ip: &str) -> (out: String)
    requires
        totals_fit_u32(ones(words(ip@))),
    ensures
        out@ == counts_json(word_totals(ip@)),
{
    let t = count_words(ip);
    counts_to_json(t.entries())
}

/// The number of columns of the result matrix: each entry is sent to this many keys.
pub const MATRIX_SIZE: usize = 50;

/// The whitespace-separated fields of a matrix line `name i j value`.
pub open spec fn fields(l: Seq<char>) -> Seq<Seq<char>> {
    tokens(l, CharClass::AsciiWhitespace)
}

/// Every line has at least the four fields `name i j value`.
pub open spec fn matrix_input_ok(s: Seq<char>) -> bool {
    forall|i: int| 0 <= i < lines(s).len() ==> #[trigger] fields(lines(s)[i]).len() >= 4
}

/// A matrix line as its row `i` and the triple `(name, j, value)`.
pub open spec fn matrix_item(l: Seq<char>) -> (Seq<char>, (Seq<char>, Seq<char>, Seq<char>)) {
    let f = fields(l);
    (f[1], (f[0], f[2], f[3]))
}

/// The triples of the lines of `s` collected per row, rows in order of first appearance.
pub open spec fn matrix_rows(s: Seq<char>) -> Seq<(Seq<char>, Seq<(Seq<char>, Seq<char>, Seq<char>)>)> {
    gather(lines(s).map_values(|l: Seq<char>| matrix_item(l)))
}

/// A triple as the JSON array `["name","j","value"]`.
pub open spec fn triple_json(t: (Seq<char>, Seq<char>, Seq<char>)) -> Seq<char> {
    seq!['['] + json_quote(t.0) + seq![','] + json_quote(t.1) + seq![','] + json_quote(t.2) + seq![']']
}

/// The JSON array of the triples.
pub open spec fn triples_json(ts: Seq<(Seq<char>, Seq<char>, Seq<char>)>) -> Seq<char> {
    seq!['['] + join(ts.map_values(|t: (Seq<char>, Seq<char>, Seq<char>)| triple_json(t)), seq![','])
        + seq![']']
}

/// The array law: the JSON array of triples lists every triple, whatever their number: the
/// empty array is `[]`, one triple `t` gives `[t]`, and one more triple at the end adds a comma
/// and that triple before the closing bracket.
pub proof fn law_triples_json_lists_all(ts: Seq<(Seq<char>, Seq<char>, Seq<char>)>, t: (Seq<char>, Seq<char>, Seq<char>))
    ensures
        triples_json(Seq::empty()) == seq!['[', ']'],
        triples_json(seq![t]) == seq!['['] + triple_json(t) + seq![']'],
        ts.len() > 0 ==> triples_json(ts.push(t)) == triples_json(ts).drop_last() + seq![','] + triple_json(t)
            + seq![']'],
{
    let f = |x: (Seq<char>, Seq<char>, Seq<char>)| triple_json(x);
    let e = Seq::<(Seq<char>, Seq<char>, Seq<char>)>::empty();
    assert(e.map_values(f) =~= Seq::<Seq<char>>::empty());
    assert(triples_json(e) =~= seq!['[', ']']);
    assert(seq![t].map_values(f) =~= seq![triple_json(t)]);
    lemma_join_push(Seq::<Seq<char>>::empty(), triple_json(t), seq![',']);
    assert(Seq::<Seq<char>>::empty().push(triple_json(t)) == seq![triple_json(t)]);
    if ts.len() > 0 {
        let items = ts.map_values(f);
        assert(ts.push(t).map_values(f) =~= items.push(triple_json(t)));
        lemma_join_push(items, triple_json(t), seq![',']);
        let j = join(items, seq![',']);
        assert((seq!['['] + j + seq![']']).drop_last() =~= seq!['['] + j);
        assert(seq!['['] + (j + seq![','] + triple_json(t)) + seq![']'] =~= seq!['['] + j + seq![',']
            + triple_json(t) + seq![']']);
    }
}

/// The key `"i k"` of column `k` of row `i`.
pub open spec fn cell_key(i: Seq<char>, k: nat) -> Seq<char> {
    i + seq![' '] + decimal(k)
}

/// The members `"i k":[...]` of one row, for each column `k`.
pub open spec fn row_members(r: (Seq<char>, Seq<(Seq<char>, Seq<char>, Seq<char>)>)) -> Seq<Seq<char>> {
    Seq::new(
        MATRIX_SIZE as nat,
        |k: int| json_quote(cell_key(r.0, k as nat)) + seq![':'] + triples_json(r.1),
    )
}

/// The JSON object that maps each key `"i k"` to the triples of row `i`.
pub open spec fn matrix_json(rows: Seq<(Seq<char>, Seq<(Seq<char>, Seq<char>, Seq<char>)>)>) -> Seq<char> {
    seq!['{'] + join(
        rows.flat_map(|r: (Seq<char>, Seq<(Seq<char>, Seq<char>, Seq<char>)>)| row_members(r)),
        seq![','],
    ) + seq!['}']
}

pub open spec fn triple_view(t: (String, String, String)) -> (Seq<char>, Seq<char>, Seq<char>) {
    (t.0@, t.1@, t.2@)
}

pub open spec fn rows_view(g: Seq<(String, Vec<(String, String, String)>)>) -> Seq<(Seq<char>, Seq<(Seq<char>, Seq<char>, Seq<char>)>)> {
    g.map_values(
        |r: (String, Vec<(String, String, String)>)|
            (r.0@, r.1@.map_values(|t: (String, String, String)| triple_view(t))),
    )
}

/// Collects the triples of the matrix lines of `ip` per row, or `None` where a line
/// has fewer than four fields.
pub fn try_collect_rows(ip: &str) -> (r: Option<Vec<(String, Vec<(String, String, String)>)>>)
    ensures
        match r {
            Some(g) => matrix_input_ok(ip@) && rows_view(g@) == matrix_rows(ip@),
            None => !matrix_input_ok(ip@),
        },
{
    let cs = chars_of(ip);
    let lrs = line_ranges(&cs, 0, cs.len());
    assert(cs@.subrange(0, cs@.len() as int) == cs@);
    let ghost items = lines(ip@).map_values(|l: Seq<char>| matrix_item(l));
    let mut g: Vec<(String, Vec<(String, String, String)>)> = Vec::new();
    let mut j: usize = 0;
    assert(items.take(0) =~= Seq::<(Seq<char>, (Seq<char>, Seq<char>, Seq<char>))>::empty());
    assert(rows_view(g@) =~= Seq::<(Seq<char>, Seq<(Seq<char>, Seq<char>, Seq<char>)>)>::empty());
    while j < lrs.len()
        invariant
            cs@ == ip@,
            forall|i: int| 0 <= i < j ==> #[trigger] fields(lines(ip@)[i]).len() >= 4,
            items == lines(ip@).map_values(|l: Seq<char>| matrix_item(l)),
            slices(cs@, lrs@) == lines(ip@),
            ranges_within(lrs@, 0, cs@.len() as int),
            j <= lrs@.len(),
            rows_view(g@) == gather(items.take(j as int)),
        decreases lrs@.len() - j,
    {
        let r = lrs[j];
        assert(r == lrs@[j as int]);
        let ghost l = lines(ip@)[j as int];
        assert(cs@.subrange(r.0 as int, r.1 as int) == l);
        let ts = token_ranges(&cs, r.0, r.1, CharClass::AsciiWhitespace);
        assert(slices(cs@, ts@) == fields(l));
        if ts.len() < 4 {
            assert(fields(lines(ip@)[j as int]).len() < 4);
            return None;
        }
        assert(ts@[0] == ts@[0 as int]);
        let name = string_of(&cs, ts[0].0, ts[0].1);
        let row = string_of(&cs, ts[1].0, ts[1].1);
        let col = string_of(&cs, ts[2].0, ts[2].1);
        let val = string_of(&cs, ts[3].0, ts[3].1);
        let ghost triple = (name@, col@, val@);
        assert(items[j as int] == (row@, triple));
        let ghost before = rows_view(g@);
        proof {
            lemma_gather(items.take(j as int));
            assert(items.take(j + 1).drop_last() == items.take(j as int));
            assert(items.take(j + 1).last() == (row@, triple));
        }
        let mut m: usize = 0;
        while m < g.len() && g[m].0 != row
            invariant
                before == rows_view(g@),
                keys_distinct(before),
                m <= g@.len(),
                forall|x: int| 0 <= x < m ==> before[x].0 != row@,
            decreases g@.len() - m,
        {
            m = m + 1;
        }
        if m < g.len() {
            assert(before[m as int].0 == row@);
            assert(key_index(before, row@) == m as int);
            let ghost prev = g@;
            let (rk, mut ts_of_row) = g.remove(m);
            let ghost old_row = ts_of_row@;
            ts_of_row.push((name, col, val));
            assert(ts_of_row@.map_values(|t: (String, String, String)| triple_view(t)) =~= old_row.map_values(
                |t: (String, String, String)| triple_view(t),
            ).push(triple));
            g.insert(m, (rk, ts_of_row));
            assert(g@ =~= prev.update(m as int, (rk, ts_of_row)));
            assert(rows_view(g@) =~= gather_add(before, row@, triple));
        } else {
            assert(key_index(before, row@) < 0) by {
                if exists|i: int| 0 <= i < before.len() && #[trigger] before[i].0 == row@ {
                    let i = choose|i: int| 0 <= i < before.len() && #[trigger] before[i].0 == row@;
                    assert(before[i].0 != row@);
                }
            }
            let mut ts_of_row: Vec<(String, String, String)> = Vec::new();
            ts_of_row.push((name, col, val));
            assert(ts_of_row@.map_values(|t: (String, String, String)| triple_view(t)) =~= seq![triple]);
            g.push((row, ts_of_row));
            assert(rows_view(g@) =~= gather_add(before, row@, triple));
        }
        j = j + 1;
    }
    assert(items.take(items.len() as int) == items);
    Some(g)
}

/// The JSON array of the triples.
pub fn triples_to_json(ts: &Vec<(String, String, String)>) -> (out: String)
    ensures
        out@ == triples_json(ts@.map_values(|t: (String, String, String)| triple_view(t))),
{
    let ghost tv = ts@.map_values(|t: (String, String, String)| triple_view(t));
    let ghost items = tv.map_values(|t: (Seq<char>, Seq<char>, Seq<char>)| triple_json(t));
    let mut out = String::new();
    push_char(&mut out, '[');
    let mut j: usize = 0;
    assert(items.take(0) =~= Seq::<Seq<char>>::empty());
    while j < ts.len()
        invariant
            tv == ts@.map_values(|t: (String, String, String)| triple_view(t)),
            items == tv.map_values(|t: (Seq<char>, Seq<char>, Seq<char>)| triple_json(t)),
            j <= ts@.len(),
            out@ == seq!['['] + join(items.take(j as int), seq![',']),
        decreases ts@.len() - j,
    {
        let ghost before = out@;
        if j > 0 {
            push_char(&mut out, ',');
        }
        let ghost mid = out@;
        push_char(&mut out, '[');
        push_quoted(&mut out, ts[j].0.as_str());
        push_char(&mut out, ',');
        push_quoted(&mut out, ts[j].1.as_str());
        push_char(&mut out, ',');
        push_quoted(&mut out, ts[j].2.as_str());
        push_char(&mut out, ']');
        proof {
            assert(out@ == mid + triple_json(tv[j as int]));
            assert(items.take(j + 1) == items.take(j as int).push(items[j as int]));
            lemma_join_push(items.take(j as int), items[j as int], seq![',']);
        }
        j = j + 1;
    }
    push_char(&mut out, ']');
    assert(items.take(items.len() as int) == items);
    out
}

/// Writes the rows as the JSON object that maps each key `"i k"` to the triples of row `i`.
pub fn rows_to_json(g: &Vec<(String, Vec<(String, String, String)>)>) -> (out: String)
    ensures
        out@ == matrix_json(rows_view(g@)),
{
    let ghost rows = rows_view(g@);
    let ghost rm = |r: (Seq<char>, Seq<(Seq<char>, Seq<char>, Seq<char>)>)| row_members(r);
    let mut out = String::new();
    push_char(&mut out, '{');
    let mut started = false;
    let mut a: usize = 0;
    assert(rows.take(0).flat_map(rm) =~= Seq::<Seq<char>>::empty());
    while a < g.len()
        invariant
            rows == rows_view(g@),
            rm == (|r: (Seq<char>, Seq<(Seq<char>, Seq<char>, Seq<char>)>)| row_members(r)),
            a <= g@.len(),
            started == (rows.take(a as int).flat_map(rm).len() > 0),
            out@ == seq!['{'] + join(rows.take(a as int).flat_map(rm), seq![',']),
        decreases g@.len() - a,
    {
        let arr = triples_to_json(&g[a].1);
        let ghost r = rows[a as int];
        let ghost done = rows.take(a as int).flat_map(rm);
        assert(arr@ == triples_json(r.1));
        let mut k: usize = 0;
        assert(done + row_members(r).take(0) == done);
        while k < MATRIX_SIZE
            invariant
                rows == rows_view(g@),
                a < g@.len(),
                r == rows[a as int],
                arr@ == triples_json(r.1),
                k <= MATRIX_SIZE,
                started == (done.len() + k > 0),
                out@ == seq!['{'] + join(done + row_members(r).take(k as int), seq![',']),
            decreases MATRIX_SIZE - k,
        {
            assert(r.0 == g@[a as int].0@);
            let mut key = String::new();
            push_str(&mut key, g[a].0.as_str());
            push_char(&mut key, ' ');
            push_decimal(&mut key, k as u64);
            assert(key@ == cell_key(r.0, k as nat));
            let ghost prefix = done + row_members(r).take(k as int);
            let ghost member = row_members(r)[k as int];
            if started {
                push_char(&mut out, ',');
            }
            push_quoted(&mut out, key.as_str());
            push_char(&mut out, ':');
            push_str(&mut out, arr.as_str());
            proof {
                assert(member == json_quote(key@) + seq![':'] + arr@);
                lemma_join_push(prefix, member, seq![',']);
                assert(done + row_members(r).take(k + 1) == prefix.push(member));
            }
            started = true;
            k = k + 1;
        }
        proof {
            assert(row_members(r).take(MATRIX_SIZE as int) == row_members(r));
            rows.take(a as int).lemma_flat_map_push(rm, r);
            assert(rows.take(a + 1) == rows.take(a as int).push(r));
        }
        a = a + 1;
    }
    push_char(&mut out, '}');
    assert(rows.take(rows.len() as int) == rows);
    out
}

/// The map stage of the matrix product: the JSON object that sends each entry
/// `name i j value` of the input to the keys `"i k"` of every column `k`.
pub fn matrix(ip: &str) -> (out: String)
    requires
        matrix_input_ok(ip@),
    ensures
        out@ == matrix_json(matrix_rows(ip@)),
{
    match try_collect_rows(ip) {
        Some(g) => rows_to_json(&g),
        None => String::new(),
    }
}

/// The jobs that the map and reduce stages know.
#[derive(Clone, Copy, PartialEq, Eq, Debug, Structural)]
pub enum JobKind {
    WordCount,
    Matrix,
}

/// The job that a job name stands for: `wordcount` or `matrix`.
pub open spec fn job_kind(name: Seq<char>) -> Option<JobKind> {
    if name == "wordcount"@ {
        Some(JobKind::WordCount)
    } else if name == "matrix"@ {
        Some(JobKind::Matrix)
    } else {
        None
    }
}

pub fn job_kind_of(name: &str) -> (k: Option<JobKind>)
    ensures
        k == job_kind(name@),
{
    let mut n = String::new();
    push_str(&mut n, name);
    let mut w = String::new();
    push_str(&mut w, "wordcount");
    let mut m = String::new();
    push_str(&mut m, "matrix");
    if n == w {
        Some(JobKind::WordCount)
    } else if n == m {
        Some(JobKind::Matrix)
    } else {
        None
    }
}

/// What the map stage writes for job `kind` on the split text `ip`, or `None` where it
/// cannot map that text.
pub open spec fn map_output(kind: JobKind, ip: Seq<char>) -> Option<Seq<char>> {
    match kind {
        JobKind::WordCount => if totals_fit_u32(ones(words(ip))) {
            Some(counts_json(word_totals(ip)))
        } else {
            None
        },
        JobKind::Matrix => if matrix_input_ok(ip) {
            Some(matrix_json(matrix_rows(ip)))
        } else {
            None
        },
    }
}

/// The map stage for the job named `job_name` on the split text `ip`; `None` where the job
/// is unknown or the text cannot be mapped.
pub fn try_map(job_name: &str, ip: &str) -> (r: Option<String>)
    ensures
        match job_kind(job_name@) {
            Some(k) => match r {
                Some(s) => map_output(k, ip@) == Some(s@),
                None => map_output(k, ip@) is None,
            },
            None => r is None,
        },
{
    match job_kind_of(job_name) {
        None => None,
        Some(JobKind::WordCount) => match try_count_words(ip) {
            Some(t) => Some(counts_to_json(t.entries())),
            None => None,
        },
        Some(JobKind::Matrix) => match try_collect_rows(ip) {
            Some(g) => Some(rows_to_json(&g)),
            None => None,
        },
    }
}

/// The map stage for the job named `job_name` on the split text `ip`.
pub fn map(job_name: &str, ip: &str) -> (out: String)
    requires
        job_kind(job_name@) is Some,
        map_output(job_kind(job_name@).unwrap(), ip@) is Some,
    ensures
        map_output(job_kind(job_name@).unwrap(), ip@) == Some(out@),
{
    match try_map(job_name, ip) {
        Some(s) => s,
        None => String::new(),
    }
}

} // verus!
