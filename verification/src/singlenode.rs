//! The single-node word count: all words of the input counted in one process.
use vstd::prelude::*;
use crate::counts::totals_fit_u32;
use crate::number::{decimal, push_decimal};
use crate::text::push_str;
use crate::worker::map::{
    law_word_totals, map_output, occurrences, ones, try_count_words, word_totals, words, JobKind,
};
use crate::counts::{has_key, keys_distinct};
use crate::counts::amount_for;

verus! {

/// Every word's count fits in an `i32`, the counter type of the single-node count.
pub open spec fn totals_fit_i32(es: Seq<(Seq<char>, nat)>) -> bool {
    forall|i: int| 0 <= i < es.len() ==> amount_for(es, #[trigger] es[i].0) <= i32::MAX
}

/// One line of the report: the word, a space, its count and a line feed.
pub open spec fn report_line(e: (Seq<char>, nat)) -> Seq<char> {
    e.0 + " "@ + decimal(e.1) + "\n"@
}

/// The report of the single-node word count: a line per word, then an empty line.
pub open spec fn report(t: Seq<(Seq<char>, nat)>) -> Seq<char> {
    t.flat_map(|e: (Seq<char>, nat)| report_line(e)) + "\n"@
}

/// The agreement law: the single-node report and the map output of the word count are
/// written from the same totals, each word of the text once with its number of occurrences.
pub proof fn law_report_and_map_agree(s: Seq<char>)
    requires
        totals_fit_i32(ones(words(s))),
    ensures
        map_output(JobKind::WordCount, s) == Some(crate::worker::map::counts_json(word_totals(s))),
        keys_distinct(word_totals(s)),
        forall|i: int|
            0 <= i < word_totals(s).len() ==> #[trigger] word_totals(s)[i].1 == occurrences(
                words(s),
                word_totals(s)[i].0,
            ),
        forall|w: Seq<char>| has_key(word_totals(s), w) <==> words(s).contains(w),
{
    law_word_totals(s);
    let es = ones(words(s));
    assert forall|i: int| 0 <= i < es.len() implies amount_for(es, #[trigger] es[i].0) <= u32::MAX by {
        assert(amount_for(es, es[i].0) <= i32::MAX);
    }
}

/// The text that the single-node word count writes for the input `ip`.
pub fn wordcount_report(ip: &str) -> (out: String)
    requires
        totals_fit_i32(ones(words(ip@))),
    ensures
        out@ == report(word_totals(ip@)),
{
    assert(totals_fit_u32(ones(words(ip@)))) by {
        let es = ones(words(ip@));
        assert forall|i: int| 0 <= i < es.len() implies amount_for(es, #[trigger] es[i].0) <= u32::MAX by {
            assert(amount_for(es, es[i].0) <= i32::MAX);
        }
    }
    let tally = match try_count_words(ip) {
        Some(t) => t,
        None => {
            return String::new();
        },
    };
    let entries = tally.entries();
    let ghost t = word_totals(ip@);
    let ghost f = |e: (Seq<char>, nat)| report_line(e);
    let mut out = String::new();
    let mut j: usize = 0;
    assert(t.take(0).flat_map(f) =~= Seq::<char>::empty());
    while j < entries.len()
        invariant
            t == word_totals(ip@),
            entries@.map_values(|e: (String, u32)| (e.0@, e.1 as nat)) == t,
            f == (|e: (Seq<char>, nat)| report_line(e)),
            j <= entries@.len(),
            out@ == t.take(j as int).flat_map(f),
        decreases entries@.len() - j,
    {
        let ghost before = out@;
        push_str(&mut out, entries[j].0.as_str());
        push_str(&mut out, " ");
        push_decimal(&mut out, entries[j].1 as u64);
        push_str(&mut out, "\n");
        proof {
            assert(t[j as int] == (entries@[j as int].0@, entries@[j as int].1 as nat));
            t.take(j as int).lemma_flat_map_push(f, t[j as int]);
            assert(t.take(j + 1) == t.take(j as int).push(t[j as int]));
            assert(out@ == before + report_line(t[j as int]));
        }
        j = j + 1;
    }
    push_str(&mut out, "\n");
    assert(t.take(t.len() as int) == t);
    out
}

} // verus!
