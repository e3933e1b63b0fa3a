//! Character-level text processing shared by the map, shuffle and reduce stages:
//! splitting, line breaking, trimming, decimal numbers.
use vstd::prelude::*;
use vstd::string::StringExecFns;

verus! {

broadcast use vstd::string::group_string_axioms;

// ---------------------------------------------------------------------------
// Specification vocabulary
// ---------------------------------------------------------------------------

/// The classes of separator characters that the stages split text on.
#[derive(Clone, Copy, PartialEq, Eq, Debug)]
pub enum CharClass {
    /// The separators of the word count: space, `.`, `,`, newline, tab, `?`, `!`, `'`, `"`, `_`, `-`.
    WordSeparator,
    /// ASCII whitespace: space, tab, newline, form feed, carriage return.
    AsciiWhitespace,
    /// The line feed character alone.
    LineFeed,
}

pub open spec fn in_class(k: CharClass, c: char) -> bool {
    match k {
        CharClass::WordSeparator => c == ' ' || c == '.' || c == ',' || c == '\n' || c == '\t'
            || c == '?' || c == '!' || c == '\'' || c == '"' || c == '_' || c == '-',
        CharClass::AsciiWhitespace => c == ' ' || c == '\t' || c == '\n' || c == '\x0C' || c
            == '\r',
        CharClass::LineFeed => c == '\n',
    }
}

/// The pieces of `s` between separators of class `k`, empty pieces included
/// (`str::split` with a character pattern): one more piece than there are separators.
pub open spec fn split_by(s: Seq<char>, k: CharClass) -> Seq<Seq<char>>
    decreases s.len(),
{
    if s.len() == 0 {
        seq![Seq::<char>::empty()]
    } else {
        let prev = split_by(s.drop_last(), k);
        if in_class(k, s.last()) {
            prev.push(Seq::<char>::empty())
        } else {
            prev.update(prev.len() - 1, prev.last().push(s.last()))
        }
    }
}

/// The test that keeps a piece: it holds at least one character.
pub open spec fn non_empty() -> spec_fn(Seq<char>) -> bool {
    |p: Seq<char>| p.len() > 0
}

/// The non-empty pieces of `s` between separators of class `k`.
pub open spec fn tokens(s: Seq<char>, k: CharClass) -> Seq<Seq<char>> {
    split_by(s, k).filter(non_empty())
}

/// The sub-sequences of `s` that the index ranges `rs` delimit.
pub open spec fn slices(s: Seq<char>, rs: Seq<(usize, usize)>) -> Seq<Seq<char>> {
    rs.map_values(|r: (usize, usize)| s.subrange(r.0 as int, r.1 as int))
}

pub open spec fn ranges_within(rs: Seq<(usize, usize)>, lo: int, hi: int) -> bool {
    forall|i: int| 0 <= i < rs.len() ==> lo <= #[trigger] rs[i].0 <= rs[i].1 <= hi
}

pub proof fn lemma_split_by_nonempty(s: Seq<char>, k: CharClass)
    ensures
        split_by(s, k).len() >= 1,
    decreases s.len(),
{
    if s.len() > 0 {
        lemma_split_by_nonempty(s.drop_last(), k);
    }
}

// ---------------------------------------------------------------------------
// Strings
// ---------------------------------------------------------------------------

/// Appends one character to a string (`String::push`).
/// Trusted: the contract claims that the new contents are the old contents with `c` at the end.
#[verifier::external_body]
pub(crate) fn push_char(s: &mut String, c: char)
    ensures
        final(s)@ == old(s)@.push(c),
{
    s.push(c);
}

/// The characters of `s`, in order.
pub fn chars_of(s: &str) -> (out: Vec<char>)
    ensures
        out@ == s@,
{
    let mut out: Vec<char> = Vec::new();
    for c in it: s.chars()
        invariant
            it.seq() == s@,
            out@ == it.seq().take(it.index() as int),
    {
        out.push(c);
    }
    out
}

/// Appends the characters `cs[lo..hi]` to `s`.
pub fn push_range(s: &mut String, cs: &Vec<char>, lo: usize, hi: usize)
    requires
        lo <= hi <= cs@.len(),
    ensures
        final(s)@ == old(s)@ + cs@.subrange(lo as int, hi as int),
{
    let mut i = lo;
    while i < hi
        invariant
            lo <= i <= hi <= cs@.len(),
            s@ == old(s)@ + cs@.subrange(lo as int, i as int),
        decreases hi - i,
    {
        push_char(s, cs[i]);
        assert(cs@.subrange(lo as int, i + 1) == cs@.subrange(lo as int, i as int).push(cs@[i as int]));
        i = i + 1;
    }
}

/// A new string holding `cs[lo..hi]`.
pub fn string_of(cs: &Vec<char>, lo: usize, hi: usize) -> (s: String)
    requires
        lo <= hi <= cs@.len(),
    ensures
        s@ == cs@.subrange(lo as int, hi as int),
{
    let mut s = String::new();
    push_range(&mut s, cs, lo, hi);
    s
}

/// Appends all of `t` to `s`.
pub fn push_str(s: &mut String, t: &str)
    ensures
        final(s)@ == old(s)@ + t@,
{
    s.append(t);
}

pub fn in_class_exec(k: CharClass, c: char) -> (b: bool)
    ensures
        b == in_class(k, c),
{
    match k {
        CharClass::WordSeparator => c == ' ' || c == '.' || c == ',' || c == '\n' || c == '\t'
            || c == '?' || c == '!' || c == '\'' || c == '"' || c == '_' || c == '-',
        CharClass::AsciiWhitespace => c == ' ' || c == '\t' || c == '\n' || c == '\x0C' || c
            == '\r',
        CharClass::LineFeed => c == '\n',
    }
}

// ---------------------------------------------------------------------------
// Splitting
// ---------------------------------------------------------------------------

/// The index ranges of all pieces of `cs[lo..hi]` between separators of class `k`,
/// empty ones included.
pub fn piece_ranges(cs: &Vec<char>, lo: usize, hi: usize, k: CharClass) -> (rs: Vec<(usize, usize)>)
    requires
        lo <= hi <= cs@.len(),
    ensures
        slices(cs@, rs@) == split_by(cs@.subrange(lo as int, hi as int), k),
        ranges_within(rs@, lo as int, hi as int),
{
    let mut rs: Vec<(usize, usize)> = Vec::new();
    let mut start = lo;
    let mut i = lo;
    let ghost s = cs@;
    assert(slices(s, rs@) =~= Seq::<Seq<char>>::empty());
    assert(s.subrange(lo as int, lo as int) =~= Seq::<char>::empty());
    while i < hi
        invariant
            lo <= start <= i <= hi <= s.len(),
            s == cs@,
            ranges_within(rs@, lo as int, i as int),
            slices(s, rs@).push(s.subrange(start as int, i as int)) == split_by(
                s.subrange(lo as int, i as int),
                k,
            ),
        decreases hi - i,
    {
        let ghost pre = s.subrange(lo as int, i as int);
        let ghost next = s.subrange(lo as int, i + 1);
        assert(next.drop_last() == pre);
        assert(next.last() == s[i as int]);
        proof {
            lemma_split_by_nonempty(pre, k);
        }
        if in_class_exec(k, cs[i]) {
            rs.push((start, i));
            assert(slices(s, rs@) == slices(s, rs@.drop_last()).push(s.subrange(start as int, i as int)));
            start = i + 1;
            assert(s.subrange(start as int, i + 1) == Seq::<char>::empty());
        } else {
            assert(s.subrange(start as int, i + 1) == s.subrange(start as int, i as int).push(s[i as int]));
        }
        i = i + 1;
    }
    rs.push((start, hi));
    assert(slices(s, rs@) == slices(s, rs@.drop_last()).push(s.subrange(start as int, hi as int)));
    rs
}

/// The index ranges of the non-empty pieces of `cs[lo..hi]` between separators of class `k`.
pub fn token_ranges(cs: &Vec<char>, lo: usize, hi: usize, k: CharClass) -> (rs: Vec<(usize, usize)>)
    requires
        lo <= hi <= cs@.len(),
    ensures
        slices(cs@, rs@) == tokens(cs@.subrange(lo as int, hi as int), k),
        ranges_within(rs@, lo as int, hi as int),
{
    let all = piece_ranges(cs, lo, hi, k);
    let ghost s = cs@;
    let ghost p = non_empty();
    let mut rs: Vec<(usize, usize)> = Vec::new();
    let mut j: usize = 0;
    while j < all.len()
        invariant
            0 <= j <= all@.len(),
            lo <= hi <= s.len(),
            p == non_empty(),
            s == cs@,
            ranges_within(all@, lo as int, hi as int),
            ranges_within(rs@, lo as int, hi as int),
            slices(s, rs@) == slices(s, all@.take(j as int)).filter(p),
        decreases all@.len() - j,
    {
        let r = all[j];
        assert(ranges_within(all@, lo as int, hi as int));
        assert(r == all@[j as int]);
        assert(lo <= r.0 <= r.1 <= hi);
        proof {
            assert(s.subrange(r.0 as int, r.1 as int).len() == r.1 - r.0);
            assert(p(s.subrange(r.0 as int, r.1 as int)) == (r.0 < r.1));
            let prev = slices(s, all@.take(j as int));
            assert(slices(s, all@.take(j + 1)) == prev.push(s.subrange(r.0 as int, r.1 as int)));
            prev.lemma_filter_push(s.subrange(r.0 as int, r.1 as int), p);
        }
        if r.0 < r.1 {
            rs.push(r);
            assert(slices(s, rs@) == slices(s, rs@.drop_last()).push(s.subrange(r.0 as int, r.1 as int)));
        }
        j = j + 1;
    }
    assert(all@.take(all@.len() as int) == all@);
    rs
}


// ---------------------------------------------------------------------------
// Lines
// ---------------------------------------------------------------------------

/// A line without the carriage return that ended it, if any.
pub open spec fn strip_cr(p: Seq<char>) -> Seq<char> {
    if p.len() > 0 && p.last() == '\r' {
        p.drop_last()
    } else {
        p
    }
}

/// The lines of `s` (`str::lines`): split at each line feed, each line that a line feed
/// ended loses one trailing carriage return, and a final empty piece is no line.
pub open spec fn lines(s: Seq<char>) -> Seq<Seq<char>> {
    let ps = split_by(s, CharClass::LineFeed);
    ps.take(ps.len() - 1).map_values(|p: Seq<char>| strip_cr(p)) + if ps.last().len() > 0 {
        seq![ps.last()]
    } else {
        Seq::<Seq<char>>::empty()
    }
}

/// The index ranges of the lines of `cs[lo..hi]`.
pub fn line_ranges(cs: &Vec<char>, lo: usize, hi: usize) -> (rs: Vec<(usize, usize)>)
    requires
        lo <= hi <= cs@.len(),
    ensures
        slices(cs@, rs@) == lines(cs@.subrange(lo as int, hi as int)),
        ranges_within(rs@, lo as int, hi as int),
{
    let pieces = piece_ranges(cs, lo, hi, CharClass::LineFeed);
    let ghost s = cs@;
    let ghost ps = split_by(s.subrange(lo as int, hi as int), CharClass::LineFeed);
    proof {
        lemma_split_by_nonempty(s.subrange(lo as int, hi as int), CharClass::LineFeed);
    }
    let n = pieces.len();
    let mut rs: Vec<(usize, usize)> = Vec::new();
    let mut j: usize = 0;
    assert(slices(s, rs@) =~= ps.take(0).map_values(|p: Seq<char>| strip_cr(p)));
    while j + 1 < n
        invariant
            n == pieces@.len() >= 1,
            j + 1 <= n,
            lo <= hi <= s.len(),
            s == cs@,
            slices(s, pieces@) == ps,
            ranges_within(pieces@, lo as int, hi as int),
            ranges_within(rs@, lo as int, hi as int),
            slices(s, rs@) == ps.take(j as int).map_values(|p: Seq<char>| strip_cr(p)),
        decreases n - j,
    {
        let r = pieces[j];
        assert(r == pieces@[j as int]);
        assert(lo <= r.0 <= r.1 <= hi);
        let ghost piece = s.subrange(r.0 as int, r.1 as int);
        assert(ps[j as int] == piece);
        let nr = if r.0 < r.1 && cs[r.1 - 1] == '\r' {
            assert(piece.drop_last() == s.subrange(r.0 as int, r.1 - 1));
            (r.0, r.1 - 1)
        } else {
            r
        };
        rs.push(nr);
        assert(slices(s, rs@) == slices(s, rs@.drop_last()).push(s.subrange(nr.0 as int, nr.1 as int)));
        assert(ps.take(j + 1).map_values(|p: Seq<char>| strip_cr(p)) == ps.take(j as int).map_values(
            |p: Seq<char>| strip_cr(p),
        ).push(strip_cr(piece)));
        j = j + 1;
    }
    let last = pieces[n - 1];
    assert(last == pieces@[n - 1]);
    assert(lo <= last.0 <= last.1 <= hi);
    assert(ps.last() == s.subrange(last.0 as int, last.1 as int));
    if last.0 < last.1 {
        rs.push(last);
        assert(slices(s, rs@) == slices(s, rs@.drop_last()).push(s.subrange(last.0 as int, last.1 as int)));
    }
    rs
}

/// Text that ends with a separator splits as its pieces before that separator,
/// followed by the pieces of what comes after.
pub proof fn lemma_split_by_concat(x: Seq<char>, y: Seq<char>, k: CharClass)
    requires
        x.len() > 0,
        in_class(k, x.last()),
    ensures
        split_by(x + y, k) == split_by(x, k).drop_last() + split_by(y, k),
        split_by(x, k).last() == Seq::<char>::empty(),
    decreases y.len(),
{
    lemma_split_by_nonempty(x.drop_last(), k);
    assert(split_by(x, k) == split_by(x.drop_last(), k).push(Seq::<char>::empty()));
    let p = split_by(x, k).drop_last();
    if y.len() == 0 {
        assert(x + y == x);
        assert(split_by(x, k) =~= p + split_by(y, k));
    } else {
        let y1 = y.drop_last();
        let c = y.last();
        lemma_split_by_concat(x, y1, k);
        lemma_split_by_nonempty(y1, k);
        assert((x + y).drop_last() == x + y1);
        assert((x + y).last() == c);
        let q1 = split_by(y1, k);
        let prev = split_by(x + y1, k);
        assert(prev == p + q1);
        if in_class(k, c) {
            assert(split_by(x + y, k) == prev.push(Seq::<char>::empty()));
            assert(split_by(y, k) == q1.push(Seq::<char>::empty()));
            assert(split_by(x + y, k) =~= p + split_by(y, k));
        } else {
            assert(split_by(x + y, k) == prev.update(prev.len() - 1, prev.last().push(c)));
            assert(split_by(y, k) == q1.update(q1.len() - 1, q1.last().push(c)));
            assert(prev.last() == q1.last());
            assert(split_by(x + y, k) =~= p + split_by(y, k));
        }
    }
}

/// Text without separators is a single piece.
pub proof fn lemma_split_by_single(r: Seq<char>, k: CharClass)
    requires
        forall|i: int| 0 <= i < r.len() ==> !in_class(k, #[trigger] r[i]),
    ensures
        split_by(r, k) == seq![r],
    decreases r.len(),
{
    if r.len() > 0 {
        lemma_split_by_single(r.drop_last(), k);
        assert(!in_class(k, r[r.len() - 1]));
        assert(r.drop_last().push(r.last()) =~= r);
        assert(seq![r.drop_last()].update(0, r.drop_last().push(r.last())) =~= seq![r]);
    } else {
        assert(r =~= Seq::<char>::empty());
    }
}

/// The lines of text that ends with a line feed, followed by more text, are the lines of
/// the first text followed by the lines of the second.
pub proof fn lemma_lines_concat(x: Seq<char>, y: Seq<char>)
    requires
        x.len() > 0,
        x.last() == '\n',
    ensures
        lines(x + y) == lines(x) + lines(y),
{
    let k = CharClass::LineFeed;
    lemma_split_by_concat(x, y, k);
    lemma_split_by_nonempty(y, k);
    lemma_split_by_nonempty(x, k);
    let px = split_by(x, k);
    let p = px.drop_last();
    let q = split_by(y, k);
    let ps = split_by(x + y, k);
    assert(ps == p + q);
    let f = |l: Seq<char>| strip_cr(l);
    assert(lines(x) =~= p.map_values(f));
    assert(ps.take(ps.len() - 1) =~= p + q.take(q.len() - 1));
    assert((p + q.take(q.len() - 1)).map_values(f) =~= p.map_values(f) + q.take(q.len() - 1).map_values(f));
    assert(ps.last() == q.last());
    assert(lines(x + y) =~= lines(x) + lines(y));
}

/// A line feed alone is one empty line.
pub proof fn lemma_lines_newline()
    ensures
        lines(seq!['\n']) == seq![Seq::<char>::empty()],
{
    let s = seq!['\n'];
    assert(s.drop_last() =~= Seq::<char>::empty());
    assert(s.last() == '\n');
    assert(split_by(s.drop_last(), CharClass::LineFeed) == seq![Seq::<char>::empty()]);
    assert(split_by(s, CharClass::LineFeed) =~= seq![Seq::<char>::empty(), Seq::<char>::empty()]);
    assert(lines(s) =~= seq![Seq::<char>::empty()]);
}

/// Text without line feeds, then a line feed, is one line.
pub proof fn lemma_lines_record(r: Seq<char>)
    requires
        forall|i: int| 0 <= i < r.len() ==> #[trigger] r[i] != '\n',
    ensures
        lines(r.push('\n')) == seq![strip_cr(r)],
{
    let k = CharClass::LineFeed;
    lemma_split_by_single(r, k);
    let s = r.push('\n');
    assert(s.drop_last() == r);
    assert(split_by(s, k) == seq![r, Seq::<char>::empty()]);
    assert(lines(s) =~= seq![strip_cr(r)]);
}

// ---------------------------------------------------------------------------
// Trimming and searching
// ---------------------------------------------------------------------------

/// `char::is_whitespace`: the characters of Unicode's White_Space property.
pub open spec fn is_whitespace(c: char) -> bool {
    let u = c as u32;
    (0x09 <= u && u <= 0x0D) || u == 0x20 || u == 0x85 || u == 0xA0 || u == 0x1680 || (0x2000 <= u
        && u <= 0x200A) || u == 0x2028 || u == 0x2029 || u == 0x202F || u == 0x205F || u == 0x3000
}

pub fn is_whitespace_exec(c: char) -> (b: bool)
    ensures
        b == is_whitespace(c),
{
    let u = c as u32;
    (0x09 <= u && u <= 0x0D) || u == 0x20 || u == 0x85 || u == 0xA0 || u == 0x1680 || (0x2000 <= u
        && u <= 0x200A) || u == 0x2028 || u == 0x2029 || u == 0x202F || u == 0x205F || u == 0x3000
}

/// `s` without its leading whitespace.
pub open spec fn trim_start(s: Seq<char>) -> Seq<char>
    decreases s.len(),
{
    if s.len() > 0 && is_whitespace(s[0]) {
        trim_start(s.drop_first())
    } else {
        s
    }
}

/// `s` without its trailing whitespace.
pub open spec fn trim_end(s: Seq<char>) -> Seq<char>
    decreases s.len(),
{
    if s.len() > 0 && is_whitespace(s.last()) {
        trim_end(s.drop_last())
    } else {
        s
    }
}

/// `str::trim`: `s` without leading and trailing whitespace.
pub open spec fn trim(s: Seq<char>) -> Seq<char> {
    trim_end(trim_start(s))
}

/// The index range of `cs[lo..hi]` with its leading and trailing whitespace removed.
pub fn trim_range(cs: &Vec<char>, lo: usize, hi: usize) -> (r: (usize, usize))
    requires
        lo <= hi <= cs@.len(),
    ensures
        lo <= r.0 <= r.1 <= hi,
        cs@.subrange(r.0 as int, r.1 as int) == trim(cs@.subrange(lo as int, hi as int)),
{
    let ghost s = cs@;
    let mut a = lo;
    while a < hi && is_whitespace_exec(cs[a])
        invariant
            lo <= a <= hi <= s.len(),
            s == cs@,
            trim_start(s.subrange(lo as int, hi as int)) == trim_start(s.subrange(a as int, hi as int)),
        decreases hi - a,
    {
        assert(s.subrange(a as int, hi as int).drop_first() == s.subrange(a + 1, hi as int));
        a = a + 1;
    }
    assert(trim_start(s.subrange(a as int, hi as int)) == s.subrange(a as int, hi as int));
    let mut b = hi;
    while b > a && is_whitespace_exec(cs[b - 1])
        invariant
            lo <= a <= b <= hi <= s.len(),
            s == cs@,
            trim_end(s.subrange(a as int, hi as int)) == trim_end(s.subrange(a as int, b as int)),
        decreases b - a,
    {
        assert(s.subrange(a as int, b as int).drop_last() == s.subrange(a as int, b - 1));
        b = b - 1;
    }
    assert(trim_end(s.subrange(a as int, b as int)) == s.subrange(a as int, b as int));
    (a, b)
}

/// The index of the first occurrence of `c` in `s`.
pub open spec fn index_of_char(s: Seq<char>, c: char) -> Option<nat>
    decreases s.len(),
{
    if s.len() == 0 {
        None
    } else if s[0] == c {
        Some(0)
    } else {
        match index_of_char(s.drop_first(), c) {
            Some(i) => Some(i + 1),
            None => None,
        }
    }
}

/// `str::split_once` with a character: the text before and after the first `c`.
pub open spec fn split_once(s: Seq<char>, c: char) -> Option<(Seq<char>, Seq<char>)> {
    match index_of_char(s, c) {
        Some(i) => Some((s.take(i as int), s.skip(i as int + 1))),
        None => None,
    }
}

/// The index of the first `c` in `cs[lo..hi]`, counted from the start of `cs`.
pub fn find_char(cs: &Vec<char>, lo: usize, hi: usize, c: char) -> (r: Option<usize>)
    requires
        lo <= hi <= cs@.len(),
    ensures
        match r {
            Some(i) => lo <= i < hi && index_of_char(cs@.subrange(lo as int, hi as int), c) == Some(
                (i - lo) as nat,
            ),
            None => index_of_char(cs@.subrange(lo as int, hi as int), c) is None,
        },
{
    let ghost s = cs@;
    let mut i = lo;
    while i < hi
        invariant
            lo <= i <= hi <= s.len(),
            s == cs@,
            forall|j: int| lo <= j < i ==> s[j] != c,
        decreases hi - i,
    {
        if cs[i] == c {
            proof {
                lemma_index_of_char_found(s.subrange(lo as int, hi as int), c, (i - lo) as nat);
            }
            return Some(i);
        }
        i = i + 1;
    }
    proof {
        lemma_index_of_char_absent(s.subrange(lo as int, hi as int), c);
    }
    None
}

pub proof fn lemma_index_of_char_found(s: Seq<char>, c: char, i: nat)
    requires
        i < s.len(),
        s[i as int] == c,
        forall|j: int| 0 <= j < i ==> s[j] != c,
    ensures
        index_of_char(s, c) == Some(i),
    decreases i,
{
    if i > 0 {
        lemma_index_of_char_found(s.drop_first(), c, (i - 1) as nat);
    }
}

pub proof fn lemma_index_of_char_absent(s: Seq<char>, c: char)
    requires
        forall|j: int| 0 <= j < s.len() ==> s[j] != c,
    ensures
        index_of_char(s, c) is None,
    decreases s.len(),
{
    if s.len() > 0 {
        lemma_index_of_char_absent(s.drop_first(), c);
    }
}

pub proof fn lemma_index_of_char_facts(s: Seq<char>, c: char)
    ensures
        match index_of_char(s, c) {
            Some(i) => i < s.len() && s[i as int] == c && forall|j: int| 0 <= j < i ==> s[j] != c,
            None => forall|j: int| 0 <= j < s.len() ==> s[j] != c,
        },
    decreases s.len(),
{
    if s.len() > 0 {
        lemma_index_of_char_facts(s.drop_first(), c);
        if s[0] != c {
            assert forall|j: int| 0 < j < s.len() implies s[j] == s.drop_first()[j - 1] by {}
        }
    }
}

/// The index of the last occurrence of `c` in `s`.
pub open spec fn last_index_of_char(s: Seq<char>, c: char) -> Option<nat>
    decreases s.len(),
{
    if s.len() == 0 {
        None
    } else if s.last() == c {
        Some((s.len() - 1) as nat)
    } else {
        last_index_of_char(s.drop_last(), c)
    }
}

/// `str::rsplit_once` with a character: the text before and after the last `c`.
pub open spec fn rsplit_once(s: Seq<char>, c: char) -> Option<(Seq<char>, Seq<char>)> {
    match last_index_of_char(s, c) {
        Some(i) => Some((s.take(i as int), s.skip(i as int + 1))),
        None => None,
    }
}

/// The index of the last `c` in `cs[lo..hi]`, counted from the start of `cs`.
pub fn rfind_char(cs: &Vec<char>, lo: usize, hi: usize, c: char) -> (r: Option<usize>)
    requires
        lo <= hi <= cs@.len(),
    ensures
        match r {
            Some(i) => lo <= i < hi && last_index_of_char(cs@.subrange(lo as int, hi as int), c)
                == Some((i - lo) as nat),
            None => last_index_of_char(cs@.subrange(lo as int, hi as int), c) is None,
        },
{
    let ghost s = cs@;
    let mut i = hi;
    while i > lo
        invariant
            lo <= i <= hi <= s.len(),
            s == cs@,
            last_index_of_char(s.subrange(lo as int, hi as int), c) == last_index_of_char(
                s.subrange(lo as int, i as int),
                c,
            ),
        decreases i - lo,
    {
        let ghost sub = s.subrange(lo as int, i as int);
        assert(sub.last() == s[i - 1]);
        if cs[i - 1] == c {
            return Some(i - 1);
        }
        assert(sub.drop_last() == s.subrange(lo as int, i - 1));
        i = i - 1;
    }
    None
}

/// No piece between separators holds a separator.
pub proof fn lemma_split_by_pieces(s: Seq<char>, k: CharClass)
    ensures
        forall|i: int, j: int|
            0 <= i < split_by(s, k).len() && 0 <= j < split_by(s, k)[i].len() ==> !in_class(
                k,
                #[trigger] split_by(s, k)[i][j],
            ),
    decreases s.len(),
{
    if s.len() > 0 {
        let prev = split_by(s.drop_last(), k);
        lemma_split_by_pieces(s.drop_last(), k);
        lemma_split_by_nonempty(s.drop_last(), k);
        if !in_class(k, s.last()) {
            let ps = split_by(s, k);
            assert forall|i: int, j: int| 0 <= i < ps.len() && 0 <= j < ps[i].len() implies !in_class(
                k,
                #[trigger] ps[i][j],
            ) by {
                if i == prev.len() - 1 {
                    if j < prev.last().len() {
                        assert(ps[i][j] == prev[i][j]);
                    }
                } else {
                    assert(ps[i] == prev[i]);
                }
            }
        } else {
            let ps = split_by(s, k);
            assert forall|i: int, j: int| 0 <= i < ps.len() && 0 <= j < ps[i].len() implies !in_class(
                k,
                #[trigger] ps[i][j],
            ) by {
                assert(ps[i] == prev[i]);
            }
        }
    }
}

/// No line holds a line feed.
pub proof fn lemma_lines_no_newline(s: Seq<char>)
    ensures
        forall|i: int, j: int| 0 <= i < lines(s).len() && 0 <= j < lines(s)[i].len() ==> #[trigger] lines(s)[i][j] != '\n',
{
    let k = CharClass::LineFeed;
    let ps = split_by(s, k);
    lemma_split_by_pieces(s, k);
    lemma_split_by_nonempty(s, k);
    let ls = lines(s);
    let n = ps.len() - 1;
    assert forall|i: int, j: int| 0 <= i < ls.len() && 0 <= j < ls[i].len() implies #[trigger] ls[i][j] != '\n' by {
        if i < n {
            assert(ls[i] == strip_cr(ps[i]));
            assert(ls[i][j] == ps[i][j]);
            assert(!in_class(k, ps[i][j]));
        } else {
            assert(ls[i] == ps[n]);
            assert(!in_class(k, ps[n][j]));
        }
    }
}

/// `trim_start` drops a prefix, and what remains does not start with whitespace.
pub proof fn lemma_trim_start_skip(s: Seq<char>) -> (a: nat)
    ensures
        a <= s.len(),
        trim_start(s) == s.skip(a as int),
        trim_start(s).len() > 0 ==> !is_whitespace(trim_start(s)[0]),
    decreases s.len(),
{
    if s.len() > 0 && is_whitespace(s[0]) {
        let a = lemma_trim_start_skip(s.drop_first());
        assert(s.drop_first().skip(a as int) == s.skip((a + 1) as int));
        a + 1
    } else {
        assert(s.skip(0) == s);
        0
    }
}

/// `trim_end` keeps a prefix.
pub proof fn lemma_trim_end_take(s: Seq<char>) -> (b: nat)
    ensures
        b <= s.len(),
        trim_end(s) == s.take(b as int),
    decreases s.len(),
{
    if s.len() > 0 && is_whitespace(s.last()) {
        let b = lemma_trim_end_take(s.drop_last());
        assert(s.drop_last().take(b as int) == s.take(b as int));
        b
    } else {
        assert(s.take(s.len() as int) == s);
        s.len()
    }
}

/// The trimmed text of a line keeps its characters, and does not start with whitespace.
pub proof fn lemma_trim_facts(l: Seq<char>)
    ensures
        trim(l).len() > 0 ==> !is_whitespace(trim(l)[0]),
        forall|j: int| 0 <= j < trim(l).len() ==> exists|m: int| 0 <= m < l.len() && #[trigger] trim(l)[j] == l[m],
{
    let a = lemma_trim_start_skip(l);
    let x = trim_start(l);
    let b = lemma_trim_end_take(x);
    assert forall|j: int| 0 <= j < trim(l).len() implies exists|m: int| 0 <= m < l.len() && #[trigger] trim(l)[j] == l[m] by {
        assert(trim(l)[j] == x[j]);
        assert(x[j] == l[j + a]);
    }
    if trim(l).len() > 0 {
        assert(trim(l)[0] == x[0]);
    }
}

/// The separator law: words are split at exactly the eleven characters space, `.`, `,`,
/// line feed, tab, `?`, `!`, `'`, `"`, `_` and `-`; the whitespace fields at exactly space,
/// tab, line feed, form feed and carriage return; lines at exactly the line feed. In
/// particular no letter or digit separates anything.
pub proof fn law_separators(c: char)
    ensures
        in_class(CharClass::WordSeparator, c) <==> (c == ' ' || c == '.' || c == ',' || c == '\n'
            || c == '\t' || c == '?' || c == '!' || c == '\'' || c == '"' || c == '_' || c == '-'),
        in_class(CharClass::AsciiWhitespace, c) <==> (c == ' ' || c == '\t' || c == '\n' || c
            == '\x0C' || c == '\r'),
        in_class(CharClass::LineFeed, c) <==> c == '\n',
        ('a' <= c <= 'z' || 'A' <= c <= 'Z' || '0' <= c <= '9') ==> !in_class(CharClass::WordSeparator, c)
            && !in_class(CharClass::AsciiWhitespace, c) && !in_class(CharClass::LineFeed, c),
{
}

} // verus!
