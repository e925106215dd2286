//! Quote-aware, span-tracked splitting of one line into fields.
use vstd::prelude::*;
use crate::text::{
    is_whitespace, is_whitespace_char, lead_ws, trail_ws, trim, lemma_lead_ws_bound,
    lemma_trail_ws_bound, lemma_lead_ws_char, lemma_trail_ws_char, utf8_length, utf8_units,
    lemma_utf8_length_push, char_utf8_len, chars_of, string_of,
};
use super::dialect::Dialect;

verus! {

broadcast use vstd::seq::group_seq_axioms;

// ---------------------------------------------------------------------------
// Model
// ---------------------------------------------------------------------------

/// A field of a line: raw `start..end` and trimmed value `tstart..tend`,
/// as character indices.
pub struct Span {
    pub start: int,
    pub end: int,
    pub tstart: int,
    pub tend: int,
}

/// Space or tab: the whitespace tolerated around a quoted field.
pub open spec fn is_outer_ws(c: char) -> bool {
    c == ' ' || c == '\t'
}

/// First index at or after `j` that is not a space or tab.
pub open spec fn skip_outer_ws(s: Seq<char>, j: int) -> int
    decreases s.len() - j,
{
    if 0 <= j < s.len() && is_outer_ws(s[j]) {
        skip_outer_ws(s, j + 1)
    } else {
        j
    }
}

/// First index at or after `from` that holds `c`, or `s.len()`.
pub open spec fn find_from(s: Seq<char>, from: int, c: char) -> int
    decreases s.len() - from,
{
    if from >= s.len() {
        s.len() as int
    } else if s[from] == c {
        from
    } else {
        find_from(s, from + 1, c)
    }
}

/// Index of the quote that closes a quoted body starting at `i`; `""` is an
/// escaped quote.
pub open spec fn closing_quote(s: Seq<char>, i: int) -> Option<int>
    decreases s.len() - i,
{
    if i < 0 || i >= s.len() {
        None
    } else if s[i] == '"' {
        if i + 1 < s.len() && s[i + 1] == '"' {
            closing_quote(s, i + 2)
        } else {
            Some(i)
        }
    } else {
        closing_quote(s, i + 1)
    }
}

/// For a quote at `start`: the index just past its closing quote, when only
/// spaces/tabs and then the delimiter or the end of the line follow it.
pub open spec fn quoted_end(s: Seq<char>, start: int, d: char) -> Option<int> {
    match closing_quote(s, start + 1) {
        Some(q) => {
            let k = skip_outer_ws(s, q + 1);
            if k == s.len() || s[k] == d {
                Some(q + 1)
            } else {
                None
            }
        },
        None => None,
    }
}

/// Raw span `start..end` whose value is the raw text without surrounding
/// whitespace.
pub open spec fn trimmed_span(s: Seq<char>, start: int, end: int) -> Span {
    let raw = s.subrange(start, end);
    let tend = end - trail_ws(raw);
    let lead = start + lead_ws(raw);
    Span { start, end, tstart: if lead <= tend { lead } else { tend }, tend }
}

/// Raw span `start..end` whose value is the raw text itself.
pub open spec fn untrimmed_span(start: int, end: int) -> Span {
    Span { start, end, tstart: start, tend: end }
}

/// `s[from..to]` holds a double quote.
pub open spec fn has_quote(s: Seq<char>, from: int, to: int) -> bool {
    exists|x: int| from <= x < to && s[x] == '"'
}

/// The field starting at `i` of a quote-aware split: its span, whether it is
/// an unbalanced quote, and the index `e` where it stops (`s.len()` or a
/// delimiter).
pub open spec fn first_field(s: Seq<char>, d: char, i: int) -> (Span, bool, int) {
    let n = s.len() as int;
    let j = skip_outer_ws(s, i);
    if j < n && s[j] == '"' {
        match quoted_end(s, j, d) {
            Some(close) => {
                let k = skip_outer_ws(s, close);
                (trimmed_span(s, i, k), false, k)
            },
            None => {
                let e = find_from(s, i, d);
                (untrimmed_span(i, e), true, e)
            },
        }
    } else {
        let e = find_from(s, i, d);
        (trimmed_span(s, i, e), has_quote(s, i, e), e)
    }
}

/// Fields of a quote-aware split from index `i` on, and whether any of them
/// has unbalanced quotes.
pub open spec fn quoted_from(s: Seq<char>, d: char, i: int) -> (Seq<Span>, bool)
    decreases s.len() - i,
{
    if i < 0 || i >= s.len() {
        (Seq::empty(), false)
    } else {
        let ff = first_field(s, d, i);
        let e = ff.2;
        if e >= s.len() {
            (seq![ff.0], ff.1)
        } else if e + 1 == s.len() {
            (seq![ff.0, untrimmed_span(s.len() as int, s.len() as int)], ff.1)
        } else {
            proof {
                lemma_first_field_end(s, d, i);
            }
            let r = quoted_from(s, d, e + 1);
            (seq![ff.0] + r.0, ff.1 || r.1)
        }
    }
}

/// Quote-aware split of a whole line.
pub open spec fn split_quoted_spec(s: Seq<char>, d: char) -> (Seq<Span>, bool) {
    if s.len() == 0 {
        (seq![untrimmed_span(0, 0)], false)
    } else {
        quoted_from(s, d, 0)
    }
}

/// Literal split at every delimiter; `start` is where the current field began.
pub open spec fn simple_from(s: Seq<char>, d: char, start: int, i: int) -> Seq<Span>
    decreases s.len() - i,
{
    if i >= s.len() {
        seq![trimmed_span(s, start, s.len() as int)]
    } else if s[i] == d {
        seq![trimmed_span(s, start, i)] + simple_from(s, d, i + 1, i + 1)
    } else {
        simple_from(s, d, start, i + 1)
    }
}

/// Fields of a line in `dialect` and its unbalanced-quote flag: quoted
/// dialects split quote-aware when the line holds a `"`, all others split
/// literally.
pub open spec fn split_spec(s: Seq<char>, dialect: Dialect) -> (Seq<Span>, bool) {
    if !dialect.spec_quoted() || !s.contains('"') {
        (simple_from(s, dialect.spec_delimiter(), 0, 0), false)
    } else {
        split_quoted_spec(s, dialect.spec_delimiter())
    }
}

/// The trimmed value of a field.
pub open spec fn value_of(s: Seq<char>, f: Span) -> Seq<char> {
    s.subrange(f.tstart, f.tend)
}

/// Trimmed values of a line's fields.
pub open spec fn values_of(s: Seq<char>, fs: Seq<Span>) -> Seq<Seq<char>> {
    Seq::new(fs.len(), |k: int| value_of(s, fs[k]))
}

/// A field span inside a line of length `n`.
pub open spec fn span_ok(f: Span, n: int) -> bool {
    0 <= f.start <= f.tstart <= f.tend <= f.end <= n
}

/// `fs` covers `s[i..]`: consecutive raw spans separated by one delimiter.
pub open spec fn tiles_from(s: Seq<char>, d: char, fs: Seq<Span>, i: int) -> bool {
    &&& fs.len() >= 1
    &&& fs[0].start == i
    &&& fs.last().end == s.len()
    &&& forall|k: int| 0 <= k < fs.len() ==> span_ok(#[trigger] fs[k], s.len() as int)
    &&& forall|k: int|
        #![trigger fs[k].end]
        0 <= k < fs.len() - 1 ==> fs[k].end < s.len() && s[fs[k].end] == d && fs[k + 1].start
            == fs[k].end + 1
}

// ---------------------------------------------------------------------------
// Basic facts
// ---------------------------------------------------------------------------

pub proof fn lemma_skip_outer_ws(s: Seq<char>, j: int)
    requires
        0 <= j <= s.len(),
    ensures
        j <= skip_outer_ws(s, j) <= s.len(),
        forall|x: int| j <= x < skip_outer_ws(s, j) ==> is_outer_ws(#[trigger] s[x]),
        skip_outer_ws(s, j) < s.len() ==> !is_outer_ws(s[skip_outer_ws(s, j)]),
    decreases s.len() - j,
{
    if j < s.len() && is_outer_ws(s[j]) {
        lemma_skip_outer_ws(s, j + 1);
    }
}

pub proof fn lemma_find_from(s: Seq<char>, from: int, c: char)
    requires
        0 <= from <= s.len(),
    ensures
        from <= find_from(s, from, c) <= s.len(),
        forall|x: int| from <= x < find_from(s, from, c) ==> #[trigger] s[x] != c,
        find_from(s, from, c) < s.len() ==> s[find_from(s, from, c)] == c,
    decreases s.len() - from,
{
    if from < s.len() && s[from] != c {
        lemma_find_from(s, from + 1, c);
    }
}

pub proof fn lemma_closing_quote(s: Seq<char>, i: int)
    requires
        0 <= i,
    ensures
        closing_quote(s, i) matches Some(q) ==> i <= q < s.len() && s[q] == '"' && (q + 1
            == s.len() || s[q + 1] != '"'),
    decreases s.len() - i,
{
    if i < s.len() {
        if s[i] == '"' {
            if i + 1 < s.len() && s[i + 1] == '"' {
                lemma_closing_quote(s, i + 2);
            }
        } else {
            lemma_closing_quote(s, i + 1);
        }
    }
}

pub proof fn lemma_quoted_end(s: Seq<char>, start: int, d: char)
    requires
        0 <= start < s.len(),
    ensures
        quoted_end(s, start, d) matches Some(e) ==> start + 2 <= e <= s.len() && s[e - 1]
            == '"' && closing_quote(s, start + 1) == Some(e - 1) && (skip_outer_ws(s, e)
            == s.len() || s[skip_outer_ws(s, e)] == d),
{
    lemma_closing_quote(s, start + 1);
}

pub proof fn lemma_trimmed_span(s: Seq<char>, start: int, end: int)
    requires
        0 <= start <= end <= s.len(),
    ensures
        span_ok(trimmed_span(s, start, end), s.len() as int),
        trimmed_span(s, start, end).start == start,
        trimmed_span(s, start, end).end == end,
        value_of(s, trimmed_span(s, start, end)) == trim(s.subrange(start, end)),
{
    let raw = s.subrange(start, end);
    lemma_lead_ws_bound(raw);
    lemma_trail_ws_bound(raw);
    let f = trimmed_span(s, start, end);
    if lead_ws(raw) == raw.len() {
        assert(trail_ws(raw) == raw.len()) by {
            if trail_ws(raw) < raw.len() {
                let x = raw.len() - trail_ws(raw) - 1;
                assert(is_whitespace(raw[x]));
            }
        }
        assert(value_of(s, f) =~= trim(raw));
    } else {
        assert(lead_ws(raw) + trail_ws(raw) < raw.len()) by {
            if lead_ws(raw) + trail_ws(raw) >= raw.len() {
                assert(!is_whitespace(raw[lead_ws(raw) as int]));
                assert(is_whitespace(raw[lead_ws(raw) as int]));
            }
        }
        assert(value_of(s, f) =~= trim(raw));
    }
}

pub proof fn lemma_first_field_end(s: Seq<char>, d: char, i: int)
    requires
        0 <= i < s.len(),
    ensures
        i <= first_field(s, d, i).2 <= s.len(),
        first_field(s, d, i).2 < s.len() ==> s[first_field(s, d, i).2] == d,
        first_field(s, d, i).0.start == i,
        first_field(s, d, i).0.end == first_field(s, d, i).2,
        span_ok(first_field(s, d, i).0, s.len() as int),
{
    let n = s.len() as int;
    lemma_skip_outer_ws(s, i);
    let j = skip_outer_ws(s, i);
    lemma_find_from(s, i, d);
    if j < n && s[j] == '"' {
        lemma_quoted_end(s, j, d);
        match quoted_end(s, j, d) {
            Some(close) => {
                lemma_skip_outer_ws(s, close);
                lemma_trimmed_span(s, i, skip_outer_ws(s, close));
            },
            None => {},
        }
    } else {
        lemma_trimmed_span(s, i, find_from(s, i, d));
    }
}

pub proof fn lemma_quoted_from_tiles(s: Seq<char>, d: char, i: int)
    requires
        0 <= i < s.len(),
    ensures
        tiles_from(s, d, quoted_from(s, d, i).0, i),
    decreases s.len() - i,
{
    lemma_first_field_end(s, d, i);
    let ff = first_field(s, d, i);
    let e = ff.2;
    let fs = quoted_from(s, d, i).0;
    if e >= s.len() {
        assert(fs[0] == ff.0);
    } else if e + 1 == s.len() {
        assert(fs[0] == ff.0);
        assert(fs[1].start == fs[0].end + 1);
        assert(span_ok(fs[1], s.len() as int));
    } else {
        lemma_quoted_from_tiles(s, d, e + 1);
        let r = quoted_from(s, d, e + 1).0;
        assert(fs == seq![ff.0] + r);
        assert forall|k: int| 0 <= k < fs.len() implies span_ok(#[trigger] fs[k], s.len() as int) by {
            if k > 0 {
                assert(fs[k] == r[k - 1]);
            }
        }
        assert forall|k: int| #![trigger fs[k].end] 0 <= k < fs.len() - 1 implies fs[k].end < s.len() && s[fs[k].end]
            == d && fs[k + 1].start == fs[k].end + 1 by {
            assert(fs[k + 1] == r[k]);
            if k > 0 {
                assert(fs[k] == r[k - 1]);
                assert(r[k - 1].end < s.len());
            } else {
                assert(fs[0] == ff.0);
                assert(r[0].start == e + 1);
            }
        }
        assert(fs.last() == r.last());
    }
}

pub proof fn lemma_simple_from_tiles(s: Seq<char>, d: char, start: int, i: int)
    requires
        0 <= start <= i <= s.len(),
    ensures
        tiles_from(s, d, simple_from(s, d, start, i), start),
    decreases s.len() - i,
{
    let fs = simple_from(s, d, start, i);
    if i >= s.len() {
        lemma_trimmed_span(s, start, s.len() as int);
        assert(fs[0] == trimmed_span(s, start, s.len() as int));
    } else if s[i] == d {
        lemma_trimmed_span(s, start, i);
        lemma_simple_from_tiles(s, d, i + 1, i + 1);
        let r = simple_from(s, d, i + 1, i + 1);
        assert forall|k: int| 0 <= k < fs.len() implies span_ok(#[trigger] fs[k], s.len() as int) by {
            if k > 0 {
                assert(fs[k] == r[k - 1]);
            }
        }
        assert forall|k: int| #![trigger fs[k].end] 0 <= k < fs.len() - 1 implies fs[k].end < s.len() && s[fs[k].end]
            == d && fs[k + 1].start == fs[k].end + 1 by {
            assert(fs[k + 1] == r[k]);
            if k > 0 {
                assert(fs[k] == r[k - 1]);
                assert(r[k - 1].end < s.len());
            } else {
                assert(fs[0] == trimmed_span(s, start, i));
                assert(r[0].start == i + 1);
            }
        }
        assert(fs.last() == r.last());
    } else {
        lemma_simple_from_tiles(s, d, start, i + 1);
        assert(fs == simple_from(s, d, start, i + 1));
    }
}

/// The fields of any split cover the line.
pub proof fn lemma_split_tiles(s: Seq<char>, dialect: Dialect)
    ensures
        tiles_from(s, dialect.spec_delimiter(), split_spec(s, dialect).0, 0),
{
    let d = dialect.spec_delimiter();
    if !dialect.spec_quoted() || !s.contains('"') {
        lemma_simple_from_tiles(s, d, 0, 0);
    } else if s.len() == 0 {
    } else {
        lemma_quoted_from_tiles(s, d, 0);
    }
}

// ---------------------------------------------------------------------------
// Executable split
// ---------------------------------------------------------------------------

/// Raw `start..end` and trimmed `tstart..tend` character indices of a field.
#[derive(Debug, Clone, Copy, PartialEq, Eq)]
pub(crate) struct RawField {
    pub(crate) start: usize,
    pub(crate) end: usize,
    pub(crate) tstart: usize,
    pub(crate) tend: usize,
}

impl RawField {
    pub(crate) open spec fn span(&self) -> Span {
        Span {
            start: self.start as int,
            end: self.end as int,
            tstart: self.tstart as int,
            tend: self.tend as int,
        }
    }
}

/// Spans of a vector of fields.
pub(crate) open spec fn spans_of(v: Seq<RawField>) -> Seq<Span> {
    v.map_values(|f: RawField| f.span())
}

pub(crate) fn count_lead_ws(line: &[char], start: usize, end: usize) -> (r: usize)
    requires
        start <= end <= line@.len(),
    ensures
        r == lead_ws(line@.subrange(start as int, end as int)),
{
    let ghost raw = line@.subrange(start as int, end as int);
    let mut i = start;
    while i < end && is_whitespace_char(line[i])
        invariant
            start <= i <= end <= line@.len(),
            raw == line@.subrange(start as int, end as int),
            forall|x: int| 0 <= x < i - start ==> is_whitespace(#[trigger] raw[x]),
        decreases end - i,
    {
        i += 1;
    }
    proof {
        lemma_lead_ws_char(raw, (i - start) as nat);
    }
    i - start
}

pub(crate) fn count_trail_ws(line: &[char], start: usize, end: usize) -> (r: usize)
    requires
        start <= end <= line@.len(),
    ensures
        r == trail_ws(line@.subrange(start as int, end as int)),
{
    let ghost raw = line@.subrange(start as int, end as int);
    let mut t = end;
    while t > start && is_whitespace_char(line[t - 1])
        invariant
            start <= t <= end <= line@.len(),
            raw == line@.subrange(start as int, end as int),
            forall|x: int| t - start <= x < raw.len() ==> is_whitespace(#[trigger] raw[x]),
        decreases t - start,
    {
        t -= 1;
    }
    proof {
        lemma_trail_ws_char(raw, (end - t) as nat);
    }
    end - t
}

impl RawField {
    /// Span whose value is the whitespace-trimmed raw text.
    fn trimmed(line: &[char], start: usize, end: usize) -> (r: RawField)
        requires
            start <= end <= line@.len(),
        ensures
            r.span() == trimmed_span(line@, start as int, end as int),
    {
        let lead = count_lead_ws(line, start, end);
        let trail = count_trail_ws(line, start, end);
        proof {
            lemma_lead_ws_bound(line@.subrange(start as int, end as int));
            lemma_trail_ws_bound(line@.subrange(start as int, end as int));
        }
        let tend = end - trail;
        let l = start + lead;
        RawField { start, end, tstart: if l <= tend { l } else { tend }, tend }
    }

    /// Span whose value is the raw text as-is.
    fn untrimmed(start: usize, end: usize) -> (r: RawField)
        ensures
            r.span() == untrimmed_span(start as int, end as int),
    {
        RawField { start, end, tstart: start, tend: end }
    }

    pub(crate) fn is_trimmed(&self) -> (b: bool)
        ensures
            b == (self.tstart != self.start || self.tend != self.end),
    {
        self.tstart != self.start || self.tend != self.end
    }
}

fn is_outer_ws_char(c: char) -> (b: bool)
    ensures
        b == is_outer_ws(c),
{
    c == ' ' || c == '\t'
}

fn skip_ws(line: &[char], j: usize) -> (k: usize)
    requires
        j <= line@.len(),
    ensures
        k == skip_outer_ws(line@, j as int),
        j <= k <= line@.len(),
{
    proof {
        lemma_skip_outer_ws(line@, j as int);
    }
    let mut k = j;
    while k < line.len() && is_outer_ws_char(line[k])
        invariant
            j <= k <= line@.len(),
            skip_outer_ws(line@, j as int) == skip_outer_ws(line@, k as int),
        decreases line@.len() - k,
    {
        k += 1;
    }
    k
}

pub(crate) fn find_byte(line: &[char], from: usize, b: char) -> (r: Option<usize>)
    requires
        from <= line@.len(),
    ensures
        r == (if find_from(line@, from as int, b) < line@.len() {
            Some(find_from(line@, from as int, b) as usize)
        } else {
            None::<usize>
        }),
{
    let mut i = from;
    while i < line.len()
        invariant
            from <= i <= line@.len(),
            find_from(line@, from as int, b) == find_from(line@, i as int, b),
        decreases line@.len() - i,
    {
        if line[i] == b {
            return Some(i);
        }
        i += 1;
    }
    None
}

pub(crate) fn has_quote_in(line: &[char], from: usize, to: usize) -> (r: bool)
    requires
        from <= to <= line@.len(),
    ensures
        r == has_quote(line@, from as int, to as int),
{
    let mut i = from;
    while i < to
        invariant
            from <= i <= to <= line@.len(),
            forall|x: int| from <= x < i ==> line@[x] != '"',
        decreases to - i,
    {
        if line[i] == '"' {
            return true;
        }
        i += 1;
    }
    false
}

/// Parses `"..."` whose opening quote is at `start`; returns the index just
/// past the closing quote when only spaces/tabs and then the delimiter or the
/// end of the line follow it.
fn parse_quoted_at(line: &[char], start: usize, dlm: char) -> (r: Option<usize>)
    requires
        start < line@.len(),
    ensures
        r == (match quoted_end(line@, start as int, dlm) {
            Some(e) => Some(e as usize),
            None => None::<usize>,
        }),
{
    let n = line.len();
    let mut i = start + 1;
    while i < n
        invariant
            start + 1 <= i <= n + 1,
            n == line@.len(),
            closing_quote(line@, start as int + 1) == closing_quote(line@, i as int),
        decreases n + 1 - i,
    {
        if line[i] == '"' {
            if i + 1 < n && line[i + 1] == '"' {
                i += 2;
                continue;
            }
            let end = i + 1;
            let k = skip_ws(line, end);
            if k == n || line[k] == dlm {
                return Some(end);
            }
            return None;
        }
        i += 1;
    }
    None
}

/// Literal split of `line` at every `dlm`, appended to `out`.
fn split_simple(line: &[char], dlm: char, out: &mut Vec<RawField>)
    ensures
        spans_of(final(out)@) == spans_of(old(out)@) + simple_from(line@, dlm, 0, 0),
{
    let ghost total = spans_of(old(out)@) + simple_from(line@, dlm, 0, 0);
    let mut start: usize = 0;
    let mut idx: usize = 0;
    while idx < line.len()
        invariant
            start <= idx <= line@.len(),
            spans_of(out@) + simple_from(line@, dlm, start as int, idx as int) == total,
        decreases line@.len() - idx,
    {
        if line[idx] == dlm {
            let f = RawField::trimmed(line, start, idx);
            let ghost before = spans_of(out@);
            out.push(f);
            assert(spans_of(out@) =~= before.push(f.span()));
            assert(spans_of(out@) + simple_from(line@, dlm, idx as int + 1, idx as int + 1)
                =~= before + simple_from(line@, dlm, start as int, idx as int));
            start = idx + 1;
        }
        idx += 1;
    }
    let f = RawField::trimmed(line, start, line.len());
    let ghost before = spans_of(out@);
    out.push(f);
    assert(spans_of(out@) =~= before + simple_from(line@, dlm, start as int, idx as int));
}

/// The field starting at `i` (see [`first_field`]).
fn first_field_at(src: &[char], dlm: char, i: usize) -> (r: (RawField, bool, usize))
    requires
        i < src@.len(),
    ensures
        (r.0.span(), r.1, r.2 as int) == first_field(src@, dlm, i as int),
{
    let n = src.len();
    proof {
        lemma_skip_outer_ws(src@, i as int);
        lemma_find_from(src@, i as int, dlm);
    }
    let j = skip_ws(src, i);
    if j < n && src[j] == '"' {
        proof {
            lemma_quoted_end(src@, j as int, dlm);
        }
        match parse_quoted_at(src, j, dlm) {
            Some(close_end) => {
                let k = skip_ws(src, close_end);
                proof {
                    lemma_skip_outer_ws(src@, close_end as int);
                }
                (RawField::trimmed(src, i, k), false, k)
            },
            None => {
                let end = match find_byte(src, i, dlm) {
                    Some(e) => e,
                    None => n,
                };
                (RawField::untrimmed(i, end), true, end)
            },
        }
    } else {
        let end = match find_byte(src, i, dlm) {
            Some(e) => e,
            None => n,
        };
        let w = has_quote_in(src, i, end);
        (RawField::trimmed(src, i, end), w, end)
    }
}

/// Quote-aware split of `src`, appended to `out`; returns the
/// unbalanced-quote flag. A quoted field may be surrounded by spaces/tabs.
fn split_quoted(src: &[char], dlm: char, out: &mut Vec<RawField>) -> (warning: bool)
    ensures
        spans_of(final(out)@) == spans_of(old(out)@) + split_quoted_spec(src@, dlm).0,
        warning == split_quoted_spec(src@, dlm).1,
{
    let n = src.len();
    let ghost total = quoted_from(src@, dlm, 0);
    let mut warning = false;
    let mut i: usize = 0;
    while i < n
        invariant
            i <= n == src@.len(),
            spans_of(out@) + quoted_from(src@, dlm, i as int).0 == spans_of(old(out)@)
                + total.0,
            (warning || quoted_from(src@, dlm, i as int).1) == total.1,
        decreases n - i,
    {
        proof {
            lemma_first_field_end(src@, dlm, i as int);
        }
        let ghost i0 = i as int;
        let (f, w, e) = first_field_at(src, dlm, i);
        let ghost before = spans_of(out@);
        out.push(f);
        warning = warning || w;
        if e < n {
            i = e + 1;
            if i == n {
                let ghost b2 = spans_of(out@);
                out.push(RawField::untrimmed(n, n));
                assert(spans_of(out@) =~= b2.push(untrimmed_span(n as int, n as int)));
                assert(spans_of(out@) + quoted_from(src@, dlm, i as int).0 =~= before
                    + quoted_from(src@, dlm, i0).0);
            } else {
                assert(spans_of(out@) + quoted_from(src@, dlm, i as int).0 =~= before
                    + quoted_from(src@, dlm, i0).0);
            }
        } else {
            i = n;
            assert(spans_of(out@) =~= before.push(f.span()));
            assert(spans_of(out@) + quoted_from(src@, dlm, i as int).0 =~= before
                + quoted_from(src@, dlm, i0).0);
        }
    }
    if n == 0 {
        out.push(RawField::untrimmed(0, 0));
    }
    warning
}

fn contains_quote(line: &[char]) -> (r: bool)
    ensures
        r == line@.contains('"'),
{
    let r = has_quote_in(line, 0, line.len());
    proof {
        if r {
            let x = choose|x: int| 0 <= x < line@.len() && line@[x] == '"';
            assert(line@[x] == '"');
        }
    }
    r
}

/// Splits `line` into `out` (cleared first) and returns the unbalanced-quote
/// flag.
pub(crate) fn split_raw(line: &[char], dialect: Dialect, out: &mut Vec<RawField>) -> (warning:
    bool)
    ensures
        spans_of(final(out)@) == split_spec(line@, dialect).0,
        warning == split_spec(line@, dialect).1,
{
    out.clear();
    assert(spans_of(out@) =~= Seq::<Span>::empty());
    let dlm = dialect.delimiter();
    if !dialect.quoted() || !contains_quote(line) {
        split_simple(line, dlm, out);
        assert(spans_of(out@) =~= simple_from(line@, dlm, 0, 0));
        return false;
    }
    let w = split_quoted(line, dlm, out);
    assert(spans_of(out@) =~= split_quoted_spec(line@, dlm).0);
    w
}

// ---------------------------------------------------------------------------
// Public splitting API
// ---------------------------------------------------------------------------

/// One parsed field: trimmed value plus its raw byte span in the line.
#[derive(Debug, Clone, PartialEq, Eq)]
pub struct SpannedField {
    /// Field text with surrounding whitespace removed.
    pub value: String,
    /// Byte offset of the raw field start (incl. surrounding whitespace).
    pub start: usize,
    /// Byte offset of the raw field end.
    pub end: usize,
}

/// Split one line into trimmed values. Returns `(values, warning)`;
/// `warning` means unbalanced quotes, and the line must not be reflowed.
pub fn split_line(line: &str, dialect: Dialect) -> (r: (Vec<String>, bool))
    ensures
        r.0@.len() == split_spec(line@, dialect).0.len(),
        forall|k: int|
            0 <= k < r.0@.len() ==> #[trigger] r.0@[k]@ == values_of(
                line@,
                split_spec(line@, dialect).0,
            )[k],
        r.1 == split_spec(line@, dialect).1,
{
    let cs = chars_of(line);
    let mut raw: Vec<RawField> = Vec::new();
    let warning = split_raw(cs.as_slice(), dialect, &mut raw);
    let ghost fs = split_spec(line@, dialect).0;
    proof {
        lemma_split_tiles(line@, dialect);
    }
    let mut out: Vec<String> = Vec::new();
    let mut k: usize = 0;
    while k < raw.len()
        invariant
            cs@ == line@,
            spans_of(raw@) == fs,
            tiles_from(line@, dialect.spec_delimiter(), fs, 0),
            k <= raw@.len(),
            out@.len() == k,
            forall|x: int| 0 <= x < k ==> #[trigger] out@[x]@ == values_of(line@, fs)[x],
        decreases raw@.len() - k,
    {
        let f = raw[k];
        assert(f.span() == fs[k as int]);
        assert(span_ok(fs[k as int], line@.len() as int));
        out.push(string_of(cs.as_slice(), f.tstart, f.tend));
        k += 1;
    }
    (out, warning)
}

/// Split one line, tracking each field's raw byte span.
pub fn split_line_spans(line: &str, dialect: Dialect) -> (r: (Vec<SpannedField>, bool))
    requires
        utf8_length(line@) <= usize::MAX,
    ensures
        r.0@.len() == split_spec(line@, dialect).0.len(),
        forall|k: int|
            0 <= k < r.0@.len() ==> {
                let f = split_spec(line@, dialect).0[k];
                &&& #[trigger] r.0@[k].value@ == value_of(line@, f)
                &&& r.0@[k].start == utf8_length(line@.take(f.start))
                &&& r.0@[k].end == utf8_length(line@.take(f.end))
            },
        r.1 == split_spec(line@, dialect).1,
{
    let cs = chars_of(line);
    let mut raw: Vec<RawField> = Vec::new();
    let warning = split_raw(cs.as_slice(), dialect, &mut raw);
    let ghost fs = split_spec(line@, dialect).0;
    let ghost s = line@;
    proof {
        lemma_split_tiles(line@, dialect);
    }
    let mut out: Vec<SpannedField> = Vec::new();
    // `pos` is a character index, `bytes` its UTF-8 offset.
    let mut pos: usize = 0;
    let mut bytes: usize = 0;
    let mut k: usize = 0;
    while k < raw.len()
        invariant
            cs@ == s,
            s == line@,
            utf8_length(s) <= usize::MAX,
            spans_of(raw@) == fs,
            tiles_from(s, dialect.spec_delimiter(), fs, 0),
            k <= raw@.len(),
            out@.len() == k,
            pos <= s.len(),
            k < fs.len() ==> pos <= fs[k as int].start,
            bytes == utf8_length(s.take(pos as int)),
            forall|x: int|
                0 <= x < k ==> {
                    let f = fs[x];
                    &&& #[trigger] out@[x].value@ == value_of(s, f)
                    &&& out@[x].start == utf8_length(s.take(f.start))
                    &&& out@[x].end == utf8_length(s.take(f.end))
                },
        decreases raw@.len() - k,
    {
        let f = raw[k];
        assert(f.span() == fs[k as int]);
        assert(span_ok(fs[k as int], s.len() as int));
        while pos < f.start
            invariant
                cs@ == s,
                utf8_length(s) <= usize::MAX,
                pos <= f.start <= s.len(),
                bytes == utf8_length(s.take(pos as int)),
            decreases f.start - pos,
        {
            proof {
                advance_utf8(s, pos as int);
            }
            bytes = bytes + char_utf8_len(cs[pos]);
            pos += 1;
        }
        let start_bytes = bytes;
        while pos < f.end
            invariant
                cs@ == s,
                utf8_length(s) <= usize::MAX,
                pos <= f.end <= s.len(),
                bytes == utf8_length(s.take(pos as int)),
            decreases f.end - pos,
        {
            proof {
                advance_utf8(s, pos as int);
            }
            bytes = bytes + char_utf8_len(cs[pos]);
            pos += 1;
        }
        let value = string_of(cs.as_slice(), f.tstart, f.tend);
        assert(value@ == value_of(s, fs[k as int]));
        assert(start_bytes == utf8_length(s.take(fs[k as int].start)));
        assert(bytes == utf8_length(s.take(fs[k as int].end)));
        let ghost prev = out@;
        out.push(SpannedField { value, start: start_bytes, end: bytes });
        assert forall|x: int| 0 <= x < k + 1 implies {
            let g = fs[x];
            &&& #[trigger] out@[x].value@ == value_of(s, g)
            &&& out@[x].start == utf8_length(s.take(g.start))
            &&& out@[x].end == utf8_length(s.take(g.end))
        } by {
            if x < k {
                assert(out@[x] == prev[x]);
            } else {
                assert(out@[x].value == value);
                assert(out@[x].start == start_bytes);
            }
        }
        k += 1;
        if k < raw.len() {
            assert(fs[k as int].start == fs[k - 1].end + 1);
        }
    }
    (out, warning)
}

proof fn advance_utf8(s: Seq<char>, pos: int)
    requires
        0 <= pos < s.len(),
        utf8_length(s) <= usize::MAX,
    ensures
        utf8_length(s.take(pos + 1)) == utf8_length(s.take(pos)) + utf8_units(s[pos]),
        utf8_length(s.take(pos + 1)) <= usize::MAX,
{
    assert(s.take(pos + 1) =~= s.take(pos).push(s[pos]));
    lemma_utf8_length_push(s.take(pos), s[pos]);
    crate::text::lemma_encode_utf8_concat(s.take(pos + 1), s.skip(pos + 1));
    assert(s.take(pos + 1) + s.skip(pos + 1) =~= s);
}

} // verus!
