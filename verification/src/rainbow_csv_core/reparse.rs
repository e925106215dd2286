//! A rewritten line splits back into the values it was built from: the
//! line-level half of align idempotence and shrink stability.
use vstd::prelude::*;
use crate::text::{
    is_trimmed, is_whitespace, spaces, trim, lemma_trim_padded, lemma_trim_is_trimmed,
    lemma_lead_ws_char, lemma_trail_ws_char, lead_ws,
};
use super::dialect::Dialect;
use super::rewrite::{RewriteMode, render_line, pad_join_from, join_from, pad_for, width_at};
use crate::text::display_width_of;
use super::split::{
    Span, split_spec, simple_from, quoted_from, first_field, quoted_end,
    closing_quote, skip_outer_ws, find_from, has_quote, trimmed_span, untrimmed_span, value_of,
    values_of, is_outer_ws, lemma_trimmed_span, lemma_skip_outer_ws, lemma_find_from,
    lemma_closing_quote, lemma_quoted_end, lemma_first_field_end,
};

verus! {

broadcast use vstd::seq::group_seq_axioms;

// ---------------------------------------------------------------------------
// Values joined with padding
// ---------------------------------------------------------------------------

/// `vs[i..]` joined by `d`, value `k` followed by `pads[k]` spaces unless it
/// is the last one.
pub open spec fn join_padded(vs: Seq<Seq<char>>, pads: Seq<nat>, d: char, i: int) -> Seq<char>
    decreases vs.len() - i,
{
    if i < 0 || i >= vs.len() {
        Seq::empty()
    } else if i + 1 == vs.len() {
        vs[i]
    } else {
        vs[i] + spaces(pads[i]) + seq![d] + join_padded(vs, pads, d, i + 1)
    }
}

/// A value that a literal split gives: trimmed and free of the delimiter.
pub open spec fn plain_value(v: Seq<char>, d: char) -> bool {
    is_trimmed(v) && !v.contains(d)
}

/// A complete quoted token `"..."` whose first unescaped inner quote is its
/// last character.
pub open spec fn quoted_token(v: Seq<char>) -> bool {
    v.len() >= 2 && v[0] == '"' && closing_quote(v, 1) == Some(v.len() - 1)
}

/// A value that a warning-free quote-aware split gives.
pub open spec fn quoted_split_value(v: Seq<char>, d: char) -> bool {
    (plain_value(v, d) && !v.contains('"')) || quoted_token(v)
}

/// The delimiter is neither whitespace around quoted fields nor a quote.
pub open spec fn usable_delimiter(d: char) -> bool {
    d != ' ' && d != '\t' && d != '"' && !is_whitespace(d)
}

// ---------------------------------------------------------------------------
// Small facts
// ---------------------------------------------------------------------------

/// Raw texts of a line's fields.
pub open spec fn raws_of(s: Seq<char>, fs: Seq<Span>) -> Seq<Seq<char>> {
    Seq::new(fs.len(), |k: int| s.subrange(fs[k].start, fs[k].end))
}

/// `vs[i..]`, every value but the last followed by its padding.
pub open spec fn padded_values(vs: Seq<Seq<char>>, pads: Seq<nat>, i: int) -> Seq<Seq<char>> {
    Seq::new(
        (vs.len() - i) as nat,
        |k: int|
            vs[i + k] + spaces(
                if i + k + 1 < vs.len() {
                    pads[i + k]
                } else {
                    0
                },
            ),
    )
}

proof fn lemma_raws_cons(s: Seq<char>, f: Span, fs: Seq<Span>)
    ensures
        raws_of(s, seq![f] + fs) == seq![s.subrange(f.start, f.end)] + raws_of(s, fs),
{
    assert(raws_of(s, seq![f] + fs) =~= seq![s.subrange(f.start, f.end)] + raws_of(s, fs)) by {
        assert forall|k: int| 0 <= k < raws_of(s, seq![f] + fs).len() implies raws_of(
            s,
            seq![f] + fs,
        )[k] == (seq![s.subrange(f.start, f.end)] + raws_of(s, fs))[k] by {
            if k > 0 {
                assert((seq![f] + fs)[k] == fs[k - 1]);
            }
        }
    }
}

proof fn lemma_padded_values_cons(vs: Seq<Seq<char>>, pads: Seq<nat>, i: int)
    requires
        0 <= i < vs.len(),
    ensures
        padded_values(vs, pads, i) == seq![
            vs[i] + spaces(
                if i + 1 < vs.len() {
                    pads[i]
                } else {
                    0
                },
            ),
        ] + padded_values(vs, pads, i + 1),
{
    assert(padded_values(vs, pads, i) =~= seq![
        vs[i] + spaces(
            if i + 1 < vs.len() {
                pads[i]
            } else {
                0
            },
        ),
    ] + padded_values(vs, pads, i + 1));
}

proof fn lemma_values_cons(s: Seq<char>, f: Span, fs: Seq<Span>)
    ensures
        values_of(s, seq![f] + fs) == seq![value_of(s, f)] + values_of(s, fs),
{
    assert(values_of(s, seq![f] + fs) =~= seq![value_of(s, f)] + values_of(s, fs)) by {
        assert forall|k: int| 0 <= k < values_of(s, seq![f] + fs).len() implies values_of(
            s,
            seq![f] + fs,
        )[k] == (seq![value_of(s, f)] + values_of(s, fs))[k] by {
            if k > 0 {
                assert((seq![f] + fs)[k] == fs[k - 1]);
            }
        }
    }
}

/// The scan of a literal split skips characters that are not delimiters.
proof fn lemma_simple_scan(s: Seq<char>, d: char, start: int, i: int, j: int)
    requires
        0 <= i <= j <= s.len(),
        forall|x: int| i <= x < j ==> s[x] != d,
    ensures
        simple_from(s, d, start, i) == simple_from(s, d, start, j),
    decreases j - i,
{
    if i < j {
        lemma_simple_scan(s, d, start, i + 1, j);
    }
}

/// `find_from` skips characters other than the one sought.
proof fn lemma_find_skip(s: Seq<char>, c: char, i: int, j: int)
    requires
        0 <= i <= j <= s.len(),
        forall|x: int| i <= x < j ==> s[x] != c,
    ensures
        find_from(s, i, c) == find_from(s, j, c),
    decreases j - i,
{
    if i < j {
        lemma_find_skip(s, c, i + 1, j);
    }
}

/// `skip_outer_ws` passes over spaces.
proof fn lemma_skip_spaces(s: Seq<char>, i: int, j: int)
    requires
        0 <= i <= j <= s.len(),
        forall|x: int| i <= x < j ==> s[x] == ' ',
    ensures
        skip_outer_ws(s, i) == skip_outer_ws(s, j),
    decreases j - i,
{
    if i < j {
        lemma_skip_spaces(s, i + 1, j);
    }
}

/// A quoted body scanned inside a longer text closes at the same place.
pub proof fn lemma_closing_quote_shift(v: Seq<char>, r: Seq<char>, p: int, i: int)
    requires
        0 <= p,
        p + v.len() <= r.len(),
        r.subrange(p, p + v.len()) == v,
        0 <= i < v.len(),
        closing_quote(v, i) == Some(v.len() - 1),
        p + v.len() == r.len() || r[p + v.len()] != '"',
    ensures
        closing_quote(r, p + i) == Some(p + v.len() - 1),
    decreases v.len() - i,
{
    assert(r[p + i] == v[i]);
    if v[i] == '"' {
        if i + 1 < v.len() && v[i + 1] == '"' {
            assert(r[p + i + 1] == v[i + 1]);
            lemma_closing_quote_shift(v, r, p, i + 2);
        } else {
            if i + 1 < v.len() {
                assert(r[p + i + 1] == v[i + 1]);
            }
        }
    } else {
        lemma_closing_quote_shift(v, r, p, i + 1);
    }
}

/// The quoted body found in a text closes at the end of the token cut out
/// of it.
proof fn lemma_closing_quote_cut(s: Seq<char>, j: int, q: int, i: int)
    requires
        0 <= j < i <= q < s.len(),
        closing_quote(s, i) == Some(q),
    ensures
        closing_quote(s.subrange(j, q + 1), i - j) == Some(q - j),
    decreases q - i,
{
    let v = s.subrange(j, q + 1);
    assert(v[i - j] == s[i]);
    if s[i] == '"' {
        if i + 1 < s.len() && s[i + 1] == '"' {
            lemma_closing_quote(s, i + 2);
            assert(v[i - j + 1] == s[i + 1]);
            lemma_closing_quote_cut(s, j, q, i + 2);
        } else {
            if i - j + 1 < v.len() {
                assert(v[i - j + 1] == s[i + 1]);
            }
        }
    } else {
        lemma_closing_quote(s, i + 1);
        lemma_closing_quote_cut(s, j, q, i + 1);
    }
}

/// Trimming whitespace, a token with non-whitespace ends, and whitespace
/// gives the token.
proof fn lemma_trim_around(s: Seq<char>, a: int, b: int, c: int, e: int)
    requires
        0 <= a <= b < c <= e <= s.len(),
        forall|x: int| a <= x < b ==> is_whitespace(#[trigger] s[x]),
        forall|x: int| c <= x < e ==> is_whitespace(#[trigger] s[x]),
        !is_whitespace(s[b]),
        !is_whitespace(s[c - 1]),
    ensures
        trim(s.subrange(a, e)) == s.subrange(b, c),
{
    let raw = s.subrange(a, e);
    assert forall|x: int| 0 <= x < b - a implies is_whitespace(#[trigger] raw[x]) by {
        assert(raw[x] == s[a + x]);
    }
    lemma_lead_ws_char(raw, (b - a) as nat);
    assert forall|x: int| raw.len() - (e - c) <= x < raw.len() implies is_whitespace(
        #[trigger] raw[x],
    ) by {
        assert(raw[x] == s[a + x]);
    }
    assert(raw[raw.len() - (e - c) - 1] == s[c - 1]);
    lemma_trail_ws_char(raw, (e - c) as nat);
    assert(trim(raw) =~= s.subrange(b, c));
}

/// What trimming keeps was in the raw text.
pub proof fn lemma_trim_sub(raw: Seq<char>, c: char)
    ensures
        trim(raw).contains(c) ==> raw.contains(c),
{
    crate::text::lemma_lead_ws_bound(raw);
    crate::text::lemma_trail_ws_bound(raw);
    if trim(raw).contains(c) {
        let x = choose|x: int| 0 <= x < trim(raw).len() && trim(raw)[x] == c;
        assert(raw[lead_ws(raw) + x] == c);
    }
}

/// A trimmed raw piece free of `c` gives a value free of `c`.
proof fn lemma_trimmed_free(s: Seq<char>, a: int, b: int, c: char)
    requires
        0 <= a <= b <= s.len(),
        forall|x: int| a <= x < b ==> s[x] != c,
    ensures
        !value_of(s, trimmed_span(s, a, b)).contains(c),
        is_trimmed(value_of(s, trimmed_span(s, a, b))),
{
    lemma_trimmed_span(s, a, b);
    lemma_trim_sub(s.subrange(a, b), c);
    lemma_trim_is_trimmed(s.subrange(a, b));
    if s.subrange(a, b).contains(c) {
        let x = choose|x: int| 0 <= x < s.subrange(a, b).len() && s.subrange(a, b)[x] == c;
        assert(s[a + x] == c);
    }
}

/// Values of a literal split are trimmed and free of the delimiter, and free
/// of quotes when the line is.
proof fn lemma_simple_values(s: Seq<char>, d: char, start: int, i: int)
    requires
        0 <= start <= i <= s.len(),
        forall|x: int| start <= x < i ==> s[x] != d,
    ensures
        forall|k: int|
            0 <= k < values_of(s, simple_from(s, d, start, i)).len() ==> plain_value(
                #[trigger] values_of(s, simple_from(s, d, start, i))[k],
                d,
            ) && (!s.contains('"') ==> !values_of(s, simple_from(s, d, start, i))[k].contains(
                '"',
            )),
    decreases s.len() - i,
{
    let fs = simple_from(s, d, start, i);
    let vs = values_of(s, fs);
    if i >= s.len() {
        lemma_trimmed_free(s, start, s.len() as int, d);
        if !s.contains('"') {
            lemma_trimmed_free(s, start, s.len() as int, '"');
        }
        assert(vs.len() == 1);
        assert(vs[0] == value_of(s, trimmed_span(s, start, s.len() as int)));
    } else if s[i] == d {
        lemma_trimmed_free(s, start, i, d);
        if !s.contains('"') {
            lemma_trimmed_free(s, start, i, '"');
        }
        lemma_simple_values(s, d, i + 1, i + 1);
        let rest = simple_from(s, d, i + 1, i + 1);
        lemma_values_cons(s, trimmed_span(s, start, i), rest);
        assert forall|k: int| 0 <= k < vs.len() implies plain_value(#[trigger] vs[k], d) && (
        !s.contains('"') ==> !vs[k].contains('"')) by {
            if k > 0 {
                assert(vs[k] == values_of(s, rest)[k - 1]);
            }
        }
    } else {
        lemma_simple_values(s, d, start, i + 1);
        assert(fs == simple_from(s, d, start, i + 1));
    }
}

/// Values of a warning-free quote-aware split are plain or quoted tokens.
proof fn lemma_quoted_values(s: Seq<char>, d: char, i: int)
    requires
        0 <= i < s.len(),
        !quoted_from(s, d, i).1,
    ensures
        forall|k: int|
            0 <= k < values_of(s, quoted_from(s, d, i).0).len() ==> quoted_split_value(
                #[trigger] values_of(s, quoted_from(s, d, i).0)[k],
                d,
            ),
    decreases s.len() - i,
{
    lemma_first_field_end(s, d, i);
    let n = s.len() as int;
    let ff = first_field(s, d, i);
    let e = ff.2;
    let j = skip_outer_ws(s, i);
    lemma_skip_outer_ws(s, i);
    lemma_find_from(s, i, d);
    // The first value.
    assert(quoted_split_value(value_of(s, ff.0), d)) by {
        if j < n && s[j] == '"' {
            lemma_quoted_end(s, j, d);
            let close = quoted_end(s, j, d)->0;
            let k = skip_outer_ws(s, close);
            lemma_skip_outer_ws(s, close);
            assert forall|x: int| i <= x < j implies is_whitespace(#[trigger] s[x]) by {
                assert(is_outer_ws(s[x]));
            }
            assert forall|x: int| close <= x < k implies is_whitespace(#[trigger] s[x]) by {
                assert(is_outer_ws(s[x]));
            }
            lemma_trim_around(s, i, j, close, k);
            lemma_trimmed_span(s, i, k);
            let v = s.subrange(j, close);
            lemma_closing_quote_cut(s, j, close - 1, j + 1);
            assert(v[0] == '"');
        } else {
            assert forall|x: int| i <= x < e implies s[x] != '"' by {
                if s[x] == '"' {
                    assert(has_quote(s, i, e));
                }
            }
            lemma_trimmed_free(s, i, e, d);
            lemma_trimmed_free(s, i, e, '"');
        }
    }
    let fs = quoted_from(s, d, i).0;
    let vs = values_of(s, fs);
    if e >= n {
        assert(vs[0] == value_of(s, ff.0));
    } else if e + 1 == n {
        assert(vs[0] == value_of(s, ff.0));
        assert(vs[1] =~= Seq::<char>::empty());
    } else {
        lemma_quoted_values(s, d, e + 1);
        let rest = quoted_from(s, d, e + 1).0;
        lemma_values_cons(s, ff.0, rest);
        assert forall|k: int| 0 <= k < vs.len() implies quoted_split_value(#[trigger] vs[k], d) by {
            if k > 0 {
                assert(vs[k] == values_of(s, rest)[k - 1]);
            }
        }
    }
}

/// Shape of a padded join: the first value, its padding, and (unless it is
/// the last) the delimiter and the rest.
proof fn lemma_join_shape(vs: Seq<Seq<char>>, pads: Seq<nat>, d: char, i: int)
    requires
        0 <= i < vs.len(),
        pads.len() == vs.len(),
    ensures
        i + 1 == vs.len() ==> join_padded(vs, pads, d, i) == vs[i],
        i + 1 < vs.len() ==> {
            let j = join_padded(vs, pads, d, i);
            let m = (vs[i].len() + pads[i]) as int;
            &&& j.len() == m + 1 + join_padded(vs, pads, d, i + 1).len()
            &&& j.subrange(0, vs[i].len() as int) == vs[i]
            &&& forall|x: int| vs[i].len() <= x < m ==> j[x] == ' '
            &&& j[m] == d
            &&& j.subrange(m + 1, j.len() as int) == join_padded(vs, pads, d, i + 1)
        },
{
    if i + 1 < vs.len() {
        let j = join_padded(vs, pads, d, i);
        let m = (vs[i].len() + pads[i]) as int;
        assert(j == vs[i] + spaces(pads[i]) + seq![d] + join_padded(vs, pads, d, i + 1));
        assert(j.subrange(0, vs[i].len() as int) =~= vs[i]);
        assert(j.subrange(m + 1, j.len() as int) =~= join_padded(vs, pads, d, i + 1));
    }
}

/// A padded join that is not just its last value holds a delimiter.
proof fn lemma_join_nonempty(vs: Seq<Seq<char>>, pads: Seq<nat>, d: char, i: int)
    requires
        0 <= i < vs.len(),
        pads.len() == vs.len(),
        join_padded(vs, pads, d, i).len() == 0,
    ensures
        i + 1 == vs.len(),
        vs[i].len() == 0,
{
    lemma_join_shape(vs, pads, d, i);
}

/// A literal split of a padded join of plain values gives the values back.
pub proof fn lemma_reparse_simple(
    vs: Seq<Seq<char>>,
    pads: Seq<nat>,
    d: char,
    r: Seq<char>,
    p: int,
    i: int,
)
    requires
        0 <= i < vs.len(),
        pads.len() == vs.len(),
        0 <= p <= r.len(),
        r.subrange(p, r.len() as int) == join_padded(vs, pads, d, i),
        forall|k: int| 0 <= k < vs.len() ==> plain_value(#[trigger] vs[k], d),
        d != ' ',
    ensures
        values_of(r, simple_from(r, d, p, p)) == vs.subrange(i, vs.len() as int),
        raws_of(r, simple_from(r, d, p, p)) == padded_values(vs, pads, i),
    decreases vs.len() - i,
{
    let n = r.len() as int;
    let jn = r.subrange(p, n);
    let v = vs[i];
    lemma_join_shape(vs, pads, d, i);
    assert(plain_value(v, d));
    if i + 1 == vs.len() {
        assert forall|x: int| p <= x < n implies r[x] != d by {
            assert(r[x] == jn[x - p]);
            assert(v.contains(jn[x - p]) ==> true);
            if r[x] == d {
                assert(v[x - p] == d);
                assert(v.contains(d));
            }
        }
        lemma_simple_scan(r, d, p, p, n);
        lemma_trimmed_span(r, p, n);
        crate::text::lemma_trim_trimmed(v);
        assert(values_of(r, simple_from(r, d, p, p)) =~= vs.subrange(i, vs.len() as int));
        assert(r.subrange(p, n) =~= v + spaces(0));
        assert(raws_of(r, simple_from(r, d, p, p)) =~= padded_values(vs, pads, i));
    } else {
        let m = (v.len() + pads[i]) as int;
        let q = p + m;
        assert forall|x: int| p <= x < q implies r[x] != d by {
            assert(r[x] == jn[x - p]);
            if x - p < v.len() {
                assert(jn.subrange(0, v.len() as int)[x - p] == v[x - p]);
                if r[x] == d {
                    assert(v.contains(d));
                }
            }
        }
        assert(r[q] == jn[m]);
        lemma_simple_scan(r, d, p, p, q);
        assert(r.subrange(q + 1, n) =~= jn.subrange(m + 1, jn.len() as int));
        lemma_reparse_simple(vs, pads, d, r, q + 1, i + 1);
        lemma_trimmed_span(r, p, q);
        assert(r.subrange(p, q) =~= v + spaces(pads[i])) by {
            assert forall|x: int| 0 <= x < m implies r.subrange(p, q)[x] == (v + spaces(pads[i]))[x] by {
                assert(r[p + x] == jn[x]);
                if x < v.len() {
                    assert(jn.subrange(0, v.len() as int)[x] == v[x]);
                }
            }
        }
        lemma_trim_padded(v, pads[i]);
        let rest = simple_from(r, d, q + 1, q + 1);
        lemma_values_cons(r, trimmed_span(r, p, q), rest);
        assert(values_of(r, simple_from(r, d, p, p)) =~= vs.subrange(i, vs.len() as int));
        lemma_raws_cons(r, trimmed_span(r, p, q), rest);
        lemma_padded_values_cons(vs, pads, i);
    }
}

/// A quote-aware split of a padded join of plain values and quoted tokens
/// gives the values back, with no unbalanced quote.
pub proof fn lemma_reparse_quoted(
    vs: Seq<Seq<char>>,
    pads: Seq<nat>,
    d: char,
    r: Seq<char>,
    p: int,
    i: int,
)
    requires
        0 <= i < vs.len(),
        pads.len() == vs.len(),
        0 <= p < r.len(),
        r.subrange(p, r.len() as int) == join_padded(vs, pads, d, i),
        forall|k: int| 0 <= k < vs.len() ==> quoted_split_value(#[trigger] vs[k], d),
        usable_delimiter(d),
    ensures
        values_of(r, quoted_from(r, d, p).0) == vs.subrange(i, vs.len() as int),
        raws_of(r, quoted_from(r, d, p).0) == padded_values(vs, pads, i),
        !quoted_from(r, d, p).1,
    decreases vs.len() - i,
{
    let n = r.len() as int;
    let jn = r.subrange(p, n);
    let v = vs[i];
    let last = i + 1 == vs.len();
    lemma_join_shape(vs, pads, d, i);
    assert(quoted_split_value(v, d));
    let pad: nat = if last {
        0
    } else {
        pads[i]
    };
    let q = p + v.len() + pad;
    // The text of the first value and its padding.
    assert(q <= n);
    assert forall|x: int| 0 <= x < v.len() implies r[p + x] == v[x] by {
        assert(r[p + x] == jn[x]);
        if !last {
            assert(jn.subrange(0, v.len() as int)[x] == v[x]);
        }
    }
    assert forall|x: int| p + v.len() <= x < q implies r[x] == ' ' by {
        assert(r[x] == jn[x - p]);
    }
    assert(last ==> q == n);
    assert(!last ==> r[q] == d) by {
        if !last {
            assert(r[q] == jn[(v.len() + pads[i]) as int]);
        }
    }
    assert(r.subrange(p, p + v.len()) =~= v);
    assert(r.subrange(p, q) =~= v + spaces(pad)) by {
        assert forall|x: int| 0 <= x < q - p implies r.subrange(p, q)[x] == (v + spaces(pad))[x] by {
            if x < v.len() {
                assert(r[p + x] == v[x]);
            }
        }
    }
    lemma_skip_spaces(r, p + v.len(), q);
    lemma_skip_outer_ws(r, q);
    assert(skip_outer_ws(r, q) == q);
    lemma_find_from(r, p, d);
    let ff = first_field(r, d, p);
    if quoted_token(v) {
        assert(r[p] == '"');
        lemma_skip_outer_ws(r, p);
        assert(skip_outer_ws(r, p) == p);
        lemma_closing_quote_shift(v, r, p, 1);
        assert(quoted_end(r, p, d) == Some(p + v.len()));
        lemma_closing_quote(v, 1);
        assert(is_trimmed(v));
        lemma_trimmed_span(r, p, q);
        lemma_trim_padded(v, pad);
        assert(ff == (trimmed_span(r, p, q), false, q));
    } else {
        assert(plain_value(v, d) && !v.contains('"'));
        assert forall|x: int| p <= x < q implies r[x] != d && r[x] != '"' by {
            if x < p + v.len() {
                assert(r[x] == v[x - p]);
                if r[x] == d {
                    assert(v.contains(d));
                }
                if r[x] == '"' {
                    assert(v.contains('"'));
                }
            }
        }
        lemma_find_skip(r, d, p, q);
        lemma_find_from(r, q, d);
        assert(find_from(r, p, d) == q);
        assert(!has_quote(r, p, q));
        if v.len() > 0 {
            lemma_skip_outer_ws(r, p);
            assert(!is_outer_ws(r[p])) by {
                assert(r[p] == v[0]);
            }
            assert(skip_outer_ws(r, p) == p);
            assert(r[p] != '"');
        } else {
            lemma_skip_spaces(r, p, q);
            if last {
                assert(jn.len() == 0);
                assert(false);
            }
        }
        lemma_trimmed_span(r, p, q);
        lemma_trim_padded(v, pad);
        assert(ff == (trimmed_span(r, p, q), false, q));
    }
    assert(value_of(r, ff.0) == v);
    let fs = quoted_from(r, d, p);
    assert(r.subrange(ff.0.start, ff.0.end) == vs[i] + spaces(pad));
    if last {
        assert(fs.0 == seq![ff.0]);
        assert(values_of(r, fs.0) =~= vs.subrange(i, vs.len() as int));
        assert(raws_of(r, fs.0) =~= padded_values(vs, pads, i));
    } else if q + 1 == n {
        let rest = join_padded(vs, pads, d, i + 1);
        assert(jn.subrange((v.len() + pads[i] + 1) as int, jn.len() as int) =~= Seq::<char>::empty());
        lemma_join_nonempty(vs, pads, d, i + 1);
        assert(fs.0 == seq![ff.0, untrimmed_span(n, n)]);
        assert(values_of(r, fs.0) =~= vs.subrange(i, vs.len() as int)) by {
            assert(value_of(r, untrimmed_span(n, n)) =~= Seq::<char>::empty());
            assert(vs[i + 1] =~= Seq::<char>::empty());
        }
        assert(raws_of(r, fs.0) =~= padded_values(vs, pads, i)) by {
            assert(vs[i + 1] =~= Seq::<char>::empty());
            assert(r.subrange(n, n) =~= vs[i + 1] + spaces(0));
        }
    } else {
        assert(r.subrange(q + 1, n) =~= jn.subrange((v.len() + pads[i] + 1) as int, jn.len() as int));
        lemma_reparse_quoted(vs, pads, d, r, q + 1, i + 1);
        let rest = quoted_from(r, d, q + 1).0;
        assert(fs.0 == seq![ff.0] + rest);
        lemma_values_cons(r, ff.0, rest);
        assert(values_of(r, fs.0) =~= vs.subrange(i, vs.len() as int));
        lemma_raws_cons(r, ff.0, rest);
        lemma_padded_values_cons(vs, pads, i);
    }
}

/// A padded join holds a character other than the delimiter and space
/// exactly when one of its values does.
proof fn lemma_join_contains(vs: Seq<Seq<char>>, pads: Seq<nat>, d: char, i: int, c: char)
    requires
        0 <= i < vs.len(),
        pads.len() == vs.len(),
        c != d,
        c != ' ',
    ensures
        join_padded(vs, pads, d, i).contains(c) <==> exists|k: int|
            i <= k < vs.len() && #[trigger] vs[k].contains(c),
    decreases vs.len() - i,
{
    let j = join_padded(vs, pads, d, i);
    lemma_join_shape(vs, pads, d, i);
    if i + 1 == vs.len() {
        if vs[i].contains(c) {
            assert(vs[i].contains(c));
        }
    } else {
        lemma_join_contains(vs, pads, d, i + 1, c);
        let m = (vs[i].len() + pads[i]) as int;
        let rest = join_padded(vs, pads, d, i + 1);
        if j.contains(c) {
            let x = choose|x: int| 0 <= x < j.len() && j[x] == c;
            if x < vs[i].len() {
                assert(j.subrange(0, vs[i].len() as int)[x] == vs[i][x]);
                assert(vs[i].contains(c));
            } else if x > m {
                assert(j.subrange(m + 1, j.len() as int)[x - m - 1] == j[x]);
                assert(rest.contains(c));
            }
        }
        if exists|k: int| i <= k < vs.len() && #[trigger] vs[k].contains(c) {
            let k = choose|k: int| i <= k < vs.len() && #[trigger] vs[k].contains(c);
            if k == i {
                let x = choose|x: int| 0 <= x < vs[i].len() && vs[i][x] == c;
                assert(j.subrange(0, vs[i].len() as int)[x] == j[x]);
                assert(j.contains(c));
            } else {
                assert(rest.contains(c));
                let x = choose|x: int| 0 <= x < rest.len() && rest[x] == c;
                assert(j.subrange(m + 1, j.len() as int)[x] == j[m + 1 + x]);
                assert(j.contains(c));
            }
        }
    }
}

/// Padding Align gives each value.
pub open spec fn align_pads(vs: Seq<Seq<char>>, widths: Seq<usize>) -> Seq<nat> {
    Seq::new(vs.len(), |k: int| pad_for(width_at(widths, k), display_width_of(vs[k])))
}

/// No padding.
pub open spec fn zero_pads(n: nat) -> Seq<nat> {
    Seq::new(n, |k: int| 0nat)
}

proof fn lemma_pad_join_is_join_padded(vs: Seq<Seq<char>>, widths: Seq<usize>, d: char, i: int)
    requires
        0 <= i <= vs.len(),
    ensures
        pad_join_from(vs, widths, d, i) == join_padded(vs, align_pads(vs, widths), d, i),
    decreases vs.len() - i,
{
    if i < vs.len() {
        lemma_pad_join_is_join_padded(vs, widths, d, i + 1);
    }
}

proof fn lemma_join_is_join_padded(vs: Seq<Seq<char>>, d: char, i: int)
    requires
        0 <= i <= vs.len(),
    ensures
        join_from(vs, d, i) == join_padded(vs, zero_pads(vs.len()), d, i),
    decreases vs.len() - i,
{
    if i < vs.len() {
        lemma_join_is_join_padded(vs, d, i + 1);
        if i + 1 < vs.len() {
            assert(spaces(0) =~= Seq::<char>::empty());
            assert(vs[i] + spaces(0) + seq![d] =~= vs[i] + seq![d]);
        }
    }
}

/// Padding that `mode` gives each value.
pub open spec fn mode_pads(vs: Seq<Seq<char>>, widths: Seq<usize>, mode: RewriteMode) -> Seq<nat> {
    match mode {
        RewriteMode::Align => align_pads(vs, widths),
        RewriteMode::Shrink => zero_pads(vs.len()),
    }
}

pub proof fn lemma_render_line_join(line: Seq<char>, dialect: Dialect, widths: Seq<usize>, mode: RewriteMode)
    ensures
        render_line(line, dialect, widths, mode) == join_padded(
            values_of(line, split_spec(line, dialect).0),
            mode_pads(values_of(line, split_spec(line, dialect).0), widths, mode),
            dialect.spec_delimiter(),
            0,
        ),
{
    let vs = values_of(line, split_spec(line, dialect).0);
    match mode {
        RewriteMode::Align => lemma_pad_join_is_join_padded(vs, widths, dialect.spec_delimiter(), 0),
        RewriteMode::Shrink => lemma_join_is_join_padded(vs, dialect.spec_delimiter(), 0),
    }
}

/// Splitting a padded join of a warning-free line's values gives the values
/// back, with no unbalanced quote.
pub proof fn lemma_reparse_values(line: Seq<char>, dialect: Dialect, pads: Seq<nat>)
    requires
        !split_spec(line, dialect).1,
        pads.len() == split_spec(line, dialect).0.len(),
    ensures
        ({
            let vs = values_of(line, split_spec(line, dialect).0);
            let r = join_padded(vs, pads, dialect.spec_delimiter(), 0);
            &&& values_of(r, split_spec(r, dialect).0) == vs
            &&& raws_of(r, split_spec(r, dialect).0) == padded_values(vs, pads, 0)
            &&& !split_spec(r, dialect).1
        }),
{
    let d = dialect.spec_delimiter();
    let fs = split_spec(line, dialect).0;
    let vs = values_of(line, fs);
    let r = join_padded(vs, pads, d, 0);
    super::split::lemma_split_tiles(line, dialect);
    assert(vs.len() >= 1);
    let simple_line = !dialect.spec_quoted() || !line.contains('"');
    if simple_line {
        lemma_simple_values(line, d, 0, 0);
    } else {
        lemma_quoted_values(line, d, 0);
    }
    // Every value is plain, or (quote-aware split) a quoted token.
    assert forall|k: int| 0 <= k < vs.len() implies (simple_line && plain_value(#[trigger] vs[k], d)
        && (!line.contains('"') ==> !vs[k].contains('"'))) || (!simple_line && quoted_split_value(
        vs[k],
        d,
    )) by {}
    lemma_join_contains(vs, pads, d, 0, '"');
    if !dialect.spec_quoted() || !r.contains('"') {
        // `r` is split literally.
        assert forall|k: int| 0 <= k < vs.len() implies plain_value(#[trigger] vs[k], d) by {
            if !simple_line {
                if !plain_value(vs[k], d) || vs[k].contains('"') {
                    assert(quoted_token(vs[k]));
                    assert(vs[k][0] == '"');
                    assert(vs[k].contains('"'));
                    assert(r.contains('"'));
                }
            }
        }
        assert(r.subrange(0, r.len() as int) =~= r);
        lemma_reparse_simple(vs, pads, d, r, 0, 0);
        assert(vs.subrange(0, vs.len() as int) =~= vs);
    } else {
        // `r` holds a quote, so the line did and was split quote-aware.
        let k = choose|k: int| 0 <= k < vs.len() && #[trigger] vs[k].contains('"');
        if simple_line {
            assert(!line.contains('"'));
            assert(!vs[k].contains('"'));
        }
        assert(r.len() > 0);
        assert(r.subrange(0, r.len() as int) =~= r);
        lemma_reparse_quoted(vs, pads, d, r, 0, 0);
        assert(vs.subrange(0, vs.len() as int) =~= vs);
    }
}

/// Values of a warning-free split are plain values or, for a quote-aware
/// split, quoted tokens.
pub proof fn lemma_values_good(line: Seq<char>, dialect: Dialect)
    requires
        !split_spec(line, dialect).1,
    ensures
        forall|k: int|
            0 <= k < values_of(line, split_spec(line, dialect).0).len() ==> plain_value(
                #[trigger] values_of(line, split_spec(line, dialect).0)[k],
                dialect.spec_delimiter(),
            ) || quoted_token(values_of(line, split_spec(line, dialect).0)[k]),
{
    let d = dialect.spec_delimiter();
    if !dialect.spec_quoted() || !line.contains('"') {
        lemma_simple_values(line, d, 0, 0);
    } else {
        lemma_quoted_values(line, d, 0);
    }
}

/// A padded join holds `c` (neither the delimiter nor a space) exactly when
/// one of its values does.
pub proof fn lemma_join_contains_pub(vs: Seq<Seq<char>>, pads: Seq<nat>, d: char, c: char)
    requires
        vs.len() > 0,
        pads.len() == vs.len(),
        c != d,
        c != ' ',
    ensures
        join_padded(vs, pads, d, 0).contains(c) <==> exists|k: int|
            0 <= k < vs.len() && #[trigger] vs[k].contains(c),
{
    lemma_join_contains(vs, pads, d, 0, c);
}

/// Whitespace-align and shrink output re-parses identically: a rewritten
/// warning-free line splits into the same values and has no unbalanced
/// quote.
pub proof fn law_rewritten_line_reparses(
    line: Seq<char>,
    dialect: Dialect,
    widths: Seq<usize>,
    mode: RewriteMode,
)
    requires
        !split_spec(line, dialect).1,
    ensures
        values_of(
            render_line(line, dialect, widths, mode),
            split_spec(render_line(line, dialect, widths, mode), dialect).0,
        ) == values_of(line, split_spec(line, dialect).0),
        raws_of(
            render_line(line, dialect, widths, mode),
            split_spec(render_line(line, dialect, widths, mode), dialect).0,
        ) == padded_values(
            values_of(line, split_spec(line, dialect).0),
            mode_pads(values_of(line, split_spec(line, dialect).0), widths, mode),
            0,
        ),
        !split_spec(render_line(line, dialect, widths, mode), dialect).1,
{
    lemma_render_line_join(line, dialect, widths, mode);
    lemma_reparse_values(
        line,
        dialect,
        mode_pads(values_of(line, split_spec(line, dialect).0), widths, mode),
    );
}

} // verus!
