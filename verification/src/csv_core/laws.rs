//! Laws of the simple core: how splitting, whitespace align, pads and the
//! unbalanced-quote check relate to the text they read and write.
use vstd::prelude::*;
use crate::rainbow_csv_core::split::{
    find_from, lemma_find_from, closing_quote, lemma_closing_quote, has_quote,
};
use crate::rainbow_csv_core::reparse::{quoted_token, lemma_closing_quote_shift, lemma_trim_sub};
use crate::rainbow_csv_core::analysis::strip_cr;
use crate::text::{trim, spaces, is_whitespace, is_trimmed, lemma_trim_padded, lemma_trim_trimmed, lemma_trim_is_trimmed};
use crate::rainbow_csv_core::lines::lemma_find_skip_all;
use super::dialect::Dialect;
use super::split::{pieces, pieces_from, line_fields, quoted_fields_from, tight_quoted_end};
use super::document::{
    joined_record, lemma_joined_cons, joined_from, aligned_record, aligned_line, record_of, pad_for,
    law_split_round_trip, VirtualPad, record_pads_upto, prefix_len, lemma_prefix_len_cons,
    doc_lines, doc_has_warnings, ends_with_lf, shrunk_line,
};

verus! {

broadcast use vstd::seq::group_seq_axioms;

// ---------------------------------------------------------------------------
// Reading a text behind a prefix
// ---------------------------------------------------------------------------

proof fn lemma_find_shift(p: Seq<char>, t: Seq<char>, c: char, i: int)
    requires
        0 <= i <= t.len(),
    ensures
        find_from(p + t, p.len() + i, c) == p.len() + find_from(t, i, c),
    decreases t.len() - i,
{
    if i < t.len() {
        assert((p + t)[p.len() + i] == t[i]);
        lemma_find_shift(p, t, c, i + 1);
    }
}

proof fn lemma_closing_quote_prefix(p: Seq<char>, t: Seq<char>, i: int)
    requires
        0 <= i,
    ensures
        closing_quote(p + t, p.len() + i) == match closing_quote(t, i) {
            Some(q) => Some(p.len() + q),
            None => None::<int>,
        },
    decreases t.len() - i,
{
    if i < t.len() {
        assert((p + t)[p.len() + i] == t[i]);
        if i + 1 < t.len() {
            assert((p + t)[p.len() + i + 1] == t[i + 1]);
        }
        if t[i] == '"' {
            if i + 1 < t.len() && t[i + 1] == '"' {
                lemma_closing_quote_prefix(p, t, i + 2);
            }
        } else {
            lemma_closing_quote_prefix(p, t, i + 1);
        }
    }
}

proof fn lemma_has_quote_shift(p: Seq<char>, t: Seq<char>, i: int, j: int)
    requires
        0 <= i <= j <= t.len(),
    ensures
        has_quote(p + t, p.len() + i, p.len() + j) == has_quote(t, i, j),
{
    if has_quote(t, i, j) {
        let x = choose|x: int| i <= x < j && t[x] == '"';
        assert((p + t)[p.len() + x] == t[x]);
    }
    if has_quote(p + t, p.len() + i, p.len() + j) {
        let x = choose|x: int| p.len() + i <= x < p.len() + j && (p + t)[x] == '"';
        assert((p + t)[x] == t[x - p.len()]);
    }
}

proof fn lemma_tight_end_shift(p: Seq<char>, t: Seq<char>, start: int, d: char)
    requires
        0 <= start < t.len(),
    ensures
        tight_quoted_end(p + t, p.len() + start, d) == match tight_quoted_end(t, start, d) {
            Some(e) => Some(p.len() + e),
            None => None::<int>,
        },
{
    lemma_closing_quote_prefix(p, t, start + 1);
    lemma_closing_quote(t, start + 1);
    if let Some(q) = closing_quote(t, start + 1) {
        if q + 1 < t.len() {
            assert((p + t)[p.len() + q + 1] == t[q + 1]);
        }
    }
}

/// Quote-aware splitting of a text behind a prefix, from a point after the
/// prefix, does not see the prefix.
proof fn lemma_quoted_fields_shift(p: Seq<char>, t: Seq<char>, d: char, i: int)
    requires
        0 <= i <= t.len(),
    ensures
        quoted_fields_from(p + t, d, p.len() + i) == quoted_fields_from(t, d, i),
    decreases t.len() - i,
{
    let s = p + t;
    let o = p.len() as int;
    if i < t.len() {
        assert(s[o + i] == t[i]);
        lemma_find_shift(p, t, d, i);
        lemma_find_from(t, i, d);
        let f = find_from(t, i, d);
        if t[i] == '"' {
            lemma_tight_end_shift(p, t, i, d);
            lemma_closing_quote(t, i + 1);
            match tight_quoted_end(t, i, d) {
                Some(e) => {
                    assert(s.subrange(o + i, o + e) =~= t.subrange(i, e));
                    if e < t.len() && e + 1 < t.len() {
                        lemma_quoted_fields_shift(p, t, d, e + 1);
                    }
                },
                None => {
                    assert(s.subrange(o + i, o + f) =~= t.subrange(i, f));
                    if f + 1 < t.len() {
                        lemma_quoted_fields_shift(p, t, d, f + 1);
                    }
                },
            }
        } else {
            lemma_has_quote_shift(p, t, i, f);
            assert(s.subrange(o + i, o + f) =~= t.subrange(i, f));
            if f + 1 < t.len() {
                lemma_quoted_fields_shift(p, t, d, f + 1);
            }
        }
    }
}

/// Splitting at each delimiter a text behind a prefix, from a point after
/// the prefix, does not see the prefix.
proof fn lemma_pieces_shift(p: Seq<char>, t: Seq<char>, d: char, i: int)
    requires
        0 <= i <= t.len(),
    ensures
        pieces_from(p + t, d, p.len() + i) == pieces_from(t, d, i),
    decreases t.len() - i,
{
    let s = p + t;
    let o = p.len() as int;
    lemma_find_shift(p, t, d, i);
    lemma_find_from(t, i, d);
    let f = find_from(t, i, d);
    if f < t.len() {
        lemma_pieces_shift(p, t, d, f + 1);
        assert(s.subrange(o + i, o + f) =~= t.subrange(i, f));
    } else {
        assert(s.subrange(o + i, s.len() as int) =~= t.subrange(i, t.len() as int));
    }
}

/// A first piece free of the delimiter, the delimiter, then the rest.
pub proof fn lemma_pieces_cons(f: Seq<char>, s: Seq<char>, d: char)
    requires
        !f.contains(d),
    ensures
        pieces(f + seq![d] + s, d) == seq![f] + pieces(s, d),
{
    let t = f + seq![d] + s;
    assert forall|x: int| 0 <= x < f.len() implies t[x] != d by {
        assert(t[x] == f[x]);
    }
    lemma_find_skip_all(t, d, 0, f.len() as int);
    assert(t[f.len() as int] == d);
    assert(find_from(t, 0, d) == f.len());
    assert(t.subrange(0, f.len() as int) =~= f);
    assert(t =~= (f + seq![d]) + s);
    lemma_pieces_shift(f + seq![d], s, d, 0);
}

/// Fields free of the delimiter, joined by it, split back at it into the
/// same fields.
pub proof fn lemma_pieces_of_join(vs: Seq<Seq<char>>, d: char)
    requires
        vs.len() >= 1,
        forall|i: int| 0 <= i < vs.len() ==> !(#[trigger] vs[i]).contains(d),
    ensures
        pieces(joined_record(vs, d), d) == vs,
    decreases vs.len(),
{
    let f = vs[0];
    let rest = vs.drop_first();
    assert(vs =~= seq![f] + rest);
    lemma_joined_cons(f, rest, d);
    if rest.len() == 0 {
        lemma_find_skip_all(f, d, 0, f.len() as int);
        assert(f.subrange(0, f.len() as int) =~= f);
    } else {
        assert forall|i: int| 0 <= i < rest.len() implies !(#[trigger] rest[i]).contains(d) by {
            assert(rest[i] == vs[i + 1]);
        }
        lemma_pieces_of_join(rest, d);
        lemma_pieces_cons(f, joined_record(rest, d), d);
    }
}

// ---------------------------------------------------------------------------
// Splitting
// ---------------------------------------------------------------------------

/// A field that a quote-aware split gives back unchanged: a complete quoted
/// token (`"..."` with doubled inner quotes), or a field with neither quotes
/// nor the delimiter.
pub open spec fn quotable_field(v: Seq<char>, d: char) -> bool {
    quoted_token(v) || (!v.contains('"') && !v.contains(d))
}

proof fn lemma_quoted_split_of_join(vs: Seq<Seq<char>>, d: char)
    requires
        vs.len() >= 1,
        d != '"',
        forall|i: int| 0 <= i < vs.len() ==> quotable_field(#[trigger] vs[i], d),
        joined_record(vs, d).len() > 0,
    ensures
        quoted_fields_from(joined_record(vs, d), d, 0) == (vs, false),
    decreases vs.len(),
{
    let f = vs[0];
    let rest = vs.drop_first();
    let j = joined_record(vs, d);
    assert(vs =~= seq![f] + rest);
    lemma_joined_cons(f, rest, d);
    assert(quotable_field(vs[0], d));
    if rest.len() > 0 {
        assert forall|i: int| 0 <= i < rest.len() implies quotable_field(#[trigger] rest[i], d) by {
            assert(rest[i] == vs[i + 1]);
        }
    }
    let jr = joined_record(rest, d);
    let n = f.len() as int;
    // Where the first field stops: the end of `j`, or the delimiter at `n`.
    if rest.len() > 0 {
        assert(j == f + seq![d] + jr);
        assert(j[n] == d);
        assert(j =~= (f + seq![d]) + jr);
    } else {
        assert(j == f);
    }
    if quoted_token(f) {
        assert(j[0] == f[0]);
        assert(j.subrange(0, n) =~= f);
        lemma_closing_quote_shift(f, j, 0, 1);
        assert(tight_quoted_end(j, 0, d) == Some(n));
    } else {
        assert forall|x: int| 0 <= x < n implies j[x] != d && j[x] != '"' by {
            assert(j[x] == f[x]);
        }
        lemma_find_skip_all(j, d, 0, n);
        assert(find_from(j, 0, d) == n);
        assert(!has_quote(j, 0, n));
        if n > 0 {
            assert(j[0] == f[0]);
        }
    }
    assert(j.subrange(0, n) =~= f);
    if rest.len() > 0 {
        if jr.len() == 0 {
            assert(rest.len() == 1) by {
                if rest.len() > 1 {
                    lemma_joined_cons(rest[0], rest.drop_first(), d);
                    assert(rest =~= seq![rest[0]] + rest.drop_first());
                }
            }
            lemma_joined_cons(rest[0], Seq::empty(), d);
            assert(rest =~= seq![rest[0]] + Seq::<Seq<char>>::empty());
            assert(rest[0] =~= Seq::<char>::empty());
            assert(vs =~= seq![f, Seq::<char>::empty()]);
        } else {
            lemma_quoted_split_of_join(rest, d);
            lemma_quoted_fields_shift(f + seq![d], jr, d, 0);
        }
    }
}

/// Splitting reads back what writing a record wrote, in every quoted
/// dialect: fields that are complete quoted tokens (with doubled inner
/// quotes, and possibly the delimiter inside) or free of quotes and of the
/// delimiter, joined by the dialect's delimiter, split into exactly those
/// fields with no unbalanced-quote warning.
pub proof fn law_quoted_fields_round_trip(vs: Seq<Seq<char>>, dialect: Dialect)
    requires
        dialect.spec_quoted(),
        vs.len() >= 1,
        forall|i: int| 0 <= i < vs.len() ==> quotable_field(#[trigger] vs[i], dialect.spec_delimiter()),
    ensures
        line_fields(joined_record(vs, dialect.spec_delimiter()), dialect) == (vs, false),
{
    let d = dialect.spec_delimiter();
    let j = joined_record(vs, d);
    if j.contains('"') {
        if j.len() == 0 {
            assert(false);
        }
        lemma_quoted_split_of_join(vs, d);
    } else {
        assert forall|i: int| 0 <= i < vs.len() implies !(#[trigger] vs[i]).contains(d) by {
            if quoted_token(vs[i]) {
                lemma_join_contains_field(vs, d, i);
                assert(vs[i][0] == '"');
                assert(false);
            }
        }
        lemma_pieces_of_join(vs, d);
    }
}

/// Every field's characters appear in the joined record.
proof fn lemma_join_contains_field(vs: Seq<Seq<char>>, d: char, i: int)
    requires
        0 <= i < vs.len(),
    ensures
        forall|x: int| 0 <= x < vs[i].len() ==> joined_record(vs, d).contains(#[trigger] vs[i][x]),
    decreases vs.len(),
{
    let f = vs[0];
    let rest = vs.drop_first();
    assert(vs =~= seq![f] + rest);
    lemma_joined_cons(f, rest, d);
    let j = joined_record(vs, d);
    if i == 0 {
        assert forall|x: int| 0 <= x < f.len() implies j.contains(#[trigger] vs[i][x]) by {
            assert(j[x] == f[x]);
        }
    } else {
        assert(vs[i] == rest[i - 1]);
        lemma_join_contains_field(rest, d, i - 1);
        let jr = joined_record(rest, d);
        assert forall|x: int| 0 <= x < vs[i].len() implies j.contains(#[trigger] vs[i][x]) by {
            assert(jr.contains(rest[i - 1][x]));
            let y = choose|y: int| 0 <= y < jr.len() && jr[y] == rest[i - 1][x];
            assert(j[f.len() + 1 + y] == jr[y]);
        }
    }
}

// ---------------------------------------------------------------------------
// Whitespace align
// ---------------------------------------------------------------------------

/// The fields of `r` as Align writes them: every field but the last followed
/// by the spaces that bring it to its column width.
pub open spec fn padded_fields(r: Seq<Seq<char>>, widths: Seq<usize>) -> Seq<Seq<char>> {
    Seq::new(
        r.len(),
        |i: int|
            if i + 1 < r.len() {
                r[i] + spaces(pad_for(widths, i, r[i]))
            } else {
                r[i]
            },
    )
}

proof fn lemma_aligned_is_join_from(r: Seq<Seq<char>>, widths: Seq<usize>, d: char, k: int)
    requires
        0 <= k <= r.len(),
    ensures
        joined_from(r, widths, d, k) == joined_from(padded_fields(r, widths), Seq::empty(), d, k),
    decreases r.len() - k,
{
    let pf = padded_fields(r, widths);
    if k < r.len() {
        lemma_aligned_is_join_from(r, widths, d, k + 1);
        if k + 1 < r.len() {
            assert(spaces(pad_for(Seq::<usize>::empty(), k, pf[k])) =~= Seq::<char>::empty());
            assert(pf[k] + spaces(pad_for(Seq::<usize>::empty(), k, pf[k])) =~= pf[k]);
        }
    }
}

/// Align writes a record as its padded fields joined by the delimiter.
proof fn lemma_aligned_is_join(r: Seq<Seq<char>>, widths: Seq<usize>, d: char)
    ensures
        aligned_record(r, widths, d) == joined_record(padded_fields(r, widths), d),
{
    lemma_aligned_is_join_from(r, widths, d, 0);
}

/// A laid-out record ends with its last field, after the delimiter when
/// there is more than one field.
proof fn lemma_joined_ends(r: Seq<Seq<char>>, widths: Seq<usize>, d: char, k: int)
    requires
        0 <= k < r.len(),
    ensures
        ({
            let j = joined_from(r, widths, d, k);
            &&& j.len() >= r.last().len()
            &&& j.subrange(j.len() - r.last().len(), j.len() as int) == r.last()
            &&& k + 1 < r.len() ==> j[j.len() - r.last().len() - 1] == d
        }),
    decreases r.len() - k,
{
    let j = joined_from(r, widths, d, k);
    if k + 1 == r.len() {
        assert(j.subrange(0, j.len() as int) =~= j);
    } else {
        lemma_joined_ends(r, widths, d, k + 1);
        let a = r[k] + spaces(pad_for(widths, k, r[k])) + seq![d];
        let jr = joined_from(r, widths, d, k + 1);
        assert(j == a + jr);
        assert(j.subrange(j.len() - r.last().len(), j.len() as int) =~= jr.subrange(
            jr.len() - r.last().len(),
            jr.len() as int,
        ));
        if k + 2 == r.len() {
            assert(jr == r.last());
            assert(j[j.len() - r.last().len() - 1] == a[a.len() - 1]);
        } else {
            assert(j[j.len() - r.last().len() - 1] == jr[jr.len() - r.last().len() - 1]);
        }
    }
}

/// No aligned line ends in padding: for a line without unbalanced quotes,
/// Align writes the record's last field as its trimmed value at the very end
/// of the line, right after the delimiter when there are several fields,
/// whatever the record's length and the column widths.
pub proof fn law_aligned_line_ends_with_last_field(l: Seq<char>, dialect: Dialect, widths: Seq<usize>)
    requires
        !line_fields(strip_cr(l), dialect).1,
    ensures
        ({
            let a = aligned_line(l, dialect, widths);
            let r = record_of(l, dialect);
            &&& r.len() >= 1
            &&& a.len() >= r.last().len()
            &&& a.subrange(a.len() - r.last().len(), a.len() as int) == r.last()
            &&& r.len() >= 2 ==> a[a.len() - r.last().len() - 1] == dialect.spec_delimiter()
        }),
{
    law_split_round_trip(strip_cr(l), dialect);
    let r = record_of(l, dialect);
    lemma_joined_ends(r, widths, dialect.spec_delimiter(), 0);
}

/// The pieces of `s[i..]` hold no delimiter, and nothing that `s` lacks.
proof fn lemma_pieces_free(s: Seq<char>, d: char, i: int, c: char)
    requires
        0 <= i <= s.len(),
        c == d || !s.contains(c),
    ensures
        forall|k: int| 0 <= k < pieces_from(s, d, i).len() ==> !(#[trigger] pieces_from(s, d, i)[k]).contains(c),
    decreases s.len() - i,
{
    lemma_find_from(s, i, d);
    let p = find_from(s, i, d);
    let f = s.subrange(i, p);
    assert(!f.contains(c)) by {
        if f.contains(c) {
            let x = choose|x: int| 0 <= x < f.len() && f[x] == c;
            assert(s[i + x] == c);
        }
    }
    if p < s.len() {
        lemma_pieces_free(s, d, p + 1, c);
        let rest = pieces_from(s, d, p + 1);
        assert forall|k: int| 0 <= k < pieces_from(s, d, i).len() implies !(#[trigger] pieces_from(s, d, i)[k]).contains(c) by {
            if k > 0 {
                assert(pieces_from(s, d, i)[k] == rest[k - 1]);
            }
        }
    }
}

/// A character of a joined record is the delimiter or a character of a
/// field.
proof fn lemma_join_chars(vs: Seq<Seq<char>>, d: char, c: char)
    requires
        vs.len() >= 1,
        c != d,
        forall|i: int| 0 <= i < vs.len() ==> !(#[trigger] vs[i]).contains(c),
    ensures
        !joined_record(vs, d).contains(c),
    decreases vs.len(),
{
    let f = vs[0];
    let rest = vs.drop_first();
    assert(vs =~= seq![f] + rest);
    lemma_joined_cons(f, rest, d);
    assert(!f.contains(c));
    if rest.len() > 0 {
        assert forall|i: int| 0 <= i < rest.len() implies !(#[trigger] rest[i]).contains(c) by {
            assert(rest[i] == vs[i + 1]);
        }
        lemma_join_chars(rest, d, c);
        let j = joined_record(vs, d);
        let jr = joined_record(rest, d);
        if j.contains(c) {
            let x = choose|x: int| 0 <= x < j.len() && j[x] == c;
            if x < f.len() {
                assert(j[x] == f[x]);
            } else if x > f.len() {
                assert(j[x] == jr[x - f.len() - 1]);
            }
        }
    }
}

/// The record of a line without quotes: its pieces, trimmed, each free of
/// the delimiter and of quotes.
proof fn lemma_quote_free_record(l: Seq<char>, dialect: Dialect)
    requires
        !strip_cr(l).contains('"'),
    ensures
        line_fields(strip_cr(l), dialect) == (pieces(strip_cr(l), dialect.spec_delimiter()), false),
        record_of(l, dialect).len() >= 1,
        forall|i: int|
            0 <= i < record_of(l, dialect).len() ==> is_trimmed(#[trigger] record_of(l, dialect)[i])
                && !record_of(l, dialect)[i].contains(dialect.spec_delimiter())
                && !record_of(l, dialect)[i].contains('"'),
{
    let d = dialect.spec_delimiter();
    let sl = strip_cr(l);
    let ps = pieces(sl, d);
    let r = record_of(l, dialect);
    law_split_round_trip(sl, dialect);
    lemma_pieces_free(sl, d, 0, d);
    lemma_pieces_free(sl, d, 0, '"');
    assert forall|i: int| 0 <= i < r.len() implies is_trimmed(#[trigger] r[i]) && !r[i].contains(d)
        && !r[i].contains('"') by {
        assert(r[i] == trim(ps[i]));
        lemma_trim_is_trimmed(ps[i]);
        lemma_trim_sub(ps[i], d);
        lemma_trim_sub(ps[i], '"');
    }
}

/// Padded trimmed fields free of `d` and of quotes stay free of them, and
/// trim back to the fields.
proof fn lemma_padded_clean(r: Seq<Seq<char>>, widths: Seq<usize>, d: char)
    requires
        d != ' ',
        forall|i: int| 0 <= i < r.len() ==> is_trimmed(#[trigger] r[i]) && !r[i].contains(d) && !r[i].contains('"'),
    ensures
        forall|i: int|
            0 <= i < r.len() ==> !(#[trigger] padded_fields(r, widths)[i]).contains(d)
                && !padded_fields(r, widths)[i].contains('"') && trim(padded_fields(r, widths)[i]) == r[i],
{
    let pf = padded_fields(r, widths);
    assert forall|i: int| 0 <= i < r.len() implies !(#[trigger] pf[i]).contains(d) && !pf[i].contains('"')
        && trim(pf[i]) == r[i] by {
        assert(is_trimmed(r[i]) && !r[i].contains(d) && !r[i].contains('"'));
        if i + 1 < r.len() {
            let sp = spaces(pad_for(widths, i, r[i]));
            assert(pf[i] == r[i] + sp);
            if pf[i].contains(d) {
                let x = choose|x: int| 0 <= x < pf[i].len() && pf[i][x] == d;
                if x < r[i].len() {
                    assert(pf[i][x] == r[i][x]);
                }
            }
            if pf[i].contains('"') {
                let x = choose|x: int| 0 <= x < pf[i].len() && pf[i][x] == '"';
                if x < r[i].len() {
                    assert(pf[i][x] == r[i][x]);
                }
            }
            lemma_trim_padded(r[i], pad_for(widths, i, r[i]));
        } else {
            lemma_trim_trimmed(r[i]);
        }
    }
}

/// A laid-out record of trimmed fields does not end with a carriage return.
proof fn lemma_aligned_no_cr(r: Seq<Seq<char>>, widths: Seq<usize>, d: char)
    requires
        r.len() >= 1,
        d != '\r',
        forall|i: int| 0 <= i < r.len() ==> is_trimmed(#[trigger] r[i]),
    ensures
        strip_cr(aligned_record(r, widths, d)) == aligned_record(r, widths, d),
{
    let a = aligned_record(r, widths, d);
    lemma_joined_ends(r, widths, d, 0);
    if a.len() > 0 && a.last() == '\r' {
        if r.last().len() > 0 {
            assert(a.last() == r.last().last());
            assert(is_trimmed(r[r.len() - 1]));
            assert(is_whitespace('\r'));
        } else if r.len() >= 2 {
            assert(a.last() == d);
        } else {
            assert(a == r.last());
        }
    }
}

/// Align keeps the document's dialect: a line without quotes, aligned, then
/// split in the same dialect and trimmed, gives back the line's record, with
/// no warning. The delimiter Align writes is the one the dialect splits at.
pub proof fn law_aligned_line_keeps_record(l: Seq<char>, dialect: Dialect, widths: Seq<usize>)
    requires
        !strip_cr(l).contains('"'),
    ensures
        !line_fields(strip_cr(aligned_line(l, dialect, widths)), dialect).1,
        record_of(aligned_line(l, dialect, widths), dialect) == record_of(l, dialect),
{
    let d = dialect.spec_delimiter();
    let r = record_of(l, dialect);
    lemma_quote_free_record(l, dialect);
    let pf = padded_fields(r, widths);
    let a = aligned_line(l, dialect, widths);
    assert(a == aligned_record(r, widths, d));
    lemma_aligned_is_join(r, widths, d);
    lemma_padded_clean(r, widths, d);
    lemma_pieces_of_join(pf, d);
    lemma_join_chars(pf, d, '"');
    lemma_aligned_no_cr(r, widths, d);
    assert(line_fields(a, dialect) == (pf, false));
    assert(record_of(a, dialect) =~= r);
}

/// Shrink keeps the document's dialect too: a line without quotes, shrunk,
/// then split in the same dialect and trimmed, gives back the line's record,
/// with no warning, and keeps its carriage return.
pub proof fn law_shrunk_line_keeps_record(l: Seq<char>, dialect: Dialect)
    requires
        !strip_cr(l).contains('"'),
    ensures
        !line_fields(strip_cr(shrunk_line(l, dialect)), dialect).1,
        record_of(shrunk_line(l, dialect), dialect) == record_of(l, dialect),
        (shrunk_line(l, dialect).len() > 0 && shrunk_line(l, dialect).last() == '\r') == (l.len() > 0
            && l.last() == '\r'),
{
    let d = dialect.spec_delimiter();
    let r = record_of(l, dialect);
    let e = Seq::<usize>::empty();
    lemma_quote_free_record(l, dialect);
    let pf = padded_fields(r, e);
    let j = joined_record(r, d);
    assert(j == aligned_record(r, e, d));
    lemma_aligned_is_join(r, e, d);
    lemma_padded_clean(r, e, d);
    lemma_pieces_of_join(pf, d);
    lemma_join_chars(pf, d, '"');
    lemma_aligned_no_cr(r, e, d);
    let sh = shrunk_line(l, dialect);
    if l.len() > 0 && l.last() == '\r' {
        assert(sh == j + seq!['\r']);
        assert(sh.drop_last() =~= j);
    } else {
        assert(sh =~= j);
    }
    assert(strip_cr(sh) == j);
    assert(line_fields(j, dialect) == (pf, false));
    assert(record_of(sh, dialect) =~= r);
}

// ---------------------------------------------------------------------------
// Virtual-align pads
// ---------------------------------------------------------------------------

/// Laid out with delimiters, a record takes one character less than the
/// room [`prefix_len`] counts for its fields.
proof fn lemma_joined_len(vs: Seq<Seq<char>>, d: char)
    requires
        vs.len() >= 1,
    ensures
        joined_record(vs, d).len() + 1 == prefix_len(vs, vs.len() as int),
    decreases vs.len(),
{
    let f = vs[0];
    let rest = vs.drop_first();
    assert(vs =~= seq![f] + rest);
    lemma_joined_cons(f, rest, d);
    lemma_prefix_len_cons(f, rest, rest.len() as int);
    if rest.len() > 0 {
        lemma_joined_len(rest, d);
    } else {
        assert(prefix_len(rest, 0) == 0);
    }
}

/// The room of the first `j` fields does not depend on later fields.
proof fn lemma_prefix_len_take(r: Seq<Seq<char>>, k: int, j: int)
    requires
        0 <= j <= k <= r.len(),
    ensures
        prefix_len(r.take(k), j) == prefix_len(r, j),
    decreases j,
{
    if j > 0 {
        lemma_prefix_len_take(r, k, j - 1);
        assert(r.take(k)[j - 1] == r[j - 1]);
    }
}

/// The pad Align's virtual counterpart shows after field `i` of record `r`
/// on line `line`: as many spaces as field `i` lacks of its column width,
/// placed where field `i` ends when the record is written unpadded (the
/// length of fields `0..=i` joined by a one-character delimiter).
pub open spec fn pad_after_field(r: Seq<Seq<char>>, widths: Seq<usize>, line: u32, i: int, d: char) -> VirtualPad {
    VirtualPad {
        line,
        col: joined_record(r.take(i + 1), d).len() as u32,
        spaces: pad_for(widths, i, r[i]) as usize,
    }
}

/// A field that gets a virtual pad: not the last, and narrower than its
/// column.
pub open spec fn padded_field(r: Seq<Seq<char>>, widths: Seq<usize>, i: int) -> bool {
    0 <= i && i + 1 < r.len() && pad_for(widths, i, r[i]) > 0
}

/// `p` is the pad after one of the fields `0..k` of `r` that get one.
pub open spec fn pad_of_field(p: VirtualPad, r: Seq<Seq<char>>, widths: Seq<usize>, line: u32, d: char, k: int) -> bool {
    exists|i: int| #![trigger padded_field(r, widths, i)]
        i < k && padded_field(r, widths, i) && p == pad_after_field(r, widths, line, i, d)
}

proof fn lemma_record_pads_upto(r: Seq<Seq<char>>, widths: Seq<usize>, line: u32, d: char, k: int)
    requires
        0 <= k <= r.len(),
    ensures
        forall|i: int|
            i < k && padded_field(r, widths, i) ==> record_pads_upto(r, widths, line, k).contains(
                #[trigger] pad_after_field(r, widths, line, i, d),
            ),
        forall|m: int|
            0 <= m < record_pads_upto(r, widths, line, k).len() ==> pad_of_field(
                #[trigger] record_pads_upto(r, widths, line, k)[m],
                r,
                widths,
                line,
                d,
                k,
            ),
        forall|a: int, b: int|
            0 <= a < b < record_pads_upto(r, widths, line, k).len() ==> (#[trigger] record_pads_upto(
                r,
                widths,
                line,
                k,
            )[a]).col != (#[trigger] record_pads_upto(r, widths, line, k)[b]).col
                || prefix_len(r, r.len() as int) > u32::MAX,
    decreases k,
{
    if k > 0 {
        let i = k - 1;
        lemma_record_pads_upto(r, widths, line, d, i);
        let prev = record_pads_upto(r, widths, line, i);
        let cur = record_pads_upto(r, widths, line, k);
        if padded_field(r, widths, i) {
            lemma_joined_len(r.take(i + 1), d);
            lemma_prefix_len_take(r, i + 1, i + 1);
            assert(r.take(i + 1).len() == i + 1);
            let p = pad_after_field(r, widths, line, i, d);
            assert(prefix_len(r, i + 1) == prefix_len(r, i) + r[i].len() + 1);
            assert(cur == prev.push(p));
            assert(cur[prev.len() as int] == p);
            assert forall|j: int| j < k && padded_field(r, widths, j) implies cur.contains(
                #[trigger] pad_after_field(r, widths, line, j, d),
            ) by {
                if j < i {
                    let x = choose|x: int| 0 <= x < prev.len() && prev[x] == pad_after_field(r, widths, line, j, d);
                    assert(cur[x] == prev[x]);
                }
            }
            assert forall|m: int| 0 <= m < cur.len() implies pad_of_field(#[trigger] cur[m], r, widths, line, d, k) by {
                if m < prev.len() {
                    assert(cur[m] == prev[m]);
                    assert(pad_of_field(prev[m], r, widths, line, d, i));
                    let j = choose|j: int| j < i && padded_field(r, widths, j) && prev[m] == pad_after_field(r, widths, line, j, d);
                    assert(j < k && padded_field(r, widths, j) && cur[m] == pad_after_field(r, widths, line, j, d));
                } else {
                    assert(i < k && padded_field(r, widths, i) && cur[m] == pad_after_field(r, widths, line, i, d));
                }
            }
            assert forall|a: int, b: int| 0 <= a < b < cur.len() implies (#[trigger] cur[a]).col != (#[trigger] cur[b]).col
                || prefix_len(r, r.len() as int) > u32::MAX by {
                if b < prev.len() {
                    assert(cur[a] == prev[a] && cur[b] == prev[b]);
                } else if prefix_len(r, r.len() as int) <= u32::MAX {
                    assert(cur[a] == prev[a]);
                    assert(pad_of_field(prev[a], r, widths, line, d, i));
                    let j = choose|j: int| j < i && padded_field(r, widths, j) && prev[a] == pad_after_field(r, widths, line, j, d);
                    lemma_joined_len(r.take(j + 1), d);
                    lemma_prefix_len_take(r, j + 1, j + 1);
                    assert(r.take(j + 1).len() == j + 1);
                    super::document::lemma_prefix_len_mono(r, j + 1, i);
                    super::document::lemma_prefix_len_mono(r, i + 1, r.len() as int);
                    super::document::lemma_prefix_len_mono(r, i, i + 1);
                }
            }
        } else {
            assert(cur == prev);
            assert forall|m: int| 0 <= m < cur.len() implies pad_of_field(#[trigger] cur[m], r, widths, line, d, k) by {
                assert(pad_of_field(prev[m], r, widths, line, d, i));
                let j = choose|j: int| j < i && padded_field(r, widths, j) && prev[m] == pad_after_field(r, widths, line, j, d);
                assert(j < k && padded_field(r, widths, j) && cur[m] == pad_after_field(r, widths, line, j, d));
            }
        }
    }
}

/// Where virtual pads go: the pads of a record are exactly one per field
/// that is not the last and is narrower than its column, each adding the
/// spaces that field lacks and placed where that field ends in the record
/// written unpadded (its fields and one delimiter between each two, so on a
/// line written that way, right before the delimiter after the field). No
/// two pads share a column when the record's columns fit a `u32`.
pub proof fn law_record_pad_columns(r: Seq<Seq<char>>, widths: Seq<usize>, line: u32, d: char)
    ensures
        forall|i: int|
            padded_field(r, widths, i) ==> record_pads_upto(r, widths, line, r.len() as int).contains(
                #[trigger] pad_after_field(r, widths, line, i, d),
            ),
        forall|m: int|
            0 <= m < record_pads_upto(r, widths, line, r.len() as int).len() ==> pad_of_field(
                #[trigger] record_pads_upto(r, widths, line, r.len() as int)[m],
                r,
                widths,
                line,
                d,
                r.len() as int,
            ),
        prefix_len(r, r.len() as int) <= u32::MAX ==> forall|a: int, b: int|
            0 <= a < b < record_pads_upto(r, widths, line, r.len() as int).len() ==> (
            #[trigger] record_pads_upto(r, widths, line, r.len() as int)[a]).col != (
            #[trigger] record_pads_upto(r, widths, line, r.len() as int)[b]).col,
{
    let k = r.len() as int;
    lemma_record_pads_upto(r, widths, line, d, k);
}

// ---------------------------------------------------------------------------
// Line endings
// ---------------------------------------------------------------------------

/// A document written from its lines, each followed by `ending`.
pub open spec fn lines_text(ls: Seq<Seq<char>>, ending: Seq<char>) -> Seq<char>
    decreases ls.len(),
{
    if ls.len() == 0 {
        Seq::empty()
    } else {
        ls[0] + ending + lines_text(ls.drop_first(), ending)
    }
}

proof fn lemma_lines_text_pieces(ls: Seq<Seq<char>>, x: Seq<char>)
    requires
        !x.contains('\n'),
        forall|i: int| 0 <= i < ls.len() ==> !(#[trigger] ls[i]).contains('\n'),
    ensures
        pieces(lines_text(ls, x.push('\n')), '\n') == ls.map_values(|l: Seq<char>| l + x).push(
            Seq::empty(),
        ),
    decreases ls.len(),
{
    let e = x.push('\n');
    if ls.len() == 0 {
        let t = Seq::<char>::empty();
        assert(find_from(t, 0, '\n') == 0);
        assert(t.subrange(0, 0) =~= t);
        assert(pieces(t, '\n') =~= seq![t]);
        assert(ls.map_values(|l: Seq<char>| l + x).push(Seq::empty()) =~= seq![t]);
    } else {
        let rest = ls.drop_first();
        assert forall|i: int| 0 <= i < rest.len() implies !(#[trigger] rest[i]).contains('\n') by {
            assert(rest[i] == ls[i + 1]);
        }
        lemma_lines_text_pieces(rest, x);
        let f = ls[0] + x;
        assert(!f.contains('\n')) by {
            if f.contains('\n') {
                let y = choose|y: int| 0 <= y < f.len() && f[y] == '\n';
                if y < ls[0].len() {
                    assert(f[y] == ls[0][y]);
                } else {
                    assert(f[y] == x[y - ls[0].len()]);
                }
            }
        }
        let t = lines_text(rest, e);
        assert(lines_text(ls, e) =~= f + seq!['\n'] + t);
        lemma_pieces_cons(f, t, '\n');
        assert(ls.map_values(|l: Seq<char>| l + x).push(Seq::empty()) =~= seq![f] + rest.map_values(
            |l: Seq<char>| l + x,
        ).push(Seq::empty()));
    }
}

proof fn lemma_lines_text_lines(ls: Seq<Seq<char>>, x: Seq<char>)
    requires
        !x.contains('\n'),
        forall|i: int| 0 <= i < ls.len() ==> !(#[trigger] ls[i]).contains('\n'),
    ensures
        ls.len() > 0 ==> doc_lines(lines_text(ls, x.push('\n'))) == ls.map_values(|l: Seq<char>| l + x),
        ls.len() == 0 ==> doc_lines(lines_text(ls, x.push('\n'))) == seq![Seq::<char>::empty()],
{
    let e = x.push('\n');
    let t = lines_text(ls, e);
    lemma_lines_text_pieces(ls, x);
    if ls.len() > 0 {
        lemma_lines_text_end(ls, e);
        assert(ends_with_lf(t));
        assert(ls.map_values(|l: Seq<char>| l + x).push(Seq::empty()).drop_last() =~= ls.map_values(
            |l: Seq<char>| l + x,
        ));
    } else {
        assert(t.len() == 0);
        assert(ls.map_values(|l: Seq<char>| l + x).push(Seq::empty()) =~= seq![Seq::<char>::empty()]);
    }
}

proof fn lemma_lines_text_end(ls: Seq<Seq<char>>, e: Seq<char>)
    requires
        ls.len() > 0,
        e.len() > 0,
    ensures
        lines_text(ls, e).len() > 0,
        lines_text(ls, e).last() == e.last(),
    decreases ls.len(),
{
    let rest = ls.drop_first();
    let t = lines_text(rest, e);
    assert(lines_text(ls, e) == ls[0] + e + t);
    if rest.len() > 0 {
        lemma_lines_text_end(rest, e);
    } else {
        assert(t.len() == 0);
        assert(ls[0] + e + t =~= ls[0] + e);
    }
}

/// Whether a document has unbalanced quotes does not depend on its line
/// endings: lines without line breaks, written with LF endings or with CR LF
/// endings, give documents that both have or both lack an unbalanced line.
pub proof fn law_warnings_ignore_line_endings(ls: Seq<Seq<char>>, dialect: Dialect)
    requires
        forall|i: int| 0 <= i < ls.len() ==> !(#[trigger] ls[i]).contains('\n') && !ls[i].contains('\r'),
    ensures
        doc_has_warnings(lines_text(ls, seq!['\n']), dialect) == doc_has_warnings(
            lines_text(ls, seq!['\r', '\n']),
            dialect,
        ),
{
    let lf = lines_text(ls, seq!['\n']);
    let crlf = lines_text(ls, seq!['\r', '\n']);
    let none = Seq::<char>::empty();
    let cr = seq!['\r'];
    assert(none.push('\n') =~= seq!['\n']);
    assert(cr.push('\n') =~= seq!['\r', '\n']);
    assert(!cr.contains('\n')) by {
        if cr.contains('\n') {
            let y = choose|y: int| 0 <= y < cr.len() && cr[y] == '\n';
            assert(cr[y] == '\r');
        }
    }
    lemma_lines_text_lines(ls, none);
    lemma_lines_text_lines(ls, cr);
    let a = doc_lines(lf);
    let b = doc_lines(crlf);
    assert(a.len() == b.len());
    assert forall|k: int| 0 <= k < a.len() implies strip_cr(#[trigger] a[k]) == strip_cr(b[k]) by {
        if ls.len() > 0 {
            assert(a[k] == ls[k] + none);
            assert(ls[k] + none =~= ls[k]);
            assert(b[k] == ls[k] + cr);
            assert((ls[k] + cr).drop_last() =~= ls[k]);
            if ls[k].len() > 0 && ls[k].last() == '\r' {
                assert(ls[k].contains('\r'));
            }
        }
    }
    if doc_has_warnings(lf, dialect) {
        let k = choose|k: int| 0 <= k < a.len() && line_fields(strip_cr(a[k]), dialect).1;
        assert(line_fields(strip_cr(b[k]), dialect).1);
    }
    if doc_has_warnings(crlf, dialect) {
        let k = choose|k: int| 0 <= k < b.len() && line_fields(strip_cr(b[k]), dialect).1;
        assert(line_fields(strip_cr(a[k]), dialect).1);
    }
}

} // verus!
