//! Splitting one line into raw field texts, with literal `"..."` fields.
use vstd::prelude::*;
use crate::text::{chars_of, string_of, unicode_str_width, unicode_width_of};
use crate::rainbow_csv_core::split::{
    closing_quote, find_from, has_quote, lemma_closing_quote, lemma_find_from, find_byte,
    has_quote_in,
};
use super::dialect::Dialect;

verus! {

broadcast use vstd::seq::group_seq_axioms;

// ---------------------------------------------------------------------------
// Model
// ---------------------------------------------------------------------------

/// The pieces of `s[i..]` between occurrences of `d`, as `str::split` yields
/// them (`s[i..]` itself when `d` does not occur).
pub open spec fn pieces_from(s: Seq<char>, d: char, i: int) -> Seq<Seq<char>>
    decreases s.len() - i,
{
    if i < 0 || i > s.len() {
        Seq::empty()
    } else {
        let p = find_from(s, i, d);
        if p < s.len() {
            proof {
                lemma_find_from(s, i, d);
            }
            seq![s.subrange(i, p)] + pieces_from(s, d, p + 1)
        } else {
            seq![s.subrange(i, s.len() as int)]
        }
    }
}

/// The pieces of `s` between occurrences of `d`.
pub open spec fn pieces(s: Seq<char>, d: char) -> Seq<Seq<char>> {
    pieces_from(s, d, 0)
}

/// For a quote at `start`: the index just past its closing quote, when the
/// delimiter or the end of the line directly follows that quote.
pub open spec fn tight_quoted_end(s: Seq<char>, start: int, d: char) -> Option<int> {
    match closing_quote(s, start + 1) {
        Some(q) => if q + 1 == s.len() || s[q + 1] == d {
            Some(q + 1)
        } else {
            None
        },
        None => None,
    }
}

/// Fields of `s[i..]` split quote-aware, and whether one of them has
/// unbalanced quotes. A well-formed quoted field keeps its quotes; any other
/// field runs to the next delimiter.
pub open spec fn quoted_fields_from(s: Seq<char>, d: char, i: int) -> (Seq<Seq<char>>, bool)
    decreases s.len() - i,
{
    if i < 0 || i >= s.len() {
        (Seq::empty(), false)
    } else if s[i] == '"' {
        match tight_quoted_end(s, i, d) {
            Some(e) => {
                let f = s.subrange(i, e);
                if e >= s.len() {
                    (seq![f], false)
                } else if e + 1 == s.len() {
                    (seq![f, Seq::empty()], false)
                } else {
                    proof {
                        lemma_closing_quote(s, i + 1);
                    }
                    let r = quoted_fields_from(s, d, e + 1);
                    (seq![f] + r.0, r.1)
                }
            },
            None => {
                let p = find_from(s, i, d);
                let f = s.subrange(i, p);
                if p >= s.len() {
                    (seq![f], true)
                } else if p + 1 == s.len() {
                    (seq![f, Seq::empty()], true)
                } else {
                    proof {
                        lemma_find_from(s, i, d);
                    }
                    let r = quoted_fields_from(s, d, p + 1);
                    (seq![f] + r.0, true)
                }
            },
        }
    } else {
        let p = find_from(s, i, d);
        let f = s.subrange(i, p);
        let w = has_quote(s, i, p);
        if p >= s.len() {
            (seq![f], w)
        } else if p + 1 == s.len() {
            (seq![f, Seq::empty()], w)
        } else {
            proof {
                lemma_find_from(s, i, d);
            }
            let r = quoted_fields_from(s, d, p + 1);
            (seq![f] + r.0, w || r.1)
        }
    }
}

/// Raw fields of a line in `dialect` and its unbalanced-quote flag: quoted
/// dialects split quote-aware when the line holds a `"`, every other line is
/// split at each delimiter.
pub open spec fn line_fields(s: Seq<char>, dialect: Dialect) -> (Seq<Seq<char>>, bool) {
    if !dialect.spec_quoted() || !s.contains('"') {
        (pieces(s, dialect.spec_delimiter()), false)
    } else {
        quoted_fields_from(s, dialect.spec_delimiter(), 0)
    }
}

// ---------------------------------------------------------------------------
// Splitting
// ---------------------------------------------------------------------------

/// Appends the pieces of `cs[from..]` between occurrences of `d` to `out`.
pub(crate) fn push_pieces(cs: &[char], d: char, from: usize, out: &mut Vec<String>)
    requires
        from <= cs@.len(),
    ensures
        final(out).deep_view() == old(out).deep_view() + pieces_from(cs@, d, from as int),
{
    let ghost total = old(out).deep_view() + pieces_from(cs@, d, from as int);
    let n = cs.len();
    let mut i = from;
    loop
        invariant_except_break
            i <= n == cs@.len(),
            out.deep_view() + pieces_from(cs@, d, i as int) == total,
        ensures
            out.deep_view() == total,
        decreases cs@.len() - i,
    {
        let ghost before = out.deep_view();
        proof {
            lemma_find_from(cs@, i as int, d);
        }
        match find_byte(cs, i, d) {
            Some(p) => {
                let piece = string_of(cs, i, p);
                out.push(piece);
                assert(out.deep_view() =~= before.push(cs@.subrange(i as int, p as int)));
                assert(out.deep_view() + pieces_from(cs@, d, p + 1) =~= before + pieces_from(
                    cs@,
                    d,
                    i as int,
                ));
                i = p + 1;
            },
            None => {
                let piece = string_of(cs, i, n);
                out.push(piece);
                assert(out.deep_view() =~= before + pieces_from(cs@, d, i as int));
                break;
            },
        }
    }
}

/// Index just past the quote closing the field whose opening quote is at
/// `start`, when the delimiter or the end of the line directly follows it.
fn tight_quoted_end_at(cs: &[char], start: usize, d: char) -> (r: Option<usize>)
    requires
        start < cs@.len(),
    ensures
        r == (match tight_quoted_end(cs@, start as int, d) {
            Some(e) => Some(e as usize),
            None => None::<usize>,
        }),
{
    let n = cs.len();
    let mut i = start + 1;
    while i < n
        invariant
            start + 1 <= i <= n,
            n == cs@.len(),
            closing_quote(cs@, start as int + 1) == closing_quote(cs@, i as int),
        decreases n - i,
    {
        if cs[i] == '"' {
            if i + 1 < n && cs[i + 1] == '"' {
                i += 2;
                continue;
            }
            let end = i + 1;
            if end == n || cs[end] == d {
                return Some(end);
            }
            return None;
        }
        i += 1;
    }
    None
}

/// Quote-aware split of `cs` appended to `out`; returns the unbalanced-quote
/// flag.
fn split_quoted(cs: &[char], d: char, out: &mut Vec<String>) -> (warning: bool)
    ensures
        final(out).deep_view() == old(out).deep_view() + quoted_fields_from(cs@, d, 0).0,
        warning == quoted_fields_from(cs@, d, 0).1,
{
    let n = cs.len();
    let ghost total = quoted_fields_from(cs@, d, 0);
    let mut warning = false;
    let mut i: usize = 0;
    while i < n
        invariant
            i <= n == cs@.len(),
            out.deep_view() + quoted_fields_from(cs@, d, i as int).0 == old(out).deep_view()
                + total.0,
            (warning || quoted_fields_from(cs@, d, i as int).1) == total.1,
        decreases n - i,
    {
        let ghost i0 = i as int;
        let ghost before = out.deep_view();
        let ghost rest = quoted_fields_from(cs@, d, i0);
        proof {
            lemma_find_from(cs@, i0, d);
        }
        if cs[i] == '"' {
            proof {
                lemma_closing_quote(cs@, i0 + 1);
            }
            match tight_quoted_end_at(cs, i, d) {
                Some(e) => {
                    out.push(string_of(cs, i, e));
                    if e < n {
                        i = e + 1;
                        if i == n {
                            out.push(String::new());
                        }
                    } else {
                        i = n;
                    }
                },
                None => {
                    warning = true;
                    match find_byte(cs, i, d) {
                        Some(p) => {
                            out.push(string_of(cs, i, p));
                            i = p + 1;
                            if i == n {
                                out.push(String::new());
                            }
                        },
                        None => {
                            out.push(string_of(cs, i, n));
                            i = n;
                        },
                    }
                },
            }
        } else {
            match find_byte(cs, i, d) {
                Some(p) => {
                    if has_quote_in(cs, i, p) {
                        warning = true;
                    }
                    out.push(string_of(cs, i, p));
                    i = p + 1;
                    if i == n {
                        out.push(String::new());
                    }
                },
                None => {
                    if has_quote_in(cs, i, n) {
                        warning = true;
                    }
                    out.push(string_of(cs, i, n));
                    i = n;
                },
            }
        }
        assert(out.deep_view() + quoted_fields_from(cs@, d, i as int).0 =~= before + rest.0);
    }
    warning
}

/// Splits `cs` into raw fields appended to `out`; returns the
/// unbalanced-quote flag.
pub(crate) fn split_chars(cs: &[char], dialect: Dialect, out: &mut Vec<String>) -> (warning:
    bool)
    ensures
        final(out).deep_view() == old(out).deep_view() + line_fields(cs@, dialect).0,
        warning == line_fields(cs@, dialect).1,
{
    let d = dialect.delimiter();
    if !dialect.quoted() || !has_quote_in(cs, 0, cs.len()) {
        proof {
            if cs@.contains('"') {
                let x = choose|x: int| 0 <= x < cs@.len() && cs@[x] == '"';
                assert(has_quote(cs@, 0, cs@.len() as int));
            }
        }
        push_pieces(cs, d, 0, out);
        return false;
    }
    proof {
        let x = choose|x: int| 0 <= x < cs@.len() && cs@[x] == '"';
        assert(cs@.contains('"'));
    }
    split_quoted(cs, d, out)
}

/// Splits one line into its raw fields. Returns `(fields, warning)`;
/// `warning` means unbalanced quotes, and the caller should not align that
/// line.
pub fn split_line(line: &str, dialect: Dialect) -> (r: (Vec<String>, bool))
    ensures
        r.0.deep_view() == line_fields(line@, dialect).0,
        r.1 == line_fields(line@, dialect).1,
{
    let cs = chars_of(line);
    let mut out: Vec<String> = Vec::new();
    assert(out.deep_view() =~= Seq::<Seq<char>>::empty());
    let w = split_chars(cs.as_slice(), dialect, &mut out);
    assert(out.deep_view() =~= line_fields(line@, dialect).0);
    (out, w)
}

/// Display width of a text as `unicode-width` measures it.
pub fn display_width(s: &str) -> (w: usize)
    ensures
        w == unicode_str_width(s@),
{
    unicode_width_of(s)
}

} // verus!
