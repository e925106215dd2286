//! Whitespace align and shrink of whole documents.
use vstd::prelude::*;
use crate::text::{display_width_of, spaces, utf16_length, chars_of, push_range, push_spaces, push_char};
use super::dialect::Dialect;
use super::split::{split_spec, split_raw, spans_of, values_of, tiles_from, span_ok, lemma_split_tiles, find_from, lemma_find_from, find_byte, RawField};
use super::analysis::{
    analyze_document, column_maxima, doc_value_widths, doc_has_warnings, doc_needs_shrink, width_of,
};

verus! {

broadcast use vstd::seq::group_seq_axioms;

// ---------------------------------------------------------------------------
// Model
// ---------------------------------------------------------------------------

/// Lines of `t[a..]` with their terminators: `"\n"`, `"\r\n"`, or for a final
/// unterminated line `"\r"` or nothing.
pub open spec fn segments_from(t: Seq<char>, a: int) -> Seq<(Seq<char>, Seq<char>)>
    decreases t.len() - a,
{
    if a < 0 || a >= t.len() {
        Seq::empty()
    } else {
        let k = find_from(t, a, '\n');
        if k >= t.len() {
            let seg = t.subrange(a, t.len() as int);
            if seg.last() == '\r' {
                seq![(seg.drop_last(), seq!['\r'])]
            } else {
                seq![(seg, Seq::<char>::empty())]
            }
        } else {
            proof {
                lemma_find_from(t, a, '\n');
            }
            let first = if k > a && t[k - 1] == '\r' {
                (t.subrange(a, k - 1), seq!['\r', '\n'])
            } else {
                (t.subrange(a, k), seq!['\n'])
            };
            seq![first] + segments_from(t, k + 1)
        }
    }
}

/// Lines of a document with their terminators.
pub open spec fn line_segments(t: Seq<char>) -> Seq<(Seq<char>, Seq<char>)> {
    segments_from(t, 0)
}

/// How a line is rewritten.
#[derive(Clone, Copy, PartialEq, Eq, Structural)]
pub enum RewriteMode {
    /// Trimmed values, each non-last one padded to its column width.
    Align,
    /// Trimmed values, delimiter-joined.
    Shrink,
}

/// `widths[i]`, or 0 past its end.
pub open spec fn width_at(widths: Seq<usize>, i: int) -> usize {
    if 0 <= i < widths.len() {
        widths[i]
    } else {
        0
    }
}

/// Spaces that pad a value of display width `w` to the column width `target`.
pub open spec fn pad_for(target: usize, w: usize) -> nat {
    if target > w {
        (target - w) as nat
    } else {
        0
    }
}

/// `vs[i..]` joined by `d`, each non-last value padded to its column width.
pub open spec fn pad_join_from(vs: Seq<Seq<char>>, widths: Seq<usize>, d: char, i: int) -> Seq<char>
    decreases vs.len() - i,
{
    if i < 0 || i >= vs.len() {
        Seq::empty()
    } else if i + 1 == vs.len() {
        vs[i]
    } else {
        vs[i] + spaces(pad_for(width_at(widths, i), display_width_of(vs[i]))) + seq![d]
            + pad_join_from(vs, widths, d, i + 1)
    }
}

/// `vs[i..]` joined by `d`.
pub open spec fn join_from(vs: Seq<Seq<char>>, d: char, i: int) -> Seq<char>
    decreases vs.len() - i,
{
    if i < 0 || i >= vs.len() {
        Seq::empty()
    } else if i + 1 == vs.len() {
        vs[i]
    } else {
        vs[i] + seq![d] + join_from(vs, d, i + 1)
    }
}

/// A line rewritten in `mode`.
pub open spec fn render_line(line: Seq<char>, dialect: Dialect, widths: Seq<usize>, mode: RewriteMode) -> Seq<char> {
    let vs = values_of(line, split_spec(line, dialect).0);
    match mode {
        RewriteMode::Align => pad_join_from(vs, widths, dialect.spec_delimiter(), 0),
        RewriteMode::Shrink => join_from(vs, dialect.spec_delimiter(), 0),
    }
}

/// Every line rewritten, each followed by its own terminator.
pub open spec fn render_segments(
    segs: Seq<(Seq<char>, Seq<char>)>,
    dialect: Dialect,
    widths: Seq<usize>,
    mode: RewriteMode,
) -> Seq<char>
    decreases segs.len(),
{
    if segs.len() == 0 {
        Seq::empty()
    } else {
        render_line(segs[0].0, dialect, widths, mode) + segs[0].1 + render_segments(
            segs.drop_first(),
            dialect,
            widths,
            mode,
        )
    }
}

/// Column widths that Align pads to: the widest trimmed value per column.
pub open spec fn align_widths(t: Seq<char>, dialect: Dialect) -> Seq<usize> {
    column_maxima(doc_value_widths(t, dialect))
}

/// The text that Align produces: the input itself when a line has unbalanced
/// quotes, else every line with trimmed values padded to the column widths.
pub open spec fn aligned_text(t: Seq<char>, dialect: Dialect) -> Seq<char> {
    if doc_has_warnings(t, dialect) {
        t
    } else {
        render_segments(line_segments(t), dialect, align_widths(t, dialect), RewriteMode::Align)
    }
}

/// Every line with trimmed values joined by the delimiter.
pub open spec fn shrunk_lines(t: Seq<char>, dialect: Dialect) -> Seq<char> {
    render_segments(line_segments(t), dialect, Seq::empty(), RewriteMode::Shrink)
}

/// The text that Shrink produces: the input itself when a line has
/// unbalanced quotes or no field has surrounding whitespace.
pub open spec fn shrunk_text(t: Seq<char>, dialect: Dialect) -> Seq<char> {
    if doc_has_warnings(t, dialect) || !doc_needs_shrink(t, dialect) {
        t
    } else {
        shrunk_lines(t, dialect)
    }
}

// ---------------------------------------------------------------------------
// Executable rewriting
// ---------------------------------------------------------------------------

/// Appends a line rendered in `mode` from its field spans.
fn render_into(
    line: &[char],
    fields: &Vec<RawField>,
    widths: &[usize],
    delim: char,
    mode: RewriteMode,
    out: &mut String,
    Ghost(dialect): Ghost<Dialect>,
)
    requires
        spans_of(fields@) == split_spec(line@, dialect).0,
        delim == dialect.spec_delimiter(),
    ensures
        final(out)@ == old(out)@ + render_line(line@, dialect, widths@, mode),
{
    let ghost fs = split_spec(line@, dialect).0;
    let ghost vs = values_of(line@, fs);
    proof {
        lemma_split_tiles(line@, dialect);
    }
    let n = fields.len();
    let mut i: usize = 0;
    while i < n
        invariant
            n == fields@.len(),
            spans_of(fields@) == fs,
            fs == split_spec(line@, dialect).0,
            vs == values_of(line@, fs),
            delim == dialect.spec_delimiter(),
            tiles_from(line@, delim, fs, 0),
            i <= n,
            out@ + (match mode {
                RewriteMode::Align => pad_join_from(vs, widths@, delim, i as int),
                RewriteMode::Shrink => join_from(vs, delim, i as int),
            }) == old(out)@ + render_line(line@, dialect, widths@, mode),
        decreases n - i,
    {
        let f = fields[i];
        assert(f.span() == fs[i as int]);
        assert(span_ok(fs[i as int], line@.len() as int));
        let ghost before = out@;
        let ghost v = vs[i as int];
        assert(v == line@.subrange(f.tstart as int, f.tend as int));
        match mode {
            RewriteMode::Align => {
                push_range(out, line, f.tstart, f.tend);
                if i + 1 < n {
                    // No trailing pad on the last column.
                    let w = width_of(line, f.tstart, f.tend);
                    let target = if i < widths.len() {
                        widths[i]
                    } else {
                        0
                    };
                    let pad = if target > w {
                        target - w
                    } else {
                        0
                    };
                    push_spaces(out, pad);
                    push_char(out, delim);
                    assert(out@ + pad_join_from(vs, widths@, delim, i + 1) =~= before + pad_join_from(vs, widths@, delim, i as int));
                } else {
                    assert(out@ + pad_join_from(vs, widths@, delim, i + 1) =~= before + pad_join_from(vs, widths@, delim, i as int));
                }
            },
            RewriteMode::Shrink => {
                push_range(out, line, f.tstart, f.tend);
                if i + 1 < n {
                    push_char(out, delim);
                }
                assert(out@ + join_from(vs, delim, i + 1) =~= before + join_from(vs, delim, i as int));
            },
        }
        i += 1;
    }
    assert(out@ =~= old(out)@ + render_line(line@, dialect, widths@, mode)) by {
        match mode {
            RewriteMode::Align => {
                assert(pad_join_from(vs, widths@, delim, n as int) =~= Seq::<char>::empty());
            },
            RewriteMode::Shrink => {
                assert(join_from(vs, delim, n as int) =~= Seq::<char>::empty());
            },
        }
    }
}

/// Finds the next segment of `text` at `a`: its line `a..le`, its ending
/// `le..next` and the index `next` where the following one starts.
fn next_segment(text: &[char], a: usize) -> (r: (usize, usize))
    requires
        a < text@.len(),
    ensures
        a <= r.0 <= r.1 <= text@.len(),
        a < r.1,
        segments_from(text@, a as int) == seq![(
            text@.subrange(a as int, r.0 as int),
            text@.subrange(r.0 as int, r.1 as int),
        )] + segments_from(text@, r.1 as int),
{
    let n = text.len();
    proof {
        lemma_find_from(text@, a as int, '\n');
    }
    let k = match find_byte(text, a, '\n') {
        Some(k) => k,
        None => {
            assert(find_from(text@, a as int, '\n') == n);
            n
        },
    };
    assert(k as int == find_from(text@, a as int, '\n'));
    if k < n {
        if k > a && text[k - 1] == '\r' {
            assert(text@.subrange(k - 1, k + 1) =~= seq!['\r', '\n']);
            (k - 1, k + 1)
        } else {
            assert(text@.subrange(k as int, k + 1) =~= seq!['\n']);
            (k, k + 1)
        }
    } else {
        let ghost seg = text@.subrange(a as int, n as int);
        if text[n - 1] == '\r' {
            assert(text@.subrange(a as int, n - 1) =~= seg.drop_last());
            assert(text@.subrange(n - 1, n as int) =~= seq!['\r']);
            (n - 1, n)
        } else {
            assert(text@.subrange(n as int, n as int) =~= Seq::<char>::empty());
            (n, n)
        }
    }
}

/// Rewrites every line of `text` in `mode`, keeping each line's terminator.
pub(crate) fn rewrite_lines(text: &[char], dialect: Dialect, widths: &[usize], mode: RewriteMode) -> (out: String)
    ensures
        out@ == render_segments(line_segments(text@), dialect, widths@, mode),
{
    let mut out = String::new();
    let mut raw: Vec<RawField> = Vec::new();
    let n = text.len();
    let mut a: usize = 0;
    let ghost total = render_segments(line_segments(text@), dialect, widths@, mode);
    let delim = dialect.delimiter();
    while a < n
        invariant
            n == text@.len(),
            a <= n,
            out@ + render_segments(segments_from(text@, a as int), dialect, widths@, mode) == total,
            delim == dialect.spec_delimiter(),
        decreases n - a,
    {
        let (le, next) = next_segment(text, a);
        let ghost before = out@;
        let line = &text[a..le];
        split_raw(line, dialect, &mut raw);
        render_into(line, &raw, widths, delim, mode, &mut out, Ghost(dialect));
        let mut e = le;
        while e < next
            invariant
                le <= e <= next <= n == text@.len(),
                out@ == before + render_line(line@, dialect, widths@, mode) + text@.subrange(le as int, e as int),
            decreases next - e,
        {
            push_char(&mut out, text[e]);
            e += 1;
            assert(out@ =~= before + render_line(line@, dialect, widths@, mode) + text@.subrange(le as int, e as int));
        }
        proof {
            let segs = segments_from(text@, a as int);
            assert(segs.drop_first() == segments_from(text@, next as int));
            assert(segs[0] == (line@, text@.subrange(le as int, next as int)));
            assert(out@ + render_segments(segments_from(text@, next as int), dialect, widths@, mode)
                =~= before + render_segments(segs, dialect, widths@, mode));
        }
        a = next;
    }
    assert(render_segments(segments_from(text@, n as int), dialect, widths@, mode) =~= Seq::<char>::empty());
    out
}

/// `a` and `b` hold the same characters.
pub(crate) fn same_chars(a: &String, b: &[char]) -> (r: bool)
    ensures
        r == (a@ == b@),
{
    let x = chars_of(a.as_str());
    if x.len() != b.len() {
        return false;
    }
    let mut i: usize = 0;
    while i < x.len()
        invariant
            x@ == a@,
            x@.len() == b@.len(),
            i <= x@.len(),
            forall|k: int| 0 <= k < i ==> x@[k] == b@[k],
        decreases x@.len() - i,
    {
        if x[i] != b[i] {
            return false;
        }
        i += 1;
    }
    assert(x@ =~= b@);
    true
}

/// Align the whole document with spaces (whitespace-align). Returns the new
/// text, or the input unchanged when any line has unbalanced quotes:
/// reflowing such input corrupts data.
pub fn align_document(text: &str, dialect: Dialect) -> (r: String)
    requires
        utf16_length(text@) <= usize::MAX,
    ensures
        r@ == aligned_text(text@, dialect),
{
    let analysis = analyze_document(text, dialect);
    let cs = chars_of(text);
    if analysis.has_warnings {
        let mut out = String::new();
        push_range(&mut out, cs.as_slice(), 0, cs.len());
        assert(cs@.subrange(0, cs@.len() as int) =~= cs@);
        return out;
    }
    rewrite_lines(cs.as_slice(), dialect, analysis.widths.as_slice(), RewriteMode::Align)
}

/// Shrink: trim leading/trailing whitespace of every field. Returns
/// `(new_text, changed)`, and `(input, false)` when any line has unbalanced
/// quotes or nothing has surrounding whitespace.
pub fn shrink_document(text: &str, dialect: Dialect) -> (r: (String, bool))
    requires
        utf16_length(text@) <= usize::MAX,
    ensures
        r.0@ == shrunk_text(text@, dialect),
        r.1 == (r.0@ != text@),
{
    let analysis = analyze_document(text, dialect);
    let cs = chars_of(text);
    if analysis.has_warnings || !analysis.needs_shrink {
        let mut out = String::new();
        push_range(&mut out, cs.as_slice(), 0, cs.len());
        assert(cs@.subrange(0, cs@.len() as int) =~= cs@);
        return (out, false);
    }
    let empty: Vec<usize> = Vec::new();
    let out = rewrite_lines(cs.as_slice(), dialect, empty.as_slice(), RewriteMode::Shrink);
    assert(empty@ =~= Seq::<usize>::empty());
    let changed = !same_chars(&out, cs.as_slice());
    (out, changed)
}

} // verus!
