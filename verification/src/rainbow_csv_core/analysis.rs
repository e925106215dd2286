//! Single-pass document analysis: per-field measurements, column maxima and
//! the warning / align / shrink flags.
use vstd::prelude::*;
use crate::text::{
    display_width_of, unicode_width_of, is_printable_ascii, utf16_length, utf16_units,
    char_utf16_len, lemma_utf16_length_concat, chars_of, string_of,
};
use super::dialect::Dialect;
use super::rewrite::{aligned_text, rewrite_lines, same_chars, RewriteMode};
use super::split::{
    Span, split_spec, split_raw, spans_of, value_of, tiles_from, span_ok, lemma_split_tiles,
    find_from, lemma_find_from, RawField, find_byte,
};

verus! {

broadcast use vstd::seq::group_seq_axioms;

// ---------------------------------------------------------------------------
// Lines of a document
// ---------------------------------------------------------------------------

/// Pieces of `t[a..]` between `'\n'`s.
pub open spec fn lines_from(t: Seq<char>, a: int) -> Seq<Seq<char>>
    decreases t.len() - a,
{
    if a < 0 || a > t.len() {
        Seq::empty()
    } else {
        let k = find_from(t, a, '\n');
        if k >= t.len() {
            seq![t.subrange(a, t.len() as int)]
        } else {
            proof {
                lemma_find_from(t, a, '\n');
            }
            seq![t.subrange(a, k)] + lines_from(t, k + 1)
        }
    }
}

/// `t` without one final `'\n'`: a trailing newline does not start a record.
pub open spec fn doc_body(t: Seq<char>) -> Seq<char> {
    if t.len() > 0 && t.last() == '\n' {
        t.drop_last()
    } else {
        t
    }
}

/// `l` without one final `'\r'`.
pub open spec fn strip_cr(l: Seq<char>) -> Seq<char> {
    if l.len() > 0 && l.last() == '\r' {
        l.drop_last()
    } else {
        l
    }
}

/// The records (lines) of a document, CR/LF-stripped.
pub open spec fn doc_lines(t: Seq<char>) -> Seq<Seq<char>> {
    lines_from(doc_body(t), 0).map_values(|l: Seq<char>| strip_cr(l))
}

// ---------------------------------------------------------------------------
// Measurements
// ---------------------------------------------------------------------------

/// Per-field measurements cached by [`analyze_document`].
#[derive(Debug, Clone, Copy, PartialEq, Eq, Structural)]
pub struct FieldInfo {
    /// UTF-16 end offset of the raw field in its (CR-stripped) line.
    pub end_col: u32,
    /// Display width of the raw field, including surrounding whitespace.
    pub raw_width: u32,
    /// Display width of the trimmed field value.
    pub width: u32,
}

/// Display width of the raw text of a field.
pub open spec fn raw_width_of(line: Seq<char>, f: Span) -> usize {
    display_width_of(line.subrange(f.start, f.end))
}

/// Display width of the trimmed value of a field.
pub open spec fn value_width_of(line: Seq<char>, f: Span) -> usize {
    display_width_of(value_of(line, f))
}

/// Measurements of one field.
pub open spec fn field_info(line: Seq<char>, f: Span) -> FieldInfo {
    FieldInfo {
        end_col: utf16_length(line.take(f.end)) as u32,
        raw_width: raw_width_of(line, f) as u32,
        width: value_width_of(line, f) as u32,
    }
}

/// Measurements of every field of a line.
pub open spec fn line_infos(line: Seq<char>, dialect: Dialect) -> Seq<FieldInfo> {
    let fs = split_spec(line, dialect).0;
    Seq::new(fs.len(), |k: int| field_info(line, fs[k]))
}

/// Raw display widths of a line's fields.
pub open spec fn line_raw_widths(line: Seq<char>, dialect: Dialect) -> Seq<usize> {
    let fs = split_spec(line, dialect).0;
    Seq::new(fs.len(), |k: int| raw_width_of(line, fs[k]))
}

/// Trimmed-value display widths of a line's fields.
pub open spec fn line_value_widths(line: Seq<char>, dialect: Dialect) -> Seq<usize> {
    let fs = split_spec(line, dialect).0;
    Seq::new(fs.len(), |k: int| value_width_of(line, fs[k]))
}

/// Number of fields of the longest row.
pub open spec fn max_len(rows: Seq<Seq<usize>>) -> nat
    decreases rows.len(),
{
    if rows.len() == 0 {
        0
    } else {
        let m = max_len(rows.drop_last());
        if rows.last().len() > m {
            rows.last().len()
        } else {
            m
        }
    }
}

/// Largest entry of column `i` over all rows that have one (0 if none).
pub open spec fn column_max(rows: Seq<Seq<usize>>, i: int) -> usize
    decreases rows.len(),
{
    if rows.len() == 0 {
        0
    } else {
        let m = column_max(rows.drop_last(), i);
        let r = rows.last();
        if 0 <= i < r.len() && r[i] > m {
            r[i]
        } else {
            m
        }
    }
}

/// Column maxima, one per column of the longest row.
pub open spec fn column_maxima(rows: Seq<Seq<usize>>) -> Seq<usize> {
    Seq::new(max_len(rows), |i: int| column_max(rows, i))
}

pub proof fn lemma_column_max_beyond(rows: Seq<Seq<usize>>, i: int)
    requires
        i >= max_len(rows),
    ensures
        column_max(rows, i) == 0,
    decreases rows.len(),
{
    if rows.len() > 0 {
        lemma_column_max_beyond(rows.drop_last(), i);
    }
}

pub proof fn lemma_column_max_bounds(rows: Seq<Seq<usize>>, l: int, i: int)
    requires
        0 <= l < rows.len(),
        0 <= i < rows[l].len(),
    ensures
        rows[l][i] <= column_max(rows, i),
        rows[l].len() <= max_len(rows),
    decreases rows.len(),
{
    if l < rows.len() - 1 {
        lemma_column_max_bounds(rows.drop_last(), l, i);
        assert(rows.drop_last()[l] == rows[l]);
    }
}

/// Raw display widths of every field of a document.
pub open spec fn doc_raw_widths(t: Seq<char>, dialect: Dialect) -> Seq<Seq<usize>> {
    doc_lines(t).map_values(|l: Seq<char>| line_raw_widths(l, dialect))
}

/// Trimmed-value display widths of every field of a document.
pub open spec fn doc_value_widths(t: Seq<char>, dialect: Dialect) -> Seq<Seq<usize>> {
    doc_lines(t).map_values(|l: Seq<char>| line_value_widths(l, dialect))
}

/// Measurements of every field of a document, row by row.
pub open spec fn doc_infos(t: Seq<char>, dialect: Dialect) -> Seq<Seq<FieldInfo>> {
    doc_lines(t).map_values(|l: Seq<char>| line_infos(l, dialect))
}

/// Some line of the document has unbalanced quotes.
pub open spec fn doc_has_warnings(t: Seq<char>, dialect: Dialect) -> bool {
    exists|l: int| 0 <= l < doc_lines(t).len() && #[trigger] split_spec(doc_lines(t)[l], dialect).1
}

/// A field's raw text differs from its trimmed value.
pub open spec fn span_is_trimmed(f: Span) -> bool {
    f.tstart != f.start || f.tend != f.end
}

/// Some field of the document has surrounding whitespace.
pub open spec fn doc_needs_shrink(t: Seq<char>, dialect: Dialect) -> bool {
    exists|l: int, k: int|
        0 <= l < doc_lines(t).len() && 0 <= k < split_spec(doc_lines(t)[l], dialect).0.len()
            && span_is_trimmed(#[trigger] split_spec(doc_lines(t)[l], dialect).0[k])
}

// ---------------------------------------------------------------------------
// The analysis value
// ---------------------------------------------------------------------------

/// Whole-document parse result: measurements only, in one flat array.
#[derive(Debug, Clone)]
pub struct DocAnalysis {
    /// Every field of every line, in document order.
    pub fields: Vec<FieldInfo>,
    /// Line `i`'s fields are `fields[line_ends[i - 1]..line_ends[i]]`.
    pub line_ends: Vec<usize>,
    /// Max raw display width per column, used as the virtual-align target.
    pub raw_width_targets: Vec<usize>,
    /// Max display width of trimmed field values per column, used by Align.
    pub widths: Vec<usize>,
    /// True if any line has unbalanced quotes (incl. multiline records).
    pub has_warnings: bool,
    /// True if [`align_document`](super::align_document) would change the text.
    pub needs_align: bool,
    /// True if any field has surrounding whitespace.
    pub needs_shrink: bool,
}

impl DocAnalysis {
    pub open spec fn row_start(&self, l: int) -> int {
        if l == 0 {
            0
        } else {
            self.line_ends@[l - 1] as int
        }
    }

    /// The line index is consistent with the flat field array.
    pub open spec fn wf(&self) -> bool {
        &&& forall|l: int|
            0 <= l < self.line_ends@.len() ==> self.row_start(l) <= #[trigger] self.line_ends@[l]
                <= self.fields@.len()
    }

    /// Fields of each record, in order.
    pub open spec fn rows(&self) -> Seq<Seq<FieldInfo>> {
        Seq::new(
            self.line_ends@.len(),
            |l: int| self.fields@.subrange(self.row_start(l), self.line_ends@[l] as int),
        )
    }

    /// Number of records (lines; a trailing newline doesn't start a new one).
    pub fn line_count(&self) -> (n: usize)
        ensures
            n == self.rows().len(),
    {
        self.line_ends.len()
    }

    /// Fields of record `line`.
    pub fn line(&self, line: usize) -> (r: &[FieldInfo])
        requires
            self.wf(),
            line < self.rows().len(),
        ensures
            r@ == self.rows()[line as int],
    {
        let start = if line == 0 {
            0
        } else {
            self.line_ends[line - 1]
        };
        assert(self.row_start(line as int) <= self.line_ends@[line as int] <= self.fields@.len());
        &self.fields.as_slice()[start..self.line_ends[line]]
    }
}

// ---------------------------------------------------------------------------
// Measuring
// ---------------------------------------------------------------------------

/// Display width of `line[a..b]`; printable ASCII is one column per character.
pub(crate) fn width_of(line: &[char], a: usize, b: usize) -> (r: usize)
    requires
        a <= b <= line@.len(),
    ensures
        r == display_width_of(line@.subrange(a as int, b as int)),
{
    let mut i = a;
    let mut ascii = true;
    while i < b
        invariant
            a <= i <= b <= line@.len(),
            ascii == (forall|x: int| a <= x < i ==> 0x20 <= (#[trigger] line@[x] as u32) < 0x7f),
        decreases b - i,
    {
        let u = line[i] as u32;
        if !(0x20 <= u && u < 0x7f) {
            ascii = false;
        }
        i += 1;
    }
    if ascii {
        // Printable ASCII is one column per character.
        assert(is_printable_ascii(line@.subrange(a as int, b as int)));
        b - a
    } else {
        let s = string_of(line, a, b);
        assert(!is_printable_ascii(s@)) by {
            let x = choose|x: int| a <= x < b && !(0x20 <= (#[trigger] line@[x] as u32) < 0x7f);
            assert(s@[x - a] == line@[x]);
        }
        unicode_width_of(s.as_str())
    }
}

/// Cell width used for alignment. This does not model editor tab stops.
pub fn display_width(s: &str) -> (r: usize)
    ensures
        r == display_width_of(s@),
{
    let cs = chars_of(s);
    assert(cs@.subrange(0, cs@.len() as int) =~= s@);
    width_of(cs.as_slice(), 0, cs.len())
}

/// Length in UTF-16 code units (LSP `character` offsets are UTF-16).
pub fn utf16_len(s: &str) -> (r: usize)
    requires
        utf16_length(s@) <= usize::MAX,
    ensures
        r == utf16_length(s@),
{
    let cs = chars_of(s);
    let mut n: usize = 0;
    let mut i: usize = 0;
    while i < cs.len()
        invariant
            cs@ == s@,
            i <= cs@.len(),
            utf16_length(s@) <= usize::MAX,
            n == utf16_length(s@.take(i as int)),
        decreases cs@.len() - i,
    {
        proof {
            advance_utf16(s@, i as int);
        }
        n = n + char_utf16_len(cs[i]);
        i += 1;
    }
    assert(s@.take(i as int) =~= s@);
    n
}

/// Raises `maxes[i]` to at least `value`, growing `maxes` with zeros.
fn raise(maxes: &mut Vec<usize>, i: usize, value: usize)
    requires
        i <= old(maxes)@.len(),
    ensures
        final(maxes)@.len() == if i < old(maxes)@.len() {
            old(maxes)@.len() as int
        } else {
            i + 1
        },
        forall|c: int|
            0 <= c < final(maxes)@.len() && c != i ==> #[trigger] final(maxes)@[c] == old(
                maxes,
            )@[c],
        final(maxes)@[i as int] == (if i < old(maxes)@.len() && old(maxes)@[i as int] >= value {
            old(maxes)@[i as int]
        } else {
            value
        }),
{
    if maxes.len() <= i {
        maxes.push(0);
    }
    if maxes[i] < value {
        maxes.set(i, value);
    }
}

/// Column maxima after adding row `r` to `rows`.
pub proof fn lemma_column_maxima_push(rows: Seq<Seq<usize>>, r: Seq<usize>, c: int)
    requires
        0 <= c,
    ensures
        column_max(rows.push(r), c) == (if c < r.len() && r[c] > column_max(rows, c) {
            r[c]
        } else {
            column_max(rows, c)
        }),
        max_len(rows.push(r)) == if r.len() > max_len(rows) {
            r.len()
        } else {
            max_len(rows)
        },
{
    assert(rows.push(r).drop_last() =~= rows);
}

/// Raises the column maxima of `rows` by one more row.
pub(crate) fn raise_row(maxes: &mut Vec<usize>, row: &[usize], Ghost(rows): Ghost<Seq<Seq<usize>>>)
    requires
        old(maxes)@ == column_maxima(rows),
    ensures
        final(maxes)@ == column_maxima(rows.push(row@)),
{
    let ghost m0 = maxes@;
    let mut i: usize = 0;
    while i < row.len()
        invariant
            i <= row@.len(),
            m0 == column_maxima(rows),
            maxes@.len() == if i > max_len(rows) {
                i as nat
            } else {
                max_len(rows)
            },
            forall|c: int|
                0 <= c < maxes@.len() ==> #[trigger] maxes@[c] == (if c < i && row@[c]
                    > column_max(rows, c) {
                    row@[c]
                } else {
                    column_max(rows, c)
                }),
        decreases row@.len() - i,
    {
        proof {
            if i >= max_len(rows) {
                lemma_column_max_beyond(rows, i as int);
            }
        }
        raise(maxes, i, row[i]);
        i += 1;
    }
    proof {
        let rr = rows.push(row@);
        assert forall|c: int| 0 <= c < maxes@.len() implies #[trigger] maxes@[c]
            == column_maxima(rr)[c] by {
            lemma_column_maxima_push(rows, row@, c);
        }
        lemma_column_maxima_push(rows, row@, 0);
        assert(maxes@ =~= column_maxima(rr));
    }
}

/// Everything measured about one line, added to the running totals.
struct LineTotals {
    warning: bool,
    shrink: bool,
}

/// Splits and measures one line, appending its fields and raising the
/// column maxima.
fn measure_line(
    line: &[char],
    dialect: Dialect,
    raw: &mut Vec<RawField>,
    fields: &mut Vec<FieldInfo>,
    raw_targets: &mut Vec<usize>,
    widths: &mut Vec<usize>,
    Ghost(raw_rows): Ghost<Seq<Seq<usize>>>,
    Ghost(value_rows): Ghost<Seq<Seq<usize>>>,
) -> (totals: LineTotals)
    requires
        utf16_length(line@) <= usize::MAX,
        old(raw_targets)@ == column_maxima(raw_rows),
        old(widths)@ == column_maxima(value_rows),
    ensures
        final(fields)@ == old(fields)@ + line_infos(line@, dialect),
        final(raw_targets)@ == column_maxima(raw_rows.push(line_raw_widths(line@, dialect))),
        final(widths)@ == column_maxima(value_rows.push(line_value_widths(line@, dialect))),
        totals.warning == split_spec(line@, dialect).1,
        totals.shrink == exists|k: int|
            0 <= k < split_spec(line@, dialect).0.len() && span_is_trimmed(
                #[trigger] split_spec(line@, dialect).0[k],
            ),
{
    let warning = split_raw(line, dialect, raw);
    let ghost fs = split_spec(line@, dialect).0;
    let ghost rw = line_raw_widths(line@, dialect);
    let ghost vw = line_value_widths(line@, dialect);
    proof {
        lemma_split_tiles(line@, dialect);
    }
    let ghost fields0 = fields@;
    let ghost targets0 = raw_targets@;
    let ghost widths0 = widths@;
    let mut shrink = false;
    // UTF-16 column, advanced incrementally from field to field.
    let mut col_pos: usize = 0;
    let mut col: usize = 0;
    let mut i: usize = 0;
    while i < raw.len()
        invariant
            spans_of(raw@) == fs,
            fs == split_spec(line@, dialect).0,
            rw == line_raw_widths(line@, dialect),
            vw == line_value_widths(line@, dialect),
            tiles_from(line@, dialect.spec_delimiter(), fs, 0),
            utf16_length(line@) <= usize::MAX,
            i <= fs.len(),
            col_pos <= line@.len(),
            i < fs.len() ==> col_pos <= fs[i as int].end,
            col == utf16_length(line@.take(col_pos as int)),
            fields@ == fields0 + Seq::new(i as nat, |k: int| field_info(line@, fs[k])),
            targets0 == column_maxima(raw_rows),
            widths0 == column_maxima(value_rows),
            raw_targets@.len() == if i > max_len(raw_rows) {
                i as nat
            } else {
                max_len(raw_rows)
            },
            widths@.len() == if i > max_len(value_rows) {
                i as nat
            } else {
                max_len(value_rows)
            },
            forall|c: int|
                0 <= c < raw_targets@.len() ==> #[trigger] raw_targets@[c] == (if c < i && rw[c]
                    > column_max(raw_rows, c) {
                    rw[c]
                } else {
                    column_max(raw_rows, c)
                }),
            forall|c: int|
                0 <= c < widths@.len() ==> #[trigger] widths@[c] == (if c < i && vw[c]
                    > column_max(value_rows, c) {
                    vw[c]
                } else {
                    column_max(value_rows, c)
                }),
            shrink == exists|k: int| 0 <= k < i && span_is_trimmed(#[trigger] fs[k]),
        decreases fs.len() - i,
    {
        let f = raw[i];
        assert(f.span() == fs[i as int]);
        assert(span_ok(fs[i as int], line@.len() as int));
        while col_pos < f.end
            invariant
                col_pos <= f.end <= line@.len(),
                utf16_length(line@) <= usize::MAX,
                col == utf16_length(line@.take(col_pos as int)),
            decreases f.end - col_pos,
        {
            proof {
                advance_utf16(line@, col_pos as int);
            }
            col = col + char_utf16_len(line[col_pos]);
            col_pos += 1;
        }
        let end_col = col;
        let raw_width = width_of(line, f.start, f.end);
        let width = if f.is_trimmed() {
            shrink = true;
            width_of(line, f.tstart, f.tend)
        } else {
            raw_width
        };
        proof {
            if !span_is_trimmed(fs[i as int]) {
                assert(value_of(line@, fs[i as int]) =~= line@.subrange(f.start as int, f.end as int));
            }
            if i >= max_len(raw_rows) {
                lemma_column_max_beyond(raw_rows, i as int);
            }
            if i >= max_len(value_rows) {
                lemma_column_max_beyond(value_rows, i as int);
            }
        }
        assert(raw_width == rw[i as int]);
        assert(width == vw[i as int]);
        raise(raw_targets, i, raw_width);
        raise(widths, i, width);
        let ghost fields_before = fields@;
        let info = FieldInfo {
            end_col: #[verifier::truncate] (end_col as u32),
            raw_width: #[verifier::truncate] (raw_width as u32),
            width: #[verifier::truncate] (width as u32),
        };
        fields.push(info);
        assert(fields@ =~= fields0 + Seq::new((i + 1) as nat, |k: int| field_info(line@, fs[k]))) by {
            assert(fields_before =~= fields0 + Seq::new(i as nat, |k: int| field_info(line@, fs[k])));
        }
        i += 1;
        if i < raw.len() {
            assert(fs[i as int].start == fs[i - 1].end + 1) by {
                assert(fs[(i - 1) as int].end < line@.len());
            }
        }
    }
    proof {
        let rr = raw_rows.push(rw);
        let vr = value_rows.push(vw);
        assert forall|c: int| 0 <= c < raw_targets@.len() implies #[trigger] raw_targets@[c] == column_maxima(rr)[c] by {
            lemma_column_maxima_push(raw_rows, rw, c);
        }
        assert forall|c: int| 0 <= c < widths@.len() implies #[trigger] widths@[c] == column_maxima(vr)[c] by {
            lemma_column_maxima_push(value_rows, vw, c);
        }
        lemma_column_maxima_push(raw_rows, rw, 0);
        lemma_column_maxima_push(value_rows, vw, 0);
        assert(raw_targets@ =~= column_maxima(rr));
        assert(widths@ =~= column_maxima(vr));
        assert(fields@ =~= fields0 + line_infos(line@, dialect));
    }
    LineTotals { warning, shrink }
}

/// `fields`/`ends` hold `rows` flattened, each row ending at its entry of
/// `ends`.
pub open spec fn flat_rows(fields: Seq<FieldInfo>, ends: Seq<usize>, rows: Seq<Seq<FieldInfo>>) -> bool {
    &&& ends.len() == rows.len()
    &&& forall|l: int|
        0 <= l < rows.len() ==> (if l == 0 {
            0
        } else {
            ends[l - 1] as int
        }) <= #[trigger] ends[l] <= fields.len()
    &&& forall|l: int|
        0 <= l < rows.len() ==> fields.subrange(
            if l == 0 {
                0
            } else {
                ends[l - 1] as int
            },
            #[trigger] ends[l] as int,
        ) == rows[l]
    &&& rows.len() > 0 ==> ends[rows.len() - 1] == fields.len()
    &&& rows.len() == 0 ==> fields.len() == 0
}

proof fn lemma_flat_rows_push(
    fields: Seq<FieldInfo>,
    ends: Seq<usize>,
    rows: Seq<Seq<FieldInfo>>,
    r: Seq<FieldInfo>,
)
    requires
        flat_rows(fields, ends, rows),
        (fields + r).len() <= usize::MAX,
    ensures
        flat_rows(fields + r, ends.push((fields + r).len() as usize), rows.push(r)),
{
    let f2 = fields + r;
    let e2 = ends.push(f2.len() as usize);
    let r2 = rows.push(r);
    assert forall|l: int|
        0 <= l < r2.len() implies (if l == 0 {
            0
        } else {
            e2[l - 1] as int
        }) <= #[trigger] e2[l] <= f2.len() by {
        if l > 0 {
            assert(e2[l - 1] == ends[l - 1]);
        }
    }
    assert forall|l: int|
        0 <= l < r2.len() implies f2.subrange(
            if l == 0 {
                0
            } else {
                e2[l - 1] as int
            },
            #[trigger] e2[l] as int,
        ) == r2[l] by {
        let st = if l == 0 {
            0
        } else {
            e2[l - 1] as int
        };
        if l < rows.len() {
            if l > 0 {
                assert(e2[l - 1] == ends[l - 1]);
            }
            assert(f2.subrange(st, e2[l] as int) =~= fields.subrange(st, ends[l] as int));
        } else {
            if l > 0 {
                assert(e2[l - 1] == ends[l - 1]);
            }
            assert(f2.subrange(st, e2[l] as int) =~= r);
        }
    }
}

proof fn lemma_flat_rows_analysis(a: &DocAnalysis, rows: Seq<Seq<FieldInfo>>)
    requires
        flat_rows(a.fields@, a.line_ends@, rows),
    ensures
        a.wf(),
        a.rows() == rows,
{
    assert forall|l: int| 0 <= l < a.line_ends@.len() implies a.row_start(l) <= #[trigger] a.line_ends@[l]
        <= a.fields@.len() by {
    }
    assert(a.rows() =~= rows) by {
        assert forall|l: int| 0 <= l < a.rows().len() implies #[trigger] a.rows()[l] == rows[l] by {
        }
    }
}

/// Some line has unbalanced quotes.
pub open spec fn any_warning(lines: Seq<Seq<char>>, dialect: Dialect) -> bool
    decreases lines.len(),
{
    lines.len() > 0 && (any_warning(lines.drop_last(), dialect) || split_spec(
        lines.last(),
        dialect,
    ).1)
}

/// The line has a field with surrounding whitespace.
pub open spec fn line_has_trimmed(line: Seq<char>, dialect: Dialect) -> bool {
    exists|k: int|
        0 <= k < split_spec(line, dialect).0.len() && span_is_trimmed(
            #[trigger] split_spec(line, dialect).0[k],
        )
}

/// Some line has a field with surrounding whitespace.
pub open spec fn any_trimmed(lines: Seq<Seq<char>>, dialect: Dialect) -> bool
    decreases lines.len(),
{
    lines.len() > 0 && (any_trimmed(lines.drop_last(), dialect) || line_has_trimmed(
        lines.last(),
        dialect,
    ))
}

proof fn lemma_any_warning(lines: Seq<Seq<char>>, dialect: Dialect)
    ensures
        any_warning(lines, dialect) == exists|l: int|
            0 <= l < lines.len() && #[trigger] split_spec(lines[l], dialect).1,
    decreases lines.len(),
{
    if lines.len() > 0 {
        lemma_any_warning(lines.drop_last(), dialect);
        if any_warning(lines.drop_last(), dialect) {
            let l = choose|l: int|
                0 <= l < lines.drop_last().len() && #[trigger] split_spec(
                    lines.drop_last()[l],
                    dialect,
                ).1;
            assert(lines[l] == lines.drop_last()[l]);
        }
        if exists|l: int| 0 <= l < lines.len() && #[trigger] split_spec(lines[l], dialect).1 {
            let l = choose|l: int| 0 <= l < lines.len() && #[trigger] split_spec(lines[l], dialect).1;
            if l < lines.len() - 1 {
                assert(lines.drop_last()[l] == lines[l]);
            }
        }
    }
}

proof fn lemma_any_trimmed(lines: Seq<Seq<char>>, dialect: Dialect)
    ensures
        any_trimmed(lines, dialect) == exists|l: int, k: int|
            0 <= l < lines.len() && 0 <= k < split_spec(lines[l], dialect).0.len()
                && span_is_trimmed(#[trigger] split_spec(lines[l], dialect).0[k]),
    decreases lines.len(),
{
    if lines.len() > 0 {
        lemma_any_trimmed(lines.drop_last(), dialect);
        if any_trimmed(lines.drop_last(), dialect) {
            let (l, k) = choose|l: int, k: int|
                0 <= l < lines.drop_last().len() && 0 <= k < split_spec(
                    lines.drop_last()[l],
                    dialect,
                ).0.len() && span_is_trimmed(
                    #[trigger] split_spec(lines.drop_last()[l], dialect).0[k],
                );
            assert(lines[l] == lines.drop_last()[l]);
            assert(span_is_trimmed(split_spec(lines[l], dialect).0[k]));
        }
        if line_has_trimmed(lines.last(), dialect) {
            let k = choose|k: int|
                0 <= k < split_spec(lines.last(), dialect).0.len() && span_is_trimmed(
                    #[trigger] split_spec(lines.last(), dialect).0[k],
                );
            assert(span_is_trimmed(split_spec(lines[lines.len() - 1], dialect).0[k]));
        }
        if exists|l: int, k: int|
            0 <= l < lines.len() && 0 <= k < split_spec(lines[l], dialect).0.len()
                && span_is_trimmed(#[trigger] split_spec(lines[l], dialect).0[k]) {
            let (l, k) = choose|l: int, k: int|
                0 <= l < lines.len() && 0 <= k < split_spec(lines[l], dialect).0.len()
                    && span_is_trimmed(#[trigger] split_spec(lines[l], dialect).0[k]);
            if l < lines.len() - 1 {
                assert(lines.drop_last()[l] == lines[l]);
                assert(span_is_trimmed(split_spec(lines.drop_last()[l], dialect).0[k]));
            } else {
                assert(span_is_trimmed(split_spec(lines.last(), dialect).0[k]));
            }
        }
    }
}

/// Finds the next line of `body` at `a`: its end `k` (a `'\n'` or the end)
/// and the end `le` of its CR-stripped text.
fn next_line(body: &[char], a: usize) -> (r: (usize, usize))
    requires
        a <= body@.len(),
    ensures
        r.0 == find_from(body@, a as int, '\n'),
        a <= r.1 <= r.0 <= body@.len(),
        body@.subrange(a as int, r.1 as int) == strip_cr(body@.subrange(a as int, r.0 as int)),
{
    let blen = body.len();
    proof {
        lemma_find_from(body@, a as int, '\n');
    }
    let k = match find_byte(body, a, '\n') {
        Some(k) => k,
        None => {
            assert(find_from(body@, a as int, '\n') == body@.len());
            body.len()
        },
    };
    assert(k as int == find_from(body@, a as int, '\n'));
    let mut le = k;
    if le > a && body[le - 1] == '\r' {
        le -= 1;
    }
    proof {
        let seg = body@.subrange(a as int, k as int);
        if k > a && body@[k - 1] == '\r' {
            assert(body@.subrange(a as int, le as int) =~= seg.drop_last());
        } else {
            assert(body@.subrange(a as int, le as int) =~= seg);
        }
    }
    (k, le)
}

proof fn lemma_utf16_sub(t: Seq<char>, a: int, b: int)
    requires
        0 <= a <= b <= t.len(),
        utf16_length(t) <= usize::MAX,
    ensures
        utf16_length(t.subrange(a, b)) <= usize::MAX,
{
    lemma_utf16_length_concat(t.take(a), t.skip(a));
    assert(t.take(a) + t.skip(a) =~= t);
    lemma_utf16_length_concat(t.skip(a).take(b - a), t.skip(b));
    assert(t.skip(a).take(b - a) + t.skip(b) =~= t.skip(a));
    assert(t.subrange(a, b) =~= t.skip(a).take(b - a));
}

/// Measurements of `lines` followed by `l`.
proof fn lemma_measures_push(lines: Seq<Seq<char>>, l: Seq<char>, dialect: Dialect)
    ensures
        lines.push(l).map_values(|x: Seq<char>| line_infos(x, dialect)) == lines.map_values(
            |x: Seq<char>| line_infos(x, dialect),
        ).push(line_infos(l, dialect)),
        lines.push(l).map_values(|x: Seq<char>| line_raw_widths(x, dialect)) == lines.map_values(
            |x: Seq<char>| line_raw_widths(x, dialect),
        ).push(line_raw_widths(l, dialect)),
        lines.push(l).map_values(|x: Seq<char>| line_value_widths(x, dialect)) == lines.map_values(
            |x: Seq<char>| line_value_widths(x, dialect),
        ).push(line_value_widths(l, dialect)),
{
    assert(lines.push(l).map_values(|x: Seq<char>| line_infos(x, dialect)) =~= lines.map_values(
        |x: Seq<char>| line_infos(x, dialect),
    ).push(line_infos(l, dialect)));
    assert(lines.push(l).map_values(|x: Seq<char>| line_raw_widths(x, dialect)) =~= lines.map_values(
        |x: Seq<char>| line_raw_widths(x, dialect),
    ).push(line_raw_widths(l, dialect)));
    assert(lines.push(l).map_values(|x: Seq<char>| line_value_widths(x, dialect)) =~= lines.map_values(
        |x: Seq<char>| line_value_widths(x, dialect),
    ).push(line_value_widths(l, dialect)));
}

/// Measures every line of a document body (the text without its final
/// newline), in order.
#[verifier::rlimit(80)]
#[verifier::spinoff_prover]
fn measure_body(body: &[char], dialect: Dialect) -> (a: DocAnalysis)
    requires
        utf16_length(body@) <= usize::MAX,
    ensures
        a.wf(),
        a.rows() == lines_from(body@, 0).map_values(|l: Seq<char>| line_infos(strip_cr(l), dialect)),
        a.raw_width_targets@ == column_maxima(
            lines_from(body@, 0).map_values(|l: Seq<char>| line_raw_widths(strip_cr(l), dialect)),
        ),
        a.widths@ == column_maxima(
            lines_from(body@, 0).map_values(|l: Seq<char>| line_value_widths(strip_cr(l), dialect)),
        ),
        a.has_warnings == any_warning(lines_from(body@, 0).map_values(|l: Seq<char>| strip_cr(l)), dialect),
        a.needs_shrink == any_trimmed(lines_from(body@, 0).map_values(|l: Seq<char>| strip_cr(l)), dialect),
{
    let bn = body.len();
    let mut fields: Vec<FieldInfo> = Vec::new();
    let mut line_ends: Vec<usize> = Vec::new();
    let mut raw_width_targets: Vec<usize> = Vec::new();
    let mut widths: Vec<usize> = Vec::new();
    let mut has_warnings = false;
    let mut needs_shrink = false;
    let mut raw: Vec<RawField> = Vec::new();
    let ghost mut done: Seq<Seq<char>> = Seq::empty();
    let ghost mut lines: Seq<Seq<char>> = Seq::empty();
    let mut a: usize = 0;
    let mut finished = false;
    assert(flat_rows(fields@, line_ends@, Seq::empty()));
    while !finished
        invariant
            bn == body@.len(),
            utf16_length(body@) <= usize::MAX,
            a <= bn,
            !finished ==> lines_from(body@, 0) == done + lines_from(body@, a as int),
            finished ==> lines_from(body@, 0) == done,
            lines == done.map_values(|l: Seq<char>| strip_cr(l)),
            flat_rows(fields@, line_ends@, lines.map_values(|l: Seq<char>| line_infos(l, dialect))),
            raw_width_targets@ == column_maxima(
                lines.map_values(|l: Seq<char>| line_raw_widths(l, dialect)),
            ),
            widths@ == column_maxima(lines.map_values(|l: Seq<char>| line_value_widths(l, dialect))),
            has_warnings == any_warning(lines, dialect),
            needs_shrink == any_trimmed(lines, dialect),
        decreases (if finished {
            0
        } else {
            bn + 2 - a
        }),
    {
        let (k, le) = next_line(body, a);
        let line = &body[a..le];
        let ghost seg = body@.subrange(a as int, k as int);
        proof {
            lemma_utf16_sub(body@, a as int, le as int);
        }
        let ghost rows_raw = lines.map_values(|l: Seq<char>| line_raw_widths(l, dialect));
        let ghost rows_val = lines.map_values(|l: Seq<char>| line_value_widths(l, dialect));
        let ghost rows_info = lines.map_values(|l: Seq<char>| line_infos(l, dialect));
        let ghost fields_before = fields@;
        let ghost ends_before = line_ends@;
        let totals = measure_line(
            line,
            dialect,
            &mut raw,
            &mut fields,
            &mut raw_width_targets,
            &mut widths,
            Ghost(rows_raw),
            Ghost(rows_val),
        );
        has_warnings = has_warnings || totals.warning;
        needs_shrink = needs_shrink || totals.shrink;
        line_ends.push(fields.len());
        proof {
            let lines_before = lines;
            lemma_flat_rows_push(fields_before, ends_before, rows_info, line_infos(line@, dialect));
            done = done.push(seg);
            lines = lines.push(line@);
            assert(lines =~= done.map_values(|l: Seq<char>| strip_cr(l)));
            assert(lines.drop_last() =~= lines_before);
            lemma_measures_push(lines_before, line@, dialect);
        }
        if k >= bn {
            finished = true;
            proof {
                assert(lines_from(body@, a as int) == seq![seg]);
                assert(lines_from(body@, 0) =~= done);
            }
        } else {
            proof {
                assert(lines_from(body@, a as int) == seq![seg] + lines_from(body@, k + 1));
                assert(lines_from(body@, 0) =~= done + lines_from(body@, k + 1));
            }
            a = k + 1;
        }
    }
    proof {
        assert(lines =~= lines_from(body@, 0).map_values(|l: Seq<char>| strip_cr(l)));
        assert(lines.map_values(|l: Seq<char>| line_infos(l, dialect)) =~= lines_from(body@, 0).map_values(|l: Seq<char>| line_infos(strip_cr(l), dialect)));
        assert(lines.map_values(|l: Seq<char>| line_raw_widths(l, dialect)) =~= lines_from(body@, 0).map_values(|l: Seq<char>| line_raw_widths(strip_cr(l), dialect)));
        assert(lines.map_values(|l: Seq<char>| line_value_widths(l, dialect)) =~= lines_from(body@, 0).map_values(|l: Seq<char>| line_value_widths(strip_cr(l), dialect)));
    }
    let analysis = DocAnalysis {
        fields,
        line_ends,
        raw_width_targets,
        widths,
        has_warnings,
        // Settled by `analyze_document` once the widths are known.
        needs_align: false,
        needs_shrink,
    };
    proof {
        lemma_flat_rows_analysis(&analysis, lines.map_values(|l: Seq<char>| line_infos(l, dialect)));
    }
    analysis
}

/// Parse and measure a document.
pub fn analyze_document(text: &str, dialect: Dialect) -> (a: DocAnalysis)
    requires
        utf16_length(text@) <= usize::MAX,
    ensures
        a.wf(),
        a.rows() == doc_infos(text@, dialect),
        a.raw_width_targets@ == column_maxima(doc_raw_widths(text@, dialect)),
        a.widths@ == column_maxima(doc_value_widths(text@, dialect)),
        a.has_warnings == doc_has_warnings(text@, dialect),
        a.needs_shrink == doc_needs_shrink(text@, dialect),
        a.needs_align == (aligned_text(text@, dialect) != text@),
{
    let cs = chars_of(text);
    let n = cs.len();
    // A trailing newline doesn't start another record.
    let bn = if n > 0 && cs[n - 1] == '\n' {
        n - 1
    } else {
        n
    };
    let body = &cs.as_slice()[0..bn];
    assert(body@ == doc_body(text@));
    proof {
        lemma_utf16_sub(text@, 0, bn as int);
    }
    let mut analysis = measure_body(body, dialect);
    proof {
        let lines = doc_lines(text@);
        assert(doc_infos(text@, dialect) =~= lines_from(body@, 0).map_values(|l: Seq<char>| line_infos(strip_cr(l), dialect)));
        assert(doc_raw_widths(text@, dialect) =~= lines_from(body@, 0).map_values(|l: Seq<char>| line_raw_widths(strip_cr(l), dialect)));
        assert(doc_value_widths(text@, dialect) =~= lines_from(body@, 0).map_values(|l: Seq<char>| line_value_widths(strip_cr(l), dialect)));
        lemma_any_warning(lines, dialect);
        lemma_any_trimmed(lines, dialect);
    }
    // Align changes the text exactly when its output differs from it.
    let ghost before = analysis;
    if analysis.has_warnings {
        analysis.needs_align = false;
    } else {
        let aligned = rewrite_lines(cs.as_slice(), dialect, analysis.widths.as_slice(), RewriteMode::Align);
        analysis.needs_align = !same_chars(&aligned, cs.as_slice());
    }
    assert(analysis.fields@ == before.fields@ && analysis.line_ends@ == before.line_ends@);
    assert(analysis.rows() =~= before.rows());
    analysis
}

proof fn advance_utf16(s: Seq<char>, pos: int)
    requires
        0 <= pos < s.len(),
        utf16_length(s) <= usize::MAX,
    ensures
        utf16_length(s.take(pos + 1)) == utf16_length(s.take(pos)) + utf16_units(s[pos]),
        utf16_length(s.take(pos + 1)) <= usize::MAX,
{
    assert(s.take(pos + 1).drop_last() =~= s.take(pos));
    lemma_utf16_length_concat(s.take(pos + 1), s.skip(pos + 1));
    assert(s.take(pos + 1) + s.skip(pos + 1) =~= s);
}

} // verus!
