//! Whole-document operations: records, column widths, whitespace align and
//! shrink, and virtual-align pads.
use vstd::prelude::*;
use crate::text::{
    trim, spaces, unicode_str_width, chars_of, string_of, push_range, push_spaces, push_char,
    append_str,
};
use crate::rainbow_csv_core::split::{
    find_from, lemma_find_from, lemma_trimmed_span, count_lead_ws, count_trail_ws,
    lemma_closing_quote, lemma_skip_outer_ws,
};
use crate::rainbow_csv_core::analysis::{strip_cr, column_maxima, raise_row};
use super::dialect::Dialect;
use super::split::{
    pieces, pieces_from, line_fields, quoted_fields_from, tight_quoted_end, split_chars, push_pieces,
    display_width,
};

verus! {

broadcast use vstd::seq::group_seq_axioms;

// ---------------------------------------------------------------------------
// Model
// ---------------------------------------------------------------------------

/// `t` ends with a line feed.
pub open spec fn ends_with_lf(t: Seq<char>) -> bool {
    t.len() > 0 && t.last() == '\n'
}

/// The lines of a document: the pieces between line feeds, without the empty
/// piece that follows a final line feed.
pub open spec fn doc_lines(t: Seq<char>) -> Seq<Seq<char>> {
    if ends_with_lf(t) {
        pieces(t, '\n').drop_last()
    } else {
        pieces(t, '\n')
    }
}

/// The record of a line: its fields (of the line without a final `'\r'`),
/// each trimmed.
pub open spec fn record_of(line: Seq<char>, dialect: Dialect) -> Seq<Seq<char>> {
    line_fields(strip_cr(line), dialect).0.map_values(|f: Seq<char>| trim(f))
}

/// The records of a document, one per line.
pub open spec fn doc_records(t: Seq<char>, dialect: Dialect) -> Seq<Seq<Seq<char>>> {
    doc_lines(t).map_values(|l: Seq<char>| record_of(l, dialect))
}

/// Display widths of a record's fields.
pub open spec fn field_widths(r: Seq<Seq<char>>) -> Seq<usize> {
    r.map_values(|f: Seq<char>| unicode_str_width(f))
}

/// Largest field display width per column over `records`.
pub open spec fn record_widths(records: Seq<Seq<Seq<char>>>) -> Seq<usize> {
    column_maxima(records.map_values(|r: Seq<Seq<char>>| field_widths(r)))
}

/// Spaces that bring field `f` of column `i` up to the column's width (none
/// where `widths` has no entry `i` or `f` is at least as wide).
pub open spec fn pad_for(widths: Seq<usize>, i: int, f: Seq<char>) -> nat {
    if 0 <= i < widths.len() && widths[i] >= unicode_str_width(f) {
        (widths[i] - unicode_str_width(f)) as nat
    } else {
        0
    }
}

/// Fields `k..` of `r` joined by `d`, every field but the last padded to its
/// column width.
pub open spec fn joined_from(r: Seq<Seq<char>>, widths: Seq<usize>, d: char, k: int) -> Seq<char>
    decreases r.len() - k,
{
    if k < 0 || k >= r.len() {
        Seq::empty()
    } else if k + 1 == r.len() {
        r[k]
    } else {
        r[k] + spaces(pad_for(widths, k, r[k])) + seq![d] + joined_from(r, widths, d, k + 1)
    }
}

/// A record laid out with every field but the last padded to its column.
pub open spec fn aligned_record(r: Seq<Seq<char>>, widths: Seq<usize>, d: char) -> Seq<char> {
    joined_from(r, widths, d, 0)
}

/// A record's fields joined by `d` (with no column widths nothing is padded).
pub open spec fn joined_record(r: Seq<Seq<char>>, d: char) -> Seq<char> {
    joined_from(r, Seq::empty(), d, 0)
}

/// The line break that follows a line: CR LF when the line ends with `'\r'`.
pub open spec fn line_ending(l: Seq<char>) -> Seq<char> {
    if l.len() > 0 && l.last() == '\r' {
        seq!['\r', '\n']
    } else {
        seq!['\n']
    }
}

/// A line as whitespace-align writes it: a line with unbalanced quotes keeps
/// its content, every other record is trimmed and padded to the columns.
pub open spec fn aligned_line(l: Seq<char>, dialect: Dialect, widths: Seq<usize>) -> Seq<char> {
    if line_fields(strip_cr(l), dialect).1 {
        strip_cr(l)
    } else {
        aligned_record(record_of(l, dialect), widths, dialect.spec_delimiter())
    }
}

/// The `k`-th line of whitespace-align's output with its line break (the
/// last line has one only when the document ends with a line feed).
pub open spec fn aligned_part(t: Seq<char>, dialect: Dialect, widths: Seq<usize>, k: int) -> Seq<
    char,
> {
    let lines = doc_lines(t);
    aligned_line(lines[k], dialect, widths) + if k + 1 < lines.len() || ends_with_lf(t) {
        line_ending(lines[k])
    } else {
        Seq::empty()
    }
}

/// What whitespace-align makes of a document: every line aligned against the
/// column widths of all records, each followed by its own line break.
pub open spec fn aligned_text(t: Seq<char>, dialect: Dialect) -> Seq<char> {
    if t.len() == 0 {
        Seq::empty()
    } else {
        let widths = record_widths(doc_records(t, dialect));
        Seq::new(doc_lines(t).len(), |k: int| aligned_part(t, dialect, widths, k)).flatten()
    }
}

/// One shrunk line: its trimmed fields joined, and its `'\r'` kept.
pub open spec fn shrunk_line(l: Seq<char>, dialect: Dialect) -> Seq<char> {
    joined_record(record_of(l, dialect), dialect.spec_delimiter()) + if l.len() > 0 && l.last()
        == '\r' {
        seq!['\r']
    } else {
        Seq::empty()
    }
}

/// What shrink makes of a document: every line shrunk, lines joined by line
/// feeds, and a final line feed kept.
pub open spec fn shrunk_text(t: Seq<char>, dialect: Dialect) -> Seq<char> {
    if t.len() == 0 {
        Seq::empty()
    } else {
        let lines = doc_lines(t);
        Seq::new(
            lines.len(),
            |k: int|
                shrunk_line(lines[k], dialect) + if k + 1 < lines.len() || ends_with_lf(t) {
                    seq!['\n']
                } else {
                    Seq::empty()
                },
        ).flatten()
    }
}

/// Some field of some line has surrounding whitespace.
pub open spec fn shrink_changes(t: Seq<char>, dialect: Dialect) -> bool {
    exists|l: int, k: int|
        0 <= l < doc_lines(t).len() && 0 <= k < line_fields(strip_cr(doc_lines(t)[l]), dialect).0.len()
            && trim(#[trigger] line_fields(strip_cr(doc_lines(t)[l]), dialect).0[k])
            != line_fields(strip_cr(doc_lines(t)[l]), dialect).0[k]
}

// ---------------------------------------------------------------------------
// Facts about lines
// ---------------------------------------------------------------------------

/// After a final delimiter the last piece is empty.
pub proof fn lemma_pieces_last_empty(s: Seq<char>, d: char, i: int)
    requires
        0 <= i <= s.len(),
        s.len() > 0,
        s.last() == d,
    ensures
        pieces_from(s, d, i).len() > 0,
        pieces_from(s, d, i).last() == Seq::<char>::empty(),
    decreases s.len() - i,
{
    lemma_find_from(s, i, d);
    let p = find_from(s, i, d);
    if i < s.len() {
        assert(p < s.len()) by {
            if p >= s.len() {
                assert(s[s.len() - 1] != d);
            }
        }
        lemma_pieces_last_empty(s, d, p + 1);
    }
}

// ---------------------------------------------------------------------------
// Records
// ---------------------------------------------------------------------------

/// `s` without surrounding whitespace.
fn trim_string(s: &String) -> (r: String)
    ensures
        r@ == trim(s@),
{
    let cs = chars_of(s.as_str());
    let n = cs.len();
    proof {
        lemma_trimmed_span(cs@, 0, n as int);
        assert(cs@.subrange(0, n as int) =~= cs@);
    }
    let lead = count_lead_ws(cs.as_slice(), 0, n);
    let trail = count_trail_ws(cs.as_slice(), 0, n);
    let tend = n - trail;
    let tstart = if lead <= tend {
        lead
    } else {
        tend
    };
    string_of(cs.as_slice(), tstart, tend)
}

/// The lines of `cs` (see [`doc_lines`]).
fn document_lines(cs: &[char]) -> (lines: Vec<String>)
    ensures
        lines.deep_view() == doc_lines(cs@),
{
    let mut lines: Vec<String> = Vec::new();
    assert(lines.deep_view() =~= Seq::<Seq<char>>::empty());
    push_pieces(cs, '\n', 0, &mut lines);
    assert(lines.deep_view() =~= pieces(cs@, '\n'));
    let n = cs.len();
    if n > 0 && cs[n - 1] == '\n' {
        // The piece after the final line feed is always empty: drop it.
        proof {
            lemma_pieces_last_empty(cs@, '\n', 0);
        }
        let _ = lines.pop();
        assert(lines.deep_view() =~= pieces(cs@, '\n').drop_last());
    }
    lines
}

/// The record of one line (see [`record_of`]).
fn record_of_line(line: &String, dialect: Dialect) -> (rec: Vec<String>)
    ensures
        rec.deep_view() == record_of(line@, dialect),
{
    let cs = chars_of(line.as_str());
    let n = cs.len();
    let m = if n > 0 && cs[n - 1] == '\r' {
        n - 1
    } else {
        n
    };
    let stripped = &cs.as_slice()[0..m];
    assert(stripped@ =~= strip_cr(line@));
    let mut raw: Vec<String> = Vec::new();
    assert(raw.deep_view() =~= Seq::<Seq<char>>::empty());
    let _ = split_chars(stripped, dialect, &mut raw);
    assert(raw.deep_view() =~= line_fields(strip_cr(line@), dialect).0);
    let ghost target = record_of(line@, dialect);
    let mut rec: Vec<String> = Vec::new();
    let mut k: usize = 0;
    while k < raw.len()
        invariant
            k <= raw@.len(),
            raw.deep_view() == line_fields(strip_cr(line@), dialect).0,
            target == record_of(line@, dialect),
            rec.deep_view() =~= target.take(k as int),
        decreases raw@.len() - k,
    {
        let t = trim_string(&raw[k]);
        let ghost before = rec.deep_view();
        assert(raw.deep_view()[k as int] == raw@[k as int]@);
        assert(target[k as int] == t@);
        rec.push(t);
        assert(rec.deep_view() =~= before.push(t@));
        k += 1;
        assert(rec.deep_view() =~= target.take(k as int));
    }
    assert(target.take(k as int) =~= target);
    rec
}

/// Records of every line of `cs`.
fn records_of_lines(lines: &Vec<String>, dialect: Dialect) -> (records: Vec<Vec<String>>)
    ensures
        records.deep_view() == lines.deep_view().map_values(|l: Seq<char>| record_of(l, dialect)),
{
    let ghost target = lines.deep_view().map_values(|l: Seq<char>| record_of(l, dialect));
    let mut records: Vec<Vec<String>> = Vec::new();
    let mut k: usize = 0;
    while k < lines.len()
        invariant
            k <= lines@.len(),
            target == lines.deep_view().map_values(|l: Seq<char>| record_of(l, dialect)),
            records.deep_view() =~= target.take(k as int),
        decreases lines@.len() - k,
    {
        let rec = record_of_line(&lines[k], dialect);
        let ghost before = records.deep_view();
        assert(lines.deep_view()[k as int] == lines@[k as int]@);
        assert(target[k as int] == rec.deep_view());
        records.push(rec);
        assert(records.deep_view() =~= before.push(rec.deep_view()));
        k += 1;
        assert(records.deep_view() =~= target.take(k as int));
    }
    assert(target.take(k as int) =~= target);
    records
}

/// Trimmed records of a document, one per line; the empty piece after a
/// final line feed is no record.
pub fn parse_trimmed_records(text: &str, dialect: Dialect) -> (records: Vec<Vec<String>>)
    ensures
        records.deep_view() == doc_records(text@, dialect),
{
    let cs = chars_of(text);
    let lines = document_lines(cs.as_slice());
    records_of_lines(&lines, dialect)
}

/// Largest field display width per column.
pub fn column_widths(records: &[Vec<String>]) -> (widths: Vec<usize>)
    ensures
        widths@ == record_widths(records.deep_view()),
{
    let ghost rows = records.deep_view().map_values(|r: Seq<Seq<char>>| field_widths(r));
    let mut widths: Vec<usize> = Vec::new();
    assert(widths@ =~= column_maxima(rows.take(0)));
    let mut l: usize = 0;
    while l < records.len()
        invariant
            l <= records@.len(),
            rows == records.deep_view().map_values(|r: Seq<Seq<char>>| field_widths(r)),
            widths@ == column_maxima(rows.take(l as int)),
        decreases records@.len() - l,
    {
        let rec = &records[l];
        let mut row: Vec<usize> = Vec::new();
        let mut i: usize = 0;
        while i < rec.len()
            invariant
                i <= rec@.len(),
                l < records@.len(),
                rec == records@[l as int],
                rows == records.deep_view().map_values(|r: Seq<Seq<char>>| field_widths(r)),
                row@ =~= rows[l as int].take(i as int),
            decreases rec@.len() - i,
        {
            row.push(display_width(rec[i].as_str()));
            i += 1;
            assert(row@ =~= rows[l as int].take(i as int));
        }
        assert(row@ =~= rows[l as int]);
        raise_row(&mut widths, row.as_slice(), Ghost(rows.take(l as int)));
        assert(rows.take(l as int).push(rows[l as int]) =~= rows.take(l + 1));
        l += 1;
    }
    assert(rows.take(l as int) =~= rows);
    widths
}

// ---------------------------------------------------------------------------
// Align and shrink
// ---------------------------------------------------------------------------

/// Appends `rec` laid out against `widths` (see [`joined_from`]).
fn render_record(rec: &Vec<String>, widths: &[usize], d: char, out: &mut String)
    ensures
        final(out)@ == old(out)@ + joined_from(rec.deep_view(), widths@, d, 0),
{
    let ghost r = rec.deep_view();
    let ghost total = old(out)@ + joined_from(r, widths@, d, 0);
    let n = rec.len();
    let mut k: usize = 0;
    while k < n
        invariant
            k <= n == rec@.len() == r.len(),
            r == rec.deep_view(),
            out@ + joined_from(r, widths@, d, k as int) == total,
        decreases n - k,
    {
        let ghost before = out@;
        assert(r[k as int] == rec@[k as int]@);
        append_str(out, rec[k].as_str());
        if k + 1 < n {
            let w = display_width(rec[k].as_str());
            let pad = if k < widths.len() && widths[k] >= w {
                widths[k] - w
            } else {
                0
            };
            push_spaces(out, pad);
            push_char(out, d);
            assert(out@ + joined_from(r, widths@, d, k + 1) =~= before + joined_from(
                r,
                widths@,
                d,
                k as int,
            ));
        } else {
            assert(out@ + joined_from(r, widths@, d, k + 1) =~= before + joined_from(
                r,
                widths@,
                d,
                k as int,
            ));
        }
        k += 1;
    }
}

/// `s` ends with `'\r'`.
fn ends_with_cr(s: &String) -> (b: bool)
    ensures
        b == (s@.len() > 0 && s@.last() == '\r'),
{
    let cs = chars_of(s.as_str());
    cs.len() > 0 && cs[cs.len() - 1] == '\r'
}

/// The unbalanced-quote flag of a line (without its final `'\r'`).
fn line_warning(line: &String, dialect: Dialect) -> (w: bool)
    ensures
        w == line_fields(strip_cr(line@), dialect).1,
{
    let cs = chars_of(line.as_str());
    let n = cs.len();
    let m = if n > 0 && cs[n - 1] == '\r' {
        n - 1
    } else {
        n
    };
    let stripped = &cs.as_slice()[0..m];
    assert(stripped@ =~= strip_cr(line@));
    let mut raw: Vec<String> = Vec::new();
    split_chars(stripped, dialect, &mut raw)
}

/// Appends `line` without its final `'\r'`.
fn push_stripped(line: &String, out: &mut String)
    ensures
        final(out)@ == old(out)@ + strip_cr(line@),
{
    let cs = chars_of(line.as_str());
    let n = cs.len();
    let m = if n > 0 && cs[n - 1] == '\r' {
        n - 1
    } else {
        n
    };
    push_range(out, cs.as_slice(), 0, m);
    assert(cs@.subrange(0, m as int) =~= strip_cr(line@));
}

/// Whitespace-align: trims every field and pads every field but the last to
/// its column's display width. A line with unbalanced quotes keeps its
/// content but still counts towards the widths. Lines keep their own line
/// breaks; an empty text stays empty.
pub fn align_document(text: &str, dialect: Dialect) -> (r: String)
    ensures
        r@ == aligned_text(text@, dialect),
{
    let cs = chars_of(text);
    let n = cs.len();
    if n == 0 {
        return String::new();
    }
    let trailing = cs[n - 1] == '\n';
    let lines = document_lines(cs.as_slice());
    let records = records_of_lines(&lines, dialect);
    let widths = column_widths(records.as_slice());
    let d = dialect.delimiter();
    let ghost lines_v = doc_lines(text@);
    let ghost recs = doc_records(text@, dialect);
    let ghost parts = Seq::new(lines_v.len(), |k: int| aligned_part(text@, dialect, widths@, k));
    let mut out = String::new();
    let mut k: usize = 0;
    while k < lines.len()
        invariant
            k <= lines@.len() == lines_v.len() == parts.len() == records@.len(),
            lines_v == doc_lines(text@),
            lines.deep_view() == lines_v,
            recs == doc_records(text@, dialect),
            records.deep_view() == recs,
            trailing == ends_with_lf(text@),
            d == dialect.spec_delimiter(),
            parts == Seq::new(lines_v.len(), |k: int| aligned_part(text@, dialect, widths@, k)),
            out@ == parts.take(k as int).flatten(),
        decreases lines@.len() - k,
    {
        let ghost before = out@;
        assert(records.deep_view()[k as int] == records@[k as int].deep_view());
        assert(lines.deep_view()[k as int] == lines@[k as int]@);
        if line_warning(&lines[k], dialect) {
            push_stripped(&lines[k], &mut out);
        } else {
            render_record(&records[k], widths.as_slice(), d, &mut out);
        }
        if k + 1 < lines.len() || trailing {
            if ends_with_cr(&lines[k]) {
                push_char(&mut out, '\r');
            }
            push_char(&mut out, '\n');
        }
        proof {
            parts.take(k as int).lemma_flatten_push(parts[k as int]);
            assert(parts.take(k + 1) =~= parts.take(k as int).push(parts[k as int]));
        }
        assert(out@ =~= before + parts[k as int]);
        k += 1;
    }
    assert(parts.take(k as int) =~= parts);
    out
}

/// Some line of the document has unbalanced quotes.
pub open spec fn doc_has_warnings(t: Seq<char>, dialect: Dialect) -> bool {
    exists|l: int| 0 <= l < doc_lines(t).len() && #[trigger] line_fields(strip_cr(doc_lines(t)[l]), dialect).1
}

/// Whether some line of the document has unbalanced quotes.
pub fn has_warnings(text: &str, dialect: Dialect) -> (w: bool)
    ensures
        w == doc_has_warnings(text@, dialect),
{
    let cs = chars_of(text);
    let lines = document_lines(cs.as_slice());
    let ghost lines_v = doc_lines(text@);
    let mut k: usize = 0;
    while k < lines.len()
        invariant
            k <= lines@.len() == lines_v.len(),
            lines_v == doc_lines(text@),
            lines.deep_view() == lines_v,
            forall|l: int| 0 <= l < k ==> !#[trigger] line_fields(strip_cr(lines_v[l]), dialect).1,
        decreases lines@.len() - k,
    {
        assert(lines.deep_view()[k as int] == lines@[k as int]@);
        if line_warning(&lines[k], dialect) {
            return true;
        }
        k += 1;
    }
    false
}

/// Appends one shrunk line; returns whether some field had surrounding
/// whitespace.
fn shrink_line(line: &String, dialect: Dialect, out: &mut String) -> (changed: bool)
    ensures
        final(out)@ == old(out)@ + shrunk_line(line@, dialect),
        changed == exists|k: int|
            0 <= k < line_fields(strip_cr(line@), dialect).0.len() && trim(
                #[trigger] line_fields(strip_cr(line@), dialect).0[k],
            ) != line_fields(strip_cr(line@), dialect).0[k],
{
    let cs = chars_of(line.as_str());
    let n = cs.len();
    let cr = n > 0 && cs[n - 1] == '\r';
    let m = if cr {
        n - 1
    } else {
        n
    };
    let stripped = &cs.as_slice()[0..m];
    assert(stripped@ =~= strip_cr(line@));
    let mut raw: Vec<String> = Vec::new();
    assert(raw.deep_view() =~= Seq::<Seq<char>>::empty());
    let _ = split_chars(stripped, dialect, &mut raw);
    let ghost fields = line_fields(strip_cr(line@), dialect).0;
    assert(raw.deep_view() =~= fields);
    let ghost target = record_of(line@, dialect);
    let mut rec: Vec<String> = Vec::new();
    let mut changed = false;
    let mut k: usize = 0;
    while k < raw.len()
        invariant
            k <= raw@.len() == fields.len(),
            raw.deep_view() == fields,
            fields == line_fields(strip_cr(line@), dialect).0,
            target == record_of(line@, dialect),
            rec.deep_view() =~= target.take(k as int),
            changed == exists|j: int| 0 <= j < k && trim(#[trigger] fields[j]) != fields[j],
        decreases raw@.len() - k,
    {
        let t = trim_string(&raw[k]);
        let ghost before = rec.deep_view();
        assert(raw.deep_view()[k as int] == raw@[k as int]@);
        assert(target[k as int] == t@);
        if t != raw[k] {
            changed = true;
        }
        rec.push(t);
        assert(rec.deep_view() =~= before.push(t@));
        k += 1;
        assert(rec.deep_view() =~= target.take(k as int));
    }
    assert(target.take(k as int) =~= target);
    let empty: Vec<usize> = Vec::new();
    assert(empty@ =~= Seq::<usize>::empty());
    render_record(&rec, empty.as_slice(), dialect.delimiter(), out);
    if cr {
        push_char(out, '\r');
    }
    changed
}

/// Shrink: trims the whitespace around every field. Returns the new text and
/// whether some field had surrounding whitespace, which is exactly when the
/// text changed.
pub fn shrink_document(text: &str, dialect: Dialect) -> (r: (String, bool))
    ensures
        r.0@ == shrunk_text(text@, dialect),
        r.1 == shrink_changes(text@, dialect),
        r.1 == (r.0@ != text@),
{
    proof {
        law_shrink_flag_is_change(text@, dialect);
    }
    let cs = chars_of(text);
    let n = cs.len();
    if n == 0 {
        proof {
            assert(pieces(text@, '\n') == seq![Seq::<char>::empty()]) by {
                lemma_find_from(text@, 0, '\n');
                assert(text@.subrange(0, 0) =~= Seq::<char>::empty());
            }
            assert(line_fields(Seq::<char>::empty(), dialect).0 == seq![Seq::<char>::empty()]) by {
                lemma_find_from(Seq::<char>::empty(), 0, dialect.spec_delimiter());
                assert(Seq::<char>::empty().subrange(0, 0) =~= Seq::<char>::empty());
            }
            assert(strip_cr(Seq::<char>::empty()) == Seq::<char>::empty());
            assert(trim(Seq::<char>::empty()) == Seq::<char>::empty());
        }
        return (String::new(), false);
    }
    let trailing = cs[n - 1] == '\n';
    let lines = document_lines(cs.as_slice());
    let ghost lines_v = doc_lines(text@);
    let ghost parts = Seq::new(
        lines_v.len(),
        |k: int|
            shrunk_line(lines_v[k], dialect) + if k + 1 < lines_v.len() || ends_with_lf(text@) {
                seq!['\n']
            } else {
                Seq::empty()
            },
    );
    let mut out = String::new();
    let mut changed = false;
    let mut k: usize = 0;
    while k < lines.len()
        invariant
            k <= lines@.len() == lines_v.len() == parts.len(),
            lines.deep_view() == lines_v,
            lines_v == doc_lines(text@),
            trailing == ends_with_lf(text@),
            parts == Seq::new(
                lines_v.len(),
                |k: int|
                    shrunk_line(lines_v[k], dialect) + if k + 1 < lines_v.len() || ends_with_lf(
                        text@,
                    ) {
                        seq!['\n']
                    } else {
                        Seq::empty()
                    },
            ),
            out@ == parts.take(k as int).flatten(),
            changed == exists|l: int, j: int|
                0 <= l < k && 0 <= j < line_fields(strip_cr(lines_v[l]), dialect).0.len() && trim(
                    #[trigger] line_fields(strip_cr(lines_v[l]), dialect).0[j],
                ) != line_fields(strip_cr(lines_v[l]), dialect).0[j],
        decreases lines@.len() - k,
    {
        let ghost before = out@;
        assert(lines.deep_view()[k as int] == lines@[k as int]@);
        let c = shrink_line(&lines[k], dialect, &mut out);
        if c {
            changed = true;
        }
        if k + 1 < lines.len() || trailing {
            push_char(&mut out, '\n');
        }
        proof {
            parts.take(k as int).lemma_flatten_push(parts[k as int]);
            assert(parts.take(k + 1) =~= parts.take(k as int).push(parts[k as int]));
        }
        assert(out@ =~= before + parts[k as int]);
        k += 1;
    }
    assert(parts.take(k as int) =~= parts);
    (out, changed)
}

// ---------------------------------------------------------------------------
// Virtual-align pads
// ---------------------------------------------------------------------------

/// One virtual-align pad: insert `spaces` after `line:col` (`col` is where
/// the field ends, counted in characters of the unpadded record).
#[derive(Debug, Clone, PartialEq, Eq, Structural)]
pub struct VirtualPad {
    pub line: u32,
    pub col: u32,
    pub spaces: usize,
}

/// Characters before field `k` of a record laid out unpadded: every earlier
/// field and the delimiter after it.
pub open spec fn prefix_len(r: Seq<Seq<char>>, k: int) -> int
    decreases k,
{
    if k <= 0 {
        0
    } else {
        prefix_len(r, k - 1) + r[k - 1].len() + 1
    }
}

/// Pads of fields `0..k` of record `r`, which lies on line `line`: one for
/// every field but the last that is narrower than its column.
pub open spec fn record_pads_upto(r: Seq<Seq<char>>, widths: Seq<usize>, line: u32, k: int) -> Seq<
    VirtualPad,
>
    decreases k,
{
    if k <= 0 {
        Seq::empty()
    } else {
        let i = k - 1;
        let prev = record_pads_upto(r, widths, line, i);
        if i + 1 < r.len() && pad_for(widths, i, r[i]) > 0 {
            prev.push(
                VirtualPad {
                    line,
                    col: (prefix_len(r, i) + r[i].len()) as u32,
                    spaces: pad_for(widths, i, r[i]) as usize,
                },
            )
        } else {
            prev
        }
    }
}

/// Pads of records `0..l` whose line number, as a `u32`, lies in
/// `start..=end`.
pub open spec fn range_pads_upto(
    records: Seq<Seq<Seq<char>>>,
    widths: Seq<usize>,
    start: u32,
    end: u32,
    l: int,
) -> Seq<VirtualPad>
    decreases l,
{
    if l <= 0 {
        Seq::empty()
    } else {
        let prev = range_pads_upto(records, widths, start, end, l - 1);
        let line = (l - 1) as u32;
        if start <= line && line <= end {
            prev + record_pads_upto(records[l - 1], widths, line, records[l - 1].len() as int)
        } else {
            prev
        }
    }
}

/// Pads of every record whose line lies in `start..=end`, in line order.
pub open spec fn range_pads(records: Seq<Seq<Seq<char>>>, widths: Seq<usize>, start: u32, end: u32) -> Seq<
    VirtualPad,
> {
    range_pads_upto(records, widths, start, end, records.len() as int)
}

/// Every record, laid out unpadded, fits in `usize` characters.
pub open spec fn records_fit(records: Seq<Seq<Seq<char>>>) -> bool {
    forall|l: int| 0 <= l < records.len() ==> prefix_len(#[trigger] records[l], records[l].len() as int) <= usize::MAX
}

pub proof fn lemma_prefix_len_mono(r: Seq<Seq<char>>, j: int, k: int)
    requires
        0 <= j <= k,
    ensures
        prefix_len(r, j) <= prefix_len(r, k),
        k > 0 ==> prefix_len(r, k) >= prefix_len(r, k - 1) + r[k - 1].len() + 1,
    decreases k,
{
    if j < k {
        lemma_prefix_len_mono(r, j, k - 1);
    }
}

pub proof fn lemma_prefix_len_cons(f: Seq<char>, rest: Seq<Seq<char>>, j: int)
    requires
        0 <= j <= rest.len(),
    ensures
        prefix_len(seq![f] + rest, j + 1) == f.len() + 1 + prefix_len(rest, j),
    decreases j,
{
    let s = seq![f] + rest;
    assert(s[0] == f);
    assert(prefix_len(s, 1) == prefix_len(s, 0) + s[0].len() + 1);
    if j > 0 {
        lemma_prefix_len_cons(f, rest, j - 1);
        assert(s[j] == rest[j - 1]);
        assert(prefix_len(s, j + 1) == prefix_len(s, j) + s[j].len() + 1);
        assert(prefix_len(rest, j) == prefix_len(rest, j - 1) + rest[j - 1].len() + 1);
    }
}

/// The pieces of `s[i..]`, laid out with their delimiters, are `s[i..]`.
pub proof fn lemma_pieces_total(s: Seq<char>, d: char, i: int)
    requires
        0 <= i <= s.len(),
    ensures
        prefix_len(pieces_from(s, d, i), pieces_from(s, d, i).len() as int) == s.len() - i + 1,
    decreases s.len() - i,
{
    lemma_find_from(s, i, d);
    let p = find_from(s, i, d);
    if p < s.len() {
        lemma_pieces_total(s, d, p + 1);
        let rest = pieces_from(s, d, p + 1);
        lemma_prefix_len_cons(s.subrange(i, p), rest, rest.len() as int);
    } else {
        assert(prefix_len(pieces_from(s, d, i), 1) == prefix_len(pieces_from(s, d, i), 0) + s.len() - i + 1);
    }
}

/// The quote-aware fields of `s[i..]`, laid out with delimiters, take at most
/// the room of `s[i..]`.
pub proof fn lemma_quoted_total(s: Seq<char>, d: char, i: int)
    requires
        0 <= i <= s.len(),
    ensures
        prefix_len(quoted_fields_from(s, d, i).0, quoted_fields_from(s, d, i).0.len() as int) <= s.len() - i + 1,
    decreases s.len() - i,
{
    if i < s.len() {
        lemma_find_from(s, i, d);
        let q = quoted_fields_from(s, d, i).0;
        if s[i] == '"' {
            lemma_closing_quote(s, i + 1);
            match tight_quoted_end(s, i, d) {
                Some(e) => {
                    let f = s.subrange(i, e);
                    if e >= s.len() {
                        assert(prefix_len(q, 1) == prefix_len(q, 0) + f.len() + 1);
                    } else if e + 1 == s.len() {
                        assert(prefix_len(q, 1) == prefix_len(q, 0) + f.len() + 1);
                        assert(prefix_len(q, 2) == prefix_len(q, 1) + 0 + 1);
                    } else {
                        lemma_quoted_total(s, d, e + 1);
                        let rest = quoted_fields_from(s, d, e + 1).0;
                        lemma_prefix_len_cons(f, rest, rest.len() as int);
                    }
                },
                None => {
                    let p = find_from(s, i, d);
                    let f = s.subrange(i, p);
                    if p < s.len() {
                        lemma_quoted_total(s, d, p + 1);
                        let rest = quoted_fields_from(s, d, p + 1).0;
                        lemma_prefix_len_cons(f, rest, rest.len() as int);
                    } else {
                        assert(prefix_len(q, 1) == prefix_len(q, 0) + f.len() + 1);
                    }
                },
            }
        } else {
            let p = find_from(s, i, d);
            let f = s.subrange(i, p);
            if p >= s.len() {
                assert(prefix_len(q, 1) == prefix_len(q, 0) + f.len() + 1);
            } else if p + 1 == s.len() {
                assert(prefix_len(q, 1) == prefix_len(q, 0) + f.len() + 1);
                assert(prefix_len(q, 2) == prefix_len(q, 1) + 0 + 1);
            } else {
                lemma_quoted_total(s, d, p + 1);
                let rest = quoted_fields_from(s, d, p + 1).0;
                lemma_prefix_len_cons(f, rest, rest.len() as int);
            }
        }
    }
}

/// Trimming fields never lengthens a laid-out record.
pub proof fn lemma_prefix_len_trim(r: Seq<Seq<char>>, k: int)
    requires
        0 <= k <= r.len(),
    ensures
        prefix_len(r.map_values(|f: Seq<char>| trim(f)), k) <= prefix_len(r, k),
    decreases k,
{
    if k > 0 {
        lemma_prefix_len_trim(r, k - 1);
        let f = r[k - 1];
        lemma_trimmed_span(f, 0, f.len() as int);
        assert(f.subrange(0, f.len() as int) =~= f);
    }
}

/// A record of a line of `t`, laid out unpadded, takes at most `t.len() + 1`
/// characters.
pub proof fn lemma_record_fits(t: Seq<char>, dialect: Dialect, l: int)
    requires
        0 <= l < doc_lines(t).len(),
    ensures
        prefix_len(doc_records(t, dialect)[l], doc_records(t, dialect)[l].len() as int) <= t.len() + 1,
{
    let p = pieces(t, '\n');
    lemma_pieces_total(t, '\n', 0);
    let line = doc_lines(t)[l];
    assert(line == p[l]);
    lemma_prefix_len_mono(p, l + 1, p.len() as int);
    lemma_prefix_len_mono(p, l, l + 1);
    lemma_prefix_len_mono(p, 0, l);
    assert(line.len() <= t.len());
    let sl = strip_cr(line);
    assert(sl.len() <= line.len());
    let fs = line_fields(sl, dialect).0;
    if !dialect.spec_quoted() || !sl.contains('"') {
        lemma_pieces_total(sl, dialect.spec_delimiter(), 0);
    } else {
        lemma_quoted_total(sl, dialect.spec_delimiter(), 0);
    }
    assert(prefix_len(fs, fs.len() as int) <= sl.len() + 1);
    lemma_prefix_len_trim(fs, fs.len() as int);
    assert(doc_records(t, dialect)[l] == fs.map_values(|f: Seq<char>| trim(f)));
}

/// Pads of record `rec` on line `line`, appended to `pads`.
fn push_record_pads(rec: &Vec<String>, widths: &[usize], line: u32, pads: &mut Vec<VirtualPad>)
    requires
        prefix_len(rec.deep_view(), rec@.len() as int) <= usize::MAX,
    ensures
        final(pads)@ == old(pads)@ + record_pads_upto(rec.deep_view(), widths@, line, rec@.len() as int),
{
    let ghost r = rec.deep_view();
    let ghost p0 = pads@;
    let n = rec.len();
    let mut col: usize = 0;
    let mut i: usize = 0;
    while i < n
        invariant
            i <= n == rec@.len() == r.len(),
            r == rec.deep_view(),
            prefix_len(r, n as int) <= usize::MAX,
            i < n ==> col == prefix_len(r, i as int),
            pads@ == p0 + record_pads_upto(r, widths@, line, i as int),
        decreases n - i,
    {
        proof {
            lemma_prefix_len_mono(r, i + 1, n as int);
            lemma_prefix_len_mono(r, i as int, i + 1);
        }
        assert(r[i as int] == rec@[i as int]@);
        let is_last = i + 1 == n;
        let cs = chars_of(rec[i].as_str());
        col = col + cs.len();
        if !is_last {
            let w = display_width(rec[i].as_str());
            let target = if i < widths.len() {
                widths[i]
            } else {
                0
            };
            let pad = if target >= w {
                target - w
            } else {
                0
            };
            assert(pad == pad_for(widths@, i as int, r[i as int]));
            if pad > 0 {
                pads.push(VirtualPad {line, col: #[verifier::truncate] (col as u32), spaces: pad });
            }
            col = col + 1;
        }
        i += 1;
    }
}

/// Virtual-align pads for the records on lines `start_line..=end_line`.
pub fn pads_for_range(
    records: &[Vec<String>],
    widths: &[usize],
    start_line: u32,
    end_line: u32,
) -> (pads: Vec<VirtualPad>)
    requires
        records_fit(records.deep_view()),
    ensures
        pads@ == range_pads(records.deep_view(), widths@, start_line, end_line),
{
    let ghost rs = records.deep_view();
    let mut pads: Vec<VirtualPad> = Vec::new();
    let mut l: usize = 0;
    while l < records.len()
        invariant
            l <= records@.len() == rs.len(),
            rs == records.deep_view(),
            records_fit(rs),
            pads@ == range_pads_upto(rs, widths@, start_line, end_line, l as int),
        decreases records@.len() - l,
    {
        let lnum = #[verifier::truncate] (l as u32);
        if !(lnum < start_line || lnum > end_line) {
            assert(rs[l as int] == records@[l as int].deep_view());
            push_record_pads(&records[l], widths, lnum, &mut pads);
        }
        l += 1;
    }
    pads
}

/// Virtual-align pads of a whole document.
pub fn virtual_pads(text: &str, dialect: Dialect) -> (pads: Vec<VirtualPad>)
    requires
        text@.len() < usize::MAX,
    ensures
        pads@ == range_pads(
            doc_records(text@, dialect),
            record_widths(doc_records(text@, dialect)),
            0,
            u32::MAX,
        ),
{
    let records = parse_trimmed_records(text, dialect);
    proof {
        assert forall|l: int| 0 <= l < records.deep_view().len() implies prefix_len(
            #[trigger] records.deep_view()[l],
            records.deep_view()[l].len() as int,
        ) <= usize::MAX by {
            lemma_record_fits(text@, dialect, l);
        }
    }
    let widths = column_widths(records.as_slice());
    pads_for_range(records.as_slice(), widths.as_slice(), 0, u32::MAX)
}

// ---------------------------------------------------------------------------
// Laws
// ---------------------------------------------------------------------------

/// The pad is on line `p.line`, which lies in `start..=end`.
pub open spec fn pad_in_lines(p: VirtualPad, start: u32, end: u32) -> bool {
    start <= p.line && p.line <= end
}

proof fn lemma_filter_keeps_all(s: Seq<VirtualPad>, start: u32, end: u32)
    requires
        forall|i: int| 0 <= i < s.len() ==> pad_in_lines(#[trigger] s[i], start, end),
    ensures
        s.filter(|p: VirtualPad| pad_in_lines(p, start, end)) == s,
    decreases s.len(),
{
    reveal(Seq::filter);
    if s.len() > 0 {
        lemma_filter_keeps_all(s.drop_last(), start, end);
        assert(s.drop_last().push(s.last()) =~= s);
    }
}

proof fn lemma_filter_keeps_none(s: Seq<VirtualPad>, start: u32, end: u32)
    requires
        forall|i: int| 0 <= i < s.len() ==> !pad_in_lines(#[trigger] s[i], start, end),
    ensures
        s.filter(|p: VirtualPad| pad_in_lines(p, start, end)) == Seq::<VirtualPad>::empty(),
    decreases s.len(),
{
    reveal(Seq::filter);
    if s.len() > 0 {
        lemma_filter_keeps_none(s.drop_last(), start, end);
    }
}

proof fn lemma_record_pads_line(r: Seq<Seq<char>>, widths: Seq<usize>, line: u32, k: int)
    ensures
        forall|i: int|
            0 <= i < record_pads_upto(r, widths, line, k).len() ==> (#[trigger] record_pads_upto(
                r,
                widths,
                line,
                k,
            )[i]).line == line,
    decreases k,
{
    if k > 0 {
        lemma_record_pads_line(r, widths, line, k - 1);
        let prev = record_pads_upto(r, widths, line, k - 1);
        let cur = record_pads_upto(r, widths, line, k);
        assert forall|i: int| 0 <= i < cur.len() implies (#[trigger] cur[i]).line == line by {
            if i < prev.len() {
                assert(cur[i] == prev[i]);
            }
        }
    }
}

/// The pads for lines `start..=end` are the pads of the whole document that
/// lie on those lines, in the same order (for documents whose line numbers
/// fit a `u32`).
pub proof fn law_range_pads_restrict(
    records: Seq<Seq<Seq<char>>>,
    widths: Seq<usize>,
    start: u32,
    end: u32,
)
    requires
        records.len() <= u32::MAX as int + 1,
    ensures
        range_pads(records, widths, start, end) == range_pads(records, widths, 0, u32::MAX).filter(
            |p: VirtualPad| pad_in_lines(p, start, end),
        ),
{
    lemma_range_pads_restrict(records, widths, start, end, records.len() as int);
}

proof fn lemma_range_pads_restrict(
    records: Seq<Seq<Seq<char>>>,
    widths: Seq<usize>,
    start: u32,
    end: u32,
    l: int,
)
    requires
        l <= records.len() <= u32::MAX as int + 1,
    ensures
        range_pads_upto(records, widths, start, end, l) == range_pads_upto(
            records,
            widths,
            0,
            u32::MAX,
            l,
        ).filter(|p: VirtualPad| pad_in_lines(p, start, end)),
    decreases l,
{
    let pred = |p: VirtualPad| pad_in_lines(p, start, end);
    if l <= 0 {
        reveal(Seq::filter);
    } else {
        lemma_range_pads_restrict(records, widths, start, end, l - 1);
        let line = (l - 1) as u32;
        assert(line == l - 1);
        let here = record_pads_upto(records[l - 1], widths, line, records[l - 1].len() as int);
        let full_prev = range_pads_upto(records, widths, 0, u32::MAX, l - 1);
        assert(range_pads_upto(records, widths, 0, u32::MAX, l) == full_prev + here);
        Seq::filter_distributes_over_add(full_prev, here, pred);
        lemma_record_pads_line(records[l - 1], widths, line, records[l - 1].len() as int);
        if start <= line && line <= end {
            lemma_filter_keeps_all(here, start, end);
        } else {
            lemma_filter_keeps_none(here, start, end);
            assert(full_prev.filter(pred) + Seq::<VirtualPad>::empty() =~= full_prev.filter(pred));
        }
    }
}

// ---------------------------------------------------------------------------
// Splitting round trip and the Shrink flag
// ---------------------------------------------------------------------------

proof fn lemma_joined_shift(f: Seq<char>, rest: Seq<Seq<char>>, d: char, k: int)
    requires
        0 <= k,
    ensures
        joined_from(seq![f] + rest, Seq::empty(), d, k + 1) == joined_from(rest, Seq::empty(), d, k),
    decreases rest.len() - k,
{
    let r = seq![f] + rest;
    if k < rest.len() {
        assert(r[k + 1] == rest[k]);
        lemma_joined_shift(f, rest, d, k + 1);
    }
}

/// Joining a first field with the rest.
pub proof fn lemma_joined_cons(f: Seq<char>, rest: Seq<Seq<char>>, d: char)
    ensures
        joined_record(seq![f] + rest, d) == if rest.len() == 0 {
            f
        } else {
            f + seq![d] + joined_record(rest, d)
        },
{
    let r = seq![f] + rest;
    assert(r[0] == f);
    lemma_joined_shift(f, rest, d, 0);
    assert(spaces(pad_for(Seq::<usize>::empty(), 0, f)) =~= Seq::<char>::empty());
    assert(f + spaces(pad_for(Seq::<usize>::empty(), 0, f)) =~= f);
}

proof fn lemma_pieces_join(s: Seq<char>, d: char, i: int)
    requires
        0 <= i <= s.len(),
    ensures
        pieces_from(s, d, i).len() >= 1,
        joined_record(pieces_from(s, d, i), d) == s.subrange(i, s.len() as int),
    decreases s.len() - i,
{
    lemma_find_from(s, i, d);
    let p = find_from(s, i, d);
    let f = s.subrange(i, p);
    if p < s.len() {
        lemma_pieces_join(s, d, p + 1);
        let rest = pieces_from(s, d, p + 1);
        lemma_joined_cons(f, rest, d);
        assert(f + seq![d] + s.subrange(p + 1, s.len() as int) =~= s.subrange(i, s.len() as int));
    } else {
        lemma_joined_cons(f, Seq::empty(), d);
        assert(seq![f] + Seq::<Seq<char>>::empty() =~= seq![f]);
    }
}

proof fn lemma_quoted_join(s: Seq<char>, d: char, i: int)
    requires
        0 <= i < s.len(),
    ensures
        quoted_fields_from(s, d, i).0.len() >= 1,
        joined_record(quoted_fields_from(s, d, i).0, d) == s.subrange(i, s.len() as int),
    decreases s.len() - i,
{
    let n = s.len() as int;
    lemma_find_from(s, i, d);
    let e0 = Seq::<Seq<char>>::empty();
    let empty = Seq::<char>::empty();
    // The field from `i` to `end`, then (when `end < n`) a delimiter and the rest.
    let end: int = if s[i] == '"' {
        match tight_quoted_end(s, i, d) {
            Some(e) => e,
            None => find_from(s, i, d),
        }
    } else {
        find_from(s, i, d)
    };
    if s[i] == '"' {
        lemma_closing_quote(s, i + 1);
    }
    assert(i < end <= n || end == find_from(s, i, d));
    assert(i <= end <= n);
    assert(end < n ==> s[end] == d);
    let f = s.subrange(i, end);
    if end >= n {
        assert(quoted_fields_from(s, d, i).0 == seq![f]);
        lemma_joined_cons(f, e0, d);
        assert(seq![f] + e0 =~= seq![f]);
    } else if end + 1 == n {
        assert(quoted_fields_from(s, d, i).0 == seq![f, empty]);
        lemma_joined_cons(f, seq![empty], d);
        lemma_joined_cons(empty, e0, d);
        assert(seq![empty] + e0 =~= seq![empty]);
        assert(seq![f] + seq![empty] =~= seq![f, empty]);
        assert(f + seq![d] + empty =~= s.subrange(i, n));
    } else {
        lemma_quoted_join(s, d, end + 1);
        let rest = quoted_fields_from(s, d, end + 1).0;
        assert(quoted_fields_from(s, d, i).0 == seq![f] + rest);
        lemma_joined_cons(f, rest, d);
        assert(f + seq![d] + s.subrange(end + 1, n) =~= s.subrange(i, n));
    }
}

/// Splitting round trip: a line has at least one field, only quoted dialects
/// report unbalanced quotes, and the raw fields joined by the delimiter are
/// the line.
pub proof fn law_split_round_trip(s: Seq<char>, dialect: Dialect)
    ensures
        line_fields(s, dialect).0.len() >= 1,
        !dialect.spec_quoted() ==> !line_fields(s, dialect).1,
        joined_record(line_fields(s, dialect).0, dialect.spec_delimiter()) == s,
{
    let d = dialect.spec_delimiter();
    if !dialect.spec_quoted() || !s.contains('"') {
        lemma_pieces_join(s, d, 0);
    } else {
        lemma_quoted_join(s, d, 0);
    }
    assert(s.subrange(0, s.len() as int) =~= s);
}

/// Each piece of `s[i..]` followed by the delimiter, but the last.
pub open spec fn with_seps(p: Seq<Seq<char>>, d: char) -> Seq<Seq<char>> {
    Seq::new(
        p.len(),
        |k: int|
            p[k] + if k + 1 < p.len() {
                seq![d]
            } else {
                Seq::<char>::empty()
            },
    )
}

proof fn lemma_pieces_flatten(s: Seq<char>, d: char, i: int)
    requires
        0 <= i <= s.len(),
    ensures
        with_seps(pieces_from(s, d, i), d).flatten() == s.subrange(i, s.len() as int),
    decreases s.len() - i,
{
    lemma_find_from(s, i, d);
    let p = find_from(s, i, d);
    let ps = pieces_from(s, d, i);
    let w = with_seps(ps, d);
    if p < s.len() {
        lemma_pieces_flatten(s, d, p + 1);
        lemma_pieces_join(s, d, p + 1);
        let rest = pieces_from(s, d, p + 1);
        assert(w.drop_first() =~= with_seps(rest, d));
        assert(w[0] == s.subrange(i, p) + seq![d]);
        assert(s.subrange(i, p) + seq![d] + s.subrange(p + 1, s.len() as int) =~= s.subrange(
            i,
            s.len() as int,
        ));
        assert(w.flatten() == w.first() + w.drop_first().flatten());
    } else {
        assert(w.drop_first() =~= Seq::<Seq<char>>::empty());
        assert(w[0] =~= s.subrange(i, s.len() as int));
        assert(w.flatten() == w.first() + w.drop_first().flatten());
        assert(w.drop_first().flatten() =~= Seq::<char>::empty());
        assert(w.first() + Seq::<char>::empty() =~= w.first());
    }
}

/// Each line followed by its line feed (the last one only when the text
/// ends with one).
pub open spec fn lines_with_feeds(t: Seq<char>, lines: Seq<Seq<char>>) -> Seq<Seq<char>> {
    Seq::new(
        lines.len(),
        |k: int|
            lines[k] + if k + 1 < lines.len() || ends_with_lf(t) {
                seq!['\n']
            } else {
                Seq::<char>::empty()
            },
    )
}

/// A non-empty text is its lines, each followed by its line feed.
proof fn lemma_doc_flatten(t: Seq<char>)
    requires
        t.len() > 0,
    ensures
        lines_with_feeds(t, doc_lines(t)).flatten() == t,
{
    let ps = pieces(t, '\n');
    lemma_pieces_flatten(t, '\n', 0);
    lemma_pieces_join(t, '\n', 0);
    assert(t.subrange(0, t.len() as int) =~= t);
    let w = with_seps(ps, '\n');
    if ends_with_lf(t) {
        lemma_pieces_last_empty(t, '\n', 0);
        let lines = doc_lines(t);
        assert(w.drop_last() =~= lines_with_feeds(t, lines));
        assert(w.last() =~= Seq::<char>::empty());
        w.drop_last().lemma_flatten_push(w.last());
        assert(w.drop_last().push(w.last()) =~= w);
        assert(w.drop_last().flatten() + Seq::<char>::empty() =~= w.drop_last().flatten());
    } else {
        assert(w =~= lines_with_feeds(t, doc_lines(t)));
    }
}

proof fn lemma_joined_len(r1: Seq<Seq<char>>, r2: Seq<Seq<char>>, d: char, k: int)
    requires
        0 <= k,
        r1.len() == r2.len(),
        forall|j: int| 0 <= j < r1.len() ==> (#[trigger] r1[j]).len() <= r2[j].len(),
    ensures
        joined_from(r1, Seq::empty(), d, k).len() <= joined_from(r2, Seq::empty(), d, k).len(),
        (exists|j: int| k <= j < r1.len() && (#[trigger] r1[j]).len() < r2[j].len()) ==> joined_from(
            r1,
            Seq::empty(),
            d,
            k,
        ).len() < joined_from(r2, Seq::empty(), d, k).len(),
    decreases r1.len() - k,
{
    if k < r1.len() {
        lemma_joined_len(r1, r2, d, k + 1);
        assert(r1[k].len() <= r2[k].len());
    }
}

proof fn lemma_flatten_len(a: Seq<Seq<char>>, b: Seq<Seq<char>>)
    requires
        a.len() == b.len(),
        forall|j: int| 0 <= j < a.len() ==> (#[trigger] a[j]).len() <= b[j].len(),
    ensures
        a.flatten().len() <= b.flatten().len(),
        (exists|j: int| 0 <= j < a.len() && (#[trigger] a[j]).len() < b[j].len()) ==> a.flatten().len()
            < b.flatten().len(),
    decreases a.len(),
{
    if a.len() > 0 {
        assert forall|j: int| 0 <= j < a.drop_first().len() implies (#[trigger] a.drop_first()[j]).len()
            <= b.drop_first()[j].len() by {
            assert(a.drop_first()[j] == a[j + 1]);
            assert(b.drop_first()[j] == b[j + 1]);
        }
        lemma_flatten_len(a.drop_first(), b.drop_first());
        if exists|j: int| 0 <= j < a.len() && (#[trigger] a[j]).len() < b[j].len() {
            let j = choose|j: int| 0 <= j < a.len() && (#[trigger] a[j]).len() < b[j].len();
            if j > 0 {
                assert(a.drop_first()[j - 1] == a[j]);
                assert(b.drop_first()[j - 1] == b[j]);
            }
        }
    }
}

/// Trimming a field that has surrounding whitespace shortens it.
proof fn lemma_trim_len(f: Seq<char>)
    ensures
        trim(f).len() <= f.len(),
        trim(f) != f ==> trim(f).len() < f.len(),
{
    lemma_trimmed_span(f, 0, f.len() as int);
    assert(f.subrange(0, f.len() as int) =~= f);
    let sp = crate::rainbow_csv_core::split::trimmed_span(f, 0, f.len() as int);
    if trim(f).len() == f.len() {
        assert(sp.tstart == 0 && sp.tend == f.len());
        assert(trim(f) =~= f);
    }
}

/// A shrunk line is no longer than the line, and shorter exactly when a
/// field has surrounding whitespace.
proof fn lemma_shrunk_line(l: Seq<char>, dialect: Dialect)
    ensures
        shrunk_line(l, dialect).len() <= l.len(),
        (exists|k: int|
            0 <= k < line_fields(strip_cr(l), dialect).0.len() && trim(
                #[trigger] line_fields(strip_cr(l), dialect).0[k],
            ) != line_fields(strip_cr(l), dialect).0[k]) ==> shrunk_line(l, dialect).len() < l.len(),
        !(exists|k: int|
            0 <= k < line_fields(strip_cr(l), dialect).0.len() && trim(
                #[trigger] line_fields(strip_cr(l), dialect).0[k],
            ) != line_fields(strip_cr(l), dialect).0[k]) ==> shrunk_line(l, dialect) == l,
{
    let d = dialect.spec_delimiter();
    let sl = strip_cr(l);
    let fs = line_fields(sl, dialect).0;
    let rec = record_of(l, dialect);
    law_split_round_trip(sl, dialect);
    assert forall|j: int| 0 <= j < rec.len() implies (#[trigger] rec[j]).len() <= fs[j].len() by {
        lemma_trim_len(fs[j]);
    }
    lemma_joined_len(rec, fs, d, 0);
    if exists|k: int| 0 <= k < fs.len() && trim(#[trigger] fs[k]) != fs[k] {
        let k = choose|k: int| 0 <= k < fs.len() && trim(#[trigger] fs[k]) != fs[k];
        lemma_trim_len(fs[k]);
        assert(rec[k].len() < fs[k].len());
    } else {
        assert(rec =~= fs) by {
            assert forall|j: int| 0 <= j < fs.len() implies rec[j] == fs[j] by {
                if trim(fs[j]) != fs[j] {
                    assert(exists|k: int| 0 <= k < fs.len() && trim(#[trigger] fs[k]) != fs[k]);
                }
            }
        }
    }
    if l.len() > 0 && l.last() == '\r' {
        assert(sl + seq!['\r'] =~= l);
    } else {
        assert(sl + Seq::<char>::empty() =~= l);
    }
}

/// Shrink's flag says whether the text changed: it is set exactly when the
/// shrunk text differs from the input.
pub proof fn law_shrink_flag_is_change(t: Seq<char>, dialect: Dialect)
    ensures
        shrink_changes(t, dialect) == (shrunk_text(t, dialect) != t),
{
    let lines = doc_lines(t);
    if t.len() == 0 {
        assert(pieces(t, '\n') == seq![Seq::<char>::empty()]) by {
            lemma_find_from(t, 0, '\n');
            assert(t.subrange(0, 0) =~= Seq::<char>::empty());
        }
        assert(line_fields(Seq::<char>::empty(), dialect).0 == seq![Seq::<char>::empty()]) by {
            lemma_find_from(Seq::<char>::empty(), 0, dialect.spec_delimiter());
            assert(Seq::<char>::empty().subrange(0, 0) =~= Seq::<char>::empty());
        }
        assert(strip_cr(Seq::<char>::empty()) == Seq::<char>::empty());
        assert(trim(Seq::<char>::empty()) =~= Seq::<char>::empty());
        assert(shrunk_text(t, dialect) =~= t);
    } else {
        let a = Seq::new(
            lines.len(),
            |k: int|
                shrunk_line(lines[k], dialect) + if k + 1 < lines.len() || ends_with_lf(t) {
                    seq!['\n']
                } else {
                    Seq::<char>::empty()
                },
        );
        let b = lines_with_feeds(t, lines);
        lemma_doc_flatten(t);
        assert(shrunk_text(t, dialect) == a.flatten());
        assert forall|j: int| 0 <= j < a.len() implies (#[trigger] a[j]).len() <= b[j].len() by {
            lemma_shrunk_line(lines[j], dialect);
        }
        lemma_flatten_len(a, b);
        if shrink_changes(t, dialect) {
            let (l, k) = choose|l: int, k: int|
                0 <= l < lines.len() && 0 <= k < line_fields(strip_cr(lines[l]), dialect).0.len()
                    && trim(#[trigger] line_fields(strip_cr(lines[l]), dialect).0[k])
                    != line_fields(strip_cr(lines[l]), dialect).0[k];
            lemma_shrunk_line(lines[l], dialect);
            assert(a[l].len() < b[l].len());
        } else {
            assert(a =~= b) by {
                assert forall|j: int| 0 <= j < a.len() implies a[j] == b[j] by {
                    lemma_shrunk_line(lines[j], dialect);
                    if exists|k: int|
                        0 <= k < line_fields(strip_cr(lines[j]), dialect).0.len() && trim(
                            #[trigger] line_fields(strip_cr(lines[j]), dialect).0[k],
                        ) != line_fields(strip_cr(lines[j]), dialect).0[k] {
                        assert(shrink_changes(t, dialect));
                    }
                }
            }
        }
    }
}

} // verus!
