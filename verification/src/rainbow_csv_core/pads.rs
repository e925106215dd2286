//! Virtual-align pads: spaces shown after raw fields so that delimiters line
//! up without editing the text.
use vstd::prelude::*;
use crate::text::{utf16_length, lemma_utf16_length_concat, lemma_utf16_length_bounds};
use super::split::{split_spec, lemma_split_tiles, span_ok};
use super::analysis::{doc_lines, line_infos, field_info};
use super::dialect::Dialect;
use super::analysis::{analyze_document, column_maxima, doc_infos, doc_raw_widths, DocAnalysis, FieldInfo};

verus! {

broadcast use vstd::seq::group_seq_axioms;

/// One virtual-align pad: insert `spaces` at `line:col` (end of a raw field).
#[derive(Debug, Clone, PartialEq, Eq)]
pub struct VirtualPad {
    pub line: u32,
    pub col: u32,
    pub spaces: usize,
}

/// `a - b`, or 0 when `b >= a`.
pub open spec fn saturating_diff(a: usize, b: usize) -> usize {
    if a > b {
        (a - b) as usize
    } else {
        0
    }
}

/// Spaces that raise field `row[i]` to the column target.
pub open spec fn field_pad(row: Seq<FieldInfo>, targets: Seq<usize>, i: int) -> usize {
    saturating_diff(targets[i], row[i].raw_width as usize)
}

/// Pads of record `l` from field `i` on: every non-last field narrower than
/// its column target gets one.
pub open spec fn line_pads_from(row: Seq<FieldInfo>, targets: Seq<usize>, l: int, i: int) -> Seq<
    VirtualPad,
>
    decreases row.len() - i,
{
    if i < 0 || i + 1 >= row.len() || i >= targets.len() {
        Seq::empty()
    } else {
        let pad = field_pad(row, targets, i);
        let here = if pad > 0 {
            seq![VirtualPad { line: l as u32, col: row[i].end_col, spaces: pad }]
        } else {
            Seq::empty()
        };
        here + line_pads_from(row, targets, l, i + 1)
    }
}

/// Pads of records `l..end`, in order.
pub open spec fn pads_from(rows: Seq<Seq<FieldInfo>>, targets: Seq<usize>, l: int, end: int) -> Seq<
    VirtualPad,
>
    decreases end - l,
{
    if l >= end || l < 0 || l >= rows.len() {
        Seq::empty()
    } else {
        line_pads_from(rows[l], targets, l, 0) + pads_from(rows, targets, l + 1, end)
    }
}

/// First record of the range `start_line..=end_line`, clamped to the document.
pub open spec fn range_start(lines: nat, start_line: u32) -> int {
    if (start_line as int) < lines {
        start_line as int
    } else {
        lines as int
    }
}

/// One past the last record of the range `start_line..=end_line`, clamped.
pub open spec fn range_end(lines: nat, end_line: u32) -> int {
    let e = if end_line as int + 1 > usize::MAX {
        usize::MAX as int
    } else {
        end_line as int + 1
    };
    if e < lines {
        e
    } else {
        lines as int
    }
}

/// Virtual-align pads for records `start_line..=end_line` of a cached
/// analysis. Columns are raw-field ends in UTF-16 units, so hints land after
/// existing whitespace instead of doubling it.
pub fn pads_for_range(analysis: &DocAnalysis, start_line: u32, end_line: u32) -> (pads: Vec<
    VirtualPad,
>)
    requires
        analysis.wf(),
    ensures
        pads@ == pads_from(
            analysis.rows(),
            analysis.raw_width_targets@,
            range_start(analysis.rows().len(), start_line),
            range_end(analysis.rows().len(), end_line),
        ),
{
    let lines = analysis.line_count();
    let start = if (start_line as usize) < lines {
        start_line as usize
    } else {
        lines
    };
    let e = (end_line as usize).saturating_add(1);
    let end = if e < lines {
        e
    } else {
        lines
    };
    let ghost rows = analysis.rows();
    let ghost targets = analysis.raw_width_targets@;
    let ghost total = pads_from(rows, targets, start as int, end as int);
    let mut pads: Vec<VirtualPad> = Vec::new();
    let mut lnum = start;
    while lnum < end
        invariant
            analysis.wf(),
            rows == analysis.rows(),
            targets == analysis.raw_width_targets@,
            end <= lines == rows.len(),
            start <= lnum <= end || (lnum == start && start >= end),
            pads@ + pads_from(rows, targets, lnum as int, end as int) == total,
        decreases end - lnum,
    {
        let fields = analysis.line(lnum);
        // The last column isn't padded.
        let padded = if fields.len() > 0 {
            fields.len() - 1
        } else {
            0
        };
        let ghost before = pads@;
        let mut i: usize = 0;
        while i < padded && i < analysis.raw_width_targets.len()
            invariant
                fields@ == rows[lnum as int],
                targets == analysis.raw_width_targets@,
                fields@.len() > 0 ==> padded + 1 == fields@.len(),
                padded <= fields@.len(),
                i <= padded,
                pads@ + line_pads_from(fields@, targets, lnum as int, i as int) == before
                    + line_pads_from(fields@, targets, lnum as int, 0),
            decreases padded - i,
        {
            let f = fields[i];
            let target = analysis.raw_width_targets[i];
            let pad = target.saturating_sub(f.raw_width as usize);
            let ghost p0 = pads@;
            if pad > 0 {
                pads.push(VirtualPad { line: lnum as u32, col: f.end_col, spaces: pad });
            }
            assert(pads@ + line_pads_from(fields@, targets, lnum as int, i + 1) =~= p0
                + line_pads_from(fields@, targets, lnum as int, i as int));
            i += 1;
        }
        assert(line_pads_from(fields@, targets, lnum as int, i as int) =~= Seq::<VirtualPad>::empty());
        assert(pads@ + pads_from(rows, targets, lnum + 1, end as int) =~= before + pads_from(
            rows,
            targets,
            lnum as int,
            end as int,
        ));
        lnum += 1;
    }
    assert(pads_from(rows, targets, lnum as int, end as int) =~= Seq::<VirtualPad>::empty());
    pads
}

/// Every virtual-align pad of a document.
pub open spec fn doc_pads(t: Seq<char>, dialect: Dialect) -> Seq<VirtualPad> {
    let rows = doc_infos(t, dialect);
    pads_from(
        rows,
        column_maxima(doc_raw_widths(t, dialect)),
        range_start(rows.len(), 0),
        range_end(rows.len(), u32::MAX),
    )
}

/// All virtual-align pads of a document.
pub fn virtual_pads(text: &str, dialect: Dialect) -> (pads: Vec<VirtualPad>)
    requires
        utf16_length(text@) <= usize::MAX,
    ensures
        pads@ == doc_pads(text@, dialect),
{
    let analysis = analyze_document(text, dialect);
    pads_for_range(&analysis, 0, u32::MAX)
}

/// A virtual pad inside records `s..=e`.
pub open spec fn pad_in_range(p: VirtualPad, s: u32, e: u32) -> bool {
    s <= p.line && p.line <= e
}

proof fn lemma_filter_all(ps: Seq<VirtualPad>, s: u32, e: u32)
    requires
        forall|k: int| 0 <= k < ps.len() ==> pad_in_range(#[trigger] ps[k], s, e),
    ensures
        ps.filter(|p: VirtualPad| pad_in_range(p, s, e)) == ps,
    decreases ps.len(),
{
    reveal(Seq::filter);
    if ps.len() > 0 {
        lemma_filter_all(ps.drop_last(), s, e);
        assert(pad_in_range(ps[ps.len() - 1], s, e));
        assert(ps.drop_last().push(ps.last()) =~= ps);
    }
}

proof fn lemma_filter_none(ps: Seq<VirtualPad>, s: u32, e: u32)
    requires
        forall|k: int| 0 <= k < ps.len() ==> !pad_in_range(#[trigger] ps[k], s, e),
    ensures
        ps.filter(|p: VirtualPad| pad_in_range(p, s, e)) == Seq::<VirtualPad>::empty(),
    decreases ps.len(),
{
    reveal(Seq::filter);
    if ps.len() > 0 {
        lemma_filter_none(ps.drop_last(), s, e);
        assert(!pad_in_range(ps[ps.len() - 1], s, e));
    }
}

proof fn lemma_line_pads_facts(row: Seq<FieldInfo>, targets: Seq<usize>, l: int, i: int)
    requires
        0 <= l <= u32::MAX,
    ensures
        forall|k: int|
            0 <= k < line_pads_from(row, targets, l, i).len() ==> (#[trigger] line_pads_from(
                row,
                targets,
                l,
                i,
            )[k]).line == l && line_pads_from(row, targets, l, i)[k].spaces > 0,
    decreases row.len() - i,
{
    if !(i < 0 || i + 1 >= row.len() || i >= targets.len()) {
        lemma_line_pads_facts(row, targets, l, i + 1);
        let pad = field_pad(row, targets, i);
        let here = if pad > 0 {
            seq![VirtualPad { line: l as u32, col: row[i].end_col, spaces: pad }]
        } else {
            Seq::empty()
        };
        let rest = line_pads_from(row, targets, l, i + 1);
        assert(line_pads_from(row, targets, l, i) == here + rest);
        assert forall|k: int| 0 <= k < (here + rest).len() implies (#[trigger] (here + rest)[k]).line == l
            && (here + rest)[k].spaces > 0 by {
            if k >= here.len() {
                assert((here + rest)[k] == rest[k - here.len()]);
            }
        }
    }
}

proof fn lemma_pads_from_facts(rows: Seq<Seq<FieldInfo>>, targets: Seq<usize>, l: int, end: int)
    requires
        0 <= l,
        end <= rows.len() <= u32::MAX,
    ensures
        forall|k: int|
            0 <= k < pads_from(rows, targets, l, end).len() ==> l <= (#[trigger] pads_from(
                rows,
                targets,
                l,
                end,
            )[k]).line < end && pads_from(rows, targets, l, end)[k].spaces > 0,
    decreases end - l,
{
    if l < end {
        lemma_line_pads_facts(rows[l], targets, l, 0);
        lemma_pads_from_facts(rows, targets, l + 1, end);
        let here = line_pads_from(rows[l], targets, l, 0);
        let rest = pads_from(rows, targets, l + 1, end);
        assert forall|k: int| 0 <= k < (here + rest).len() implies l <= (#[trigger] (here + rest)[k]).line < end
            && (here + rest)[k].spaces > 0 by {
            if k >= here.len() {
                assert((here + rest)[k] == rest[k - here.len()]);
            }
        }
    }
}

proof fn lemma_pads_from_split(rows: Seq<Seq<FieldInfo>>, targets: Seq<usize>, l: int, m: int, end: int)
    requires
        0 <= l <= m <= end <= rows.len(),
    ensures
        pads_from(rows, targets, l, end) == pads_from(rows, targets, l, m) + pads_from(rows, targets, m, end),
    decreases m - l,
{
    if l < m {
        lemma_pads_from_split(rows, targets, l + 1, m, end);
        assert(line_pads_from(rows[l], targets, l, 0) + (pads_from(rows, targets, l + 1, m) + pads_from(
            rows,
            targets,
            m,
            end,
        )) =~= line_pads_from(rows[l], targets, l, 0) + pads_from(rows, targets, l + 1, m) + pads_from(
            rows,
            targets,
            m,
            end,
        ));
    } else {
        assert(pads_from(rows, targets, l, m) =~= Seq::<VirtualPad>::empty());
    }
}

/// Virtual pads of a line range are the document's pads on those lines: the
/// pads for records `s..=e` are exactly the pads of all records whose line
/// lies in `s..=e`, in the same order. Every pad adds at least one space and
/// lies on a record of the document. (Line numbers are `u32`, so the law is
/// stated for at most `u32::MAX` records.)
pub proof fn law_pads_for_range_filters(rows: Seq<Seq<FieldInfo>>, targets: Seq<usize>, s: u32, e: u32)
    requires
        rows.len() <= u32::MAX,
    ensures
        ({
            let n = rows.len();
            let all = pads_from(rows, targets, range_start(n, 0), range_end(n, u32::MAX));
            &&& pads_from(rows, targets, range_start(n, s), range_end(n, e)) == all.filter(
                |p: VirtualPad| pad_in_range(p, s, e),
            )
            &&& forall|k: int| 0 <= k < all.len() ==> (#[trigger] all[k]).spaces > 0 && all[k].line < n
        }),
{
    let n = rows.len() as int;
    assert(range_start(rows.len(), 0) == 0);
    assert(range_end(rows.len(), u32::MAX) == n);
    let a = range_start(rows.len(), s);
    let b = range_end(rows.len(), e);
    let all = pads_from(rows, targets, 0, n);
    lemma_pads_from_facts(rows, targets, 0, n);
    if a >= b {
        assert(pads_from(rows, targets, a, b) =~= Seq::<VirtualPad>::empty());
        assert forall|k: int| 0 <= k < all.len() implies !pad_in_range(#[trigger] all[k], s, e) by {}
        lemma_filter_none(all, s, e);
    } else {
        lemma_pads_from_split(rows, targets, 0, a, n);
        lemma_pads_from_split(rows, targets, a, b, n);
        let p1 = pads_from(rows, targets, 0, a);
        let p2 = pads_from(rows, targets, a, b);
        let p3 = pads_from(rows, targets, b, n);
        lemma_pads_from_facts(rows, targets, 0, a);
        lemma_pads_from_facts(rows, targets, a, b);
        lemma_pads_from_facts(rows, targets, b, n);
        assert forall|k: int| 0 <= k < p1.len() implies !pad_in_range(#[trigger] p1[k], s, e) by {}
        assert forall|k: int| 0 <= k < p2.len() implies pad_in_range(#[trigger] p2[k], s, e) by {}
        assert forall|k: int| 0 <= k < p3.len() implies !pad_in_range(#[trigger] p3[k], s, e) by {}
        lemma_filter_none(p1, s, e);
        lemma_filter_all(p2, s, e);
        lemma_filter_none(p3, s, e);
        let pred = |p: VirtualPad| pad_in_range(p, s, e);
        Seq::filter_distributes_over_add(p1, p2 + p3, pred);
        Seq::filter_distributes_over_add(p2, p3, pred);
        assert(all == p1 + (p2 + p3));
        assert(p2.filter(pred) + p3.filter(pred) =~= p2);
        assert(p1.filter(pred) + p2 =~= p2);
    }
}

/// `p` comes before `q`: on an earlier line, or further left on the same one.
pub open spec fn pad_before(p: VirtualPad, q: VirtualPad) -> bool {
    p.line < q.line || (p.line == q.line && p.col < q.col)
}

/// Pads in strictly increasing (line, column) order.
pub open spec fn pads_ordered(ps: Seq<VirtualPad>) -> bool {
    forall|i: int, j: int| 0 <= i < j < ps.len() ==> pad_before(#[trigger] ps[i], #[trigger] ps[j])
}

/// Field ends of a record grow from left to right.
pub open spec fn ends_increase(row: Seq<FieldInfo>) -> bool {
    forall|i: int, j: int| 0 <= i < j < row.len() ==> (#[trigger] row[i]).end_col < (#[trigger] row[j]).end_col
}

proof fn lemma_line_pads_ordered(row: Seq<FieldInfo>, targets: Seq<usize>, l: int, i: int)
    requires
        0 <= l <= u32::MAX,
        0 <= i,
        ends_increase(row),
    ensures
        pads_ordered(line_pads_from(row, targets, l, i)),
        forall|m: int|
            0 <= m < line_pads_from(row, targets, l, i).len() ==> (#[trigger] line_pads_from(
                row,
                targets,
                l,
                i,
            )[m]).col >= row[i].end_col,
    decreases row.len() - i,
{
    lemma_line_pads_facts(row, targets, l, i);
    if !(i + 1 >= row.len() || i >= targets.len()) {
        lemma_line_pads_ordered(row, targets, l, i + 1);
        lemma_line_pads_facts(row, targets, l, i + 1);
        let pad = field_pad(row, targets, i);
        let here = if pad > 0 {
            seq![VirtualPad { line: l as u32, col: row[i].end_col, spaces: pad }]
        } else {
            Seq::empty()
        };
        let rest = line_pads_from(row, targets, l, i + 1);
        let all = here + rest;
        assert(line_pads_from(row, targets, l, i) == all);
        assert(row[i].end_col < row[i + 1].end_col);
        assert forall|m: int| 0 <= m < all.len() implies (#[trigger] all[m]).col >= row[i].end_col by {
            if m >= here.len() {
                assert(all[m] == rest[m - here.len()]);
            }
        }
        assert forall|a: int, b: int| 0 <= a < b < all.len() implies pad_before(#[trigger] all[a], #[trigger] all[b]) by {
            if a >= here.len() {
                assert(all[a] == rest[a - here.len()]);
                assert(all[b] == rest[b - here.len()]);
            } else {
                assert(all[b] == rest[b - here.len()]);
                assert(all[a].line == all[b].line);
            }
        }
    }
}

proof fn lemma_pads_from_ordered(rows: Seq<Seq<FieldInfo>>, targets: Seq<usize>, l: int, end: int)
    requires
        0 <= l,
        end <= rows.len() <= u32::MAX,
        forall|r: int| 0 <= r < rows.len() ==> ends_increase(#[trigger] rows[r]),
    ensures
        pads_ordered(pads_from(rows, targets, l, end)),
    decreases end - l,
{
    if l < end {
        lemma_line_pads_ordered(rows[l], targets, l, 0);
        lemma_line_pads_facts(rows[l], targets, l, 0);
        lemma_pads_from_ordered(rows, targets, l + 1, end);
        lemma_pads_from_facts(rows, targets, l + 1, end);
        let here = line_pads_from(rows[l], targets, l, 0);
        let rest = pads_from(rows, targets, l + 1, end);
        let all = here + rest;
        assert forall|a: int, b: int| 0 <= a < b < all.len() implies pad_before(#[trigger] all[a], #[trigger] all[b]) by {
            if a >= here.len() {
                assert(all[a] == rest[a - here.len()]);
                assert(all[b] == rest[b - here.len()]);
            } else if b >= here.len() {
                assert(all[b] == rest[b - here.len()]);
            }
        }
    }
}

proof fn lemma_utf16_take_increases(s: Seq<char>, a: int, b: int)
    requires
        0 <= a < b <= s.len(),
    ensures
        utf16_length(s.take(a)) < utf16_length(s.take(b)) <= utf16_length(s),
{
    assert(s.take(a) + s.subrange(a, b) =~= s.take(b));
    lemma_utf16_length_concat(s.take(a), s.subrange(a, b));
    lemma_utf16_length_bounds(s.subrange(a, b));
    assert(s.take(b) + s.skip(b) =~= s);
    lemma_utf16_length_concat(s.take(b), s.skip(b));
}

proof fn lemma_line_ends_increase(line: Seq<char>, dialect: Dialect)
    requires
        utf16_length(line) <= u32::MAX,
    ensures
        ends_increase(line_infos(line, dialect)),
{
    let fs = split_spec(line, dialect).0;
    let row = line_infos(line, dialect);
    lemma_split_tiles(line, dialect);
    assert forall|i: int, j: int| 0 <= i < j < row.len() implies (#[trigger] row[i]).end_col < (#[trigger] row[j]).end_col by {
        assert(span_ok(fs[j], line.len() as int));
        lemma_tile_ends_grow(line, dialect, i, j);
        lemma_utf16_take_increases(line, fs[i].end, fs[j].end);
        assert(row[i] == field_info(line, fs[i]));
        assert(row[j] == field_info(line, fs[j]));
    }
}

proof fn lemma_tile_ends_grow(line: Seq<char>, dialect: Dialect, i: int, j: int)
    requires
        0 <= i < j < split_spec(line, dialect).0.len(),
    ensures
        split_spec(line, dialect).0[i].end < split_spec(line, dialect).0[j].end,
    decreases j - i,
{
    let fs = split_spec(line, dialect).0;
    lemma_split_tiles(line, dialect);
    assert(fs[j - 1].end < fs[j].start);
    assert(span_ok(fs[j], line.len() as int));
    if i < j - 1 {
        lemma_tile_ends_grow(line, dialect, i, j - 1);
    }
}

/// The virtual pads of a document come in strictly increasing (line, column)
/// order: by record, and left to right within a record. (Columns are `u32`
/// UTF-16 offsets and lines `u32` record numbers, so the law is stated for
/// records of at most `u32::MAX` code units and at most `u32::MAX` records.)
pub proof fn law_doc_pads_ordered(t: Seq<char>, dialect: Dialect)
    requires
        doc_lines(t).len() <= u32::MAX,
        forall|l: int| 0 <= l < doc_lines(t).len() ==> utf16_length(#[trigger] doc_lines(t)[l]) <= u32::MAX,
    ensures
        pads_ordered(doc_pads(t, dialect)),
{
    let rows = doc_infos(t, dialect);
    assert forall|r: int| 0 <= r < rows.len() implies ends_increase(#[trigger] rows[r]) by {
        lemma_line_ends_increase(doc_lines(t)[r], dialect);
    }
    let n = rows.len() as int;
    assert(range_start(rows.len(), 0) == 0);
    assert(range_end(rows.len(), u32::MAX) == n);
    lemma_pads_from_ordered(rows, column_maxima(doc_raw_widths(t, dialect)), 0, n);
}

} // verus!
