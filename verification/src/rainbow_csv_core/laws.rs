//! Laws of whitespace align and shrink over whole documents.
use vstd::prelude::*;
use crate::text::{display_width_of, is_trimmed, is_whitespace, spaces, unicode_str_width, is_printable_ascii};
use super::dialect::Dialect;
use super::split::{split_spec, values_of, value_of, span_ok, lemma_split_tiles};
use super::analysis::{
    doc_lines, doc_has_warnings, doc_needs_shrink, doc_value_widths, line_value_widths,
    column_maxima, column_max, max_len, span_is_trimmed, lemma_column_max_bounds,
};
use super::rewrite::{
    RewriteMode, render_line, render_segments, line_segments, aligned_text,
    shrunk_text, shrunk_lines, align_widths, join_from,
};
use super::reparse::{
    join_padded, lemma_render_line_join, law_rewritten_line_reparses, mode_pads, quoted_token,
    raws_of, padded_values, align_pads,
};
use super::analysis::{FieldInfo, doc_infos, doc_raw_widths, line_infos, line_raw_widths, raw_width_of};
use super::pads::{field_pad, doc_pads, pads_from, line_pads_from, range_start, range_end, saturating_diff, VirtualPad};
use super::lines::{
    concat_pairs, well_ended, drop_empty_tail, is_line_ending,
    lemma_segments_of_concat, lemma_segments_rebuild, lemma_doc_lines_segments,
};

verus! {

broadcast use vstd::seq::group_seq_axioms;

/// Each line rewritten in `mode`, with its terminator.
pub open spec fn rendered_pairs(
    segs: Seq<(Seq<char>, Seq<char>)>,
    dialect: Dialect,
    widths: Seq<usize>,
    mode: RewriteMode,
) -> Seq<(Seq<char>, Seq<char>)> {
    Seq::new(segs.len(), |l: int| (render_line(segs[l].0, dialect, widths, mode), segs[l].1))
}

proof fn lemma_render_segments_concat(
    segs: Seq<(Seq<char>, Seq<char>)>,
    dialect: Dialect,
    widths: Seq<usize>,
    mode: RewriteMode,
)
    ensures
        render_segments(segs, dialect, widths, mode) == concat_pairs(
            rendered_pairs(segs, dialect, widths, mode),
        ),
    decreases segs.len(),
{
    if segs.len() > 0 {
        lemma_render_segments_concat(segs.drop_first(), dialect, widths, mode);
        assert(rendered_pairs(segs, dialect, widths, mode).drop_first() =~= rendered_pairs(
            segs.drop_first(),
            dialect,
            widths,
            mode,
        ));
    }
}

/// Dropping an empty unterminated last line does not change a text.
proof fn lemma_concat_drop_empty_tail(ps: Seq<(Seq<char>, Seq<char>)>)
    ensures
        concat_pairs(drop_empty_tail(ps)) == concat_pairs(ps),
    decreases ps.len(),
{
    if ps.len() > 0 && ps.last().0.len() == 0 && ps.last().1.len() == 0 {
        lemma_concat_drop_last(ps);
    }
}

proof fn lemma_concat_drop_last(ps: Seq<(Seq<char>, Seq<char>)>)
    requires
        ps.len() > 0,
        ps.last().0.len() == 0,
        ps.last().1.len() == 0,
    ensures
        concat_pairs(ps.drop_last()) == concat_pairs(ps),
    decreases ps.len(),
{
    if ps.len() == 1 {
        assert(ps.drop_first().len() == 0);
        assert(ps[0] == ps.last());
        assert(ps[0].0 =~= Seq::<char>::empty());
        assert(ps[0].1 =~= Seq::<char>::empty());
        assert(concat_pairs(ps.drop_first()) =~= Seq::<char>::empty());
        assert(concat_pairs(ps) =~= Seq::<char>::empty());
    } else {
        lemma_concat_drop_last(ps.drop_first());
        assert(ps.drop_first().drop_last() =~= ps.drop_last().drop_first());
        assert(ps.drop_last()[0] == ps[0]);
    }
}

/// The values of a line determine how it is rendered.
proof fn lemma_render_by_values(
    a: Seq<char>,
    b: Seq<char>,
    dialect: Dialect,
    widths: Seq<usize>,
    mode: RewriteMode,
)
    requires
        values_of(a, split_spec(a, dialect).0) == values_of(b, split_spec(b, dialect).0),
    ensures
        render_line(a, dialect, widths, mode) == render_line(b, dialect, widths, mode),
{
}

/// Trimmed-value widths of a line are the widths of its values.
proof fn lemma_value_widths_by_values(a: Seq<char>, b: Seq<char>, dialect: Dialect)
    requires
        values_of(a, split_spec(a, dialect).0) == values_of(b, split_spec(b, dialect).0),
    ensures
        line_value_widths(a, dialect) == line_value_widths(b, dialect),
{
    let va = values_of(a, split_spec(a, dialect).0);
    let vb = values_of(b, split_spec(b, dialect).0);
    assert(va.len() == vb.len());
    assert forall|k: int| 0 <= k < va.len() implies #[trigger] line_value_widths(a, dialect)[k]
        == line_value_widths(b, dialect)[k] by {
        assert(va[k] == vb[k]);
    }
    assert(line_value_widths(a, dialect) =~= line_value_widths(b, dialect));
}

/// Values of a line split without warning are trimmed.
proof fn lemma_values_trimmed(line: Seq<char>, dialect: Dialect)
    requires
        !split_spec(line, dialect).1,
    ensures
        forall|k: int|
            0 <= k < values_of(line, split_spec(line, dialect).0).len() ==> is_trimmed(
                #[trigger] values_of(line, split_spec(line, dialect).0)[k],
            ),
{
    let vs = values_of(line, split_spec(line, dialect).0);
    super::reparse::lemma_values_good(line, dialect);
    assert forall|k: int| 0 <= k < vs.len() implies is_trimmed(#[trigger] vs[k]) by {
        if quoted_token(vs[k]) {
            super::split::lemma_closing_quote(vs[k], 1);
        }
    }
}

/// The last character of a non-empty padded join is the delimiter or the
/// last character of the last value.
proof fn lemma_join_last(vs: Seq<Seq<char>>, pads: Seq<nat>, d: char, i: int)
    requires
        0 <= i < vs.len(),
        pads.len() == vs.len(),
        join_padded(vs, pads, d, i).len() > 0,
    ensures
        join_padded(vs, pads, d, i).last() == d || (vs.last().len() > 0
            && join_padded(vs, pads, d, i).last() == vs.last().last()),
    decreases vs.len() - i,
{
    if i + 1 < vs.len() {
        let rest = join_padded(vs, pads, d, i + 1);
        let head = vs[i] + spaces(pads[i]) + seq![d];
        assert(join_padded(vs, pads, d, i) == head + rest);
        if rest.len() > 0 {
            lemma_join_last(vs, pads, d, i + 1);
            assert((head + rest).last() == rest.last());
        } else {
            assert((head + rest).last() == d);
        }
    }
}

/// A line's values hold no `'\n'` when the line holds none.
proof fn lemma_values_no_newline(line: Seq<char>, dialect: Dialect)
    requires
        !line.contains('\n'),
    ensures
        forall|k: int|
            0 <= k < values_of(line, split_spec(line, dialect).0).len() ==> !(
            #[trigger] values_of(line, split_spec(line, dialect).0)[k]).contains('\n'),
{
    let fs = split_spec(line, dialect).0;
    let vs = values_of(line, fs);
    lemma_split_tiles(line, dialect);
    assert forall|k: int| 0 <= k < vs.len() implies !(#[trigger] vs[k]).contains('\n') by {
        assert(span_ok(fs[k], line.len() as int));
        if vs[k].contains('\n') {
            let x = choose|x: int| 0 <= x < vs[k].len() && vs[k][x] == '\n';
            assert(line[fs[k].tstart + x] == '\n');
            assert(line.contains('\n'));
        }
    }
}

/// A rewritten warning-free line holds no `'\n'` and does not end with
/// `'\r'`.
proof fn lemma_rendered_line_shape(line: Seq<char>, dialect: Dialect, widths: Seq<usize>, mode: RewriteMode)
    requires
        !split_spec(line, dialect).1,
        !line.contains('\n'),
    ensures
        !render_line(line, dialect, widths, mode).contains('\n'),
        render_line(line, dialect, widths, mode).len() > 0 ==> render_line(
            line,
            dialect,
            widths,
            mode,
        ).last() != '\r',
{
    let d = dialect.spec_delimiter();
    let vs = values_of(line, split_spec(line, dialect).0);
    let pads = mode_pads(vs, widths, mode);
    lemma_render_line_join(line, dialect, widths, mode);
    lemma_split_tiles(line, dialect);
    lemma_values_no_newline(line, dialect);
    super::reparse::lemma_join_contains_pub(vs, pads, d, '\n');
    let r = render_line(line, dialect, widths, mode);
    if r.len() > 0 {
        lemma_join_last(vs, pads, d, 0);
        lemma_values_trimmed(line, dialect);
        if vs.last().len() > 0 && r.last() == vs.last().last() {
            assert(is_trimmed(vs[vs.len() - 1]));
            assert(is_whitespace('\r'));
        }
    }
}

proof fn lemma_join_untrimmed_from(line: Seq<char>, dialect: Dialect, i: int)
    requires
        0 <= i < split_spec(line, dialect).0.len(),
        forall|k: int|
            0 <= k < split_spec(line, dialect).0.len() ==> !span_is_trimmed(
                #[trigger] split_spec(line, dialect).0[k],
            ),
    ensures
        join_from(values_of(line, split_spec(line, dialect).0), dialect.spec_delimiter(), i)
            == line.subrange(split_spec(line, dialect).0[i].start, line.len() as int),
    decreases split_spec(line, dialect).0.len() - i,
{
    let d = dialect.spec_delimiter();
    let fs = split_spec(line, dialect).0;
    let vs = values_of(line, fs);
    lemma_split_tiles(line, dialect);
    let f = fs[i];
    assert(span_ok(f, line.len() as int));
    assert(!span_is_trimmed(f));
    assert(vs[i] == line.subrange(f.start, f.end));
    if i + 1 == fs.len() {
        assert(f.end == line.len());
    } else {
        lemma_join_untrimmed_from(line, dialect, i + 1);
        assert(f.end < line.len() && line[f.end] == d && fs[i + 1].start == f.end + 1);
        assert(line.subrange(f.start, f.end) + seq![d] + line.subrange(f.end + 1, line.len() as int)
            =~= line.subrange(f.start, line.len() as int));
    }
}

/// A line with no surrounding whitespace in any field is its values joined
/// by the delimiter: shrinking leaves it as it is.
proof fn lemma_shrink_untrimmed_line(line: Seq<char>, dialect: Dialect, widths: Seq<usize>)
    requires
        forall|k: int|
            0 <= k < split_spec(line, dialect).0.len() ==> !span_is_trimmed(
                #[trigger] split_spec(line, dialect).0[k],
            ),
    ensures
        render_line(line, dialect, widths, RewriteMode::Shrink) == line,
{
    lemma_split_tiles(line, dialect);
    lemma_join_untrimmed_from(line, dialect, 0);
    assert(line.subrange(0, line.len() as int) =~= line);
}

/// Adding a row `[0]` leaves the column maxima of non-empty rows as they are.
proof fn lemma_column_maxima_zero_row(rows: Seq<Seq<usize>>)
    requires
        rows.len() >= 2,
        rows.last() == seq![0usize],
        rows[0].len() >= 1,
    ensures
        column_maxima(rows) == column_maxima(rows.drop_last()),
{
    let prev = rows.drop_last();
    assert(rows == prev.push(seq![0usize]));
    super::analysis::lemma_column_maxima_push(prev, seq![0usize], 0);
    lemma_column_max_bounds(prev, 0, 0);
    assert(max_len(rows) == max_len(prev));
    assert forall|c: int| 0 <= c < max_len(rows) implies #[trigger] column_max(rows, c) == column_max(prev, c) by {
        super::analysis::lemma_column_maxima_push(prev, seq![0usize], c);
    }
    assert(column_maxima(rows) =~= column_maxima(prev));
}

/// Lines of a document whose records split without warning.
proof fn lemma_segment_lines_clean(t: Seq<char>, dialect: Dialect)
    requires
        t.len() > 0,
        !doc_has_warnings(t, dialect),
    ensures
        forall|l: int|
            0 <= l < line_segments(t).len() ==> !split_spec(#[trigger] line_segments(t)[l].0, dialect).1
                && !line_segments(t)[l].0.contains('\n'),
        doc_lines(t) == line_segments(t).map_values(|p: (Seq<char>, Seq<char>)| p.0),
{
    lemma_doc_lines_segments(t);
    lemma_segments_rebuild(t, 0);
    let segs = line_segments(t);
    let lines = doc_lines(t);
    assert forall|l: int| 0 <= l < segs.len() implies !split_spec(#[trigger] segs[l].0, dialect).1
        && !segs[l].0.contains('\n') by {
        assert(lines[l] == segs[l].0);
        if split_spec(lines[l], dialect).1 {
            assert(doc_has_warnings(t, dialect));
        }
    }
}

/// Rewriting every clean line keeps the lines well ended.
proof fn lemma_rendered_well_ended(
    segs: Seq<(Seq<char>, Seq<char>)>,
    dialect: Dialect,
    widths: Seq<usize>,
    mode: RewriteMode,
)
    requires
        well_ended(segs),
        forall|l: int| 0 <= l < segs.len() ==> !split_spec(#[trigger] segs[l].0, dialect).1,
    ensures
        well_ended(rendered_pairs(segs, dialect, widths, mode)),
{
    let ps = rendered_pairs(segs, dialect, widths, mode);
    assert forall|l: int| 0 <= l < ps.len() implies !(#[trigger] ps[l]).0.contains('\n') && (ps[l].0.len() > 0 ==> ps[l].0.last() != '\r') by {
        assert(!segs[l].0.contains('\n'));
        assert(!split_spec(segs[l].0, dialect).1);
        lemma_rendered_line_shape(segs[l].0, dialect, widths, mode);
    }
    assert forall|l: int| 0 <= l < ps.len() - 1 implies is_line_ending((#[trigger] ps[l]).1) by {
        assert(is_line_ending(segs[l].1));
    }
    if ps.len() > 0 {
        assert(ps.last().1 == segs.last().1);
    }
    assert forall|l: int|
        0 <= l < ps.len() && ((#[trigger] ps[l]).1 == seq!['\n'] || ps[l].1
            == Seq::<char>::empty()) && ps[l].0.len() > 0 implies ps[l].0.last() != '\r' by {
        assert(!segs[l].0.contains('\n'));
        lemma_rendered_line_shape(segs[l].0, dialect, widths, mode);
    }
}

/// What rewriting every line of a clean, non-empty document gives: the
/// rewritten lines with their terminators, which split back into the
/// same values without warnings.
proof fn lemma_rewritten_doc(x: Seq<char>, dialect: Dialect, widths: Seq<usize>, mode: RewriteMode)
    requires
        x.len() > 0,
        !doc_has_warnings(x, dialect),
    ensures
        ({
            let segs = line_segments(x);
            let ps = rendered_pairs(segs, dialect, widths, mode);
            let o = render_segments(segs, dialect, widths, mode);
            &&& o == concat_pairs(ps)
            &&& well_ended(ps)
            &&& ps.len() == segs.len()
            &&& segs.len() > 0
            &&& line_segments(o) == drop_empty_tail(ps)
            &&& forall|l: int|
                0 <= l < ps.len() ==> values_of(
                    (#[trigger] ps[l]).0,
                    split_spec(ps[l].0, dialect).0,
                ) == values_of(segs[l].0, split_spec(segs[l].0, dialect).0) && !split_spec(
                    ps[l].0,
                    dialect,
                ).1
        }),
{
    let segs = line_segments(x);
    let ps = rendered_pairs(segs, dialect, widths, mode);
    let o = render_segments(segs, dialect, widths, mode);
    lemma_render_segments_concat(segs, dialect, widths, mode);
    lemma_segment_lines_clean(x, dialect);
    lemma_segments_rebuild(x, 0);
    assert(concat_pairs(segs) == x.subrange(0, x.len() as int));
    assert(segs.len() > 0) by {
        if segs.len() == 0 {
            assert(x.subrange(0, x.len() as int).len() == 0);
        }
    }
    lemma_rendered_well_ended(segs, dialect, widths, mode);
    assert(o.subrange(0, o.len() as int) =~= o);
    lemma_segments_of_concat(ps, o, 0);
    assert forall|l: int| 0 <= l < ps.len() implies values_of(
        (#[trigger] ps[l]).0,
        split_spec(ps[l].0, dialect).0,
    ) == values_of(segs[l].0, split_spec(segs[l].0, dialect).0) && !split_spec(ps[l].0, dialect).1 by {
        assert(!split_spec(segs[l].0, dialect).1);
        law_rewritten_line_reparses(segs[l].0, dialect, widths, mode);
    }
}

/// The records of the rewritten document: its rewritten lines, less an
/// empty unterminated last one when anything else is left.
proof fn lemma_rewritten_records(x: Seq<char>, dialect: Dialect, widths: Seq<usize>, mode: RewriteMode)
    requires
        x.len() > 0,
        !doc_has_warnings(x, dialect),
    ensures
        ({
            let segs = line_segments(x);
            let ps = rendered_pairs(segs, dialect, widths, mode);
            let o = render_segments(segs, dialect, widths, mode);
            let cut = o.len() > 0 && drop_empty_tail(ps).len() < ps.len();
            &&& !cut ==> doc_lines(o) == ps.map_values(|p: (Seq<char>, Seq<char>)| p.0)
            &&& cut ==> ps.len() >= 2 && doc_lines(o) == ps.drop_last().map_values(
                |p: (Seq<char>, Seq<char>)| p.0,
            ) && ps.last().0.len() == 0
        }),
{
    let segs = line_segments(x);
    let ps = rendered_pairs(segs, dialect, widths, mode);
    let o = render_segments(segs, dialect, widths, mode);
    lemma_rewritten_doc(x, dialect, widths, mode);
    if o.len() > 0 {
        lemma_doc_lines_segments(o);
        if drop_empty_tail(ps).len() < ps.len() {
            assert(ps.len() >= 2) by {
                if ps.len() == 1 {
                    assert(drop_empty_tail(ps).len() == 0);
                    lemma_segments_rebuild(o, 0);
                    assert(o.subrange(0, o.len() as int) =~= o);
                }
            }
            assert(drop_empty_tail(ps) == ps.drop_last());
        } else {
            assert(drop_empty_tail(ps) == ps);
        }
    } else {
        // An empty result comes from a single line rewritten to nothing.
        assert(ps.len() == 1) by {
            if ps.len() >= 2 {
                assert(is_line_ending(ps[0].1));
                assert(concat_pairs(ps) == ps[0].0 + ps[0].1 + concat_pairs(ps.drop_first()));
            }
        }
        assert(concat_pairs(ps) == ps[0].0 + ps[0].1 + concat_pairs(ps.drop_first()));
        assert(ps[0].0.len() == 0);
        assert(doc_lines(o) =~= seq![Seq::<char>::empty()]) by {
            assert(super::analysis::doc_body(o) =~= o);
            assert(super::split::find_from(o, 0, '\n') == 0);
        }
        assert(ps.map_values(|p: (Seq<char>, Seq<char>)| p.0) =~= seq![Seq::<char>::empty()]);
    }
}

/// The empty line has one empty field, of width 0.
proof fn lemma_empty_line(dialect: Dialect)
    ensures
        line_value_widths(Seq::<char>::empty(), dialect) == seq![0usize],
        !split_spec(Seq::<char>::empty(), dialect).1,
{
    let e = Seq::<char>::empty();
    assert(!e.contains('"'));
    let fs = split_spec(e, dialect).0;
    assert(fs == seq![super::split::trimmed_span(e, 0, 0)]);
    assert(e.subrange(0, 0) =~= e);
    assert(display_width_of(e) == 0);
    assert(line_value_widths(e, dialect) =~= seq![0usize]);
}

/// Every row of trimmed-value widths has at least one column.
proof fn lemma_first_row_nonempty(line: Seq<char>, dialect: Dialect)
    ensures
        line_value_widths(line, dialect).len() >= 1,
{
    lemma_split_tiles(line, dialect);
}

/// The rewritten document is clean and Align measures it with the same
/// column widths.
proof fn lemma_rewritten_measures(x: Seq<char>, dialect: Dialect, widths: Seq<usize>, mode: RewriteMode)
    requires
        x.len() > 0,
        !doc_has_warnings(x, dialect),
    ensures
        !doc_has_warnings(render_segments(line_segments(x), dialect, widths, mode), dialect),
        align_widths(render_segments(line_segments(x), dialect, widths, mode), dialect)
            == align_widths(x, dialect),
{
    let segs = line_segments(x);
    let ps = rendered_pairs(segs, dialect, widths, mode);
    let o = render_segments(segs, dialect, widths, mode);
    lemma_rewritten_doc(x, dialect, widths, mode);
    lemma_rewritten_records(x, dialect, widths, mode);
    lemma_segment_lines_clean(x, dialect);
    let cut = o.len() > 0 && drop_empty_tail(ps).len() < ps.len();
    let lo = doc_lines(o);
    let lx = doc_lines(x);
    assert(lx.len() == ps.len());
    assert(forall|l: int| 0 <= l < lo.len() ==> #[trigger] lo[l] == ps[l].0);
    assert(forall|l: int| 0 <= l < lx.len() ==> #[trigger] lx[l] == segs[l].0);
    // No record of the rewritten document warns.
    assert(!doc_has_warnings(o, dialect)) by {
        if doc_has_warnings(o, dialect) {
            let l = choose|l: int| 0 <= l < lo.len() && #[trigger] split_spec(lo[l], dialect).1;
            assert(lo[l] == ps[l].0);
        }
    }
    // Rows of value widths agree line by line.
    let ro = doc_value_widths(o, dialect);
    let rx = doc_value_widths(x, dialect);
    assert forall|l: int| 0 <= l < lo.len() implies #[trigger] ro[l] == rx[l] by {
        assert(lo[l] == ps[l].0);
        assert(lx[l] == segs[l].0);
        lemma_value_widths_by_values(ps[l].0, segs[l].0, dialect);
    }
    if cut {
        let last = ps.len() - 1;
        assert(ps[last].0.len() == 0);
        lemma_value_widths_by_values(ps[last].0, segs[last].0, dialect);
        lemma_empty_line(dialect);
        assert(ps[last].0 =~= Seq::<char>::empty());
        assert(rx.last() == seq![0usize]) by {
            assert(rx[last] == line_value_widths(lx[last], dialect));
        }
        lemma_first_row_nonempty(lx[0], dialect);
        lemma_column_maxima_zero_row(rx);
        assert(ro =~= rx.drop_last());
    } else {
        assert(ro =~= rx);
    }
}

/// Align is idempotent: aligning an aligned document changes nothing.
pub proof fn law_align_idempotent(x: Seq<char>, dialect: Dialect)
    ensures
        aligned_text(aligned_text(x, dialect), dialect) == aligned_text(x, dialect),
{
    if doc_has_warnings(x, dialect) {
    } else if x.len() == 0 {
        assert(line_segments(x).len() == 0);
        assert(aligned_text(x, dialect) =~= x);
    } else {
        let w = align_widths(x, dialect);
        let segs = line_segments(x);
        let ps = rendered_pairs(segs, dialect, w, RewriteMode::Align);
        let o = render_segments(segs, dialect, w, RewriteMode::Align);
        assert(aligned_text(x, dialect) == o);
        lemma_rewritten_doc(x, dialect, w, RewriteMode::Align);
        lemma_rewritten_measures(x, dialect, w, RewriteMode::Align);
        let dp = drop_empty_tail(ps);
        assert(line_segments(o) == dp);
        lemma_render_segments_concat(dp, dialect, w, RewriteMode::Align);
        assert(rendered_pairs(dp, dialect, w, RewriteMode::Align) =~= dp) by {
            assert forall|l: int| 0 <= l < dp.len() implies #[trigger] rendered_pairs(
                dp,
                dialect,
                w,
                RewriteMode::Align,
            )[l] == dp[l] by {
                assert(dp[l] == ps[l]);
                lemma_render_by_values(ps[l].0, segs[l].0, dialect, w, RewriteMode::Align);
            }
        }
        lemma_concat_drop_empty_tail(ps);
    }
}

/// For a clean document, Shrink is its lines rewritten with trimmed values.
proof fn lemma_shrunk_clean(x: Seq<char>, dialect: Dialect)
    requires
        !doc_has_warnings(x, dialect),
    ensures
        shrunk_text(x, dialect) == shrunk_lines(x, dialect),
{
    if x.len() == 0 {
        assert(line_segments(x).len() == 0);
        assert(shrunk_lines(x, dialect) =~= x);
    } else if !doc_needs_shrink(x, dialect) {
        let segs = line_segments(x);
        let e = Seq::<usize>::empty();
        lemma_segment_lines_clean(x, dialect);
        lemma_segments_rebuild(x, 0);
        lemma_render_segments_concat(segs, dialect, e, RewriteMode::Shrink);
        let lx = doc_lines(x);
        assert(rendered_pairs(segs, dialect, e, RewriteMode::Shrink) =~= segs) by {
            assert forall|l: int| 0 <= l < segs.len() implies #[trigger] rendered_pairs(
                segs,
                dialect,
                e,
                RewriteMode::Shrink,
            )[l] == segs[l] by {
                assert(lx[l] == segs[l].0);
                assert forall|k: int| 0 <= k < split_spec(segs[l].0, dialect).0.len() implies !span_is_trimmed(
                    #[trigger] split_spec(segs[l].0, dialect).0[k],
                ) by {
                    if span_is_trimmed(split_spec(lx[l], dialect).0[k]) {
                        assert(doc_needs_shrink(x, dialect));
                    }
                }
                lemma_shrink_untrimmed_line(segs[l].0, dialect, e);
            }
        }
        assert(x.subrange(0, x.len() as int) =~= x);
    }
}

/// Shrinking an aligned document gives what shrinking the input gives.
pub proof fn law_shrink_after_align(x: Seq<char>, dialect: Dialect)
    ensures
        shrunk_text(aligned_text(x, dialect), dialect) == shrunk_text(x, dialect),
{
    if doc_has_warnings(x, dialect) {
    } else if x.len() == 0 {
        assert(line_segments(x).len() == 0);
        assert(aligned_text(x, dialect) =~= x);
    } else {
        let w = align_widths(x, dialect);
        let e = Seq::<usize>::empty();
        let segs = line_segments(x);
        let ps = rendered_pairs(segs, dialect, w, RewriteMode::Align);
        let qs = rendered_pairs(segs, dialect, e, RewriteMode::Shrink);
        let o = render_segments(segs, dialect, w, RewriteMode::Align);
        assert(aligned_text(x, dialect) == o);
        lemma_rewritten_doc(x, dialect, w, RewriteMode::Align);
        lemma_rewritten_measures(x, dialect, w, RewriteMode::Align);
        lemma_shrunk_clean(o, dialect);
        lemma_shrunk_clean(x, dialect);
        let dp = drop_empty_tail(ps);
        assert(line_segments(o) == dp);
        lemma_render_segments_concat(dp, dialect, e, RewriteMode::Shrink);
        lemma_render_segments_concat(segs, dialect, e, RewriteMode::Shrink);
        let qd = rendered_pairs(dp, dialect, e, RewriteMode::Shrink);
        assert forall|l: int| 0 <= l < dp.len() implies #[trigger] qd[l] == qs[l] by {
            assert(dp[l] == ps[l]);
            lemma_render_by_values(ps[l].0, segs[l].0, dialect, e, RewriteMode::Shrink);
        }
        if dp.len() < ps.len() {
            let last = ps.len() - 1;
            assert(ps[last].0.len() == 0 && ps[last].1.len() == 0);
            lemma_render_by_values(ps[last].0, segs[last].0, dialect, e, RewriteMode::Shrink);
            assert(ps[last].0 =~= Seq::<char>::empty());
            assert(render_line(Seq::<char>::empty(), dialect, e, RewriteMode::Shrink) =~= Seq::<char>::empty()) by {
                lemma_empty_line(dialect);
                let fs = split_spec(Seq::<char>::empty(), dialect).0;
                assert(fs.len() == 1);
                assert(values_of(Seq::<char>::empty(), fs)[0] =~= Seq::<char>::empty());
            }
            assert(qs.last().0.len() == 0 && qs.last().1.len() == 0);
            lemma_concat_drop_last(qs);
            assert(qd =~= qs.drop_last());
        } else {
            assert(qd =~= qs);
        }
    }
}

/// A document with unbalanced quotes is never reflowed: Align and Shrink
/// return it unchanged.
pub proof fn law_unbalanced_untouched(x: Seq<char>, dialect: Dialect)
    requires
        doc_has_warnings(x, dialect),
    ensures
        aligned_text(x, dialect) == x,
        shrunk_text(x, dialect) == x,
{
}

/// Align rewrites a document line by line: for a document without
/// unbalanced quotes, the aligned text has the input's lines in order, each
/// with the input line's terminator, the same values and no unbalanced quote.
/// The one line that can go is a last, unterminated line whose values all
/// trim away: its rewriting is empty, so the text ends before it.
pub proof fn law_aligned_lines_pair(x: Seq<char>, dialect: Dialect)
    requires
        !doc_has_warnings(x, dialect),
    ensures
        ({
            let segs = line_segments(x);
            let os = line_segments(aligned_text(x, dialect));
            &&& os.len() == segs.len() || (os.len() + 1 == segs.len() && segs.last().1.len() == 0
                && render_line(segs.last().0, dialect, align_widths(x, dialect), RewriteMode::Align).len() == 0)
            &&& forall|l: int|
                0 <= l < os.len() ==> (#[trigger] os[l]).1 == segs[l].1 && values_of(
                    os[l].0,
                    split_spec(os[l].0, dialect).0,
                ) == values_of(segs[l].0, split_spec(segs[l].0, dialect).0) && !split_spec(
                    os[l].0,
                    dialect,
                ).1
        }),
{
    if x.len() == 0 {
        assert(line_segments(x).len() == 0);
        assert(aligned_text(x, dialect) =~= x);
    } else {
        let w = align_widths(x, dialect);
        let segs = line_segments(x);
        let ps = rendered_pairs(segs, dialect, w, RewriteMode::Align);
        lemma_rewritten_doc(x, dialect, w, RewriteMode::Align);
        let os = line_segments(aligned_text(x, dialect));
        assert(os == drop_empty_tail(ps));
        assert forall|l: int| 0 <= l < os.len() implies (#[trigger] os[l]).1 == segs[l].1 && values_of(
            os[l].0,
            split_spec(os[l].0, dialect).0,
        ) == values_of(segs[l].0, split_spec(segs[l].0, dialect).0) && !split_spec(os[l].0, dialect).1 by {
            assert(os[l] == ps[l]);
        }
    }
}

/// Shrink is idempotent: shrinking a shrunk document changes nothing.
pub proof fn law_shrink_idempotent(x: Seq<char>, dialect: Dialect)
    ensures
        shrunk_text(shrunk_text(x, dialect), dialect) == shrunk_text(x, dialect),
{
    if doc_has_warnings(x, dialect) {
    } else if x.len() == 0 {
        assert(line_segments(x).len() == 0);
        assert(shrunk_lines(x, dialect) =~= x);
        lemma_shrunk_clean(x, dialect);
    } else {
        let e = Seq::<usize>::empty();
        let segs = line_segments(x);
        let ps = rendered_pairs(segs, dialect, e, RewriteMode::Shrink);
        let o = render_segments(segs, dialect, e, RewriteMode::Shrink);
        lemma_shrunk_clean(x, dialect);
        assert(shrunk_text(x, dialect) == o);
        lemma_rewritten_doc(x, dialect, e, RewriteMode::Shrink);
        lemma_rewritten_measures(x, dialect, e, RewriteMode::Shrink);
        lemma_shrunk_clean(o, dialect);
        let dp = drop_empty_tail(ps);
        assert(line_segments(o) == dp);
        lemma_render_segments_concat(dp, dialect, e, RewriteMode::Shrink);
        assert(rendered_pairs(dp, dialect, e, RewriteMode::Shrink) =~= dp) by {
            assert forall|l: int| 0 <= l < dp.len() implies #[trigger] rendered_pairs(
                dp,
                dialect,
                e,
                RewriteMode::Shrink,
            )[l] == dp[l] by {
                assert(dp[l] == ps[l]);
                lemma_render_by_values(ps[l].0, segs[l].0, dialect, e, RewriteMode::Shrink);
            }
        }
        lemma_concat_drop_empty_tail(ps);
    }
}

/// A warning-free line that shrinking leaves as it is has no field with
/// surrounding whitespace.
proof fn lemma_shrink_fixed_line(line: Seq<char>, dialect: Dialect, k: int)
    requires
        !split_spec(line, dialect).1,
        render_line(line, dialect, Seq::empty(), RewriteMode::Shrink) == line,
        0 <= k < split_spec(line, dialect).0.len(),
    ensures
        !span_is_trimmed(split_spec(line, dialect).0[k]),
{
    let e = Seq::<usize>::empty();
    let fs = split_spec(line, dialect).0;
    lemma_split_tiles(line, dialect);
    assert(span_ok(fs[k], line.len() as int));
    law_rewritten_line_reparses(line, dialect, e, RewriteMode::Shrink);
    let vs = values_of(line, fs);
    let pv = padded_values(vs, mode_pads(vs, e, RewriteMode::Shrink), 0);
    assert(raws_of(line, fs)[k] == pv[k]);
    assert(raws_of(line, fs)[k].len() == fs[k].end - fs[k].start);
    assert(vs[k].len() == fs[k].tend - fs[k].tstart);
    assert(pv[k].len() == vs[k].len());
}

/// A clean, non-empty document that shrinking leaves as it is: each of its
/// lines is left as it is.
proof fn lemma_shrink_fixed_doc(x: Seq<char>, dialect: Dialect, l: int)
    requires
        x.len() > 0,
        !doc_has_warnings(x, dialect),
        shrunk_lines(x, dialect) == x,
        0 <= l < doc_lines(x).len(),
    ensures
        render_line(doc_lines(x)[l], dialect, Seq::empty(), RewriteMode::Shrink) == doc_lines(x)[l],
        !split_spec(doc_lines(x)[l], dialect).1,
{
    let e = Seq::<usize>::empty();
    let segs = line_segments(x);
    let ps = rendered_pairs(segs, dialect, e, RewriteMode::Shrink);
    lemma_rewritten_doc(x, dialect, e, RewriteMode::Shrink);
    lemma_segment_lines_clean(x, dialect);
    assert(drop_empty_tail(ps).len() == ps.len());
    assert(segs[l] == ps[l]);
    assert(doc_lines(x)[l] == segs[l].0);
}

/// Shrink's change flag is exact: for a document without unbalanced quotes,
/// some field has surrounding whitespace exactly when shrinking changes the
/// text.
pub proof fn law_needs_shrink_is_change(x: Seq<char>, dialect: Dialect)
    requires
        !doc_has_warnings(x, dialect),
    ensures
        doc_needs_shrink(x, dialect) == (shrunk_text(x, dialect) != x),
{
    if doc_needs_shrink(x, dialect) {
        let (l0, k0) = choose|l: int, k: int|
            0 <= l < doc_lines(x).len() && 0 <= k < split_spec(doc_lines(x)[l], dialect).0.len()
                && span_is_trimmed(#[trigger] split_spec(doc_lines(x)[l], dialect).0[k]);
        let line0 = doc_lines(x)[l0];
        if x.len() == 0 {
            let fs0 = split_spec(line0, dialect).0;
            lemma_split_tiles(line0, dialect);
            assert(span_ok(fs0[k0], line0.len() as int));
            assert(doc_lines(x).len() == 1);
            assert(line0.len() == 0);
            assert(false);
        }
        if shrunk_lines(x, dialect) == x {
            lemma_shrink_fixed_doc(x, dialect, l0);
            lemma_shrink_fixed_line(line0, dialect, k0);
            assert(false);
        }
        lemma_shrunk_clean(x, dialect);
    }
}

/// Display columns taken by fields `0..=i` of a record, each followed by its
/// virtual pad.
pub open spec fn padded_width_upto(row: Seq<FieldInfo>, targets: Seq<usize>, i: int) -> int
    decreases i + 1,
{
    if i < 0 {
        0
    } else {
        padded_width_upto(row, targets, i - 1) + row[i].raw_width + field_pad(row, targets, i)
    }
}

/// Sum of the column targets `0..=i`.
pub open spec fn targets_upto(targets: Seq<usize>, i: int) -> int
    decreases i + 1,
{
    if i < 0 {
        0
    } else {
        targets_upto(targets, i - 1) + targets[i]
    }
}

/// Virtual pads line delimiters up: in every record, the raw fields before
/// the delimiter after field `i`, each with its pad, take as many columns as
/// the column targets `0..=i` together, so that delimiter sits in the same
/// display column on every record. Raw widths must fit the `u32` the
/// analysis stores them in.
pub proof fn law_pads_align_delimiters(t: Seq<char>, dialect: Dialect, l: int, i: int)
    requires
        0 <= l < doc_infos(t, dialect).len(),
        0 <= i,
        i + 1 < doc_infos(t, dialect)[l].len(),
        forall|m: int, k: int|
            0 <= m < doc_raw_widths(t, dialect).len() && 0 <= k < doc_raw_widths(t, dialect)[m].len()
                ==> #[trigger] doc_raw_widths(t, dialect)[m][k] <= u32::MAX,
    ensures
        padded_width_upto(
            doc_infos(t, dialect)[l],
            column_maxima(doc_raw_widths(t, dialect)),
            i,
        ) == targets_upto(column_maxima(doc_raw_widths(t, dialect)), i),
    decreases i,
{
    let rows = doc_infos(t, dialect);
    let raws = doc_raw_widths(t, dialect);
    let targets = column_maxima(raws);
    let row = rows[l];
    let line = doc_lines(t)[l];
    let fs = split_spec(line, dialect).0;
    assert(row == line_infos(line, dialect));
    assert(raws[l] == line_raw_widths(line, dialect));
    assert(raws[l][i] == raw_width_of(line, fs[i]));
    assert(raws[l][i] <= u32::MAX);
    assert(row[i].raw_width as usize == raws[l][i]);
    lemma_column_max_bounds(raws, l, i);
    assert(targets[i] == column_max(raws, i));
    assert(row[i].raw_width + field_pad(row, targets, i) == targets[i]);
    if i > 0 {
        law_pads_align_delimiters(t, dialect, l, i - 1);
    } else {
        assert(padded_width_upto(row, targets, -1) == 0);
        assert(targets_upto(targets, -1) == 0);
    }
    assert(padded_width_upto(row, targets, i) == padded_width_upto(row, targets, i - 1)
        + row[i].raw_width + field_pad(row, targets, i));
    assert(targets_upto(targets, i) == targets_upto(targets, i - 1) + targets[i]);
}

// ---------------------------------------------------------------------------
// Aligned documents need no virtual pads
// ---------------------------------------------------------------------------

/// Spaces appended to a text take one display column each under
/// `unicode-width` (as long as the total fits a `usize`).
pub open spec fn trailing_spaces_add_columns() -> bool {
    forall|s: Seq<char>, k: nat|
        unicode_str_width(s) + k <= usize::MAX ==> #[trigger] unicode_str_width(s + spaces(k))
            == unicode_str_width(s) + k
}

/// Every character of `t` is a line feed or printable ASCII.
pub open spec fn printable_text(t: Seq<char>) -> bool {
    forall|i: int| 0 <= i < t.len() ==> #[trigger] t[i] == '\n' || 0x20 <= (t[i] as u32) < 0x7f
}

/// The lines of a concatenation hold only characters of it.
proof fn lemma_concat_pairs_printable(ps: Seq<(Seq<char>, Seq<char>)>, l: int)
    requires
        0 <= l < ps.len(),
        printable_text(concat_pairs(ps)),
    ensures
        printable_text(ps[l].0),
    decreases ps.len(),
{
    let c = concat_pairs(ps);
    assert(c == ps[0].0 + ps[0].1 + concat_pairs(ps.drop_first()));
    if l == 0 {
        assert forall|i: int| 0 <= i < ps[0].0.len() implies #[trigger] ps[0].0[i] == '\n' || 0x20
            <= (ps[0].0[i] as u32) < 0x7f by {
            assert(c[i] == ps[0].0[i]);
        }
    } else {
        let rest = concat_pairs(ps.drop_first());
        let off = ps[0].0.len() + ps[0].1.len();
        assert forall|i: int| 0 <= i < rest.len() implies #[trigger] rest[i] == '\n' || 0x20 <= (
        rest[i] as u32) < 0x7f by {
            assert(c[off + i] == rest[i]);
        }
        lemma_concat_pairs_printable(ps.drop_first(), l - 1);
        assert(ps.drop_first()[l - 1] == ps[l]);
    }
}

proof fn lemma_padded_width(v: Seq<char>, k: nat)
    requires
        trailing_spaces_add_columns() || is_printable_ascii(v),
        v.len() <= usize::MAX,
        display_width_of(v) + k <= usize::MAX,
    ensures
        display_width_of(v + spaces(k)) == display_width_of(v) + k,
{
    let p = v + spaces(k);
    if is_printable_ascii(v) {
        assert(is_printable_ascii(p)) by {
            assert forall|i: int| 0 <= i < p.len() implies 0x20 <= (#[trigger] p[i] as u32) < 0x7f by {
                if i < v.len() {
                    assert(p[i] == v[i]);
                } else {
                    assert(p[i] == ' ');
                }
            }
        }
    } else {
        let i = choose|i: int| 0 <= i < v.len() && !(0x20 <= (#[trigger] v[i] as u32) < 0x7f);
        assert(p[i] == v[i]);
        assert(!is_printable_ascii(p));
        assert(unicode_str_width(v + spaces(k)) == unicode_str_width(v) + k);
    }
}

/// Every line of pairs is as long as their concatenation at most.
proof fn lemma_concat_pairs_len(ps: Seq<(Seq<char>, Seq<char>)>, l: int)
    requires
        0 <= l < ps.len(),
    ensures
        ps[l].0.len() <= concat_pairs(ps).len(),
    decreases ps.len(),
{
    if l > 0 {
        lemma_concat_pairs_len(ps.drop_first(), l - 1);
        assert(ps.drop_first()[l - 1] == ps[l]);
    }
}

proof fn lemma_column_max_le(rows: Seq<Seq<usize>>, i: int, bound: int)
    requires
        0 <= bound,
        forall|l: int| 0 <= l < rows.len() && 0 <= i < rows[l].len() ==> #[trigger] rows[l][i] <= bound,
    ensures
        column_max(rows, i) <= bound,
    decreases rows.len(),
{
    if rows.len() > 0 {
        lemma_column_max_le(rows.drop_last(), i, bound);
        assert(rows.last() == rows[rows.len() - 1]);
    }
}

proof fn lemma_line_pads_empty(row: Seq<FieldInfo>, targets: Seq<usize>, l: int, i: int)
    requires
        0 <= i,
        forall|j: int|
            i <= j && j + 1 < row.len() && j < targets.len() ==> #[trigger] field_pad(row, targets, j) == 0,
    ensures
        line_pads_from(row, targets, l, i) == Seq::<VirtualPad>::empty(),
    decreases row.len() - i,
{
    if !(i + 1 >= row.len() || i >= targets.len()) {
        lemma_line_pads_empty(row, targets, l, i + 1);
        assert(field_pad(row, targets, i) == 0);
    }
}

proof fn lemma_pads_from_empty(rows: Seq<Seq<FieldInfo>>, targets: Seq<usize>, a: int, b: int)
    requires
        forall|l: int| 0 <= l < rows.len() ==> #[trigger] line_pads_from(rows[l], targets, l, 0) == Seq::<VirtualPad>::empty(),
    ensures
        pads_from(rows, targets, a, b) == Seq::<VirtualPad>::empty(),
    decreases b - a,
{
    if !(a >= b || a < 0 || a >= rows.len()) {
        lemma_pads_from_empty(rows, targets, a + 1, b);
        assert(line_pads_from(rows[a], targets, a, 0) == Seq::<VirtualPad>::empty());
    }
}

/// A value padded to its column is exactly as wide as the column; the last
/// value, unpadded, is no wider.
proof fn lemma_padded_field_width(vs: Seq<Seq<char>>, w: Seq<usize>, k: int)
    requires
        trailing_spaces_add_columns() || is_printable_ascii(vs[k]),
        0 <= k < vs.len(),
        k < w.len(),
        display_width_of(vs[k]) <= w[k],
        vs[k].len() <= usize::MAX,
    ensures
        display_width_of(padded_values(vs, align_pads(vs, w), 0)[k]) <= w[k],
        k + 1 < vs.len() ==> display_width_of(padded_values(vs, align_pads(vs, w), 0)[k]) == w[k],
{
    let pads = align_pads(vs, w);
    assert(padded_values(vs, pads, 0)[k] == vs[k] + spaces(
        if k + 1 < vs.len() {
            pads[k]
        } else {
            0
        },
    ));
    if k + 1 < vs.len() {
        assert(pads[k] == (w[k] - display_width_of(vs[k])) as nat);
        lemma_padded_width(vs[k], pads[k]);
    } else {
        assert(vs[k] + spaces(0) =~= vs[k]);
    }
}

/// An aligned line of a clean document: its raw fields are the values of
/// input line `l`, padded by Align; each value fits its column.
#[verifier::rlimit(40)]
proof fn lemma_aligned_line_parts(x: Seq<char>, dialect: Dialect, l: int) -> (vs: Seq<Seq<char>>)
    requires
        0 < x.len() <= usize::MAX,
        !doc_has_warnings(x, dialect),
        0 <= l < doc_lines(aligned_text(x, dialect)).len(),
    ensures
        ({
            let line = doc_lines(aligned_text(x, dialect))[l];
            let fs = split_spec(line, dialect).0;
            let w = align_widths(x, dialect);
            &&& raws_of(line, fs) == padded_values(vs, align_pads(vs, w), 0)
            &&& vs.len() == fs.len()
            &&& vs.len() <= w.len()
            &&& forall|k: int|
                0 <= k < vs.len() ==> display_width_of(#[trigger] vs[k]) <= w[k] && vs[k].len()
                    <= usize::MAX && (printable_text(x) ==> is_printable_ascii(vs[k]))
        }),
{
    let w = align_widths(x, dialect);
    let segs = line_segments(x);
    let ps = rendered_pairs(segs, dialect, w, RewriteMode::Align);
    let o = render_segments(segs, dialect, w, RewriteMode::Align);
    assert(aligned_text(x, dialect) == o);
    let lo = doc_lines(o);
    let lx = doc_lines(x);
    lemma_rewritten_doc(x, dialect, w, RewriteMode::Align);
    lemma_rewritten_records(x, dialect, w, RewriteMode::Align);
    lemma_segment_lines_clean(x, dialect);
    assert(lo[l] == ps[l].0 && lx[l] == segs[l].0 && !split_spec(segs[l].0, dialect).1);
    let src = segs[l].0;
    let fx = split_spec(src, dialect).0;
    let vs = values_of(src, fx);
    let line = lo[l];
    let fs = split_spec(line, dialect).0;
    law_rewritten_line_reparses(src, dialect, w, RewriteMode::Align);
    let pads = align_pads(vs, w);
    assert(raws_of(line, fs) == padded_values(vs, pads, 0));
    assert(fs.len() == vs.len()) by {
        assert(raws_of(line, fs).len() == padded_values(vs, pads, 0).len());
    }
    let rows = doc_value_widths(x, dialect);
    assert(rows[l] == line_value_widths(lx[l], dialect));
    assert(rows[l].len() == vs.len());
    assert(w.len() == max_len(rows));
    assert(src.len() <= x.len()) by {
        lemma_segments_rebuild(x, 0);
        assert(x.subrange(0, x.len() as int) =~= x);
        lemma_concat_pairs_len(segs, l);
    }
    lemma_split_tiles(src, dialect);
    if printable_text(x) {
        lemma_segments_rebuild(x, 0);
        assert(x.subrange(0, x.len() as int) =~= x);
        lemma_concat_pairs_printable(segs, l);
        assert(!src.contains('\n'));
    }
    assert forall|k: int| 0 <= k < vs.len() implies display_width_of(#[trigger] vs[k]) <= w[k]
        && vs[k].len() <= usize::MAX && (printable_text(x) ==> is_printable_ascii(vs[k])) by {
        assert(rows[l][k] == display_width_of(vs[k]));
        assert(span_ok(fx[k], src.len() as int));
        lemma_column_max_bounds(rows, l, k);
        assert(k < max_len(rows));
        if printable_text(x) {
            assert forall|i: int| 0 <= i < vs[k].len() implies 0x20 <= (#[trigger] vs[k][i] as u32)
                < 0x7f by {
                let j = fx[k].tstart + i;
                assert(vs[k][i] == src[j]);
                if src[j] == '\n' {
                    assert(src.contains('\n'));
                }
            }
        }
    }
    lemma_column_max_bounds(rows, l, 0);
    vs
}

/// Raw widths of the fields of an aligned line: the column width for every
/// field but the last, at most the column width for the last.
proof fn lemma_aligned_raw_widths(x: Seq<char>, dialect: Dialect, l: int)
    requires
        0 < x.len() <= usize::MAX,
        !doc_has_warnings(x, dialect),
        trailing_spaces_add_columns() || printable_text(x),
        0 <= l < doc_lines(aligned_text(x, dialect)).len(),
    ensures
        ({
            let line = doc_lines(aligned_text(x, dialect))[l];
            let fs = split_spec(line, dialect).0;
            let w = align_widths(x, dialect);
            &&& fs.len() <= w.len()
            &&& forall|k: int|
                0 <= k < fs.len() ==> raw_width_of(line, #[trigger] fs[k]) <= w[k] && (k + 1
                    < fs.len() ==> raw_width_of(line, fs[k]) == w[k])
        }),
{
    let line = doc_lines(aligned_text(x, dialect))[l];
    let fs = split_spec(line, dialect).0;
    let w = align_widths(x, dialect);
    let vs = lemma_aligned_line_parts(x, dialect, l);
    assert forall|k: int| 0 <= k < fs.len() implies raw_width_of(line, #[trigger] fs[k]) <= w[k]
        && (k + 1 < fs.len() ==> raw_width_of(line, fs[k]) == w[k]) by {
        assert(raws_of(line, fs)[k] == line.subrange(fs[k].start, fs[k].end));
        assert(k < vs.len());
        assert(printable_text(x) ==> is_printable_ascii(vs[k]));
        lemma_padded_field_width(vs, w, k);
    }
}

/// An aligned document needs no virtual pads: every delimiter already sits
/// at its column. This rests on trailing spaces adding one display column
/// each under `unicode-width` (not needed when the document is printable
/// ASCII, which is measured by its length), and on column widths fitting the
/// `u32` that field measurements are kept in.
pub proof fn law_aligned_has_no_pads(x: Seq<char>, dialect: Dialect)
    requires
        x.len() <= usize::MAX,
        !doc_has_warnings(x, dialect),
        trailing_spaces_add_columns() || printable_text(x),
        forall|i: int| 0 <= i < align_widths(x, dialect).len() ==> align_widths(x, dialect)[i] <= u32::MAX,
    ensures
        doc_pads(aligned_text(x, dialect), dialect) == Seq::<VirtualPad>::empty(),
{
    let o = aligned_text(x, dialect);
    let rows = doc_infos(o, dialect);
    let targets = column_maxima(doc_raw_widths(o, dialect));
    let lo = doc_lines(o);
    if x.len() == 0 {
        assert(line_segments(x).len() == 0);
        assert(o =~= x);
        lemma_empty_line(dialect);
        assert forall|l: int| 0 <= l < rows.len() implies #[trigger] line_pads_from(rows[l], targets, l, 0)
            == Seq::<VirtualPad>::empty() by {
            assert(o.len() == 0);
            assert(super::analysis::doc_body(o) =~= o);
            assert(super::split::find_from(o, 0, '\n') == 0);
            assert(super::analysis::lines_from(o, 0) =~= seq![o.subrange(0, 0)]);
            assert(o.subrange(0, 0) =~= Seq::<char>::empty());
            assert(super::analysis::strip_cr(Seq::<char>::empty()) == Seq::<char>::empty());
            assert(lo =~= seq![Seq::<char>::empty()]);
            assert(rows[l] == line_infos(lo[l], dialect));
            assert(line_value_widths(lo[l], dialect).len() == 1);
        }
    } else {
        let w = align_widths(x, dialect);
        let raw_rows = doc_raw_widths(o, dialect);
        assert forall|l: int| 0 <= l < rows.len() implies #[trigger] line_pads_from(rows[l], targets, l, 0)
            == Seq::<VirtualPad>::empty() by {
            let line = lo[l];
            let fs = split_spec(line, dialect).0;
            lemma_aligned_raw_widths(x, dialect, l);
            assert(rows[l] == line_infos(line, dialect));
            assert forall|j: int| 0 <= j && j + 1 < rows[l].len() && j < targets.len() implies #[trigger] field_pad(
                rows[l],
                targets,
                j,
            ) == 0 by {
                assert(rows[l][j] == super::analysis::field_info(line, fs[j]));
                assert(raw_width_of(line, fs[j]) == w[j]);
                assert(w[j] <= u32::MAX);
                // The column target is at most the column width.
                assert forall|m: int| 0 <= m < raw_rows.len() && 0 <= j < raw_rows[m].len() implies #[trigger] raw_rows[m][j] <= w[j] by {
                    lemma_aligned_raw_widths(x, dialect, m);
                    assert(raw_rows[m] == line_raw_widths(lo[m], dialect));
                }
                lemma_column_max_le(raw_rows, j, w[j] as int);
            }
            lemma_line_pads_empty(rows[l], targets, l, 0);
        }
    }
    lemma_pads_from_empty(
        rows,
        targets,
        range_start(rows.len(), 0),
        range_end(rows.len(), u32::MAX),
    );
}

/// An aligned printable-ASCII document needs no virtual pads (no assumption
/// on `unicode-width`: such text is measured by its length).
pub proof fn law_aligned_printable_has_no_pads(x: Seq<char>, dialect: Dialect)
    requires
        x.len() <= usize::MAX,
        printable_text(x),
        !doc_has_warnings(x, dialect),
        forall|i: int| 0 <= i < align_widths(x, dialect).len() ==> align_widths(x, dialect)[i] <= u32::MAX,
    ensures
        doc_pads(aligned_text(x, dialect), dialect) == Seq::<VirtualPad>::empty(),
{
    law_aligned_has_no_pads(x, dialect);
}

} // verus!
