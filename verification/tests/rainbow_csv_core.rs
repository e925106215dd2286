use csv_columns::rainbow_csv_core::{
    align_document, analyze_document, display_width, pads_for_range, shrink_document,
    split_line, split_line_spans, utf16_len, virtual_pads, Dialect, VirtualPad,
};

/// A small CSV with quoted fields, embedded delimiters and escaped quotes.
const SAMPLE: &str = "Year,Make,Model,Description,Price\n\
1997,Ford,E350,\"ac, abs, moon\",3000.00\n\
1999,Chevy,\"Venture \"\"Extended Edition\"\"\",\"\",4900.00\n\
1999,Chevy,\"Venture \"\"Extended Edition, Very Large\"\"\",,5000.00\n\
1996,Jeep,Grand Cherokee,\"MUST SELL! air, moon roof, loaded\",4799.00\n";

#[test]
fn lib_split_simple() {
    let (f, w) = split_line("a\tb\tc", Dialect::Tsv);
    assert_eq!(f, vec!["a", "b", "c"]);
    assert!(!w);
}

#[test]
fn lib_split_quoted_with_comma() {
    let (f, w) = split_line("1,\"a,b\",c", Dialect::Csv);
    assert_eq!(f, vec!["1", "\"a,b\"", "c"]);
    assert!(!w);
}

#[test]
fn lib_split_quoted_escaped() {
    let (f, w) = split_line("2,\"1.7 Cubic Foot \"\"Cube\"\" X\",y", Dialect::Csv);
    assert_eq!(f.len(), 3);
    assert!(!w);
}

#[test]
fn lib_split_unbalanced_warns() {
    let (_f, w) = split_line("a,\"b,c", Dialect::Csv);
    assert!(w);
}

#[test]
fn split_tolerates_whitespace_around_quotes() {
    let (f, w) = split_line("1,  \"Smith, J\"   ,3", Dialect::Csv);
    assert_eq!(f, vec!["1", "\"Smith, J\"", "3"]);
    assert!(!w);
}

#[test]
fn split_rejects_garbage_after_quote() {
    let (_f, w) = split_line("1,\"a\"x,3", Dialect::Csv);
    assert!(w);
}

#[test]
fn lib_align_basic_csv() {
    let input = "a,bb,ccc\ndddd,e,f\n";
    let out = align_document(input, Dialect::Csv);
    assert_eq!(out, "a   ,bb,ccc\ndddd,e ,f\n");
}

#[test]
fn lib_align_trims_and_pads() {
    let input = "  a , bb \nccc, d\n";
    let out = align_document(input, Dialect::Csv);
    assert_eq!(out, "a  ,bb\nccc,d\n");
}

#[test]
fn align_quoted_padding_is_idempotent() {
    let input = "Rank,Name,Score\n1,\"Smith, J\",3\n100,Alexander Hamilton-Smith,5\n22,Li,30\n";
    let once = align_document(input, Dialect::Csv);
    assert!(once.contains("\"Smith, J\""), "quoted comma must survive: {once}");
    assert_eq!(align_document(&once, Dialect::Csv), once);
}

#[test]
fn align_is_idempotent_on_sample() {
    let once = align_document(SAMPLE, Dialect::Csv);
    assert_eq!(align_document(&once, Dialect::Csv), once);
}

#[test]
fn shrink_after_align_matches_shrink() {
    let inputs = [
        "  a , bb \nccc, d\n",
        "Rank,Name,Score\n1,\"Smith, J\",3\n100,Alexander Hamilton-Smith,5\n",
        SAMPLE,
    ];
    for input in inputs {
        let aligned = align_document(input, Dialect::Csv);
        assert_eq!(
            shrink_document(&aligned, Dialect::Csv).0,
            shrink_document(input, Dialect::Csv).0
        );
    }
}

#[test]
fn align_refuses_unbalanced() {
    let bad = "a,b\n1,\"oops,2\n";
    assert!(analyze_document(bad, Dialect::Csv).has_warnings);
    assert_eq!(align_document(bad, Dialect::Csv), bad);
    assert_eq!(shrink_document(bad, Dialect::Csv), (bad.to_string(), false));
}

#[test]
fn align_refuses_multiline_record() {
    let multiline = "\"a\nb\",c\nd,e\n";
    assert!(analyze_document(multiline, Dialect::Csv).has_warnings);
    assert_eq!(align_document(multiline, Dialect::Csv), multiline);
}

#[test]
fn lib_shrink_trims() {
    let (out, changed) = shrink_document("  a , bb \nccc,d\n", Dialect::Csv);
    assert_eq!(out, "a,bb\nccc,d\n");
    assert!(changed);
}

#[test]
fn lib_shrink_noop() {
    let (_out, changed) = shrink_document("a,b\nc,d\n", Dialect::Csv);
    assert!(!changed);
}

#[test]
fn lib_virtual_pads_basic() {
    let pads = virtual_pads("a,bb\ncccc,d\n", Dialect::Csv);
    assert!(pads.contains(&VirtualPad { line: 0, col: 1, spaces: 3 }));
}

#[test]
fn lib_pads_for_range_subset() {
    let analysis = analyze_document("a,bb\ncccc,d\n", Dialect::Csv);
    assert_eq!(analysis.widths, vec![4, 2]);
    let all = pads_for_range(&analysis, 0, u32::MAX);
    assert_eq!(all, virtual_pads("a,bb\ncccc,d\n", Dialect::Csv));
    let line0 = pads_for_range(&analysis, 0, 0);
    assert_eq!(line0, vec![VirtualPad { line: 0, col: 1, spaces: 3 }]);
    assert!(pads_for_range(&analysis, 1, 1).is_empty());
}

#[test]
fn pads_anchor_after_existing_whitespace() {
    let analysis = analyze_document("a  ,b\ncccc,d\n", Dialect::Csv);
    let raw_widths: Vec<Vec<u32>> = (0..analysis.line_count())
        .map(|l| analysis.line(l).iter().map(|f| f.raw_width).collect())
        .collect();
    assert_eq!(raw_widths, vec![vec![3, 1], vec![4, 1]]);
    assert_eq!(analysis.raw_width_targets, vec![4, 1]);
    let pads = pads_for_range(&analysis, 0, 0);
    assert_eq!(pads, vec![VirtualPad { line: 0, col: 3, spaces: 1 }]);
}

#[test]
fn aligned_document_has_no_virtual_pads() {
    let aligned = align_document("x,y\nxxxxxx,z\n", Dialect::Csv);
    assert_eq!(aligned, "x     ,y\nxxxxxx,z\n");
    assert!(virtual_pads(&aligned, Dialect::Csv).is_empty());
}

#[test]
fn quoted_aligned_document_has_no_virtual_pads() {
    let aligned = align_document("a,\"x\",z\nlong,\"bb\",q\n", Dialect::Csv);
    assert_eq!(aligned, "a   ,\"x\" ,z\nlong,\"bb\",q\n");
    assert!(virtual_pads(&aligned, Dialect::Csv).is_empty());
}

#[test]
fn utf16_columns() {
    assert_eq!(utf16_len("a"), 1);
    assert_eq!(utf16_len("é"), 1);
    assert_eq!(utf16_len("😀"), 2);
    let analysis = analyze_document("😀,bb\ncccc,d\n", Dialect::Csv);
    let pads = pads_for_range(&analysis, 0, 0);
    assert_eq!(pads, vec![VirtualPad { line: 0, col: 2, spaces: 2 }]);
}

#[test]
fn lib_upstream_sample_parses_without_warnings() {
    assert!(!analyze_document(SAMPLE, Dialect::Csv).has_warnings);
}

// ---------------------------------------------------------------------------
// Concrete cases of the generated-input properties
// ---------------------------------------------------------------------------

#[test]
fn align_idempotent_and_shrink_stable_csv_cases() {
    let texts = [
        "a,\"b, c\",d\n\"e\"\"f\",g,h\n,,\n",
        "  x  ,  \"y,z\"  \nlonger value,é\n",
        "\n",
        "",
    ];
    for text in texts {
        let once = align_document(text, Dialect::Csv);
        assert_eq!(align_document(&once, Dialect::Csv), once);
        assert_eq!(shrink_document(&once, Dialect::Csv).0, shrink_document(text, Dialect::Csv).0);
    }
}

#[test]
fn align_idempotent_and_shrink_stable_tsv_cases() {
    let texts = ["a\tbb\t\"c\nddd\te\tf\n", "é ü\t1\n2\t3\t4\n"];
    for text in texts {
        let once = align_document(text, Dialect::Tsv);
        assert_eq!(align_document(&once, Dialect::Tsv), once);
        assert_eq!(shrink_document(&once, Dialect::Tsv).0, shrink_document(text, Dialect::Tsv).0);
    }
}

#[test]
fn virtual_pads_align_ragged_rows_cases() {
    let text = "  a  ,  \"b,c\"  ,d\n  longer  ,  e  \n  x  ,  yyyyyy  ,  z  ";
    let analysis = analyze_document(text, Dialect::Csv);
    assert!(!analysis.has_warnings);
    let pads = pads_for_range(&analysis, 0, u32::MAX);
    let mut delimiter_columns: Vec<Option<usize>> = Vec::new();
    for (line_num, line) in text.split('\n').enumerate() {
        let (fields, warning) = split_line_spans(line, Dialect::Csv);
        assert!(!warning);
        let mut display_col = 0usize;
        for (i, field) in fields.iter().enumerate() {
            let pad = pads
                .iter()
                .find(|pad| {
                    pad.line == line_num as u32 && pad.col == utf16_len(&line[..field.end]) as u32
                })
                .map_or(0, |pad| pad.spaces);
            display_col += display_width(&line[field.start..field.end]) + pad;
            if i + 1 < fields.len() {
                if delimiter_columns.len() <= i {
                    delimiter_columns.resize(i + 1, None);
                }
                if let Some(previous) = delimiter_columns[i] {
                    assert_eq!(previous, display_col, "delimiter column {i} differs on line {line_num}");
                } else {
                    delimiter_columns[i] = Some(display_col);
                }
                display_col += display_width(",");
            }
        }
    }
}

#[test]
fn rewritten_lines_reparse_to_same_values() {
    let text = "  id ,  \"x, y\" ,z\nlonger id,\"\"\"q\"\"\",  w\n";
    let aligned = align_document(text, Dialect::Csv);
    let shrunk = shrink_document(text, Dialect::Csv).0;
    for out in [aligned, shrunk] {
        for (before, after) in text.lines().zip(out.lines()) {
            let (v0, w0) = split_line(before, Dialect::Csv);
            let (v1, w1) = split_line(after, Dialect::Csv);
            assert_eq!(v0, v1);
            assert!(!w0 && !w1);
        }
    }
}

#[test]
fn needs_align_is_exactly_whether_align_changes_text() {
    let ragged = "a,b\nxx,c\n";
    assert_ne!(align_document(ragged, Dialect::Csv), ragged);
    assert!(analyze_document(ragged, Dialect::Csv).needs_align);
    let tidy = "aa,b\nxx,c\n";
    assert_eq!(align_document(tidy, Dialect::Csv), tidy);
    assert!(!analyze_document(tidy, Dialect::Csv).needs_align);
    // Padding that Align would write anyway is no change.
    let padded = "a ,b\nxx,c\n";
    assert_eq!(align_document(padded, Dialect::Csv), padded);
    assert!(!analyze_document(padded, Dialect::Csv).needs_align);
    assert!(analyze_document(padded, Dialect::Csv).needs_shrink);
    let aligned = "x     ,y\nxxxxxx,z\n";
    assert!(!analyze_document(aligned, Dialect::Csv).needs_align);
    // Unbalanced documents are never changed.
    assert!(!analyze_document("a , b\n\"x,y\n", Dialect::Csv).needs_align);
}

#[test]
fn shrink_is_idempotent() {
    for text in ["  a , bb \nccc,d\n", "a,b\n", " x ,\t\"q\" \r\n", "a , b\n\"x,y\n", ""] {
        let (once, _) = shrink_document(text, Dialect::Csv);
        let (twice, changed) = shrink_document(&once, Dialect::Csv);
        assert_eq!(twice, once);
        assert!(!changed);
    }
}

#[test]
fn needs_shrink_is_exactly_whether_shrink_changes_text() {
    for text in ["  a , bb \nccc,d\n", "a,b\nc,d\n", "a\n   ", "x ,y\n", "\"q\" ,z\n"] {
        let a = analyze_document(text, Dialect::Csv);
        assert!(!a.has_warnings);
        let (out, changed) = shrink_document(text, Dialect::Csv);
        assert_eq!(a.needs_shrink, out != text);
        assert_eq!(changed, out != text);
    }
    assert!(analyze_document("x ,y\n", Dialect::Csv).needs_shrink);
    assert!(!analyze_document("x,y\n", Dialect::Csv).needs_shrink);
}

#[test]
fn aligned_lines_pair_with_input_lines() {
    let text = "a,bb\r\nccc,d\nx";
    let out = align_document(text, Dialect::Csv);
    assert_eq!(out, "a  ,bb\r\nccc,d\nx");
    let ins: Vec<&str> = text.split('\n').collect();
    let outs: Vec<&str> = out.split('\n').collect();
    assert_eq!(ins.len(), outs.len());
    for (i, o) in ins.iter().zip(outs.iter()) {
        assert_eq!(i.ends_with('\r'), o.ends_with('\r'));
        assert_eq!(split_line(i.trim_end_matches('\r'), Dialect::Csv), split_line(o.trim_end_matches('\r'), Dialect::Csv));
    }
    // A last unterminated line whose values all trim away goes.
    assert_eq!(align_document("a\n   ", Dialect::Csv), "a\n");
}

#[test]
fn pads_for_range_is_filtered_full_list() {
    let text = "a,bb,c\ncccc,d,e\nxx,y,zzz\nq\n";
    let analysis = analyze_document(text, Dialect::Csv);
    let all = pads_for_range(&analysis, 0, u32::MAX);
    assert!(!all.is_empty());
    for (s, e) in [(0u32, 0u32), (1, 2), (2, 1), (0, 3), (3, 9), (7, 9)] {
        let want: Vec<VirtualPad> = all.iter().filter(|p| s <= p.line && p.line <= e).cloned().collect();
        assert_eq!(pads_for_range(&analysis, s, e), want);
    }
    assert!(all.iter().all(|p| p.spaces > 0 && (p.line as usize) < analysis.line_count()));
    assert!(all.windows(2).all(|w| (w[0].line, w[0].col) < (w[1].line, w[1].col)));
}
