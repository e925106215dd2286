use csv_columns::csv_core::{
    align_document, column_widths, display_width, pads_for_range, parse_trimmed_records,
    shrink_document, split_line, virtual_pads, Dialect, VirtualPad,
};

/// A small CSV with quoted fields, embedded delimiters and escaped quotes.
const SAMPLE: &str = "Year,Make,Model,Description,Price\n\
1997,Ford,E350,\"ac, abs, moon\",3000.00\n\
1999,Chevy,\"Venture \"\"Extended Edition\"\"\",\"\",4900.00\n\
1999,Chevy,\"Venture \"\"Extended Edition, Very Large\"\"\",,5000.00\n\
1996,Jeep,Grand Cherokee,\"MUST SELL! air, moon roof, loaded\",4799.00\n";

#[test]
fn split_simple() {
    let (f, w) = split_line("a\tb\tc", Dialect::Tsv);
    assert_eq!(f, vec!["a", "b", "c"]);
    assert!(!w);
}

#[test]
fn split_quoted_with_comma() {
    let (f, w) = split_line("1,\"a,b\",c", Dialect::Csv);
    assert_eq!(f, vec!["1", "\"a,b\"", "c"]);
    assert!(!w);
}

#[test]
fn split_quoted_escaped() {
    let (f, w) = split_line("2,\"1.7 Cubic Foot \"\"Cube\"\" X\",y", Dialect::Csv);
    assert_eq!(f.len(), 3);
    assert!(!w);
}

#[test]
fn split_unbalanced_warns() {
    let (_f, w) = split_line("a,\"b,c", Dialect::Csv);
    assert!(w);
}

#[test]
fn align_basic_csv() {
    let input = "a,bb,ccc\ndddd,e,f\n";
    let out = align_document(input, Dialect::Csv);
    assert_eq!(out, "a   ,bb,ccc\ndddd,e ,f\n");
}

#[test]
fn align_trims_and_pads() {
    let input = "  a , bb \nccc, d\n";
    let out = align_document(input, Dialect::Csv);
    assert_eq!(out, "a  ,bb\nccc,d\n");
}

#[test]
fn shrink_trims() {
    let (out, changed) = shrink_document("  a , bb \nccc,d\n", Dialect::Csv);
    assert_eq!(out, "a,bb\nccc,d\n");
    assert!(changed);
}

#[test]
fn shrink_noop() {
    let (_out, changed) = shrink_document("a,b\nc,d\n", Dialect::Csv);
    assert!(!changed);
}

#[test]
fn virtual_pads_basic() {
    let pads = virtual_pads("a,bb\ncccc,d\n", Dialect::Csv);
    // col0 widths: max(1,4)=4 -> line0 needs 3 pads after col1; col1 is last -> none.
    assert!(pads.contains(&VirtualPad { line: 0, col: 1, spaces: 3 }));
}

#[test]
fn pads_for_range_subset() {
    let records = parse_trimmed_records("a,bb\ncccc,d\n", Dialect::Csv);
    let widths = column_widths(&records);
    assert_eq!(widths, vec![4, 2]);
    let all = pads_for_range(&records, &widths, 0, u32::MAX);
    assert_eq!(all, virtual_pads("a,bb\ncccc,d\n", Dialect::Csv));
    // Line 0 needs padding ("a" -> width 4); line 1 is already widest.
    let line0 = pads_for_range(&records, &widths, 0, 0);
    assert_eq!(line0, vec![VirtualPad { line: 0, col: 1, spaces: 3 }]);
    let line1 = pads_for_range(&records, &widths, 1, 1);
    assert!(line1.is_empty());
}

#[test]
fn upstream_sample_parses_without_warnings() {
    let dialect = Dialect::Csv;
    let mut warnings = 0;
    for line in SAMPLE.lines() {
        let (_, w) = split_line(line, dialect);
        if w {
            warnings += 1;
        }
    }
    assert!(warnings <= 1, "too many warnings: {warnings}");
}

// ---------------------------------------------------------------------------
// Further cases
// ---------------------------------------------------------------------------

#[test]
fn csv_core_split_keeps_raw_whitespace() {
    let (f, w) = split_line(" a , b ", Dialect::Csv);
    assert_eq!(f, vec![" a ", " b "]);
    assert!(!w);
}

#[test]
fn csv_core_split_trailing_delimiter_gives_empty_field() {
    let (f, w) = split_line("\"a\",", Dialect::Csv);
    assert_eq!(f, vec!["\"a\"", ""]);
    assert!(!w);
    let (f, w) = split_line("x\"y,", Dialect::Csv);
    assert_eq!(f, vec!["x\"y", ""]);
    assert!(w);
}

#[test]
fn csv_core_split_unbalanced_keeps_trailing_empty_field() {
    let (f, w) = split_line("a,\"b,", Dialect::Csv);
    assert_eq!(f, vec!["a", "\"b", ""]);
    assert!(w);
}

#[test]
fn csv_core_split_quote_followed_by_text_is_unbalanced() {
    let (f, w) = split_line("1,\"a\"x,3", Dialect::Csv);
    assert_eq!(f, vec!["1", "\"a\"x", "3"]);
    assert!(w);
}

#[test]
fn csv_core_split_simple_dialect_ignores_quotes() {
    let (f, w) = split_line("\"a|b\"|c", Dialect::Psv);
    assert_eq!(f, vec!["\"a", "b\"", "c"]);
    assert!(!w);
    let (f, w) = split_line("", Dialect::Ssv);
    assert_eq!(f, vec![""]);
    assert!(!w);
}

#[test]
fn csv_core_display_width_counts_wide_chars() {
    assert_eq!(display_width("abc"), 3);
    assert_eq!(display_width("日本"), 4);
}

#[test]
fn csv_core_align_empty_and_crlf() {
    assert_eq!(align_document("", Dialect::Csv), "");
    assert_eq!(align_document("a,bb\r\nccc,d\r\n", Dialect::Csv), "a  ,bb\r\nccc,d\r\n");
    assert_eq!(align_document("a,b\nccc,d", Dialect::Csv), "a  ,b\nccc,d");
}

#[test]
fn csv_core_align_keeps_unbalanced_lines() {
    let out = align_document("a,b\n  \"x, y\nlong,z\n", Dialect::Csv);
    assert_eq!(out, "a   ,b\n  \"x, y\nlong,z\n");
}

#[test]
fn csv_core_align_wide_characters() {
    let out = align_document("日本,x\nabcde,y\n", Dialect::Csv);
    assert_eq!(out, "日本 ,x\nabcde,y\n");
}

#[test]
fn csv_core_shrink_keeps_crlf_and_reports_change() {
    let (out, changed) = shrink_document(" a ,b\r\nc,d\r\n", Dialect::Csv);
    assert_eq!(out, "a,b\r\nc,d\r\n");
    assert!(changed);
    assert_eq!(shrink_document("", Dialect::Csv), (String::new(), false));
}

#[test]
fn csv_core_records_and_widths() {
    let records = parse_trimmed_records(" a ,bb\r\ncccc\n", Dialect::Csv);
    assert_eq!(records, vec![vec!["a".to_string(), "bb".to_string()], vec!["cccc".to_string()]]);
    assert_eq!(column_widths(&records), vec![4, 2]);
}

#[test]
fn csv_core_pads_count_characters() {
    let pads = virtual_pads("é,x\nabc,y\n", Dialect::Csv);
    assert_eq!(pads, vec![VirtualPad { line: 0, col: 1, spaces: 2 }]);
}

#[test]
fn csv_core_shrink_keeps_empty_field_after_unbalanced_quote() {
    assert_eq!(shrink_document("\"a,\n", Dialect::Csv), (String::from("\"a,\n"), false));
    let (out, changed) = shrink_document(" x ,\"a,\n", Dialect::Csv);
    assert_eq!(out, "x,\"a,\n");
    assert!(changed);
}

#[test]
fn csv_core_split_joins_back_to_line() {
    for line in ["a, b,\"c,d\",", "\"x\"y,z", "", ",,", "\"a,"] {
        let (f, _) = split_line(line, Dialect::Csv);
        assert!(!f.is_empty());
        assert_eq!(f.join(","), line);
    }
}
