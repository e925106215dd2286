use csv_columns::csv_core::Dialect;
use csv_columns::lsp::{
    align_edits, answer, classify_notification, classify_request, cli_output, code_actions,
    command_edits, dialect_for, dialect_for_extension, dialect_for_file, full_range, inlay_hints,
    parse_mode, shrink_edits, CliError, CliMode, DocState, NotificationKind, Position, Query,
    Reply, RequestKind, MAX_HINTS,
};
use lsp_types::Url;

fn doc(language_id: &str, text: &str, uri: &str) -> DocState {
    let uri = Url::parse(uri).unwrap();
    DocState::new(String::from(language_id), String::from(text), uri.path())
}

#[test]
fn docstate_caches_widths() {
    let uri = Url::parse("file:///C:/t.csv").unwrap();
    let doc = DocState::new(String::from("Rainbow CSV (,)"), String::from("a,bb\ncccc,d\n"), uri.path());
    assert_eq!(doc.dialect, Dialect::Csv);
    assert_eq!(doc.widths, vec![4, 2]);
    assert_eq!(doc.records.len(), 2);
}

#[test]
fn full_range_covers_trailing_newline() {
    let r = full_range("a");
    assert_eq!((r.start.line, r.start.character), (0, 0));
    assert_eq!((r.end.line, r.end.character), (0, 1));
    let r = full_range("");
    assert_eq!((r.end.line, r.end.character), (0, 0));
    let r = full_range("a,bb,ccc\ndddd,e,f\n");
    assert_eq!((r.end.line, r.end.character), (2, 0));
    let r = full_range("a\n\n");
    assert_eq!((r.end.line, r.end.character), (2, 0));
    let r = full_range("a,bb\r\nccc,d\r\n");
    assert_eq!((r.end.line, r.end.character), (2, 0));
}

#[test]
fn full_range_counts_characters_not_bytes() {
    let r = full_range("é,😀\r\nab");
    assert_eq!(r.end, Position { line: 1, character: 2 });
    let r = full_range("é,😀");
    assert_eq!(r.end, Position { line: 0, character: 3 });
}

#[test]
fn dialect_from_language_then_extension() {
    assert_eq!(dialect_for("Rainbow CSV (;)", "/x/data.csv"), Dialect::Ssv);
    assert_eq!(dialect_for("Rainbow TSV (tab)", "/x/data.csv"), Dialect::Tsv);
    assert_eq!(dialect_for("plaintext", "/x/data.TSV"), Dialect::Tsv);
    assert_eq!(dialect_for("plaintext", "/x/archive.tar.tab"), Dialect::Tsv);
    assert_eq!(dialect_for("plaintext", "/x/data.txt"), Dialect::Csv);
    assert_eq!(dialect_for("plaintext", "/x/noext"), Dialect::Csv);
    assert_eq!(dialect_for("csv", "/x/y.psv"), Dialect::Csv);
}

#[test]
fn dialect_for_files_by_extension() {
    assert_eq!(dialect_for_extension(Some("tsv")), Dialect::Tsv);
    assert_eq!(dialect_for_extension(Some("TAB")), Dialect::Tsv);
    assert_eq!(dialect_for_extension(Some("csv")), Dialect::Csv);
    assert_eq!(dialect_for_extension(Some("psv")), Dialect::Csv);
    assert_eq!(dialect_for_extension(None), Dialect::Csv);
    assert_eq!(dialect_for_file("data/points.tsv"), Dialect::Tsv);
    assert_eq!(dialect_for_file("data/points.csv"), Dialect::Csv);
    assert_eq!(dialect_for_file("README"), Dialect::Csv);
    assert_eq!(dialect_for_file("export.TAB"), Dialect::Tsv);
    assert_eq!(dialect_for_file("dir/.tsv"), Dialect::Csv);
}

#[test]
fn align_edits_replace_whole_document() {
    let edits = align_edits("a,bb\ncccc,d\n", Dialect::Csv);
    assert_eq!(edits.len(), 1);
    assert_eq!(edits[0].new_text, "a   ,bb\ncccc,d\n");
    assert_eq!(edits[0].range.start, Position { line: 0, character: 0 });
    assert_eq!(edits[0].range.end, Position { line: 2, character: 0 });
    assert!(align_edits("a   ,bb\ncccc,d\n", Dialect::Csv).is_empty());
}

#[test]
fn unbalanced_documents_get_no_edits() {
    let bad = "a,b\n1,\"oops,2\n";
    assert!(align_edits(bad, Dialect::Csv).is_empty());
    assert!(shrink_edits(" a ,b\n1,\"oops,2\n", Dialect::Csv).is_empty());
    let d = doc("Rainbow CSV (,)", " a ,b\n1,\"oops,2\n", "file:///t.csv");
    assert!(code_actions(&d).is_empty());
    assert!(command_edits(&d, "csv.align").is_empty());
    assert!(command_edits(&d, "csv.shrink").is_empty());
}

#[test]
fn shrink_edits_only_when_something_changes() {
    let edits = shrink_edits(" a , b\nc,d\n", Dialect::Csv);
    assert_eq!(edits.len(), 1);
    assert_eq!(edits[0].new_text, "a,b\nc,d\n");
    assert!(shrink_edits("a,b\nc,d\n", Dialect::Csv).is_empty());
}

#[test]
fn code_actions_offer_align_and_shrink() {
    let d = doc("Rainbow CSV (,)", " a ,bb\ncccc,d\n", "file:///t.csv");
    let actions = code_actions(&d);
    assert_eq!(actions.len(), 2);
    assert_eq!(actions[0].title, "Align CSV columns (spaces)");
    assert_eq!(actions[0].edit.new_text, "a   ,bb\ncccc,d\n");
    assert_eq!(actions[1].title, "Shrink CSV columns (trim spaces)");
    assert_eq!(actions[1].edit.new_text, "a,bb\ncccc,d\n");
    let aligned = doc("Rainbow CSV (,)", "a   ,bb\ncccc,d\n", "file:///t.csv");
    let only_shrink = code_actions(&aligned);
    assert_eq!(only_shrink.len(), 1);
    assert_eq!(only_shrink[0].title, "Shrink CSV columns (trim spaces)");
    let tidy = doc("Rainbow CSV (,)", "ab,c\nde,f\n", "file:///t.csv");
    assert!(code_actions(&tidy).is_empty());
}

#[test]
fn commands_pick_shrink_or_align() {
    let d = doc("Rainbow CSV (,)", " a ,bb\ncccc,d\n", "file:///t.csv");
    let shrink = command_edits(&d, "csv.shrink");
    assert_eq!(shrink[0].new_text, "a,bb\ncccc,d\n");
    let align = command_edits(&d, "csv.align");
    assert_eq!(align[0].new_text, "a   ,bb\ncccc,d\n");
    let other = command_edits(&d, "anything");
    assert_eq!(other[0].new_text, "a   ,bb\ncccc,d\n");
}

#[test]
fn inlay_hints_follow_pads() {
    let d = doc("Rainbow CSV (,)", "a,bb\ncccc,d\n", "file:///t.csv");
    let hints = inlay_hints(&d, 0, u32::MAX);
    assert_eq!(hints.len(), 1);
    assert_eq!(hints[0].position, Position { line: 0, character: 1 });
    assert_eq!(hints[0].label, "   ");
    assert!(inlay_hints(&d, 1, 1).is_empty());
}

#[test]
fn inlay_hints_are_capped() {
    let mut text = String::from("wide,x\n");
    for _ in 0..MAX_HINTS + 10 {
        text.push_str("a,b\n");
    }
    let d = doc("Rainbow CSV (,)", &text, "file:///t.csv");
    assert_eq!(inlay_hints(&d, 0, u32::MAX).len(), MAX_HINTS);
}

#[test]
fn requests_and_notifications_are_classified() {
    assert_eq!(classify_request("textDocument/formatting"), RequestKind::Formatting);
    assert_eq!(classify_request("textDocument/rangeFormatting"), RequestKind::RangeFormatting);
    assert_eq!(classify_request("textDocument/inlayHint"), RequestKind::InlayHint);
    assert_eq!(classify_request("textDocument/codeAction"), RequestKind::CodeAction);
    assert_eq!(classify_request("workspace/executeCommand"), RequestKind::ExecuteCommand);
    assert_eq!(classify_request("textDocument/hover"), RequestKind::Unknown);
    assert_eq!(classify_notification("textDocument/didOpen"), NotificationKind::DidOpen);
    assert_eq!(classify_notification("textDocument/didChange"), NotificationKind::DidChange);
    assert_eq!(classify_notification("textDocument/didClose"), NotificationKind::DidClose);
    assert_eq!(classify_notification("initialized"), NotificationKind::Unknown);
}

#[test]
fn unknown_documents_get_empty_answers() {
    assert!(matches!(answer(None, Query::Format), Reply::Edits(e) if e.is_empty()));
    assert!(matches!(answer(None, Query::Hints { start: 0, end: 9 }), Reply::Hints(h) if h.is_empty()));
    assert!(matches!(answer(None, Query::Actions), Reply::Actions(a) if a.is_empty()));
    assert!(matches!(
        answer(None, Query::Command { command: String::from("csv.align") }),
        Reply::Null
    ));
}

#[test]
fn known_documents_get_answers() {
    let d = doc("Rainbow CSV (,)", "a,bb\ncccc,d\n", "file:///t.csv");
    match answer(Some(&d), Query::Format) {
        Reply::Edits(e) => assert_eq!(e[0].new_text, "a   ,bb\ncccc,d\n"),
        _ => panic!("formatting answers with edits"),
    }
    match answer(Some(&d), Query::Command { command: String::from("csv.shrink") }) {
        Reply::WorkspaceEdit(e) => assert_eq!(e[0].new_text, "a,bb\ncccc,d\n"),
        _ => panic!("commands answer with a workspace edit"),
    }
}

#[test]
fn changed_documents_keep_their_language() {
    let d = doc("Rainbow CSV (;)", "a;b\n", "file:///t.txt");
    let next = DocState::changed(Some(&d), String::from("x;yy\n"), "/t.txt");
    assert_eq!(next.language_id, "Rainbow CSV (;)");
    assert_eq!(next.dialect, Dialect::Ssv);
    assert_eq!(next.widths, vec![1, 2]);
    let fresh = DocState::changed(None, String::from("x\ty\n"), "/t.tsv");
    assert_eq!(fresh.language_id, "csv");
    assert_eq!(fresh.dialect, Dialect::Tsv);
}

#[test]
fn cli_refuses_unbalanced_quotes() {
    assert_eq!(parse_mode("align"), Some(CliMode::Align));
    assert_eq!(parse_mode("shrink"), Some(CliMode::Shrink));
    assert_eq!(parse_mode("sort"), None);
    assert_eq!(cli_output(CliMode::Align, "a,bb\nccc,d\n", Dialect::Csv), Ok(String::from("a  ,bb\nccc,d\n")));
    assert_eq!(cli_output(CliMode::Shrink, " a , bb\n", Dialect::Csv), Ok(String::from("a,bb\n")));
    assert_eq!(cli_output(CliMode::Align, "a,\"b\n", Dialect::Csv), Err(CliError::UnbalancedQuotes));
}
