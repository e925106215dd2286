//! Decisions of the language server and of the command-line fallback: which
//! dialect a document has, the edits that align or shrink it, the code
//! actions offered, the virtual-align hints served, and the answer to each
//! request.
use vstd::prelude::*;
use crate::text::{chars_of, string_of, str_eq, spaces, push_spaces};
use crate::csv_core::dialect::{Dialect, name_dialect, extension_dialect};
use crate::csv_core::document::{
    align_document, shrink_document, has_warnings, parse_trimmed_records, column_widths,
    pads_for_range, aligned_text, shrunk_text, shrink_changes, doc_has_warnings, doc_records,
    record_widths, records_fit, range_pads, lemma_record_fits, prefix_len, VirtualPad,
};

verus! {

broadcast use vstd::seq::group_seq_axioms;

// ---------------------------------------------------------------------------
// Positions and edits
// ---------------------------------------------------------------------------

/// A position in a document: zero-based line and character.
#[derive(Debug, Clone, Copy, PartialEq, Eq, Structural)]
pub struct Position {
    pub line: u32,
    pub character: u32,
}

/// A range between two positions.
#[derive(Debug, Clone, Copy, PartialEq, Eq, Structural)]
pub struct Range {
    pub start: Position,
    pub end: Position,
}

/// Replace the text of `range` with `new_text`.
#[derive(Debug, Clone, PartialEq, Eq)]
pub struct TextEdit {
    pub range: Range,
    pub new_text: String,
}

/// Line and character just after the last character of `s`: every `'\n'`
/// starts a new line, and `'\r'` takes no column.
pub open spec fn end_position(s: Seq<char>) -> (int, int)
    decreases s.len(),
{
    if s.len() == 0 {
        (0, 0)
    } else {
        let p = end_position(s.drop_last());
        if s.last() == '\n' {
            (p.0 + 1, 0)
        } else if s.last() == '\r' {
            p
        } else {
            (p.0, p.1 + 1)
        }
    }
}

pub proof fn lemma_end_position_bound(s: Seq<char>)
    ensures
        0 <= end_position(s).0 <= s.len(),
        0 <= end_position(s).1 <= s.len(),
    decreases s.len(),
{
    if s.len() > 0 {
        lemma_end_position_bound(s.drop_last());
    }
}

/// The range from the start of `text` to its very end, trailing line feeds
/// included.
pub fn full_range(text: &str) -> (r: Range)
    requires
        text@.len() <= u32::MAX,
    ensures
        r.start == (Position { line: 0, character: 0 }),
        r.end.line == end_position(text@).0,
        r.end.character == end_position(text@).1,
{
    let cs = chars_of(text);
    let mut line: u32 = 0;
    let mut character: u32 = 0;
    let mut i: usize = 0;
    while i < cs.len()
        invariant
            i <= cs@.len() == text@.len() <= u32::MAX,
            cs@ == text@,
            line == end_position(cs@.take(i as int)).0,
            character == end_position(cs@.take(i as int)).1,
        decreases cs@.len() - i,
    {
        proof {
            lemma_end_position_bound(cs@.take(i + 1));
            assert(cs@.take(i + 1).drop_last() =~= cs@.take(i as int));
        }
        let ch = cs[i];
        if ch == '\n' {
            line += 1;
            character = 0;
        } else if ch != '\r' {
            character += 1;
        }
        i += 1;
    }
    assert(cs@.take(i as int) =~= text@);
    Range { start: Position { line: 0, character: 0 }, end: Position { line, character } }
}

// ---------------------------------------------------------------------------
// Dialects
// ---------------------------------------------------------------------------

/// The text after the last `c` in `s` (all of `s` when `c` does not occur).
pub open spec fn after_last(s: Seq<char>, c: char) -> Seq<char>
    decreases s.len(),
{
    if s.len() == 0 {
        s
    } else if s.last() == c {
        Seq::empty()
    } else {
        after_last(s.drop_last(), c).push(s.last())
    }
}

/// The text after the last `c` in `s`.
fn text_after_last(s: &str, c: char) -> (r: String)
    ensures
        r@ == after_last(s@, c),
{
    let cs = chars_of(s);
    let n = cs.len();
    let mut i = n;
    assert(cs@.take(n as int) =~= cs@);
    while i > 0 && cs[i - 1] != c
        invariant
            i <= n == cs@.len(),
            cs@ == s@,
            after_last(s@, c) == after_last(cs@.take(i as int), c) + cs@.subrange(i as int, n as int),
        decreases i,
    {
        assert(cs@.take(i as int).drop_last() =~= cs@.take(i - 1));
        assert(after_last(cs@.take(i - 1), c) + cs@.subrange(i - 1, n as int) =~= after_last(
            cs@.take(i as int),
            c,
        ) + cs@.subrange(i as int, n as int));
        i -= 1;
    }
    string_of(cs.as_slice(), i, n)
}

/// The dialect of a document: its language name decides, then the extension
/// of its path (the text after the last `.`), and comma-separated otherwise.
pub open spec fn document_dialect(language_id: Seq<char>, path: Seq<char>) -> Dialect {
    match name_dialect(language_id) {
        Some(d) => d,
        None => match extension_dialect(after_last(path, '.')) {
            Some(d) => d,
            None => Dialect::Csv,
        },
    }
}

/// Dialect of a document from its language id and the path of its URI.
pub fn dialect_for(language_id: &str, path: &str) -> (d: Dialect)
    ensures
        d == document_dialect(language_id@, path@),
{
    if let Some(d) = Dialect::from_language_name(language_id) {
        return d;
    }
    let ext = text_after_last(path, '.');
    if let Some(d) = Dialect::from_extension(ext.as_str()) {
        return d;
    }
    Dialect::Csv
}

/// Dialect for a file extension (none counts as empty), comma-separated when
/// the extension names no dialect.
pub fn dialect_for_extension(ext: Option<&str>) -> (d: Dialect)
    ensures
        d == (match ext {
            Some(e) => match extension_dialect(e@) {
                Some(x) => x,
                None => Dialect::Csv,
            },
            None => Dialect::Csv,
        }),
{
    match ext {
        Some(e) => match Dialect::from_extension(e) {
            Some(d) => d,
            None => Dialect::Csv,
        },
        None => {
            let d = Dialect::from_extension("");
            proof {
                reveal_strlit("");
                reveal_strlit("csv");
                reveal_strlit("tsv");
                reveal_strlit("tab");
                assert(crate::text::ascii_lowercase(""@) =~= Seq::<char>::empty());
            }
            match d {
                Some(x) => x,
                None => Dialect::Csv,
            }
        },
    }
}

/// The extension of a file path that has the same meaning on every platform:
/// `file` is `stem.e` where `e` (the text after the last `.`) is non-empty
/// and holds no `/`, `\\` or `:`, and `stem` is non-empty, holds no `\\` or
/// `:`, does not start with `//` and does not end with `/`. Such a path has
/// no platform prefix, and its final component is the non-empty end of
/// `stem` followed by `.e`.
pub open spec fn plain_extension(file: Seq<char>) -> Option<Seq<char>> {
    let e = after_last(file, '.');
    if e.len() < file.len() {
        let stem = file.subrange(0, file.len() - e.len() - 1);
        if e.len() > 0 && !e.contains('/') && !e.contains('\\') && !e.contains(':') && stem.len()
            > 0 && !stem.contains('\\') && !stem.contains(':') && stem.last() != '/' && !(
        stem.len() >= 2 && stem[0] == '/' && stem[1] == '/') {
            Some(e)
        } else {
            None
        }
    } else {
        None
    }
}

/// Calls `std::path::Path::extension` on `file` and keeps the extension when
/// it is valid UTF-8 (it always is, `file` being a `str`).
///
/// The contract claims what the documentation of `Path::extension` gives on
/// every platform: for a path of the shape [`plain_extension`] describes,
/// the extension is the text after the last `.`. Other paths depend on the
/// platform's path syntax and get no claim.
#[verifier::external_body]
fn file_extension(file: &str) -> (ext: Option<String>)
    ensures
        match ext {
            Some(x) => (plain_extension(file@) matches Some(e) ==> x@ == e),
            None => plain_extension(file@) is None,
        },
{
    std::path::Path::new(file).extension().and_then(|s| s.to_str()).map(|s| s.to_string())
}

/// Dialect of a file from its extension, comma-separated by default.
pub fn dialect_for_file(file: &str) -> (d: Dialect)
    ensures
        d == Dialect::Csv || d == Dialect::Tsv,
        plain_extension(file@) matches Some(e) ==> d == (match extension_dialect(e) {
            Some(x) => x,
            None => Dialect::Csv,
        }),
{
    let ext = file_extension(file);
    match &ext {
        Some(e) => dialect_for_extension(Some(e.as_str())),
        None => dialect_for_extension(None),
    }
}

// ---------------------------------------------------------------------------
// Edits
// ---------------------------------------------------------------------------

/// A document the server may rewrite: no line has unbalanced quotes.
pub open spec fn rewritable(text: Seq<char>, dialect: Dialect) -> bool {
    !doc_has_warnings(text, dialect)
}

/// The whole-document edit replacing `text` with `new_text`.
pub open spec fn whole_edit(text: Seq<char>, new_text: Seq<char>, e: TextEdit) -> bool {
    &&& e.range.start == (Position { line: 0, character: 0 })
    &&& e.range.end.line == end_position(text).0
    &&& e.range.end.character == end_position(text).1
    &&& e.new_text@ == new_text
}

/// The single edit that whitespace-aligns the document, or none when the
/// document has unbalanced quotes or is aligned already.
pub fn align_edits(text: &str, dialect: Dialect) -> (edits: Vec<TextEdit>)
    requires
        text@.len() <= u32::MAX,
    ensures
        edits@.len() == (if rewritable(text@, dialect) && aligned_text(text@, dialect) != text@ {
            1int
        } else {
            0int
        }),
        edits@.len() == 1 ==> whole_edit(text@, aligned_text(text@, dialect), edits@[0]),
{
    if has_warnings(text, dialect) {
        return Vec::new();
    }
    let aligned = align_document(text, dialect);
    if str_eq(aligned.as_str(), text) {
        return Vec::new();
    }
    let mut edits = Vec::new();
    edits.push(TextEdit { range: full_range(text), new_text: aligned });
    edits
}

/// The edit that shrinks the document, or none when it has unbalanced quotes
/// or no field has surrounding whitespace.
pub fn shrink_edits(text: &str, dialect: Dialect) -> (edits: Vec<TextEdit>)
    requires
        text@.len() <= u32::MAX,
    ensures
        edits@.len() == (if rewritable(text@, dialect) && shrink_changes(text@, dialect) {
            1int
        } else {
            0int
        }),
        edits@.len() == 1 ==> whole_edit(text@, shrunk_text(text@, dialect), edits@[0]),
{
    if has_warnings(text, dialect) {
        return Vec::new();
    }
    let (shrunk, changed) = shrink_document(text, dialect);
    if !changed {
        return Vec::new();
    }
    let mut edits = Vec::new();
    edits.push(TextEdit { range: full_range(text), new_text: shrunk });
    edits
}

// ---------------------------------------------------------------------------
// Document state
// ---------------------------------------------------------------------------

/// An open document with its records and column widths parsed once per
/// version.
pub struct DocState {
    pub language_id: String,
    pub text: String,
    pub dialect: Dialect,
    pub records: Vec<Vec<String>>,
    pub widths: Vec<usize>,
}

impl DocState {
    /// The cached records and widths belong to the text, which fits the
    /// protocol's `u32` positions.
    pub open spec fn wf(&self) -> bool {
        &&& self.text@.len() <= u32::MAX
        &&& self.text@.len() < usize::MAX
        &&& self.records.deep_view() == doc_records(self.text@, self.dialect)
        &&& self.widths@ == record_widths(self.records.deep_view())
    }

    /// Parses `text` under the dialect its language id and path give.
    pub fn new(language_id: String, text: String, path: &str) -> (doc: DocState)
        requires
            text@.len() <= u32::MAX,
            text@.len() < usize::MAX,
        ensures
            doc.wf(),
            doc.language_id@ == language_id@,
            doc.text@ == text@,
            doc.dialect == document_dialect(language_id@, path@),
    {
        let dialect = dialect_for(language_id.as_str(), path);
        let records = parse_trimmed_records(text.as_str(), dialect);
        let widths = column_widths(records.as_slice());
        DocState { language_id, text, dialect, records, widths }
    }

    /// The state after a full-text change: the document keeps its language
    /// id, which is `"csv"` for a document never opened.
    pub fn changed(previous: Option<&DocState>, text: String, path: &str) -> (doc: DocState)
        requires
            text@.len() <= u32::MAX,
            text@.len() < usize::MAX,
        ensures
            doc.wf(),
            doc.text@ == text@,
            doc.language_id@ == (match previous {
                Some(p) => p.language_id@,
                None => "csv"@,
            }),
            doc.dialect == document_dialect(doc.language_id@, path@),
    {
        let language_id = match previous {
            Some(p) => p.language_id.clone(),
            None => String::from_str("csv"),
        };
        DocState::new(language_id, text, path)
    }
}

/// The records of a well-formed state fit the pad computation.
proof fn lemma_doc_records_fit(doc: &DocState)
    requires
        doc.wf(),
    ensures
        records_fit(doc.records.deep_view()),
{
    assert forall|l: int| 0 <= l < doc.records.deep_view().len() implies prefix_len(
        #[trigger] doc.records.deep_view()[l],
        doc.records.deep_view()[l].len() as int,
    ) <= usize::MAX by {
        lemma_record_fits(doc.text@, doc.dialect, l);
    }
}

// ---------------------------------------------------------------------------
// Answers
// ---------------------------------------------------------------------------

/// At most this many inlay hints are sent per request.
pub const MAX_HINTS: usize = 1500;

/// An inlay hint: `label` (spaces) shown at `position`.
#[derive(Debug, Clone, PartialEq, Eq)]
pub struct HintPlan {
    pub position: Position,
    pub label: String,
}

/// The hint shown for a pad.
pub open spec fn pad_hint(p: VirtualPad, h: HintPlan) -> bool {
    &&& h.position == (Position { line: p.line, character: p.col })
    &&& h.label@ == spaces(p.spaces as nat)
}

/// `hints` show the virtual-align pads of lines `start..=end` of `doc`, the
/// first [`MAX_HINTS`] of them.
pub open spec fn served_hints(doc: &DocState, start: u32, end: u32, hints: Seq<HintPlan>) -> bool {
    let pads = range_pads(doc.records.deep_view(), doc.widths@, start, end);
    &&& hints.len() == (if pads.len() > MAX_HINTS {
        MAX_HINTS as int
    } else {
        pads.len() as int
    })
    &&& forall|i: int| 0 <= i < hints.len() ==> pad_hint(pads[i], #[trigger] hints[i])
}

/// Inlay hints for lines `start..=end` of a document.
pub fn inlay_hints(doc: &DocState, start: u32, end: u32) -> (hints: Vec<HintPlan>)
    requires
        doc.wf(),
    ensures
        served_hints(doc, start, end, hints@),
{
    proof {
        lemma_doc_records_fit(doc);
    }
    let pads = pads_for_range(doc.records.as_slice(), doc.widths.as_slice(), start, end);
    let mut hints: Vec<HintPlan> = Vec::new();
    let mut i: usize = 0;
    while i < pads.len() && i < MAX_HINTS
        invariant
            i <= pads@.len(),
            i <= MAX_HINTS,
            hints@.len() == i,
            forall|j: int| 0 <= j < i ==> pad_hint(pads@[j], #[trigger] hints@[j]),
        decreases pads@.len() - i,
    {
        let p = &pads[i];
        let mut label = String::new();
        push_spaces(&mut label, p.spaces);
        assert(label@ =~= spaces(p.spaces as nat));
        hints.push(HintPlan { position: Position { line: p.line, character: p.col }, label });
        i += 1;
    }
    hints
}

/// A quick-fix code action: its title and the edit it applies.
#[derive(Debug, Clone, PartialEq, Eq)]
pub struct PlannedAction {
    pub title: String,
    pub edit: TextEdit,
}

/// `actions` are the code actions offered for `t`: Align when aligning
/// changes it, then Shrink when some field has surrounding whitespace; none
/// for a document with unbalanced quotes.
pub open spec fn offered_actions(t: Seq<char>, d: Dialect, actions: Seq<PlannedAction>) -> bool {
    let align = rewritable(t, d) && aligned_text(t, d) != t;
    let shrink = rewritable(t, d) && shrink_changes(t, d);
    &&& actions.len() == (if align {
        1int
    } else {
        0int
    }) + (if shrink {
        1int
    } else {
        0int
    })
    &&& align ==> actions[0].title@ == "Align CSV columns (spaces)"@ && whole_edit(
        t,
        aligned_text(t, d),
        actions[0].edit,
    )
    &&& shrink ==> actions[actions.len() - 1].title@ == "Shrink CSV columns (trim spaces)"@
        && whole_edit(t, shrunk_text(t, d), actions[actions.len() - 1].edit)
}

/// The code actions offered for a document.
pub fn code_actions(doc: &DocState) -> (actions: Vec<PlannedAction>)
    requires
        doc.wf(),
    ensures
        offered_actions(doc.text@, doc.dialect, actions@),
{
    let text = doc.text.as_str();
    let mut actions: Vec<PlannedAction> = Vec::new();
    let mut aligned = align_edits(text, doc.dialect);
    if aligned.len() == 1 {
        let edit = aligned.pop().unwrap();
        actions.push(PlannedAction { title: String::from_str("Align CSV columns (spaces)"), edit });
    }
    let mut shrunk = shrink_edits(text, doc.dialect);
    if shrunk.len() == 1 {
        let edit = shrunk.pop().unwrap();
        actions.push(
            PlannedAction { title: String::from_str("Shrink CSV columns (trim spaces)"), edit },
        );
    }
    actions
}

/// The edit `workspace/executeCommand` answers with: `csv.shrink` shrinks,
/// every other command aligns; a document with unbalanced quotes gets none.
pub fn command_edits(doc: &DocState, command: &str) -> (edits: Vec<TextEdit>)
    requires
        doc.wf(),
    ensures
        ({
            let t = doc.text@;
            let d = doc.dialect;
            let new_text = if command@ == "csv.shrink"@ { shrunk_text(t, d) } else { aligned_text(t, d) };
            &&& edits@.len() == (if rewritable(t, d) { 1int } else { 0int })
            &&& edits@.len() == 1 ==> whole_edit(t, new_text, edits@[0])
        }),
{
    let text = doc.text.as_str();
    if has_warnings(text, doc.dialect) {
        return Vec::new();
    }
    let new_text = if str_eq(command, "csv.shrink") {
        shrink_document(text, doc.dialect).0
    } else {
        align_document(text, doc.dialect)
    };
    let mut edits = Vec::new();
    edits.push(TextEdit { range: full_range(text), new_text });
    edits
}

// ---------------------------------------------------------------------------
// Dispatch
// ---------------------------------------------------------------------------

/// The requests the server knows.
#[derive(Debug, Clone, Copy, PartialEq, Eq, Structural)]
pub enum RequestKind {
    Formatting,
    RangeFormatting,
    InlayHint,
    CodeAction,
    ExecuteCommand,
    Unknown,
}

/// The kind of a request method.
pub open spec fn request_kind(method: Seq<char>) -> RequestKind {
    if method == "textDocument/formatting"@ {
        RequestKind::Formatting
    } else if method == "textDocument/rangeFormatting"@ {
        RequestKind::RangeFormatting
    } else if method == "textDocument/inlayHint"@ {
        RequestKind::InlayHint
    } else if method == "textDocument/codeAction"@ {
        RequestKind::CodeAction
    } else if method == "workspace/executeCommand"@ {
        RequestKind::ExecuteCommand
    } else {
        RequestKind::Unknown
    }
}

/// Classifies a request method.
pub fn classify_request(method: &str) -> (k: RequestKind)
    ensures
        k == request_kind(method@),
{
    if str_eq(method, "textDocument/formatting") {
        RequestKind::Formatting
    } else if str_eq(method, "textDocument/rangeFormatting") {
        RequestKind::RangeFormatting
    } else if str_eq(method, "textDocument/inlayHint") {
        RequestKind::InlayHint
    } else if str_eq(method, "textDocument/codeAction") {
        RequestKind::CodeAction
    } else if str_eq(method, "workspace/executeCommand") {
        RequestKind::ExecuteCommand
    } else {
        RequestKind::Unknown
    }
}

/// The notifications the server follows.
#[derive(Debug, Clone, Copy, PartialEq, Eq, Structural)]
pub enum NotificationKind {
    DidOpen,
    DidChange,
    DidClose,
    Unknown,
}

/// The kind of a notification method.
pub open spec fn notification_kind(method: Seq<char>) -> NotificationKind {
    if method == "textDocument/didOpen"@ {
        NotificationKind::DidOpen
    } else if method == "textDocument/didChange"@ {
        NotificationKind::DidChange
    } else if method == "textDocument/didClose"@ {
        NotificationKind::DidClose
    } else {
        NotificationKind::Unknown
    }
}

/// Classifies a notification method.
pub fn classify_notification(method: &str) -> (k: NotificationKind)
    ensures
        k == notification_kind(method@),
{
    if str_eq(method, "textDocument/didOpen") {
        NotificationKind::DidOpen
    } else if str_eq(method, "textDocument/didChange") {
        NotificationKind::DidChange
    } else if str_eq(method, "textDocument/didClose") {
        NotificationKind::DidClose
    } else {
        NotificationKind::Unknown
    }
}

/// A request, with what the server needs of its parameters.
pub enum Query {
    /// Whole-document or range formatting (both align the whole document).
    Format,
    /// Inlay hints for lines `start..=end`.
    Hints { start: u32, end: u32 },
    /// Code actions.
    Actions,
    /// `workspace/executeCommand` naming a known document.
    Command { command: String },
}

/// The answer to a request.
pub enum Reply {
    Edits(Vec<TextEdit>),
    Hints(Vec<HintPlan>),
    Actions(Vec<PlannedAction>),
    /// A workspace edit with these edits for the document.
    WorkspaceEdit(Vec<TextEdit>),
    /// The JSON `null` result.
    Null,
}

/// Answers a request about a document (`None`: a document the server never
/// saw, which counts as empty and gets no edits, hints or actions).
pub fn answer(doc: Option<&DocState>, query: Query) -> (r: Reply)
    requires
        doc matches Some(d) ==> d.wf(),
    ensures
        match (doc, query) {
            (None, Query::Command { .. }) => r is Null,
            (None, Query::Format) => r matches Reply::Edits(e) && e@.len() == 0,
            (None, Query::Hints { .. }) => r matches Reply::Hints(h) && h@.len() == 0,
            (None, Query::Actions) => r matches Reply::Actions(a) && a@.len() == 0,
            (Some(d), Query::Format) => r matches Reply::Edits(e) && e@.len() == (if rewritable(
                d.text@,
                d.dialect,
            ) && aligned_text(d.text@, d.dialect) != d.text@ {
                1int
            } else {
                0int
            }) && (e@.len() == 1 ==> whole_edit(d.text@, aligned_text(d.text@, d.dialect), e@[0])),
            (Some(d), Query::Hints { start, end }) => r matches Reply::Hints(h) && served_hints(
                d,
                start,
                end,
                h@,
            ),
            (Some(d), Query::Actions) => r matches Reply::Actions(a) && offered_actions(
                d.text@,
                d.dialect,
                a@,
            ),
            (Some(d), Query::Command { command }) => r matches Reply::WorkspaceEdit(e) && e@.len()
                == (if rewritable(d.text@, d.dialect) {
                1int
            } else {
                0int
            }) && (e@.len() == 1 ==> whole_edit(
                d.text@,
                if command@ == "csv.shrink"@ {
                    shrunk_text(d.text@, d.dialect)
                } else {
                    aligned_text(d.text@, d.dialect)
                },
                e@[0],
            )),
        },
{
    match doc {
        None => match query {
            Query::Format => Reply::Edits(Vec::new()),
            Query::Hints { .. } => Reply::Hints(Vec::new()),
            Query::Actions => Reply::Actions(Vec::new()),
            Query::Command { .. } => Reply::Null,
        },
        Some(d) => match query {
            Query::Format => Reply::Edits(align_edits(d.text.as_str(), d.dialect)),
            Query::Hints { start, end } => Reply::Hints(inlay_hints(d, start, end)),
            Query::Actions => Reply::Actions(code_actions(d)),
            Query::Command { command } => Reply::WorkspaceEdit(command_edits(d, command.as_str())),
        },
    }
}

// ---------------------------------------------------------------------------
// Command-line fallback
// ---------------------------------------------------------------------------

/// What the command-line tool does to a file.
#[derive(Debug, Clone, Copy, PartialEq, Eq, Structural)]
pub enum CliMode {
    Align,
    Shrink,
}

/// The mode a command-line word names, if any.
pub fn parse_mode(word: &str) -> (m: Option<CliMode>)
    ensures
        m == (if word@ == "align"@ {
            Some(CliMode::Align)
        } else if word@ == "shrink"@ {
            Some(CliMode::Shrink)
        } else {
            None
        }),
{
    if str_eq(word, "align") {
        Some(CliMode::Align)
    } else if str_eq(word, "shrink") {
        Some(CliMode::Shrink)
    } else {
        None
    }
}

/// Why the command-line tool refuses a file.
#[derive(Debug, Clone, Copy, PartialEq, Eq, Structural)]
pub enum CliError {
    /// Some line has unbalanced quotes; rewriting could corrupt it.
    UnbalancedQuotes,
}

/// The new content of a file: refused when some line has unbalanced quotes,
/// otherwise the aligned or shrunk text.
pub fn cli_output(mode: CliMode, text: &str, dialect: Dialect) -> (r: Result<String, CliError>)
    ensures
        r is Err <==> doc_has_warnings(text@, dialect),
        r matches Err(e) ==> e == CliError::UnbalancedQuotes,
        r matches Ok(out) ==> out@ == (match mode {
            CliMode::Align => aligned_text(text@, dialect),
            CliMode::Shrink => shrunk_text(text@, dialect),
        }),
{
    if has_warnings(text, dialect) {
        return Err(CliError::UnbalancedQuotes);
    }
    match mode {
        CliMode::Align => Ok(align_document(text, dialect)),
        CliMode::Shrink => Ok(shrink_document(text, dialect).0),
    }
}

} // verus!
