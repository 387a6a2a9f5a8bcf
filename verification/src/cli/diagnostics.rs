//! What the tool says about its input.
use vstd::prelude::*;
use crate::cli::bytes::{
    byte_offset_to_line, bytes_of, end_after, find_end, find_from, find_nth_pattern, first_from,
    line_at, nth_pattern, Span,
};
use crate::concat::{lemma_occurs_in_sum, lemma_occurs_whole, occurs, views, Path, Text};
use crate::numerals::{decimal, decimal_text, hex_pattern, hex_pattern_text};
use crate::text::{join, joined, owned};

verus! {

broadcast use {crate::concat::group_append, crate::concat::group_views};

/// How diagnostics are written.
#[derive(Debug, Clone, Copy, PartialEq, Eq, Structural)]
pub enum OutputFormat {
    /// For a reader, with the source.
    Human,
    /// As workflow commands, one line each.
    Github,
}

/// How bad something is.
#[derive(Debug, Clone, Copy, PartialEq, Eq, Structural)]
pub enum Severity {
    Error,
    Warning,
}

/// The color of a label.
#[derive(Debug, Clone, Copy, PartialEq, Eq, Structural)]
pub enum LabelColor {
    Red,
    Yellow,
}

/// A remark on a range of bytes of a file.
#[derive(Debug)]
pub struct Label {
    pub file: String,
    pub start: usize,
    pub end: usize,
    pub message: String,
    pub color: LabelColor,
}

/// What contracts see of a [`Label`].
pub struct LabelView {
    pub file: Text,
    pub start: nat,
    pub end: nat,
    pub message: Text,
    pub color: LabelColor,
}

impl View for Label {
    type V = LabelView;

    open spec fn view(&self) -> LabelView {
        LabelView {
            file: self.file@,
            start: self.start as nat,
            end: self.end as nat,
            message: self.message@,
            color: self.color,
        }
    }
}

/// A message on a place in a file, with remarks.
#[derive(Debug)]
pub struct Report {
    pub severity: Severity,
    pub file: String,
    pub offset: usize,
    pub message: String,
    pub labels: Vec<Label>,
    pub note: Option<String>,
    pub help: Option<String>,
}

/// What contracts see of a [`Report`].
pub struct ReportView {
    pub severity: Severity,
    pub file: Text,
    pub offset: nat,
    pub message: Text,
    pub labels: Seq<LabelView>,
    pub note: Option<Text>,
    pub help: Option<Text>,
}

/// The text in a string that may be there.
pub open spec fn optional_text(s: Option<String>) -> Option<Text> {
    match s {
        Some(t) => Some(t@),
        None => None,
    }
}

impl View for Report {
    type V = ReportView;

    open spec fn view(&self) -> ReportView {
        ReportView {
            severity: self.severity,
            file: self.file@,
            offset: self.offset as nat,
            message: self.message@,
            labels: views(self.labels@),
            note: optional_text(self.note),
            help: optional_text(self.help),
        }
    }
}

/// Something that the tool says.
#[derive(Debug)]
pub enum Diagnostic {
    /// One line as it is written.
    Line(String),
    /// A report to be drawn with its source.
    Report(Report),
}

/// What contracts see of a [`Diagnostic`].
pub enum DiagnosticView {
    Line(Text),
    Report(ReportView),
}

impl View for Diagnostic {
    type V = DiagnosticView;

    open spec fn view(&self) -> DiagnosticView {
        match self {
            Diagnostic::Line(line) => DiagnosticView::Line(line@),
            Diagnostic::Report(report) => DiagnosticView::Report(report@),
        }
    }
}

/// A workflow command: level, file, line and message.
pub open spec fn command_line(
    level: Text,
    file: Text,
    source: Text,
    offset: nat,
    message: Text,
) -> DiagnosticView {
    DiagnosticView::Line(
        "::"@ + level + " file="@ + file + ",line="@ + decimal(line_at(bytes_of(source), offset))
            + "::"@ + message,
    )
}

/// A workflow command: level, file, line and message.
pub fn github_diagnostic(
    level: &str,
    file: &str,
    source: &str,
    offset: usize,
    message: &str,
) -> (r: Diagnostic)
    ensures
        r@ == command_line(level@, file@, source@, offset as nat, message@),
{
    let mut line = owned("::");
    line.push_str(level);
    line.push_str(" file=");
    line.push_str(file);
    line.push_str(",line=");
    line.push_str(decimal_text(byte_offset_to_line(source, offset)).as_str());
    line.push_str("::");
    line.push_str(message);
    Diagnostic::Line(line)
}

/// Why a source could not be parsed, with the positions in it.
#[derive(Debug)]
pub enum ParseError {
    UnrecognizedToken { start: usize, end: usize, token: String, expected: Option<String> },
    UnrecognizedEof { location: usize, expected: Option<String> },
    InvalidToken { location: usize },
    ExtraToken { start: usize, end: usize, token: String },
    Validation { message: String },
}

/// What contracts see of a [`ParseError`].
pub enum ParseErrorView {
    UnrecognizedToken { start: nat, end: nat, token: Text, expected: Option<Text> },
    UnrecognizedEof { location: nat, expected: Option<Text> },
    InvalidToken { location: nat },
    ExtraToken { start: nat, end: nat, token: Text },
    Validation { message: Text },
}

impl View for ParseError {
    type V = ParseErrorView;

    open spec fn view(&self) -> ParseErrorView {
        match self {
            ParseError::UnrecognizedToken {
                start,
                end,
                token,
                expected,
            } => ParseErrorView::UnrecognizedToken {
                start: *start as nat,
                end: *end as nat,
                token: token@,
                expected: optional_text(*expected),
            },
            ParseError::UnrecognizedEof { location, expected } => ParseErrorView::UnrecognizedEof {
                location: *location as nat,
                expected: optional_text(*expected),
            },
            ParseError::InvalidToken { location } => ParseErrorView::InvalidToken {
                location: *location as nat,
            },
            ParseError::ExtraToken { start, end, token } => ParseErrorView::ExtraToken {
                start: *start as nat,
                end: *end as nat,
                token: token@,
            },
            ParseError::Validation { message } => ParseErrorView::Validation { message: message@ },
        }
    }
}

/// The smaller of two numbers.
pub open spec fn smaller(a: nat, b: nat) -> nat {
    if a < b {
        a
    } else {
        b
    }
}

/// What was expected, or `otherwise` where that is not known.
pub open spec fn expectation(expected: Option<Text>, otherwise: Text) -> Text {
    match expected {
        Some(text) => text,
        None => otherwise,
    }
}

fn expectation_of(expected: &Option<String>, otherwise: &str) -> (r: String)
    ensures
        r@ == expectation(optional_text(*expected), otherwise@),
{
    match expected {
        Some(text) => text.clone(),
        None => owned(otherwise),
    }
}

/// An error with one red label, or none.
pub open spec fn error_report(
    file: Text,
    offset: nat,
    message: Text,
    labels: Seq<LabelView>,
) -> DiagnosticView {
    DiagnosticView::Report(
        ReportView {
            severity: Severity::Error,
            file,
            offset,
            message,
            labels,
            note: None,
            help: None,
        },
    )
}

/// A red label.
pub open spec fn red_label(file: Text, start: nat, end: nat, message: Text) -> LabelView {
    LabelView { file, start, end, message, color: LabelColor::Red }
}

fn error_with_label(
    file: &str,
    offset: usize,
    message: String,
    start: usize,
    end: usize,
    label: String,
) -> (r: Diagnostic)
    ensures
        r@ == error_report(
            file@,
            offset as nat,
            message@,
            seq![red_label(file@, start as nat, end as nat, label@)],
        ),
{
    let mut labels: Vec<Label> = Vec::new();
    labels.push(Label { file: owned(file), start, end, message: label, color: LabelColor::Red });
    Diagnostic::Report(
        Report {
            severity: Severity::Error,
            file: owned(file),
            offset,
            message,
            labels,
            note: None,
            help: None,
        },
    )
}

/// What is said of a source that could not be parsed.
pub open spec fn parse_diagnostic(
    format: OutputFormat,
    file: Text,
    source: Text,
    error: ParseErrorView,
) -> DiagnosticView {
    let size = bytes_of(source).len();
    match format {
        OutputFormat::Github => match error {
            ParseErrorView::UnrecognizedToken { start, end, token, expected } => command_line(
                "error"@,
                file,
                source,
                start,
                "unexpected token `"@ + token + "`: "@ + expectation(
                    expected,
                    "unexpected token"@,
                ),
            ),
            ParseErrorView::UnrecognizedEof { location, expected } => command_line(
                "error"@,
                file,
                source,
                smaller(location, size),
                "unexpected end of input: "@ + expectation(expected, "unexpected end of input"@),
            ),
            ParseErrorView::InvalidToken { location } => command_line(
                "error"@,
                file,
                source,
                location,
                "invalid token"@,
            ),
            ParseErrorView::ExtraToken { start, end, token } => command_line(
                "error"@,
                file,
                source,
                start,
                "unexpected extra token `"@ + token + "`"@,
            ),
            ParseErrorView::Validation { message } => command_line(
                "error"@,
                file,
                source,
                0,
                message,
            ),
        },
        OutputFormat::Human => match error {
            ParseErrorView::UnrecognizedToken { start, end, token, expected } => error_report(
                file,
                start,
                "unexpected token `"@ + token + "`"@,
                seq![red_label(file, start, end, expectation(expected, "unexpected token"@))],
            ),
            ParseErrorView::UnrecognizedEof { location, expected } => error_report(
                file,
                smaller(location, size),
                "unexpected end of input"@,
                seq![
                    red_label(
                        file,
                        smaller(location, size),
                        smaller(location, size),
                        expectation(expected, "unexpected end of input"@),
                    ),
                ],
            ),
            ParseErrorView::InvalidToken { location } => error_report(
                file,
                location,
                "invalid token"@,
                seq![
                    red_label(file, location, smaller(location + 1, size), "unexpected character"@),
                ],
            ),
            ParseErrorView::ExtraToken { start, end, token } => error_report(
                file,
                start,
                "unexpected extra token `"@ + token + "`"@,
                seq![red_label(file, start, end, "not expected here"@)],
            ),
            ParseErrorView::Validation { message } => error_report(
                file,
                0,
                message,
                Seq::empty(),
            ),
        },
    }
}

fn in_backquotes(before: &str, token: &str, after: &str) -> (r: String)
    ensures
        r@ == before@ + token@ + after@,
{
    let mut r = owned(before);
    r.push_str(token);
    r.push_str(after);
    r
}

/// Says what is wrong with a source that could not be parsed.
pub fn report_parse_error(format: OutputFormat, file: &str, source: &str, error: &ParseError) -> (r:
    Diagnostic)
    ensures
        r@ == parse_diagnostic(format, file@, source@, error@),
{
    let size: usize = source.as_bytes().len();
    if format == OutputFormat::Github {
        match error {
            ParseError::UnrecognizedToken { start, end: _, token, expected } => {
                let mut message = in_backquotes("unexpected token `", token.as_str(), "`: ");
                message.push_str(expectation_of(expected, "unexpected token").as_str());
                github_diagnostic("error", file, source, *start, message.as_str())
            },
            ParseError::UnrecognizedEof { location, expected } => {
                let at: usize = if *location < size {
                    *location
                } else {
                    size
                };
                let mut message = owned("unexpected end of input: ");
                message.push_str(expectation_of(expected, "unexpected end of input").as_str());
                github_diagnostic("error", file, source, at, message.as_str())
            },
            ParseError::InvalidToken { location } => github_diagnostic(
                "error",
                file,
                source,
                *location,
                "invalid token",
            ),
            ParseError::ExtraToken { start, end: _, token } => {
                let message = in_backquotes("unexpected extra token `", token.as_str(), "`");
                github_diagnostic("error", file, source, *start, message.as_str())
            },
            ParseError::Validation { message } => github_diagnostic(
                "error",
                file,
                source,
                0,
                message.as_str(),
            ),
        }
    } else {
        match error {
            ParseError::UnrecognizedToken { start, end, token, expected } => error_with_label(
                file,
                *start,
                in_backquotes("unexpected token `", token.as_str(), "`"),
                *start,
                *end,
                expectation_of(expected, "unexpected token"),
            ),
            ParseError::UnrecognizedEof { location, expected } => {
                let at: usize = if *location < size {
                    *location
                } else {
                    size
                };
                error_with_label(
                    file,
                    at,
                    owned("unexpected end of input"),
                    at,
                    at,
                    expectation_of(expected, "unexpected end of input"),
                )
            },
            ParseError::InvalidToken { location } => {
                let end: usize = if *location < size {
                    *location + 1
                } else {
                    size
                };
                error_with_label(
                    file,
                    *location,
                    owned("invalid token"),
                    *location,
                    end,
                    owned("unexpected character"),
                )
            },
            ParseError::ExtraToken { start, end, token } => error_with_label(
                file,
                *start,
                in_backquotes("unexpected extra token `", token.as_str(), "`"),
                *start,
                *end,
                owned("not expected here"),
            ),
            ParseError::Validation { message } => Diagnostic::Report(
                Report {
                    severity: Severity::Error,
                    file: owned(file),
                    offset: 0,
                    message: message.clone(),
                    labels: Vec::new(),
                    note: None,
                    help: None,
                },
            ),
        }
    }
}

/// The place of a key annotation: its file, the source, and how many
/// annotations of its kind come before it.
pub struct PlaceView {
    pub file: Text,
    pub source: Text,
    pub occurrence: nat,
}

/// The place of a key annotation.
#[derive(Clone, Copy)]
pub struct Place<'a> {
    pub file: &'a str,
    pub source: &'a str,
    pub occurrence: usize,
}

impl<'a> View for Place<'a> {
    type V = PlaceView;

    open spec fn view(&self) -> PlaceView {
        PlaceView {
            file: self.file@,
            source: self.source@,
            occurrence: self.occurrence as nat,
        }
    }
}

/// An error at a second annotation that refers back to a first one.
pub open spec fn two_place_report(
    pattern: Text,
    message: Text,
    first: PlaceView,
    first_label: Text,
    second: PlaceView,
    second_label: Text,
) -> DiagnosticView {
    let at1 = nth_pattern(bytes_of(first.source), bytes_of(pattern), first.occurrence);
    let at2 = nth_pattern(bytes_of(second.source), bytes_of(pattern), second.occurrence);
    error_report(
        second.file,
        at2.start,
        message,
        seq![
            red_label(second.file, at2.start, at2.end, second_label),
            LabelView {
                file: first.file,
                start: at1.start,
                end: at1.end,
                message: first_label,
                color: LabelColor::Yellow,
            },
        ],
    )
}

fn report_two_places(
    pattern: &str,
    message: String,
    first: Place,
    first_label: String,
    second: Place,
    second_label: String,
) -> (r: Diagnostic)
    ensures
        r@ == two_place_report(
            pattern@,
            message@,
            first@,
            first_label@,
            second@,
            second_label@,
        ),
{
    let at1: (usize, usize) = find_nth_pattern(first.source, pattern, first.occurrence);
    let at2: (usize, usize) = find_nth_pattern(second.source, pattern, second.occurrence);
    let mut labels: Vec<Label> = Vec::new();
    labels.push(
        Label {
            file: owned(second.file),
            start: at2.0,
            end: at2.1,
            message: second_label,
            color: LabelColor::Red,
        },
    );
    labels.push(
        Label {
            file: owned(first.file),
            start: at1.0,
            end: at1.1,
            message: first_label,
            color: LabelColor::Yellow,
        },
    );
    proof {
        let span1 = nth_pattern(bytes_of(first@.source), bytes_of(pattern@), first@.occurrence);
        let span2 = nth_pattern(bytes_of(second@.source), bytes_of(pattern@), second@.occurrence);
        assert(labels@[0]@ == red_label(second@.file, span2.start, span2.end, second_label@));
        assert(labels@[1]@ == (LabelView {
            file: first@.file,
            start: span1.start,
            end: span1.end,
            message: first_label@,
            color: LabelColor::Yellow,
        }));
        assert(views(labels@) =~= seq![labels@[0]@, labels@[1]@]);
    }
    Diagnostic::Report(
        Report {
            severity: Severity::Error,
            file: owned(second.file),
            offset: at2.0,
            message,
            labels,
            note: None,
            help: None,
        },
    )
}

/// A file and the line of an annotation in it.
pub open spec fn file_and_line(place: PlaceView, pattern: Text) -> Text {
    place.file + ":"@ + decimal(
        line_at(
            bytes_of(place.source),
            nth_pattern(bytes_of(place.source), bytes_of(pattern), place.occurrence).start,
        ),
    )
}

fn file_and_line_of(place: Place, pattern: &str) -> (r: String)
    ensures
        r@ == file_and_line(place@, pattern@),
{
    let at: (usize, usize) = find_nth_pattern(place.source, pattern, place.occurrence);
    let mut r = owned(place.file);
    r.push_str(":");
    r.push_str(decimal_text(byte_offset_to_line(place.source, at.0)).as_str());
    r
}

/// What is said of a module with two different keys.
#[verifier::opaque]
pub open spec fn conflicting_module_key(
    format: OutputFormat,
    path: Path,
    first: PlaceView,
    first_value: i128,
    second: PlaceView,
    second_value: i128,
) -> DiagnosticView {
    let name = joined(path, "::"@);
    match format {
        OutputFormat::Github => command_line(
            "error"@,
            second.file,
            second.source,
            nth_pattern(
                bytes_of(second.source),
                bytes_of("@module_key"@),
                second.occurrence,
            ).start,
            "conflicting @module_key values for module `"@ + name + "`: 0x"@ + hex_pattern(
                second_value as int,
            ) + " here vs 0x"@ + hex_pattern(first_value as int) + " in "@ + file_and_line(
                first,
                "@module_key"@,
            ),
        ),
        OutputFormat::Human => two_place_report(
            "@module_key"@,
            "conflicting @module_key values for module `"@ + name + "`"@,
            first,
            "previously defined as @module_key(0x"@ + hex_pattern(first_value as int) + ")"@,
            second,
            "defined as @module_key(0x"@ + hex_pattern(second_value as int) + ")"@,
        ),
    }
}

/// Says that a module has two different keys.
pub fn report_conflicting_module_key(
    format: OutputFormat,
    path: &[String],
    first: Place,
    first_value: i128,
    second: Place,
    second_value: i128,
) -> (r: Diagnostic)
    ensures
        r@ == conflicting_module_key(
            format,
            views(path@),
            first@,
            first_value,
            second@,
            second_value,
        ),
{
    proof {
        reveal(conflicting_module_key);
    }
    let name = join(path, "::");
    let first_hex = hex_pattern_text(first_value);
    let second_hex = hex_pattern_text(second_value);
    if format == OutputFormat::Github {
        let at: (usize, usize) = find_nth_pattern(second.source, "@module_key", second.occurrence);
        let mut message = in_backquotes(
            "conflicting @module_key values for module `",
            name.as_str(),
            "`: 0x",
        );
        message.push_str(second_hex.as_str());
        message.push_str(" here vs 0x");
        message.push_str(first_hex.as_str());
        message.push_str(" in ");
        message.push_str(file_and_line_of(first, "@module_key").as_str());
        github_diagnostic("error", second.file, second.source, at.0, message.as_str())
    } else {
        report_two_places(
            "@module_key",
            in_backquotes("conflicting @module_key values for module `", name.as_str(), "`"),
            first,
            in_backquotes("previously defined as @module_key(0x", first_hex.as_str(), ")"),
            second,
            in_backquotes("defined as @module_key(0x", second_hex.as_str(), ")"),
        )
    }
}

/// What is said of two messages with the same key.
#[verifier::opaque]
pub open spec fn duplicate_message_key(
    format: OutputFormat,
    root: Text,
    value: i128,
    first: PlaceView,
    first_name: Text,
    second: PlaceView,
    second_name: Text,
) -> DiagnosticView {
    let message = "duplicate @message_key(0x"@ + hex_pattern(value as int) + ") in module `"@
        + root;
    match format {
        OutputFormat::Github => command_line(
            "error"@,
            second.file,
            second.source,
            nth_pattern(
                bytes_of(second.source),
                bytes_of("@message_key"@),
                second.occurrence,
            ).start,
            message + "`: used by `"@ + second_name + "` here and `"@ + first_name + "` in "@
                + file_and_line(first, "@message_key"@),
        ),
        OutputFormat::Human => two_place_report(
            "@message_key"@,
            message + "`"@,
            first,
            "first used by message `"@ + first_name + "`"@,
            second,
            "used by message `"@ + second_name + "`"@,
        ),
    }
}

/// Says that two messages have the same key.
pub fn report_duplicate_message_key(
    format: OutputFormat,
    root: &str,
    value: i128,
    first: Place,
    first_name: &str,
    second: Place,
    second_name: &str,
) -> (r: Diagnostic)
    ensures
        r@ == duplicate_message_key(
            format,
            root@,
            value,
            first@,
            first_name@,
            second@,
            second_name@,
        ),
{
    proof {
        reveal(duplicate_message_key);
    }
    let mut message = in_backquotes(
        "duplicate @message_key(0x",
        hex_pattern_text(value).as_str(),
        ") in module `",
    );
    message.push_str(root);
    if format == OutputFormat::Github {
        let at: (usize, usize) = find_nth_pattern(second.source, "@message_key", second.occurrence);
        message.push_str("`: used by `");
        message.push_str(second_name);
        message.push_str("` here and `");
        message.push_str(first_name);
        message.push_str("` in ");
        message.push_str(file_and_line_of(first, "@message_key").as_str());
        github_diagnostic("error", second.file, second.source, at.0, message.as_str())
    } else {
        message.push_str("`");
        report_two_places(
            "@message_key",
            message,
            first,
            in_backquotes("first used by message `", first_name, "`"),
            second,
            in_backquotes("used by message `", second_name, "`"),
        )
    }
}

/// Where an import stands: with or without leading colons, or at the beginning
/// where neither is found.
pub open spec fn import_start(source: Text, name: Text) -> nat {
    match first_from(bytes_of(source), bytes_of("import "@ + name), 0) {
        Some(i) => i,
        None => match first_from(bytes_of(source), bytes_of("import ::"@ + name), 0) {
            Some(i) => i,
            None => 0,
        },
    }
}

/// What is said of an import of a module that does not exist.
#[verifier::opaque]
pub open spec fn unresolved_import(
    format: OutputFormat,
    segments: Path,
    file: Text,
    source: Text,
) -> DiagnosticView {
    let name = joined(segments, "::"@);
    let start = import_start(source, name);
    let end = end_after(bytes_of(source), start, 59, bytes_of("import "@ + name).len());
    match format {
        OutputFormat::Github => command_line(
            "error"@,
            file,
            source,
            start,
            "unresolved import `"@ + name + "`: no module `"@ + name + "` exists"@,
        ),
        OutputFormat::Human => error_report(
            file,
            start,
            "unresolved import `"@ + name + "`"@,
            seq![red_label(file, start, end, "no module `"@ + name + "` exists"@)],
        ),
    }
}

proof fn lemma_bytes_of_append(a: Text, b: Text)
    ensures
        bytes_of(a + b) == bytes_of(a) + bytes_of(b),
    decreases a.len(),
{
    if a.len() == 0 {
        assert(a + b =~= b);
        assert(bytes_of(a) + bytes_of(b) =~= bytes_of(b));
    } else {
        assert((a + b).drop_first() =~= a.drop_first() + b);
        lemma_bytes_of_append(a.drop_first(), b);
        assert(bytes_of(a + b) =~= bytes_of(a) + bytes_of(b));
    }
}

/// Says that an imported module does not exist.
pub fn report_unresolved_import(
    format: OutputFormat,
    segments: &[String],
    file: &str,
    source: &str,
) -> (r: Diagnostic)
    ensures
        r@ == unresolved_import(format, views(segments@), file@, source@),
{
    proof {
        reveal(unresolved_import);
    }
    let name = join(segments, "::");
    let hay = source.as_bytes();
    // Its length bounds the offsets in it, and fits in a `usize`.
    let _total: usize = hay.len();
    let search = in_backquotes("import ", name.as_str(), "");
    let rooted = in_backquotes("import ::", name.as_str(), "");
    proof {
        reveal_strlit("");
        assert(""@ =~= Seq::<char>::empty());
        assert(search@ == "import "@ + name@);
        assert(rooted@ == "import ::"@ + name@);
    }
    let needle = search.as_str().as_bytes();
    let needle_len: usize = needle.len();
    let rooted_needle = rooted.as_str().as_bytes();
    let start: usize = match find_from(hay, needle, 0) {
        Some(i) => i,
        None => match find_from(hay, rooted_needle, 0) {
            Some(i) => {
                proof {
                    reveal_strlit("import ");
                    reveal_strlit("import ::");
                    lemma_bytes_of_append("import "@, name@);
                    lemma_bytes_of_append("import ::"@, name@);
                    assert("import ::"@ =~= "import "@ + seq![':', ':']);
                    lemma_bytes_of_append("import "@, seq![':', ':']);
                }
                i
            },
            None => 0,
        },
    };
    assert(start == import_start(source@, name@));
    if format == OutputFormat::Github {
        let mut message = in_backquotes("unresolved import `", name.as_str(), "`: no module `");
        message.push_str(name.as_str());
        message.push_str("` exists");
        github_diagnostic("error", file, source, start, message.as_str())
    } else {
        let end: usize = find_end(hay, start, 59, needle_len);
        error_with_label(
            file,
            start,
            in_backquotes("unresolved import `", name.as_str(), "`"),
            start,
            end,
            in_backquotes("no module `", name.as_str(), "` exists"),
        )
    }
}

/// Where a message is declared, or the beginning where it is not found.
pub open spec fn message_start(source: Text, name: Text) -> nat {
    match first_from(bytes_of(source), bytes_of("message "@ + name), 0) {
        Some(i) => i,
        None => 0,
    }
}

/// What is said of a message without a key.
#[verifier::opaque]
pub open spec fn missing_message_key(
    format: OutputFormat,
    name: Text,
    path: Text,
    key: u16,
    file: Text,
    source: Text,
) -> DiagnosticView {
    let start = message_start(source, name);
    match format {
        OutputFormat::Github => command_line(
            "warning"@,
            file,
            source,
            start,
            "message `"@ + name + "` has no @message_key \u{2014} auto-assigned @message_key(0x"@
                + hex_pattern(key as int) + ") from CRC-16 CCITT of `"@ + path + "`"@,
        ),
        OutputFormat::Human => DiagnosticView::Report(
            ReportView {
                severity: Severity::Warning,
                file,
                offset: start,
                message: "message `"@ + name + "` has no @message_key"@,
                labels: seq![
                    LabelView {
                        file,
                        start,
                        end: start + bytes_of("message "@ + name).len(),
                        message: "missing @message_key annotation"@,
                        color: LabelColor::Yellow,
                    },
                ],
                note: Some(
                    "@message_key(0x"@ + hex_pattern(key as int)
                        + ") will be auto-assigned from CRC-16 of `"@ + path + "`"@,
                ),
                help: Some(
                    "the hash uses CRC-16 CCITT of the lowercased absolute path; collisions are resolved by incrementing it by one"@,
                ),
            },
        ),
    }
}

/// Says that a message has no key, and which one its path gives.
pub fn report_missing_message_key(
    format: OutputFormat,
    name: &str,
    path: &str,
    key: u16,
    file: &str,
    source: &str,
) -> (r: Diagnostic)
    ensures
        r@ == missing_message_key(format, name@, path@, key, file@, source@),
{
    proof {
        reveal(missing_message_key);
    }
    let hay = source.as_bytes();
    // Its length bounds the offsets in it, and fits in a `usize`.
    let _total: usize = hay.len();
    let mut search = owned("message ");
    search.push_str(name);
    let needle = search.as_str().as_bytes();
    let needle_len: usize = needle.len();
    let start: usize = match find_from(hay, needle, 0) {
        Some(i) => i,
        None => 0,
    };
    let key_hex = hex_pattern_text(key as i128);
    if format == OutputFormat::Github {
        let mut message = in_backquotes(
            "message `",
            name,
            "` has no @message_key \u{2014} auto-assigned @message_key(0x",
        );
        message.push_str(key_hex.as_str());
        message.push_str(") from CRC-16 CCITT of `");
        message.push_str(path);
        message.push_str("`");
        github_diagnostic("warning", file, source, start, message.as_str())
    } else {
        let mut labels: Vec<Label> = Vec::new();
        labels.push(
            Label {
                file: owned(file),
                start,
                end: start + needle_len,
                message: owned("missing @message_key annotation"),
                color: LabelColor::Yellow,
            },
        );
        let mut note = in_backquotes(
            "@message_key(0x",
            key_hex.as_str(),
            ") will be auto-assigned from CRC-16 of `",
        );
        note.push_str(path);
        note.push_str("`");
        Diagnostic::Report(
            Report {
                severity: Severity::Warning,
                file: owned(file),
                offset: start,
                message: in_backquotes("message `", name, "` has no @message_key"),
                labels,
                note: Some(note),
                help: Some(
                    owned(
                        "the hash uses CRC-16 CCITT of the lowercased absolute path; collisions are resolved by incrementing it by one",
                    ),
                ),
            },
        )
    }
}

/// The workflow command for a report: its level, its file, the line at which it points, and its
/// message with more after it.
pub open spec fn line_for(r: ReportView, source: Text, more: Text) -> Text {
    "::"@ + (match r.severity {
        Severity::Error => "error"@,
        Severity::Warning => "warning"@,
    }) + " file="@ + r.file + ",line="@ + decimal(line_at(bytes_of(source), r.offset)) + "::"@
        + r.message + more
}

/// Whether a line and a report say the same: the line is the workflow command for the report.
/// The first thing that the report marks begins where it points.
pub open spec fn say_the_same(line: DiagnosticView, report: DiagnosticView, source: Text) -> bool {
    &&& report matches DiagnosticView::Report(r)
    &&& exists|more: Text| line == DiagnosticView::Line(#[trigger] line_for(r, source, more))
    &&& r.labels.len() > 0 ==> r.labels[0].file == r.file && r.labels[0].start == r.offset
}

proof fn lemma_say_the_same(r: ReportView, source: Text, more: Text, message: Text, level: Text)
    requires
        message == r.message + more,
        level == match r.severity {
            Severity::Error => "error"@,
            Severity::Warning => "warning"@,
        },
        r.labels.len() > 0 ==> r.labels[0].file == r.file && r.labels[0].start == r.offset,
    ensures
        say_the_same(
            command_line(level, r.file, source, r.offset, message),
            DiagnosticView::Report(r),
            source,
        ),
{
    assert(DiagnosticView::Line(line_for(r, source, more)) == command_line(
        level,
        r.file,
        source,
        r.offset,
        message,
    ));
}

/// An error of the parser is said in the same words and at the same place in both formats. It
/// points at the start of the token, and at no byte beyond the end of the source where the
/// source ends too soon.
pub proof fn law_parse_errors_are_said_alike(file: Text, source: Text, error: ParseErrorView)
    ensures
        ({
            let line = parse_diagnostic(OutputFormat::Github, file, source, error);
            let report = parse_diagnostic(OutputFormat::Human, file, source, error);
            &&& say_the_same(line, report, source)
            &&& report matches DiagnosticView::Report(r)
            &&& r.severity == Severity::Error
            &&& r.file == file
            &&& match error {
                ParseErrorView::UnrecognizedToken { start, end, token, expected } => {
                    &&& r.offset == start
                    &&& r.labels.len() == 1
                    &&& r.labels[0].end == end
                    &&& occurs(r.message, token)
                    &&& expected matches Some(text) ==> r.labels[0].message == text
                },
                ParseErrorView::UnrecognizedEof { location, expected } => {
                    &&& r.offset <= location
                    &&& r.offset <= bytes_of(source).len()
                    &&& r.offset == location || r.offset == bytes_of(source).len()
                    &&& r.labels.len() == 1
                    &&& r.labels[0].end == r.offset
                    &&& expected matches Some(text) ==> r.labels[0].message == text
                },
                ParseErrorView::InvalidToken { location } => {
                    &&& r.offset == location
                    &&& r.labels.len() == 1
                    &&& r.labels[0].end <= location + 1
                    &&& r.labels[0].end <= bytes_of(source).len()
                    &&& r.labels[0].end == location + 1 || r.labels[0].end == bytes_of(
                        source,
                    ).len()
                },
                ParseErrorView::ExtraToken { start, end, token } => {
                    &&& r.offset == start
                    &&& r.labels.len() == 1
                    &&& r.labels[0].end == end
                    &&& occurs(r.message, token)
                },
                ParseErrorView::Validation { message } => {
                    &&& r.offset == 0
                    &&& r.labels.len() == 0
                    &&& r.message == message
                },
            }
        }),
{
    broadcast use lemma_occurs_in_sum;

    let report = parse_diagnostic(OutputFormat::Human, file, source, error);
    let r = report->Report_0;
    reveal_strlit("`: ");
    reveal_strlit("`");
    reveal_strlit(": ");
    reveal_strlit("unexpected end of input");
    reveal_strlit("unexpected end of input: ");
    assert("`: "@ =~= "`"@ + ": "@);
    assert("unexpected end of input: "@ =~= "unexpected end of input"@ + ": "@);
    match error {
        ParseErrorView::UnrecognizedToken { start, end, token, expected } => {
            let said = expectation(expected, "unexpected token"@);
            lemma_occurs_whole(token);
            lemma_say_the_same(
                r,
                source,
                ": "@ + said,
                "unexpected token `"@ + token + "`: "@ + said,
                "error"@,
            );
        },
        ParseErrorView::UnrecognizedEof { location, expected } => {
            let said = expectation(expected, "unexpected end of input"@);
            lemma_say_the_same(
                r,
                source,
                ": "@ + said,
                "unexpected end of input: "@ + said,
                "error"@,
            );
        },
        ParseErrorView::ExtraToken { start, end, token } => {
            lemma_occurs_whole(token);
            lemma_say_the_same(r, source, Seq::empty(), r.message, "error"@);
        },
        _ => {
            lemma_say_the_same(r, source, Seq::empty(), r.message, "error"@);
        },
    }
}

/// Where the annotation of a key stands.
pub open spec fn annotation_span(place: PlaceView, annotation: Text) -> Span {
    nth_pattern(bytes_of(place.source), bytes_of(annotation), place.occurrence)
}

/// Conflicting keys of a module are said in the same words and at the same place in both
/// formats: at the second annotation, with its value, and with the value at the first.
pub proof fn law_conflicting_keys_are_said_alike(
    path: Path,
    first: PlaceView,
    first_value: i128,
    second: PlaceView,
    second_value: i128,
)
    ensures
        ({
            let line = conflicting_module_key(
                OutputFormat::Github,
                path,
                first,
                first_value,
                second,
                second_value,
            );
            let report = conflicting_module_key(
                OutputFormat::Human,
                path,
                first,
                first_value,
                second,
                second_value,
            );
            let here = annotation_span(second, "@module_key"@);
            let there = annotation_span(first, "@module_key"@);
            &&& say_the_same(line, report, second.source)
            &&& report matches DiagnosticView::Report(r)
            &&& r.severity == Severity::Error
            &&& r.file == second.file
            &&& r.offset == here.start
            &&& occurs(r.message, joined(path, "::"@))
            &&& r.labels.len() == 2
            &&& r.labels[0].end == here.end
            &&& occurs(r.labels[0].message, hex_pattern(second_value as int))
            &&& r.labels[1].file == first.file
            &&& r.labels[1].start == there.start
            &&& r.labels[1].end == there.end
            &&& occurs(r.labels[1].message, hex_pattern(first_value as int))
        }),
{
    broadcast use lemma_occurs_in_sum;

    reveal(conflicting_module_key);
    let report = conflicting_module_key(
        OutputFormat::Human,
        path,
        first,
        first_value,
        second,
        second_value,
    );
    let r = report->Report_0;
    let name = joined(path, "::"@);
    reveal_strlit("`: 0x");
    reveal_strlit("`");
    reveal_strlit(": 0x");
    assert("`: 0x"@ =~= "`"@ + ": 0x"@);
    lemma_occurs_whole(name);
    lemma_occurs_whole(hex_pattern(first_value as int));
    lemma_occurs_whole(hex_pattern(second_value as int));
    let more = ": 0x"@ + hex_pattern(second_value as int) + " here vs 0x"@ + hex_pattern(
        first_value as int,
    ) + " in "@ + file_and_line(first, "@module_key"@);
    lemma_say_the_same(
        r,
        second.source,
        more,
        "conflicting @module_key values for module `"@ + name + "`: 0x"@ + hex_pattern(
            second_value as int,
        ) + " here vs 0x"@ + hex_pattern(first_value as int) + " in "@ + file_and_line(
            first,
            "@module_key"@,
        ),
        "error"@,
    );
}

/// A key that two messages name is said in the same words and at the same place in both
/// formats: at the second annotation, with the names of both messages.
pub proof fn law_duplicate_keys_are_said_alike(
    root: Text,
    value: i128,
    first: PlaceView,
    first_name: Text,
    second: PlaceView,
    second_name: Text,
)
    ensures
        ({
            let line = duplicate_message_key(
                OutputFormat::Github,
                root,
                value,
                first,
                first_name,
                second,
                second_name,
            );
            let report = duplicate_message_key(
                OutputFormat::Human,
                root,
                value,
                first,
                first_name,
                second,
                second_name,
            );
            let here = annotation_span(second, "@message_key"@);
            let there = annotation_span(first, "@message_key"@);
            &&& say_the_same(line, report, second.source)
            &&& report matches DiagnosticView::Report(r)
            &&& r.severity == Severity::Error
            &&& r.file == second.file
            &&& r.offset == here.start
            &&& occurs(r.message, root)
            &&& occurs(r.message, hex_pattern(value as int))
            &&& r.labels.len() == 2
            &&& r.labels[0].end == here.end
            &&& occurs(r.labels[0].message, second_name)
            &&& r.labels[1].file == first.file
            &&& r.labels[1].start == there.start
            &&& r.labels[1].end == there.end
            &&& occurs(r.labels[1].message, first_name)
        }),
{
    broadcast use lemma_occurs_in_sum;

    reveal(duplicate_message_key);
    let report = duplicate_message_key(
        OutputFormat::Human,
        root,
        value,
        first,
        first_name,
        second,
        second_name,
    );
    let r = report->Report_0;
    reveal_strlit("`: used by `");
    reveal_strlit("`");
    reveal_strlit(": used by `");
    assert("`: used by `"@ =~= "`"@ + ": used by `"@);
    lemma_occurs_whole(root);
    lemma_occurs_whole(hex_pattern(value as int));
    lemma_occurs_whole(first_name);
    lemma_occurs_whole(second_name);
    let message = "duplicate @message_key(0x"@ + hex_pattern(value as int) + ") in module `"@
        + root;
    let more = ": used by `"@ + second_name + "` here and `"@ + first_name + "` in "@
        + file_and_line(first, "@message_key"@);
    lemma_say_the_same(
        r,
        second.source,
        more,
        message + "`: used by `"@ + second_name + "` here and `"@ + first_name + "` in "@
            + file_and_line(first, "@message_key"@),
        "error"@,
    );
}

/// An import that names no module is said in the same words and at the same place in both
/// formats: where the import stands first, with or without the two colons of the root.
pub proof fn law_unresolved_imports_are_said_alike(segments: Path, file: Text, source: Text)
    ensures
        ({
            let line = unresolved_import(OutputFormat::Github, segments, file, source);
            let report = unresolved_import(OutputFormat::Human, segments, file, source);
            let name = joined(segments, "::"@);
            let plain = first_from(bytes_of(source), bytes_of("import "@ + name), 0);
            let rooted = first_from(bytes_of(source), bytes_of("import ::"@ + name), 0);
            &&& say_the_same(line, report, source)
            &&& report matches DiagnosticView::Report(r)
            &&& r.severity == Severity::Error
            &&& r.file == file
            &&& occurs(r.message, name)
            &&& r.labels.len() == 1
            &&& plain matches Some(start) ==> r.offset == start
            &&& plain is None ==> (rooted matches Some(start) ==> r.offset == start)
            &&& plain is None && rooted is None ==> r.offset == 0
        }),
{
    broadcast use lemma_occurs_in_sum;

    reveal(unresolved_import);
    let report = unresolved_import(OutputFormat::Human, segments, file, source);
    let r = report->Report_0;
    let name = joined(segments, "::"@);
    reveal_strlit("`: no module `");
    reveal_strlit("`");
    reveal_strlit(": no module `");
    assert("`: no module `"@ =~= "`"@ + ": no module `"@);
    lemma_occurs_whole(name);
    lemma_say_the_same(
        r,
        source,
        ": no module `"@ + name + "` exists"@,
        "unresolved import `"@ + name + "`: no module `"@ + name + "` exists"@,
        "error"@,
    );
}

/// A message that names no key is warned of in the same words and at the same place in both
/// formats: where the message stands first. Both state the key and the path that it comes from.
pub proof fn law_missing_keys_are_said_alike(
    name: Text,
    path: Text,
    key: u16,
    file: Text,
    source: Text,
)
    ensures
        ({
            let line = missing_message_key(OutputFormat::Github, name, path, key, file, source);
            let report = missing_message_key(OutputFormat::Human, name, path, key, file, source);
            let place = first_from(bytes_of(source), bytes_of("message "@ + name), 0);
            &&& say_the_same(line, report, source)
            &&& line matches DiagnosticView::Line(text)
            &&& occurs(text, hex_pattern(key as int))
            &&& occurs(text, path)
            &&& report matches DiagnosticView::Report(r)
            &&& r.severity == Severity::Warning
            &&& r.file == file
            &&& occurs(r.message, name)
            &&& r.labels.len() == 1
            &&& r.labels[0].end == r.offset + bytes_of("message "@ + name).len()
            &&& r.note matches Some(note)
            &&& occurs(note, hex_pattern(key as int))
            &&& occurs(note, path)
            &&& match place {
                Some(start) => r.offset == start,
                None => r.offset == 0,
            }
        }),
{
    broadcast use lemma_occurs_in_sum;

    reveal(missing_message_key);
    let report = missing_message_key(OutputFormat::Human, name, path, key, file, source);
    let r = report->Report_0;
    reveal_strlit("` has no @message_key");
    reveal_strlit("` has no @message_key \u{2014} auto-assigned @message_key(0x");
    reveal_strlit(" \u{2014} auto-assigned @message_key(0x");
    assert("` has no @message_key \u{2014} auto-assigned @message_key(0x"@
        =~= "` has no @message_key"@ + " \u{2014} auto-assigned @message_key(0x"@);
    lemma_occurs_whole(name);
    lemma_occurs_whole(path);
    lemma_occurs_whole(hex_pattern(key as int));
    lemma_say_the_same(
        r,
        source,
        " \u{2014} auto-assigned @message_key(0x"@ + hex_pattern(key as int)
            + ") from CRC-16 CCITT of `"@ + path + "`"@,
        "message `"@ + name + "` has no @message_key \u{2014} auto-assigned @message_key(0x"@
            + hex_pattern(key as int) + ") from CRC-16 CCITT of `"@ + path + "`"@,
        "warning"@,
    );
}

} // verus!
