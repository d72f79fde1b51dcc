//! Owned diagnostics, their rendering, and the normalization of the
//! parser's reports about unfinished input.

use vstd::prelude::*;
use vstd::slice::slice_subrange;

use crate::text::{
    after_last_break, after_last_break_index, byte_len, chars_equal, chars_of, count_newlines,
    decimal, fit_chars, floor_char_count, last_line, lemma_byte_len_at_least_len,
    lemma_byte_len_concat, lemma_byte_len_prefix, line_position,
    push_decimal, push_str, str_equal, trim_end, trim_start, trimmed_end_len, trimmed_start_index,
    word_list, words, words_view,
};

verus! {

/// The compiler stage that produced a diagnostic.
#[derive(Clone, Copy, Debug, PartialEq, Eq, Structural)]
pub enum Phase {
    Parse,
    Bind,
    Check,
}

/// The name a phase is shown under.
pub open spec fn phase_name(phase: Phase) -> Seq<char> {
    match phase {
        Phase::Parse => "parse"@,
        Phase::Bind => "bind"@,
        Phase::Check => "check"@,
    }
}

impl Phase {
    /// The name this phase is shown under.
    pub fn as_str(&self) -> (r: &'static str)
        ensures
            r@ == phase_name(*self),
    {
        match self {
            Phase::Parse => "parse",
            Phase::Bind => "bind",
            Phase::Check => "check",
        }
    }
}

/// A byte range into the UTF-8 source text.
#[derive(Clone, Copy, Debug, PartialEq, Eq, Structural)]
pub struct TextRange {
    pub start: u32,
    pub end: u32,
}

impl TextRange {
    pub fn new(start: u32, end: u32) -> (r: TextRange)
        ensures
            r == (TextRange { start, end }),
    {
        TextRange { start, end }
    }
}

/// The mathematical value of a [`Diagnostic`].
pub struct DiagnosticView {
    pub code: Seq<char>,
    pub message: Seq<char>,
    pub phase: Phase,
    pub range: Option<TextRange>,
}

/// An owned diagnostic suitable for a CLI, test baseline, or LSP layer.
#[derive(Clone, Debug, PartialEq, Eq)]
pub struct Diagnostic {
    pub code: String,
    pub message: String,
    pub phase: Phase,
    pub range: Option<TextRange>,
}

impl View for Diagnostic {
    type V = DiagnosticView;

    open spec fn view(&self) -> DiagnosticView {
        DiagnosticView {
            code: self.code@,
            message: self.message@,
            phase: self.phase,
            range: self.range,
        }
    }
}

impl Diagnostic {
    pub fn new(code: String, message: String, phase: Phase, range: Option<TextRange>) -> (r:
        Diagnostic)
        ensures
            r@ == (DiagnosticView { code: code@, message: message@, phase, range }),
    {
        Diagnostic { code, message, phase, range }
    }
}

/// The views of a list of diagnostics.
pub open spec fn diagnostics_view(ds: Seq<Diagnostic>) -> Seq<DiagnosticView> {
    ds.map_values(|d: Diagnostic| d@)
}

/// Line (1-based) and column (1-based, in characters) of byte `offset` of
/// `source`, where an offset inside a character or past the end counts as
/// the character boundary below it.
pub open spec fn line_and_column_of(source: Seq<char>, offset: int) -> (nat, nat) {
    let prefix = source.take(fit_chars(source, offset) as int);
    (count_newlines(prefix) + 1, last_line(prefix).len() + 1)
}

/// The concise one-line rendering of a diagnostic.
pub open spec fn render_line(d: DiagnosticView, source: Seq<char>) -> Seq<char> {
    match d.range {
        Some(range) => {
            let (line, column) = line_and_column_of(source, range.start as int);
            d.code + "@"@ + decimal(line) + ":"@ + decimal(column) + " ["@ + phase_name(d.phase)
                + "] "@ + d.message + "\n"@
        },
        None => d.code + " ["@ + phase_name(d.phase) + "] "@ + d.message + "\n"@,
    }
}

/// The concise rendering of a list of diagnostics, one line each.
pub open spec fn render_all(ds: Seq<DiagnosticView>, source: Seq<char>) -> Seq<char>
    decreases ds.len(),
{
    if ds.len() == 0 {
        Seq::empty()
    } else {
        render_all(ds.drop_last(), source) + render_line(ds.last(), source)
    }
}

/// Line (1-based) and column (1-based, in characters) of a byte offset.
pub fn line_and_column(source_text: &str, byte_offset: u32) -> (r: (usize, usize))
    requires
        byte_len(source_text@) < usize::MAX,
    ensures
        r.0 == line_and_column_of(source_text@, byte_offset as int).0,
        r.1 == line_and_column_of(source_text@, byte_offset as int).1,
{
    let chars = chars_of(source_text);
    let (k, _) = floor_char_count(chars.as_slice(), byte_offset as u64);
    let (lines, column, _) = line_position(chars.as_slice(), k);
    proof {
        let p = source_text@.take(k as int);
        crate::text::lemma_last_line_len(p);
        lemma_byte_len_prefix(source_text@, k as int);
        lemma_byte_len_at_least_len(p);
    }
    (lines + 1, column + 1)
}

/// The largest character boundary of `text` at or below byte `index`.
pub fn floor_char_boundary(text: &str, index: usize) -> (r: usize)
    ensures
        r == byte_len(text@.take(fit_chars(text@, index as int) as int)),
        r <= index,
{
    let chars = chars_of(text);
    let (_, bytes) = floor_char_count(chars.as_slice(), index as u64);
    bytes as usize
}

/// The result of checking a single source file.
#[derive(Clone, Debug, Default, PartialEq, Eq)]
pub struct CheckResult {
    pub diagnostics: Vec<Diagnostic>,
}

/// One label of a diagnostic as the parser or binder reported it.
#[derive(Clone, Copy, Debug, PartialEq, Eq, Structural)]
pub struct ReportedLabel {
    pub offset: u32,
    pub len: u32,
    pub primary: bool,
}

/// A diagnostic as the parser or binder reported it: an optional code, a
/// message and the labelled source spans.
#[derive(Clone, Debug, PartialEq, Eq)]
pub struct ReportedDiagnostic {
    pub code: Option<String>,
    pub message: String,
    pub labels: Vec<ReportedLabel>,
}

/// The first primary label, if any.
pub open spec fn first_primary(labels: Seq<ReportedLabel>) -> Option<ReportedLabel>
    decreases labels.len(),
{
    if labels.len() == 0 {
        None
    } else if labels[0].primary {
        Some(labels[0])
    } else {
        first_primary(labels.drop_first())
    }
}

/// The label a diagnostic is anchored at: the first primary label, or else
/// the first label.
pub open spec fn chosen_label(labels: Seq<ReportedLabel>) -> Option<ReportedLabel> {
    match first_primary(labels) {
        Some(l) => Some(l),
        None => if labels.len() > 0 {
            Some(labels[0])
        } else {
            None
        },
    }
}

/// The byte range a label covers, its end saturating at `u32::MAX`.
pub open spec fn label_range(label: ReportedLabel) -> TextRange {
    TextRange {
        start: label.offset,
        end: if label.offset + label.len > u32::MAX {
            u32::MAX
        } else {
            (label.offset + label.len) as u32
        },
    }
}

/// The code used when a report carries none.
pub open spec fn fallback_code(phase: Phase) -> Seq<char> {
    match phase {
        Phase::Parse => "TSRS1000"@,
        Phase::Bind => "TSRS1001"@,
        Phase::Check => "TSRS1002"@,
    }
}

/// The mathematical value of a [`ReportedDiagnostic`].
pub struct ReportedView {
    pub code: Option<Seq<char>>,
    pub message: Seq<char>,
    pub labels: Seq<ReportedLabel>,
}

impl View for ReportedDiagnostic {
    type V = ReportedView;

    open spec fn view(&self) -> ReportedView {
        ReportedView {
            code: match self.code {
                Some(c) => Some(c@),
                None => None,
            },
            message: self.message@,
            labels: self.labels@,
        }
    }
}

/// The diagnostics that one report becomes: its normalization when the
/// source is known and the report is an unexpected token that a
/// normalization covers, and otherwise the report itself with its code (or
/// the phase's fallback code) and the range of its chosen label.
pub open spec fn owned_diagnostics(r: ReportedView, phase: Phase, source: Option<Seq<char>>) -> Seq<
    DiagnosticView,
> {
    let range = match chosen_label(r.labels) {
        Some(l) => Some(label_range(l)),
        None => None,
    };
    let code = match r.code {
        Some(c) => c,
        None => fallback_code(phase),
    };
    match source {
        Some(text) => if r.message == "Unexpected token"@ && normalized_unexpected_token(
            text,
            range,
        ) is Some {
            normalized_views(normalized_unexpected_token(text, range)->0)
        } else {
            seq![DiagnosticView { code, message: r.message, phase, range }]
        },
        None => seq![DiagnosticView { code, message: r.message, phase, range }],
    }
}

/// The diagnostics that a list of reports becomes, in order.
pub open spec fn all_owned_diagnostics(rs: Seq<ReportedView>, phase: Phase, source: Option<Seq<char>>) -> Seq<
    DiagnosticView,
>
    decreases rs.len(),
{
    if rs.len() == 0 {
        Seq::empty()
    } else {
        all_owned_diagnostics(rs.drop_last(), phase, source) + owned_diagnostics(
            rs.last(),
            phase,
            source,
        )
    }
}

/// The views of a list of reports.
pub open spec fn reported_view(rs: Seq<ReportedDiagnostic>) -> Seq<ReportedView> {
    rs.map_values(|r: ReportedDiagnostic| r@)
}

impl CheckResult {
    /// A result without diagnostics.
    pub fn new() -> (r: CheckResult)
        ensures
            r.diagnostics@.len() == 0,
    {
        CheckResult { diagnostics: Vec::new() }
    }

    /// A result holding exactly one diagnostic.
    pub fn from_diagnostic(diagnostic: Diagnostic) -> (r: CheckResult)
        ensures
            r.diagnostics@ == seq![diagnostic],
    {
        let mut diagnostics = Vec::new();
        diagnostics.push(diagnostic);
        assert(diagnostics@ =~= seq![diagnostic]);
        CheckResult { diagnostics }
    }

    /// Returns `true` when no diagnostics were produced.
    pub fn is_ok(&self) -> (r: bool)
        ensures
            r == (self.diagnostics@.len() == 0),
    {
        self.diagnostics.len() == 0
    }

    /// Append the diagnostics that the parser or binder reported for `phase`;
    /// with the source text given, an unexpected token at its end is
    /// normalized.
    pub fn extend_owned_oxc(
        &mut self,
        reported: Vec<ReportedDiagnostic>,
        phase: Phase,
        source_text: Option<&str>,
    )
        ensures
            diagnostics_view(final(self).diagnostics@) == diagnostics_view(old(self).diagnostics@)
                + all_owned_diagnostics(
                reported_view(reported@),
                phase,
                match source_text {
                    Some(t) => Some(t@),
                    None => None,
                },
            ),
    {
        let ghost source = match source_text {
            Some(t) => Some(t@),
            None => None,
        };
        let ghost start = diagnostics_view(self.diagnostics@);
        let ghost rs = reported_view(reported@);
        let mut i: usize = 0;
        assert(rs.take(0) =~= Seq::<ReportedView>::empty());
        assert(diagnostics_view(self.diagnostics@) =~= start + all_owned_diagnostics(
            rs.take(0),
            phase,
            source,
        ));
        while i < reported.len()
            invariant
                rs == reported_view(reported@),
                i <= reported@.len(),
                source == match source_text {
                    Some(t) => Some(t@),
                    None => None::<Seq<char>>,
                },
                diagnostics_view(self.diagnostics@) == start + all_owned_diagnostics(
                    rs.take(i as int),
                    phase,
                    source,
                ),
            decreases reported@.len() - i,
        {
            let ghost before = diagnostics_view(self.diagnostics@);
            self.push_owned(&reported[i], phase, source_text);
            proof {
                assert(rs.take(i as int + 1).drop_last() =~= rs.take(i as int));
                assert(rs.take(i as int + 1).last() == reported@[i as int]@);
                assert(diagnostics_view(self.diagnostics@) =~= start + all_owned_diagnostics(
                    rs.take(i as int + 1),
                    phase,
                    source,
                ));
            }
            i = i + 1;
        }
        assert(rs.take(rs.len() as int) =~= rs);
    }

    /// Append the diagnostics that one report becomes.
    fn push_owned(&mut self, report: &ReportedDiagnostic, phase: Phase, source_text: Option<&str>)
        ensures
            diagnostics_view(final(self).diagnostics@) == diagnostics_view(old(self).diagnostics@)
                + owned_diagnostics(
                report@,
                phase,
                match source_text {
                    Some(t) => Some(t@),
                    None => None,
                },
            ),
    {
        let ghost start = diagnostics_view(self.diagnostics@);
        let code = match &report.code {
            Some(code) => code.clone(),
            None => match phase {
                Phase::Parse => "TSRS1000".to_owned(),
                Phase::Bind => "TSRS1001".to_owned(),
                Phase::Check => "TSRS1002".to_owned(),
            },
        };
        let range = match choose_label(report.labels.as_slice()) {
            Some(label) => Some(range_of_label(label)),
            None => None,
        };
        if let Some(text) = source_text {
            if str_equal(report.message.as_str(), "Unexpected token") {
                if let Some(normalized) = normalize_unexpected_token(text, range) {
                    let mut k: usize = 0;
                    let ghost ns = normalized_views(normalized@);
                    assert(ns.take(0) =~= Seq::<DiagnosticView>::empty());
                    while k < normalized.len()
                        invariant
                            k <= normalized@.len(),
                            ns == normalized_views(normalized@),
                            diagnostics_view(self.diagnostics@) == start + ns.take(k as int),
                        decreases normalized@.len() - k,
                    {
                        let n = &normalized[k];
                        assert(ns[k as int] == normalized_view(*n));
                        let d = Diagnostic::new(
                            n.code.to_owned(),
                            n.message.to_owned(),
                            n.phase,
                            Some(n.range),
                        );
                        assert(d@ == normalized_view(*n));
                        let ghost before = self.diagnostics@;
                        self.diagnostics.push(d);
                        assert(diagnostics_view(self.diagnostics@) =~= diagnostics_view(before).push(
                            d@,
                        ));
                        assert(ns.take(k as int + 1) =~= ns.take(k as int).push(ns[k as int]));
                        assert(diagnostics_view(self.diagnostics@) =~= start + ns.take(
                            k as int + 1,
                        ));
                        k = k + 1;
                    }
                    assert(ns.take(ns.len() as int) =~= ns);
                    return;
                }
            }
        }
        let message = report.message.clone();
        self.diagnostics.push(Diagnostic::new(code, message, phase, range));
        assert(diagnostics_view(self.diagnostics@) =~= start + owned_diagnostics(
            report@,
            phase,
            match source_text {
                Some(t) => Some(t@),
                None => None,
            },
        ));
    }

    /// Render deterministic one-line diagnostics for conformance baselines.
    pub fn render_concise(&self, source_text: &str) -> (r: String)
        requires
            byte_len(source_text@) < usize::MAX,
        ensures
            r@ == render_all(diagnostics_view(self.diagnostics@), source_text@),
    {
        let ghost ds = diagnostics_view(self.diagnostics@);
        let mut output = String::new();
        let mut i: usize = 0;
        assert(ds.take(0) =~= Seq::<DiagnosticView>::empty());
        while i < self.diagnostics.len()
            invariant
                ds == diagnostics_view(self.diagnostics@),
                i <= ds.len(),
                byte_len(source_text@) < usize::MAX,
                output@ == render_all(ds.take(i as int), source_text@),
            decreases ds.len() - i,
        {
            let diagnostic = &self.diagnostics[i];
            let ghost before = output@;
            push_str(&mut output, diagnostic.code.as_str());
            if let Some(range) = diagnostic.range {
                let (line, column) = line_and_column(source_text, range.start);
                push_str(&mut output, "@");
                push_decimal(&mut output, line as u64);
                push_str(&mut output, ":");
                push_decimal(&mut output, column as u64);
            }
            push_str(&mut output, " [");
            push_str(&mut output, diagnostic.phase.as_str());
            push_str(&mut output, "] ");
            push_str(&mut output, diagnostic.message.as_str());
            push_str(&mut output, "\n");
            proof {
                assert(ds.take(i as int + 1).drop_last() =~= ds.take(i as int));
                assert(ds.take(i as int + 1).last() == diagnostic@);
                assert(output@ =~= before + render_line(diagnostic@, source_text@));
            }
            i = i + 1;
        }
        assert(ds.take(ds.len() as int) =~= ds);
        output
    }
}

/// The label a diagnostic is anchored at.
fn choose_label(labels: &[ReportedLabel]) -> (r: Option<ReportedLabel>)
    ensures
        r == chosen_label(labels@),
{
    let mut i: usize = 0;
    assert(labels@.skip(0) =~= labels@);
    while i < labels.len()
        invariant
            i <= labels@.len(),
            first_primary(labels@) == first_primary(labels@.skip(i as int)),
        decreases labels@.len() - i,
    {
        assert(labels@.skip(i as int)[0] == labels@[i as int]);
        if labels[i].primary {
            return Some(labels[i]);
        }
        assert(labels@.skip(i as int).drop_first() =~= labels@.skip(i as int + 1));
        i = i + 1;
    }
    if labels.len() > 0 {
        Some(labels[0])
    } else {
        None
    }
}

/// The range a label covers.
fn range_of_label(label: ReportedLabel) -> (r: TextRange)
    ensures
        r == label_range(label),
{
    TextRange::new(label.offset, label.offset.saturating_add(label.len))
}

/// A normalized replacement for an "Unexpected token" report.
#[derive(Clone, Copy, Debug, PartialEq, Eq)]
pub struct NormalizedParseDiagnostic {
    pub code: &'static str,
    pub message: &'static str,
    pub phase: Phase,
    pub range: TextRange,
}

/// The diagnostic that a normalized report stands for.
pub open spec fn normalized_view(n: NormalizedParseDiagnostic) -> DiagnosticView {
    DiagnosticView { code: n.code@, message: n.message@, phase: n.phase, range: Some(n.range) }
}

/// The diagnostics that a list of normalized reports stands for.
pub open spec fn normalized_views(ns: Seq<NormalizedParseDiagnostic>) -> Seq<DiagnosticView> {
    ns.map_values(|n: NormalizedParseDiagnostic| normalized_view(n))
}

/// The words of the last line of `text` (after its last line feed or
/// carriage return), without leading `export` and `declare` modifiers.
pub open spec fn skip_modifiers(ws: Seq<Seq<char>>) -> Seq<Seq<char>>
    decreases ws.len(),
{
    if ws.len() > 0 && (ws[0] == "export"@ || ws[0] == "declare"@) {
        skip_modifiers(ws.drop_first())
    } else {
        ws
    }
}

/// Whether the last line of `text` declares a type alias: its first word
/// after any `export` and `declare` modifiers is `type`.
pub open spec fn type_alias_line(text: Seq<char>) -> bool {
    let rest = skip_modifiers(words(after_last_break(text)));
    rest.len() > 0 && rest[0] == "type"@
}

/// Whether the last line of `source_text` begins a type alias declaration.
pub fn ends_with_type_alias_declaration(source_text: &str) -> (r: bool)
    ensures
        r == type_alias_line(source_text@),
{
    let chars = chars_of(source_text);
    alias_line(chars.as_slice())
}

/// Whether the last line of `chars` begins a type alias declaration.
fn alias_line(chars: &[char]) -> (r: bool)
    ensures
        r == type_alias_line(chars@),
{
    let start = after_last_break_index(chars, chars.len());
    assert(chars@.take(chars@.len() as int) =~= chars@);
    let line = slice_subrange(chars, start, chars.len());
    let ws = word_list(line);
    let export_chars = chars_of("export");
    let declare_chars = chars_of("declare");
    let type_chars = chars_of("type");
    let ghost wv = words_view(ws@);
    let mut i: usize = 0;
    assert(wv.skip(0) =~= wv);
    while i < ws.len() && (chars_equal(ws[i].as_slice(), export_chars.as_slice()) || chars_equal(
        ws[i].as_slice(),
        declare_chars.as_slice(),
    ))
        invariant
            wv == words_view(ws@),
            i <= ws@.len(),
            export_chars@ == "export"@,
            declare_chars@ == "declare"@,
            skip_modifiers(wv) == skip_modifiers(wv.skip(i as int)),
        decreases ws@.len() - i,
    {
        assert(wv.skip(i as int)[0] == ws@[i as int]@);
        assert(wv.skip(i as int).drop_first() =~= wv.skip(i as int + 1));
        i = i + 1;
    }
    if i < ws.len() {
        assert(wv.skip(i as int)[0] == ws@[i as int]@);
        chars_equal(ws[i].as_slice(), type_chars.as_slice())
    } else {
        false
    }
}

/// The range of `keyword` when it stands alone (after indentation) on the
/// line that ends at byte `trimmed_end` of `source`.
pub open spec fn keyword_range(source: Seq<char>, trimmed_end: int, keyword: Seq<char>) -> Option<TextRange> {
    let prefix = source.take(fit_chars(source, trimmed_end) as int);
    if trim_start(after_last_break(prefix)) == keyword {
        Some(TextRange { start: (trimmed_end - byte_len(keyword)) as u32, end: trimmed_end as u32 })
    } else {
        None
    }
}

/// Whether byte `offset` is a character boundary of `source`.
pub open spec fn is_boundary(source: Seq<char>, offset: int) -> bool {
    byte_len(source.take(fit_chars(source, offset) as int)) == offset
}

/// The range of `keyword` when it is all that the line ending at byte
/// `trimmed_end` holds after its indentation.
pub fn trailing_keyword_range(source_text: &str, trimmed_end: u32, keyword: &str) -> (r: Option<
    TextRange,
>)
    requires
        is_boundary(source_text@, trimmed_end as int),
    ensures
        r == keyword_range(source_text@, trimmed_end as int, keyword@),
{
    let chars = chars_of(source_text);
    let ghost s = chars@;
    let (k, _) = floor_char_count(chars.as_slice(), trimmed_end as u64);
    let line_start = after_last_break_index(chars.as_slice(), k);
    let line = slice_subrange(chars.as_slice(), line_start, k);
    let indent = trimmed_start_index(line);
    let word = slice_subrange(line, indent, line.len());
    let keyword_chars = chars_of(keyword);
    if chars_equal(word, keyword_chars.as_slice()) {
        proof {
            let prefix = s.take(k as int);
            let l = after_last_break(prefix);
            assert(prefix =~= prefix.take(line_start as int) + l);
            assert(l =~= l.take(indent as int) + keyword@);
            lemma_byte_len_concat(prefix.take(line_start as int), l);
            lemma_byte_len_concat(l.take(indent as int), keyword@);
        }
        let keyword_len = keyword.len() as u32;
        Some(TextRange::new(trimmed_end - keyword_len, trimmed_end))
    } else {
        None
    }
}

/// The replacement of an "Unexpected token" report at `range` for
/// unfinished input: a trailing `;.` becomes a missing declaration, and a
/// trailing `=` (other than in a type alias) a missing expression; other
/// shapes, and reports that end before the trimmed end of the source, are
/// kept as they are.
pub open spec fn normalized_unexpected_token(source: Seq<char>, range: Option<TextRange>) -> Option<
    Seq<NormalizedParseDiagnostic>,
> {
    match range {
        None => None,
        Some(range) => {
            let trimmed = trim_end(source);
            let trimmed_end = byte_len(trimmed);
            if trimmed_end > u32::MAX || range.end < trimmed_end {
                None
            } else {
                if trimmed.len() >= 2 && trimmed[trimmed.len() - 2] == ';'
                        && trimmed.last() == '.' {
                        Some(
                            seq![
                                NormalizedParseDiagnostic {
                                    code: "TS1128",
                                    message: "Declaration or statement expected.",
                                    phase: Phase::Parse,
                                    range,
                                },
                            ],
                        )
                    } else if trimmed.len() >= 1 && trimmed.last() == '=' && !type_alias_line(
                        trimmed,
                    ) {
                        Some(
                            seq![
                                NormalizedParseDiagnostic {
                                    code: "TS1109",
                                    message: "Expression expected.",
                                    phase: Phase::Parse,
                                    range: TextRange {
                                        start: trimmed_end as u32,
                                        end: trimmed_end as u32,
                                    },
                                },
                            ],
                        )
                    } else {
                        None
                    }
            }
        },
    }
}

/// Normalize an "Unexpected token" report at `range` for unfinished input.
pub fn normalize_unexpected_token(source_text: &str, range: Option<TextRange>) -> (r: Option<
    Vec<NormalizedParseDiagnostic>,
>)
    ensures
        match r {
            Some(v) => normalized_unexpected_token(source_text@, range) == Some(v@),
            None => normalized_unexpected_token(source_text@, range) is None,
        },
{
    let range = match range {
        Some(range) => range,
        None => return None,
    };
    let chars = chars_of(source_text);
    let ghost s = chars@;
    let n = trimmed_end_len(chars.as_slice());
    let trimmed = slice_subrange(chars.as_slice(), 0, n);
    assert(trimmed@ =~= s.take(n as int));
    let tail = slice_subrange(chars.as_slice(), n, chars.len());
    proof {
        assert(s =~= s.take(n as int) + tail@);
        lemma_byte_len_concat(s.take(n as int), tail@);
    }
    let trimmed_bytes = crate::text::str_byte_len(source_text) - byte_length(tail);
    if trimmed_bytes > 0xFFFF_FFFF {
        return None;
    }
    let trimmed_end = trimmed_bytes as u32;
    if range.end < trimmed_end {
        return None;
    }
    if n >= 2 && trimmed[n - 2] == ';' && trimmed[n - 1] == '.' {
        let mut out = Vec::new();
        out.push(
            NormalizedParseDiagnostic {
                code: "TS1128",
                message: "Declaration or statement expected.",
                phase: Phase::Parse,
                range,
            },
        );
        assert(out@ =~= normalized_unexpected_token(source_text@, Some(range))->0);
        return Some(out);
    }
    if n >= 1 && trimmed[n - 1] == '=' && !alias_line(trimmed) {
        let mut out = Vec::new();
        out.push(
            NormalizedParseDiagnostic {
                code: "TS1109",
                message: "Expression expected.",
                phase: Phase::Parse,
                range: TextRange::new(trimmed_end, trimmed_end),
            },
        );
        assert(out@ =~= normalized_unexpected_token(source_text@, Some(range))->0);
        return Some(out);
    }
    None
}

/// The number of UTF-8 bytes of `chars`.
fn byte_length(chars: &[char]) -> (r: usize)
    requires
        byte_len(chars@) <= usize::MAX,
    ensures
        r == byte_len(chars@),
{
    let ghost cs = chars@;
    let mut total: usize = 0;
    let mut i: usize = 0;
    assert(cs.take(0) =~= Seq::<char>::empty());
    while i < chars.len()
        invariant
            chars@ == cs,
            i <= cs.len(),
            byte_len(cs) <= usize::MAX,
            total == byte_len(cs.take(i as int)),
        decreases cs.len() - i,
    {
        proof {
            assert(cs.take(i as int + 1) =~= cs.take(i as int) + seq![cs[i as int]]);
            lemma_byte_len_concat(cs.take(i as int), seq![cs[i as int]]);
            crate::text::lemma_byte_len_first(seq![cs[i as int]]);
            assert(seq![cs[i as int]].drop_first() =~= Seq::<char>::empty());
            lemma_byte_len_prefix(cs, i as int + 1);
        }
        total = total + crate::text::utf8_width(chars[i]);
        i = i + 1;
    }
    assert(cs.take(cs.len() as int) =~= cs);
    total
}

} // verus!
