//! The owned projection of diagnostics that the browser playground receives.

use vstd::prelude::*;
use vstd::std_specs::convert::FromSpecImpl;

use crate::diagnostic::{phase_name, CheckResult, Diagnostic, DiagnosticView, TextRange, diagnostics_view};

verus! {

/// A byte range as the playground receives it.
#[derive(Clone, Copy, Debug, PartialEq, Eq, Structural)]
pub struct PlaygroundTextRange {
    pub start: u32,
    pub end: u32,
}

impl From<TextRange> for PlaygroundTextRange {
    fn from(range: TextRange) -> (r: PlaygroundTextRange) {
        PlaygroundTextRange { start: range.start, end: range.end }
    }
}

impl FromSpecImpl<TextRange> for PlaygroundTextRange {
    open spec fn obeys_from_spec() -> bool {
        true
    }

    open spec fn from_spec(range: TextRange) -> PlaygroundTextRange {
        PlaygroundTextRange { start: range.start, end: range.end }
    }
}

/// The mathematical value of a [`PlaygroundDiagnostic`].
pub struct PlaygroundView {
    pub code: Seq<char>,
    pub message: Seq<char>,
    pub phase: Seq<char>,
    pub range: Option<PlaygroundTextRange>,
}

/// A diagnostic as the playground receives it, with the phase by name.
#[derive(Clone, Debug, PartialEq, Eq)]
pub struct PlaygroundDiagnostic {
    pub code: String,
    pub message: String,
    pub phase: String,
    pub range: Option<PlaygroundTextRange>,
}

impl View for PlaygroundDiagnostic {
    type V = PlaygroundView;

    open spec fn view(&self) -> PlaygroundView {
        PlaygroundView {
            code: self.code@,
            message: self.message@,
            phase: self.phase@,
            range: self.range,
        }
    }
}

/// The playground form of a diagnostic.
pub open spec fn playground_view(d: DiagnosticView) -> PlaygroundView {
    PlaygroundView {
        code: d.code,
        message: d.message,
        phase: phase_name(d.phase),
        range: match d.range {
            Some(r) => Some(PlaygroundTextRange { start: r.start, end: r.end }),
            None => None,
        },
    }
}

impl PlaygroundDiagnostic {
    /// The playground form of a diagnostic.
    pub fn from_diagnostic(diagnostic: Diagnostic) -> (r: PlaygroundDiagnostic)
        ensures
            r@ == playground_view(diagnostic@),
    {
        let phase = diagnostic.phase.as_str().to_owned();
        let range = match diagnostic.range {
            Some(range) => Some(PlaygroundTextRange { start: range.start, end: range.end }),
            None => None,
        };
        PlaygroundDiagnostic { code: diagnostic.code, message: diagnostic.message, phase, range }
    }
}

/// The playground forms of all diagnostics of a result, in order.
pub fn playground_projection(result: &CheckResult) -> (r: Vec<PlaygroundDiagnostic>)
    ensures
        r@.map_values(|p: PlaygroundDiagnostic| p@) == diagnostics_view(result.diagnostics@).map_values(
            |d: DiagnosticView| playground_view(d),
        ),
{
    let ghost ds = diagnostics_view(result.diagnostics@);
    let ghost target = ds.map_values(|d: DiagnosticView| playground_view(d));
    let mut out: Vec<PlaygroundDiagnostic> = Vec::new();
    let mut i: usize = 0;
    assert(out@.map_values(|p: PlaygroundDiagnostic| p@) =~= target.take(0));
    while i < result.diagnostics.len()
        invariant
            ds == diagnostics_view(result.diagnostics@),
            target == ds.map_values(|d: DiagnosticView| playground_view(d)),
            i <= ds.len(),
            out@.map_values(|p: PlaygroundDiagnostic| p@) == target.take(i as int),
        decreases ds.len() - i,
    {
        let d = &result.diagnostics[i];
        let p = PlaygroundDiagnostic {
            code: d.code.clone(),
            message: d.message.clone(),
            phase: d.phase.as_str().to_owned(),
            range: match d.range {
                Some(range) => Some(PlaygroundTextRange { start: range.start, end: range.end }),
                None => None,
            },
        };
        assert(p@ == playground_view(d@));
        assert(target[i as int] == playground_view(ds[i as int]));
        let ghost before = out@.map_values(|q: PlaygroundDiagnostic| q@);
        out.push(p);
        assert(out@.map_values(|q: PlaygroundDiagnostic| q@) =~= before.push(p@));
        assert(out@.map_values(|q: PlaygroundDiagnostic| q@) =~= target.take(i as int + 1));
        i = i + 1;
    }
    assert(target.take(ds.len() as int) =~= target);
    out
}

} // verus!
