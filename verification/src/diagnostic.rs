use vstd::prelude::*;

verus! {

/// How serious a finding is.
#[derive(Debug, Clone, Copy, PartialEq, Eq, Structural)]
pub enum Severity {
    Error,
    Warning,
}

/// One finding about a skill: its severity, the rule's ID and a message.
#[derive(Debug)]
pub struct Diagnostic {
    pub severity: Severity,
    pub code: &'static str,
    pub message: String,
}

/// What a diagnostic says, as mathematical values.
pub struct DiagnosticView {
    pub severity: Severity,
    pub code: Seq<char>,
    pub message: Seq<char>,
}

impl View for Diagnostic {
    type V = DiagnosticView;

    open spec fn view(&self) -> DiagnosticView {
        DiagnosticView { severity: self.severity, code: self.code@, message: self.message@ }
    }
}

/// The diagnostic that a function of this crate emits: its severity, code and message.
pub open spec fn diag(severity: Severity, code: Seq<char>, message: Seq<char>) -> DiagnosticView {
    DiagnosticView { severity, code, message }
}

/// The views of a sequence of diagnostics.
pub open spec fn diags_view(ds: Seq<Diagnostic>) -> Seq<DiagnosticView> {
    ds.map_values(|d: Diagnostic| d@)
}

/// An error diagnostic with the given rule ID and message.
pub fn error(code: &'static str, message: String) -> (d: Diagnostic)
    ensures
        d@ == diag(Severity::Error, code@, message@),
{
    Diagnostic { severity: Severity::Error, code, message }
}

/// A warning diagnostic with the given rule ID and message.
pub fn warning(code: &'static str, message: String) -> (d: Diagnostic)
    ensures
        d@ == diag(Severity::Warning, code@, message@),
{
    Diagnostic { severity: Severity::Warning, code, message }
}

} // verus!
