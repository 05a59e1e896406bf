//! Structured scan-time diagnostics. The scanner records these instead of
//! writing to an output sink itself; the caller decides where they go.

use vstd::prelude::*;
use vstd::string::StringExecFns;

verus! {

/// The kind of a scan-time error. Every kind is recovered from locally:
/// the scan pass always runs to completion.
#[derive(Debug, Clone, Copy, PartialEq, Eq, Structural)]
pub enum DiagnosticKind {
    /// A character that matches no scanning rule; it is skipped.
    UnexpectedCharacter,
    /// End of input was reached inside a string literal; no token is
    /// emitted for the open string.
    UnterminatedString,
}

/// One diagnostic: what went wrong and the 1-based line it was noticed on.
#[derive(Debug, Clone, Copy, PartialEq, Eq)]
pub struct Diagnostic {
    pub kind: DiagnosticKind,
    pub line: usize,
}

/// Mathematical counterpart of `Diagnostic`.
#[verifier::ext_equal]
pub ghost struct SpecDiag {
    pub kind: DiagnosticKind,
    pub line: int,
}

impl View for Diagnostic {
    type V = SpecDiag;

    open spec fn view(&self) -> SpecDiag {
        SpecDiag { kind: self.kind, line: self.line as int }
    }
}

impl DiagnosticKind {
    /// The human-readable message for this kind of error.
    pub fn message(&self) -> (m: String)
        ensures
            *self == DiagnosticKind::UnexpectedCharacter ==> m@ == "Unexpected character."@,
            *self == DiagnosticKind::UnterminatedString ==> m@ == "Unterminated string."@,
    {
        match self {
            DiagnosticKind::UnexpectedCharacter => String::from_str("Unexpected character."),
            DiagnosticKind::UnterminatedString => String::from_str("Unterminated string."),
        }
    }
}

} // verus!
