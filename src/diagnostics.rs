use crate::issues::{Match, MatchView};
use crate::source::Position;
use crate::text::{clone_strings, str_eq};
use vstd::prelude::*;

verus! {

/// How prominently an editor shows a diagnostic.
#[derive(Debug, Clone, Copy, PartialEq, Eq, Structural)]
pub enum Severity {
    Hint,
    Warning,
    Information,
}

/// Style-like categories are hints, spelling is a warning, anything else is information.
pub open spec fn severity_of(category: Seq<char>) -> Severity {
    if category == "COLLOQUIALISMS"@ || category == "REDUNDANCY"@ || category == "STYLE"@
        || category == "SYNONYMS"@ {
        Severity::Hint
    } else if category == "TYPOS"@ {
        Severity::Warning
    } else {
        Severity::Information
    }
}

/// The text shown for a match: its title, a blank line, the message, and `category > rule`.
pub open spec fn message_of(m: MatchView) -> Seq<char> {
    m.title + "\n\n"@ + m.message + "\n"@ + m.category + " > "@ + m.rule + "\n"@
}

pub fn severity(category: &str) -> (r: Severity)
    ensures
        r == severity_of(category@),
{
    if str_eq(category, "COLLOQUIALISMS") || str_eq(category, "REDUNDANCY") || str_eq(
        category,
        "STYLE",
    ) || str_eq(category, "SYNONYMS") {
        Severity::Hint
    } else if str_eq(category, "TYPOS") {
        Severity::Warning
    } else {
        Severity::Information
    }
}

pub fn message(m: &Match) -> (r: String)
    ensures
        r@ == message_of(m@),
{
    let mut r = String::from_str(m.title.as_str());
    r.append("\n\n");
    r.append(m.message.as_str());
    r.append("\n");
    r.append(m.category.as_str());
    r.append(" > ");
    r.append(m.rule.as_str());
    r.append("\n");
    r
}

/// A diagnostic in editor coordinates.
pub struct Diagnostic {
    pub start: Position,
    pub end: Position,
    pub severity: Severity,
    pub message: String,
    pub replacements: Vec<String>,
}

pub struct DiagnosticView {
    pub start: Position,
    pub end: Position,
    pub severity: Severity,
    pub message: Seq<char>,
    pub replacements: Seq<Seq<char>>,
}

impl View for Diagnostic {
    type V = DiagnosticView;

    open spec fn view(&self) -> DiagnosticView {
        DiagnosticView {
            start: self.start,
            end: self.end,
            severity: self.severity,
            message: self.message@,
            replacements: Seq::new(self.replacements@.len(), |i: int| self.replacements@[i]@),
        }
    }
}

/// The diagnostic for match `m` placed at `start .. end`.
pub open spec fn diagnostic_of(m: MatchView, start: Position, end: Position) -> DiagnosticView {
    DiagnosticView {
        start,
        end,
        severity: severity_of(m.category),
        message: message_of(m),
        replacements: m.replacements,
    }
}

/// The diagnostic for `m` between two converted positions.
pub fn diagnostic(m: &Match, start: Position, end: Position) -> (r: Diagnostic)
    ensures
        r@ == diagnostic_of(m@, start, end),
{
    let replacements = clone_strings(&m.replacements);
    let r = Diagnostic {
        start,
        end,
        severity: severity(m.category.as_str()),
        message: message(m),
        replacements,
    };
    assert(r@.replacements =~= m@.replacements);
    r
}

} // verus!
