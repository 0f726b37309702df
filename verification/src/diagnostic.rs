//! What a lint run reports: a diagnostic per finding, with its position and
//! an optional fix, both in UTF-16 code units of the source.

use crate::utf;
use vstd::prelude::*;

verus! {

#[derive(Debug, Clone, Copy, PartialEq, Eq, Structural)]
pub enum Severity {
    Error,
    Warning,
}

/// The severity a configuration string names.
pub open spec fn severity_named(s: Seq<char>) -> Option<Severity> {
    if s == seq!['e', 'r', 'r', 'o', 'r'] {
        Some(Severity::Error)
    } else if s == seq!['w', 'a', 'r', 'n', 'i', 'n', 'g'] || s == seq!['w', 'a', 'r', 'n'] {
        Some(Severity::Warning)
    } else {
        None
    }
}

impl Severity {
    pub fn parse(s: &str) -> (r: Option<Severity>)
        ensures
            r == severity_named(s@),
    {
        proof {
            reveal_strlit("error");
            reveal_strlit("warning");
            reveal_strlit("warn");
            assert("error"@ =~= seq!['e', 'r', 'r', 'o', 'r']);
            assert("warning"@ =~= seq!['w', 'a', 'r', 'n', 'i', 'n', 'g']);
            assert("warn"@ =~= seq!['w', 'a', 'r', 'n']);
        }
        if utf::str_eq(s, "error") {
            Some(Severity::Error)
        } else if utf::str_eq(s, "warning") || utf::str_eq(s, "warn") {
            Some(Severity::Warning)
        } else {
            None
        }
    }
}

/// A replacement over a UTF-16 offset range of the source document.
#[derive(Debug)]
pub struct Fix {
    pub range: [usize; 2],
    pub text: String,
}

impl Clone for Fix {
    fn clone(&self) -> (r: Self)
        ensures
            r == *self,
    {
        let r = Fix { range: self.range, text: self.text.clone() };
        r
    }
}

#[derive(Debug)]
pub struct Diagnostic {
    pub rule: String,
    pub severity: Severity,
    pub message: String,
    pub line: usize,
    pub column: usize,
    pub end_line: usize,
    pub end_column: usize,
    /// UTF-16 code unit offsets `[start, end)` from the start of the
    /// document. textlint reports the same unit, and so does LSP by default.
    pub range: [usize; 2],
    pub fix: Option<Fix>,
}

impl Clone for Diagnostic {
    fn clone(&self) -> (r: Self)
        ensures
            r == *self,
    {
        Diagnostic {
            rule: self.rule.clone(),
            severity: self.severity,
            message: self.message.clone(),
            line: self.line,
            column: self.column,
            end_line: self.end_line,
            end_column: self.end_column,
            range: self.range,
            fix: match &self.fix {
                Some(f) => Some(f.clone()),
                None => None,
            },
        }
    }
}

} // verus!
