//! What the checks report.
use crate::symbol::Token;
use vstd::prelude::*;

verus! {

/// A report of a check, with the token that it points at.
#[derive(Clone, Debug, PartialEq, Eq)]
pub enum AnalyzerError {
    /// The types of `start` and `end` depend on each other.
    CyclicTypeDependency { start: String, end: String, token: Token },
    /// The file `name` could not be read.
    IncludeFailure { name: String, cause: String, token: Token },
    /// This way of embedding text of this language is not allowed in a component.
    InvalidEmbed { way: String, lang: String, token: Token },
    UnknownEmbedLang { lang: String, token: Token },
    UnknownEmbedWay { way: String, token: Token },
    UnknownIncludeWay { way: String, token: Token },
    /// A report of a check that is made elsewhere.
    Other { message: String, is_error: bool },
}

impl AnalyzerError {
    pub open spec fn spec_is_error(self) -> bool {
        match self {
            AnalyzerError::Other { is_error, .. } => is_error,
            _ => true,
        }
    }

    /// The report is an error, not a warning.
    pub fn is_error(&self) -> (error: bool)
        ensures
            error == self.spec_is_error(),
    {
        match self {
            AnalyzerError::Other { is_error, .. } => *is_error,
            _ => true,
        }
    }
}

/// A report that is made here is an error; of one that is made elsewhere, it is said with it.
pub proof fn law_severity(report: AnalyzerError)
    ensures
        report.spec_is_error() <==> !(report matches AnalyzerError::Other { is_error, .. }
            && !is_error),
{
}

} // verus!
