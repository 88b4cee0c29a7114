//! The errors that callers in Python see.

use vstd::prelude::*;

use crate::text::joined;

verus! {

/// An error that crosses the Python boundary. The texts are those of the errors that were
/// met: as the query engine shows its errors, and as the others are shown for debugging.
#[derive(Debug)]
pub enum PyDataFusionError {
    ExecutionError(String),
    ArrowError(String),
    Common(String),
    PythonError(String),
}

/// What is raised for an error.
#[derive(Debug)]
pub enum Raised {
    /// The Python exception that was met, as it is.
    Same,
    /// An exception with this text.
    Exception(String),
}

impl PyDataFusionError {
    /// The text of the error.
    pub open spec fn text(self) -> Seq<char> {
        match self {
            PyDataFusionError::ExecutionError(e) => "DataFusion error: "@ + e@,
            PyDataFusionError::ArrowError(e) => "Arrow error: "@ + e@,
            PyDataFusionError::PythonError(e) => "Python error "@ + e@,
            PyDataFusionError::Common(e) => e@,
        }
    }

    /// Returns the text of the error.
    pub fn message(&self) -> (s: String)
        ensures
            s@ == self.text(),
    {
        match self {
            PyDataFusionError::ExecutionError(e) => joined("DataFusion error: ", e.as_str()),
            PyDataFusionError::ArrowError(e) => joined("Arrow error: ", e.as_str()),
            PyDataFusionError::PythonError(e) => joined("Python error ", e.as_str()),
            PyDataFusionError::Common(e) => e.clone(),
        }
    }

    /// Returns what is raised for the error: a Python exception passes through, and anything
    /// else becomes one with the error's text.
    pub fn raised(&self) -> (r: Raised)
        ensures
            match r {
                Raised::Same => self is PythonError,
                Raised::Exception(text) => !(self is PythonError) && text@ == self.text(),
            },
    {
        match self {
            PyDataFusionError::PythonError(_) => Raised::Same,
            _ => Raised::Exception(self.message()),
        }
    }
}

} // verus!
