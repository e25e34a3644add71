//! Errors of the document layer: parse failures, sink failures, and the
//! failures of named-parameter access on an object.

use vstd::prelude::*;

verus! {

/// What can go wrong while parsing a document or reading a named parameter.
#[derive(Debug, Clone, PartialEq, Eq)]
pub enum Error {
    /// Writing a value into the output sink failed.
    WriteError,
    /// Writing indentation into the output sink failed.
    WriteWhitespaceError,
    /// No parse alternative matched; the report describes the failure.
    ParseError { report: String },
    /// The object has no line with the requested name.
    ObjectNoSuchParam { param: String },
    /// A line was expected to carry `expected` values but carries `found`.
    BadParamCount { expected: usize, found: usize },
}

} // verus!
