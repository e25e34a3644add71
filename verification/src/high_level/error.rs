//! Errors of the typed-view layer.

use vstd::prelude::*;

use crate::low_level;
use crate::low_level::AttributeKind;
use crate::low_level::AttributeName;

verus! {

/// What can go wrong while converting or reading a typed view.
#[derive(Debug, Clone, PartialEq, Eq)]
pub enum Error {
    /// A conversion found a header tag different from the expected tag.
    InvalidObject { expected: AttributeName, got: AttributeName },
    /// The project has no children, so there is nowhere to anchor an insertion.
    EmptyProject,
    /// A document-layer error, carried upward.
    LowLevel { source: low_level::error::Error },
    /// The expected attribute is missing.
    MissingAttribute { attribute: AttributeName },
    /// A named field held a scalar of the wrong kind.
    InvalidAttributeType { field: &'static str, expected: AttributeKind, found: AttributeKind },
}

} // verus!
