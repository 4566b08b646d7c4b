//! What can go wrong while a document is turned into load records.

use vstd::prelude::*;

verus! {

/// Why a document could not be turned into load records.
#[derive(Clone, Copy, Debug, PartialEq, Eq, Structural)]
pub enum ExtractError {
    /// A section marker, an attribute or the quote that ends an attribute's
    /// value is missing.
    MalformedDocument,
    /// A regulation power is present and not empty, but is no decimal number.
    InvalidNumber,
}

} // verus!
