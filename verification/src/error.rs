//! The failures the catalog reports to its callers.

use vstd::prelude::*;

verus! {

/// A typed failure of a catalog operation.  Lookups that miss report
/// `NotFound`; a source path that does not name an existing PDF is
/// `InvalidSource`; a value that must be fresh but is already present is
/// `DuplicateValue`; a tag value that cannot be written into documents
/// (empty, untrimmed, or containing a comma) is `InvalidValue`; and
/// `IdExhausted` means the fixed-width id space has no fresh id left.
#[derive(Clone, Copy, Debug, PartialEq, Eq, Structural)]
pub enum CatalogError {
    NotFound,
    InvalidSource,
    DuplicateValue,
    InvalidValue,
    IdExhausted,
}

/// The message text of each error.
pub open spec fn spec_message(e: CatalogError) -> Seq<char> {
    match e {
        CatalogError::NotFound => "record not found"@,
        CatalogError::InvalidSource => "path does not reference a valid PDF"@,
        CatalogError::DuplicateValue => "value already exists"@,
        CatalogError::InvalidValue => "tag value is empty, untrimmed, or contains a comma"@,
        CatalogError::IdExhausted => "no fresh id is left"@,
    }
}

impl CatalogError {
    /// A short description of the failure.
    pub fn message(&self) -> (r: &'static str)
        ensures
            r@ == spec_message(*self),
    {
        match self {
            CatalogError::NotFound => "record not found",
            CatalogError::InvalidSource => "path does not reference a valid PDF",
            CatalogError::DuplicateValue => "value already exists",
            CatalogError::InvalidValue => "tag value is empty, untrimmed, or contains a comma",
            CatalogError::IdExhausted => "no fresh id is left",
        }
    }
}

} // verus!
