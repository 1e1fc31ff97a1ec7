use vstd::prelude::*;

verus! {

/// Errors surfaced by the unit store and the tag codecs.
#[derive(Clone, Copy, Debug, PartialEq, Eq, Structural)]
pub enum BranchyError {
    /// A referenced record is absent from the ledger.
    NotFound,
    /// A value is present but does not decode into the expected shape.
    Malformed,
    /// An index-link target cannot be interpreted as a content address.
    HashConversionError,
    /// An index-link tag cannot be split into its state and flags parts,
    /// or an attachment tag cannot be decoded.
    BadLinkTag,
    /// The underlying ledger rejected a write.
    StoreError,
}

} // verus!
