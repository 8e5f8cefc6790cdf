use vstd::prelude::*;

verus! {

/// What can go wrong in the library's calls.
#[derive(Clone, Copy, Debug, PartialEq, Eq, Structural)]
pub enum MarkovError {
    /// The requested starting word was never seen as a source.
    UnknownSeed,
    /// Generation was asked of a generator that holds no table.
    UninitializedModel,
    /// The bytes are not the encoding of a table.
    Decode,
    /// The export bundle is malformed.
    Archive,
}

} // verus!
