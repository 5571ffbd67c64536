use vstd::prelude::*;

verus! {

/// The kinds of failure of the block and blob stores.
#[derive(Clone, Copy, Debug, PartialEq, Eq, Structural)]
pub enum StoreError {
    /// The underlying storage failed.
    Io,
    /// A block did not carry the expected format version header, or did
    /// not decrypt under the store's key.
    Decryption,
    /// The cipher could not encrypt a block.
    Encryption,
    /// A node block is malformed.
    NodeFormat,
    /// A block size is too small for the headers that must fit in it.
    BlockSizeTooSmall,
    /// A node that the tree refers to is missing from the store.
    MissingNode,
    /// A count does not fit in 64 bits.
    Overflow,
    /// No unused block id was found.
    IdSpaceExhausted,
}

} // verus!
