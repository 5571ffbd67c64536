use vstd::prelude::*;

verus! {

/// The number of bytes in a block id.
pub const BLOCK_ID_NUM_BYTES: usize = 16;

/// An opaque 16-byte identifier naming one block in a store.
///
/// The bytes are held as one little-endian 128-bit integer, so that ids
/// compare and hash byte-wise.
#[derive(Clone, Copy, Debug, PartialEq, Eq, Structural, Hash)]
pub struct BlockId {
    pub value: u128,
}

/// Relies on std's `RandomState::new`: each new state carries fresh random
/// keys. Nothing is promised of the keys.
#[verifier::external_body]
fn new_random_state() -> std::collections::hash_map::RandomState {
    std::collections::hash_map::RandomState::new()
}

/// Relies on std's `BuildHasher::hash_one`: hashes `x` under the state's
/// keys. Nothing is promised of the result.
#[verifier::external_body]
fn hash_one_under(state: &std::collections::hash_map::RandomState, x: u64) -> u64 {
    std::hash::BuildHasher::hash_one(state, x)
}

impl BlockId {
    /// The id whose little-endian integer value is `value`.
    pub fn from_u128(value: u128) -> (r: BlockId)
        ensures
            r.value == value,
    {
        BlockId { value }
    }

    /// The id whose little-endian integer value is `high * 2^64 + low`.
    pub fn from_halves(high: u64, low: u64) -> (r: BlockId)
        ensures
            r.value == high * 0x1_0000_0000_0000_0000 + low,
    {
        let value: u128 = high as u128 * 0x1_0000_0000_0000_0000u128 + low as u128;
        BlockId { value }
    }

    /// The id made of the 16 bytes of `bytes`.
    pub fn from_bytes(bytes: &[u8]) -> (r: BlockId)
        requires
            bytes@.len() == BLOCK_ID_NUM_BYTES,
        ensures
            r.value == vstd::bytes::spec_u128_from_le_bytes(bytes@),
    {
        BlockId { value: vstd::bytes::u128_from_le_bytes(bytes) }
    }

    /// The 16 bytes of the id.
    pub fn to_bytes(&self) -> (r: Vec<u8>)
        ensures
            r@ == vstd::bytes::spec_u128_to_le_bytes(self.value),
            r@.len() == BLOCK_ID_NUM_BYTES,
    {
        vstd::bytes::u128_to_le_bytes(self.value)
    }

    /// A freshly drawn random id.
    pub fn new_random() -> (r: BlockId) {
        let state = new_random_state();
        let high = hash_one_under(&state, 0);
        let low = hash_one_under(&state, 1);
        BlockId::from_halves(high, low)
    }
}

/// Writing an id as bytes and reading it back gives the same id.
pub proof fn lemma_bytes_round_trip(id: BlockId)
    ensures
        vstd::bytes::spec_u128_to_le_bytes(id.value).len() == BLOCK_ID_NUM_BYTES,
        vstd::bytes::spec_u128_from_le_bytes(vstd::bytes::spec_u128_to_le_bytes(id.value))
            == id.value,
{
    vstd::bytes::lemma_auto_spec_u128_to_from_le_bytes();
    assert(vstd::bytes::spec_u128_to_le_bytes(id.value).len() == 16);
}

} // verus!
