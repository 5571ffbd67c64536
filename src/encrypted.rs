use vstd::prelude::*;

use crate::block_id::BlockId;
use crate::block_store::{BlockStore, RemoveResult, TryCreateResult};
use crate::cipher::Cipher;
use crate::data::Data;
use crate::error::StoreError;

verus! {

/// The number of bytes of the format version header.
pub const FORMAT_VERSION_HEADER_LEN: usize = 2;

/// The header that starts every encrypted block: format version 1 as a
/// little-endian 16-bit integer.
pub open spec fn format_version_header() -> Seq<u8> {
    seq![1u8, 0u8]
}

/// Whether `raw` starts with the format version header.
pub open spec fn has_format_version_header(raw: Seq<u8>) -> bool {
    raw.len() >= FORMAT_VERSION_HEADER_LEN && raw.subrange(0, FORMAT_VERSION_HEADER_LEN as int)
        == format_version_header()
}

/// The plaintext held by the stored block `raw`: its bytes after the header,
/// decrypted. `None` where the header is missing or the rest is not
/// authentic under the cipher's key.
pub open spec fn encrypted_block_plaintext<C: Cipher>(cipher: &C, raw: Seq<u8>) -> Option<Seq<u8>> {
    if has_format_version_header(raw) {
        cipher.spec_decrypt(raw.subrange(FORMAT_VERSION_HEADER_LEN as int, raw.len() as int))
    } else {
        None
    }
}

/// The plaintext of `raw`, or the empty sequence where it has none; such a
/// block is corrupt, and loading it fails.
pub open spec fn decoded_block<C: Cipher>(cipher: &C, raw: Seq<u8>) -> Seq<u8> {
    match encrypted_block_plaintext(cipher, raw) {
        Some(p) => p,
        None => Seq::empty(),
    }
}

/// Round trip under encryption: a ciphertext of `p`, behind the format
/// version header, is a stored block whose plaintext is `p`.
pub proof fn lemma_round_trip<C: Cipher>(cipher: &C, p: Seq<u8>, ciphertext: Seq<u8>)
    requires
        cipher.spec_decrypt(ciphertext) == Some(p),
    ensures
        encrypted_block_plaintext(cipher, format_version_header() + ciphertext) == Some(p),
{
    let raw = format_version_header() + ciphertext;
    assert(raw.subrange(0, 2) =~= format_version_header());
    assert(raw.subrange(2, raw.len() as int) =~= ciphertext);
}

/// No block is accepted without the format version header.
pub proof fn lemma_header_required<C: Cipher>(cipher: &C, raw: Seq<u8>)
    requires
        !has_format_version_header(raw),
    ensures
        encrypted_block_plaintext(cipher, raw) is None,
{
}

/// Checks that `data` starts with the format version header and narrows it
/// to the bytes after the header.
pub fn _check_and_remove_header(data: Data) -> (r: Result<Data, StoreError>)
    requires
        data.wf(),
    ensures
        r is Ok <==> has_format_version_header(data@),
        r matches Ok(d) ==> {
            &&& d.wf()
            &&& d@ == data@.subrange(FORMAT_VERSION_HEADER_LEN as int, data@.len() as int)
            &&& d.spec_prefix_bytes() == data.spec_prefix_bytes() + FORMAT_VERSION_HEADER_LEN
        },
        r is Err ==> r == Err::<Data, StoreError>(StoreError::Decryption),
{
    let header: Vec<u8> = vec![1u8, 0u8];
    assert(header@ =~= format_version_header());
    if !data.starts_with(header.as_slice()) {
        return Err(StoreError::Decryption);
    }
    let mut data = data;
    let len = data.len();
    data.shrink_to_subregion(FORMAT_VERSION_HEADER_LEN, len);
    Ok(data)
}

/// Puts the format version header in front of `data`, in the bytes reserved
/// there.
pub fn _prepend_header(data: Data) -> (r: Data)
    requires
        data.wf(),
        data.spec_prefix_bytes() >= FORMAT_VERSION_HEADER_LEN,
    ensures
        r.wf(),
        r@ == format_version_header() + data@,
        r.spec_prefix_bytes() == data.spec_prefix_bytes() - FORMAT_VERSION_HEADER_LEN,
{
    let mut data = data;
    let ghost before = data@;
    let grown = data.grow_region_fail_if_reallocation_necessary(FORMAT_VERSION_HEADER_LEN, 0);
    assert(grown is Ok);
    let header: Vec<u8> = vec![1u8, 0u8];
    data.copy_from_slice_at(0, header.as_slice());
    assert(data@ =~= format_version_header() + before);
    data
}

/// A block store layer that encrypts each block of the store beneath it.
///
/// A stored block is the format version header followed by the ciphertext
/// of the plaintext block.
pub struct EncryptedBlockStore<C: Cipher, B: BlockStore> {
    underlying_block_store: B,
    cipher: C,
}

impl<C: Cipher, B: BlockStore> EncryptedBlockStore<C, B> {
    /// The store beneath.
    pub closed spec fn underlying(&self) -> B {
        self.underlying_block_store
    }

    /// The cipher used for every block.
    pub closed spec fn spec_cipher(&self) -> C {
        self.cipher
    }

    /// An encrypting layer over `underlying_block_store`.
    pub fn new(underlying_block_store: B, cipher: C) -> (r: Self)
        ensures
            r.underlying() == underlying_block_store,
            r.spec_cipher() == cipher,
    {
        EncryptedBlockStore { underlying_block_store, cipher }
    }

    /// Takes the layer apart into the store beneath and the cipher.
    pub fn into_parts(self) -> (r: (B, C))
        ensures
            r.0 == self.underlying(),
            r.1 == self.spec_cipher(),
    {
        (self.underlying_block_store, self.cipher)
    }

    /// The stored form of `plaintext`: the header, then its ciphertext.
    /// Fails only where the cipher fails.
    pub fn _encrypt(&self, plaintext: &[u8]) -> (r: Result<Data, StoreError>)
        ensures
            r matches Ok(raw) ==> {
                &&& raw.wf()
                &&& encrypted_block_plaintext(&self.spec_cipher(), raw@) == Some(plaintext@)
                &&& raw@.len() == FORMAT_VERSION_HEADER_LEN + plaintext@.len()
                    + self.spec_cipher().spec_ciphertext_overhead()
            },
            r is Err ==> r == Err::<Data, StoreError>(StoreError::Encryption),
            self.spec_cipher().spec_infallible() && plaintext@.len() + FORMAT_VERSION_HEADER_LEN
                + self.spec_cipher().spec_ciphertext_overhead() <= usize::MAX ==> r is Ok,
    {
        let ciphertext = match self.cipher.encrypt(plaintext) {
            Ok(c) => c,
            Err(_) => {
                return Err(StoreError::Encryption);
            },
        };
        if ciphertext.len() > usize::MAX - FORMAT_VERSION_HEADER_LEN {
            return Err(StoreError::Encryption);
        }
        let data = Data::copy_with_prefix(FORMAT_VERSION_HEADER_LEN, ciphertext.as_slice());
        let raw = _prepend_header(data);
        proof {
            lemma_round_trip(&self.cipher, plaintext@, ciphertext@);
        }
        Ok(raw)
    }

    /// The plaintext of the stored block `raw`; fails with a decryption
    /// error exactly where the header is missing or the ciphertext is not
    /// authentic.
    pub fn _decrypt(&self, raw: Data) -> (r: Result<Vec<u8>, StoreError>)
        requires
            raw.wf(),
        ensures
            match encrypted_block_plaintext(&self.spec_cipher(), raw@) {
                Some(p) => r matches Ok(v) && v@ == p,
                None => r == Err::<Vec<u8>, StoreError>(StoreError::Decryption),
            },
    {
        let ciphertext = _check_and_remove_header(raw)?;
        match self.cipher.decrypt(ciphertext.as_slice()) {
            Ok(p) => Ok(p),
            Err(_) => Err(StoreError::Decryption),
        }
    }
}

impl<C: Cipher, B: BlockStore> BlockStore for EncryptedBlockStore<C, B> {
    open spec fn wf(&self) -> bool {
        self.underlying().wf()
    }

    open spec fn blocks(&self) -> Map<BlockId, Seq<u8>> {
        self.underlying().blocks().map_values(|raw: Seq<u8>| decoded_block(&self.spec_cipher(), raw))
    }

    /// Reliable where the store beneath is, the cipher never fails, and a
    /// block beneath has room for the header and the cipher's overhead.
    open spec fn reliable(&self) -> bool {
        &&& self.underlying().reliable()
        &&& self.spec_cipher().spec_infallible()
        &&& FORMAT_VERSION_HEADER_LEN + self.spec_cipher().spec_ciphertext_overhead()
            <= self.underlying().spec_max_block_len()
        &&& FORMAT_VERSION_HEADER_LEN + self.spec_cipher().spec_ciphertext_overhead() <= usize::MAX
    }

    /// The longest plaintext whose stored form the store beneath is sure to
    /// take.
    open spec fn spec_max_block_len(&self) -> nat {
        let cap = if self.underlying().spec_max_block_len() <= usize::MAX {
            self.underlying().spec_max_block_len()
        } else {
            usize::MAX as nat
        };
        if FORMAT_VERSION_HEADER_LEN + self.spec_cipher().spec_ciphertext_overhead() <= cap {
            (cap - FORMAT_VERSION_HEADER_LEN - self.spec_cipher().spec_ciphertext_overhead()) as nat
        } else {
            0
        }
    }

    /// A stored block is corrupt where the store beneath cannot read it, or
    /// where it lacks the format version header or does not decrypt.
    open spec fn corrupt(&self, id: BlockId) -> bool {
        self.underlying().blocks().contains_key(id) && (self.underlying().corrupt(id)
            || encrypted_block_plaintext(&self.spec_cipher(), self.underlying().blocks()[id])
            is None)
    }

    open spec fn spec_block_size_from_physical(&self, physical: u64) -> Option<u64> {
        match self.underlying().spec_block_size_from_physical(physical) {
            Some(n) => if n >= FORMAT_VERSION_HEADER_LEN + self.spec_cipher().spec_ciphertext_overhead() {
                Some((n - FORMAT_VERSION_HEADER_LEN - self.spec_cipher().spec_ciphertext_overhead()) as u64)
            } else {
                None
            },
            None => None,
        }
    }

    proof fn lemma_blocks_finite(&self) {
        self.underlying().lemma_blocks_finite();
        assert(self.blocks().dom() =~= self.underlying().blocks().dom());
    }

    fn load(&self, id: &BlockId) -> (r: Result<Option<Vec<u8>>, StoreError>) {
        match self.underlying_block_store.load(id)? {
            None => Ok(None),
            Some(raw) => {
                let p = self._decrypt(Data::from_vec(raw))?;
                Ok(Some(p))
            },
        }
    }

    fn contains_block(&self, id: &BlockId) -> (r: Result<bool, StoreError>) {
        self.underlying_block_store.contains_block(id)
    }

    fn num_blocks(&self) -> (r: Result<u64, StoreError>) {
        assert(self.blocks().dom() =~= self.underlying().blocks().dom());
        self.underlying_block_store.num_blocks()
    }

    fn estimate_num_free_bytes(&self) -> (r: Result<u64, StoreError>) {
        self.underlying_block_store.estimate_num_free_bytes()
    }

    fn block_size_from_physical_block_size(&self, physical: u64) -> (r: Result<u64, StoreError>) {
        let inner = self.underlying_block_store.block_size_from_physical_block_size(physical)?;
        let overhead = self.cipher.ciphertext_overhead();
        if inner < FORMAT_VERSION_HEADER_LEN as u64 {
            return Err(StoreError::BlockSizeTooSmall);
        }
        let ciphertext_size = inner - FORMAT_VERSION_HEADER_LEN as u64;
        if ciphertext_size < overhead as u64 {
            return Err(StoreError::BlockSizeTooSmall);
        }
        Ok(ciphertext_size - overhead as u64)
    }

    fn all_blocks(&self) -> (r: Result<Vec<BlockId>, StoreError>) {
        assert(self.blocks().dom() =~= self.underlying().blocks().dom());
        self.underlying_block_store.all_blocks()
    }

    fn try_create(&mut self, id: &BlockId, data: &[u8]) -> (r: Result<TryCreateResult, StoreError>) {
        let ghost before = self.blocks();
        let raw = self._encrypt(data)?;
        let r = self.underlying_block_store.try_create(id, raw.as_slice());
        assert(self.blocks() =~= before.insert(*id, data@) || !(r matches Ok(
            TryCreateResult::SuccessfullyCreated,
        )));
        assert(self.blocks() =~= before || r matches Ok(TryCreateResult::SuccessfullyCreated));
        r
    }

    fn store(&mut self, id: &BlockId, data: &[u8]) -> (r: Result<(), StoreError>) {
        let ghost before = self.blocks();
        let raw = self._encrypt(data)?;
        let r = self.underlying_block_store.store(id, raw.as_slice());
        assert(self.blocks() =~= before.insert(*id, data@) || r is Err);
        assert(self.blocks() =~= before || r is Ok);
        r
    }

    fn remove(&mut self, id: &BlockId) -> (r: Result<RemoveResult, StoreError>) {
        let ghost before = self.blocks();
        let r = self.underlying_block_store.remove(id);
        assert(self.blocks() =~= before.remove(*id) || r is Err);
        assert(self.blocks() =~= before || r is Ok);
        r
    }
}

} // verus!
