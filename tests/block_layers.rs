use blockstore::block_id::BlockId;
use blockstore::block_store::{BlockStore, InMemoryBlockStore, RemoveResult, TryCreateResult};
use blockstore::cipher::Cipher;
use blockstore::data::{Data, DataError};
use blockstore::encrypted::{_check_and_remove_header, _prepend_header, EncryptedBlockStore};
use blockstore::error::StoreError;
use blockstore::fake_cipher::FakeAuthenticatedCipher;

fn id(n: u128) -> BlockId {
    BlockId::from_u128(n)
}

#[test]
fn block_id_bytes_round_trip() {
    let b = id(0x0102_0304_0506_0708_090a_0b0c_0d0e_0f10);
    let bytes = b.to_bytes();
    assert_eq!(bytes.len(), 16);
    assert_eq!(bytes[0], 0x10);
    assert_eq!(bytes[15], 0x01);
    assert_eq!(BlockId::from_bytes(&bytes), b);
}

#[test]
fn block_id_from_halves() {
    assert_eq!(BlockId::from_halves(1, 2).value, (1u128 << 64) + 2);
}

#[test]
fn random_block_ids_differ() {
    let a = BlockId::new_random();
    let b = BlockId::new_random();
    assert_ne!(a, b);
}

#[test]
fn data_shrink_and_grow_without_reallocation() {
    let mut d = Data::from_vec(vec![1, 2, 3, 4, 5]);
    assert_eq!(d.prefix_bytes(), 0);
    d.shrink_to_subregion(2, 4);
    assert_eq!(d.as_slice(), &[3, 4]);
    assert_eq!(d.prefix_bytes(), 2);
    assert_eq!(d.suffix_bytes(), 1);
    assert_eq!(d.grow_region_fail_if_reallocation_necessary(1, 1), Ok(()));
    assert_eq!(d.as_slice(), &[2, 3, 4, 5]);
    assert_eq!(
        d.grow_region_fail_if_reallocation_necessary(2, 0),
        Err(DataError::NotEnoughReservedBytes)
    );
    assert_eq!(d.as_slice(), &[2, 3, 4, 5]);
}

#[test]
fn data_allocate_and_copy() {
    let mut d = Data::allocate(3, 4, 2);
    assert_eq!(d.as_slice(), &[0, 0, 0, 0]);
    assert_eq!(d.prefix_bytes(), 3);
    assert_eq!(d.suffix_bytes(), 2);
    d.copy_from_slice_at(1, &[7, 8]);
    assert_eq!(d.to_vec(), vec![0, 7, 8, 0]);
    assert!(d.starts_with(&[0, 7]));
    assert!(!d.starts_with(&[7]));
    assert!(!d.starts_with(&[0, 7, 8, 0, 0]));
}

#[test]
fn header_is_prepended_and_removed() {
    let d = Data::copy_with_prefix(2, &[9, 9, 9]);
    let with_header = _prepend_header(d);
    assert_eq!(with_header.as_slice(), &[1, 0, 9, 9, 9]);
    let stripped = _check_and_remove_header(with_header).unwrap();
    assert_eq!(stripped.as_slice(), &[9, 9, 9]);
}

#[test]
fn header_mismatch_is_rejected() {
    let d = Data::from_vec(vec![2, 0, 9]);
    assert!(matches!(_check_and_remove_header(d), Err(StoreError::Decryption)));
    let short = Data::from_vec(vec![1]);
    assert!(matches!(_check_and_remove_header(short), Err(StoreError::Decryption)));
}

#[test]
fn fake_cipher_round_trip_and_tamper() {
    let c = FakeAuthenticatedCipher::new(0x5a);
    assert_eq!(c.ciphertext_overhead(), 1);
    let ct = c.encrypt(b"hello").unwrap();
    assert_eq!(ct.len(), 6);
    assert_ne!(&ct[1..], b"hello");
    assert_eq!(c.decrypt(&ct).unwrap(), b"hello".to_vec());
    let mut bad = ct.clone();
    bad[3] ^= 1;
    assert!(c.decrypt(&bad).is_err());
    let other = FakeAuthenticatedCipher::new(0x11);
    assert!(other.decrypt(&ct).is_err());
}

#[test]
fn in_memory_store_operations() {
    let mut s = InMemoryBlockStore::new();
    assert_eq!(s.num_blocks(), Ok(0));
    assert_eq!(s.try_create(&id(1), &[1, 2]), Ok(TryCreateResult::SuccessfullyCreated));
    assert_eq!(
        s.try_create(&id(1), &[3]),
        Ok(TryCreateResult::NotCreatedBecauseBlockIdAlreadyExists)
    );
    assert_eq!(s.load(&id(1)), Ok(Some(vec![1, 2])));
    s.store(&id(1), &[5]).unwrap();
    s.store(&id(2), &[6]).unwrap();
    assert_eq!(s.load(&id(1)), Ok(Some(vec![5])));
    assert_eq!(s.num_blocks(), Ok(2));
    let mut all = s.all_blocks().unwrap();
    all.sort_by_key(|b| b.value);
    assert_eq!(all, vec![id(1), id(2)]);
    assert_eq!(s.remove(&id(1)), Ok(RemoveResult::SuccessfullyRemoved));
    assert_eq!(s.remove(&id(1)), Ok(RemoveResult::NotRemovedBecauseItDoesntExist));
    assert_eq!(s.load(&id(1)), Ok(None));
    assert_eq!(s.contains_block(&id(2)), Ok(true));
    assert_eq!(s.block_size_from_physical_block_size(100), Ok(100));
}

#[test]
fn encrypted_store_round_trip() {
    let mut s = EncryptedBlockStore::new(InMemoryBlockStore::new(), FakeAuthenticatedCipher::new(7));
    s.store(&id(1), b"some plaintext").unwrap();
    assert_eq!(s.load(&id(1)), Ok(Some(b"some plaintext".to_vec())));
    assert_eq!(s.try_create(&id(2), b""), Ok(TryCreateResult::SuccessfullyCreated));
    assert_eq!(s.load(&id(2)), Ok(Some(Vec::new())));
    assert_eq!(s.num_blocks(), Ok(2));
    let (inner, _) = s.into_parts();
    let raw = inner.load(&id(1)).unwrap().unwrap();
    assert_eq!(raw.len(), 2 + 1 + 14);
    assert_eq!(&raw[..2], &[1, 0]);
    assert_ne!(&raw[3..], b"some plaintext");
}

#[test]
fn encrypted_store_block_size() {
    let s = EncryptedBlockStore::new(InMemoryBlockStore::new(), FakeAuthenticatedCipher::new(7));
    assert_eq!(s.block_size_from_physical_block_size(100), Ok(97));
    assert_eq!(s.block_size_from_physical_block_size(3), Ok(0));
    assert_eq!(s.block_size_from_physical_block_size(2), Err(StoreError::BlockSizeTooSmall));
    assert_eq!(s.block_size_from_physical_block_size(0), Err(StoreError::BlockSizeTooSmall));
}

#[test]
fn tampered_ciphertext_fails_to_load() {
    let mut s = EncryptedBlockStore::new(InMemoryBlockStore::new(), FakeAuthenticatedCipher::new(7));
    s.store(&id(1), b"secret").unwrap();
    let (mut inner, cipher) = s.into_parts();
    let mut raw = inner.load(&id(1)).unwrap().unwrap();
    raw[4] ^= 0x40;
    inner.store(&id(1), &raw).unwrap();
    let s = EncryptedBlockStore::new(inner, cipher);
    assert_eq!(s.load(&id(1)), Err(StoreError::Decryption));
}

#[test]
fn block_without_header_fails_to_load() {
    let mut inner = InMemoryBlockStore::new();
    let cipher = FakeAuthenticatedCipher::new(7);
    let ct = cipher.encrypt(b"abc").unwrap();
    inner.store(&id(1), &ct).unwrap();
    let s = EncryptedBlockStore::new(inner, cipher);
    assert_eq!(s.load(&id(1)), Err(StoreError::Decryption));
}

#[test]
fn wrong_key_fails_to_load() {
    let mut s = EncryptedBlockStore::new(InMemoryBlockStore::new(), FakeAuthenticatedCipher::new(7));
    s.store(&id(1), b"secret").unwrap();
    let (inner, _) = s.into_parts();
    let s = EncryptedBlockStore::new(inner, FakeAuthenticatedCipher::new(8));
    assert_eq!(s.load(&id(1)), Err(StoreError::Decryption));
}
