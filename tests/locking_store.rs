use blockstore::block_id::BlockId;
use blockstore::block_store::{BlockStore, InMemoryBlockStore, RemoveResult, TryCreateResult};
use blockstore::encrypted::EncryptedBlockStore;
use blockstore::fake_cipher::FakeAuthenticatedCipher;
use blockstore::locking::LockingBlockStore;

fn id(n: u128) -> BlockId {
    BlockId::from_u128(n)
}

fn base_with(blocks: &[(u128, &[u8])]) -> InMemoryBlockStore {
    let mut s = InMemoryBlockStore::new();
    for (n, d) in blocks {
        s.store(&id(*n), d).unwrap();
    }
    s
}

#[test]
fn load_reads_through_and_caches() {
    let mut s = LockingBlockStore::new(base_with(&[(1, b"one")]));
    let b = s.load(id(1)).unwrap().unwrap();
    assert_eq!(*b.block_id(), id(1));
    assert_eq!(b.data(), b"one");
    let again = s.load(id(1)).unwrap().unwrap();
    assert_eq!(again.data(), b.data());
    assert!(s.load(id(2)).unwrap().is_none());
}

#[test]
fn try_create_stays_in_cache_until_flushed() {
    let mut s = LockingBlockStore::new(base_with(&[(1, b"one")]));
    assert_eq!(s.try_create(&id(2), b"two"), Ok(TryCreateResult::SuccessfullyCreated));
    assert_eq!(
        s.try_create(&id(1), b"x"),
        Ok(TryCreateResult::NotCreatedBecauseBlockIdAlreadyExists)
    );
    assert_eq!(
        s.try_create(&id(2), b"x"),
        Ok(TryCreateResult::NotCreatedBecauseBlockIdAlreadyExists)
    );
    assert_eq!(s.num_blocks(), Ok(2));
    assert_eq!(s.load(id(2)).unwrap().unwrap().data(), b"two");
    s.flush_block(&id(2)).unwrap();
    assert_eq!(s.num_blocks(), Ok(2));
    let base = s.into_base_store().unwrap();
    assert_eq!(base.load(&id(2)), Ok(Some(b"two".to_vec())));
}

#[test]
fn eviction_writes_dirty_blocks_beneath() {
    let mut s = LockingBlockStore::new(InMemoryBlockStore::new());
    assert_eq!(s.try_create(&id(5), b"five"), Ok(TryCreateResult::SuccessfullyCreated));
    s.evict(&id(5)).unwrap();
    let base = s.into_base_store().unwrap();
    assert_eq!(base.load(&id(5)), Ok(Some(b"five".to_vec())));
    let mut fresh = LockingBlockStore::new(base);
    assert_eq!(fresh.load(id(5)).unwrap().unwrap().data(), b"five");
}

#[test]
fn overwrite_replaces_dirty_and_stored_blocks() {
    let mut s = LockingBlockStore::new(base_with(&[(1, b"one")]));
    s.overwrite(&id(1), b"uno").unwrap();
    s.overwrite(&id(3), b"tres").unwrap();
    s.overwrite(&id(3), b"drei").unwrap();
    assert_eq!(s.num_blocks(), Ok(2));
    assert_eq!(s.load(id(1)).unwrap().unwrap().data(), b"uno");
    assert_eq!(s.load(id(3)).unwrap().unwrap().data(), b"drei");
    let base = s.into_base_store().unwrap();
    assert_eq!(base.load(&id(1)), Ok(Some(b"uno".to_vec())));
    assert_eq!(base.load(&id(3)), Ok(Some(b"drei".to_vec())));
}

#[test]
fn remove_from_cache_and_beneath() {
    let mut s = LockingBlockStore::new(base_with(&[(1, b"one"), (2, b"two")]));
    s.try_create(&id(3), b"three").unwrap();
    let _ = s.load(id(2)).unwrap();
    assert_eq!(s.num_blocks(), Ok(3));
    assert_eq!(s.remove(&id(1)), Ok(RemoveResult::SuccessfullyRemoved));
    assert_eq!(s.remove(&id(2)), Ok(RemoveResult::SuccessfullyRemoved));
    assert_eq!(s.remove(&id(3)), Ok(RemoveResult::SuccessfullyRemoved));
    assert_eq!(s.remove(&id(3)), Ok(RemoveResult::NotRemovedBecauseItDoesntExist));
    assert_eq!(s.num_blocks(), Ok(0));
    for n in 1..4 {
        assert!(s.load(id(n)).unwrap().is_none());
    }
    assert!(s.all_blocks().unwrap().is_empty());
    let base = s.into_base_store().unwrap();
    assert_eq!(base.num_blocks(), Ok(0));
}

#[test]
fn all_blocks_lists_cached_and_stored_once() {
    let mut s = LockingBlockStore::new(base_with(&[(1, b"a"), (2, b"b")]));
    let _ = s.load(id(1)).unwrap();
    s.try_create(&id(3), b"c").unwrap();
    let all = s.all_blocks().unwrap();
    assert_eq!(all.len(), 3);
    let mut values: Vec<u128> = all.iter().map(|b| b.value).collect();
    values.sort();
    assert_eq!(values, vec![1, 2, 3]);
    assert_eq!(s.num_blocks(), Ok(3));
}

#[test]
fn create_draws_a_fresh_id() {
    let mut s = LockingBlockStore::new(InMemoryBlockStore::new());
    let a = s.create(b"x").unwrap();
    let b = s.create(b"y").unwrap();
    assert_ne!(a, b);
    assert_eq!(s.load(a).unwrap().unwrap().data(), b"x");
    assert_eq!(s.load(b).unwrap().unwrap().data(), b"y");
    assert_eq!(s.num_blocks(), Ok(2));
}

#[test]
fn released_block_changes_are_kept() {
    let mut s = LockingBlockStore::new(base_with(&[(1, b"abc")]));
    let mut b = s.load(id(1)).unwrap().unwrap();
    b.data_mut()[0] = b'x';
    s.release(b).unwrap();
    assert_eq!(s.load(id(1)).unwrap().unwrap().data(), b"xbc");
    let mut b = s.load(id(1)).unwrap().unwrap();
    b.resize(5);
    assert_eq!(b.data(), b"xbc\0\0");
    s.release(b).unwrap();
    let unchanged = s.load(id(1)).unwrap().unwrap();
    s.release(unchanged).unwrap();
    let base = s.into_base_store().unwrap();
    assert_eq!(base.load(&id(1)), Ok(Some(b"xbc\0\0".to_vec())));
}

#[test]
fn locking_over_encrypted_round_trip() {
    let enc = EncryptedBlockStore::new(InMemoryBlockStore::new(), FakeAuthenticatedCipher::new(3));
    let mut s = LockingBlockStore::new(enc);
    assert_eq!(s.block_size_from_physical_block_size(64), Ok(61));
    assert_eq!(s.estimate_num_free_bytes(), Ok(u64::MAX));
    let a = s.create(b"plain").unwrap();
    let enc = s.into_base_store().unwrap();
    assert_eq!(enc.load(&a), Ok(Some(b"plain".to_vec())));
    let (inner, _) = enc.into_parts();
    let raw = inner.load(&a).unwrap().unwrap();
    assert_eq!(&raw[..2], &[1, 0]);
}

#[test]
fn evict_all_empties_the_cache() {
    let mut s = LockingBlockStore::new(InMemoryBlockStore::new());
    s.try_create(&id(1), b"1").unwrap();
    s.try_create(&id(2), b"2").unwrap();
    s.evict_all().unwrap();
    assert_eq!(s.num_blocks(), Ok(2));
    let base = s.into_base_store().unwrap();
    assert_eq!(base.num_blocks(), Ok(2));
}

#[test]
fn releasing_a_removed_block_keeps_it_removed() {
    let mut s = LockingBlockStore::new(base_with(&[(1, b"abc")]));
    let mut b = s.load(id(1)).unwrap().unwrap();
    b.data_mut()[0] = b'z';
    assert_eq!(s.remove(&id(1)), Ok(RemoveResult::SuccessfullyRemoved));
    s.release(b).unwrap();
    assert!(s.load(id(1)).unwrap().is_none());
    assert_eq!(s.num_blocks(), Ok(0));
}

#[test]
fn flush_of_a_clean_block_keeps_it_beneath() {
    let mut s = LockingBlockStore::new(base_with(&[(1, b"abc")]));
    let _ = s.load(id(1)).unwrap();
    s.flush_block(&id(1)).unwrap();
    let base = s.into_base_store().unwrap();
    assert_eq!(base.load(&id(1)), Ok(Some(b"abc".to_vec())));
}
