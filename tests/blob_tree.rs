use blockstore::blobstore::{BlobId, BlobStoreOnBlocks};
use blockstore::data_tree::DataTreeStore;
use blockstore::block_id::BlockId;
use blockstore::block_store::{InMemoryBlockStore, RemoveResult};
use blockstore::encrypted::EncryptedBlockStore;
use blockstore::error::StoreError;
use blockstore::fake_cipher::FakeAuthenticatedCipher;
use blockstore::locking::LockingBlockStore;
use blockstore::node::{decode, encode_inner, encode_leaf, NodeContent};

type Base = EncryptedBlockStore<FakeAuthenticatedCipher, InMemoryBlockStore>;

/// A blob store whose node blocks hold `node_block_size` bytes: the
/// physical size adds the format header and the cipher's tag byte.
fn blob_store(node_block_size: u32) -> BlobStoreOnBlocks<Base> {
    let base = EncryptedBlockStore::new(InMemoryBlockStore::new(), FakeAuthenticatedCipher::new(42));
    BlobStoreOnBlocks::new(LockingBlockStore::new(base), node_block_size + 3).unwrap()
}

#[test]
fn leaf_node_codec_round_trip() {
    let bytes = encode_leaf(72, b"abc");
    assert_eq!(bytes.len(), 72);
    assert_eq!(&bytes[..8], &[0, 0, 0, 0, 3, 0, 0, 0]);
    match decode(72, &bytes) {
        Ok(NodeContent::Leaf(d)) => assert_eq!(d, b"abc".to_vec()),
        _ => panic!("expected a leaf"),
    }
}

#[test]
fn inner_node_codec_round_trip() {
    let children = vec![BlockId::from_u128(7), BlockId::from_u128(u128::MAX)];
    let bytes = encode_inner(72, 2, &children);
    assert_eq!(bytes.len(), 72);
    assert_eq!(&bytes[..8], &[0, 0, 1, 2, 2, 0, 0, 0]);
    match decode(72, &bytes) {
        Ok(NodeContent::Inner(depth, c)) => {
            assert_eq!(depth, 2);
            assert_eq!(c, children);
        }
        _ => panic!("expected an inner node"),
    }
}

#[test]
fn malformed_nodes_are_rejected() {
    let mut bytes = encode_leaf(72, b"abc");
    bytes[0] = 9;
    assert!(matches!(decode(72, &bytes), Err(StoreError::NodeFormat)));
    let mut bytes = encode_leaf(72, b"abc");
    bytes[3] = 1;
    assert!(matches!(decode(72, &bytes), Err(StoreError::NodeFormat)));
    let bytes = encode_leaf(72, b"abc");
    assert!(matches!(decode(80, &bytes), Err(StoreError::NodeFormat)));
    let mut bytes = encode_inner(72, 1, &[BlockId::from_u128(1)]);
    bytes[4] = 5;
    assert!(matches!(decode(72, &bytes), Err(StoreError::NodeFormat)));
}

#[test]
fn too_small_block_size_is_rejected() {
    let base = EncryptedBlockStore::new(InMemoryBlockStore::new(), FakeAuthenticatedCipher::new(1));
    let r = BlobStoreOnBlocks::new(LockingBlockStore::new(base), 42);
    assert!(matches!(r, Err(StoreError::BlockSizeTooSmall)));
}

#[test]
fn empty_blob_round_trip() {
    let mut s = blob_store(72);
    let b = s.create().unwrap();
    assert_eq!(s.num_bytes(&b), Ok(0));
    assert_eq!(s.read(&b, 0, 10), Ok(Vec::new()));
    let base = s.into_base_store().unwrap();
    let mut s = BlobStoreOnBlocks::new(LockingBlockStore::new(base), 75).unwrap();
    assert_eq!(s.load(&b), Ok(Some(b)));
    assert_eq!(s.num_bytes(&b), Ok(0));
    assert_eq!(s.read(&b, 0, 10), Ok(Vec::new()));
}

#[test]
fn single_block_write_and_read() {
    let mut s = blob_store(1024);
    assert_eq!(s.virtual_block_size_bytes(), 1016);
    let b = s.create().unwrap();
    s.write(&b, 5, b"hello world").unwrap();
    assert_eq!(s.num_bytes(&b), Ok(16));
    assert_eq!(s.read(&b, 0, 16), Ok(b"\0\0\0\0\0hello world".to_vec()));
    assert_eq!(s.depth(&b), Ok(0));
    assert_eq!(s.num_leaves(&b), Ok(1));
    assert_eq!(s.num_nodes(), Ok(1));
}

#[test]
fn growth_across_depth_boundary() {
    let mut s = blob_store(72);
    assert_eq!(s.virtual_block_size_bytes(), 64);
    let b = s.create().unwrap();
    s.write(&b, 0, &[0xAB; 512]).unwrap();
    assert_eq!(s.depth(&b), Ok(2));
    assert_eq!(s.num_leaves(&b), Ok(8));
    assert_eq!(s.num_bytes(&b), Ok(512));
    assert_eq!(s.num_nodes(), Ok(11));
    assert_eq!(s.read(&b, 0, 512), Ok(vec![0xAB; 512]));
}

#[test]
fn shrink_collapses_the_root() {
    let mut s = blob_store(72);
    let b = s.create().unwrap();
    s.write(&b, 0, &[0xAB; 512]).unwrap();
    let before = s.num_nodes().unwrap();
    s.resize(&b, 64).unwrap();
    assert_eq!(s.depth(&b), Ok(0));
    assert_eq!(s.num_leaves(&b), Ok(1));
    assert_eq!(s.num_bytes(&b), Ok(64));
    assert_eq!(s.read(&b, 0, 100), Ok(vec![0xAB; 64]));
    assert_eq!(before - s.num_nodes().unwrap(), 10);
    let base = s.into_base_store().unwrap();
    assert_eq!(blockstore::block_store::BlockStore::num_blocks(&base), Ok(1));
}

#[test]
fn write_then_read_returns_the_data() {
    let mut s = blob_store(72);
    let b = s.create().unwrap();
    s.write(&b, 0, &[1u8; 300]).unwrap();
    let data: Vec<u8> = (0..200u32).map(|i| (i % 251) as u8).collect();
    s.write(&b, 50, &data).unwrap();
    assert_eq!(s.read(&b, 50, 200), Ok(data.clone()));
    assert_eq!(s.read(&b, 0, 50), Ok(vec![1u8; 50]));
    assert_eq!(s.read(&b, 250, 50), Ok(vec![1u8; 50]));
    assert_eq!(s.num_bytes(&b), Ok(300));
}

#[test]
fn num_bytes_follows_the_furthest_write() {
    let mut s = blob_store(72);
    let b = s.create().unwrap();
    s.write(&b, 100, b"abc").unwrap();
    assert_eq!(s.num_bytes(&b), Ok(103));
    s.write(&b, 10, b"xy").unwrap();
    assert_eq!(s.num_bytes(&b), Ok(103));
    s.write(&b, 1000, b"z").unwrap();
    assert_eq!(s.num_bytes(&b), Ok(1001));
    assert_eq!(s.read(&b, 998, 10), Ok(b"\0\0z".to_vec()));
    s.resize(&b, 500).unwrap();
    assert_eq!(s.num_bytes(&b), Ok(500));
}

#[test]
fn resize_twice_keeps_the_common_prefix() {
    let mut s = blob_store(72);
    let b = s.create().unwrap();
    let data: Vec<u8> = (0..700u32).map(|i| (i % 256) as u8).collect();
    s.write(&b, 0, &data).unwrap();
    s.resize(&b, 130).unwrap();
    s.resize(&b, 900).unwrap();
    assert_eq!(s.num_bytes(&b), Ok(900));
    assert_eq!(s.read(&b, 0, 130), Ok(data[..130].to_vec()));
    assert_eq!(s.read(&b, 130, 770), Ok(vec![0u8; 770]));
    s.resize(&b, 0).unwrap();
    assert_eq!(s.num_bytes(&b), Ok(0));
    assert_eq!(s.depth(&b), Ok(0));
}

#[test]
fn tree_shape_stays_balanced() {
    let mut s = blob_store(72);
    let b = s.create().unwrap();
    for (size, leaves, depth) in [(64u64, 1u64, 0u8), (65, 2, 1), (256, 4, 1), (257, 5, 2), (1024, 16, 2), (1025, 17, 3), (300, 5, 2), (10, 1, 0)] {
        s.resize(&b, size).unwrap();
        assert_eq!(s.num_bytes(&b), Ok(size));
        assert_eq!(s.num_leaves(&b), Ok(leaves));
        assert_eq!(s.depth(&b), Ok(depth));
    }
}

#[test]
fn remove_blob_deletes_every_node() {
    let mut s = blob_store(72);
    let keep = s.create().unwrap();
    let b = s.create().unwrap();
    s.write(&b, 0, &[5u8; 600]).unwrap();
    assert!(s.num_nodes().unwrap() > 2);
    assert_eq!(s.remove_by_id(&b), Ok(RemoveResult::SuccessfullyRemoved));
    assert_eq!(s.num_nodes(), Ok(1));
    assert_eq!(s.load(&b), Ok(None));
    assert_eq!(s.remove_by_id(&b), Ok(RemoveResult::NotRemovedBecauseItDoesntExist));
    assert_eq!(s.load(&keep), Ok(Some(keep)));
}

#[test]
fn unknown_blob_does_not_load() {
    let mut s = blob_store(72);
    let missing = BlobId { root: BlockId::from_u128(99) };
    assert_eq!(s.load(&missing), Ok(None));
}

#[test]
fn all_leaves_lists_leaves_in_position_order() {
    let base = EncryptedBlockStore::new(InMemoryBlockStore::new(), FakeAuthenticatedCipher::new(9));
    let mut t = DataTreeStore::new(LockingBlockStore::new(base), 75).unwrap();
    let root = t.create_tree().unwrap();
    assert_eq!(t.all_leaves(&root).unwrap(), vec![root]);
    let data: Vec<u8> = (0..600u32).map(|i| (i / 64) as u8).collect();
    t.write_bytes(&root, 0, &data).unwrap();
    let leaves = t.all_leaves(&root).unwrap();
    assert_eq!(leaves.len(), 10);
    let mut seen = leaves.clone();
    seen.sort_by_key(|b| b.value);
    seen.dedup();
    assert_eq!(seen.len(), 10);
    assert!(!leaves.contains(&root));
    assert_eq!(t.num_leaves(&root), Ok(10));
}

#[test]
fn write_past_end_overflow_is_rejected() {
    let mut s = blob_store(72);
    let b = s.create().unwrap();
    assert_eq!(s.write(&b, u64::MAX, b"ab"), Err(StoreError::Overflow));
    assert_eq!(s.num_bytes(&b), Ok(0));
}
