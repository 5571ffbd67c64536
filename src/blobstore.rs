use vstd::prelude::*;

use crate::block_id::BlockId;
use crate::block_store::{BlockStore, RemoveResult};
use crate::data_tree::{
    fanout_of, leaf_capacity_of, leaves_for_bytes, node_in,
    blob_bytes, nodes_of, read_range, resized, spine_full,
    sound, tree_compact, tree_depth, tree_fits, tree_nodes, tree_num_bytes, tree_ok, write_result, DataTreeStore, NodesView,
};
use crate::error::StoreError;
use crate::locking::LockingBlockStore;

verus! {

/// The id of a blob: the id of the root of its tree.
#[derive(Clone, Copy, Debug, PartialEq, Eq, Structural, Hash)]
pub struct BlobId {
    pub root: BlockId,
}

/// Blobs of any length over a locking block store, each kept as a tree of
/// node blocks.
pub struct BlobStoreOnBlocks<B: BlockStore> {
    tree_store: DataTreeStore<B>,
}

impl<B: BlockStore> BlobStoreOnBlocks<B> {
    /// The tree store beneath.
    pub closed spec fn spec_tree_store(&self) -> DataTreeStore<B> {
        self.tree_store
    }

    /// The tree store beneath is consistent.
    pub open spec fn wf(&self) -> bool {
        self.spec_tree_store().wf()
    }

    /// The node blocks beneath and their size.
    pub open spec fn nodes(&self) -> NodesView {
        nodes_of(self.spec_tree_store().spec_node_store())
    }

    /// The store beneath never fails and holds no corrupt block.
    pub open spec fn reliable(&self) -> bool {
        self.spec_tree_store().spec_node_store().spec_reliable()
    }

    /// The counts of the blob `id` fit in 64 bits.
    pub open spec fn fits(&self, id: BlobId) -> bool {
        tree_fits(self.nodes(), id.root)
    }

    /// The tree of the blob `id` is well formed and compact.
    pub open spec fn blob_ok(&self, id: BlobId) -> bool {
        tree_ok(self.nodes(), id.root) && tree_compact(self.nodes(), id.root)
    }

    /// The bytes of the blob `id`.
    pub open spec fn content(&self, id: BlobId) -> Seq<u8> {
        blob_bytes(self.nodes(), id.root)
    }

    /// A blob store over `blockstore`, whose blocks have the physical size
    /// `block_size_bytes`.
    pub fn new(blockstore: LockingBlockStore<B>, block_size_bytes: u32) -> (r: Result<
        Self,
        StoreError,
    >)
        requires
            blockstore.wf(),
        ensures
            r matches Ok(s) ==> s.wf() && s.spec_tree_store().spec_node_store().blocks()
                == blockstore.blocks() && s.spec_tree_store().spec_node_store().spec_node_block_size()
                == blockstore.spec_base_store().spec_block_size_from_physical(
                block_size_bytes as u64,
            ).unwrap(),
            blockstore.spec_base_store().spec_block_size_from_physical(block_size_bytes as u64)
                matches Some(n) ==> !(crate::node_store::MIN_NODE_BLOCK_SIZE <= n <= u32::MAX)
                ==> r is Err,
            blockstore.spec_base_store().spec_block_size_from_physical(block_size_bytes as u64)
                is None ==> r is Err,
            r matches Ok(s) ==> s.reliable() == blockstore.healthy(),
            (blockstore.spec_base_store().reliable() && (blockstore.spec_base_store().spec_block_size_from_physical(
                block_size_bytes as u64,
            ) matches Some(n) && crate::node_store::MIN_NODE_BLOCK_SIZE <= n <= u32::MAX)) ==> r is Ok,
    {
        let tree_store = DataTreeStore::new(blockstore, block_size_bytes)?;
        Ok(BlobStoreOnBlocks { tree_store })
    }

    /// Creates an empty blob.
    pub fn create(&mut self) -> (r: Result<BlobId, StoreError>)
        requires
            old(self).wf(),
        ensures
            final(self).wf(),
            r matches Ok(id) ==> !old(self).spec_tree_store().spec_node_store().blocks().contains_key(
                id.root,
            ) && final(self).blob_ok(id) && final(self).content(id) == Seq::<u8>::empty(),
            old(self).reliable() ==> final(self).reliable(),
            old(self).reliable() ==> r is Ok || r == Err::<BlobId, StoreError>(StoreError::IdSpaceExhausted),
            r matches Ok(id) ==> sound(final(self).nodes(), id.root, tree_depth(final(self).nodes(), id.root)),
    {
        let root = self.tree_store.create_tree()?;
        Ok(BlobId { root })
    }

    /// The blob with id `id`, if there is one.
    pub fn load(&mut self, id: &BlobId) -> (r: Result<Option<BlobId>, StoreError>)
        requires
            old(self).wf(),
        ensures
            final(self).wf(),
            r matches Ok(Some(b)) ==> b == *id,
            r matches Ok(o) ==> (o is Some <==> old(self).spec_tree_store().spec_node_store().node_at(
                id.root,
            ) is Some),
            old(self).reliable() ==> final(self).reliable(),
            old(self).reliable() && (old(self).nodes().0.contains_key(id.root) ==> node_in(old(self).nodes(), id.root) is Some) ==> r is Ok,
    {
        if self.tree_store.load_tree(&id.root)? {
            Ok(Some(*id))
        } else {
            Ok(None)
        }
    }

    /// Removes the blob with id `id`: every node of its tree, and nothing
    /// else.
    pub fn remove_by_id(&mut self, id: &BlobId) -> (r: Result<RemoveResult, StoreError>)
        requires
            old(self).wf(),
        ensures
            final(self).wf(),
            r matches Ok(RemoveResult::NotRemovedBecauseItDoesntExist) ==> !old(self).nodes().0.contains_key(id.root)
                && final(self).nodes() == old(self).nodes(),
            r matches Ok(RemoveResult::SuccessfullyRemoved) ==> final(self).nodes().0 == old(self).nodes().0.remove_keys(
                tree_nodes(old(self).nodes(), id.root),
            ) && tree_nodes(old(self).nodes(), id.root).contains(id.root),
            old(self).reliable() ==> final(self).reliable(),
            old(self).reliable() && sound(old(self).nodes(), id.root, tree_depth(old(self).nodes(), id.root))
                ==> r == Ok::<RemoveResult, StoreError>(RemoveResult::SuccessfullyRemoved),
    {
        self.tree_store.remove_tree_by_id(&id.root)
    }

    /// The number of nodes over all blobs.
    pub fn num_nodes(&self) -> (r: Result<u64, StoreError>)
        requires
            self.wf(),
        ensures
            r matches Ok(n) ==> n == self.spec_tree_store().spec_node_store().blocks().dom().len(),
    {
        self.tree_store.num_nodes()
    }

    /// How many more blocks fit in the free space beneath, by estimate.
    pub fn estimate_space_for_num_blocks_left(&self) -> (r: Result<u64, StoreError>)
        requires
            self.wf(),
    {
        self.tree_store.estimate_space_for_num_blocks_left()
    }

    /// The most bytes a leaf holds.
    pub fn virtual_block_size_bytes(&self) -> (r: u32)
        requires
            self.wf(),
        ensures
            r == self.spec_tree_store().spec_node_store().spec_max_leaf_payload(),
    {
        self.tree_store.virtual_block_size_bytes()
    }

    /// The number of bytes of the blob `id`.
    pub fn num_bytes(&mut self, id: &BlobId) -> (r: Result<u64, StoreError>)
        requires
            old(self).wf(),
        ensures
            final(self).wf(),
            final(self).nodes() == old(self).nodes(),
            r matches Ok(n) ==> tree_num_bytes(old(self).nodes(), id.root) == Some(n as nat),
            old(self).reliable() ==> final(self).reliable(),
            old(self).reliable() && old(self).blob_ok(*id) && old(self).fits(*id) ==> r is Ok,
    {
        self.tree_store.num_bytes(&id.root)
    }

    /// The depth of the tree of the blob `id`.
    pub fn depth(&mut self, id: &BlobId) -> (r: Result<u8, StoreError>)
        requires
            old(self).wf(),
        ensures
            final(self).wf(),
            final(self).nodes() == old(self).nodes(),
            r matches Ok(d) ==> d == tree_depth(old(self).nodes(), id.root) && old(self).nodes().0.contains_key(id.root),
            old(self).reliable() ==> final(self).reliable(),
            old(self).reliable() && old(self).blob_ok(*id) && old(self).fits(*id) ==> r is Ok,
    {
        self.tree_store.depth(&id.root)
    }

    /// The number of leaves of the tree of the blob `id`.
    pub fn num_leaves(&mut self, id: &BlobId) -> (r: Result<u64, StoreError>)
        requires
            old(self).wf(),
        ensures
            final(self).wf(),
            final(self).nodes() == old(self).nodes(),
            r matches Ok(n) ==> n == old(self).leaf_count(*id),
            old(self).reliable() ==> final(self).reliable(),
            old(self).reliable() && old(self).blob_ok(*id) && old(self).fits(*id) ==> r is Ok,
    {
        self.tree_store.num_leaves(&id.root)
    }

    /// Up to `size` bytes of the blob `id` from byte `offset` on.
    pub fn read(&mut self, id: &BlobId, offset: u64, size: u64) -> (r: Result<Vec<u8>, StoreError>)
        requires
            old(self).wf(),
        ensures
            final(self).wf(),
            final(self).nodes() == old(self).nodes(),
            r matches Ok(v) ==> v@ == read_range(old(self).content(*id), offset as nat, size as nat),
            old(self).reliable() ==> final(self).reliable(),
            old(self).reliable() && old(self).blob_ok(*id) && old(self).fits(*id) ==> r is Ok,
    {
        self.tree_store.read_bytes(&id.root, offset, size)
    }

    /// Writes `data` into the blob `id` from byte `offset` on, growing the
    /// blob first, with zero bytes, where it is too short.
    pub fn write(&mut self, id: &BlobId, offset: u64, data: &[u8]) -> (r: Result<(), StoreError>)
        requires
            old(self).wf(),
        ensures
            final(self).wf(),
            offset + data@.len() > u64::MAX ==> r == Err::<(), StoreError>(StoreError::Overflow),
            (r is Ok && old(self).blob_ok(*id)) ==> final(self).blob_ok(*id) && final(self).content(
                *id,
            ) == write_result(old(self).content(*id), offset as nat, data@),
            old(self).reliable() ==> final(self).reliable(),
            old(self).reliable() && old(self).blob_ok(*id) && old(self).fits(*id) && offset
                + data@.len() <= old(self).content(*id).len() ==> r is Ok,
            (old(self).reliable() && old(self).blob_ok(*id) && old(self).fits(*id) && offset + data@.len()
                <= u64::MAX && leaves_for_bytes((offset + data@.len()) as nat, leaf_capacity_of(old(self).nodes()))
                * fanout_of(old(self).nodes()) <= u64::MAX) ==> r is Ok || r == Err::<(), StoreError>(
                StoreError::IdSpaceExhausted,
            ),
    {
        self.tree_store.write_bytes(&id.root, offset, data)
    }

    /// The number of leaves of the tree of the blob `id`, as its rightmost
    /// path gives it.
    pub open spec fn leaf_count(&self, id: BlobId) -> nat {
        spine_full(self.nodes(), id.root, tree_depth(self.nodes(), id.root)) + 1
    }

    /// Sets the number of bytes of the blob `id`: cuts it, or pads it with
    /// zero bytes.
    pub fn resize(&mut self, id: &BlobId, new_num_bytes: u64) -> (r: Result<(), StoreError>)
        requires
            old(self).wf(),
        ensures
            final(self).wf(),
            (r is Ok && old(self).blob_ok(*id)) ==> final(self).blob_ok(*id) && final(self).content(
                *id,
            ) == resized(old(self).content(*id), new_num_bytes as nat),
            old(self).reliable() ==> final(self).reliable(),
            (old(self).reliable() && old(self).blob_ok(*id) && old(self).fits(*id) && leaves_for_bytes(
                new_num_bytes as nat,
                leaf_capacity_of(old(self).nodes()),
            ) * fanout_of(old(self).nodes()) <= u64::MAX && (leaves_for_bytes(
                new_num_bytes as nat,
                leaf_capacity_of(old(self).nodes()),
            ) >= old(self).leaf_count(*id) || sound(old(self).nodes(), id.root, tree_depth(old(self).nodes(), id.root))))
                ==> r is Ok || r == Err::<(), StoreError>(StoreError::IdSpaceExhausted),
    {
        self.tree_store.resize_num_bytes(&id.root, new_num_bytes)
    }

    /// Tears the store down: flushes every cached block and hands back the
    /// store beneath.
    pub fn into_base_store(self) -> (r: Result<B, StoreError>)
        requires
            self.wf(),
        ensures
            r matches Ok(b) ==> b.wf() && b.blocks() == self.spec_tree_store().spec_node_store().blocks(),
    {
        let block_store = self.tree_store.into_block_store();
        block_store.into_base_store()
    }
}

} // verus!
