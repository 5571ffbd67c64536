use vstd::prelude::*;

use crate::block_id::{BlockId, BLOCK_ID_NUM_BYTES};
use crate::block_store::{BlockStore, RemoveResult};
use crate::error::StoreError;
use crate::locking::LockingBlockStore;
use crate::node::{
    decode, decode_node, encode_inner, encode_leaf, inner_layout, leaf_layout, max_fanout,
    max_leaf_payload, NodeContent, NodeView, NODE_HEADER_LEN,
};

verus! {

/// The smallest node block size: room for the header and two children.
pub const MIN_NODE_BLOCK_SIZE: u64 = 40;

/// A typed view of a block store whose blocks are tree nodes.
pub struct DataNodeStore<B: BlockStore> {
    block_store: LockingBlockStore<B>,
    physical_block_size: u64,
    node_block_size: usize,
}

impl<B: BlockStore> DataNodeStore<B> {
    /// The blocks beneath, as the locking store shows them.
    pub closed spec fn blocks(&self) -> Map<BlockId, Seq<u8>> {
        self.block_store.blocks()
    }

    /// The size of each node block.
    pub closed spec fn spec_node_block_size(&self) -> nat {
        self.node_block_size as nat
    }

    /// The store beneath is consistent, and node blocks have room for the
    /// header and at least two children.
    pub closed spec fn wf(&self) -> bool {
        &&& self.block_store.wf()
        &&& MIN_NODE_BLOCK_SIZE <= self.node_block_size <= u32::MAX
    }

    /// The store beneath never fails and holds no corrupt block.
    pub closed spec fn spec_reliable(&self) -> bool {
        self.block_store.healthy()
    }

    /// Node blocks have room for the header and two children, and their
    /// size fits in 32 bits.
    pub proof fn lemma_block_size_bounds(&self)
        requires
            self.wf(),
        ensures
            MIN_NODE_BLOCK_SIZE <= self.spec_node_block_size() <= u32::MAX,
    {
    }

    /// The node stored under `id`, if a block is stored there and it is a
    /// well-formed node.
    pub open spec fn node_at(&self, id: BlockId) -> Option<NodeView> {
        if self.blocks().contains_key(id) {
            decode_node(self.spec_node_block_size(), self.blocks()[id])
        } else {
            None
        }
    }

    /// The most bytes a leaf holds.
    pub open spec fn spec_max_leaf_payload(&self) -> nat {
        max_leaf_payload(self.spec_node_block_size())
    }

    /// The most children an inner node has.
    pub open spec fn spec_max_fanout(&self) -> nat {
        max_fanout(self.spec_node_block_size())
    }

    /// A node store over `block_store`, whose blocks have the physical size
    /// `physical_block_size`. Fails where the usable size that the store
    /// beneath leaves is below [`MIN_NODE_BLOCK_SIZE`] or above `u32::MAX`.
    pub fn new(block_store: LockingBlockStore<B>, physical_block_size: u32) -> (r: Result<
        Self,
        StoreError,
    >)
        requires
            block_store.wf(),
        ensures
            r matches Ok(s) ==> s.wf() && s.blocks() == block_store.blocks() && s.spec_node_block_size()
                == block_store.spec_base_store().spec_block_size_from_physical(
                physical_block_size as u64,
            ).unwrap(),
            block_store.spec_base_store().spec_block_size_from_physical(physical_block_size as u64)
                matches Some(n) ==> (r is Ok ==> MIN_NODE_BLOCK_SIZE <= n <= u32::MAX) && (!(
                MIN_NODE_BLOCK_SIZE <= n <= u32::MAX) ==> r is Err),
            block_store.spec_base_store().spec_block_size_from_physical(physical_block_size as u64)
                is None ==> r is Err,
            r matches Ok(s) ==> s.spec_reliable() == block_store.healthy(),
            (block_store.spec_base_store().reliable() && (block_store.spec_base_store().spec_block_size_from_physical(
                physical_block_size as u64,
            ) matches Some(n) && MIN_NODE_BLOCK_SIZE <= n <= u32::MAX)) ==> r is Ok,
    {
        let usable = block_store.block_size_from_physical_block_size(physical_block_size as u64)?;
        if usable < MIN_NODE_BLOCK_SIZE || usable > u32::MAX as u64 {
            return Err(StoreError::BlockSizeTooSmall);
        }
        Ok(
            DataNodeStore {
                block_store,
                physical_block_size: physical_block_size as u64,
                node_block_size: usable as usize,
            },
        )
    }

    /// The most bytes a leaf holds: the usable size of a blob block.
    pub fn virtual_block_size_bytes(&self) -> (r: u32)
        requires
            self.wf(),
        ensures
            r == self.spec_max_leaf_payload(),
    {
        (self.node_block_size - NODE_HEADER_LEN) as u32
    }

    /// The most children an inner node has.
    pub fn max_children(&self) -> (r: usize)
        requires
            self.wf(),
        ensures
            r == self.spec_max_fanout(),
            r >= 2,
    {
        (self.node_block_size - NODE_HEADER_LEN) / BLOCK_ID_NUM_BYTES
    }

    /// Stores a new leaf holding `data` under a fresh id.
    pub fn create_new_leaf(&mut self, data: &[u8]) -> (r: Result<BlockId, StoreError>)
        requires
            old(self).wf(),
            data@.len() <= old(self).spec_max_leaf_payload(),
        ensures
            final(self).wf(),
            final(self).spec_node_block_size() == old(self).spec_node_block_size(),
            r matches Ok(id) ==> !old(self).blocks().contains_key(id) && final(self).blocks() == old(self).blocks().insert(id, leaf_layout(old(self).spec_node_block_size(), data@)),
            r is Err ==> final(self).blocks() == old(self).blocks(),
            final(self).spec_reliable() == old(self).spec_reliable(),
            old(self).spec_reliable() ==> r is Ok || r == Err::<BlockId, StoreError>(
                StoreError::IdSpaceExhausted,
            ),
    {
        let bytes = encode_leaf(self.node_block_size, data);
        self.block_store.create(bytes.as_slice())
    }

    /// Stores a new inner node of depth `depth` with `children` under a
    /// fresh id.
    pub fn create_new_inner(&mut self, depth: u8, children: &[BlockId]) -> (r: Result<
        BlockId,
        StoreError,
    >)
        requires
            old(self).wf(),
            depth >= 1,
            1 <= children@.len() <= old(self).spec_max_fanout(),
        ensures
            final(self).wf(),
            final(self).spec_node_block_size() == old(self).spec_node_block_size(),
            r matches Ok(id) ==> !old(self).blocks().contains_key(id) && final(self).blocks() == old(self).blocks().insert(id, inner_layout(old(self).spec_node_block_size(), depth, children@)),
            r is Err ==> final(self).blocks() == old(self).blocks(),
            final(self).spec_reliable() == old(self).spec_reliable(),
            old(self).spec_reliable() ==> r is Ok || r == Err::<BlockId, StoreError>(
                StoreError::IdSpaceExhausted,
            ),
    {
        let bytes = encode_inner(self.node_block_size, depth, children);
        self.block_store.create(bytes.as_slice())
    }

    /// Replaces the node under `id` by a leaf holding `data`.
    pub fn overwrite_with_leaf(&mut self, id: &BlockId, data: &[u8]) -> (r: Result<(), StoreError>)
        requires
            old(self).wf(),
            data@.len() <= old(self).spec_max_leaf_payload(),
        ensures
            final(self).wf(),
            final(self).spec_node_block_size() == old(self).spec_node_block_size(),
            r is Ok ==> final(self).blocks() == old(self).blocks().insert(
                *id,
                leaf_layout(old(self).spec_node_block_size(), data@),
            ),
            r is Err ==> final(self).blocks() == old(self).blocks(),
            final(self).spec_reliable() == old(self).spec_reliable(),
            old(self).spec_reliable() ==> r is Ok,
    {
        let bytes = encode_leaf(self.node_block_size, data);
        self.block_store.overwrite(id, bytes.as_slice())
    }

    /// Replaces the node under `id` by an inner node of depth `depth` with
    /// `children`.
    pub fn overwrite_with_inner(&mut self, id: &BlockId, depth: u8, children: &[BlockId]) -> (r:
        Result<(), StoreError>)
        requires
            old(self).wf(),
            depth >= 1,
            1 <= children@.len() <= old(self).spec_max_fanout(),
        ensures
            final(self).wf(),
            final(self).spec_node_block_size() == old(self).spec_node_block_size(),
            r is Ok ==> final(self).blocks() == old(self).blocks().insert(
                *id,
                inner_layout(old(self).spec_node_block_size(), depth, children@),
            ),
            r is Err ==> final(self).blocks() == old(self).blocks(),
            final(self).spec_reliable() == old(self).spec_reliable(),
            old(self).spec_reliable() ==> r is Ok,
    {
        let bytes = encode_inner(self.node_block_size, depth, children);
        self.block_store.overwrite(id, bytes.as_slice())
    }

    /// The node stored under `id`: `None` where no block is there, a node
    /// format error where the block is not a well-formed node.
    pub fn load(&mut self, id: &BlockId) -> (r: Result<Option<NodeContent>, StoreError>)
        requires
            old(self).wf(),
        ensures
            final(self).wf(),
            final(self).blocks() == old(self).blocks(),
            final(self).spec_node_block_size() == old(self).spec_node_block_size(),
            r matches Ok(None) ==> !old(self).blocks().contains_key(*id),
            r matches Ok(Some(n)) ==> old(self).node_at(*id) == Some(n@),
            old(self).blocks().contains_key(*id) && old(self).node_at(*id) is None ==> r is Err,
            final(self).spec_reliable() == old(self).spec_reliable(),
            old(self).spec_reliable() && (old(self).blocks().contains_key(*id) ==> old(self).node_at(*id) is Some) ==> r is Ok,
    {
        match self.block_store.load(*id)? {
            None => Ok(None),
            Some(block) => {
                let node = decode(self.node_block_size, block.data())?;
                Ok(Some(node))
            },
        }
    }

    /// Removes the node under `id`.
    pub fn remove(&mut self, id: &BlockId) -> (r: Result<RemoveResult, StoreError>)
        requires
            old(self).wf(),
        ensures
            final(self).wf(),
            final(self).spec_node_block_size() == old(self).spec_node_block_size(),
            r matches Ok(RemoveResult::SuccessfullyRemoved) ==> old(self).blocks().contains_key(*id),
            r matches Ok(RemoveResult::NotRemovedBecauseItDoesntExist) ==> !old(self).blocks().contains_key(*id),
            r is Ok ==> final(self).blocks() == old(self).blocks().remove(*id),
            old(self).spec_reliable() ==> final(self).spec_reliable(),
            old(self).spec_reliable() ==> r is Ok,
    {
        self.block_store.remove(id)
    }

    /// The number of nodes, that is of blocks, in the store.
    pub fn num_nodes(&self) -> (r: Result<u64, StoreError>)
        requires
            self.wf(),
        ensures
            r matches Ok(n) ==> n == self.blocks().dom().len(),
            self.spec_reliable() ==> r is Ok || r == Err::<u64, StoreError>(StoreError::Overflow),
    {
        self.block_store.num_blocks()
    }

    /// The ids of all nodes, each once.
    pub fn all_nodes(&self) -> (r: Result<Vec<BlockId>, StoreError>)
        requires
            self.wf(),
        ensures
            r matches Ok(v) ==> v@.no_duplicates() && v@.to_set() == self.blocks().dom(),
    {
        self.block_store.all_blocks()
    }

    /// How many more blocks fit in the free space beneath, by estimate.
    pub fn estimate_space_for_num_blocks_left(&self) -> (r: Result<u64, StoreError>)
        requires
            self.wf(),
    {
        let free = self.block_store.estimate_num_free_bytes()?;
        if self.physical_block_size == 0 {
            return Ok(0);
        }
        Ok(free / self.physical_block_size)
    }

    /// Hands back the locking store beneath.
    pub fn into_block_store(self) -> (r: LockingBlockStore<B>)
        requires
            self.wf(),
        ensures
            r.wf(),
            r.blocks() == self.blocks(),
            r.healthy() == self.spec_reliable(),
    {
        self.block_store
    }
}

} // verus!
