use vstd::prelude::*;

use crate::block_id::BlockId;
use crate::error::StoreError;
use crate::id_map::IdMap;

verus! {

/// The outcome of creating a block under a given id.
#[derive(Clone, Copy, Debug, PartialEq, Eq, Structural)]
#[must_use]
pub enum TryCreateResult {
    SuccessfullyCreated,
    NotCreatedBecauseBlockIdAlreadyExists,
}

/// The outcome of removing a block.
#[derive(Clone, Copy, Debug, PartialEq, Eq, Structural)]
#[must_use]
pub enum RemoveResult {
    SuccessfullyRemoved,
    NotRemovedBecauseItDoesntExist,
}

/// A store of fixed-id, opaque blocks.
///
/// Its contents are the map `blocks()` from id to bytes. Any operation may
/// fail with an error of the storage beneath; a failed write leaves the
/// contents as they were, so that no block is ever half written.
pub trait BlockStore {
    /// The store's internal invariant.
    spec fn wf(&self) -> bool;

    /// The blocks that the store holds.
    spec fn blocks(&self) -> Map<BlockId, Seq<u8>>;

    /// Whether the block stored under `id` cannot be read back: it is there
    /// but fails its integrity check.
    spec fn corrupt(&self, id: BlockId) -> bool;

    /// The usable size of a block whose physical size is `physical`, or
    /// `None` where that is too small for the store's own headers.
    spec fn spec_block_size_from_physical(&self, physical: u64) -> Option<u64>;

    /// Whether the storage beneath never fails: then every operation
    /// succeeds, but for loading a corrupt block and for storing a block
    /// longer than [`BlockStore::spec_max_block_len`].
    spec fn reliable(&self) -> bool;

    /// The longest block that a reliable store is sure to take.
    spec fn spec_max_block_len(&self) -> nat;

    /// A store holds finitely many blocks.
    proof fn lemma_blocks_finite(&self)
        requires
            self.wf(),
        ensures
            self.blocks().dom().finite(),
    ;

    /// The block stored under `id`, if there is one.
    fn load(&self, id: &BlockId) -> (r: Result<Option<Vec<u8>>, StoreError>)
        requires
            self.wf(),
        ensures
            r matches Ok(o) ==> match o {
                None => !self.blocks().contains_key(*id),
                Some(d) => self.blocks().contains_key(*id) && !self.corrupt(*id) && d@
                    == self.blocks()[*id],
            },
            self.blocks().contains_key(*id) && self.corrupt(*id) ==> r is Err,
            self.reliable() && !(self.blocks().contains_key(*id) && self.corrupt(*id)) ==> r is Ok,
    ;

    /// Whether a block is stored under `id`.
    fn contains_block(&self, id: &BlockId) -> (r: Result<bool, StoreError>)
        requires
            self.wf(),
        ensures
            r matches Ok(b) ==> b == self.blocks().contains_key(*id),
            self.reliable() ==> r is Ok,
    ;

    /// The number of blocks stored.
    fn num_blocks(&self) -> (r: Result<u64, StoreError>)
        requires
            self.wf(),
        ensures
            r matches Ok(n) ==> n == self.blocks().dom().len(),
            self.reliable() ==> r is Ok,
    ;

    /// An estimate of the free space left beneath the store, in bytes.
    fn estimate_num_free_bytes(&self) -> (r: Result<u64, StoreError>)
        requires
            self.wf(),
        ensures
            self.reliable() ==> r is Ok,
    ;

    /// The usable size of a block whose physical size is `physical`.
    fn block_size_from_physical_block_size(&self, physical: u64) -> (r: Result<u64, StoreError>)
        requires
            self.wf(),
        ensures
            r matches Ok(n) ==> self.spec_block_size_from_physical(physical) == Some(n),
            self.spec_block_size_from_physical(physical) is None ==> r is Err,
            self.reliable() && self.spec_block_size_from_physical(physical) is Some ==> r is Ok,
    ;

    /// The ids of all stored blocks, each once.
    fn all_blocks(&self) -> (r: Result<Vec<BlockId>, StoreError>)
        requires
            self.wf(),
        ensures
            r matches Ok(v) ==> v@.no_duplicates() && v@.to_set() == self.blocks().dom(),
            self.reliable() ==> r is Ok,
    ;

    /// Stores `data` under `id` unless a block is already stored there.
    fn try_create(&mut self, id: &BlockId, data: &[u8]) -> (r: Result<TryCreateResult, StoreError>)
        requires
            old(self).wf(),
        ensures
            final(self).wf(),
            r matches Ok(TryCreateResult::SuccessfullyCreated) ==> !old(self).blocks().contains_key(
                *id,
            ) && final(self).blocks() == old(self).blocks().insert(*id, data@) && !final(self).corrupt(*id),
            r matches Ok(TryCreateResult::NotCreatedBecauseBlockIdAlreadyExists) ==> old(self).blocks().contains_key(*id) && final(self).blocks() == old(self).blocks(),
            r is Err ==> final(self).blocks() == old(self).blocks(),
            final(self).reliable() == old(self).reliable(),
            forall|other: BlockId|
                (other != *id || r is Err) ==> #[trigger] final(self).corrupt(other) == old(self).corrupt(other),
            final(self).spec_max_block_len() == old(self).spec_max_block_len(),
            old(self).reliable() && data@.len() <= old(self).spec_max_block_len() ==> r is Ok,
    ;

    /// Stores `data` under `id`, replacing any block there.
    fn store(&mut self, id: &BlockId, data: &[u8]) -> (r: Result<(), StoreError>)
        requires
            old(self).wf(),
        ensures
            final(self).wf(),
            r is Ok ==> final(self).blocks() == old(self).blocks().insert(*id, data@) && !final(self).corrupt(*id),
            r is Err ==> final(self).blocks() == old(self).blocks(),
            final(self).reliable() == old(self).reliable(),
            forall|other: BlockId|
                (other != *id || r is Err) ==> #[trigger] final(self).corrupt(other) == old(self).corrupt(other),
            final(self).spec_max_block_len() == old(self).spec_max_block_len(),
            old(self).reliable() && data@.len() <= old(self).spec_max_block_len() ==> r is Ok,
    ;

    /// Removes the block stored under `id`, if there is one.
    fn remove(&mut self, id: &BlockId) -> (r: Result<RemoveResult, StoreError>)
        requires
            old(self).wf(),
        ensures
            final(self).wf(),
            r matches Ok(RemoveResult::SuccessfullyRemoved) ==> old(self).blocks().contains_key(*id),
            r matches Ok(RemoveResult::NotRemovedBecauseItDoesntExist) ==> !old(self).blocks().contains_key(*id),
            r is Ok ==> final(self).blocks() == old(self).blocks().remove(*id),
            r is Err ==> final(self).blocks() == old(self).blocks(),
            final(self).reliable() == old(self).reliable(),
            forall|other: BlockId|
                (other != *id || r is Err) ==> #[trigger] final(self).corrupt(other) == old(self).corrupt(other),
            final(self).spec_max_block_len() == old(self).spec_max_block_len(),
            old(self).reliable() ==> r is Ok,
    ;
}

/// A block store that keeps its blocks in memory.
pub struct InMemoryBlockStore {
    blocks: IdMap<Vec<u8>>,
}

impl InMemoryBlockStore {
    /// An empty store.
    pub fn new() -> (r: InMemoryBlockStore)
        ensures
            r.wf(),
            r.blocks() == Map::<BlockId, Seq<u8>>::empty(),
    {
        let r = InMemoryBlockStore { blocks: IdMap::new() };
        assert(r.blocks() =~= Map::<BlockId, Seq<u8>>::empty());
        r
    }
}

impl BlockStore for InMemoryBlockStore {
    closed spec fn wf(&self) -> bool {
        self.blocks.wf()
    }

    closed spec fn blocks(&self) -> Map<BlockId, Seq<u8>> {
        self.blocks@.map_values(|v: Vec<u8>| v@)
    }

    /// Blocks held in memory are always read back as stored.
    open spec fn corrupt(&self, id: BlockId) -> bool {
        false
    }

    /// Memory never fails.
    open spec fn reliable(&self) -> bool {
        true
    }

    /// Any block that a slice can hold.
    open spec fn spec_max_block_len(&self) -> nat {
        usize::MAX as nat
    }

    open spec fn spec_block_size_from_physical(&self, physical: u64) -> Option<u64> {
        Some(physical)
    }

    proof fn lemma_blocks_finite(&self) {
        self.blocks.lemma_keys();
        assert(self.blocks().dom() =~= self.blocks@.dom());
    }

    fn load(&self, id: &BlockId) -> (r: Result<Option<Vec<u8>>, StoreError>) {
        match self.blocks.get(id) {
            Some(v) => Ok(Some(vstd::slice::slice_to_vec(v.as_slice()))),
            None => Ok(None),
        }
    }

    fn contains_block(&self, id: &BlockId) -> (r: Result<bool, StoreError>) {
        Ok(self.blocks.contains(id))
    }

    fn num_blocks(&self) -> (r: Result<u64, StoreError>) {
        let n = self.blocks.len();
        assert(self.blocks().dom() =~= self.blocks@.dom());
        Ok(n as u64)
    }

    /// Memory is not accounted: the estimate is the largest possible.
    fn estimate_num_free_bytes(&self) -> (r: Result<u64, StoreError>) {
        Ok(u64::MAX)
    }

    fn block_size_from_physical_block_size(&self, physical: u64) -> (r: Result<u64, StoreError>) {
        Ok(physical)
    }

    fn all_blocks(&self) -> (r: Result<Vec<BlockId>, StoreError>) {
        let v = self.blocks.keys();
        assert(self.blocks().dom() =~= self.blocks@.dom());
        Ok(v)
    }

    fn try_create(&mut self, id: &BlockId, data: &[u8]) -> (r: Result<TryCreateResult, StoreError>) {
        if self.blocks.contains(id) {
            return Ok(TryCreateResult::NotCreatedBecauseBlockIdAlreadyExists);
        }
        let ghost before = self.blocks();
        self.blocks.insert(*id, vstd::slice::slice_to_vec(data));
        assert(self.blocks() =~= before.insert(*id, data@));
        Ok(TryCreateResult::SuccessfullyCreated)
    }

    fn store(&mut self, id: &BlockId, data: &[u8]) -> (r: Result<(), StoreError>) {
        let ghost before = self.blocks();
        self.blocks.insert(*id, vstd::slice::slice_to_vec(data));
        assert(self.blocks() =~= before.insert(*id, data@));
        Ok(())
    }

    fn remove(&mut self, id: &BlockId) -> (r: Result<RemoveResult, StoreError>) {
        let ghost before = self.blocks();
        match self.blocks.remove(id) {
            Some(_) => {
                assert(self.blocks() =~= before.remove(*id));
                Ok(RemoveResult::SuccessfullyRemoved)
            },
            None => {
                assert(self.blocks() =~= before.remove(*id));
                Ok(RemoveResult::NotRemovedBecauseItDoesntExist)
            },
        }
    }
}

} // verus!
