use vstd::prelude::*;

use crate::block_id::BlockId;
use crate::block_store::{BlockStore, RemoveResult, TryCreateResult};
use crate::error::StoreError;
use crate::id_map::IdMap;

verus! {

/// How many fresh random ids `create` draws before it gives up.
pub const MAX_CREATE_ATTEMPTS: u64 = 1000000;

/// Whether a cached block differs from the store beneath.
#[derive(Clone, Copy, Debug, PartialEq, Eq, Structural)]
pub enum CacheEntryState {
    Clean,
    Dirty,
}

/// Whether the store beneath holds a block under a cached id.
#[derive(Clone, Copy, Debug, PartialEq, Eq, Structural)]
pub enum BlockBaseStoreState {
    ExistsInBaseStore,
    DoesntExistInBaseStore,
}

/// The cached copy of one block.
pub struct CacheEntry {
    pub data: Vec<u8>,
    pub state: CacheEntryState,
    pub base_state: BlockBaseStoreState,
}

/// The ids whose cached blocks are not in the store beneath.
pub open spec fn not_in_base_ids(cache: Map<BlockId, CacheEntry>) -> Set<BlockId> {
    cache.dom().filter(
        |id: BlockId| cache[id].base_state == BlockBaseStoreState::DoesntExistInBaseStore,
    )
}

/// The blocks seen through the cache: a cached block shadows the block
/// beneath.
pub open spec fn merged_blocks(cache: Map<BlockId, CacheEntry>, base: Map<BlockId, Seq<u8>>) -> Map<
    BlockId,
    Seq<u8>,
> {
    Map::new(
        |id: BlockId| cache.contains_key(id) || base.contains_key(id),
        |id: BlockId|
            if cache.contains_key(id) {
                cache[id].data@
            } else {
                base[id]
            },
    )
}

/// A cache entry is consistent with the store beneath: its base state says
/// whether the block is there, and a clean entry holds the same bytes.
pub open spec fn entry_agrees(e: CacheEntry, base: Map<BlockId, Seq<u8>>, id: BlockId) -> bool {
    &&& (e.base_state == BlockBaseStoreState::ExistsInBaseStore) == base.contains_key(id)
    &&& e.state == CacheEntryState::Clean ==> base.contains_key(id) && base[id] == e.data@
}

proof fn lemma_not_in_base_insert(m: Map<BlockId, CacheEntry>, id: BlockId, e: CacheEntry)
    ensures
        not_in_base_ids(m.insert(id, e)) == if e.base_state
            == BlockBaseStoreState::DoesntExistInBaseStore {
            not_in_base_ids(m).insert(id)
        } else {
            not_in_base_ids(m).remove(id)
        },
{
    if e.base_state == BlockBaseStoreState::DoesntExistInBaseStore {
        assert(not_in_base_ids(m.insert(id, e)) =~= not_in_base_ids(m).insert(id));
    } else {
        assert(not_in_base_ids(m.insert(id, e)) =~= not_in_base_ids(m).remove(id));
    }
}

proof fn lemma_not_in_base_remove(m: Map<BlockId, CacheEntry>, id: BlockId)
    ensures
        not_in_base_ids(m.remove(id)) == not_in_base_ids(m).remove(id),
{
    assert(not_in_base_ids(m.remove(id)) =~= not_in_base_ids(m).remove(id));
}

proof fn lemma_not_in_base_bounded(m: Map<BlockId, CacheEntry>)
    requires
        m.dom().finite(),
    ensures
        not_in_base_ids(m).finite(),
        not_in_base_ids(m).len() <= m.dom().len(),
{
    vstd::set_lib::lemma_len_subset(not_in_base_ids(m), m.dom());
}

/// A copy of a block handed out by a [`LockingBlockStore`].
///
/// Changes to it reach the store when it is released.
pub struct Block {
    block_id: BlockId,
    data: Vec<u8>,
    dirty: bool,
}

impl Block {
    /// The id of the block.
    pub closed spec fn spec_block_id(&self) -> BlockId {
        self.block_id
    }

    /// The bytes of the block.
    pub closed spec fn spec_data(&self) -> Seq<u8> {
        self.data@
    }

    /// Whether the block was changed since it was handed out.
    pub closed spec fn is_dirty(&self) -> bool {
        self.dirty
    }

    /// The id of the block.
    pub fn block_id(&self) -> (r: &BlockId)
        ensures
            *r == self.spec_block_id(),
    {
        &self.block_id
    }

    /// The bytes of the block.
    pub fn data(&self) -> (r: &[u8])
        ensures
            r@ == self.spec_data(),
    {
        self.data.as_slice()
    }

    /// The bytes of the block, for changing; the block counts as changed.
    pub fn data_mut(&mut self) -> (r: &mut Vec<u8>)
        ensures
            r@ == old(self).spec_data(),
            final(self).spec_data() == final(r)@,
            final(self).spec_block_id() == old(self).spec_block_id(),
            final(self).is_dirty(),
    {
        self.dirty = true;
        &mut self.data
    }

    /// Cuts the block to `new_size` bytes, or pads it with zero bytes up to
    /// that size; the block counts as changed.
    pub fn resize(&mut self, new_size: usize)
        ensures
            final(self).spec_data().len() == new_size,
            new_size <= old(self).spec_data().len() ==> final(self).spec_data() == old(self).spec_data().subrange(0, new_size as int),
            new_size > old(self).spec_data().len() ==> final(self).spec_data() == old(self).spec_data() + Seq::new(
                (new_size - old(self).spec_data().len()) as nat,
                |i: int| 0u8,
            ),
            final(self).spec_block_id() == old(self).spec_block_id(),
            final(self).is_dirty(),
    {
        let ghost before = self.data@;
        let old_len = self.data.len();
        self.data.resize(new_size, 0u8);
        if new_size > old_len {
            assert(self.data@ =~= before + Seq::new(
                (new_size - before.len()) as nat,
                |i: int| 0u8,
            ));
        }
        self.dirty = true;
    }
}

/// A write-back cache over a block store that also serialises the work on
/// each block id.
///
/// Each operation holds the store exclusively, so that operations on one id
/// take effect one after another. Blocks that are created or overwritten
/// stay in the cache, marked dirty, until they are flushed or evicted.
pub struct LockingBlockStore<B: BlockStore> {
    base_store: B,
    cache: IdMap<CacheEntry>,
    num_blocks_in_cache_but_not_in_base_store: u64,
}

impl<B: BlockStore> LockingBlockStore<B> {
    /// The store beneath the cache.
    pub closed spec fn spec_base_store(&self) -> B {
        self.base_store
    }

    /// The cached entries.
    pub closed spec fn spec_cache(&self) -> Map<BlockId, CacheEntry> {
        self.cache@
    }

    /// The cache agrees with the store beneath, and the count of cached
    /// blocks missing beneath is exact.
    pub closed spec fn wf(&self) -> bool {
        &&& self.base_store.wf()
        &&& self.cache.wf()
        &&& forall|id: BlockId| #[trigger]
            self.cache@.contains_key(id) ==> entry_agrees(
                self.cache@[id],
                self.base_store.blocks(),
                id,
            )
        &&& self.num_blocks_in_cache_but_not_in_base_store == not_in_base_ids(self.cache@).len()
    }

    /// The blocks that the store holds, as its users see them.
    pub closed spec fn blocks(&self) -> Map<BlockId, Seq<u8>> {
        merged_blocks(self.cache@, self.base_store.blocks())
    }

    /// The blocks are finitely many: those cached, and those beneath that
    /// are not cached.
    pub proof fn lemma_blocks_view(&self)
        requires
            self.wf(),
        ensures
            self.blocks().dom().finite(),
            self.spec_cache().dom().finite(),
            forall|id: BlockId| #[trigger]
                self.blocks().contains_key(id) == (self.spec_cache().contains_key(id)
                    || self.spec_base_store().blocks().contains_key(id)),
            forall|id: BlockId| #[trigger]
                self.spec_cache().contains_key(id) ==> self.blocks()[id] == self.spec_cache()[id].data@,
            forall|id: BlockId|
                !self.spec_cache().contains_key(id) && #[trigger] self.spec_base_store().blocks().contains_key(id)
                    ==> self.blocks()[id] == self.spec_base_store().blocks()[id],
    {
        self.lemma_cache_finite();
        self.base_store.lemma_blocks_finite();
        assert(self.blocks().dom() =~= self.cache@.dom() + self.base_store.blocks().dom());
    }

    /// The store beneath never fails and holds no corrupt block.
    pub open spec fn healthy(&self) -> bool {
        &&& self.spec_base_store().reliable()
        &&& forall|id: BlockId| #[trigger]
            self.spec_base_store().blocks().contains_key(id) ==> !self.spec_base_store().corrupt(id)
    }

    /// A store over `base_store` with an empty cache.
    pub fn new(base_store: B) -> (r: Self)
        requires
            base_store.wf(),
        ensures
            r.wf(),
            r.blocks() == base_store.blocks(),
            r.spec_cache() == Map::<BlockId, CacheEntry>::empty(),
    {
        let r = LockingBlockStore {
            base_store,
            cache: IdMap::new(),
            num_blocks_in_cache_but_not_in_base_store: 0,
        };
        assert(not_in_base_ids(r.cache@) =~= Set::empty());
        assert(r.blocks() =~= base_store.blocks());
        r
    }

    proof fn lemma_cache_finite(&self)
        requires
            self.wf(),
        ensures
            self.cache@.dom().finite(),
            not_in_base_ids(self.cache@).finite(),
            not_in_base_ids(self.cache@).len() <= self.cache@.dom().len(),
    {
        self.cache.lemma_keys();
        lemma_not_in_base_bounded(self.cache@);
    }

    /// The block stored under `block_id`, if there is one. A block read from
    /// the store beneath stays cached.
    pub fn load(&mut self, block_id: BlockId) -> (r: Result<Option<Block>, StoreError>)
        requires
            old(self).wf(),
        ensures
            final(self).wf(),
            final(self).blocks() == old(self).blocks(),
            r matches Ok(None) ==> !old(self).blocks().contains_key(block_id),
            r matches Ok(Some(b)) ==> {
                &&& old(self).blocks().contains_key(block_id)
                &&& b.spec_block_id() == block_id
                &&& b.spec_data() == old(self).blocks()[block_id]
                &&& !b.is_dirty()
            },
            final(self).spec_base_store() == old(self).spec_base_store(),
            old(self).spec_cache().contains_key(block_id) ==> (r matches Ok(Some(b))
                && b.spec_data() == old(self).spec_cache()[block_id].data@),
            !old(self).spec_cache().contains_key(block_id) && old(self).spec_base_store().blocks().contains_key(block_id) && old(self).spec_base_store().corrupt(block_id) ==> r is Err,
            r matches Ok(Some(_)) ==> final(self).spec_cache().contains_key(block_id),
            r matches Ok(Some(_)) && !old(self).spec_cache().contains_key(block_id) ==> final(self).spec_cache() == old(self).spec_cache().insert(
                block_id,
                final(self).spec_cache()[block_id],
            ) && final(self).spec_cache()[block_id].state == CacheEntryState::Clean && final(self).spec_cache()[block_id].base_state == BlockBaseStoreState::ExistsInBaseStore,
            !(r matches Ok(Some(_)) && !old(self).spec_cache().contains_key(block_id)) ==> final(self).spec_cache() == old(self).spec_cache(),
            old(self).spec_base_store().reliable() && (old(self).spec_cache().contains_key(block_id)
                || !(old(self).spec_base_store().blocks().contains_key(block_id) && old(self).spec_base_store().corrupt(block_id))) ==> r is Ok,
            old(self).healthy() ==> r is Ok,
    {
        match self.cache.get(&block_id) {
            Some(entry) => {
                let data = vstd::slice::slice_to_vec(entry.data.as_slice());
                return Ok(Some(Block { block_id, data, dirty: false }));
            },
            None => {},
        }
        match self.base_store.load(&block_id)? {
            None => Ok(None),
            Some(loaded) => {
                let data = vstd::slice::slice_to_vec(loaded.as_slice());
                let ghost m = self.cache@;
                let ghost before = self.blocks();
                let entry = CacheEntry {
                    data: loaded,
                    state: CacheEntryState::Clean,
                    base_state: BlockBaseStoreState::ExistsInBaseStore,
                };
                self.cache.insert(block_id, entry);
                proof {
                    lemma_not_in_base_insert(m, block_id, entry);
                    assert(not_in_base_ids(m).remove(block_id) =~= not_in_base_ids(m));
                    assert(self.blocks() =~= before);
                }
                Ok(Some(Block { block_id, data, dirty: false }))
            },
        }
    }

    /// Creates a block holding `data` under `block_id` unless a block is
    /// already there. The new block stays in the cache until flushed.
    pub fn try_create(&mut self, block_id: &BlockId, data: &[u8]) -> (r: Result<
        TryCreateResult,
        StoreError,
    >)
        requires
            old(self).wf(),
        ensures
            final(self).wf(),
            r matches Ok(TryCreateResult::SuccessfullyCreated) ==> !old(self).blocks().contains_key(
                *block_id,
            ) && final(self).blocks() == old(self).blocks().insert(*block_id, data@),
            r matches Ok(TryCreateResult::NotCreatedBecauseBlockIdAlreadyExists) ==> old(self).blocks().contains_key(*block_id) && final(self).blocks() == old(self).blocks(),
            r is Err ==> final(self).blocks() == old(self).blocks(),
            final(self).spec_base_store() == old(self).spec_base_store(),
            old(self).spec_cache().contains_key(*block_id) ==> r == Ok::<TryCreateResult, StoreError>(
                TryCreateResult::NotCreatedBecauseBlockIdAlreadyExists,
            ),
            r matches Ok(TryCreateResult::SuccessfullyCreated) ==> final(self).spec_cache().contains_key(*block_id) && final(self).spec_cache()[*block_id].state
                == CacheEntryState::Dirty && final(self).spec_cache()[*block_id].base_state
                == BlockBaseStoreState::DoesntExistInBaseStore,
            old(self).spec_base_store().reliable() ==> r is Ok,
    {
        if self.cache.contains(block_id) {
            return Ok(TryCreateResult::NotCreatedBecauseBlockIdAlreadyExists);
        }
        if self.base_store.contains_block(block_id)? {
            return Ok(TryCreateResult::NotCreatedBecauseBlockIdAlreadyExists);
        }
        let ghost m = self.cache@;
        let ghost before = self.blocks();
        let entry = CacheEntry {
            data: vstd::slice::slice_to_vec(data),
            state: CacheEntryState::Dirty,
            base_state: BlockBaseStoreState::DoesntExistInBaseStore,
        };
        proof {
            self.lemma_cache_finite();
        }
        self.cache.insert(*block_id, entry);
        let n = self.cache.len();
        proof {
            lemma_not_in_base_insert(m, *block_id, entry);
            lemma_not_in_base_bounded(self.cache@);
            assert(self.blocks() =~= before.insert(*block_id, data@));
        }
        self.num_blocks_in_cache_but_not_in_base_store = self.num_blocks_in_cache_but_not_in_base_store
            + 1;
        Ok(TryCreateResult::SuccessfullyCreated)
    }

    /// Stores `data` under `block_id`, replacing any block there, including
    /// changes not yet flushed. The block stays in the cache until flushed.
    pub fn overwrite(&mut self, block_id: &BlockId, data: &[u8]) -> (r: Result<(), StoreError>)
        requires
            old(self).wf(),
        ensures
            final(self).wf(),
            r is Ok ==> final(self).blocks() == old(self).blocks().insert(*block_id, data@),
            r is Err ==> final(self).blocks() == old(self).blocks(),
            final(self).spec_base_store() == old(self).spec_base_store(),
            old(self).spec_cache().contains_key(*block_id) ==> r is Ok,
            old(self).spec_base_store().reliable() ==> r is Ok,
            r is Ok ==> final(self).spec_cache().contains_key(*block_id) && final(self).spec_cache()[*block_id].state == CacheEntryState::Dirty,
    {
        let (cached, base_state) = match self.cache.get(block_id) {
            Some(entry) => (true, entry.base_state),
            None => {
                if self.base_store.contains_block(block_id)? {
                    (false, BlockBaseStoreState::ExistsInBaseStore)
                } else {
                    (false, BlockBaseStoreState::DoesntExistInBaseStore)
                }
            },
        };
        let ghost m = self.cache@;
        let ghost before = self.blocks();
        let entry = CacheEntry {
            data: vstd::slice::slice_to_vec(data),
            state: CacheEntryState::Dirty,
            base_state,
        };
        proof {
            self.lemma_cache_finite();
        }
        self.cache.insert(*block_id, entry);
        let n = self.cache.len();
        proof {
            lemma_not_in_base_insert(m, *block_id, entry);
            lemma_not_in_base_bounded(self.cache@);
            assert(self.blocks() =~= before.insert(*block_id, data@));
        }
        if !cached && base_state == BlockBaseStoreState::DoesntExistInBaseStore {
            self.num_blocks_in_cache_but_not_in_base_store = self.num_blocks_in_cache_but_not_in_base_store
                + 1;
        } else {
            proof {
                if cached && base_state == BlockBaseStoreState::DoesntExistInBaseStore {
                    assert(not_in_base_ids(m).insert(*block_id) =~= not_in_base_ids(m));
                } else {
                    assert(not_in_base_ids(m).remove(*block_id) =~= not_in_base_ids(m));
                }
            }
        }
        Ok(())
    }

    /// Removes the block stored under `block_id`, from the cache and from
    /// the store beneath.
    pub fn remove(&mut self, block_id: &BlockId) -> (r: Result<RemoveResult, StoreError>)
        requires
            old(self).wf(),
        ensures
            final(self).wf(),
            r matches Ok(RemoveResult::SuccessfullyRemoved) ==> old(self).blocks().contains_key(
                *block_id,
            ),
            r matches Ok(RemoveResult::NotRemovedBecauseItDoesntExist) ==> !old(self).blocks().contains_key(*block_id),
            r is Ok ==> final(self).blocks() == old(self).blocks().remove(*block_id),
            r is Err ==> final(self).blocks().dom() == old(self).blocks().dom(),
            old(self).spec_base_store().reliable() ==> r is Ok,
            final(self).spec_base_store().reliable() == old(self).spec_base_store().reliable(),
            final(self).spec_base_store().spec_max_block_len() == old(self).spec_base_store().spec_max_block_len(),
            old(self).healthy() ==> final(self).healthy(),
            old(self).spec_cache().contains_key(*block_id) && old(self).spec_cache()[*block_id].base_state
                == BlockBaseStoreState::DoesntExistInBaseStore ==> r == Ok::<RemoveResult, StoreError>(
                RemoveResult::SuccessfullyRemoved,
            ),
    {
        let ghost m = self.cache@;
        let ghost before = self.blocks();
        proof {
            self.lemma_cache_finite();
        }
        let (removed_from_cache, should_remove_from_base_store) = match self.cache.remove(
            block_id,
        ) {
            Some(entry) => {
                proof {
                    lemma_not_in_base_remove(m, *block_id);
                }
                if entry.base_state == BlockBaseStoreState::DoesntExistInBaseStore {
                    assert(not_in_base_ids(m).contains(*block_id));
                    self.num_blocks_in_cache_but_not_in_base_store = self.num_blocks_in_cache_but_not_in_base_store
                        - 1;
                } else {
                    assert(not_in_base_ids(m).remove(*block_id) =~= not_in_base_ids(m));
                }
                (true, entry.base_state == BlockBaseStoreState::ExistsInBaseStore)
            },
            None => {
                assert(m.remove(*block_id) =~= m);
                (false, true)
            },
        };
        let removed_from_base_store = if should_remove_from_base_store {
            let res = self.base_store.remove(block_id);
            proof {
                assert forall|id: BlockId| #[trigger]
                    self.cache@.contains_key(id) implies entry_agrees(
                    self.cache@[id],
                    self.base_store.blocks(),
                    id,
                ) by {
                    assert(m.contains_key(id));
                }
            }
            match res {
                Err(e) => {
                    return Err(e);
                },
                Ok(RemoveResult::SuccessfullyRemoved) => true,
                Ok(RemoveResult::NotRemovedBecauseItDoesntExist) => false,
            }
        } else {
            false
        };
        proof {
            assert forall|id: BlockId| #[trigger] self.cache@.contains_key(id) implies entry_agrees(
                self.cache@[id],
                self.base_store.blocks(),
                id,
            ) by {
                assert(m.contains_key(id));
            }
            assert(self.blocks() =~= before.remove(*block_id));
        }
        if removed_from_cache || removed_from_base_store {
            Ok(RemoveResult::SuccessfullyRemoved)
        } else {
            Ok(RemoveResult::NotRemovedBecauseItDoesntExist)
        }
    }

    /// The number of blocks that the store holds: those beneath, and those
    /// cached that are not beneath yet.
    pub fn num_blocks(&self) -> (r: Result<u64, StoreError>)
        requires
            self.wf(),
        ensures
            r matches Ok(n) ==> n == self.blocks().dom().len(),
            self.spec_base_store().reliable() ==> r is Ok || r == Err::<u64, StoreError>(
                StoreError::Overflow,
            ),
    {
        let base_count = self.base_store.num_blocks()?;
        proof {
            self.lemma_cache_finite();
            self.base_store.lemma_blocks_finite();
            let a = self.base_store.blocks().dom();
            let b = not_in_base_ids(self.cache@);
            assert(a.disjoint(b));
            assert(self.blocks().dom() =~= a + b);
            vstd::set_lib::lemma_set_disjoint_lens(a, b);
        }
        if base_count > u64::MAX - self.num_blocks_in_cache_but_not_in_base_store {
            return Err(StoreError::Overflow);
        }
        Ok(base_count + self.num_blocks_in_cache_but_not_in_base_store)
    }

    /// An estimate of the free space left beneath the store, in bytes.
    pub fn estimate_num_free_bytes(&self) -> (r: Result<u64, StoreError>)
        requires
            self.wf(),
        ensures
            self.spec_base_store().reliable() ==> r is Ok,
    {
        self.base_store.estimate_num_free_bytes()
    }

    /// The usable size of a block whose physical size is `block_size`, as
    /// the store beneath computes it.
    pub fn block_size_from_physical_block_size(&self, block_size: u64) -> (r: Result<
        u64,
        StoreError,
    >)
        requires
            self.wf(),
        ensures
            r matches Ok(n) ==> self.spec_base_store().spec_block_size_from_physical(block_size)
                == Some(n),
            self.spec_base_store().spec_block_size_from_physical(block_size) is None ==> r is Err,
            self.spec_base_store().reliable() && self.spec_base_store().spec_block_size_from_physical(
                block_size,
            ) is Some ==> r is Ok,
    {
        self.base_store.block_size_from_physical_block_size(block_size)
    }

    /// The ids of all blocks, each once: the cached ones first, then those
    /// beneath that are not cached.
    pub fn all_blocks(&self) -> (r: Result<Vec<BlockId>, StoreError>)
        requires
            self.wf(),
        ensures
            r matches Ok(v) ==> v@.no_duplicates() && v@.to_set() == self.blocks().dom(),
            self.spec_base_store().reliable() ==> r is Ok,
    {
        let mut result = self.cache.keys();
        let base_ids = self.base_store.all_blocks()?;
        let mut i: usize = 0;
        while i < base_ids.len()
            invariant
                self.wf(),
                i <= base_ids@.len(),
                base_ids@.no_duplicates(),
                base_ids@.to_set() == self.base_store.blocks().dom(),
                result@.no_duplicates(),
                result@.to_set() == self.cache@.dom() + base_ids@.subrange(0, i as int).to_set(),
            decreases base_ids@.len() - i,
        {
            let id = base_ids[i];
            let ghost prev = result@;
            if !self.cache.contains(&id) {
                proof {
                    assert(!base_ids@.subrange(0, i as int).contains(id)) by {
                        if base_ids@.subrange(0, i as int).contains(id) {
                            let j = choose|j: int|
                                0 <= j < i && base_ids@.subrange(0, i as int)[j] == id;
                            assert(base_ids@[j] == base_ids@[i as int]);
                        }
                    }
                    assert(!prev.to_set().contains(id));
                }
                result.push(id);
                proof {
                    prev.lemma_push_to_set_commute(id);
                    assert(result@ == prev.push(id));
                    assert forall|a: int, b: int|
                        0 <= a < b < result@.len() implies result@[a] != result@[b] by {
                        if b == prev.len() {
                            assert(prev.contains(prev[a]));
                        }
                    }
                }
            }
            assert(base_ids@.subrange(0, i + 1) =~= base_ids@.subrange(0, i as int).push(id));
            proof {
                base_ids@.subrange(0, i as int).lemma_push_to_set_commute(id);
            }
            assert(self.cache@.dom() + base_ids@.subrange(0, i + 1).to_set() =~= result@.to_set());
            i = i + 1;
        }
        assert(base_ids@.subrange(0, i as int) =~= base_ids@);
        assert(result@.to_set() =~= self.blocks().dom());
        Ok(result)
    }

    /// Creates a block holding `data` under a fresh random id, drawing again
    /// while the id drawn is taken.
    pub fn create(&mut self, data: &[u8]) -> (r: Result<BlockId, StoreError>)
        requires
            old(self).wf(),
        ensures
            final(self).wf(),
            r matches Ok(id) ==> !old(self).blocks().contains_key(id) && final(self).blocks()
                == old(self).blocks().insert(id, data@),
            r is Err ==> final(self).blocks() == old(self).blocks(),
            old(self).spec_base_store().reliable() ==> r is Ok || r == Err::<BlockId, StoreError>(
                StoreError::IdSpaceExhausted,
            ),
            final(self).spec_base_store() == old(self).spec_base_store(),
    {
        let ghost before = self.blocks();
        let mut attempts: u64 = 0;
        while attempts < MAX_CREATE_ATTEMPTS
            invariant
                self.wf(),
                self.blocks() == before,
                before == old(self).blocks(),
                self.spec_base_store() == old(self).spec_base_store(),
            decreases MAX_CREATE_ATTEMPTS - attempts,
        {
            let id = BlockId::new_random();
            match self.try_create(&id, data)? {
                TryCreateResult::SuccessfullyCreated => {
                    return Ok(id);
                },
                TryCreateResult::NotCreatedBecauseBlockIdAlreadyExists => {},
            }
            attempts = attempts + 1;
        }
        Err(StoreError::IdSpaceExhausted)
    }

    /// Whether the cache holds changes to `block_id` that the store beneath
    /// does not have yet.
    pub closed spec fn is_dirty_in_cache(&self, block_id: BlockId) -> bool {
        self.cache@.contains_key(block_id) && self.cache@[block_id].state == CacheEntryState::Dirty
    }

    /// Writes the cached changes to `block_id`, if any, to the store beneath.
    pub fn flush_block(&mut self, block_id: &BlockId) -> (r: Result<(), StoreError>)
        requires
            old(self).wf(),
        ensures
            final(self).wf(),
            final(self).blocks() == old(self).blocks(),
            final(self).spec_cache().dom() == old(self).spec_cache().dom(),
            r is Ok ==> !final(self).is_dirty_in_cache(*block_id),
            !old(self).is_dirty_in_cache(*block_id) ==> r is Ok,
            old(self).spec_base_store().reliable() && (old(self).is_dirty_in_cache(*block_id)
                ==> old(self).spec_cache()[*block_id].data@.len() <= old(self).spec_base_store().spec_max_block_len())
                ==> r is Ok,
            final(self).spec_base_store().reliable() == old(self).spec_base_store().reliable(),
            final(self).spec_base_store().spec_max_block_len() == old(self).spec_base_store().spec_max_block_len(),
            r is Ok && old(self).is_dirty_in_cache(*block_id) ==> final(self).spec_base_store().blocks()
                == old(self).spec_base_store().blocks().insert(
                *block_id,
                old(self).blocks()[*block_id],
            ),
            r is Ok && old(self).spec_cache().contains_key(*block_id) ==> final(self).spec_base_store().blocks().contains_key(*block_id)
                && final(self).spec_base_store().blocks()[*block_id] == old(self).blocks()[*block_id],
            old(self).healthy() ==> final(self).healthy(),
    {
        let ghost m = self.cache@;
        let ghost before = self.blocks();
        proof {
            self.lemma_cache_finite();
        }
        let base_state = match self.cache.get(block_id) {
            None => {
                return Ok(());
            },
            Some(entry) => {
                if entry.state == CacheEntryState::Clean {
                    return Ok(());
                }
                let stored = self.base_store.store(block_id, entry.data.as_slice());
                match stored {
                    Err(e) => {
                        return Err(e);
                    },
                    Ok(()) => {},
                }
                entry.base_state
            },
        };
        let entry = match self.cache.remove(block_id) {
            Some(e) => e,
            None => {
                return Ok(());
            },
        };
        let clean = CacheEntry {
            data: entry.data,
            state: CacheEntryState::Clean,
            base_state: BlockBaseStoreState::ExistsInBaseStore,
        };
        self.cache.insert(*block_id, clean);
        proof {
            lemma_not_in_base_insert(m.remove(*block_id), *block_id, clean);
            lemma_not_in_base_remove(m, *block_id);
            assert(m.remove(*block_id).insert(*block_id, clean).dom() =~= m.dom());
            assert forall|id: BlockId| #[trigger] self.cache@.contains_key(id) implies entry_agrees(
                self.cache@[id],
                self.base_store.blocks(),
                id,
            ) by {
                assert(m.contains_key(id));
            }
            assert(self.blocks() =~= before);
        }
        if base_state == BlockBaseStoreState::DoesntExistInBaseStore {
            assert(not_in_base_ids(m).contains(*block_id));
            self.num_blocks_in_cache_but_not_in_base_store = self.num_blocks_in_cache_but_not_in_base_store
                - 1;
        } else {
            assert(not_in_base_ids(m).remove(*block_id) =~= not_in_base_ids(m));
        }
        assert(self.cache@.dom() =~= m.dom());
        Ok(())
    }

    /// Flushes `block_id` and drops it from the cache.
    pub fn evict(&mut self, block_id: &BlockId) -> (r: Result<(), StoreError>)
        requires
            old(self).wf(),
        ensures
            final(self).wf(),
            final(self).blocks() == old(self).blocks(),
            r is Ok ==> final(self).spec_cache().dom() == old(self).spec_cache().dom().remove(
                *block_id,
            ),
            r is Err ==> final(self).spec_cache().dom() == old(self).spec_cache().dom(),
            old(self).spec_base_store().reliable() && (old(self).is_dirty_in_cache(*block_id)
                ==> old(self).spec_cache()[*block_id].data@.len() <= old(self).spec_base_store().spec_max_block_len())
                ==> r is Ok,
            final(self).spec_base_store().reliable() == old(self).spec_base_store().reliable(),
            final(self).spec_base_store().spec_max_block_len() == old(self).spec_base_store().spec_max_block_len(),
    {
        self.flush_block(block_id)?;
        let ghost m = self.cache@;
        let ghost before = self.blocks();
        proof {
            self.lemma_cache_finite();
        }
        let removed = self.cache.remove(block_id);
        proof {
            lemma_not_in_base_remove(m, *block_id);
            if m.contains_key(*block_id) {
                assert(not_in_base_ids(m).remove(*block_id) =~= not_in_base_ids(m));
            } else {
                assert(m.remove(*block_id) =~= m);
            }
            assert forall|id: BlockId| #[trigger] self.cache@.contains_key(id) implies entry_agrees(
                self.cache@[id],
                self.base_store.blocks(),
                id,
            ) by {
                assert(m.contains_key(id));
            }
            assert(self.blocks() =~= before);
        }
        Ok(())
    }

    /// Flushes every cached block and empties the cache.
    pub fn evict_all(&mut self) -> (r: Result<(), StoreError>)
        requires
            old(self).wf(),
        ensures
            final(self).wf(),
            final(self).blocks() == old(self).blocks(),
            r is Ok ==> final(self).spec_cache() == Map::<BlockId, CacheEntry>::empty(),
    {
        let keys = self.cache.keys();
        let ghost before = self.blocks();
        proof {
            assert(keys@.subrange(0, keys@.len() as int) =~= keys@);
            assert forall|id: BlockId| #[trigger] self.cache@.contains_key(id) implies keys@.contains(
                id,
            ) by {
                assert(keys@.to_set().contains(id));
            }
        }
        let mut i: usize = 0;
        while i < keys.len()
            invariant
                self.wf(),
                self.blocks() == before,
                before == old(self).blocks(),
                i <= keys@.len(),
                forall|id: BlockId| #[trigger]
                    self.cache@.contains_key(id) ==> keys@.subrange(i as int, keys@.len() as int).contains(id),
            decreases keys@.len() - i,
        {
            let id = keys[i];
            self.evict(&id)?;
            proof {
                assert forall|k: BlockId| #[trigger]
                    self.cache@.contains_key(k) implies keys@.subrange(
                    i + 1,
                    keys@.len() as int,
                ).contains(k) by {
                    let tail = keys@.subrange(i as int, keys@.len() as int);
                    let j = choose|j: int| 0 <= j < tail.len() && tail[j] == k;
                    assert(j != 0);
                    assert(keys@.subrange(i + 1, keys@.len() as int)[j - 1] == k);
                }
            }
            i = i + 1;
        }
        proof {
            assert(self.cache@.dom() =~= Set::empty());
            assert(self.cache@ =~= Map::<BlockId, CacheEntry>::empty());
        }
        Ok(())
    }

    /// Hands a block back. Where it was changed and a block is still stored
    /// under its id, its bytes replace that block and the entry is left
    /// dirty; a block removed in the meantime stays removed.
    pub fn release(&mut self, block: Block) -> (r: Result<(), StoreError>)
        requires
            old(self).wf(),
        ensures
            final(self).wf(),
            final(self).spec_base_store() == old(self).spec_base_store(),
            r is Ok && block.is_dirty() && old(self).blocks().contains_key(block.spec_block_id())
                ==> final(self).blocks() == old(self).blocks().insert(
                block.spec_block_id(),
                block.spec_data(),
            ) && final(self).is_dirty_in_cache(block.spec_block_id()),
            !(r is Ok && block.is_dirty() && old(self).blocks().contains_key(block.spec_block_id()))
                ==> final(self).blocks() == old(self).blocks(),
            !block.is_dirty() ==> r is Ok,
            old(self).spec_base_store().reliable() ==> r is Ok,
    {
        if !block.dirty {
            return Ok(());
        }
        proof {
            self.lemma_blocks_view();
        }
        let present = if self.cache.contains(&block.block_id) {
            true
        } else {
            self.base_store.contains_block(&block.block_id)?
        };
        if !present {
            return Ok(());
        }
        self.overwrite(&block.block_id, block.data.as_slice())
    }

    /// Tears the store down: flushes every cached block and hands back the
    /// store beneath, which then holds every block.
    pub fn into_base_store(self) -> (r: Result<B, StoreError>)
        requires
            self.wf(),
        ensures
            r matches Ok(b) ==> b.wf() && b.blocks() == self.blocks(),
    {
        let mut store = self;
        store.evict_all()?;
        proof {
            assert(store.blocks() =~= store.base_store.blocks());
        }
        Ok(store.base_store)
    }
}

/// After a block is removed, loading it finds nothing and listing the
/// blocks does not name it.
pub proof fn lemma_removed_block_is_gone<B: BlockStore>(
    before: LockingBlockStore<B>,
    after: LockingBlockStore<B>,
    block_id: BlockId,
    listed: Seq<BlockId>,
)
    requires
        after.blocks() == before.blocks().remove(block_id),
        listed.to_set() == after.blocks().dom(),
    ensures
        !after.blocks().contains_key(block_id),
        !listed.contains(block_id),
{
    assert(!listed.to_set().contains(block_id));
}

/// The block count is the number of ids under which a block loads.
pub proof fn lemma_num_blocks_counts_loadable<B: BlockStore>(store: LockingBlockStore<B>, n: u64)
    requires
        n == store.blocks().dom().len(),
    ensures
        n == Set::new(|id: BlockId| store.blocks().contains_key(id)).len(),
{
    assert(Set::new(|id: BlockId| store.blocks().contains_key(id)) =~= store.blocks().dom());
}

} // verus!
