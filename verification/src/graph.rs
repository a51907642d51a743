//! The data of the consensus graph: active blocks, block statuses, cliques.

use vstd::prelude::*;
use crate::address::Address;
use crate::block::BlockHeader;
use crate::block_id::BlockId;
use crate::id_map::IdMap;
use crate::id_set::ids_distinct;
use crate::slot::Slot;

verus! {

/// A set of pairwise compatible blocks.
#[derive(Clone, Debug)]
pub struct Clique {
    /// The blocks of the clique, each once.
    pub block_ids: Vec<BlockId>,
    /// Sum of the fitnesses of the blocks of the clique that are not final.
    pub fitness: u64,
    /// Whether this clique is the blockclique.
    pub is_blockclique: bool,
}

/// A block of the graph.
#[derive(Clone, Debug)]
pub struct ActiveBlock {
    /// Address of the creator of the block.
    pub creator_address: Address,
    /// Identifier of the block.
    pub block_id: BlockId,
    /// Parents of the block with their periods, one per thread; none for a genesis
    /// block.
    pub parents: Vec<(BlockId, u64)>,
    /// For each thread, the children of the block in that thread, with their
    /// periods.
    pub children: Vec<IdMap<u64>>,
    /// The blocks that descend from the block, each once.
    pub descendants: Vec<BlockId>,
    /// Whether the block is final.
    pub is_final: bool,
    /// Slot of the block.
    pub slot: Slot,
    /// Fitness of the block: one, plus one per endorsement.
    pub fitness: u64,
}

/// A handle on the block store: the blocks that it keeps alive.
#[derive(Clone, Debug)]
pub struct Storage {
    /// The blocks on which the handle holds a reference, each once.
    pub block_refs: Vec<BlockId>,
}

/// Why a block was discarded.
#[derive(Clone, Copy, Debug, PartialEq, Eq, Structural)]
pub enum DiscardReason {
    /// The block is not valid.
    Invalid,
    /// The block is incompatible with a final block, or too old.
    Stale,
    /// The block was final and is no longer kept.
    Final,
}

/// What was received of a block: its header, and whether the whole block came
/// with it.
#[derive(Clone, Debug)]
pub struct HeaderOrBlock {
    pub header: BlockHeader,
    pub is_block: bool,
}

/// The status of a block.
#[derive(Clone, Debug)]
pub enum BlockStatus {
    /// Just received, not yet looked at.
    Incoming(HeaderOrBlock),
    /// Its slot is still in the future.
    WaitingForSlot(HeaderOrBlock),
    /// Some blocks that it depends on are not known.
    WaitingForDependencies {
        header_or_block: HeaderOrBlock,
        /// The blocks that are missing, each once.
        unsatisfied_dependencies: Vec<BlockId>,
        /// When the block started to wait: larger is later.
        sequence_number: u64,
    },
    /// Part of the graph.
    Active { a_block: ActiveBlock, storage: Storage },
    /// Rejected for good.
    Discarded {
        slot: Slot,
        creator: Address,
        parents: Vec<BlockId>,
        reason: DiscardReason,
        /// When the block was discarded: larger is later.
        sequence_number: u64,
    },
}

/// Whether exactly one clique of a list is flagged as the blockclique.
pub open spec fn one_blockclique(cliques: Seq<Clique>) -> bool {
    exists|k: int|
        0 <= k < cliques.len() && cliques[k].is_blockclique && forall|j: int|
            0 <= j < cliques.len() && j != k ==> !(#[trigger] cliques[j]).is_blockclique
}

/// Whether a key occurs in a list of pairs.
pub open spec fn pairs_have(list: Seq<(BlockId, u64)>, id: BlockId) -> bool {
    exists|i: int| 0 <= i < list.len() && list[i].0 == id
}

impl ActiveBlock {
    /// Whether `id` is a parent of the block.
    pub open spec fn has_parent(&self, id: BlockId) -> bool {
        pairs_have(self.parents@, id)
    }

    /// Whether the links of the block are in order when there are `thread_count`
    /// threads: its thread is one of them, it has a map of children for each
    /// thread, and no descendant is listed twice.
    pub open spec fn links_wf(&self, thread_count: u8) -> bool {
        &&& self.slot.thread < thread_count
        &&& self.children@.len() == thread_count
        &&& forall|t: int| 0 <= t < self.children@.len() ==> (#[trigger] self.children@[t]).wf()
        &&& ids_distinct(self.descendants@)
    }

    /// Whether `id` is a parent of the block.
    pub fn is_child_of(&self, id: &BlockId) -> (r: bool)
        ensures
            r == self.has_parent(*id),
    {
        let mut k: usize = 0;
        while k < self.parents.len()
            invariant
                k <= self.parents@.len(),
                forall|j: int| 0 <= j < k ==> self.parents@[j].0 != *id,
            decreases self.parents@.len() - k,
        {
            if self.parents[k].0 == *id {
                return true;
            }
            k += 1;
        }
        false
    }
}

impl Storage {
    /// A handle that keeps nothing alive.
    pub fn new() -> (r: Storage)
        ensures
            r.block_refs@.len() == 0,
    {
        Storage { block_refs: Vec::new() }
    }
}

} // verus!
