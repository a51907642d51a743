//! Snapshots of the final blocks of a graph, by which a node joins.

use vstd::prelude::*;
use crate::address::Address;
use crate::block::{spec_block_id, Block, BlockHeader};
use crate::block_id::BlockId;
use crate::graph::{ActiveBlock, Storage};
use crate::id_map::IdMap;
use crate::state::GraphError;

verus! {

/// A block of a snapshot: the block, its parents with their periods, and whether it
/// is final.
#[derive(Clone, Debug)]
pub struct ExportActiveBlock {
    pub block: Block,
    pub parents: Vec<(BlockId, u64)>,
    pub is_final: bool,
}

/// A snapshot of a graph: its final blocks.
#[derive(Clone, Debug)]
pub struct BootstrapableGraph {
    pub final_blocks: Vec<ExportActiveBlock>,
}

/// Whether `thread_count` maps of children are all empty.
pub open spec fn no_children(children: Seq<IdMap<u64>>, thread_count: u8) -> bool {
    &&& children.len() == thread_count
    &&& forall|t: int| 0 <= t < children.len() ==> (#[trigger] children[t]).entries@.len() == 0
}

/// As many empty maps of children as there are threads.
pub fn empty_children(thread_count: u8) -> (r: Vec<IdMap<u64>>)
    ensures
        no_children(r@, thread_count),
        forall|t: int| 0 <= t < r@.len() ==> (#[trigger] r@[t]).wf(),
{
    let mut out: Vec<IdMap<u64>> = Vec::new();
    let mut t: u8 = 0;
    while t < thread_count
        invariant
            t <= thread_count,
            out@.len() == t,
            forall|k: int| 0 <= k < out@.len() ==> (#[trigger] out@[k]).entries@.len() == 0,
            forall|k: int| 0 <= k < out@.len() ==> (#[trigger] out@[k]).wf(),
        decreases thread_count - t,
    {
        out.push(IdMap::new());
        t += 1;
    }
    out
}

/// A copy of a list of parents.
pub fn clone_parents(parents: &Vec<(BlockId, u64)>) -> (r: Vec<(BlockId, u64)>)
    ensures
        r@ == parents@,
{
    let mut out: Vec<(BlockId, u64)> = Vec::new();
    let mut i: usize = 0;
    while i < parents.len()
        invariant
            i <= parents@.len(),
            out@ == parents@.subrange(0, i as int),
        decreases parents@.len() - i,
    {
        out.push(parents[i]);
        assert(out@ =~= parents@.subrange(0, i + 1));
        i += 1;
    }
    assert(parents@.subrange(0, parents@.len() as int) =~= parents@);
    out
}

impl ExportActiveBlock {
    /// Whether the block can enter a graph with `thread_count` threads: its thread
    /// is one of them, and its endorsements can be counted.
    pub open spec fn importable(&self, thread_count: u8) -> bool {
        self.block@.header.content.slot.thread < thread_count
            && self.block@.header.content.endorsements.len() <= u32::MAX
    }

    /// Whether `a` with the handle `s` is what the block enters a graph as: a final
    /// block without children or descendants yet, whose handle holds the block
    /// itself.
    pub open spec fn imported_as(&self, a: ActiveBlock, s: Storage, thread_count: u8) -> bool {
        &&& a.block_id@ == spec_block_id(self.block@.header)
        &&& a.creator_address@ == Address::spec_from_public_key(self.block@.header.content.creator)
        &&& a.parents@ == self.parents@
        &&& no_children(a.children@, thread_count)
        &&& a.descendants@.len() == 0
        &&& a.is_final
        &&& a.slot == self.block@.header.content.slot
        &&& a.fitness == BlockHeader::spec_fitness(self.block@.header.content.endorsements.len())
        &&& s.block_refs@ == seq![a.block_id]
        &&& a.links_wf(thread_count)
    }

    /// What the block enters a graph as, with the handle that keeps it in the
    /// store. The blocks of a snapshot enter as final blocks.
    pub fn to_active_block(&self, thread_count: u8) -> (r: Result<
        (ActiveBlock, Storage),
        GraphError,
    >)
        ensures
            !self.importable(thread_count) ==> r == Err::<(ActiveBlock, Storage), _>(
                GraphError::InvalidBootstrap,
            ),
            self.importable(thread_count) ==> r is Ok && self.imported_as(
                r.unwrap().0,
                r.unwrap().1,
                thread_count,
            ),
    {
        let slot = self.block.header.content.slot;
        if slot.thread >= thread_count {
            return Err(GraphError::InvalidBootstrap);
        }
        let block_id = match self.block.header.compute_block_id() {
            Ok(id) => id,
            Err(_) => { return Err(GraphError::InvalidBootstrap); },
        };
        let mut block_refs: Vec<BlockId> = Vec::new();
        block_refs.push(block_id);
        let active = ActiveBlock {
            creator_address: Address::from_public_key(&self.block.header.content.creator),
            block_id,
            parents: clone_parents(&self.parents),
            children: empty_children(thread_count),
            descendants: Vec::new(),
            is_final: true,
            slot,
            fitness: self.block.header.get_fitness(),
        };
        assert(block_refs@ =~= seq![block_id]);
        Ok((active, Storage { block_refs }))
    }
}

} // verus!
