//! The state of the consensus graph, and what holds of every state that can be
//! reached.

use vstd::prelude::*;
use crate::address::Address;
use crate::block_id::BlockId;
use crate::config::ConsensusConfig;
use crate::graph::{one_blockclique, ActiveBlock, BlockStatus, Clique, DiscardReason};
use crate::id_map::IdMap;
use crate::id_set::ids_distinct;
use crate::time::MassaTime;

verus! {

/// Why an operation on the graph failed.
#[derive(Clone, Copy, Debug, PartialEq, Eq, Structural)]
pub enum GraphError {
    /// A genesis block could not be created.
    GenesisCreationError,
    /// A block that must be in the store is not.
    MissingBlock,
    /// A fitness does not fit.
    FitnessOverflow,
    /// A time or a slot does not fit.
    TimeOverflow,
    /// The configuration cannot be run.
    ConfigError,
    /// A block of a bootstrap snapshot is not one of the graph.
    InvalidBootstrap,
}

/// The state of the consensus graph.
pub struct ConsensusState {
    /// Configuration.
    pub config: ConsensusConfig,
    /// The blocks that the block store holds, each once.
    pub stored_blocks: Vec<BlockId>,
    /// The cliques: the maximal sets of pairwise compatible blocks.
    pub max_cliques: Vec<Clique>,
    /// Counter of the events that are put in order.
    pub sequence_counter: u64,
    /// The blocks to hand to the protocol for propagation.
    pub to_propagate: Vec<BlockId>,
    /// Number of attack attempts seen.
    pub attack_attempts: u64,
    /// The blocks that became final and were not yet announced.
    pub new_final_blocks: Vec<BlockId>,
    /// The blocks that became stale and were not yet announced.
    pub new_stale_blocks: Vec<BlockId>,
    /// For each thread, the latest final block and its period.
    pub latest_final_blocks_periods: Vec<(BlockId, u64)>,
    /// For each thread, the best parent for a new block and its period.
    pub best_parents: Vec<(BlockId, u64)>,
    /// Every known block with its status.
    pub block_statuses: IdMap<BlockStatus>,
    /// The genesis blocks, one per thread.
    pub genesis_hashes: Vec<BlockId>,
    /// For each block that is active and not final, the blocks that are active,
    /// not final, and incompatible with it.
    pub gi_head: IdMap<Vec<BlockId>>,
    /// The blocks asked of the protocol.
    pub wishlist: Vec<BlockId>,
    /// Start times, creators and staleness of the latest final blocks.
    pub final_block_stats: Vec<(MassaTime, Address, bool)>,
    /// Times of the latest stale blocks.
    pub stale_block_stats: Vec<MassaTime>,
    /// Times at which the protocol handed blocks in.
    pub protocol_blocks: Vec<(MassaTime, BlockId)>,
    /// When the node was started.
    pub launch_time: MassaTime,
    /// Time span over which a lack of final blocks counts as a desynchronization.
    pub stats_desync_detection_timespan: MassaTime,
    /// Time span over which statistics are kept.
    pub stats_history_timespan: MassaTime,
    /// The blocks of the blockclique when it was last announced.
    pub prev_blockclique: Vec<BlockId>,
}

/// Whether `a` and `b` are recorded as incompatible.
pub open spec fn incompatible(gi: IdMap<Vec<BlockId>>, a: BlockId, b: BlockId) -> bool {
    (gi.has(a) && gi.value(a)@.contains(b)) || (gi.has(b) && gi.value(b)@.contains(a))
}

/// Whether no two blocks of one clique are recorded as incompatible.
pub open spec fn cliques_compatible(cliques: Seq<Clique>, gi: IdMap<Vec<BlockId>>) -> bool {
    forall|k: int, a: BlockId, b: BlockId|
        0 <= k < cliques.len() && #[trigger] cliques[k].block_ids@.contains(a)
            && #[trigger] cliques[k].block_ids@.contains(b) ==> !incompatible(gi, a, b)
}

/// Whether a block is known and active.
pub open spec fn is_active(statuses: IdMap<BlockStatus>, id: BlockId) -> bool {
    statuses.has(id) && statuses.value(id) is Active
}

/// Whether a block is known, active and final.
pub open spec fn is_final(statuses: IdMap<BlockStatus>, id: BlockId) -> bool {
    statuses.has(id) && (statuses.value(id) matches BlockStatus::Active { a_block, .. }
        && a_block.is_final)
}

/// Whether a block is known and discarded.
pub open spec fn is_discarded(statuses: IdMap<BlockStatus>, id: BlockId) -> bool {
    statuses.has(id) && statuses.value(id) is Discarded
}

/// Whether a block is known and discarded for having been final.
pub open spec fn is_pruned(statuses: IdMap<BlockStatus>, id: BlockId) -> bool {
    statuses.has(id) && (statuses.value(id) matches BlockStatus::Discarded { reason, .. }
        && reason == DiscardReason::Final)
}

/// The active block of an identifier.
pub open spec fn active_block(statuses: IdMap<BlockStatus>, id: BlockId) -> ActiveBlock {
    statuses.value(id)->a_block
}

/// Whether every parent of a final block that is known is final too, or was
/// final and is no longer kept.
pub open spec fn finals_closed(statuses: IdMap<BlockStatus>) -> bool {
    forall|id: BlockId, k: int|
        is_final(statuses, id) && 0 <= k < active_block(statuses, id).parents@.len()
            && statuses.has(#[trigger] active_block(statuses, id).parents@[k].0) ==> is_final(
            statuses,
            active_block(statuses, id).parents@[k].0,
        ) || is_pruned(statuses, active_block(statuses, id).parents@[k].0)
}

/// Whether every parent of an active block that is known is active or discarded:
/// none is still on its way into the graph.
pub open spec fn parents_settled(statuses: IdMap<BlockStatus>) -> bool {
    forall|id: BlockId, k: int|
        is_active(statuses, id) && 0 <= k < active_block(statuses, id).parents@.len()
            && statuses.has(#[trigger] active_block(statuses, id).parents@[k].0) ==> is_active(
            statuses,
            active_block(statuses, id).parents@[k].0,
        ) || is_discarded(statuses, active_block(statuses, id).parents@[k].0)
}

/// Whether the cliques hold active blocks only, each once.
pub open spec fn cliques_hold_actives(cliques: Seq<Clique>, statuses: IdMap<BlockStatus>) -> bool {
    &&& forall|k: int| 0 <= k < cliques.len() ==> ids_distinct(#[trigger] cliques[k].block_ids@)
    &&& forall|k: int, a: BlockId|
        0 <= k < cliques.len() && #[trigger] cliques[k].block_ids@.contains(a) ==> is_active(
            statuses,
            a,
        )
}

/// Whether the record of incompatibilities speaks of blocks that are active and not
/// final only, each once.
pub open spec fn gi_holds_actives(gi: IdMap<Vec<BlockId>>, statuses: IdMap<BlockStatus>) -> bool {
    &&& forall|a: BlockId| #[trigger]
        gi.has(a) ==> is_active(statuses, a) && !is_final(statuses, a) && ids_distinct(
            gi.value(a)@,
        )
    &&& forall|a: BlockId, b: BlockId|
        gi.has(a) && #[trigger] gi.value(a)@.contains(b) ==> is_active(statuses, b) && !is_final(
            statuses,
            b,
        )
}

/// Whether the links of every active block are in order.
pub open spec fn links_in_order(statuses: IdMap<BlockStatus>, thread_count: u8) -> bool {
    forall|i: int|
        0 <= i < statuses.entries@.len() ==> ((#[trigger] statuses.entries@[i]).1 matches BlockStatus::Active {
            a_block,
            ..
        } ==> a_block.links_wf(thread_count))
}

impl ConsensusState {
    /// What holds of every state that can be reached.
    pub open spec fn wf(&self) -> bool {
        &&& self.config.valid()
        &&& self.block_statuses.wf()
        &&& links_in_order(self.block_statuses, self.config.thread_count)
        &&& self.gi_head.wf()
        &&& one_blockclique(self.max_cliques@)
        &&& cliques_compatible(self.max_cliques@, self.gi_head)
        &&& cliques_hold_actives(self.max_cliques@, self.block_statuses)
        &&& gi_holds_actives(self.gi_head, self.block_statuses)
        &&& finals_closed(self.block_statuses)
        &&& parents_settled(self.block_statuses)
        &&& self.latest_final_blocks_periods@.len() == self.config.thread_count
    }

    /// Whether the latest final periods of `self` are not behind those of `before`.
    pub open spec fn finality_not_behind(&self, before: &ConsensusState) -> bool {
        &&& self.latest_final_blocks_periods@.len() == before.latest_final_blocks_periods@.len()
        &&& forall|t: int|
            0 <= t < before.latest_final_blocks_periods@.len()
                ==> before.latest_final_blocks_periods@[t].1
                <= #[trigger] self.latest_final_blocks_periods@[t].1
    }

    /// Whether every block that was discarded or final in `before` is still so in
    /// `self`, if it is still known: a discarded block has the status it had, a final
    /// block is final or is discarded for having been final.
    pub open spec fn keeps_settled(&self, before: &ConsensusState) -> bool {
        forall|id: BlockId| #[trigger]
            self.block_statuses.has(id) ==> {
                &&& is_discarded(before.block_statuses, id) ==> self.block_statuses.value(id)
                    == before.block_statuses.value(id)
                &&& is_final(before.block_statuses, id) ==> is_final(self.block_statuses, id)
                    || is_pruned(self.block_statuses, id)
            }
    }

    /// Whether `self` can follow `before`: finality has not gone back, what was
    /// settled is still settled, what was in the graph has left it, if at all, by
    /// being discarded, and what is still in it is the block that it was.
    pub open spec fn follows(&self, before: &ConsensusState) -> bool {
        self.finality_not_behind(before) && self.keeps_settled(before) && self.keeps_in_graph(
            before,
        ) && self.keeps_blocks(before)
    }

    /// Whether every block that is active in `before` and in `self` is the same
    /// block: it has the creator, the slot, the parents and the fitness that it had.
    pub open spec fn keeps_blocks(&self, before: &ConsensusState) -> bool {
        forall|id: BlockId| #[trigger]
            self.block_statuses.has(id) && is_active(before.block_statuses, id) && is_active(
                self.block_statuses,
                id,
            ) ==> {
                let x = active_block(before.block_statuses, id);
                let y = active_block(self.block_statuses, id);
                &&& y.block_id == x.block_id
                &&& y.creator_address == x.creator_address
                &&& y.slot == x.slot
                &&& y.parents == x.parents
                &&& y.fitness == x.fitness
            }
    }

    /// Whether every block that was active in `before` and is still known is active
    /// or discarded in `self`: no block leaves the graph but by being discarded.
    pub open spec fn keeps_in_graph(&self, before: &ConsensusState) -> bool {
        forall|id: BlockId| #[trigger]
            self.block_statuses.has(id) && is_active(before.block_statuses, id) ==> is_active(
                self.block_statuses,
                id,
            ) || is_discarded(self.block_statuses, id)
    }

    /// The state before any block is known: one empty clique, which is the
    /// blockclique, and no final block. `now` is the time at which the node starts.
    /// Fails where twice the time of a cycle does not fit.
    pub fn new(config: ConsensusConfig, now: MassaTime) -> (r: Result<ConsensusState, GraphError>)
        ensures
            !config.valid() ==> r == Err::<ConsensusState, _>(GraphError::ConfigError),
            config.valid() && config.t0.millis * (config.periods_per_cycle * 2) > u64::MAX ==> r
                == Err::<ConsensusState, _>(GraphError::TimeOverflow),
            config.valid() && config.t0.millis * (config.periods_per_cycle * 2) <= u64::MAX ==> {
                &&& r is Ok
                &&& r.unwrap().max_cliques@.len() == 1
                &&& r.unwrap().max_cliques@[0].block_ids@.len() == 0
                &&& r.unwrap().max_cliques@[0].fitness == 0
                &&& r.unwrap().max_cliques@[0].is_blockclique
                &&& r.unwrap().config == config
                &&& r.unwrap().sequence_counter == 0
                &&& r.unwrap().attack_attempts == 0
                &&& r.unwrap().block_statuses.entries@.len() == 0
                &&& r.unwrap().gi_head.entries@.len() == 0
                &&& r.unwrap().latest_final_blocks_periods@.len() == 0
                &&& r.unwrap().best_parents@.len() == 0
                &&& r.unwrap().genesis_hashes@.len() == 0
                &&& r.unwrap().launch_time == now
                &&& r.unwrap().stats_desync_detection_timespan.millis == config.t0.millis * (
                config.periods_per_cycle * 2)
                &&& r.unwrap().stats_history_timespan.millis == if config.stats_timespan.millis
                    > config.t0.millis * (config.periods_per_cycle * 2) {
                    config.stats_timespan.millis as int
                } else {
                    config.t0.millis * (config.periods_per_cycle * 2)
                }
            },
    {
        if !config.is_valid() {
            return Err(GraphError::ConfigError);
        }
        let factor = match config.periods_per_cycle.checked_mul(2) {
            Some(f) => f,
            None => {
                assert(config.t0.millis * (config.periods_per_cycle * 2) > u64::MAX)
                    by (nonlinear_arith)
                    requires
                        config.t0.millis >= 1,
                        config.periods_per_cycle * 2 > u64::MAX,
                ;
                return Err(GraphError::TimeOverflow);
            },
        };
        let stats_desync_detection_timespan = match config.t0.checked_mul(factor) {
            Ok(t) => t,
            Err(_) => { return Err(GraphError::TimeOverflow); },
        };
        let stats_history_timespan = if config.stats_timespan.millis
            > stats_desync_detection_timespan.millis {
            config.stats_timespan
        } else {
            stats_desync_detection_timespan
        };
        let mut max_cliques: Vec<Clique> = Vec::new();
        max_cliques.push(Clique { block_ids: Vec::new(), fitness: 0, is_blockclique: true });
        Ok(
            ConsensusState {
                config,
                stored_blocks: Vec::new(),
                max_cliques,
                sequence_counter: 0,
                to_propagate: Vec::new(),
                attack_attempts: 0,
                new_final_blocks: Vec::new(),
                new_stale_blocks: Vec::new(),
                latest_final_blocks_periods: Vec::new(),
                best_parents: Vec::new(),
                block_statuses: IdMap::new(),
                genesis_hashes: Vec::new(),
                gi_head: IdMap::new(),
                wishlist: Vec::new(),
                final_block_stats: Vec::new(),
                stale_block_stats: Vec::new(),
                protocol_blocks: Vec::new(),
                launch_time: now,
                stats_desync_detection_timespan,
                stats_history_timespan,
                prev_blockclique: Vec::new(),
            },
        )
    }
}

} // verus!
