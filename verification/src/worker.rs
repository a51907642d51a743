//! The worker of the consensus: how it starts, from the genesis blocks or from a
//! snapshot.

use vstd::prelude::*;
use crate::address::Address;
use crate::block::{
    block_ids_view,
    endorsements_view,
    operations_view,
    spec_block_id,
    spec_header_signed,
    Block,
    BlockHeader,
    BlockHeaderContent,
    BlockHeaderContentView,
    BlockView,
};
use crate::block_id::BlockId;
use crate::bootstrap::{empty_children, no_children, BootstrapableGraph, ExportActiveBlock};
use crate::config::ConsensusConfig;
use crate::endorsement::EndorsementView;
use crate::graph::{one_blockclique, ActiveBlock, BlockStatus, Clique, Storage};
use crate::hash::blake3_digest;
use crate::id_map::IdMap;
use crate::id_set::{id_list_insert, id_set};
use crate::links::{all_parents_claimable, links_claimed};
use crate::operation::OperationView;
use crate::signature::{derive_public_key, spec_derive_public_key};
use crate::slot::Slot;
use crate::state::{is_active, is_final, ConsensusState, GraphError};
use crate::time::{
    get_block_slot_timestamp,
    get_latest_block_slot_at_timestamp,
    spec_block_slot_timestamp,
    spec_latest_block_slot_at_timestamp,
    MassaTime,
};

verus! {

/// What the header of the genesis block of a thread says, when `creator` is the
/// public key of the genesis key.
pub open spec fn genesis_content(creator: Seq<u8>, thread: u8) -> BlockHeaderContentView {
    BlockHeaderContentView {
        creator,
        slot: Slot { period: 0, thread },
        parents: Seq::empty(),
        operation_merkle_root: blake3_digest(Seq::empty()),
        endorsements: Seq::empty(),
    }
}

/// Whether a block is a genesis block of a thread under a genesis key: it is at
/// period 0 of the thread, has no parents, endorsements or operations, and is
/// signed with the key.
pub open spec fn is_genesis_block(b: BlockView, genesis_key: Seq<u8>, thread: u8) -> bool {
    &&& b.header.content == genesis_content(spec_derive_public_key(genesis_key), thread)
    &&& b.operations == Seq::<OperationView>::empty()
    &&& spec_header_signed(b.header)
}

/// Whether an identifier is that of a genesis block of a thread under a genesis
/// key.
pub open spec fn is_genesis_id(id: Seq<u8>, genesis_key: Seq<u8>, thread: u8) -> bool {
    exists|b: BlockView| #[trigger]
        is_genesis_block(b, genesis_key, thread) && id == spec_block_id(b.header)
}

/// Creates the genesis block of a thread: its identifier, and the block. Signing
/// draws randomness, so two genesis blocks of one thread may differ in their
/// signatures, and so in their identifiers.
pub fn create_genesis_block(cfg: &ConsensusConfig, thread_number: u8) -> (r: Result<
    (BlockId, Block),
    GraphError,
>)
    ensures
        r is Ok,
        is_genesis_block(r.unwrap().1@, cfg.genesis_key@, thread_number),
        r.unwrap().0@ == spec_block_id(r.unwrap().1@.header),
        is_genesis_id(r.unwrap().0@, cfg.genesis_key@, thread_number),
{
    let empty: Vec<u8> = Vec::new();
    let content = BlockHeaderContent {
        creator: derive_public_key(&cfg.genesis_key),
        slot: Slot::new(0, thread_number),
        parents: Vec::new(),
        operation_merkle_root: crate::hash::Hash::compute_from(empty.as_slice()),
        endorsements: Vec::new(),
    };
    proof {
        assert(block_ids_view(content.parents@) =~= Seq::<Seq<u8>>::empty());
        assert(endorsements_view(content.endorsements@) =~= Seq::<EndorsementView>::empty());
        assert(empty@ =~= Seq::<u8>::empty());
        assert(content@ == genesis_content(
            spec_derive_public_key(cfg.genesis_key@),
            thread_number,
        ));
    }
    match BlockHeader::new_signed(&cfg.genesis_key, content) {
        Ok((id, header)) => {
            let block = Block { header, operations: Vec::new() };
            proof {
                assert(operations_view(block.operations@) =~= Seq::<OperationView>::empty());
                assert(is_genesis_block(block@, cfg.genesis_key@, thread_number));
            }
            Ok((id, block))
        },
        Err(_) => Err(GraphError::GenesisCreationError),
    }
}

/// The times that a worker starts with.
#[derive(Clone, Copy, Debug, PartialEq, Eq, Structural)]
pub struct TimePlan {
    /// The latest slot that has started, if any has.
    pub previous_slot: Option<Slot>,
    /// The slot that comes next.
    pub next_slot: Slot,
    /// The time at which the next slot starts.
    pub next_timestamp: MassaTime,
    /// Time span over which a lack of final blocks counts as a desynchronization:
    /// two cycles.
    pub stats_desync_detection_timespan: MassaTime,
    /// Time span over which statistics are kept: the larger of the configured span
    /// and the span above.
    pub stats_history_timespan: MassaTime,
}

/// The times that a worker starts with at `now`, or `None` where one of them does
/// not fit.
pub open spec fn spec_time_plan(config: ConsensusConfig, now: MassaTime) -> Option<TimePlan> {
    match spec_latest_block_slot_at_timestamp(
        config.thread_count,
        config.t0,
        config.genesis_timestamp,
        now,
    ) {
        Err(_) => None,
        Ok(previous_slot) => {
            let next = match previous_slot {
                None => Some(Slot { period: 0, thread: 0 }),
                Some(s) => s.spec_next(config.thread_count),
            };
            match next {
                None => None,
                Some(next_slot) => {
                    let ts = spec_block_slot_timestamp(
                        config.thread_count,
                        config.t0,
                        config.genesis_timestamp,
                        next_slot,
                    );
                    let span = config.t0.millis * (config.periods_per_cycle * 2);
                    if ts > u64::MAX || span > u64::MAX {
                        None
                    } else {
                        Some(
                            TimePlan {
                                previous_slot,
                                next_slot,
                                next_timestamp: MassaTime { millis: ts as u64 },
                                stats_desync_detection_timespan: MassaTime { millis: span as u64 },
                                stats_history_timespan: if config.stats_timespan.millis > span {
                                    config.stats_timespan
                                } else {
                                    MassaTime { millis: span as u64 }
                                },
                            },
                        )
                    }
                },
            }
        },
    }
}

/// The times that a worker starts with at `now`.
pub fn plan_times(config: &ConsensusConfig, now: MassaTime) -> (r: Result<TimePlan, GraphError>)
    requires
        config.valid(),
    ensures
        match spec_time_plan(*config, now) {
            Some(plan) => r == Ok::<_, GraphError>(plan),
            None => r == Err::<TimePlan, _>(GraphError::TimeOverflow),
        },
{
    let previous_slot = match get_latest_block_slot_at_timestamp(
        config.thread_count,
        config.t0,
        config.genesis_timestamp,
        now,
    ) {
        Ok(s) => s,
        Err(_) => { return Err(GraphError::TimeOverflow); },
    };
    let next_slot = match previous_slot {
        None => Slot::new(0, 0),
        Some(s) => match s.get_next_slot(config.thread_count) {
            Ok(n) => n,
            Err(_) => { return Err(GraphError::TimeOverflow); },
        },
    };
    let next_timestamp = match get_block_slot_timestamp(
        config.thread_count,
        config.t0,
        config.genesis_timestamp,
        next_slot,
    ) {
        Ok(t) => t,
        Err(_) => { return Err(GraphError::TimeOverflow); },
    };
    let factor = match config.periods_per_cycle.checked_mul(2) {
        Some(f) => f,
        None => {
            assert(config.t0.millis * (config.periods_per_cycle * 2) > u64::MAX)
                by (nonlinear_arith)
                requires
                    config.t0.millis >= 1,
                    config.periods_per_cycle * 2 > u64::MAX,
            ;
            return Err(GraphError::TimeOverflow);
        },
    };
    let stats_desync_detection_timespan = match config.t0.checked_mul(factor) {
        Ok(t) => t,
        Err(_) => { return Err(GraphError::TimeOverflow); },
    };
    let stats_history_timespan = if config.stats_timespan.millis
        > stats_desync_detection_timespan.millis {
        config.stats_timespan
    } else {
        stats_desync_detection_timespan
    };
    Ok(
        TimePlan {
            previous_slot,
            next_slot,
            next_timestamp,
            stats_desync_detection_timespan,
            stats_history_timespan,
        },
    )
}

/// The start times of the genesis slots, with the address of the creator of the
/// genesis blocks: one entry of statistics per thread. Fails where a time does not
/// fit.
pub fn genesis_stats(config: &ConsensusConfig) -> (r: Result<
    Vec<(MassaTime, Address, bool)>,
    GraphError,
>)
    requires
        config.valid(),
    ensures
        r is Ok <==> forall|t: int|
            0 <= t < config.thread_count ==> #[trigger] spec_block_slot_timestamp(
                config.thread_count,
                config.t0,
                config.genesis_timestamp,
                Slot { period: 0, thread: t as u8 },
            ) <= u64::MAX,
        r is Err ==> r == Err::<Vec<(MassaTime, Address, bool)>, _>(GraphError::TimeOverflow),
        r is Ok ==> r.unwrap()@.len() == config.thread_count && forall|t: int|
            0 <= t < config.thread_count ==> {
                &&& (#[trigger] r.unwrap()@[t]).0.millis == spec_block_slot_timestamp(
                    config.thread_count,
                    config.t0,
                    config.genesis_timestamp,
                    Slot { period: 0, thread: t as u8 },
                )
                &&& r.unwrap()@[t].1@ == Address::spec_from_public_key(
                    spec_derive_public_key(config.genesis_key@),
                )
                &&& !r.unwrap()@[t].2
            },
{
    let genesis_addr = Address::from_public_key(&derive_public_key(&config.genesis_key));
    let mut out: Vec<(MassaTime, Address, bool)> = Vec::new();
    let mut thread: u8 = 0;
    while thread < config.thread_count
        invariant
            config.valid(),
            thread <= config.thread_count,
            out@.len() == thread,
            genesis_addr@ == Address::spec_from_public_key(
                spec_derive_public_key(config.genesis_key@),
            ),
            forall|t: int|
                0 <= t < thread ==> {
                    &&& #[trigger] spec_block_slot_timestamp(
                        config.thread_count,
                        config.t0,
                        config.genesis_timestamp,
                        Slot { period: 0, thread: t as u8 },
                    ) <= u64::MAX
                    &&& out@[t].0.millis == spec_block_slot_timestamp(
                        config.thread_count,
                        config.t0,
                        config.genesis_timestamp,
                        Slot { period: 0, thread: t as u8 },
                    )
                    &&& out@[t].1 == genesis_addr
                    &&& !out@[t].2
                },
        decreases config.thread_count - thread,
    {
        let ts = match get_block_slot_timestamp(
            config.thread_count,
            config.t0,
            config.genesis_timestamp,
            Slot::new(0, thread),
        ) {
            Ok(t) => t,
            Err(_) => {
                assert(spec_block_slot_timestamp(
                    config.thread_count,
                    config.t0,
                    config.genesis_timestamp,
                    Slot { period: 0, thread: thread as int as u8 },
                ) > u64::MAX);
                return Err(GraphError::TimeOverflow);
            },
        };
        out.push((ts, genesis_addr, false));
        thread += 1;
    }
    Ok(out)
}

/// Whether `a` with the handle `s` is the genesis block of a thread in a graph: a
/// final block at period 0 of the thread, of fitness 1, without parents, children
/// or descendants, whose handle holds the block itself.
pub open spec fn is_genesis_active(
    a: ActiveBlock,
    s: Storage,
    genesis_key: Seq<u8>,
    thread: u8,
    thread_count: u8,
) -> bool {
    &&& is_genesis_id(a.block_id@, genesis_key, thread)
    &&& a.creator_address@ == Address::spec_from_public_key(spec_derive_public_key(genesis_key))
    &&& a.parents@.len() == 0
    &&& no_children(a.children@, thread_count)
    &&& a.descendants@.len() == 0
    &&& a.is_final
    &&& a.slot == (Slot { period: 0, thread })
    &&& a.fitness == 1
    &&& s.block_refs@ == seq![a.block_id]
    &&& a.links_wf(thread_count)
}

/// Whether `statuses` holds the genesis blocks of all the threads, in the order of
/// the threads, under the identifiers `ids`, and nothing else.
pub open spec fn holds_genesis_blocks(
    statuses: IdMap<BlockStatus>,
    ids: Seq<BlockId>,
    genesis_key: Seq<u8>,
    thread_count: u8,
) -> bool {
    &&& statuses.wf()
    &&& ids.len() == thread_count
    &&& statuses.entries@.len() == thread_count
    &&& forall|t: int|
        0 <= t < thread_count ==> (#[trigger] statuses.entries@[t]).0 == ids[t] && (
        statuses.entries@[t].1 matches BlockStatus::Active { a_block, storage } && a_block.block_id
            == ids[t] && is_genesis_active(a_block, storage, genesis_key, t as u8, thread_count))
}

/// Whether no two of the created blocks have the same identifier.
pub open spec fn created_distinct(blocks: Seq<(BlockId, Block)>) -> bool {
    forall|i: int, j: int| 0 <= i < j < blocks.len() ==> blocks[i].0 != blocks[j].0
}

/// Whether `a` with the handle `s` is the created block `block`, under the
/// identifier `id`, as a final block of a graph with `thread_count` threads that
/// has neither parents nor children nor descendants.
pub open spec fn is_entered_as_final(
    a: ActiveBlock,
    s: Storage,
    id: BlockId,
    block: Block,
    thread_count: u8,
) -> bool {
    &&& a.block_id == id
    &&& a.creator_address@ == Address::spec_from_public_key(block.header.content.creator@)
    &&& a.parents@.len() == 0
    &&& no_children(a.children@, thread_count)
    &&& forall|t: int| 0 <= t < a.children@.len() ==> (#[trigger] a.children@[t]).wf()
    &&& a.descendants@.len() == 0
    &&& a.is_final
    &&& a.slot == block.header.content.slot
    &&& a.fitness == BlockHeader::spec_fitness(block.header@.content.endorsements.len())
    &&& s.block_refs@ == seq![id]
}

/// Whether `statuses` holds the created blocks `blocks`, in their order, as final
/// blocks, under the identifiers `ids`, and nothing else.
pub open spec fn holds_created_blocks(
    statuses: IdMap<BlockStatus>,
    ids: Seq<BlockId>,
    blocks: Seq<(BlockId, Block)>,
    thread_count: u8,
) -> bool {
    &&& statuses.wf()
    &&& ids.len() == blocks.len()
    &&& statuses.entries@.len() == blocks.len()
    &&& forall|t: int|
        0 <= t < blocks.len() ==> (#[trigger] statuses.entries@[t]).0 == blocks[t].0 && ids[t]
            == blocks[t].0 && (statuses.entries@[t].1 matches BlockStatus::Active {
            a_block,
            storage,
        } && is_entered_as_final(a_block, storage, blocks[t].0, blocks[t].1, thread_count))
}

/// Enters created blocks, each with its identifier, in a map of statuses, as
/// final blocks without parents. Succeeds exactly where no two of them have the
/// same identifier.
pub fn enter_created_blocks(blocks: &Vec<(BlockId, Block)>, thread_count: u8) -> (r: Result<
    (IdMap<BlockStatus>, Vec<BlockId>),
    GraphError,
>)
    ensures
        r is Ok <==> created_distinct(blocks@),
        r is Err ==> r == Err::<(IdMap<BlockStatus>, Vec<BlockId>), _>(
            GraphError::GenesisCreationError,
        ),
        r is Ok ==> holds_created_blocks(r.unwrap().0, r.unwrap().1@, blocks@, thread_count),
{
    let mut statuses: IdMap<BlockStatus> = IdMap::new();
    let mut ids: Vec<BlockId> = Vec::new();
    let mut k: usize = 0;
    while k < blocks.len()
        invariant
            k <= blocks@.len(),
            statuses.wf(),
            ids@.len() == k,
            statuses.entries@.len() == k,
            forall|i: int, j: int| 0 <= i < j < k ==> blocks@[i].0 != blocks@[j].0,
            forall|t: int|
                0 <= t < k ==> (#[trigger] statuses.entries@[t]).0 == blocks@[t].0 && ids@[t]
                    == blocks@[t].0 && (statuses.entries@[t].1 matches BlockStatus::Active {
                    a_block,
                    storage,
                } && is_entered_as_final(
                    a_block,
                    storage,
                    blocks@[t].0,
                    blocks@[t].1,
                    thread_count,
                )),
        decreases blocks@.len() - k,
    {
        let block_id = blocks[k].0;
        let block = &blocks[k].1;
        if statuses.contains_key(&block_id) {
            proof {
                let j = statuses.index_of(block_id);
                assert(statuses.entries@[j].0 == block_id);
                assert(blocks@[j].0 == blocks@[k as int].0);
            }
            return Err(GraphError::GenesisCreationError);
        }
        proof {
            assert forall|i: int| 0 <= i < k implies blocks@[i].0 != blocks@[k as int].0 by {
                if blocks@[i].0 == block_id {
                    assert(statuses.entries@[i].0 == block_id);
                    assert(statuses.has(block_id));
                }
            }
        }
        let mut block_refs: Vec<BlockId> = Vec::new();
        block_refs.push(block_id);
        let a_block = ActiveBlock {
            creator_address: Address::from_public_key(&block.header.content.creator),
            parents: Vec::new(),
            children: empty_children(thread_count),
            descendants: Vec::new(),
            is_final: true,
            block_id,
            slot: block.header.content.slot,
            fitness: block.header.get_fitness(),
        };
        proof {
            assert(block_refs@ =~= seq![block_id]);
        }
        let ghost before = statuses.entries@;
        statuses.insert(block_id, BlockStatus::Active { a_block, storage: Storage { block_refs } });
        ids.push(block_id);
        proof {
            assert forall|t: int| 0 <= t < k + 1 implies (#[trigger] statuses.entries@[t]).0
                == blocks@[t].0 && ids@[t] == blocks@[t].0 && (
            statuses.entries@[t].1 matches BlockStatus::Active { a_block, storage }
                && is_entered_as_final(
                a_block,
                storage,
                blocks@[t].0,
                blocks@[t].1,
                thread_count,
            )) by {
                if t < k {
                    assert(statuses.entries@[t] == before[t]);
                }
            }
        }
        k += 1;
    }
    Ok((statuses, ids))
}

/// Creates the genesis blocks of all the threads and enters them in a map of
/// statuses. Fails where two of them get the same identifier, which cannot be
/// where there is one thread at most.
pub fn genesis_statuses(config: &ConsensusConfig) -> (r: Result<
    (IdMap<BlockStatus>, Vec<BlockId>),
    GraphError,
>)
    ensures
        r is Err ==> r == Err::<(IdMap<BlockStatus>, Vec<BlockId>), _>(
            GraphError::GenesisCreationError,
        ),
        config.thread_count <= 1 ==> r is Ok,
        r is Ok ==> holds_genesis_blocks(
            r.unwrap().0,
            r.unwrap().1@,
            config.genesis_key@,
            config.thread_count,
        ),
{
    let mut blocks: Vec<(BlockId, Block)> = Vec::new();
    let mut thread: u8 = 0;
    while thread < config.thread_count
        invariant
            thread <= config.thread_count,
            blocks@.len() == thread,
            forall|t: int|
                0 <= t < thread ==> is_genesis_block(
                    (#[trigger] blocks@[t]).1@,
                    config.genesis_key@,
                    t as u8,
                ) && is_genesis_id(blocks@[t].0@, config.genesis_key@, t as u8),
        decreases config.thread_count - thread,
    {
        let created = match create_genesis_block(config, thread) {
            Ok(v) => v,
            Err(_) => { return Err(GraphError::GenesisCreationError); },
        };
        let ghost before = blocks@;
        blocks.push(created);
        proof {
            assert forall|t: int| 0 <= t < thread + 1 implies is_genesis_block(
                (#[trigger] blocks@[t]).1@,
                config.genesis_key@,
                t as u8,
            ) && is_genesis_id(blocks@[t].0@, config.genesis_key@, t as u8) by {
                if t < thread {
                    assert(blocks@[t] == before[t]);
                }
            }
        }
        thread += 1;
    }
    match enter_created_blocks(&blocks, config.thread_count) {
        Err(e) => Err(e),
        Ok((statuses, ids)) => {
            proof {
                assert forall|t: int| 0 <= t < config.thread_count implies (
                #[trigger] statuses.entries@[t]).0 == ids@[t] && (
                statuses.entries@[t].1 matches BlockStatus::Active { a_block, storage }
                    && a_block.block_id == ids@[t] && is_genesis_active(
                    a_block,
                    storage,
                    config.genesis_key@,
                    t as u8,
                    config.thread_count,
                )) by {
                    let b = blocks@[t];
                    assert(is_genesis_block(b.1@, config.genesis_key@, t as u8));
                    assert(b.1.header@.content.endorsements.len() == 0);
                    assert(b.1.header.content.slot == (Slot { period: 0, thread: t as u8 }));
                    assert(b.1.header.content.creator@ == spec_derive_public_key(
                        config.genesis_key@,
                    ));
                }
            }
            Ok((statuses, ids))
        },
    }
}

/// The worker of the consensus.
pub struct GraphWorker {
    /// Configuration.
    pub config: ConsensusConfig,
    /// The state of the graph.
    pub shared_state: ConsensusState,
    /// The latest slot that has started, if any has.
    pub previous_slot: Option<Slot>,
    /// The slot that comes next.
    pub next_slot: Slot,
    /// The time at which the next slot starts.
    pub next_timestamp: MassaTime,
    /// The blocks asked of the protocol.
    pub wishlist: Vec<BlockId>,
    /// Start times, creators and staleness of the latest final blocks.
    pub final_block_stats: Vec<(MassaTime, Address, bool)>,
    /// Times at which the protocol handed blocks in.
    pub protocol_blocks: Vec<(MassaTime, BlockId)>,
    /// Times of the latest stale blocks.
    pub stale_block_stats: Vec<MassaTime>,
    /// Time span over which a lack of final blocks counts as a desynchronization.
    pub stats_desync_detection_timespan: MassaTime,
    /// Time span over which statistics are kept.
    pub stats_history_timespan: MassaTime,
    /// When the worker was started.
    pub launch_time: MassaTime,
}

/// Each identifier of a list with period 0.
pub open spec fn at_period_zero(ids: Seq<BlockId>) -> Seq<(BlockId, u64)> {
    Seq::new(ids.len(), |t: int| (ids[t], 0u64))
}

/// Each identifier of a list with period 0.
pub fn with_period_zero(ids: &Vec<BlockId>) -> (r: Vec<(BlockId, u64)>)
    ensures
        r@ == at_period_zero(ids@),
{
    let mut out: Vec<(BlockId, u64)> = Vec::new();
    let mut i: usize = 0;
    while i < ids.len()
        invariant
            i <= ids@.len(),
            out@.len() == i,
            forall|t: int| 0 <= t < i ==> out@[t] == (ids@[t], 0u64),
        decreases ids@.len() - i,
    {
        out.push((ids[i], 0u64));
        i += 1;
    }
    assert(out@ =~= at_period_zero(ids@));
    out
}

/// Whether a state is the state of a graph that starts from its genesis blocks:
/// the genesis blocks are its only blocks, they are final and form its only clique,
/// and each is the latest final block and the best parent of its thread.
pub open spec fn started_from_genesis(state: ConsensusState, config: ConsensusConfig) -> bool {
    &&& state.wf()
    &&& state.config == config
    &&& holds_genesis_blocks(
        state.block_statuses,
        state.genesis_hashes@,
        config.genesis_key@,
        config.thread_count,
    )
    &&& state.max_cliques@.len() == 1
    &&& state.max_cliques@[0].block_ids@ == state.genesis_hashes@
    &&& state.max_cliques@[0].fitness == 0
    &&& state.max_cliques@[0].is_blockclique
    &&& state.latest_final_blocks_periods@ == at_period_zero(state.genesis_hashes@)
    &&& state.best_parents@ == at_period_zero(state.genesis_hashes@)
    &&& state.stored_blocks@ == state.genesis_hashes@
    &&& state.gi_head.entries@.len() == 0
}

/// Makes `state` the state of a graph that starts from the genesis blocks in
/// `statuses`.
fn start_from_genesis(
    state: &mut ConsensusState,
    config: ConsensusConfig,
    statuses: IdMap<BlockStatus>,
    ids: Vec<BlockId>,
)
    requires
        config.valid(),
        holds_genesis_blocks(statuses, ids@, config.genesis_key@, config.thread_count),
    ensures
        started_from_genesis(*final(state), config),
        final(state).sequence_counter == old(state).sequence_counter,
        final(state).attack_attempts == old(state).attack_attempts,
        final(state).launch_time == old(state).launch_time,
{
    let latest = with_period_zero(&ids);
    let best = with_period_zero(&ids);
    let members = crate::id_set::id_list_clone(&ids);
    let stored = crate::id_set::id_list_clone(&ids);
    let mut cliques: Vec<Clique> = Vec::new();
    cliques.push(Clique { block_ids: members, fitness: 0, is_blockclique: true });
    state.config = config;
    state.block_statuses = statuses;
    state.genesis_hashes = ids;
    state.latest_final_blocks_periods = latest;
    state.best_parents = best;
    state.stored_blocks = stored;
    state.max_cliques = cliques;
    state.gi_head = IdMap::new();
    proof {
        let st = state.block_statuses;
        let ids = state.genesis_hashes@;
        let tc = config.thread_count;
        assert forall|i: int, j: int| 0 <= i < j < ids.len() implies ids[i] != ids[j] by {
            assert(st.entries@[i].0 == ids[i]);
            assert(st.entries@[j].0 == ids[j]);
        }
        assert forall|id: BlockId| #[trigger] st.has(id) implies (st.value(
            id,
        ) matches BlockStatus::Active { a_block, .. } && a_block.is_final && a_block.parents@.len()
            == 0) by {
            let i = st.index_of(id);
            assert(st.entries@[i].0 == ids[i]);
        }
        assert forall|k: int, a: BlockId|
            0 <= k < state.max_cliques@.len()
                && #[trigger] state.max_cliques@[k].block_ids@.contains(a) implies is_active(
            st,
            a,
        ) by {
            let t = choose|t: int| 0 <= t < ids.len() && ids[t] == a;
            assert(st.entries@[t].0 == ids[t]);
            st.lemma_entry(t);
        }
        assert(one_blockclique(state.max_cliques@)) by {
            assert(state.max_cliques@[0].is_blockclique);
        }
        assert forall|i: int| 0 <= i < st.entries@.len() implies ((#[trigger] st.entries@[i]).1 matches BlockStatus::Active {
            a_block,
            ..
        } ==> a_block.links_wf(tc)) by {
            assert(st.entries@[i].0 == ids[i]);
        }
    }
}

/// Whether `statuses` holds the blocks of a snapshot, in their order, each as it
/// enters a graph, and nothing else.
pub open spec fn holds_imported_blocks(
    statuses: IdMap<BlockStatus>,
    blocks: Seq<ExportActiveBlock>,
    thread_count: u8,
) -> bool {
    &&& statuses.wf()
    &&& statuses.entries@.len() == blocks.len()
    &&& forall|i: int|
        0 <= i < blocks.len() ==> ((#[trigger] statuses.entries@[i]).1 matches BlockStatus::Active {
            a_block,
            storage,
        } && statuses.entries@[i].0 == a_block.block_id && blocks[i].imported_as(
            a_block,
            storage,
            thread_count,
        ))
}

/// Whether a snapshot can enter a graph: each of its blocks can, and no two of
/// them have the same identifier.
pub open spec fn snapshot_importable(blocks: Seq<ExportActiveBlock>, thread_count: u8) -> bool {
    &&& forall|i: int| 0 <= i < blocks.len() ==> (#[trigger] blocks[i]).importable(thread_count)
    &&& forall|i: int, j: int|
        0 <= i < j < blocks.len() ==> spec_block_id((#[trigger] blocks[i]).block@.header)
            != spec_block_id((#[trigger] blocks[j]).block@.header)
}

/// Enters the blocks of a snapshot in a map of statuses.
pub fn import_statuses(graph: &BootstrapableGraph, thread_count: u8) -> (r: Result<
    IdMap<BlockStatus>,
    GraphError,
>)
    ensures
        snapshot_importable(graph.final_blocks@, thread_count) ==> r is Ok
            && holds_imported_blocks(r.unwrap(), graph.final_blocks@, thread_count),
        !snapshot_importable(graph.final_blocks@, thread_count) ==> r == Err::<
            IdMap<BlockStatus>,
            _,
        >(GraphError::InvalidBootstrap),
{
    let mut statuses: IdMap<BlockStatus> = IdMap::new();
    let n = graph.final_blocks.len();
    let mut i: usize = 0;
    while i < n
        invariant
            i <= n,
            n == graph.final_blocks@.len(),
            statuses.wf(),
            statuses.entries@.len() == i,
            forall|k: int| 0 <= k < i ==> (#[trigger] graph.final_blocks@[k]).importable(thread_count),
            forall|k: int, j: int|
                0 <= k < j < i ==> spec_block_id((#[trigger] graph.final_blocks@[k]).block@.header)
                    != spec_block_id((#[trigger] graph.final_blocks@[j]).block@.header),
            forall|k: int|
                0 <= k < i ==> ((#[trigger] statuses.entries@[k]).1 matches BlockStatus::Active {
                    a_block,
                    storage,
                } && statuses.entries@[k].0 == a_block.block_id
                    && graph.final_blocks@[k].imported_as(a_block, storage, thread_count)),
        decreases n - i,
    {
        let (a_block, storage) = match graph.final_blocks[i].to_active_block(thread_count) {
            Ok(v) => v,
            Err(e) => { return Err(e); },
        };
        let id = a_block.block_id;
        if statuses.contains_key(&id) {
            proof {
                let k = statuses.index_of(id);
                crate::block_id::lemma_block_id_eq(statuses.entries@[k].0, id);
                assert(spec_block_id(graph.final_blocks@[k].block@.header) == spec_block_id(
                    graph.final_blocks@[i as int].block@.header,
                ));
            }
            return Err(GraphError::InvalidBootstrap);
        }
        let ghost before = statuses.entries@;
        proof {
            assert forall|k: int| 0 <= k < i implies spec_block_id(
                (#[trigger] graph.final_blocks@[k]).block@.header,
            ) != spec_block_id(graph.final_blocks@[i as int].block@.header) by {
                assert(before[k].0 == before[k].1->a_block.block_id);
                crate::block_id::lemma_block_id_eq(before[k].0, id);
                assert(statuses.has(before[k].0));
            }
        }
        statuses.insert(id, BlockStatus::Active { a_block, storage });
        proof {
            assert forall|k: int| 0 <= k < i + 1 implies ((#[trigger] statuses.entries@[k]).1 matches BlockStatus::Active {
                a_block,
                storage,
            } && statuses.entries@[k].0 == a_block.block_id
                && graph.final_blocks@[k].imported_as(a_block, storage, thread_count)) by {
                if k < i {
                    assert(statuses.entries@[k] == before[k]);
                }
            }
        }
        i += 1;
    }
    Ok(statuses)
}

/// Whether `latest` is, for thread `t`, the latest final block among the genesis
/// block `genesis` and the first `upto` blocks of `entries`: the first block of the
/// thread with the highest period, or the genesis block where no block of the
/// thread has a period above 0.
pub open spec fn is_latest_final(
    latest: (BlockId, u64),
    genesis: BlockId,
    entries: Seq<(BlockId, BlockStatus)>,
    t: int,
    upto: int,
) -> bool {
    &&& forall|i: int|
        0 <= i < upto && (#[trigger] entries[i]).1->a_block.slot.thread == t
            ==> entries[i].1->a_block.slot.period <= latest.1
    &&& (latest == (genesis, 0u64) || exists|i: int|
        0 <= i < upto && (#[trigger] entries[i]).1->a_block.slot.thread == t && latest == (
            entries[i].1->a_block.block_id,
            entries[i].1->a_block.slot.period,
        ) && latest.1 > 0 && forall|k: int|
            0 <= k < i && (#[trigger] entries[k]).1->a_block.slot.thread == t
                ==> entries[k].1->a_block.slot.period < latest.1)
}

/// The latest final block of each thread among the genesis blocks and the blocks
/// of `statuses`, which are all active.
pub fn latest_finals(statuses: &IdMap<BlockStatus>, genesis: &Vec<BlockId>) -> (r: Vec<
    (BlockId, u64),
>)
    requires
        forall|i: int|
            0 <= i < statuses.entries@.len() ==> (#[trigger] statuses.entries@[i]).1 is Active,
    ensures
        r@.len() == genesis@.len(),
        forall|t: int|
            0 <= t < genesis@.len() ==> is_latest_final(
                #[trigger] r@[t],
                genesis@[t],
                statuses.entries@,
                t,
                statuses.entries@.len() as int,
            ),
{
    let mut latest = with_period_zero(genesis);
    let n = statuses.entries.len();
    let mut i: usize = 0;
    while i < n
        invariant
            i <= n,
            n == statuses.entries@.len(),
            latest@.len() == genesis@.len(),
            forall|k: int| 0 <= k < n ==> (#[trigger] statuses.entries@[k]).1 is Active,
            forall|t: int|
                0 <= t < genesis@.len() ==> is_latest_final(
                    #[trigger] latest@[t],
                    genesis@[t],
                    statuses.entries@,
                    t,
                    i as int,
                ),
        decreases n - i,
    {
        let ghost before = latest@;
        match &statuses.entries[i].1 {
            BlockStatus::Active { a_block, .. } => {
                let thread = a_block.slot.thread as usize;
                if thread < latest.len() {
                    if a_block.slot.period > latest[thread].1 {
                        latest[thread] = (a_block.block_id, a_block.slot.period);
                    }
                }
            },
            _ => {},
        }
        proof {
            let entries = statuses.entries@;
            assert forall|t: int| 0 <= t < genesis@.len() implies is_latest_final(
                #[trigger] latest@[t],
                genesis@[t],
                entries,
                t,
                i + 1,
            ) by {
                assert(is_latest_final(before[t], genesis@[t], entries, t, i as int));
                let b = entries[i as int].1->a_block;
                if b.slot.thread == t && b.slot.period > before[t].1 {
                    assert(latest@[t] == (b.block_id, b.slot.period));
                } else {
                    assert(latest@[t] == before[t]);
                    if before[t] != (genesis@[t], 0u64) {
                        let w = choose|w: int|
                            0 <= w < i && (#[trigger] entries[w]).1->a_block.slot.thread == t
                                && before[t] == (
                                entries[w].1->a_block.block_id,
                                entries[w].1->a_block.slot.period,
                            ) && before[t].1 > 0 && forall|k: int|
                                0 <= k < w && (#[trigger] entries[k]).1->a_block.slot.thread == t
                                    ==> entries[k].1->a_block.slot.period < before[t].1;
                        assert(0 <= w < i + 1);
                    }
                }
            }
        }
        i += 1;
    }
    latest
}

/// The keys of a map of statuses.
pub fn status_keys(statuses: &IdMap<BlockStatus>) -> (r: Vec<BlockId>)
    ensures
        r@ == statuses.keys(),
{
    let mut out: Vec<BlockId> = Vec::new();
    let mut i: usize = 0;
    while i < statuses.entries.len()
        invariant
            i <= statuses.entries@.len(),
            out@.len() == i,
            forall|k: int| 0 <= k < i ==> out@[k] == statuses.entries@[k].0,
        decreases statuses.entries@.len() - i,
    {
        out.push(statuses.entries[i].0);
        i += 1;
    }
    assert(out@ =~= statuses.keys());
    out
}

/// Whether a state is the state of a graph that starts from a snapshot: the blocks
/// of the snapshot are its only blocks, with their links made; they are final and
/// form its only clique; the latest final block of a thread is the block of the
/// snapshot with the highest period in it, or its genesis block; and the store
/// holds the genesis blocks and the blocks of the snapshot.
pub open spec fn started_from_snapshot(
    state: ConsensusState,
    config: ConsensusConfig,
    blocks: Seq<ExportActiveBlock>,
) -> bool {
    &&& state.wf()
    &&& state.config == config
    &&& exists|pre: IdMap<BlockStatus>| #[trigger]
        holds_imported_blocks(pre, blocks, config.thread_count) && links_claimed(
            pre,
            state.block_statuses,
            state.stored_blocks@,
        )
    &&& state.genesis_hashes@.len() == config.thread_count
    &&& forall|t: int|
        0 <= t < config.thread_count ==> is_genesis_id(
            (#[trigger] state.genesis_hashes@[t])@,
            config.genesis_key@,
            t as u8,
        )
    &&& state.max_cliques@.len() == 1
    &&& state.max_cliques@[0].block_ids@ == state.block_statuses.keys()
    &&& state.max_cliques@[0].fitness == 0
    &&& state.max_cliques@[0].is_blockclique
    &&& state.latest_final_blocks_periods@.len() == config.thread_count
    &&& forall|t: int|
        0 <= t < config.thread_count ==> is_latest_final(
            #[trigger] state.latest_final_blocks_periods@[t],
            state.genesis_hashes@[t],
            state.block_statuses.entries@,
            t,
            state.block_statuses.entries@.len() as int,
        )
    &&& state.best_parents@ == state.latest_final_blocks_periods@
    &&& id_set(state.stored_blocks@) == id_set(state.genesis_hashes@).union(
        id_set(state.block_statuses.keys()),
    )
    &&& state.gi_head.entries@.len() == 0
}

/// Makes `state` the state of a graph that starts from the blocks of a snapshot
/// in `statuses`, and makes their links.
fn start_from_snapshot(
    state: &mut ConsensusState,
    config: ConsensusConfig,
    statuses: IdMap<BlockStatus>,
    genesis: Vec<BlockId>,
    Ghost(blocks): Ghost<Seq<ExportActiveBlock>>,
) -> (r: Result<(), GraphError>)
    requires
        config.valid(),
        holds_imported_blocks(statuses, blocks, config.thread_count),
        genesis@.len() == config.thread_count,
        forall|t: int|
            0 <= t < config.thread_count ==> is_genesis_id(
                (#[trigger] genesis@[t])@,
                config.genesis_key@,
                t as u8,
            ),
    ensures
        r is Ok,
        started_from_snapshot(*final(state), config, blocks),
        final(state).sequence_counter == old(state).sequence_counter,
        final(state).attack_attempts == old(state).attack_attempts,
        final(state).launch_time == old(state).launch_time,
{
    let latest = latest_finals(&statuses, &genesis);
    let best = crate::bootstrap::clone_parents(&latest);
    let members = status_keys(&statuses);
    let mut stored = crate::id_set::id_list_clone(&genesis);
    let mut i: usize = 0;
    while i < members.len()
        invariant
            i <= members@.len(),
            id_set(stored@) == id_set(genesis@).union(id_set(members@.subrange(0, i as int))),
        decreases members@.len() - i,
    {
        id_list_insert(&mut stored, members[i]);
        proof {
            let part = members@.subrange(0, i as int);
            assert(members@.subrange(0, i + 1) =~= part.push(members@[i as int]));
            crate::id_set::lemma_id_set_push(part, members@[i as int]);
            assert(id_set(stored@) =~= id_set(genesis@).union(
                id_set(members@.subrange(0, i + 1)),
            ));
        }
        i += 1;
    }
    proof {
        assert(members@.subrange(0, members@.len() as int) =~= members@);
    }
    let mut cliques: Vec<Clique> = Vec::new();
    cliques.push(Clique { block_ids: members, fitness: 0, is_blockclique: true });
    state.config = config;
    state.block_statuses = statuses;
    state.genesis_hashes = genesis;
    state.latest_final_blocks_periods = latest;
    state.best_parents = best;
    state.stored_blocks = stored;
    state.max_cliques = cliques;
    state.gi_head = IdMap::new();
    let ghost pre = state.block_statuses;
    proof {
        let st = state.block_statuses;
        let tc = config.thread_count;
        assert forall|id: BlockId| #[trigger] st.has(id) implies (st.value(
            id,
        ) matches BlockStatus::Active { a_block, .. } && a_block.is_final) by {
            let k = st.index_of(id);
            assert(st.entries@[k].1 is Active);
        }
        assert forall|i: int, j: int|
            0 <= i < j < state.max_cliques@[0].block_ids@.len() implies state.max_cliques@[0].block_ids@[i]
            != state.max_cliques@[0].block_ids@[j] by {
            assert(st.entries@[i].0 != st.entries@[j].0);
        }
        assert forall|k: int, a: BlockId|
            0 <= k < state.max_cliques@.len()
                && #[trigger] state.max_cliques@[k].block_ids@.contains(a) implies is_active(
            st,
            a,
        ) by {
            let t = choose|t: int| 0 <= t < st.keys().len() && st.keys()[t] == a;
            st.lemma_entry(t);
            assert(st.entries@[t].1 is Active);
        }
        assert(one_blockclique(state.max_cliques@)) by {
            assert(state.max_cliques@[0].is_blockclique);
        }
        assert forall|i: int| 0 <= i < st.entries@.len() implies ((#[trigger] st.entries@[i]).1 matches BlockStatus::Active {
            a_block,
            ..
        } ==> a_block.links_wf(tc)) by {}
        assert(state.wf());
        assert forall|i: int|
            0 <= i < st.entries@.len() implies ((#[trigger] st.entries@[i]).1 matches BlockStatus::Active {
            a_block,
            ..
        } ==> a_block.is_final || crate::links::claimed_parents(a_block, state.stored_blocks@).len()
            == tc) by {}
    }
    match state.claim_parent_refs() {
        Ok(()) => {},
        Err(_) => {},
    }
    proof {
        let st = state.block_statuses;
        assert(links_claimed(pre, st, state.stored_blocks@));
        assert(holds_imported_blocks(pre, blocks, config.thread_count));
        assert forall|i: int| 0 <= i < pre.entries@.len() implies (#[trigger] st.entries@[i]).0
            == pre.entries@[i].0 && st.entries@[i].1 is Active
            && st.entries@[i].1->a_block.slot == pre.entries@[i].1->a_block.slot
            && st.entries@[i].1->a_block.block_id == pre.entries@[i].1->a_block.block_id by {
            assert(pre.entries@[i].1 is Active);
        }
        assert(st.keys() =~= pre.keys());
        assert forall|t: int| 0 <= t < config.thread_count implies is_latest_final(
            #[trigger] state.latest_final_blocks_periods@[t],
            state.genesis_hashes@[t],
            st.entries@,
            t,
            st.entries@.len() as int,
        ) by {
            let latest = state.latest_final_blocks_periods@[t];
            let g = state.genesis_hashes@[t];
            assert(is_latest_final(latest, g, pre.entries@, t, pre.entries@.len() as int));
            assert forall|i: int|
                0 <= i < st.entries@.len() && (#[trigger] st.entries@[i]).1->a_block.slot.thread
                    == t implies st.entries@[i].1->a_block.slot.period <= latest.1 by {
                assert(pre.entries@[i].1->a_block.slot.thread == t);
            }
            if latest != (g, 0u64) {
                let w = choose|w: int|
                    0 <= w < pre.entries@.len() && (#[trigger] pre.entries@[w]).1->a_block.slot.thread
                        == t && latest == (
                        pre.entries@[w].1->a_block.block_id,
                        pre.entries@[w].1->a_block.slot.period,
                    ) && latest.1 > 0 && forall|k: int|
                        0 <= k < w && (#[trigger] pre.entries@[k]).1->a_block.slot.thread == t
                            ==> pre.entries@[k].1->a_block.slot.period < latest.1;
                assert(st.entries@[w].1->a_block.slot.thread == t);
                assert forall|k: int|
                    0 <= k < w && (#[trigger] st.entries@[k]).1->a_block.slot.thread
                        == t implies st.entries@[k].1->a_block.slot.period < latest.1 by {
                    assert(pre.entries@[k].1->a_block.slot.thread == t);
                }
            }
        }
    }
    Ok(())
}

/// Whether the times of a start at `now` fit: the slots and the time spans of the
/// plan, and the time of the genesis block of every thread.
pub open spec fn times_fit(config: ConsensusConfig, now: MassaTime) -> bool {
    &&& spec_time_plan(config, now) is Some
    &&& forall|t: int|
        0 <= t < config.thread_count ==> #[trigger] spec_block_slot_timestamp(
            config.thread_count,
            config.t0,
            config.genesis_timestamp,
            Slot { period: 0, thread: t as u8 },
        ) <= u64::MAX
}

impl GraphWorker {
    /// Starts a worker at `now` on `shared_state`, from the genesis blocks or, where
    /// `init_graph` is given, from a snapshot.
    ///
    /// Fails with `ConfigError` where the configuration cannot be run, with
    /// `TimeOverflow` where a time of the start does not fit, with
    /// `InvalidBootstrap` where the snapshot holds a block that cannot enter the
    /// graph or holds a block twice, and with `GenesisCreationError` where two
    /// genesis blocks get the same identifier.
    pub fn new(
        config: ConsensusConfig,
        shared_state: ConsensusState,
        init_graph: Option<BootstrapableGraph>,
        now: MassaTime,
    ) -> (r: Result<GraphWorker, GraphError>)
        ensures
            !config.valid() ==> r == Err::<GraphWorker, _>(GraphError::ConfigError),
            config.valid() && (spec_time_plan(config, now) is None || exists|t: int|
                0 <= t < config.thread_count && #[trigger] spec_block_slot_timestamp(
                    config.thread_count,
                    config.t0,
                    config.genesis_timestamp,
                    Slot { period: 0, thread: t as u8 },
                ) > u64::MAX) ==> r == Err::<GraphWorker, _>(GraphError::TimeOverflow),
            r is Err ==> r == Err::<GraphWorker, _>(GraphError::ConfigError) || r == Err::<
                GraphWorker,
                _,
            >(GraphError::TimeOverflow) || r == Err::<GraphWorker, _>(
                GraphError::GenesisCreationError,
            ) || (r == Err::<GraphWorker, _>(GraphError::InvalidBootstrap) && init_graph is Some
                && !snapshot_importable(init_graph.unwrap().final_blocks@, config.thread_count)),
            r == Err::<GraphWorker, _>(GraphError::ConfigError) ==> !config.valid(),
            r == Err::<GraphWorker, _>(GraphError::TimeOverflow) ==> config.valid() && !times_fit(
                config,
                now,
            ),
            r == Err::<GraphWorker, _>(GraphError::GenesisCreationError) ==> config.valid()
                && times_fit(config, now) && config.thread_count > 1,
            init_graph is Some && !snapshot_importable(
                init_graph.unwrap().final_blocks@,
                config.thread_count,
            ) ==> r is Err,
            config.valid() && times_fit(config, now) && config.thread_count == 1 && (
            init_graph is Some ==> snapshot_importable(
                init_graph.unwrap().final_blocks@,
                config.thread_count,
            )) ==> r is Ok,
            r is Ok ==> {
                let w = r.unwrap();
                &&& w.config == config
                &&& w.shared_state.wf()
                &&& spec_time_plan(config, now) == Some(
                    TimePlan {
                        previous_slot: w.previous_slot,
                        next_slot: w.next_slot,
                        next_timestamp: w.next_timestamp,
                        stats_desync_detection_timespan: w.stats_desync_detection_timespan,
                        stats_history_timespan: w.stats_history_timespan,
                    },
                )
                &&& w.launch_time == now
                &&& w.wishlist@.len() == 0
                &&& w.protocol_blocks@.len() == 0
                &&& w.stale_block_stats@.len() == 0
                &&& w.final_block_stats@.len() == config.thread_count
                &&& forall|t: int|
                    0 <= t < config.thread_count ==> (#[trigger] w.final_block_stats@[t]).0.millis
                        == spec_block_slot_timestamp(
                        config.thread_count,
                        config.t0,
                        config.genesis_timestamp,
                        Slot { period: 0, thread: t as u8 },
                    ) && w.final_block_stats@[t].1@ == Address::spec_from_public_key(
                        spec_derive_public_key(config.genesis_key@),
                    ) && !w.final_block_stats@[t].2
                &&& match init_graph {
                    None => started_from_genesis(w.shared_state, config),
                    Some(graph) => started_from_snapshot(
                        w.shared_state,
                        config,
                        graph.final_blocks@,
                    ),
                }
            },
    {
        if !config.is_valid() {
            return Err(GraphError::ConfigError);
        }
        let plan = match plan_times(&config, now) {
            Ok(p) => p,
            Err(e) => { return Err(e); },
        };
        let final_block_stats = match genesis_stats(&config) {
            Ok(s) => s,
            Err(e) => { return Err(e); },
        };
        let (statuses, genesis_block_ids) = match genesis_statuses(&config) {
            Ok(v) => v,
            Err(e) => { return Err(e); },
        };
        let mut shared_state = shared_state;
        match init_graph {
            Some(graph) => {
                let imported = match import_statuses(&graph, config.thread_count) {
                    Ok(m) => m,
                    Err(e) => { return Err(e); },
                };
                proof {
                    assert forall|t: int| 0 <= t < config.thread_count implies is_genesis_id(
                        (#[trigger] genesis_block_ids@[t])@,
                        config.genesis_key@,
                        t as u8,
                    ) by {
                        assert(statuses.entries@[t].0 == genesis_block_ids@[t]);
                    }
                }
                match start_from_snapshot(
                    &mut shared_state,
                    config,
                    imported,
                    genesis_block_ids,
                    Ghost(graph.final_blocks@),
                ) {
                    Ok(()) => {},
                    Err(e) => { return Err(e); },
                }
            },
            None => {
                start_from_genesis(&mut shared_state, config, statuses, genesis_block_ids);
            },
        }
        Ok(
            GraphWorker {
                config,
                shared_state,
                previous_slot: plan.previous_slot,
                next_slot: plan.next_slot,
                next_timestamp: plan.next_timestamp,
                wishlist: Vec::new(),
                final_block_stats,
                protocol_blocks: Vec::new(),
                stale_block_stats: Vec::new(),
                stats_desync_detection_timespan: plan.stats_desync_detection_timespan,
                stats_history_timespan: plan.stats_history_timespan,
                launch_time: now,
            },
        )
    }

    /// Makes the links of the active blocks of the graph. Fails, and changes
    /// nothing, where the store does not hold as many parents of an active block
    /// that is not final as there are threads.
    pub fn claim_parent_refs(&mut self) -> (r: Result<(), GraphError>)
        requires
            old(self).shared_state.wf(),
        ensures
            final(self).shared_state.wf(),
            final(self).shared_state.follows(&old(self).shared_state),
            !all_parents_claimable(
                old(self).shared_state.block_statuses,
                old(self).shared_state.stored_blocks@,
                old(self).shared_state.config.thread_count,
            ) ==> r == Err::<(), _>(GraphError::MissingBlock) && *final(self) == *old(self),
            all_parents_claimable(
                old(self).shared_state.block_statuses,
                old(self).shared_state.stored_blocks@,
                old(self).shared_state.config.thread_count,
            ) ==> r is Ok && links_claimed(
                old(self).shared_state.block_statuses,
                final(self).shared_state.block_statuses,
                old(self).shared_state.stored_blocks@,
            ) && final(self).shared_state.same_but_statuses(&old(self).shared_state),
    {
        self.shared_state.claim_parent_refs()
    }
}

} // verus!
