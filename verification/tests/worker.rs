use consensus_graph::address::Address;
use consensus_graph::block::{Block, BlockHeader, BlockHeaderContent};
use consensus_graph::block_id::BlockId;
use consensus_graph::bootstrap::{BootstrapableGraph, ExportActiveBlock};
use consensus_graph::config::ConsensusConfig;
use consensus_graph::graph::BlockStatus;
use consensus_graph::signature::{derive_public_key, generate_random_private_key, PrivateKey};
use consensus_graph::slot::Slot;
use consensus_graph::state::{ConsensusState, GraphError};
use consensus_graph::time::MassaTime;
use consensus_graph::worker::{create_genesis_block, GraphWorker};

fn config(thread_count: u8) -> ConsensusConfig {
    let mut cfg = ConsensusConfig::default_with(
        generate_random_private_key(),
        MassaTime::from_millis(1_000_000),
    );
    cfg.thread_count = thread_count;
    cfg.t0 = MassaTime::from_millis(16000);
    cfg
}

fn signed_block(
    key: &PrivateKey,
    slot: Slot,
    parents: Vec<BlockId>,
) -> (BlockId, Block) {
    let content = BlockHeaderContent {
        creator: derive_public_key(key),
        slot,
        parents,
        operation_merkle_root: consensus_graph::hash::Hash::compute_from(&[]),
        endorsements: vec![],
    };
    let (id, header) = BlockHeader::new_signed(key, content).unwrap();
    (id, Block { header, operations: vec![] })
}

#[test]
fn default_configuration() {
    let key = generate_random_private_key();
    let cfg = ConsensusConfig::default_with(key, MassaTime::from_millis(42));
    assert_eq!(cfg.clock_compensation_millis, 0);
    assert_eq!(cfg.genesis_timestamp, MassaTime::from_millis(42));
    assert_eq!(cfg.t0, MassaTime::from_millis(16000));
    assert_eq!(cfg.thread_count, 32);
    assert_eq!(cfg.genesis_key, key);
    assert_eq!(cfg.max_discarded_blocks, 10000);
    assert_eq!(cfg.future_block_processing_max_periods, 100);
    assert_eq!(cfg.max_future_processing_blocks, 100);
    assert_eq!(cfg.max_dependency_blocks, 2048);
    assert_eq!(cfg.max_send_wait, MassaTime::from_millis(100));
    assert_eq!(cfg.block_db_prune_interval, MassaTime::from_millis(5000));
    assert_eq!(cfg.max_item_return_count, 100);
    assert_eq!(cfg.max_gas_per_block, u32::MAX as u64);
    assert_eq!(cfg.delta_f0, 1088);
    assert_eq!(cfg.operation_validity_periods, 10);
    assert_eq!(cfg.periods_per_cycle, 128);
    assert_eq!(cfg.force_keep_final_periods, 20);
    assert_eq!(cfg.endorsement_count, 16);
    assert_eq!(cfg.end_timestamp, None);
    assert_eq!(cfg.stats_timespan, MassaTime::from_millis(60000));
    assert_eq!(cfg.channel_size, 1024);
    assert_eq!(cfg.bootstrap_part_size, 50);
    assert!(cfg.ws_enabled);
    assert_eq!(cfg.ws_blocks_headers_capacity, 128);
    assert_eq!(cfg.ws_blocks_capacity, 128);
    assert_eq!(cfg.ws_filled_blocks_capacity, 128);
    assert!(cfg.is_valid());
}

#[test]
fn initial_state_has_one_empty_blockclique() {
    let cfg = config(2);
    let state = ConsensusState::new(cfg, MassaTime::from_millis(5)).unwrap();
    assert_eq!(state.max_cliques.len(), 1);
    assert!(state.max_cliques[0].block_ids.is_empty());
    assert_eq!(state.max_cliques[0].fitness, 0);
    assert!(state.max_cliques[0].is_blockclique);
    assert_eq!(state.sequence_counter, 0);
    assert_eq!(state.block_statuses.len(), 0);
    assert_eq!(state.launch_time, MassaTime::from_millis(5));
    // two cycles of 128 periods of 16 s
    assert_eq!(state.stats_desync_detection_timespan, MassaTime::from_millis(16000 * 256));
    assert_eq!(state.stats_history_timespan, MassaTime::from_millis(16000 * 256));

    let mut wide = cfg;
    wide.stats_timespan = MassaTime::from_millis(16000 * 256 + 1);
    let state = ConsensusState::new(wide, MassaTime::from_millis(5)).unwrap();
    assert_eq!(state.stats_history_timespan, MassaTime::from_millis(16000 * 256 + 1));

    let mut bad = cfg;
    bad.thread_count = 0;
    assert!(matches!(ConsensusState::new(bad, MassaTime::from_millis(5)), Err(GraphError::ConfigError)));
    let mut huge = cfg;
    huge.t0 = MassaTime::from_millis(u64::MAX / 2);
    assert!(matches!(ConsensusState::new(huge, MassaTime::from_millis(5)), Err(GraphError::TimeOverflow)));
}

#[test]
fn genesis_block_is_signed_by_the_genesis_key() {
    let cfg = config(2);
    let (id, block) = create_genesis_block(&cfg, 1).unwrap();
    assert_eq!(block.header.content.slot, Slot::new(0, 1));
    assert!(block.header.content.parents.is_empty());
    assert!(block.header.content.endorsements.is_empty());
    assert!(block.operations.is_empty());
    assert_eq!(block.header.content.creator, derive_public_key(&cfg.genesis_key));
    assert_eq!(
        block.header.content.operation_merkle_root,
        consensus_graph::hash::Hash::compute_from(&[])
    );
    assert!(block.header.check_signature().is_ok());
    assert_eq!(block.header.compute_block_id().unwrap(), id);
}

// Start with two threads and no snapshot: two final genesis blocks at slots (0,0) and
// (0,1), one clique that holds both, and each the latest final block of its thread.
#[test]
fn genesis_scenario() {
    let cfg = config(2);
    let state = ConsensusState::new(cfg, MassaTime::from_millis(0)).unwrap();
    let worker = GraphWorker::new(cfg, state, None, MassaTime::from_millis(0)).unwrap();
    let state = &worker.shared_state;
    assert_eq!(state.block_statuses.len(), 2);
    assert_eq!(state.genesis_hashes.len(), 2);
    let g0 = state.genesis_hashes[0];
    let g1 = state.genesis_hashes[1];
    assert_ne!(g0, g1);
    for (thread, id) in [(0u8, g0), (1u8, g1)] {
        match state.block_statuses.get(&id) {
            Some(BlockStatus::Active { a_block, storage }) => {
                assert!(a_block.is_final);
                assert_eq!(a_block.slot, Slot::new(0, thread));
                assert_eq!(a_block.block_id, id);
                assert_eq!(a_block.fitness, 1);
                assert!(a_block.parents.is_empty());
                assert_eq!(a_block.children.len(), 2);
                assert!(a_block.descendants.is_empty());
                assert_eq!(
                    a_block.creator_address,
                    Address::from_public_key(&derive_public_key(&cfg.genesis_key))
                );
                assert_eq!(storage.block_refs, vec![id]);
            }
            _ => panic!("genesis block is not active"),
        }
    }
    assert_eq!(state.max_cliques.len(), 1);
    assert_eq!(state.max_cliques[0].block_ids, vec![g0, g1]);
    assert!(state.max_cliques[0].is_blockclique);
    assert_eq!(state.latest_final_blocks_periods, vec![(g0, 0), (g1, 0)]);
    assert_eq!(state.best_parents, vec![(g0, 0), (g1, 0)]);
    assert_eq!(state.stored_blocks, vec![g0, g1]);

    // before the genesis time no slot has started: the first slot comes next
    assert_eq!(worker.previous_slot, None);
    assert_eq!(worker.next_slot, Slot::new(0, 0));
    assert_eq!(worker.next_timestamp, MassaTime::from_millis(1_000_000));
    assert_eq!(worker.final_block_stats.len(), 2);
    assert_eq!(worker.final_block_stats[0].0, MassaTime::from_millis(1_000_000));
    assert_eq!(worker.final_block_stats[1].0, MassaTime::from_millis(1_008_000));
    assert!(!worker.final_block_stats[0].2);
    assert_eq!(worker.launch_time, MassaTime::from_millis(0));
}

#[test]
fn worker_starts_at_the_slot_after_the_latest() {
    let cfg = config(2);
    let now = MassaTime::from_millis(1_000_000 + 3 * 16000 + 8000 + 5);
    let state = ConsensusState::new(cfg, now).unwrap();
    let worker = GraphWorker::new(cfg, state, None, now).unwrap();
    assert_eq!(worker.previous_slot, Some(Slot::new(3, 1)));
    assert_eq!(worker.next_slot, Slot::new(4, 0));
    assert_eq!(worker.next_timestamp, MassaTime::from_millis(1_000_000 + 4 * 16000));
    assert_eq!(worker.stats_desync_detection_timespan, MassaTime::from_millis(16000 * 256));
}

#[test]
fn worker_refuses_what_cannot_run() {
    let cfg = config(2);
    let state = ConsensusState::new(cfg, MassaTime::from_millis(0)).unwrap();
    let mut bad = cfg;
    bad.thread_count = 0;
    assert!(matches!(
        GraphWorker::new(bad, state, None, MassaTime::from_millis(0)),
        Err(GraphError::ConfigError)
    ));
    let state = ConsensusState::new(cfg, MassaTime::from_millis(0)).unwrap();
    let mut late = cfg;
    late.genesis_timestamp = MassaTime::from_millis(u64::MAX - 10);
    assert!(matches!(
        GraphWorker::new(late, state, None, MassaTime::from_millis(0)),
        Err(GraphError::TimeOverflow)
    ));
}

// A snapshot of a small graph: two genesis blocks, a block in each thread on top of
// them, and one more in thread 0.
//
//   thread 0:  a0 <- b0 <- c0
//   thread 1:  a1 <- b1
//
// b0 and b1 have parents [a0, a1]; c0 has parents [b0, b1].
#[test]
fn snapshot_import_rebuilds_the_links() {
    let cfg = config(2);
    let key = generate_random_private_key();
    let (a0, blk_a0) = signed_block(&key, Slot::new(0, 0), vec![]);
    let (a1, blk_a1) = signed_block(&key, Slot::new(0, 1), vec![]);
    let (b0, blk_b0) = signed_block(&key, Slot::new(1, 0), vec![a0, a1]);
    let (b1, blk_b1) = signed_block(&key, Slot::new(1, 1), vec![a0, a1]);
    let (c0, blk_c0) = signed_block(&key, Slot::new(2, 0), vec![b0, b1]);
    let graph = BootstrapableGraph {
        final_blocks: vec![
            ExportActiveBlock { block: blk_c0, parents: vec![(b0, 1), (b1, 1)], is_final: true },
            ExportActiveBlock { block: blk_a0, parents: vec![], is_final: true },
            ExportActiveBlock { block: blk_b1, parents: vec![(a0, 0), (a1, 0)], is_final: true },
            ExportActiveBlock { block: blk_a1, parents: vec![], is_final: true },
            ExportActiveBlock { block: blk_b0, parents: vec![(a0, 0), (a1, 0)], is_final: true },
        ],
    };
    let state = ConsensusState::new(cfg, MassaTime::from_millis(0)).unwrap();
    let worker = GraphWorker::new(cfg, state, Some(graph), MassaTime::from_millis(0)).unwrap();
    let state = &worker.shared_state;
    assert_eq!(state.block_statuses.len(), 5);
    assert_eq!(state.latest_final_blocks_periods, vec![(c0, 2), (b1, 1)]);
    assert_eq!(state.best_parents, state.latest_final_blocks_periods);
    assert_eq!(state.max_cliques.len(), 1);
    assert_eq!(state.max_cliques[0].block_ids, vec![c0, a0, b1, a1, b0]);
    assert!(state.max_cliques[0].is_blockclique);
    assert_eq!(state.genesis_hashes.len(), 2);
    for id in [a0, a1, b0, b1, c0] {
        assert!(state.stored_blocks.contains(&id));
    }

    let get = |id: &BlockId| match state.block_statuses.get(id) {
        Some(BlockStatus::Active { a_block, storage }) => (a_block.clone(), storage.clone()),
        _ => panic!("block is not active"),
    };
    let sorted = |mut v: Vec<BlockId>| {
        v.sort();
        v
    };
    let children = |id: &BlockId, thread: usize| {
        let (a, _) = get(id);
        let mut v: Vec<(BlockId, u64)> = a.children[thread].entries.clone();
        v.sort();
        v
    };
    let mut expect = vec![(b0, 1u64)];
    assert_eq!(children(&a0, 0), expect);
    assert_eq!(children(&a0, 1), vec![(b1, 1)]);
    assert_eq!(children(&a1, 0), vec![(b0, 1)]);
    assert_eq!(children(&a1, 1), vec![(b1, 1)]);
    expect = vec![(c0, 2)];
    assert_eq!(children(&b0, 0), expect);
    assert!(children(&b0, 1).is_empty());
    assert_eq!(children(&b1, 0), vec![(c0, 2)]);
    assert!(children(&c0, 0).is_empty());

    assert_eq!(sorted(get(&a0).0.descendants), sorted(vec![b0, b1, c0]));
    assert_eq!(sorted(get(&a1).0.descendants), sorted(vec![b0, b1, c0]));
    assert_eq!(sorted(get(&b0).0.descendants), vec![c0]);
    assert_eq!(sorted(get(&b1).0.descendants), vec![c0]);
    assert!(get(&c0).0.descendants.is_empty());

    // each handle holds its own block and the parents that the store has
    assert_eq!(sorted(get(&a0).1.block_refs), vec![a0]);
    assert_eq!(sorted(get(&b0).1.block_refs), sorted(vec![b0, a0, a1]));
    assert_eq!(sorted(get(&c0).1.block_refs), sorted(vec![c0, b0, b1]));
    for id in [a0, a1, b0, b1, c0] {
        assert!(get(&id).0.is_final);
    }
}

#[test]
fn snapshot_with_a_block_twice_or_a_bad_thread_is_refused() {
    let cfg = config(2);
    let key = generate_random_private_key();
    let (_, blk) = signed_block(&key, Slot::new(1, 0), vec![]);
    let twice = BootstrapableGraph {
        final_blocks: vec![
            ExportActiveBlock { block: blk.clone(), parents: vec![], is_final: true },
            ExportActiveBlock { block: blk, parents: vec![], is_final: true },
        ],
    };
    let state = ConsensusState::new(cfg, MassaTime::from_millis(0)).unwrap();
    assert!(matches!(
        GraphWorker::new(cfg, state, Some(twice), MassaTime::from_millis(0)),
        Err(GraphError::InvalidBootstrap)
    ));
    let (_, far) = signed_block(&key, Slot::new(1, 2), vec![]);
    let bad = BootstrapableGraph {
        final_blocks: vec![ExportActiveBlock { block: far, parents: vec![], is_final: true }],
    };
    let state = ConsensusState::new(cfg, MassaTime::from_millis(0)).unwrap();
    assert!(matches!(
        GraphWorker::new(cfg, state, Some(bad), MassaTime::from_millis(0)),
        Err(GraphError::InvalidBootstrap)
    ));
}

#[test]
fn missing_parents_of_a_block_that_is_not_final_are_fatal() {
    let cfg = config(2);
    let state = ConsensusState::new(cfg, MassaTime::from_millis(0)).unwrap();
    let mut worker = GraphWorker::new(cfg, state, None, MassaTime::from_millis(0)).unwrap();
    let g0 = worker.shared_state.genesis_hashes[0];
    // make a genesis block not final: it has no parents in the store
    let before = worker.shared_state.block_statuses.clone();
    if let Some(BlockStatus::Active { a_block, storage }) =
        worker.shared_state.block_statuses.get(&g0).cloned()
    {
        let mut changed = a_block;
        changed.is_final = false;
        worker
            .shared_state
            .block_statuses
            .insert(g0, BlockStatus::Active { a_block: changed, storage });
    }
    assert_eq!(worker.claim_parent_refs(), Err(GraphError::MissingBlock));
    // nothing else changed
    assert_eq!(worker.shared_state.block_statuses.len(), before.len());
    // with final blocks only, linking succeeds
    if let Some(BlockStatus::Active { a_block, storage }) =
        worker.shared_state.block_statuses.get(&g0).cloned()
    {
        let mut changed = a_block;
        changed.is_final = true;
        worker
            .shared_state
            .block_statuses
            .insert(g0, BlockStatus::Active { a_block: changed, storage });
    }
    assert_eq!(worker.claim_parent_refs(), Ok(()));
}

#[test]
fn created_blocks_enter_where_their_identifiers_differ() {
    let cfg = config(2);
    let (id0, b0) = create_genesis_block(&cfg, 0).unwrap();
    let (id1, b1) = create_genesis_block(&cfg, 1).unwrap();
    let (statuses, ids) = consensus_graph::worker::enter_created_blocks(
        &vec![(id0, b0.clone()), (id1, b1.clone())],
        2,
    )
    .unwrap();
    assert_eq!(ids, vec![id0, id1]);
    assert_eq!(statuses.entries.len(), 2);
    match &statuses.entries[1].1 {
        BlockStatus::Active { a_block, storage } => {
            assert_eq!(a_block.block_id, id1);
            assert_eq!(a_block.slot, Slot::new(0, 1));
            assert!(a_block.is_final);
            assert_eq!(a_block.fitness, 1);
            assert!(a_block.parents.is_empty());
            assert_eq!(a_block.children.len(), 2);
            assert_eq!(storage.block_refs, vec![id1]);
        }
        other => panic!("unexpected status {:?}", other),
    }
    // the same identifier twice
    assert_eq!(
        consensus_graph::worker::enter_created_blocks(&vec![(id0, b0.clone()), (id0, b1)], 2).err(),
        Some(GraphError::GenesisCreationError)
    );
    // none, and one
    assert!(consensus_graph::worker::enter_created_blocks(&vec![], 2).is_ok());
    assert!(consensus_graph::worker::enter_created_blocks(&vec![(id0, b0)], 1).is_ok());
    // with one thread the start cannot fail for its genesis block
    let one = config(1);
    let state = ConsensusState::new(one, MassaTime::from_millis(0)).unwrap();
    assert!(GraphWorker::new(one, state, None, MassaTime::from_millis(0)).is_ok());
}
