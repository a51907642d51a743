use consensus_graph::block::{BlockHeader, BlockHeaderContent};
use consensus_graph::block_id::BlockId;
use consensus_graph::config::ConsensusConfig;
use consensus_graph::graph::{BlockStatus, DiscardReason};
use consensus_graph::signature::{derive_public_key, generate_random_private_key, PrivateKey};
use consensus_graph::slot::Slot;
use consensus_graph::state::ConsensusState;
use consensus_graph::time::MassaTime;
use consensus_graph::worker::GraphWorker;

fn start(delta_f0: u64, max_dependency_blocks: usize) -> ConsensusState {
    let mut cfg = ConsensusConfig::default_with(
        generate_random_private_key(),
        MassaTime::from_millis(0),
    );
    cfg.thread_count = 2;
    cfg.delta_f0 = delta_f0;
    cfg.max_dependency_blocks = max_dependency_blocks;
    let state = ConsensusState::new(cfg, MassaTime::from_millis(0)).unwrap();
    GraphWorker::new(cfg, state, None, MassaTime::from_millis(0)).unwrap().shared_state
}

fn header(key: &PrivateKey, slot: Slot, parents: Vec<BlockId>) -> (BlockId, BlockHeader) {
    let content = BlockHeaderContent {
        creator: derive_public_key(key),
        slot,
        parents,
        operation_merkle_root: consensus_graph::hash::Hash::compute_from(&[]),
        endorsements: vec![],
    };
    BlockHeader::new_signed(key, content).unwrap()
}

fn sorted(mut v: Vec<BlockId>) -> Vec<BlockId> {
    v.sort();
    v
}

fn is_active(state: &ConsensusState, id: &BlockId) -> bool {
    matches!(state.block_statuses.get(id), Some(BlockStatus::Active { .. }))
}

fn is_final(state: &ConsensusState, id: &BlockId) -> bool {
    matches!(state.block_statuses.get(id), Some(BlockStatus::Active { a_block, .. }) if a_block.is_final)
}

fn blockcliques(state: &ConsensusState) -> Vec<Vec<BlockId>> {
    state
        .max_cliques
        .iter()
        .filter(|c| c.is_blockclique)
        .map(|c| sorted(c.block_ids.clone()))
        .collect()
}

fn check_invariants(state: &ConsensusState) {
    assert!(state.is_well_formed());
    // exactly one blockclique
    assert_eq!(state.max_cliques.iter().filter(|c| c.is_blockclique).count(), 1);
    // no two blocks of a clique are recorded as incompatible
    for clique in &state.max_cliques {
        for a in &clique.block_ids {
            assert!(is_active(state, a));
            if let Some(list) = state.gi_head.get(a) {
                for b in &clique.block_ids {
                    assert!(!list.contains(b));
                }
            }
        }
    }
    // every known parent of a final block is final, or was
    for (_, status) in &state.block_statuses.entries {
        if let BlockStatus::Active { a_block, .. } = status {
            if a_block.is_final {
                for (p, _) in &a_block.parents {
                    match state.block_statuses.get(p) {
                        None => {}
                        Some(BlockStatus::Active { a_block: pb, .. }) => assert!(pb.is_final),
                        Some(BlockStatus::Discarded { reason, .. }) => {
                            assert_eq!(*reason, DiscardReason::Final)
                        }
                        Some(_) => panic!("a parent of a final block is on its way in"),
                    }
                }
            }
        }
    }
    assert_eq!(state.latest_final_blocks_periods.len(), state.config.thread_count as usize);
}

// Linear extension: B1 at (1,0) on the genesis blocks.
#[test]
fn linear_extension() {
    let mut state = start(32, 100);
    let key = generate_random_private_key();
    let g0 = state.genesis_hashes[0];
    let g1 = state.genesis_hashes[1];
    let (b1, h1) = header(&key, Slot::new(1, 0), vec![g0, g1]);
    state.register_block_header(b1, h1, Slot::new(1, 0)).unwrap();
    assert!(is_active(&state, &b1));
    assert!(!is_final(&state, &b1));
    assert_eq!(blockcliques(&state), vec![sorted(vec![g0, g1, b1])]);
    assert_eq!(state.max_cliques.len(), 1);
    assert_eq!(state.max_cliques[0].fitness, 1);
    assert_eq!(state.best_parents[0], (b1, 1));
    assert_eq!(state.best_parents[1], (g1, 0));
    // the links of the new block
    match state.block_statuses.get(&g0) {
        Some(BlockStatus::Active { a_block, .. }) => {
            assert_eq!(a_block.children[0].entries, vec![(b1, 1)]);
            assert_eq!(a_block.descendants, vec![b1]);
        }
        _ => panic!("genesis block is not active"),
    }
    assert_eq!(state.to_propagate, vec![b1]);
    check_invariants(&state);
}

// Fork: B2 at (1,0) with the same parents as B1, by another creator.
#[test]
fn fork() {
    let mut state = start(32, 100);
    let g0 = state.genesis_hashes[0];
    let g1 = state.genesis_hashes[1];
    let (b1, h1) = header(&generate_random_private_key(), Slot::new(1, 0), vec![g0, g1]);
    let (b2, h2) = header(&generate_random_private_key(), Slot::new(1, 0), vec![g0, g1]);
    state.register_block_header(b1, h1, Slot::new(1, 0)).unwrap();
    state.register_block_header(b2, h2, Slot::new(1, 0)).unwrap();
    assert!(is_active(&state, &b1));
    assert!(is_active(&state, &b2));
    assert_eq!(state.max_cliques.len(), 2);
    let mut cliques: Vec<Vec<BlockId>> =
        state.max_cliques.iter().map(|c| sorted(c.block_ids.clone())).collect();
    cliques.sort();
    let mut expected = vec![sorted(vec![g0, g1, b1]), sorted(vec![g0, g1, b2])];
    expected.sort();
    assert_eq!(cliques, expected);
    // the blockclique is the one with the smaller of the two blocks
    let smaller = if b1 < b2 { b1 } else { b2 };
    assert_eq!(blockcliques(&state), vec![sorted(vec![g0, g1, smaller])]);
    assert_eq!(state.gi_head.get(&b1), Some(&vec![b2]));
    assert_eq!(state.gi_head.get(&b2), Some(&vec![b1]));
    assert_eq!(state.best_parents[0], (smaller, 1));
    check_invariants(&state);
}

// Finality: the clique of B1 is extended until it leads the clique of B2 by 32.
#[test]
fn finality() {
    let mut state = start(32, 100);
    let key = generate_random_private_key();
    let g0 = state.genesis_hashes[0];
    let g1 = state.genesis_hashes[1];
    let (b1, h1) = header(&key, Slot::new(1, 0), vec![g0, g1]);
    let (b2, h2) = header(&generate_random_private_key(), Slot::new(1, 0), vec![g0, g1]);
    let now = Slot::new(40, 1);
    state.register_block_header(b1, h1, now).unwrap();
    state.register_block_header(b2, h2, now).unwrap();
    let latest_before = state.latest_final_blocks_periods.clone();

    // extend the clique of B1: thread 1 at period p, then thread 0 at period p + 1
    let mut tip0 = b1;
    let mut tip1 = g1;
    let mut added = vec![b1];
    let mut period = 1u64;
    let mut steps = 0;
    while !is_final(&state, &b1) {
        assert!(steps < 100);
        steps += 1;
        // fitness of the clique of B1 so far
        let lead = state
            .max_cliques
            .iter()
            .find(|c| c.block_ids.contains(&b1))
            .map(|c| c.fitness)
            .unwrap();
        assert!(lead < 33);
        assert!(is_active(&state, &b2));
        let (id, h) = if steps % 2 == 1 {
            let r = header(&key, Slot::new(period, 1), vec![tip0, tip1]);
            tip1 = r.0;
            r
        } else {
            period += 1;
            let r = header(&key, Slot::new(period, 0), vec![tip0, tip1]);
            tip0 = r.0;
            r
        };
        state.register_block_header(id, h, now).unwrap();
        added.push(id);
        check_invariants(&state);
    }
    // 33 blocks of fitness 1 lead the one block of the other clique by 32
    assert_eq!(added.len(), 33);
    assert!(is_final(&state, &b1));
    match state.block_statuses.get(&b2) {
        Some(BlockStatus::Discarded { reason, .. }) => assert_eq!(*reason, DiscardReason::Stale),
        _ => panic!("the losing block is not discarded"),
    }
    assert_eq!(state.max_cliques.len(), 1);
    assert!(state.max_cliques[0].is_blockclique);
    assert!(!state.max_cliques[0].block_ids.contains(&b2));
    assert!(state.gi_head.get(&b1).is_none());
    assert!(state.gi_head.get(&b2).is_none());
    assert!(state.new_final_blocks.contains(&b1));
    assert!(state.new_stale_blocks.contains(&b2));
    // the latest final periods did not go back
    for t in 0..2 {
        assert!(state.latest_final_blocks_periods[t].1 >= latest_before[t].1);
    }
    assert!(state.latest_final_blocks_periods[0].1 >= 1);

    // a block that was discarded or final does not enter again
    let before = state.block_statuses.len();
    let (_, again) = header(&key, Slot::new(1, 0), vec![g0, g1]);
    state.register_block_header(b2, again.clone(), now).unwrap();
    state.register_block_header(b1, again, now).unwrap();
    assert_eq!(state.block_statuses.len(), before);
    assert!(is_final(&state, &b1));
    assert!(matches!(state.block_statuses.get(&b2), Some(BlockStatus::Discarded { .. })));
    check_invariants(&state);
}

// Missing dependency, then release: B3 waits for B1 and enters when B1 does.
#[test]
fn missing_dependency_then_release() {
    let mut state = start(32, 100);
    let key = generate_random_private_key();
    let g0 = state.genesis_hashes[0];
    let g1 = state.genesis_hashes[1];
    let (b1, h1) = header(&key, Slot::new(1, 0), vec![g0, g1]);
    let (b3, h3) = header(&key, Slot::new(2, 0), vec![b1, g1]);
    let now = Slot::new(2, 0);
    state.register_block_header(b3, h3, now).unwrap();
    match state.block_statuses.get(&b3) {
        Some(BlockStatus::WaitingForDependencies { unsatisfied_dependencies, .. }) => {
            assert_eq!(unsatisfied_dependencies, &vec![b1]);
        }
        _ => panic!("the block does not wait for its parent"),
    }
    assert!(state.wishlist.contains(&b1));
    state.register_block_header(b1, h1, now).unwrap();
    assert!(is_active(&state, &b1));
    assert!(is_active(&state, &b3));
    assert_eq!(blockcliques(&state), vec![sorted(vec![g0, g1, b1, b3])]);
    assert_eq!(state.best_parents[0], (b3, 2));
    check_invariants(&state);
}

// Dependency flood: more blocks wait for unknown parents than may wait.
#[test]
fn dependency_flood() {
    let max = 5usize;
    let mut state = start(32, max);
    let key = generate_random_private_key();
    let g1 = state.genesis_hashes[1];
    let mut ids = Vec::new();
    for i in 0..(max + 1) {
        let unknown =
            BlockId(consensus_graph::hash::Hash::compute_from(format!("unknown {}", i).as_bytes()));
        let (id, h) = header(&key, Slot::new(1, 0), vec![unknown, g1]);
        state.register_block_header(id, h, Slot::new(1, 0)).unwrap();
        ids.push(id);
        check_invariants(&state);
    }
    // the block that waited longest was dropped
    match state.block_statuses.get(&ids[0]) {
        Some(BlockStatus::Discarded { reason, .. }) => assert_eq!(*reason, DiscardReason::Stale),
        _ => panic!("the oldest waiting block was not discarded"),
    }
    for id in &ids[1..] {
        assert!(matches!(
            state.block_statuses.get(id),
            Some(BlockStatus::WaitingForDependencies { .. })
        ));
    }
    assert_eq!(state.attack_attempts, 1);
    let waiting = state
        .block_statuses
        .entries
        .iter()
        .filter(|(_, s)| matches!(s, BlockStatus::WaitingForDependencies { .. }))
        .count();
    assert_eq!(waiting, max);
}

#[test]
fn block_ahead_of_its_slot_waits_for_it() {
    let mut state = start(32, 100);
    let key = generate_random_private_key();
    let g0 = state.genesis_hashes[0];
    let g1 = state.genesis_hashes[1];
    let (b1, h1) = header(&key, Slot::new(1, 1), vec![g0, g1]);
    state.register_block_header(b1, h1, Slot::new(1, 0)).unwrap();
    assert!(matches!(state.block_statuses.get(&b1), Some(BlockStatus::WaitingForSlot(_))));
    state.slot_tick(Slot::new(1, 0)).unwrap();
    assert!(matches!(state.block_statuses.get(&b1), Some(BlockStatus::WaitingForSlot(_))));
    state.slot_tick(Slot::new(1, 1)).unwrap();
    assert!(is_active(&state, &b1));
    check_invariants(&state);
}

#[test]
fn malformed_headers_are_discarded_as_invalid() {
    let mut state = start(32, 100);
    let key = generate_random_private_key();
    let g0 = state.genesis_hashes[0];
    let g1 = state.genesis_hashes[1];
    let now = Slot::new(5, 0);
    let invalid = |state: &ConsensusState, id: &BlockId| match state.block_statuses.get(id) {
        Some(BlockStatus::Discarded { reason, .. }) => *reason == DiscardReason::Invalid,
        _ => false,
    };
    // one parent only
    let (id, h) = header(&key, Slot::new(1, 0), vec![g0]);
    state.register_block_header(id, h, now).unwrap();
    assert!(invalid(&state, &id));
    // a thread that is none
    let (id, h) = header(&key, Slot::new(1, 2), vec![g0, g1]);
    state.register_block_header(id, h, now).unwrap();
    assert!(invalid(&state, &id));
    // period 0
    let (id, h) = header(&key, Slot::new(0, 0), vec![g0, g1]);
    state.register_block_header(id, h, now).unwrap();
    assert!(invalid(&state, &id));
    // a signature that is not the creator's
    let (id, mut h) = header(&key, Slot::new(1, 0), vec![g0, g1]);
    h.content.creator = derive_public_key(&generate_random_private_key());
    state.register_block_header(id, h, now).unwrap();
    assert!(invalid(&state, &id));
    // too far ahead: the default is 100 periods
    let (id, h) = header(&key, Slot::new(106, 0), vec![g0, g1]);
    state.register_block_header(id, h, now).unwrap();
    assert!(invalid(&state, &id));
    // parents in the wrong threads
    let (id, h) = header(&key, Slot::new(1, 0), vec![g1, g0]);
    state.register_block_header(id, h, now).unwrap();
    assert!(invalid(&state, &id));
    // a child of an invalid block is invalid
    let (bad, hb) = header(&key, Slot::new(1, 0), vec![g1, g0]);
    state.register_block_header(bad, hb, now).unwrap();
    let (child, hc) = header(&key, Slot::new(2, 0), vec![bad, g1]);
    state.register_block_header(child, hc, now).unwrap();
    assert!(invalid(&state, &child));
    check_invariants(&state);
}

#[test]
fn marking_a_block_invalid_discards_it_and_its_descendants() {
    let mut state = start(32, 100);
    let key = generate_random_private_key();
    let g0 = state.genesis_hashes[0];
    let g1 = state.genesis_hashes[1];
    let now = Slot::new(5, 0);
    let (b1, h1) = header(&key, Slot::new(1, 0), vec![g0, g1]);
    let (b2, h2) = header(&key, Slot::new(2, 0), vec![b1, g1]);
    state.register_block_header(b1, h1.clone(), now).unwrap();
    state.register_block_header(b2, h2, now).unwrap();
    assert!(is_active(&state, &b2));
    state.mark_invalid_block(b1, h1.clone(), now).unwrap();
    match state.block_statuses.get(&b1) {
        Some(BlockStatus::Discarded { reason, .. }) => assert_eq!(*reason, DiscardReason::Invalid),
        _ => panic!("the block is not discarded"),
    }
    match state.block_statuses.get(&b2) {
        Some(BlockStatus::Discarded { reason, .. }) => assert_eq!(*reason, DiscardReason::Stale),
        _ => panic!("the descendant is not discarded"),
    }
    assert_eq!(blockcliques(&state), vec![sorted(vec![g0, g1])]);
    assert_eq!(state.best_parents, vec![(g0, 0), (g1, 0)]);
    // a genesis block is final: marking it invalid changes nothing
    let before = state.block_statuses.len();
    state.mark_invalid_block(g0, h1, now).unwrap();
    assert!(is_final(&state, &g0));
    assert_eq!(state.block_statuses.len(), before);
    check_invariants(&state);
}
