use consensus_graph::address::Address;
use consensus_graph::block::{BlockHeader, BlockHeaderContent};
use consensus_graph::block_id::BlockId;
use consensus_graph::cliques::{
    absorb, assemble_cliques, choose_blockclique, clique_precedes, compute_fitness, plan_cliques,
};
use consensus_graph::config::ConsensusConfig;
use consensus_graph::export::{kind_of, StatusKind};
use consensus_graph::graph::{ActiveBlock, BlockStatus, Clique, DiscardReason, HeaderOrBlock, Storage};
use consensus_graph::id_map::IdMap;
use consensus_graph::id_set::{
    id_list_clone, id_list_contains, id_list_insert, id_list_is_subset, id_list_position,
    id_list_remove, id_list_without, id_lists_intersect,
};
use consensus_graph::signature::{derive_public_key, generate_random_private_key, PrivateKey};
use consensus_graph::slot::Slot;
use consensus_graph::state::{ConsensusState, GraphError};
use consensus_graph::text::{bytes_eq, find_single_separator};
use consensus_graph::time::MassaTime;
use consensus_graph::worker::GraphWorker;

fn id(n: u8) -> BlockId {
    BlockId(consensus_graph::hash::Hash::from_bytes(&[n; 32]))
}

fn sorted(mut v: Vec<BlockId>) -> Vec<BlockId> {
    v.sort();
    v
}

fn sorted_sets(sets: Vec<Vec<BlockId>>) -> Vec<Vec<BlockId>> {
    let mut out: Vec<Vec<BlockId>> = sets.into_iter().map(sorted).collect();
    out.sort();
    out
}

fn configured(change: impl Fn(&mut ConsensusConfig)) -> ConsensusState {
    let mut cfg = ConsensusConfig::default_with(
        generate_random_private_key(),
        MassaTime::from_millis(0),
    );
    cfg.thread_count = 2;
    cfg.delta_f0 = 32;
    change(&mut cfg);
    let state = ConsensusState::new(cfg, MassaTime::from_millis(0)).unwrap();
    GraphWorker::new(cfg, state, None, MassaTime::from_millis(0)).unwrap().shared_state
}

fn start() -> ConsensusState {
    configured(|_| {})
}

fn header(key: &PrivateKey, slot: Slot, parents: Vec<BlockId>) -> (BlockId, BlockHeader) {
    let content = BlockHeaderContent {
        creator: derive_public_key(key),
        slot,
        parents,
        operation_merkle_root: consensus_graph::hash::Hash::compute_from(&[]),
        endorsements: vec![],
    };
    BlockHeader::new_signed(key, content).unwrap()
}

fn reason_of(state: &ConsensusState, id: &BlockId) -> Option<DiscardReason> {
    match state.get_block_status(id) {
        Some(BlockStatus::Discarded { reason, .. }) => Some(*reason),
        _ => None,
    }
}

fn kind(state: &ConsensusState, id: &BlockId) -> Option<StatusKind> {
    state.get_block_status(id).map(kind_of)
}

fn active(fitness: u64, is_final: bool, n: u8) -> BlockStatus {
    BlockStatus::Active {
        a_block: ActiveBlock {
            creator_address: Address(consensus_graph::hash::Hash::from_bytes(&[0; 32])),
            block_id: id(n),
            parents: vec![],
            children: vec![IdMap::new(), IdMap::new()],
            descendants: vec![],
            is_final,
            slot: Slot::new(1, 0),
            fitness,
        },
        storage: Storage::new(),
    }
}

#[test]
fn lists_of_identifiers_are_sets() {
    let mut list: Vec<BlockId> = Vec::new();
    assert!(id_list_insert(&mut list, id(3)));
    assert!(id_list_insert(&mut list, id(1)));
    assert!(!id_list_insert(&mut list, id(3)));
    assert_eq!(list, vec![id(3), id(1)]);
    assert!(id_list_contains(&list, &id(1)));
    assert!(!id_list_contains(&list, &id(2)));
    assert_eq!(id_list_position(&list, &id(1)), Some(1));
    assert_eq!(id_list_position(&list, &id(2)), None);
    assert!(id_lists_intersect(&list, &vec![id(2), id(1)]));
    assert!(!id_lists_intersect(&list, &vec![id(2)]));
    assert!(!id_lists_intersect(&list, &vec![]));
    assert!(id_list_is_subset(&vec![id(1)], &list));
    assert!(id_list_is_subset(&vec![], &list));
    assert!(!id_list_is_subset(&vec![id(1), id(2)], &list));
    assert_eq!(id_list_clone(&list), list);
    assert!(id_list_remove(&mut list, &id(3)));
    assert!(!id_list_remove(&mut list, &id(3)));
    assert_eq!(list, vec![id(1)]);
    assert_eq!(id_list_without(&vec![id(1), id(2), id(1), id(3)], &id(1)), vec![id(2), id(3)]);
    assert_eq!(id_list_without(&vec![id(1), id(2)], &id(4)), vec![id(1), id(2)]);
    assert_eq!(id_list_without(&vec![id(1)], &id(1)), vec![]);
}

#[test]
fn maps_keep_the_order_of_insertion() {
    let mut map: IdMap<u64> = IdMap::new();
    assert_eq!(map.len(), 0);
    map.insert(id(5), 50);
    map.insert(id(2), 20);
    map.insert(id(5), 51);
    assert_eq!(map.entries, vec![(id(5), 51), (id(2), 20)]);
    assert_eq!(map.len(), 2);
    assert!(map.contains_key(&id(2)));
    assert!(!map.contains_key(&id(3)));
    assert_eq!(map.get(&id(5)), Some(&51));
    assert_eq!(map.get(&id(3)), None);
    assert_eq!(map.position(&id(2)), Some(1));
    assert_eq!(map.remove(&id(5)), Some(51));
    assert_eq!(map.remove(&id(5)), None);
    assert_eq!(map.entries, vec![(id(2), 20)]);
}

#[test]
fn a_prefix_is_told_by_a_single_separator() {
    assert_eq!(find_single_separator(b"PRI-abc"), Some(3));
    assert_eq!(find_single_separator(b"-abc"), Some(0));
    assert_eq!(find_single_separator(b"abc-"), Some(3));
    assert_eq!(find_single_separator(b"abc"), None);
    assert_eq!(find_single_separator(b"a-b-c"), None);
    assert_eq!(find_single_separator(b""), None);
    assert!(bytes_eq(b"PRI", b"PRI"));
    assert!(!bytes_eq(b"PRI", b"PUB"));
    assert!(!bytes_eq(b"PRI", b"PR"));
    assert!(bytes_eq(b"", b""));
}

#[test]
fn a_set_is_absorbed_unless_it_is_part_of_another() {
    let mut kept: Vec<Vec<BlockId>> = Vec::new();
    absorb(&mut kept, vec![id(1), id(2)]);
    assert_eq!(kept, vec![vec![id(1), id(2)]]);
    // a part of a set that is kept changes nothing
    absorb(&mut kept, vec![id(2)]);
    assert_eq!(kept, vec![vec![id(1), id(2)]]);
    // the same set in another order changes nothing
    absorb(&mut kept, vec![id(2), id(1)]);
    assert_eq!(kept.len(), 1);
    // a set that is no part of another enters
    absorb(&mut kept, vec![id(2), id(3)]);
    assert_eq!(sorted_sets(kept.clone()), vec![vec![id(1), id(2)], vec![id(2), id(3)]]);
    // a set that holds sets that are kept takes their place
    absorb(&mut kept, vec![id(1), id(2), id(3)]);
    assert_eq!(sorted_sets(kept), vec![vec![id(1), id(2), id(3)]]);
}

fn clique(ids: Vec<BlockId>) -> Clique {
    Clique { block_ids: ids, fitness: 0, is_blockclique: false }
}

#[test]
fn cliques_once_a_block_has_entered() {
    let cliques = vec![clique(vec![id(1), id(2)])];
    // compatible with all: it joins the clique
    assert_eq!(
        sorted_sets(plan_cliques(&cliques, id(3), &vec![])),
        vec![vec![id(1), id(2), id(3)]]
    );
    // incompatible with one block: the clique splits
    assert_eq!(
        sorted_sets(plan_cliques(&cliques, id(3), &vec![id(2)])),
        vec![vec![id(1), id(2)], vec![id(1), id(3)]]
    );
    // incompatible with all: it is alone
    assert_eq!(
        sorted_sets(plan_cliques(&cliques, id(3), &vec![id(1), id(2)])),
        vec![vec![id(1), id(2)], vec![id(3)]]
    );
    // two cliques that give the same set give it once, and a part of another set is dropped
    let two = vec![clique(vec![id(1), id(2)]), clique(vec![id(1), id(4)])];
    assert_eq!(
        sorted_sets(plan_cliques(&two, id(3), &vec![id(2), id(4)])),
        vec![vec![id(1), id(2)], vec![id(1), id(3)], vec![id(1), id(4)]]
    );
    assert_eq!(
        sorted_sets(plan_cliques(&two, id(3), &vec![id(4)])),
        vec![vec![id(1), id(2), id(3)], vec![id(1), id(4)]]
    );
}

#[test]
fn fitness_counts_the_blocks_that_are_not_final() {
    let mut statuses: IdMap<BlockStatus> = IdMap::new();
    statuses.insert(id(1), active(3, false, 1));
    statuses.insert(id(2), active(5, true, 2));
    statuses.insert(id(3), active(7, false, 3));
    statuses.insert(
        id(4),
        BlockStatus::Discarded {
            slot: Slot::new(1, 0),
            creator: Address(consensus_graph::hash::Hash::from_bytes(&[0; 32])),
            parents: vec![],
            reason: DiscardReason::Stale,
            sequence_number: 0,
        },
    );
    assert_eq!(compute_fitness(&statuses, &vec![]), Ok(0));
    assert_eq!(compute_fitness(&statuses, &vec![id(1)]), Ok(3));
    assert_eq!(compute_fitness(&statuses, &vec![id(1), id(2), id(3)]), Ok(10));
    assert_eq!(compute_fitness(&statuses, &vec![id(3), id(1)]), Ok(10));
    assert_eq!(compute_fitness(&statuses, &vec![id(2), id(4), id(9)]), Ok(0));
}

#[test]
fn a_fitness_that_does_not_fit_is_an_error() {
    let mut statuses: IdMap<BlockStatus> = IdMap::new();
    statuses.insert(id(1), active(u64::MAX, false, 1));
    statuses.insert(id(2), active(1, false, 2));
    assert_eq!(compute_fitness(&statuses, &vec![id(1)]), Ok(u64::MAX));
    assert_eq!(compute_fitness(&statuses, &vec![id(1), id(2)]), Err(GraphError::FitnessOverflow));
    assert_eq!(
        assemble_cliques(vec![vec![id(2)], vec![id(1), id(2)]], &statuses).err(),
        Some(GraphError::FitnessOverflow)
    );
}

#[test]
fn the_blockclique_is_the_fittest_and_then_the_first_by_its_blocks() {
    let mut statuses: IdMap<BlockStatus> = IdMap::new();
    statuses.insert(id(1), active(2, false, 1));
    statuses.insert(id(2), active(2, false, 2));
    statuses.insert(id(3), active(3, false, 3));
    statuses.insert(id(9), active(1, false, 9));
    // the fittest
    let cliques = assemble_cliques(vec![vec![id(9), id(1)], vec![id(9), id(3)]], &statuses).unwrap();
    assert_eq!(cliques.iter().map(|c| c.fitness).collect::<Vec<u64>>(), vec![3, 4]);
    assert_eq!(cliques.iter().map(|c| c.is_blockclique).collect::<Vec<bool>>(), vec![false, true]);
    assert_eq!(cliques[1].block_ids, vec![id(9), id(3)]);
    // as fit: the one whose own block comes first
    let tie = assemble_cliques(vec![vec![id(9), id(2)], vec![id(9), id(1)]], &statuses).unwrap();
    assert_eq!(tie.iter().map(|c| c.fitness).collect::<Vec<u64>>(), vec![3, 3]);
    assert_eq!(tie.iter().map(|c| c.is_blockclique).collect::<Vec<bool>>(), vec![false, true]);
    assert_eq!(choose_blockclique(&tie), 1);
    assert!(clique_precedes(&vec![id(9), id(1)], &vec![id(9), id(2)]));
    assert!(!clique_precedes(&vec![id(9), id(2)], &vec![id(9), id(1)]));
    assert!(!clique_precedes(&vec![id(1)], &vec![id(1)]));
    // a set that holds more comes before its part
    assert!(clique_precedes(&vec![id(1), id(2)], &vec![id(1)]));
    assert!(!clique_precedes(&vec![id(1)], &vec![id(1), id(2)]));
}

#[test]
fn blocks_are_listed_by_their_status() {
    let mut state = start();
    let key = generate_random_private_key();
    let g0 = state.genesis_hashes[0];
    let g1 = state.genesis_hashes[1];
    let now = Slot::new(1, 1);
    // active
    let (a, ha) = header(&key, Slot::new(1, 0), vec![g0, g1]);
    state.register_block_header(a, ha, now).unwrap();
    // ahead of the current slot
    let (w, hw) = header(&key, Slot::new(2, 0), vec![a, g1]);
    state.register_block_header(w, hw.clone(), now).unwrap();
    // a parent is unknown
    let (d, hd) = header(&key, Slot::new(1, 1), vec![g0, id(77)]);
    state.register_block_header(d, hd, now).unwrap();
    // period zero
    let (x, hx) = header(&key, Slot::new(0, 1), vec![g0, g1]);
    state.register_block_header(x, hx, now).unwrap();

    assert_eq!(state.incoming_index(), vec![]);
    assert_eq!(state.waiting_for_slot_index(), vec![w]);
    assert_eq!(state.waiting_for_dependencies_index(), vec![d]);
    assert_eq!(sorted(state.active_index()), sorted(vec![g0, g1, a]));
    assert_eq!(state.discarded_index(), vec![x]);

    assert_eq!(kind(&state, &a), Some(StatusKind::Active));
    assert_eq!(kind(&state, &w), Some(StatusKind::WaitingForSlot));
    assert_eq!(kind(&state, &d), Some(StatusKind::WaitingForDependencies));
    assert_eq!(kind(&state, &x), Some(StatusKind::Discarded));
    assert_eq!(kind(&state, &id(77)), None);
    assert_eq!(
        kind_of(&BlockStatus::Incoming(HeaderOrBlock { header: hw, is_block: false })),
        StatusKind::Incoming
    );
    match state.get_block_status(&d) {
        Some(BlockStatus::WaitingForDependencies { unsatisfied_dependencies, .. }) => {
            assert_eq!(unsatisfied_dependencies, &vec![id(77)])
        }
        other => panic!("unexpected status {:?}", other),
    }
    assert_eq!(state.wishlist, vec![id(77)]);
    assert_eq!(reason_of(&state, &x), Some(DiscardReason::Invalid));

    assert_eq!(state.get_latest_final_blocks(), vec![(g0, 0), (g1, 0)]);
    assert_eq!(state.get_best_parents(), vec![(a, 1), (g1, 0)]);
    let cliques = state.get_cliques();
    assert_eq!(cliques.len(), 1);
    assert!(cliques[0].is_blockclique);
    assert_eq!(cliques[0].fitness, 1);
    assert_eq!(sorted(cliques[0].block_ids.clone()), sorted(vec![g0, g1, a]));
}

#[test]
fn a_snapshot_comes_in_parts_in_the_order_of_the_slots() {
    let state = configured(|cfg| {
        cfg.thread_count = 3;
        cfg.bootstrap_part_size = 2;
    });
    let g = state.genesis_hashes.clone();
    let (first, cursor) = state.get_bootstrap_part(None);
    assert_eq!(first, vec![(g[0], Slot::new(0, 0)), (g[1], Slot::new(0, 1))]);
    assert_eq!(cursor, Some(Slot::new(0, 1)));
    let (second, cursor) = state.get_bootstrap_part(cursor);
    assert_eq!(second, vec![(g[2], Slot::new(0, 2))]);
    assert_eq!(cursor, Some(Slot::new(0, 2)));
    let (third, cursor) = state.get_bootstrap_part(cursor);
    assert_eq!(third, vec![]);
    assert_eq!(cursor, Some(Slot::new(0, 2)));
    // a cursor in between
    let (rest, _) = state.get_bootstrap_part(Some(Slot::new(0, 0)));
    assert_eq!(rest, vec![(g[1], Slot::new(0, 1)), (g[2], Slot::new(0, 2))]);
    // blocks that are not final are no part of it
    let mut state = state;
    let key = generate_random_private_key();
    let (a, ha) = header(&key, Slot::new(1, 0), g.clone());
    state.register_block_header(a, ha, Slot::new(1, 0)).unwrap();
    assert_eq!(kind(&state, &a), Some(StatusKind::Active));
    assert_eq!(state.get_bootstrap_part(Some(Slot::new(0, 2))).0, vec![]);
    assert_eq!(state.next_final_after(Some(Slot::new(0, 2))), None);
    assert!(state.next_final_after(None).is_some());
}

#[test]
fn a_block_is_taken_in_once() {
    let mut state = start();
    let key = generate_random_private_key();
    let g0 = state.genesis_hashes[0];
    let g1 = state.genesis_hashes[1];
    let now = Slot::new(1, 1);
    let (a, ha) = header(&key, Slot::new(1, 0), vec![g0, g1]);
    state.register_block_header(a, ha.clone(), now).unwrap();
    let statuses = format!("{:?}", state.block_statuses);
    let cliques = format!("{:?}", state.max_cliques);
    let counter = state.sequence_counter;
    // again, as a header and as a block
    state.register_block_header(a, ha.clone(), now).unwrap();
    state.register_block(a, ha.clone(), now).unwrap();
    assert_eq!(format!("{:?}", state.block_statuses), statuses);
    assert_eq!(format!("{:?}", state.max_cliques), cliques);
    assert_eq!(state.sequence_counter, counter);
    assert_eq!(state.to_propagate, vec![a]);
    // a discarded block stays discarded, whatever comes under its name
    let (x, hx) = header(&key, Slot::new(0, 0), vec![g0, g1]);
    state.register_block_header(x, hx, now).unwrap();
    assert_eq!(reason_of(&state, &x), Some(DiscardReason::Invalid));
    state.register_block_header(x, ha.clone(), now).unwrap();
    assert_eq!(reason_of(&state, &x), Some(DiscardReason::Invalid));
    // a final block stays final
    state.register_block_header(g0, ha, now).unwrap();
    match state.get_block_status(&g0) {
        Some(BlockStatus::Active { a_block, .. }) => assert!(a_block.is_final),
        other => panic!("unexpected status {:?}", other),
    }
    state.mark_invalid_block(g0, header(&key, Slot::new(1, 0), vec![g0, g1]).1, now).unwrap();
    match state.get_block_status(&g0) {
        Some(BlockStatus::Active { a_block, .. }) => assert!(a_block.is_final),
        other => panic!("unexpected status {:?}", other),
    }
}

#[test]
fn a_whole_block_is_noted_in_the_store() {
    let mut state = start();
    let key = generate_random_private_key();
    let g0 = state.genesis_hashes[0];
    let g1 = state.genesis_hashes[1];
    let (a, ha) = header(&key, Slot::new(1, 0), vec![g0, g1]);
    let (b, hb) = header(&key, Slot::new(1, 1), vec![g0, g1]);
    let stored = state.stored_blocks.len();
    state.register_block_header(a, ha, Slot::new(1, 1)).unwrap();
    assert_eq!(state.stored_blocks.len(), stored);
    state.register_block(b, hb, Slot::new(1, 1)).unwrap();
    assert_eq!(state.stored_blocks.len(), stored + 1);
    assert!(state.stored_blocks.contains(&b));
    assert_eq!(kind(&state, &a), Some(StatusKind::Active));
    assert_eq!(kind(&state, &b), Some(StatusKind::Active));
}

#[test]
fn a_tick_lets_in_the_blocks_whose_slot_has_come() {
    let mut state = start();
    let key = generate_random_private_key();
    let g0 = state.genesis_hashes[0];
    let g1 = state.genesis_hashes[1];
    let (a, ha) = header(&key, Slot::new(1, 0), vec![g0, g1]);
    let (b, hb) = header(&key, Slot::new(1, 1), vec![a, g1]);
    let (c, hc) = header(&key, Slot::new(3, 0), vec![a, b]);
    state.register_block_header(a, ha, Slot::new(0, 1)).unwrap();
    state.register_block_header(b, hb, Slot::new(0, 1)).unwrap();
    state.register_block_header(c, hc, Slot::new(0, 1)).unwrap();
    assert_eq!(kind(&state, &a), Some(StatusKind::WaitingForSlot));
    // the parent of b is not active, but its slot decides first
    assert_eq!(kind(&state, &b), Some(StatusKind::WaitingForSlot));
    assert_eq!(kind(&state, &c), Some(StatusKind::WaitingForSlot));

    state.slot_tick(Slot::new(1, 0)).unwrap();
    assert_eq!(kind(&state, &a), Some(StatusKind::Active));
    assert_eq!(kind(&state, &b), Some(StatusKind::WaitingForSlot));
    assert_eq!(state.waiting_for_slot_index(), vec![b, c]);

    state.slot_tick(Slot::new(1, 1)).unwrap();
    assert_eq!(kind(&state, &b), Some(StatusKind::Active));
    assert_eq!(state.waiting_for_slot_index(), vec![c]);

    // no block waits for a slot that has come
    state.slot_tick(Slot::new(5, 0)).unwrap();
    assert_eq!(state.waiting_for_slot_index(), vec![]);
    assert_eq!(kind(&state, &c), Some(StatusKind::Active));
    assert_eq!(state.get_best_parents(), vec![(c, 3), (b, 1)]);
}

#[test]
fn a_block_too_far_ahead_is_invalid() {
    let mut state = configured(|cfg| cfg.future_block_processing_max_periods = 3);
    let key = generate_random_private_key();
    let g0 = state.genesis_hashes[0];
    let g1 = state.genesis_hashes[1];
    let (near, hn) = header(&key, Slot::new(5, 0), vec![g0, g1]);
    let (far, hf) = header(&key, Slot::new(6, 0), vec![g0, g1]);
    state.register_block_header(near, hn, Slot::new(2, 0)).unwrap();
    state.register_block_header(far, hf, Slot::new(2, 0)).unwrap();
    assert_eq!(kind(&state, &near), Some(StatusKind::WaitingForSlot));
    assert_eq!(reason_of(&state, &far), Some(DiscardReason::Invalid));
}

#[test]
fn a_block_follows_its_discarded_parent() {
    let mut state = start();
    let key = generate_random_private_key();
    let g0 = state.genesis_hashes[0];
    let g1 = state.genesis_hashes[1];
    let now = Slot::new(5, 0);
    let (a, ha) = header(&key, Slot::new(1, 0), vec![g0, g1]);
    let (b, hb) = header(&key, Slot::new(2, 0), vec![a, g1]);
    state.register_block_header(a, ha.clone(), now).unwrap();
    state.register_block_header(b, hb, now).unwrap();
    state.mark_invalid_block(a, ha, now).unwrap();
    assert_eq!(reason_of(&state, &a), Some(DiscardReason::Invalid));
    assert_eq!(reason_of(&state, &b), Some(DiscardReason::Stale));
    assert_eq!(state.new_stale_blocks, vec![a, b]);
    // a child of the invalid block is invalid
    let (c, hc) = header(&key, Slot::new(1, 1), vec![a, g1]);
    state.register_block_header(c, hc, now).unwrap();
    assert_eq!(reason_of(&state, &c), Some(DiscardReason::Invalid));
    // a child of the stale block is stale
    let (d, hd) = header(&key, Slot::new(3, 0), vec![b, g1]);
    state.register_block_header(d, hd, now).unwrap();
    assert_eq!(reason_of(&state, &d), Some(DiscardReason::Stale));
    // an invalid parent decides before a stale one
    let (e, he) = header(&key, Slot::new(3, 1), vec![b, c]);
    state.register_block_header(e, he, now).unwrap();
    assert_eq!(reason_of(&state, &e), Some(DiscardReason::Invalid));
    // the graph is as it was at the start
    assert_eq!(sorted(state.active_index()), sorted(vec![g0, g1]));
    assert_eq!(state.max_cliques.len(), 1);
    assert_eq!(state.max_cliques[0].fitness, 0);
    assert_eq!(state.get_best_parents(), vec![(g0, 0), (g1, 0)]);
    assert!(state.gi_head.entries.is_empty());
}

#[test]
fn parents_that_do_not_fit_make_a_block_invalid() {
    let mut state = start();
    let key = generate_random_private_key();
    let g0 = state.genesis_hashes[0];
    let g1 = state.genesis_hashes[1];
    let now = Slot::new(5, 0);
    let (a, ha) = header(&key, Slot::new(2, 0), vec![g0, g1]);
    state.register_block_header(a, ha, now).unwrap();
    assert_eq!(kind(&state, &a), Some(StatusKind::Active));
    // the parents are in the wrong threads
    let (swapped, hs) = header(&key, Slot::new(1, 0), vec![g1, g0]);
    state.register_block_header(swapped, hs, now).unwrap();
    assert_eq!(reason_of(&state, &swapped), Some(DiscardReason::Invalid));
    // the parent in the block's own thread is not before the block
    let (level, hl) = header(&key, Slot::new(2, 0), vec![a, g1]);
    state.register_block_header(level, hl, now).unwrap();
    assert_eq!(reason_of(&state, &level), Some(DiscardReason::Invalid));
    // a parent in another thread is after the block
    let (early, he) = header(&key, Slot::new(1, 1), vec![a, g1]);
    state.register_block_header(early, he, now).unwrap();
    assert_eq!(reason_of(&state, &early), Some(DiscardReason::Invalid));
    // a parent in another thread at the period of the block fits
    let (beside, hb) = header(&key, Slot::new(2, 1), vec![a, g1]);
    state.register_block_header(beside, hb, now).unwrap();
    assert_eq!(kind(&state, &beside), Some(StatusKind::Active));
    // too few parents
    let (short, hh) = header(&key, Slot::new(3, 0), vec![a]);
    state.register_block_header(short, hh, now).unwrap();
    assert_eq!(reason_of(&state, &short), Some(DiscardReason::Invalid));
    // a thread that does not exist
    let (off, ho) = header(&key, Slot::new(3, 2), vec![a, beside]);
    state.register_block_header(off, ho, now).unwrap();
    assert_eq!(reason_of(&state, &off), Some(DiscardReason::Invalid));
}

#[test]
fn marking_an_unknown_or_waiting_block_invalid() {
    let mut state = start();
    let key = generate_random_private_key();
    let g0 = state.genesis_hashes[0];
    let g1 = state.genesis_hashes[1];
    let now = Slot::new(1, 0);
    // not known
    let (u, hu) = header(&key, Slot::new(1, 0), vec![g0, g1]);
    state.mark_invalid_block(u, hu.clone(), now).unwrap();
    assert_eq!(reason_of(&state, &u), Some(DiscardReason::Invalid));
    match state.get_block_status(&u) {
        Some(BlockStatus::Discarded { slot, parents, .. }) => {
            assert_eq!(*slot, Slot::new(1, 0));
            assert_eq!(parents, &vec![g0, g1]);
        }
        other => panic!("unexpected status {:?}", other),
    }
    // it does not come back
    state.register_block_header(u, hu, now).unwrap();
    assert_eq!(reason_of(&state, &u), Some(DiscardReason::Invalid));
    // waiting for its slot
    let (w, hw) = header(&key, Slot::new(2, 0), vec![g0, g1]);
    state.register_block_header(w, hw.clone(), now).unwrap();
    assert_eq!(kind(&state, &w), Some(StatusKind::WaitingForSlot));
    // waiting for w
    let (v, hv) = header(&key, Slot::new(1, 1), vec![w, g1]);
    state.register_block_header(v, hv, Slot::new(1, 1)).unwrap();
    assert_eq!(kind(&state, &v), Some(StatusKind::WaitingForDependencies));
    state.mark_invalid_block(w, hw, Slot::new(1, 1)).unwrap();
    assert_eq!(reason_of(&state, &w), Some(DiscardReason::Invalid));
    // what waited for it is let go, and follows it
    assert_eq!(reason_of(&state, &v), Some(DiscardReason::Invalid));
    assert_eq!(state.waiting_for_slot_index(), vec![]);
    assert_eq!(state.waiting_for_dependencies_index(), vec![]);
}

#[test]
fn discarded_blocks_are_forgotten_oldest_first() {
    let mut state = configured(|cfg| cfg.max_discarded_blocks = 2);
    let g0 = state.genesis_hashes[0];
    let g1 = state.genesis_hashes[1];
    let now = Slot::new(1, 0);
    let mut ids = Vec::new();
    for thread in 0..2u8 {
        for _ in 0..2 {
            // period zero is that of the genesis blocks
            let (x, hx) = header(&generate_random_private_key(), Slot::new(0, thread), vec![g0, g1]);
            state.register_block_header(x, hx, now).unwrap();
            ids.push(x);
        }
    }
    assert_eq!(state.discarded_count(), 2);
    assert_eq!(state.discarded_index(), vec![ids[2], ids[3]]);
    assert_eq!(kind(&state, &ids[0]), None);
    assert_eq!(kind(&state, &ids[1]), None);
    // the genesis blocks are not touched
    assert_eq!(sorted(state.active_index()), sorted(vec![g0, g1]));
}

#[test]
fn blocks_that_do_not_see_each_other_are_incompatible() {
    let mut state = start();
    let key = generate_random_private_key();
    let g0 = state.genesis_hashes[0];
    let g1 = state.genesis_hashes[1];
    let now = Slot::new(5, 0);
    let (a1, h) = header(&key, Slot::new(1, 0), vec![g0, g1]);
    state.register_block_header(a1, h, now).unwrap();
    let (b1, h) = header(&key, Slot::new(1, 1), vec![g0, g1]);
    state.register_block_header(b1, h, now).unwrap();
    // a1 and b1 are in different threads, each on the genesis blocks
    assert!(state.gi_head.get(&a1).unwrap().is_empty());
    assert!(state.gi_head.get(&b1).unwrap().is_empty());
    // a2 goes on from a1 without having seen b1
    let (a2, h) = header(&key, Slot::new(2, 0), vec![a1, g1]);
    state.register_block_header(a2, h, now).unwrap();
    assert!(state.gi_head.get(&a2).unwrap().is_empty());
    // b2 goes on from b1 without having seen a1, of which a2 is a child
    let (b2, h) = header(&key, Slot::new(2, 1), vec![g0, b1]);
    let incomp = state.compute_incompatibles(&b2, Slot::new(2, 1), &vec![(g0, 0), (b1, 1)]);
    assert_eq!(incomp, vec![a2]);
    state.register_block_header(b2, h, now).unwrap();
    assert_eq!(state.gi_head.get(&b2), Some(&vec![a2]));
    assert_eq!(state.gi_head.get(&a2), Some(&vec![b2]));
    assert_eq!(
        sorted_sets(state.max_cliques.iter().map(|c| c.block_ids.clone()).collect()),
        sorted_sets(vec![vec![g0, g1, a1, b1, a2], vec![g0, g1, a1, b1, b2]])
    );
    // a block on a2 is incompatible with what a2 is incompatible with
    let (a3, h) = header(&key, Slot::new(3, 0), vec![a2, b1]);
    assert_eq!(
        state.compute_incompatibles(&a3, Slot::new(3, 0), &vec![(a2, 2), (b1, 1)]),
        vec![b2]
    );
    state.register_block_header(a3, h, now).unwrap();
    assert_eq!(state.gi_head.get(&a3), Some(&vec![b2]));
    assert_eq!(sorted(state.gi_head.get(&b2).unwrap().clone()), sorted(vec![a2, a3]));
    // another child of a1 in thread 0 is incompatible with a2 and what descends from it
    let (a2b, _) = header(&generate_random_private_key(), Slot::new(2, 0), vec![a1, b1]);
    assert_eq!(
        sorted(state.compute_incompatibles(&a2b, Slot::new(2, 0), &vec![(a1, 1), (b1, 1)])),
        sorted(vec![a2, a3])
    );
}

#[test]
fn blocks_that_wait_are_let_go_one_dependency_at_a_time() {
    let mut state = start();
    let key = generate_random_private_key();
    let g0 = state.genesis_hashes[0];
    let g1 = state.genesis_hashes[1];
    let now = Slot::new(5, 0);
    let (a, ha) = header(&key, Slot::new(1, 0), vec![g0, g1]);
    let (b, hb) = header(&key, Slot::new(1, 1), vec![g0, g1]);
    let (c, hc) = header(&key, Slot::new(2, 0), vec![a, b]);
    let (d, hd) = header(&key, Slot::new(2, 1), vec![a, b]);
    // c waits for both of its parents, d too
    state.register_block_header(c, hc, now).unwrap();
    state.register_block_header(d, hd, now).unwrap();
    match state.get_block_status(&c) {
        Some(BlockStatus::WaitingForDependencies { unsatisfied_dependencies, .. }) => {
            assert_eq!(unsatisfied_dependencies, &vec![a, b])
        }
        other => panic!("unexpected status {:?}", other),
    }
    assert_eq!(state.waiting_for_dependencies().0, 2);
    assert_eq!(state.wishlist, vec![a, b]);
    // letting go of the blocks that wait for a block that none waits for changes nothing
    let before = format!("{:?}", state.block_statuses);
    assert_eq!(state.release_dependents(&g0), vec![]);
    assert_eq!(format!("{:?}", state.block_statuses), before);
    // one parent comes: they wait for the other
    state.register_block_header(a, ha, now).unwrap();
    for x in [c, d] {
        match state.get_block_status(&x) {
            Some(BlockStatus::WaitingForDependencies { unsatisfied_dependencies, .. }) => {
                assert_eq!(unsatisfied_dependencies, &vec![b])
            }
            other => panic!("unexpected status {:?}", other),
        }
    }
    // the other comes: both enter
    state.register_block_header(b, hb, now).unwrap();
    assert_eq!(kind(&state, &c), Some(StatusKind::Active));
    assert_eq!(kind(&state, &d), Some(StatusKind::Active));
    assert_eq!(state.waiting_for_dependencies(), (0, None));
    assert_eq!(state.get_best_parents(), vec![(c, 2), (d, 2)]);
}

#[test]
fn the_blocks_that_wait_longest_are_dropped_first() {
    let mut state = configured(|cfg| cfg.max_dependency_blocks = 2);
    let g0 = state.genesis_hashes[0];
    let now = Slot::new(5, 0);
    let mut waiting = Vec::new();
    for n in 0..4u8 {
        let (x, hx) = header(&generate_random_private_key(), Slot::new(1, 1), vec![g0, id(100 + n)]);
        state.register_block_header(x, hx, now).unwrap();
        waiting.push(x);
    }
    assert_eq!(state.waiting_for_dependencies().0, 2);
    assert_eq!(state.waiting_for_dependencies_index(), vec![waiting[2], waiting[3]]);
    assert_eq!(reason_of(&state, &waiting[0]), Some(DiscardReason::Stale));
    assert_eq!(reason_of(&state, &waiting[1]), Some(DiscardReason::Stale));
    assert_eq!(state.attack_attempts, 2);
    // within the limit nothing is dropped
    assert_eq!(state.bound_waiting(), vec![]);
    assert_eq!(state.attack_attempts, 2);
}

#[test]
fn a_state_that_cannot_be_reached_is_told() {
    let blank = ConsensusState::new(
        ConsensusConfig::default_with(generate_random_private_key(), MassaTime::from_millis(0)),
        MassaTime::from_millis(0),
    )
    .unwrap();
    // no latest final block is known yet
    assert!(!blank.is_well_formed());

    let mut state = start();
    assert!(state.is_well_formed());
    let key = generate_random_private_key();
    let g0 = state.genesis_hashes[0];
    let g1 = state.genesis_hashes[1];
    let now = Slot::new(5, 0);
    let (a, ha) = header(&key, Slot::new(1, 0), vec![g0, g1]);
    let (b, hb) = header(&generate_random_private_key(), Slot::new(1, 0), vec![g0, g1]);
    let (c, hc) = header(&key, Slot::new(2, 0), vec![id(9), g1]);
    state.register_block_header(a, ha, now).unwrap();
    state.register_block_header(b, hb, now).unwrap();
    state.register_block_header(c, hc, now).unwrap();
    assert!(state.is_well_formed());

    // two blockcliques
    let mut two = start();
    two.max_cliques.push(Clique { block_ids: vec![], fitness: 0, is_blockclique: true });
    assert!(!two.is_well_formed());
    // no blockclique
    let mut none = start();
    none.max_cliques[0].is_blockclique = false;
    assert!(!none.is_well_formed());
    // a block with two statuses
    let mut twice = start();
    let again = twice.block_statuses.entries[0].clone();
    twice.block_statuses.entries.push(again);
    assert!(!twice.is_well_formed());
    // a clique that holds a block that is not active
    let mut unknown = start();
    unknown.max_cliques[0].block_ids.push(id(1));
    assert!(!unknown.is_well_formed());
    // a clique that holds two blocks that are recorded as incompatible
    let mut clash = start();
    let h0 = clash.genesis_hashes[0];
    let h1 = clash.genesis_hashes[1];
    clash.gi_head.insert(h0, vec![h1]);
    assert!(!clash.is_well_formed());
    // a latest final block is missing
    let mut short = start();
    short.latest_final_blocks_periods.pop();
    assert!(!short.is_well_formed());
    // no thread
    let mut idle = start();
    idle.config.thread_count = 0;
    assert!(!idle.is_well_formed());
    // a final block on a block that is not final
    let mut open = start();
    let (x, hx) = header(&key, Slot::new(1, 0), vec![open.genesis_hashes[0], open.genesis_hashes[1]]);
    let (y, hy) = header(&key, Slot::new(2, 0), vec![x, open.genesis_hashes[1]]);
    open.register_block_header(x, hx, now).unwrap();
    open.register_block_header(y, hy, now).unwrap();
    assert!(open.is_well_formed());
    for (k, status) in open.block_statuses.entries.iter_mut() {
        if *k == y {
            if let BlockStatus::Active { a_block, .. } = status {
                a_block.is_final = true;
            }
        }
    }
    assert!(!open.is_well_formed());
}

#[test]
fn final_blocks_that_are_no_longer_kept_are_discarded_as_final() {
    // every block that enters is final at once, and final blocks are kept for one period
    let mut state = configured(|cfg| {
        cfg.delta_f0 = 0;
        cfg.force_keep_final_periods = 1;
    });
    let key = generate_random_private_key();
    let g0 = state.genesis_hashes[0];
    let g1 = state.genesis_hashes[1];
    let now = Slot::new(9, 0);
    let (a1, h) = header(&key, Slot::new(1, 0), vec![g0, g1]);
    state.register_block_header(a1, h, now).unwrap();
    assert_eq!(state.get_latest_final_blocks(), vec![(a1, 1), (g1, 0)]);
    // the genesis block of thread 0 is one period behind: it is kept
    assert_eq!(kind(&state, &g0), Some(StatusKind::Active));
    let (a2, h) = header(&key, Slot::new(2, 0), vec![a1, g1]);
    state.register_block_header(a2, h, now).unwrap();
    assert_eq!(reason_of(&state, &g0), Some(DiscardReason::Final));
    assert_eq!(kind(&state, &a1), Some(StatusKind::Active));
    let (a3, h) = header(&key, Slot::new(3, 0), vec![a2, g1]);
    state.register_block_header(a3, h, now).unwrap();
    assert_eq!(reason_of(&state, &a1), Some(DiscardReason::Final));
    assert_eq!(kind(&state, &a2), Some(StatusKind::Active));
    assert_eq!(kind(&state, &a3), Some(StatusKind::Active));
    // the latest final block of a thread is kept, however old
    assert_eq!(kind(&state, &g1), Some(StatusKind::Active));
    assert_eq!(state.get_latest_final_blocks(), vec![(a3, 3), (g1, 0)]);
    // the blocks keep their order, and the cliques hold blocks of the graph only
    let keys: Vec<BlockId> = state.block_statuses.entries.iter().map(|(k, _)| *k).collect();
    assert_eq!(keys, vec![g0, g1, a1, a2, a3]);
    for clique in &state.max_cliques {
        assert!(!clique.block_ids.contains(&g0));
        assert!(!clique.block_ids.contains(&a1));
    }
    assert!(state.is_well_formed());
    // nothing more is to be discarded
    let before = format!("{:?}", state.block_statuses);
    state.prune_old_finals();
    assert_eq!(format!("{:?}", state.block_statuses), before);
    // a block that was discarded as final does not come back
    let (_, h) = header(&key, Slot::new(1, 0), vec![g0, g1]);
    state.register_block_header(a1, h, now).unwrap();
    assert_eq!(reason_of(&state, &a1), Some(DiscardReason::Final));
}
