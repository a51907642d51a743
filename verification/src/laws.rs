//! What holds of every state of the graph that can be reached, and of every step
//! from one such state to the next.
//!
//! A state can be reached when it is well formed (`ConsensusState::wf`): the worker
//! starts in such a state, and every operation on the graph keeps it. A step is
//! any operation on the graph; every one of them ends in a state that follows
//! (`ConsensusState::follows`) the state it started from.

use vstd::prelude::*;
use crate::block_id::BlockId;
use crate::state::{
    active_block,
    incompatible,
    is_active,
    is_discarded,
    is_final,
    is_pruned,
    ConsensusState,
};

verus! {

/// In every state that can be reached, exactly one clique is the blockclique: one
/// clique is flagged, and any clique that is flagged is that one.
pub proof fn law_one_blockclique(state: ConsensusState)
    requires
        state.wf(),
    ensures
        exists|k: int|
            0 <= k < state.max_cliques@.len() && #[trigger] state.max_cliques@[k].is_blockclique,
        forall|i: int, j: int|
            0 <= i < state.max_cliques@.len() && 0 <= j < state.max_cliques@.len()
                && #[trigger] state.max_cliques@[i].is_blockclique
                && #[trigger] state.max_cliques@[j].is_blockclique ==> i == j,
{
    let k = choose|k: int|
        0 <= k < state.max_cliques@.len() && state.max_cliques@[k].is_blockclique && forall|j: int|
            0 <= j < state.max_cliques@.len() && j != k ==> !(#[trigger] state.max_cliques@[j]).is_blockclique;
    assert(state.max_cliques@[k].is_blockclique);
    assert forall|i: int, j: int|
        0 <= i < state.max_cliques@.len() && 0 <= j < state.max_cliques@.len()
            && #[trigger] state.max_cliques@[i].is_blockclique
            && #[trigger] state.max_cliques@[j].is_blockclique implies i == j by {
        if i != k {
            assert(!state.max_cliques@[i].is_blockclique);
        }
        if j != k {
            assert(!state.max_cliques@[j].is_blockclique);
        }
    }
}

/// In every state that can be reached, any two blocks of one clique are active and
/// are not incompatible.
pub proof fn law_cliques_are_compatible(state: ConsensusState, k: int, a: BlockId, b: BlockId)
    requires
        state.wf(),
        0 <= k < state.max_cliques@.len(),
        state.max_cliques@[k].block_ids@.contains(a),
        state.max_cliques@[k].block_ids@.contains(b),
    ensures
        is_active(state.block_statuses, a),
        is_active(state.block_statuses, b),
        !incompatible(state.gi_head, a, b),
        !incompatible(state.gi_head, b, a),
{
}

/// In every state that can be reached, a block has at most one status: no two
/// entries of the statuses are for the same block.
pub proof fn law_one_status(state: ConsensusState, i: int, j: int)
    requires
        state.wf(),
        0 <= i < state.block_statuses.entries@.len(),
        0 <= j < state.block_statuses.entries@.len(),
        state.block_statuses.entries@[i].0 == state.block_statuses.entries@[j].0,
    ensures
        i == j,
{
    if i < j {
        assert(state.block_statuses.entries@[i].0 != state.block_statuses.entries@[j].0);
    } else if j < i {
        assert(state.block_statuses.entries@[j].0 != state.block_statuses.entries@[i].0);
    }
}

/// Over a step, a block that was discarded has the status it had and a block that
/// was final is still final, or discarded for having been final, as long as the
/// block is known: it never enters the graph again.
pub proof fn law_settled_blocks_stay(before: ConsensusState, after: ConsensusState, id: BlockId)
    requires
        after.follows(&before),
        after.block_statuses.has(id),
    ensures
        is_discarded(before.block_statuses, id) ==> after.block_statuses.value(id)
            == before.block_statuses.value(id),
        is_final(before.block_statuses, id) ==> is_final(after.block_statuses, id) || is_pruned(
            after.block_statuses,
            id,
        ),
        is_discarded(before.block_statuses, id) || is_final(before.block_statuses, id) ==> !(
        after.block_statuses.value(id) is Incoming) && !(after.block_statuses.value(
            id,
        ) is WaitingForSlot) && !(after.block_statuses.value(id) is WaitingForDependencies),
{
}

/// Over a step, a block that was active is still active, or was discarded, as long
/// as the block is known: a block of the graph never waits again.
pub proof fn law_blocks_leave_the_graph_discarded(
    before: ConsensusState,
    after: ConsensusState,
    id: BlockId,
)
    requires
        after.follows(&before),
        after.block_statuses.has(id),
        is_active(before.block_statuses, id),
    ensures
        is_active(after.block_statuses, id) || is_discarded(after.block_statuses, id),
{
}

/// Whether `path` goes from a block up through its ancestors: each block of it but
/// the first is a known parent of the block before it, which is active.
pub open spec fn is_ancestry(state: ConsensusState, path: Seq<BlockId>) -> bool {
    forall|i: int|
        0 <= i < path.len() - 1 ==> is_active(state.block_statuses, #[trigger] path[i])
            && active_block(state.block_statuses, path[i]).has_parent(path[i + 1])
            && state.block_statuses.has(path[i + 1])
}

/// In every state that can be reached, every ancestor of a final block, in its own
/// thread and in the others, is final too, or was final and is no longer kept:
/// along any way up from a final block through known parents, every block is final
/// or discarded for having been final.
pub proof fn law_ancestors_of_final_are_final(state: ConsensusState, path: Seq<BlockId>, n: int)
    requires
        state.wf(),
        path.len() > 0,
        is_final(state.block_statuses, path[0]),
        is_ancestry(state, path),
        0 <= n < path.len(),
    ensures
        is_final(state.block_statuses, path[n]) || is_pruned(state.block_statuses, path[n]),
    decreases n,
{
    if n > 0 {
        law_ancestors_of_final_are_final(state, path, n - 1);
        let x = path[n - 1];
        assert(is_active(state.block_statuses, x));
        assert(is_final(state.block_statuses, x));
        let k = choose|k: int|
            0 <= k < active_block(state.block_statuses, x).parents@.len() && active_block(
                state.block_statuses,
                x,
            ).parents@[k].0 == path[n];
        assert(state.block_statuses.has(active_block(state.block_statuses, x).parents@[k].0));
    }
}

/// Over a step, the period of the latest final block of a thread does not go back.
pub proof fn law_finality_does_not_go_back(before: ConsensusState, after: ConsensusState, t: int)
    requires
        after.follows(&before),
        0 <= t < before.latest_final_blocks_periods@.len(),
    ensures
        before.latest_final_blocks_periods@[t].1 <= after.latest_final_blocks_periods@[t].1,
{
}

/// Over any number of steps, the period of the latest final block of a thread does
/// not go back: of three states of which each follows the one before, the last is
/// not behind the first.
pub proof fn law_finality_grows_over_time(
    first: ConsensusState,
    second: ConsensusState,
    third: ConsensusState,
)
    requires
        second.finality_not_behind(&first),
        third.finality_not_behind(&second),
    ensures
        third.finality_not_behind(&first),
{
    assert forall|t: int|
        0 <= t < first.latest_final_blocks_periods@.len() implies first.latest_final_blocks_periods@[t].1
        <= #[trigger] third.latest_final_blocks_periods@[t].1 by {
        assert(first.latest_final_blocks_periods@[t].1 <= second.latest_final_blocks_periods@[t].1);
        assert(second.latest_final_blocks_periods@[t].1 <= third.latest_final_blocks_periods@[t].1);
    }
}

} // verus!
