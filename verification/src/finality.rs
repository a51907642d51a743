//! Finality: which blocks of the blockclique become final, and what follows from
//! it for the blocks that are incompatible with them and for old final blocks.

use vstd::prelude::*;
use crate::block_id::BlockId;
use crate::cliques::{
    absorb,
    all_distinct,
    assemble_cliques,
    clique_fitness,
    cliques_of,
    compute_fitness,
    is_antichain,
    is_covered,
};
use crate::engine::same_but_one;
use crate::graph::{one_blockclique, ActiveBlock, BlockStatus, Clique, DiscardReason};
use crate::id_map::IdMap;
use crate::id_set::{
    id_list_clone,
    id_list_contains,
    id_list_insert,
    id_list_remove,
    id_set,
    ids_distinct,
};
use crate::state::{
    active_block,
    incompatible,
    is_active,
    is_discarded,
    is_final,
    is_pruned,
    ConsensusState,
    GraphError,
};

verus! {

impl ConsensusState {
    /// Whether `self` follows `before` and knows no block that `before` did not
    /// know.
    pub open spec fn follows_closely(&self, before: &ConsensusState) -> bool {
        &&& self.follows(before)
        &&& self.config == before.config
        &&& forall|id: BlockId| #[trigger] self.block_statuses.has(id) ==> before.block_statuses.has(id)
    }
}

impl ConsensusState {
    /// Whether every block that was on its way into the graph in `before`, neither
    /// active nor discarded, has in `self` the status that it had.
    pub open spec fn leaves_waiting(&self, before: &ConsensusState) -> bool {
        forall|id: BlockId| #[trigger]
            before.block_statuses.has(id) && !is_active(before.block_statuses, id)
                && !is_discarded(before.block_statuses, id) ==> self.block_statuses.has(id)
                && self.block_statuses.value(id) == before.block_statuses.value(id)
    }

    /// Whether `self` follows `before` closely and differs from it in the blocks that
    /// were active or discarded only.
    pub open spec fn settles_only(&self, before: &ConsensusState) -> bool {
        self.follows_closely(before) && self.leaves_waiting(before)
    }
}

/// After a step that settles only, a block that is neither active nor discarded has
/// the status that it had.
pub proof fn lemma_waiting_was_waiting(before: ConsensusState, after: ConsensusState, id: BlockId)
    requires
        after.settles_only(&before),
        after.block_statuses.has(id),
        !is_active(after.block_statuses, id),
        !is_discarded(after.block_statuses, id),
    ensures
        before.block_statuses.has(id),
        before.block_statuses.value(id) == after.block_statuses.value(id),
{
    assert(before.block_statuses.has(id));
    if is_discarded(before.block_statuses, id) {
        assert(after.block_statuses.value(id) == before.block_statuses.value(id));
    }
}

/// What settles only after a state that settles only after another settles only
/// after that other.
pub proof fn lemma_settles_only_chain(a: ConsensusState, b: ConsensusState, c: ConsensusState)
    requires
        b.settles_only(&a),
        c.settles_only(&b),
    ensures
        c.settles_only(&a),
{
    lemma_follows_closely_chain(a, b, c);
    assert forall|id: BlockId| #[trigger]
        a.block_statuses.has(id) && !is_active(a.block_statuses, id) && !is_discarded(
            a.block_statuses,
            id,
        ) implies c.block_statuses.has(id) && c.block_statuses.value(id) == a.block_statuses.value(
        id,
    ) by {
        assert(b.block_statuses.has(id));
    }
}

/// Following closely goes through: what follows closely a state that follows
/// closely another follows that other closely.
pub proof fn lemma_follows_closely_chain(a: ConsensusState, b: ConsensusState, c: ConsensusState)
    requires
        b.follows_closely(&a),
        c.follows_closely(&b),
    ensures
        c.follows_closely(&a),
{
    assert forall|t: int|
        0 <= t < a.latest_final_blocks_periods@.len() implies a.latest_final_blocks_periods@[t].1
        <= #[trigger] c.latest_final_blocks_periods@[t].1 by {
        assert(a.latest_final_blocks_periods@[t].1 <= b.latest_final_blocks_periods@[t].1);
        assert(b.latest_final_blocks_periods@[t].1 <= c.latest_final_blocks_periods@[t].1);
    }
    assert forall|id: BlockId| #[trigger] c.block_statuses.has(id) implies {
        &&& is_discarded(a.block_statuses, id) ==> c.block_statuses.value(id) == a.block_statuses.value(id)
        &&& is_final(a.block_statuses, id) ==> is_final(c.block_statuses, id) || is_pruned(
            c.block_statuses,
            id,
        )
    } by {
        assert(b.block_statuses.has(id));
    }
    assert forall|id: BlockId| #[trigger]
        c.block_statuses.has(id) && is_active(a.block_statuses, id) implies is_active(
        c.block_statuses,
        id,
    ) || is_discarded(c.block_statuses, id) by {
        assert(b.block_statuses.has(id));
        if is_discarded(b.block_statuses, id) {
            assert(c.block_statuses.value(id) == b.block_statuses.value(id));
        }
    }
}

/// Whether a list of lists holds `id` nowhere.
pub open spec fn nowhere_in(lists: IdMap<Vec<BlockId>>, id: BlockId) -> bool {
    &&& !lists.has(id)
    &&& forall|a: BlockId| #[trigger] lists.has(a) ==> !lists.value(a)@.contains(id)
}

/// Whether two records of incompatibilities say the same: they speak of the same
/// blocks, and hold each incompatible with the same blocks.
pub open spec fn same_record(a: IdMap<Vec<BlockId>>, b: IdMap<Vec<BlockId>>) -> bool {
    &&& forall|x: BlockId| #[trigger] a.has(x) == b.has(x)
    &&& forall|x: BlockId, y: BlockId|
        #![trigger a.value(x)@.contains(y)]
        a.has(x) ==> (a.value(x)@.contains(y) <==> b.value(x)@.contains(y))
}

/// Whether `after` is `before` without `id`: without its entry, and without it in
/// the other entries.
pub open spec fn gi_without(before: IdMap<Vec<BlockId>>, after: IdMap<Vec<BlockId>>, id: BlockId) -> bool {
    &&& after.wf()
    &&& nowhere_in(after, id)
    &&& forall|a: BlockId| a != id ==> (#[trigger] after.has(a) == before.has(a))
    &&& forall|a: BlockId|
        #![trigger after.value(a)]
        after.has(a) ==> ids_distinct(after.value(a)@) && forall|b: BlockId|
            #![trigger after.value(a)@.contains(b)]
            after.value(a)@.contains(b) <==> before.value(a)@.contains(b) && b != id
}

/// Takes `id` out of the record of incompatibilities: its entry, and itself in the
/// other entries. Returns the blocks that it was incompatible with.
pub fn remove_from_gi(gi: &mut IdMap<Vec<BlockId>>, id: &BlockId) -> (r: Vec<BlockId>)
    requires
        old(gi).wf(),
        forall|a: BlockId| #[trigger] old(gi).has(a) ==> ids_distinct(old(gi).value(a)@),
    ensures
        gi_without(*old(gi), *final(gi), *id),
        old(gi).has(*id) ==> r@ == old(gi).value(*id)@,
        !old(gi).has(*id) ==> r@.len() == 0,
{
    let out = match gi.remove(id) {
        Some(list) => list,
        None => Vec::new(),
    };
    let ghost g1 = *gi;
    let n = gi.entries.len();
    let mut i: usize = 0;
    proof {
        assert forall|k: int| 0 <= k < n implies ids_distinct((#[trigger] g1.entries@[k]).1@) by {
            g1.lemma_entry(k);
            let a = g1.entries@[k].0;
            assert(old(gi).has(a));
            assert(g1.value(a) == old(gi).value(a));
        }
    }
    while i < n
        invariant
            i <= n,
            n == g1.entries@.len(),
            gi.entries@.len() == n,
            g1.wf(),
            forall|k: int| 0 <= k < n ==> (#[trigger] gi.entries@[k]).0 == g1.entries@[k].0,
            forall|k: int| i <= k < n ==> gi.entries@[k] == g1.entries@[k],
            forall|k: int| 0 <= k < n ==> ids_distinct((#[trigger] g1.entries@[k]).1@),
            forall|k: int|
                0 <= k < i ==> ids_distinct((#[trigger] gi.entries@[k]).1@) && forall|b: BlockId|
                    #![trigger gi.entries@[k].1@.contains(b)]
                    gi.entries@[k].1@.contains(b) <==> g1.entries@[k].1@.contains(b) && b != *id,
        decreases n - i,
    {
        let ghost before = gi.entries@[i as int].1@;
        id_list_remove(&mut gi.entries[i].1, id);
        proof {
            let after = gi.entries@[i as int].1@;
            assert forall|b: BlockId|
                #![trigger after.contains(b)]
                after.contains(b) <==> before.contains(b) && b != *id by {
                assert(id_set(after).contains(b) == after.contains(b));
                assert(id_set(before).contains(b) == before.contains(b));
            }
        }
        i += 1;
    }
    proof {
        assert forall|a: int, b: int| 0 <= a < b < gi.entries@.len() implies gi.entries@[a].0
            != gi.entries@[b].0 by {
            assert(g1.entries@[a].0 != g1.entries@[b].0);
        }
        assert forall|a: BlockId| #[trigger] gi.has(a) == g1.has(a) by {
            if gi.has(a) {
                let k = gi.index_of(a);
                assert(g1.entries@[k].0 == a);
            }
            if g1.has(a) {
                let k = g1.index_of(a);
                assert(gi.entries@[k].0 == a);
            }
        }
        assert forall|a: BlockId|
            #![trigger gi.value(a)]
            gi.has(a) implies ids_distinct(gi.value(a)@) && forall|b: BlockId|
            #![trigger gi.value(a)@.contains(b)]
            gi.value(a)@.contains(b) <==> old(gi).value(a)@.contains(b) && b != *id by {
            let k = gi.index_of(a);
            assert(g1.entries@[k].0 == a);
            g1.lemma_entry(k);
            assert(g1.value(a) == old(gi).value(a));
        }
        assert forall|a: BlockId| #[trigger] gi.has(a) implies !gi.value(a)@.contains(*id) by {}
        assert forall|k: int| 0 <= k < g1.entries@.len() implies ids_distinct(
            (#[trigger] g1.entries@[k]).1@,
        ) by {}
    }
    out
}

/// Whether every known parent of the block `id` is final, or was final and is no
/// longer kept.
pub open spec fn parents_are_final(statuses: IdMap<BlockStatus>, id: BlockId) -> bool {
    forall|k: int|
        0 <= k < active_block(statuses, id).parents@.len() && statuses.has(
            #[trigger] active_block(statuses, id).parents@[k].0,
        ) ==> is_final(statuses, active_block(statuses, id).parents@[k].0) || is_pruned(
            statuses,
            active_block(statuses, id).parents@[k].0,
        )
}

/// The latest final blocks once the block `id` at `slot` is final: it takes the
/// place of the latest final block of its thread where its period is higher.
pub open spec fn latest_with(
    latest: Seq<(BlockId, u64)>,
    id: BlockId,
    slot: crate::slot::Slot,
) -> Seq<(BlockId, u64)> {
    if slot.thread < latest.len() && slot.period > latest[slot.thread as int].1 {
        latest.update(slot.thread as int, (id, slot.period))
    } else {
        latest
    }
}

/// Whether `after` is `before` but for the finality of the active block `id`, which
/// is final in `after`.
pub open spec fn made_final(before: IdMap<BlockStatus>, after: IdMap<BlockStatus>, id: BlockId) -> bool {
    &&& after.wf()
    &&& same_but_one(before, after, id)
    &&& after.has(id)
    &&& match (before.value(id), after.value(id)) {
        (
            BlockStatus::Active { a_block: x, storage: s },
            BlockStatus::Active { a_block: y, storage: t },
        ) => s == t && y == (ActiveBlock { is_final: true, ..x }),
        _ => false,
    }
}

/// A state in which a block of which every known parent is final was made final,
/// and taken out of the record of incompatibilities, is a state that can be
/// reached.
pub proof fn lemma_marked_final(before: ConsensusState, after: ConsensusState, id: BlockId)
    requires
        before.wf(),
        is_active(before.block_statuses, id),
        parents_are_final(before.block_statuses, id),
        made_final(before.block_statuses, after.block_statuses, id),
        gi_without(before.gi_head, after.gi_head, id),
        after.config == before.config,
        after.max_cliques == before.max_cliques,
        after.finality_not_behind(&before),
    ensures
        after.wf(),
        after.settles_only(&before),
{
    let s0 = before.block_statuses;
    let s1 = after.block_statuses;
    assert forall|x: BlockId| x != id implies (is_active(s0, x) == #[trigger] is_active(s1, x))
        && (is_final(s0, x) == is_final(s1, x)) && (is_discarded(s0, x) == is_discarded(s1, x))
        && (is_pruned(s0, x) == is_pruned(s1, x)) by {
        assert(s1.has(x) == s0.has(x));
    }
    assert forall|x: BlockId| #[trigger] s1.has(x) implies s0.has(x) by {
        if x != id {
            assert(s1.has(x) == s0.has(x));
        }
    }
    assert forall|i: int| 0 <= i < s1.entries@.len() implies ((#[trigger] s1.entries@[i]).1 matches BlockStatus::Active {
        a_block,
        ..
    } ==> a_block.links_wf(after.config.thread_count)) by {
        let x = s1.entries@[i].0;
        s1.lemma_entry(i);
        assert(s0.has(x));
        let j = s0.index_of(x);
        assert(s0.entries@[j].1 is Active ==> s0.entries@[j].1->a_block.links_wf(
            before.config.thread_count,
        ));
        if x != id {
            assert(s0.entries@[j].1 == s1.entries@[i].1);
        }
    }
    assert forall|k: int, a: BlockId, b: BlockId|
        0 <= k < after.max_cliques@.len() && #[trigger] after.max_cliques@[k].block_ids@.contains(a)
            && #[trigger] after.max_cliques@[k].block_ids@.contains(b) implies !incompatible(
        after.gi_head,
        a,
        b,
    ) by {
        assert(!incompatible(before.gi_head, a, b));
        if after.gi_head.has(a) {
            assert(after.gi_head.value(a)@.contains(b) <==> before.gi_head.value(a)@.contains(b)
                && b != id);
        }
        if after.gi_head.has(b) {
            assert(after.gi_head.value(b)@.contains(a) <==> before.gi_head.value(b)@.contains(a)
                && a != id);
        }
    }
    assert forall|k: int, a: BlockId|
        0 <= k < after.max_cliques@.len() && #[trigger] after.max_cliques@[k].block_ids@.contains(
            a,
        ) implies is_active(s1, a) by {
        assert(is_active(s0, a));
        if a != id {
            assert(s1.has(a) == s0.has(a));
        }
    }
    assert forall|a: BlockId| #[trigger] after.gi_head.has(a) implies is_active(s1, a) && !is_final(
        s1,
        a,
    ) && ids_distinct(after.gi_head.value(a)@) by {
        assert(a != id);
        assert(before.gi_head.has(a));
        assert(is_active(s0, a));
        assert(s1.has(a) == s0.has(a));
    }
    assert forall|a: BlockId, b: BlockId|
        after.gi_head.has(a) && #[trigger] after.gi_head.value(a)@.contains(b) implies is_active(
        s1,
        b,
    ) && !is_final(s1, b) by {
        assert(before.gi_head.has(a));
        assert(before.gi_head.value(a)@.contains(b) && b != id);
        assert(is_active(s0, b));
        assert(s1.has(b) == s0.has(b));
    }
    assert forall|x: BlockId, k: int|
        is_final(s1, x) && 0 <= k < active_block(s1, x).parents@.len() && s1.has(
            #[trigger] active_block(s1, x).parents@[k].0,
        ) implies is_final(s1, active_block(s1, x).parents@[k].0) || is_pruned(
        s1,
        active_block(s1, x).parents@[k].0,
    ) by {
        let p = active_block(s1, x).parents@[k].0;
        assert(s0.has(x));
        assert(active_block(s0, x).parents@[k].0 == p);
        assert(s0.has(p));
        if x == id {
            assert(is_final(s0, p) || is_pruned(s0, p));
        } else {
            assert(s1.has(x) == s0.has(x));
            assert(is_final(s0, x));
            assert(is_final(s0, p) || is_pruned(s0, p));
        }
        if p != id {
            assert(s1.has(p) == s0.has(p));
        }
    }
    assert forall|x: BlockId, k: int|
        is_active(s1, x) && 0 <= k < active_block(s1, x).parents@.len() && s1.has(
            #[trigger] active_block(s1, x).parents@[k].0,
        ) implies is_active(s1, active_block(s1, x).parents@[k].0) || is_discarded(
        s1,
        active_block(s1, x).parents@[k].0,
    ) by {
        let p = active_block(s1, x).parents@[k].0;
        assert(s0.has(x));
        if x != id {
            assert(s1.has(x) == s0.has(x));
        }
        assert(is_active(s0, x));
        assert(active_block(s0, x).parents@[k].0 == p);
        assert(s0.has(p));
        assert(is_active(s0, p) || is_discarded(s0, p));
        if p != id {
            assert(s1.has(p) == s0.has(p));
        }
    }
    assert forall|x: BlockId| #[trigger] s1.has(x) implies {
        &&& is_discarded(s0, x) ==> s1.value(x) == s0.value(x)
        &&& is_final(s0, x) ==> is_final(s1, x) || is_pruned(s1, x)
    } by {
        if x != id {
            assert(s1.has(x) == s0.has(x));
        }
    }
}

impl ConsensusState {
    /// Makes the active block `id`, of which every known parent is final, final: it
    /// becomes the latest final block of its thread where its period is above that
    /// of the latest, it leaves the record of incompatibilities, and it is noted as
    /// newly final. Returns the blocks that it was incompatible with.
    pub fn mark_final(&mut self, id: BlockId) -> (r: Vec<BlockId>)
        requires
            old(self).wf(),
            is_active(old(self).block_statuses, id),
            !is_final(old(self).block_statuses, id),
            parents_are_final(old(self).block_statuses, id),
        ensures
            final(self).wf(),
            final(self).settles_only(old(self)),
            made_final(old(self).block_statuses, final(self).block_statuses, id),
            final(self).block_statuses.keys() == old(self).block_statuses.keys(),
            gi_without(old(self).gi_head, final(self).gi_head, id),
            old(self).gi_head.has(id) ==> r@ == old(self).gi_head.value(id)@,
            !old(self).gi_head.has(id) ==> r@.len() == 0,
            final(self).max_cliques == old(self).max_cliques,
            final(self).new_final_blocks@ == old(self).new_final_blocks@.push(id),
            final(self).latest_final_blocks_periods@ == latest_with(
                old(self).latest_final_blocks_periods@,
                id,
                active_block(old(self).block_statuses, id).slot,
            ),
    {
        let idx = match self.block_statuses.position(&id) {
            Some(i) => i,
            None => 0,
        };
        let mut slot = crate::slot::Slot::new(0, 0);
        match &mut self.block_statuses.entries[idx].1 {
            BlockStatus::Active { a_block, .. } => {
                a_block.is_final = true;
                slot = a_block.slot;
            },
            _ => {},
        }
        let thread = slot.thread as usize;
        if thread < self.latest_final_blocks_periods.len() {
            if slot.period > self.latest_final_blocks_periods[thread].1 {
                self.latest_final_blocks_periods[thread] = (id, slot.period);
            }
        }
        proof {
            assert(self.block_statuses.keys() =~= old(self).block_statuses.keys());
            assert forall|a: BlockId| #[trigger] self.gi_head.has(a) implies ids_distinct(
                self.gi_head.value(a)@,
            ) by {}
        }
        let incomp = remove_from_gi(&mut self.gi_head, &id);
        self.new_final_blocks.push(id);
        proof {
            let s0 = old(self).block_statuses;
            let s1 = self.block_statuses;
            assert forall|i: int, j: int| 0 <= i < j < s1.entries@.len() implies s1.entries@[i].0
                != s1.entries@[j].0 by {
                assert(s0.entries@[i].0 == s1.entries@[i].0);
                assert(s0.entries@[j].0 == s1.entries@[j].0);
            }
            assert forall|k: int| 0 <= k < s0.entries@.len() && s0.entries@[k].0
                != id implies exists|j: int|
                0 <= j < s1.entries@.len() && s1.entries@[j] == #[trigger] s0.entries@[k] by {
                assert(s1.entries@[k] == s0.entries@[k]);
            }
            assert forall|j: int| 0 <= j < s1.entries@.len() && s1.entries@[j].0
                != id implies exists|k: int|
                0 <= k < s0.entries@.len() && s0.entries@[k] == #[trigger] s1.entries@[j] by {
                assert(s1.entries@[j] == s0.entries@[j]);
            }
            s1.lemma_frame(s0, id);
            s1.lemma_entry(idx as int);
            s0.lemma_entry(idx as int);
            assert(self.latest_final_blocks_periods@ =~= latest_with(
                old(self).latest_final_blocks_periods@,
                id,
                active_block(s0, id).slot,
            ));
            lemma_marked_final(*old(self), *self, id);
        }
        incomp
    }
}

/// Whether `after` are the cliques `before` without the block `id`: with the same
/// flags and fitnesses, and the same blocks but for `id`.
pub open spec fn cliques_without(before: Seq<Clique>, after: Seq<Clique>, id: BlockId) -> bool {
    &&& after.len() == before.len()
    &&& forall|k: int|
        0 <= k < before.len() ==> {
            &&& (#[trigger] after[k]).is_blockclique == before[k].is_blockclique
            &&& after[k].fitness == before[k].fitness
            &&& ids_distinct(after[k].block_ids@)
            &&& forall|b: BlockId|
                #![trigger after[k].block_ids@.contains(b)]
                after[k].block_ids@.contains(b) <==> before[k].block_ids@.contains(b) && b != id
        }
}

/// Takes the block `id` out of every clique.
pub fn remove_from_cliques(cliques: &mut Vec<Clique>, id: &BlockId)
    requires
        forall|k: int| 0 <= k < old(cliques)@.len() ==> ids_distinct((#[trigger] old(cliques)@[k]).block_ids@),
    ensures
        cliques_without(old(cliques)@, final(cliques)@, *id),
{
    let n = cliques.len();
    let mut k: usize = 0;
    while k < n
        invariant
            k <= n,
            n == old(cliques)@.len(),
            cliques@.len() == n,
            forall|j: int| k <= j < n ==> cliques@[j] == old(cliques)@[j],
            forall|j: int| 0 <= j < n ==> ids_distinct((#[trigger] old(cliques)@[j]).block_ids@),
            forall|j: int|
                0 <= j < k ==> {
                    &&& (#[trigger] cliques@[j]).is_blockclique == old(cliques)@[j].is_blockclique
                    &&& cliques@[j].fitness == old(cliques)@[j].fitness
                    &&& ids_distinct(cliques@[j].block_ids@)
                    &&& forall|b: BlockId|
                        #![trigger cliques@[j].block_ids@.contains(b)]
                        cliques@[j].block_ids@.contains(b) <==> old(cliques)@[j].block_ids@.contains(
                            b,
                        ) && b != *id
                },
        decreases n - k,
    {
        let ghost before = cliques@[k as int].block_ids@;
        id_list_remove(&mut cliques[k].block_ids, id);
        proof {
            let after = cliques@[k as int].block_ids@;
            assert forall|b: BlockId|
                #![trigger after.contains(b)]
                after.contains(b) <==> before.contains(b) && b != *id by {
                assert(id_set(after).contains(b) == after.contains(b));
                assert(id_set(before).contains(b) == before.contains(b));
            }
        }
        k += 1;
    }
}

/// Whether `after` is `before` but for the block `id`, which was active and is
/// discarded for the reason `reason`.
pub open spec fn made_discarded(
    before: IdMap<BlockStatus>,
    after: IdMap<BlockStatus>,
    id: BlockId,
    reason: DiscardReason,
) -> bool {
    &&& after.wf()
    &&& same_but_one(before, after, id)
    &&& after.has(id)
    &&& after.value(id) matches BlockStatus::Discarded { reason: r, slot, creator, .. } && r == reason
        && slot == active_block(before, id).slot && creator == active_block(
        before,
        id,
    ).creator_address
}

/// A state in which an active block was discarded, as final where it was final,
/// and taken out of the cliques and of the record of incompatibilities, is a state
/// that can be reached.
pub proof fn lemma_active_discarded(
    before: ConsensusState,
    after: ConsensusState,
    id: BlockId,
    reason: DiscardReason,
)
    requires
        before.wf(),
        is_active(before.block_statuses, id),
        (reason == DiscardReason::Final) == is_final(before.block_statuses, id),
        made_discarded(before.block_statuses, after.block_statuses, id, reason),
        gi_without(before.gi_head, after.gi_head, id),
        cliques_without(before.max_cliques@, after.max_cliques@, id),
        after.config == before.config,
        after.latest_final_blocks_periods == before.latest_final_blocks_periods,
    ensures
        after.wf(),
        after.settles_only(&before),
{
    let s0 = before.block_statuses;
    let s1 = after.block_statuses;
    assert forall|x: BlockId| x != id implies (is_active(s0, x) == #[trigger] is_active(s1, x))
        && (is_final(s0, x) == is_final(s1, x)) && (is_discarded(s0, x) == is_discarded(s1, x))
        && (is_pruned(s0, x) == is_pruned(s1, x)) by {
        assert(s1.has(x) == s0.has(x));
    }
    assert forall|x: BlockId| #[trigger] s1.has(x) implies s0.has(x) by {
        if x != id {
            assert(s1.has(x) == s0.has(x));
        }
    }
    assert forall|i: int| 0 <= i < s1.entries@.len() implies ((#[trigger] s1.entries@[i]).1 matches BlockStatus::Active {
        a_block,
        ..
    } ==> a_block.links_wf(after.config.thread_count)) by {
        let x = s1.entries@[i].0;
        s1.lemma_entry(i);
        if x != id {
            assert(s1.has(x) == s0.has(x));
            let j = s0.index_of(x);
            assert(s0.entries@[j].1 == s1.entries@[i].1);
        }
    }
    assert(one_blockclique(after.max_cliques@)) by {
        let b = choose|b: int|
            0 <= b < before.max_cliques@.len() && before.max_cliques@[b].is_blockclique
                && forall|j: int|
                0 <= j < before.max_cliques@.len() && j != b ==> !(#[trigger] before.max_cliques@[j]).is_blockclique;
        assert(after.max_cliques@[b].is_blockclique);
        assert forall|j: int| 0 <= j < after.max_cliques@.len() && j != b implies !(#[trigger] after.max_cliques@[j]).is_blockclique by {
            assert(!before.max_cliques@[j].is_blockclique);
        }
    }
    assert forall|k: int, a: BlockId, b: BlockId|
        0 <= k < after.max_cliques@.len() && #[trigger] after.max_cliques@[k].block_ids@.contains(a)
            && #[trigger] after.max_cliques@[k].block_ids@.contains(b) implies !incompatible(
        after.gi_head,
        a,
        b,
    ) by {
        assert(before.max_cliques@[k].block_ids@.contains(a));
        assert(before.max_cliques@[k].block_ids@.contains(b));
        assert(!incompatible(before.gi_head, a, b));
        if after.gi_head.has(a) {
            assert(after.gi_head.value(a)@.contains(b) <==> before.gi_head.value(a)@.contains(b)
                && b != id);
        }
        if after.gi_head.has(b) {
            assert(after.gi_head.value(b)@.contains(a) <==> before.gi_head.value(b)@.contains(a)
                && a != id);
        }
    }
    assert forall|k: int, a: BlockId|
        0 <= k < after.max_cliques@.len() && #[trigger] after.max_cliques@[k].block_ids@.contains(
            a,
        ) implies is_active(s1, a) by {
        assert(before.max_cliques@[k].block_ids@.contains(a) && a != id);
        assert(is_active(s0, a));
        assert(s1.has(a) == s0.has(a));
    }
    assert forall|k: int| 0 <= k < after.max_cliques@.len() implies ids_distinct(
        #[trigger] after.max_cliques@[k].block_ids@,
    ) by {}
    assert forall|a: BlockId| #[trigger] after.gi_head.has(a) implies is_active(s1, a) && !is_final(
        s1,
        a,
    ) && ids_distinct(after.gi_head.value(a)@) by {
        assert(a != id);
        assert(before.gi_head.has(a));
        assert(is_active(s0, a));
        assert(s1.has(a) == s0.has(a));
    }
    assert forall|a: BlockId, b: BlockId|
        after.gi_head.has(a) && #[trigger] after.gi_head.value(a)@.contains(b) implies is_active(
        s1,
        b,
    ) && !is_final(s1, b) by {
        assert(before.gi_head.has(a));
        assert(before.gi_head.value(a)@.contains(b) && b != id);
        assert(is_active(s0, b));
        assert(s1.has(b) == s0.has(b));
    }
    assert forall|x: BlockId, k: int|
        is_final(s1, x) && 0 <= k < active_block(s1, x).parents@.len() && s1.has(
            #[trigger] active_block(s1, x).parents@[k].0,
        ) implies is_final(s1, active_block(s1, x).parents@[k].0) || is_pruned(
        s1,
        active_block(s1, x).parents@[k].0,
    ) by {
        let p = active_block(s1, x).parents@[k].0;
        assert(x != id);
        assert(s1.has(x) == s0.has(x));
        assert(is_final(s0, x));
        assert(active_block(s0, x).parents@[k].0 == p);
        assert(s0.has(p));
        assert(is_final(s0, p) || is_pruned(s0, p));
        if p != id {
            assert(s1.has(p) == s0.has(p));
        }
    }
    assert forall|x: BlockId, k: int|
        is_active(s1, x) && 0 <= k < active_block(s1, x).parents@.len() && s1.has(
            #[trigger] active_block(s1, x).parents@[k].0,
        ) implies is_active(s1, active_block(s1, x).parents@[k].0) || is_discarded(
        s1,
        active_block(s1, x).parents@[k].0,
    ) by {
        let p = active_block(s1, x).parents@[k].0;
        assert(x != id);
        assert(s1.has(x) == s0.has(x));
        assert(is_active(s0, x));
        assert(active_block(s0, x).parents@[k].0 == p);
        assert(s0.has(p));
        assert(is_active(s0, p) || is_discarded(s0, p));
        if p != id {
            assert(s1.has(p) == s0.has(p));
        }
    }
    assert forall|x: BlockId| #[trigger] s1.has(x) implies {
        &&& is_discarded(s0, x) ==> s1.value(x) == s0.value(x)
        &&& is_final(s0, x) ==> is_final(s1, x) || is_pruned(s1, x)
    } by {
        if x != id {
            assert(s1.has(x) == s0.has(x));
        }
    }
}

impl ConsensusState {
    /// Discards the active block `id`: as final where it is final; otherwise as
    /// invalid where `invalid` is set, and as stale where it is not. It leaves the
    /// cliques and the record of incompatibilities, and a block that was not final is
    /// noted as newly stale.
    pub fn discard_active(&mut self, id: BlockId, invalid: bool)
        requires
            old(self).wf(),
            is_active(old(self).block_statuses, id),
        ensures
            final(self).wf(),
            final(self).settles_only(old(self)),
            made_discarded(
                old(self).block_statuses,
                final(self).block_statuses,
                id,
                if is_final(old(self).block_statuses, id) {
                    DiscardReason::Final
                } else if invalid {
                    DiscardReason::Invalid
                } else {
                    DiscardReason::Stale
                },
            ),
            gi_without(old(self).gi_head, final(self).gi_head, id),
            cliques_without(old(self).max_cliques@, final(self).max_cliques@, id),
            final(self).latest_final_blocks_periods == old(self).latest_final_blocks_periods,
            final(self).new_final_blocks == old(self).new_final_blocks,
            final(self).attack_attempts == old(self).attack_attempts,
            final(self).block_statuses.keys() == old(self).block_statuses.keys(),
            final(self).best_parents == old(self).best_parents,
    {
        let (slot, creator, parents, was_final) = match self.block_statuses.get(&id) {
            Some(BlockStatus::Active { a_block, .. }) => (
                a_block.slot,
                a_block.creator_address,
                crate::engine::parent_ids(&a_block.parents),
                a_block.is_final,
            ),
            _ => (
                crate::slot::Slot::new(0, 0),
                crate::address::Address(crate::hash::Hash::from_bytes(&[0u8; 32])),
                Vec::new(),
                false,
            ),
        };
        let reason = if was_final {
            DiscardReason::Final
        } else if invalid {
            DiscardReason::Invalid
        } else {
            DiscardReason::Stale
        };
        let sequence_number = self.sequence_counter;
        if self.sequence_counter < u64::MAX {
            self.sequence_counter = self.sequence_counter + 1;
        }
        self.block_statuses.insert(
            id,
            BlockStatus::Discarded { slot, creator, parents, reason, sequence_number },
        );
        proof {
            assert forall|a: BlockId| #[trigger] self.gi_head.has(a) implies ids_distinct(
                self.gi_head.value(a)@,
            ) by {}
            assert forall|k: int| 0 <= k < self.max_cliques@.len() implies ids_distinct(
                (#[trigger] self.max_cliques@[k]).block_ids@,
            ) by {}
        }
        remove_from_gi(&mut self.gi_head, &id);
        remove_from_cliques(&mut self.max_cliques, &id);
        if !was_final {
            self.new_stale_blocks.push(id);
        }
        proof {
            lemma_active_discarded(*old(self), *self, id, reason);
        }
    }
}

/// Whether each set of `sets` is the set of one of the cliques, and the set of each
/// clique is part of one of `sets`.
pub open spec fn cliques_kept(sets: Seq<Vec<BlockId>>, cliques: Seq<Clique>) -> bool {
    &&& sets.len() >= 1
    &&& is_antichain(sets)
    &&& all_distinct(sets)
    &&& forall|i: int|
        0 <= i < sets.len() ==> exists|k: int|
            0 <= k < cliques.len() && id_set(#[trigger] cliques[k].block_ids@) == id_set(
                (#[trigger] sets[i])@,
            )
    &&& forall|k: int|
        0 <= k < cliques.len() ==> is_covered(id_set((#[trigger] cliques[k]).block_ids@), sets)
}

impl ConsensusState {
    /// Brings the cliques up to date after blocks have left them or have become
    /// final: cliques that are part of another are dropped, the fitnesses are
    /// computed anew, and the blockclique is chosen anew. Fails, leaving one empty
    /// clique, where a fitness does not fit.
    pub fn refresh_cliques(&mut self) -> (r: Result<(), GraphError>)
        requires
            old(self).wf(),
        ensures
            final(self).wf(),
            final(self).settles_only(old(self)),
            *final(self) == (ConsensusState { max_cliques: final(self).max_cliques, ..*old(self) }),
            r is Err ==> r == Err::<(), _>(GraphError::FitnessOverflow),
            r is Err ==> kept_clique_overflows(*old(self)),
            r is Ok ==> exists|sets: Seq<Vec<BlockId>>| #[trigger]
                cliques_kept(sets, old(self).max_cliques@) && cliques_of(
                    final(self).max_cliques@,
                    sets,
                    final(self).block_statuses,
                ),
    {
        let n = self.max_cliques.len();
        let mut sets: Vec<Vec<BlockId>> = Vec::new();
        let mut k: usize = 0;
        proof {
            let b = choose|b: int|
                0 <= b < self.max_cliques@.len() && self.max_cliques@[b].is_blockclique;
        }
        while k < n
            invariant
                k <= n,
                n == self.max_cliques@.len(),
                n >= 1,
                *self == *old(self),
                self.wf(),
                k > 0 ==> sets@.len() >= 1,
                is_antichain(sets@),
                all_distinct(sets@),
                forall|i: int|
                    0 <= i < sets@.len() ==> exists|j: int|
                        0 <= j < self.max_cliques@.len() && id_set(
                            #[trigger] self.max_cliques@[j].block_ids@,
                        ) == id_set((#[trigger] sets@[i])@),
                forall|j: int|
                    0 <= j < k ==> is_covered(
                        id_set((#[trigger] self.max_cliques@[j]).block_ids@),
                        sets@,
                    ),
            decreases n - k,
        {
            let copy = id_list_clone(&self.max_cliques[k].block_ids);
            let ghost before = sets@;
            absorb(&mut sets, copy);
            proof {
                assert forall|i: int| 0 <= i < sets@.len() implies exists|j: int|
                    0 <= j < self.max_cliques@.len() && id_set(
                        #[trigger] self.max_cliques@[j].block_ids@,
                    ) == id_set((#[trigger] sets@[i])@) by {
                    if id_set(sets@[i]@) == id_set(self.max_cliques@[k as int].block_ids@) {
                    } else {
                        let m = choose|m: int|
                            0 <= m < before.len() && id_set(#[trigger] before[m]@) == id_set(
                                sets@[i]@,
                            );
                        let j = choose|j: int|
                            0 <= j < self.max_cliques@.len() && id_set(
                                #[trigger] self.max_cliques@[j].block_ids@,
                            ) == id_set(before[m]@);
                        assert(id_set(self.max_cliques@[j].block_ids@) == id_set(sets@[i]@));
                    }
                }
                assert forall|j: int| 0 <= j < k + 1 implies is_covered(
                    id_set((#[trigger] self.max_cliques@[j]).block_ids@),
                    sets@,
                ) by {
                    if j < k {
                        assert(is_covered(id_set(self.max_cliques@[j].block_ids@), before));
                    }
                }
            }
            k += 1;
        }
        let ghost kept = sets@;
        match assemble_cliques(sets, &self.block_statuses) {
            Ok(cliques) => {
                self.max_cliques = cliques;
                proof {
                    lemma_cliques_replaced(*old(self), *self, kept);
                    assert(cliques_kept(kept, old(self).max_cliques@) && cliques_of(
                        self.max_cliques@,
                        kept,
                        self.block_statuses,
                    ));
                }
                Ok(())
            },
            Err(e) => {
                proof {
                    assert(some_set_overflows(old(self).block_statuses, kept));
                    assert(cliques_kept(kept, old(self).max_cliques@));
                }
                let mut cliques: Vec<Clique> = Vec::new();
                cliques.push(Clique { block_ids: Vec::new(), fitness: 0, is_blockclique: true });
                self.max_cliques = cliques;
                proof {
                    assert(one_blockclique(self.max_cliques@)) by {
                        assert(self.max_cliques@[0].is_blockclique);
                    }
                    assert forall|id: BlockId| #[trigger] self.block_statuses.has(id) implies {
                        &&& is_discarded(old(self).block_statuses, id) ==> self.block_statuses.value(id) == old(self).block_statuses.value(id)
                        &&& is_final(old(self).block_statuses, id) ==> is_final(
                            self.block_statuses,
                            id,
                        ) || is_pruned(self.block_statuses, id)
                    } by {}
                }
                Err(e)
            },
        }
    }
}

/// A state whose cliques were replaced by cliques that hold the same sets of blocks
/// as some of them is a state that can be reached.
pub proof fn lemma_cliques_replaced(
    before: ConsensusState,
    after: ConsensusState,
    sets: Seq<Vec<BlockId>>,
)
    requires
        before.wf(),
        after == (ConsensusState { max_cliques: after.max_cliques, ..before }),
        all_distinct(sets),
        forall|i: int|
            0 <= i < sets.len() ==> exists|j: int|
                0 <= j < before.max_cliques@.len() && id_set(
                    #[trigger] before.max_cliques@[j].block_ids@,
                ) == id_set((#[trigger] sets[i])@),
        cliques_of(after.max_cliques@, sets, after.block_statuses),
        one_blockclique(after.max_cliques@),
    ensures
        after.wf(),
        after.settles_only(&before),
{
    assert forall|k: int, a: BlockId, b: BlockId|
        0 <= k < after.max_cliques@.len() && #[trigger] after.max_cliques@[k].block_ids@.contains(a)
            && #[trigger] after.max_cliques@[k].block_ids@.contains(b) implies !incompatible(
        after.gi_head,
        a,
        b,
    ) by {
        assert(after.max_cliques@[k].block_ids@ == sets[k]@);
        let j = choose|j: int|
            0 <= j < before.max_cliques@.len() && id_set(
                #[trigger] before.max_cliques@[j].block_ids@,
            ) == id_set(sets[k]@);
        assert(id_set(sets[k]@).contains(a) && id_set(sets[k]@).contains(b));
        assert(before.max_cliques@[j].block_ids@.contains(a));
        assert(before.max_cliques@[j].block_ids@.contains(b));
    }
    assert forall|k: int, a: BlockId|
        0 <= k < after.max_cliques@.len() && #[trigger] after.max_cliques@[k].block_ids@.contains(
            a,
        ) implies is_active(after.block_statuses, a) by {
        assert(after.max_cliques@[k].block_ids@ == sets[k]@);
        let j = choose|j: int|
            0 <= j < before.max_cliques@.len() && id_set(
                #[trigger] before.max_cliques@[j].block_ids@,
            ) == id_set(sets[k]@);
        assert(id_set(sets[k]@).contains(a));
        assert(before.max_cliques@[j].block_ids@.contains(a));
    }
    assert forall|k: int| 0 <= k < after.max_cliques@.len() implies ids_distinct(
        #[trigger] after.max_cliques@[k].block_ids@,
    ) by {
        assert(after.max_cliques@[k].block_ids@ == sets[k]@);
    }
    assert forall|id: BlockId| #[trigger] after.block_statuses.has(id) implies {
        &&& is_discarded(before.block_statuses, id) ==> after.block_statuses.value(id) == before.block_statuses.value(id)
        &&& is_final(before.block_statuses, id) ==> is_final(after.block_statuses, id)
            || is_pruned(after.block_statuses, id)
    } by {}
}

/// Whether `after` are the cliques `before`, each with some of its blocks only, and
/// with the same flags.
pub open spec fn cliques_shrunk(before: Seq<Clique>, after: Seq<Clique>) -> bool {
    &&& after.len() == before.len()
    &&& forall|k: int|
        0 <= k < before.len() ==> {
            &&& (#[trigger] after[k]).is_blockclique == before[k].is_blockclique
            &&& ids_distinct(after[k].block_ids@)
            &&& forall|b: BlockId|
                #![trigger after[k].block_ids@.contains(b)]
                after[k].block_ids@.contains(b) ==> before[k].block_ids@.contains(b)
        }
}

/// A state whose cliques lost blocks is a state that can be reached.
pub proof fn lemma_cliques_shrunk(before: ConsensusState, after: ConsensusState)
    requires
        before.wf(),
        after == (ConsensusState { max_cliques: after.max_cliques, ..before }),
        cliques_shrunk(before.max_cliques@, after.max_cliques@),
    ensures
        after.wf(),
        after.settles_only(&before),
{
    assert(one_blockclique(after.max_cliques@)) by {
        let b = choose|b: int|
            0 <= b < before.max_cliques@.len() && before.max_cliques@[b].is_blockclique
                && forall|j: int|
                0 <= j < before.max_cliques@.len() && j != b ==> !(#[trigger] before.max_cliques@[j]).is_blockclique;
        assert(after.max_cliques@[b].is_blockclique);
        assert forall|j: int| 0 <= j < after.max_cliques@.len() && j != b implies !(#[trigger] after.max_cliques@[j]).is_blockclique by {
            assert(!before.max_cliques@[j].is_blockclique);
        }
    }
    assert forall|k: int, a: BlockId, b: BlockId|
        0 <= k < after.max_cliques@.len() && #[trigger] after.max_cliques@[k].block_ids@.contains(a)
            && #[trigger] after.max_cliques@[k].block_ids@.contains(b) implies !incompatible(
        after.gi_head,
        a,
        b,
    ) by {
        assert(before.max_cliques@[k].block_ids@.contains(a));
        assert(before.max_cliques@[k].block_ids@.contains(b));
    }
    assert forall|k: int, a: BlockId|
        0 <= k < after.max_cliques@.len() && #[trigger] after.max_cliques@[k].block_ids@.contains(
            a,
        ) implies is_active(after.block_statuses, a) by {
        assert(before.max_cliques@[k].block_ids@.contains(a));
    }
    assert forall|k: int| 0 <= k < after.max_cliques@.len() implies ids_distinct(
        #[trigger] after.max_cliques@[k].block_ids@,
    ) by {}
    assert forall|id: BlockId| #[trigger] after.block_statuses.has(id) implies {
        &&& is_discarded(before.block_statuses, id) ==> after.block_statuses.value(id) == before.block_statuses.value(id)
        &&& is_final(before.block_statuses, id) ==> is_final(after.block_statuses, id)
            || is_pruned(after.block_statuses, id)
    } by {}
}

/// Whether `y` is a block of a clique that does not hold `x`.
pub open spec fn in_rival_clique(cliques: Seq<Clique>, x: BlockId, y: BlockId) -> bool {
    exists|k: int|
        0 <= k < cliques.len() && !(#[trigger] cliques[k]).block_ids@.contains(x)
            && cliques[k].block_ids@.contains(y)
}

/// The blocks of the cliques that do not hold `x`, each once.
pub fn rival_blocks(cliques: &Vec<Clique>, x: &BlockId) -> (r: Vec<BlockId>)
    ensures
        ids_distinct(r@),
        forall|y: BlockId| r@.contains(y) <==> in_rival_clique(cliques@, *x, y),
{
    let mut out: Vec<BlockId> = Vec::new();
    let mut k: usize = 0;
    while k < cliques.len()
        invariant
            k <= cliques@.len(),
            ids_distinct(out@),
            forall|y: BlockId|
                out@.contains(y) <==> exists|j: int|
                    0 <= j < k && !(#[trigger] cliques@[j]).block_ids@.contains(*x)
                        && cliques@[j].block_ids@.contains(y),
        decreases cliques@.len() - k,
    {
        let ghost before = out@;
        if !id_list_contains(&cliques[k].block_ids, x) {
            let members = &cliques[k].block_ids;
            let mut i: usize = 0;
            while i < members.len()
                invariant
                    i <= members@.len(),
                    ids_distinct(out@),
                    id_set(out@) == id_set(before).union(id_set(members@.subrange(0, i as int))),
                decreases members@.len() - i,
            {
                id_list_insert(&mut out, members[i]);
                proof {
                    let part = members@.subrange(0, i as int);
                    assert(members@.subrange(0, i + 1) =~= part.push(members@[i as int]));
                    crate::id_set::lemma_id_set_push(part, members@[i as int]);
                    assert(id_set(out@) =~= id_set(before).union(
                        id_set(members@.subrange(0, i + 1)),
                    ));
                }
                i += 1;
            }
            proof {
                assert(members@.subrange(0, members@.len() as int) =~= members@);
                assert(id_set(out@) == id_set(before).union(id_set(members@)));
            }
        } else {
            proof {
                assert(id_set(out@) == id_set(before));
            }
        }
        proof {
            assert forall|y: BlockId|
                out@.contains(y) <==> before.contains(y) || (!cliques@[k as int].block_ids@.contains(
                    *x,
                ) && cliques@[k as int].block_ids@.contains(y)) by {
                assert(id_set(out@).contains(y) == out@.contains(y));
                assert(id_set(before).contains(y) == before.contains(y));
                assert(id_set(cliques@[k as int].block_ids@).contains(y)
                    == cliques@[k as int].block_ids@.contains(y));
            }
        }
        proof {
            assert forall|y: BlockId|
                out@.contains(y) <==> exists|j: int|
                    0 <= j < k + 1 && !(#[trigger] cliques@[j]).block_ids@.contains(*x)
                        && cliques@[j].block_ids@.contains(y) by {
                let here = !cliques@[k as int].block_ids@.contains(*x)
                    && cliques@[k as int].block_ids@.contains(y);
                if before.contains(y) {
                    let j = choose|j: int|
                        0 <= j < k && !(#[trigger] cliques@[j]).block_ids@.contains(*x)
                            && cliques@[j].block_ids@.contains(y);
                    assert(0 <= j < k + 1);
                }
                if here {
                    assert(out@.contains(y));
                }
                if exists|j: int|
                    0 <= j < k + 1 && !(#[trigger] cliques@[j]).block_ids@.contains(*x)
                        && cliques@[j].block_ids@.contains(y) {
                    let j = choose|j: int|
                        0 <= j < k + 1 && !(#[trigger] cliques@[j]).block_ids@.contains(*x)
                            && cliques@[j].block_ids@.contains(y);
                    if j < k {
                        assert(before.contains(y));
                    }
                }
            }
        }
        k += 1;
    }
    out
}

/// Whether the active block `x` meets the threshold of finality: the fitness of the
/// blockclique, at `b`, is at least `delta_f0` above the fitness of the blocks of
/// the cliques that do not hold `x`.
pub open spec fn meets_threshold(
    cliques: Seq<Clique>,
    statuses: IdMap<BlockStatus>,
    b: int,
    x: BlockId,
    delta_f0: u64,
) -> bool {
    exists|rivals: Seq<BlockId>|
        #![trigger ids_distinct(rivals)]
        ids_distinct(rivals) && (forall|y: BlockId|
            rivals.contains(y) <==> in_rival_clique(cliques, x, y)) && cliques[b].fitness
            >= clique_fitness(statuses, rivals) + delta_f0
}

/// Whether the block `id` can be the best parent in thread `t`: it is active, in
/// that thread, at a period above `floor`.
pub open spec fn is_parent_candidate(statuses: IdMap<BlockStatus>, id: BlockId, t: int, floor: u64) -> bool {
    &&& is_active(statuses, id)
    &&& active_block(statuses, id).slot.thread == t
    &&& active_block(statuses, id).slot.period > floor
}

/// Whether the block `a`, with its period, is a better parent than `b`: its period
/// is higher, or it is the same and its identifier comes first.
pub open spec fn parent_beats(a: (BlockId, u64), b: (BlockId, u64)) -> bool {
    a.1 > b.1 || (a.1 == b.1 && crate::bytes::lex_lt(a.0@, b.0@))
}

/// Whether `best` is the best parent in thread `t` among the first `n` blocks of
/// `ids`, `latest` being the latest final block of the thread: the block in that
/// thread, above the latest final block, that no other such block beats; or the
/// latest final block, where there is no such block.
pub open spec fn is_best_parent(
    statuses: IdMap<BlockStatus>,
    ids: Seq<BlockId>,
    n: int,
    t: int,
    latest: (BlockId, u64),
    best: (BlockId, u64),
) -> bool {
    &&& best == latest || exists|k: int|
        0 <= k < n && is_parent_candidate(statuses, #[trigger] ids[k], t, latest.1) && best == (
            ids[k],
            active_block(statuses, ids[k]).slot.period,
        )
    &&& forall|k: int|
        0 <= k < n && is_parent_candidate(statuses, #[trigger] ids[k], t, latest.1)
            ==> !parent_beats((ids[k], active_block(statuses, ids[k]).slot.period), best)
}

/// Whether `rivals` are the blocks of the cliques that do not hold the block `x`,
/// each once, and their fitness does not fit.
pub open spec fn rivals_of_overflow(state: ConsensusState, x: BlockId, rivals: Seq<BlockId>) -> bool {
    &&& ids_distinct(rivals)
    &&& forall|y: BlockId| rivals.contains(y) <==> in_rival_clique(state.max_cliques@, x, y)
    &&& clique_fitness(state.block_statuses, rivals) > u64::MAX
}

/// Whether the fitness of the blocks of the cliques that do not hold some block
/// does not fit.
pub open spec fn rivals_overflow(state: ConsensusState) -> bool {
    exists|x: BlockId, rivals: Seq<BlockId>| #[trigger] rivals_of_overflow(state, x, rivals)
}

/// Whether the fitness of one of the cliques that are kept when the cliques are
/// brought up to date does not fit.
pub open spec fn kept_clique_overflows(state: ConsensusState) -> bool {
    exists|sets: Seq<Vec<BlockId>>| #[trigger]
        cliques_kept(sets, state.max_cliques@) && some_set_overflows(state.block_statuses, sets)
}

/// Whether the fitness of one of the sets does not fit.
pub open spec fn some_set_overflows(statuses: IdMap<BlockStatus>, sets: Seq<Vec<BlockId>>) -> bool {
    exists|i: int| 0 <= i < sets.len() && clique_fitness(statuses, (#[trigger] sets[i])@) > u64::MAX
}

/// Whether a fitness does not fit in `state`: that of the blocks of the cliques
/// that do not hold some block, or that of a clique that is kept.
pub open spec fn overflows_at(state: ConsensusState) -> bool {
    rivals_overflow(state) || kept_clique_overflows(state)
}

/// Whether a fitness does not fit in a state that can be reached and follows
/// `before` closely.
pub open spec fn overflows_since(before: ConsensusState) -> bool {
    exists|mid: ConsensusState| #[trigger]
        mid.follows_closely(&before) && mid.wf() && overflows_at(mid)
}

/// Whether `x` is a block of the blockclique that is not final and meets the
/// threshold of finality.
pub open spec fn is_final_candidate(state: ConsensusState, x: BlockId) -> bool {
    &&& is_active(state.block_statuses, x)
    &&& !is_final(state.block_statuses, x)
    &&& exists|b: int|
        0 <= b < state.max_cliques@.len() && (#[trigger] state.max_cliques@[b]).is_blockclique
            && state.max_cliques@[b].block_ids@.contains(x) && meets_threshold(
            state.max_cliques@,
            state.block_statuses,
            b,
            x,
            state.config.delta_f0,
        )
}

impl ConsensusState {
    /// The place of the blockclique.
    pub fn blockclique_index(&self) -> (b: usize)
        requires
            one_blockclique(self.max_cliques@),
        ensures
            b < self.max_cliques@.len(),
            self.max_cliques@[b as int].is_blockclique,
            forall|j: int|
                0 <= j < self.max_cliques@.len() && j != b ==> !(#[trigger] self.max_cliques@[j]).is_blockclique,
    {
        let mut k: usize = 0;
        while k < self.max_cliques.len()
            invariant
                k <= self.max_cliques@.len(),
                one_blockclique(self.max_cliques@),
                forall|j: int| 0 <= j < k ==> !(#[trigger] self.max_cliques@[j]).is_blockclique,
            decreases self.max_cliques@.len() - k,
        {
            if self.max_cliques[k].is_blockclique {
                proof {
                    let w = choose|w: int|
                        0 <= w < self.max_cliques@.len() && self.max_cliques@[w].is_blockclique
                            && forall|j: int|
                            0 <= j < self.max_cliques@.len() && j != w ==> !(#[trigger] self.max_cliques@[j]).is_blockclique;
                    assert(w == k);
                }
                return k;
            }
            k += 1;
        }
        proof {
            let w = choose|w: int|
                0 <= w < self.max_cliques@.len() && self.max_cliques@[w].is_blockclique;
            assert(false);
        }
        0
    }

    /// The blocks of the blockclique that are not final and meet the threshold of
    /// finality. Fails where a fitness does not fit.
    pub fn final_candidates(&self) -> (r: Result<Vec<BlockId>, GraphError>)
        requires
            self.wf(),
        ensures
            r is Err ==> r == Err::<Vec<BlockId>, _>(GraphError::FitnessOverflow),
            r is Ok ==> forall|x: BlockId|
                #![trigger r.unwrap()@.contains(x)]
                r.unwrap()@.contains(x) <==> is_final_candidate(*self, x),
            r is Err ==> rivals_overflow(*self),
    {
        let b = self.blockclique_index();
        let members = &self.max_cliques[b].block_ids;
        let best = self.max_cliques[b].fitness;
        let mut out: Vec<BlockId> = Vec::new();
        let mut i: usize = 0;
        while i < members.len()
            invariant
                self.wf(),
                b < self.max_cliques@.len(),
                self.max_cliques@[b as int].is_blockclique,
                members@ == self.max_cliques@[b as int].block_ids@,
                best == self.max_cliques@[b as int].fitness,
                i <= members@.len(),
                forall|j: int|
                    0 <= j < self.max_cliques@.len() && j != b ==> !(#[trigger] self.max_cliques@[j]).is_blockclique,
                forall|x: BlockId|
                    #![trigger out@.contains(x)]
                    out@.contains(x) ==> is_active(self.block_statuses, x) && !is_final(
                        self.block_statuses,
                        x,
                    ) && self.max_cliques@[b as int].block_ids@.contains(x) && meets_threshold(
                        self.max_cliques@,
                        self.block_statuses,
                        b as int,
                        x,
                        self.config.delta_f0,
                    ),
                forall|m: int|
                    0 <= m < i && is_final_candidate(*self, #[trigger] members@[m])
                        ==> out@.contains(members@[m]),
            decreases members@.len() - i,
        {
            let x = members[i];
            let ghost out_before = out@;
            let is_candidate = match self.block_statuses.get(&x) {
                Some(BlockStatus::Active { a_block, .. }) => !a_block.is_final,
                _ => false,
            };
            if is_candidate {
                let rivals = rival_blocks(&self.max_cliques, &x);
                let stale = match compute_fitness(&self.block_statuses, &rivals) {
                    Ok(f) => f,
                    Err(e) => {
                        proof {
                            assert(members@.contains(x));
                            assert(rivals_of_overflow(*self, x, rivals@));
                        }
                        return Err(e);
                    },
                };
                let enough = match stale.checked_add(self.config.delta_f0) {
                    Some(needed) => best >= needed,
                    None => false,
                };
                proof {
                    if !enough && is_final_candidate(*self, x) {
                        let w = choose|w: int|
                            0 <= w < self.max_cliques@.len() && (
                            #[trigger] self.max_cliques@[w]).is_blockclique
                                && self.max_cliques@[w].block_ids@.contains(x) && meets_threshold(
                                self.max_cliques@,
                                self.block_statuses,
                                w,
                                x,
                                self.config.delta_f0,
                            );
                        assert(w == b);
                        let other = choose|other: Seq<BlockId>|
                            #![trigger ids_distinct(other)]
                            ids_distinct(other) && (forall|y: BlockId|
                                other.contains(y) <==> in_rival_clique(self.max_cliques@, x, y))
                                && self.max_cliques@[w].fitness >= clique_fitness(
                                self.block_statuses,
                                other,
                            ) + self.config.delta_f0;
                        crate::cliques::lemma_clique_fitness_of_set(
                            self.block_statuses,
                            rivals@,
                            other,
                        );
                        assert(false);
                    }
                }
                if enough {
                    let ghost before = out@;
                    out.push(x);
                    proof {
                        assert(ids_distinct(rivals@));
                        assert(meets_threshold(
                            self.max_cliques@,
                            self.block_statuses,
                            b as int,
                            x,
                            self.config.delta_f0,
                        ));
                        assert forall|z: BlockId|
                            #![trigger out@.contains(z)]
                            out@.contains(z) implies is_active(self.block_statuses, z) && !is_final(
                            self.block_statuses,
                            z,
                        ) && self.max_cliques@[b as int].block_ids@.contains(z) && meets_threshold(
                            self.max_cliques@,
                            self.block_statuses,
                            b as int,
                            z,
                            self.config.delta_f0,
                        ) by {
                            let m = choose|m: int| 0 <= m < out@.len() && out@[m] == z;
                            if m < before.len() {
                                assert(before.contains(z));
                            } else {
                                assert(members@.contains(x));
                            }
                        }
                    }
                }
            }
            proof {
                assert forall|m: int|
                    0 <= m < i + 1 && is_final_candidate(
                        *self,
                        #[trigger] members@[m],
                    ) implies out@.contains(members@[m]) by {
                    if m < i {
                        assert(out_before.contains(members@[m]));
                        let q = choose|q: int|
                            0 <= q < out_before.len() && out_before[q] == members@[m];
                        assert(out@[q] == members@[m]);
                    } else {
                        assert(out@.len() > 0 && out@[out@.len() - 1] == x);
                    }
                }
            }
            i += 1;
        }
        proof {
            assert forall|x: BlockId|
                #![trigger out@.contains(x)]
                out@.contains(x) <==> is_final_candidate(*self, x) by {
                if is_final_candidate(*self, x) {
                    let w = choose|w: int|
                        0 <= w < self.max_cliques@.len() && (
                        #[trigger] self.max_cliques@[w]).is_blockclique
                            && self.max_cliques@[w].block_ids@.contains(x) && meets_threshold(
                            self.max_cliques@,
                            self.block_statuses,
                            w,
                            x,
                            self.config.delta_f0,
                        );
                    assert(w == b);
                    let m = choose|m: int| 0 <= m < members@.len() && members@[m] == x;
                    assert(out@.contains(members@[m]));
                }
            }
        }
        Ok(out)
    }
}

/// Every state follows itself closely.
pub proof fn lemma_follows_closely_self(a: ConsensusState)
    ensures
        a.follows_closely(&a),
{
}

/// Every state settles nothing but itself.
pub proof fn lemma_settles_only_self(a: ConsensusState)
    ensures
        a.settles_only(&a),
{
}

/// Whether `x` is one of the first `n` identifiers of a list.
pub open spec fn among_first_ids(list: Seq<BlockId>, n: int, x: BlockId) -> bool {
    exists|m: int| 0 <= m < n && list[m] == x
}

/// Whether the block `y`, active and not final in `before`, is recorded there as
/// incompatible with one of the blocks of `finals`.
pub open spec fn made_stale(before: ConsensusState, finals: Seq<BlockId>, y: BlockId) -> bool {
    &&& is_active(before.block_statuses, y)
    &&& !is_final(before.block_statuses, y)
    &&& exists|x: BlockId|
        finals.contains(x) && before.gi_head.has(x) && #[trigger] before.gi_head.value(
            x,
        )@.contains(y)
}

/// Whether a block is known and was discarded as stale.
pub open spec fn is_stale(statuses: IdMap<BlockStatus>, id: BlockId) -> bool {
    statuses.has(id) && (statuses.value(id) matches BlockStatus::Discarded { reason, .. } && reason
        == DiscardReason::Stale)
}

/// Two candidates for finality are not recorded as incompatible: they are blocks of
/// the blockclique.
pub proof fn lemma_candidates_compatible(state: ConsensusState, x: BlockId, y: BlockId)
    requires
        state.wf(),
        is_final_candidate(state, x),
        is_final_candidate(state, y),
    ensures
        !incompatible(state.gi_head, x, y),
{
    let b = choose|b: int|
        0 <= b < state.max_cliques@.len() && (#[trigger] state.max_cliques@[b]).is_blockclique
            && state.max_cliques@[b].block_ids@.contains(x) && meets_threshold(
            state.max_cliques@,
            state.block_statuses,
            b,
            x,
            state.config.delta_f0,
        );
    let c = choose|c: int|
        0 <= c < state.max_cliques@.len() && (#[trigger] state.max_cliques@[c]).is_blockclique
            && state.max_cliques@[c].block_ids@.contains(y) && meets_threshold(
            state.max_cliques@,
            state.block_statuses,
            c,
            y,
            state.config.delta_f0,
        );
    let w = choose|w: int|
        0 <= w < state.max_cliques@.len() && state.max_cliques@[w].is_blockclique && forall|j: int|
            0 <= j < state.max_cliques@.len() && j != w ==> !(#[trigger] state.max_cliques@[j]).is_blockclique;
    assert(b == w);
    assert(c == w);
    assert(state.max_cliques@[b].block_ids@.contains(x));
    assert(state.max_cliques@[b].block_ids@.contains(y));
}

/// Whether the best parents of `state` are up to date: for each thread, the best
/// parent among the blocks of the blockclique, or the latest final block of the
/// thread (`is_best_parent`).
pub open spec fn best_parents_current(state: ConsensusState) -> bool {
    &&& state.best_parents@.len() == state.latest_final_blocks_periods@.len()
    &&& exists|b: int|
        0 <= b < state.max_cliques@.len() && (#[trigger] state.max_cliques@[b]).is_blockclique
            && forall|t: int|
            0 <= t < state.best_parents@.len() ==> is_best_parent(
                state.block_statuses,
                state.max_cliques@[b].block_ids@,
                state.max_cliques@[b].block_ids@.len() as int,
                t,
                state.latest_final_blocks_periods@[t],
                #[trigger] state.best_parents@[t],
            )
}

/// Whether `pruned` are the cliques `cliques` of `state` without the final blocks
/// that are no longer kept.
pub open spec fn cliques_pruned(state: ConsensusState, pruned: Seq<Clique>) -> bool {
    &&& pruned.len() == state.max_cliques@.len()
    &&& forall|k: int, b: BlockId|
        #![trigger pruned[k].block_ids@.contains(b)]
        0 <= k < pruned.len() ==> (pruned[k].block_ids@.contains(b)
            <==> state.max_cliques@[k].block_ids@.contains(b) && !is_out_of_keep(state, b))
}

/// Whether `after` is what `before` becomes when finality is settled anew and no
/// block becomes final: the final blocks that are no longer kept are discarded as
/// final and leave the cliques, and nothing else happens to the blocks
/// (`pruned_only`); then the cliques are those that are left, without those that
/// are part of another, with their fitnesses and the blockclique chosen anew, and
/// the best parents are up to date.
pub open spec fn nothing_settled(before: ConsensusState, after: ConsensusState) -> bool {
    exists|pruned: ConsensusState, sets: Seq<Vec<BlockId>>|
        {
            &&& #[trigger] pruned_only(before, pruned)
            &&& after == (ConsensusState {
                max_cliques: after.max_cliques,
                best_parents: after.best_parents,
                ..pruned
            })
            &&& #[trigger] cliques_kept(sets, pruned.max_cliques@)
            &&& cliques_of(after.max_cliques@, sets, after.block_statuses)
            &&& best_parents_current(after)
        }
}

/// A state in which nothing but the discarding of the final blocks that are no
/// longer kept, the bringing up to date of the cliques and that of the best
/// parents was done is one in which nothing was settled.
pub proof fn lemma_nothing_settled(
    before: ConsensusState,
    pruned: ConsensusState,
    refreshed: ConsensusState,
    after: ConsensusState,
    sets: Seq<Vec<BlockId>>,
)
    requires
        pruned_only(before, pruned),
        refreshed == (ConsensusState { max_cliques: refreshed.max_cliques, ..pruned }),
        cliques_kept(sets, pruned.max_cliques@),
        cliques_of(refreshed.max_cliques@, sets, refreshed.block_statuses),
        after == (ConsensusState { best_parents: after.best_parents, ..refreshed }),
        best_parents_current(after),
    ensures
        nothing_settled(before, after),
{
    assert(pruned_only(before, pruned) && cliques_kept(sets, pruned.max_cliques@) && cliques_of(
        after.max_cliques@,
        sets,
        after.block_statuses,
    ));
}

/// A state in which the final blocks that are no longer kept were discarded is
/// one in which that alone was done.
pub proof fn lemma_pruned_only(before: ConsensusState, pruned: ConsensusState)
    requires
        pruned.wf(),
        pruned.settles_only(&before),
        pruned.block_statuses.keys() == before.block_statuses.keys(),
        pruned.latest_final_blocks_periods == before.latest_final_blocks_periods,
        pruned.new_final_blocks == before.new_final_blocks,
        pruned.attack_attempts == before.attack_attempts,
        pruned.best_parents == before.best_parents,
        same_record(pruned.gi_head, before.gi_head),
        cliques_pruned(before, pruned.max_cliques@),
        forall|id: BlockId|
            #![trigger pruned.block_statuses.value(id)]
            #![trigger before.block_statuses.has(id)]
            before.block_statuses.has(id) ==> if is_out_of_keep(before, id) {
                pruned_from(before.block_statuses.value(id), pruned.block_statuses.value(id))
            } else {
                pruned.block_statuses.value(id) == before.block_statuses.value(id)
            },
    ensures
        pruned_only(before, pruned),
{
}

/// Whether no block of `state` is a candidate for finality.
pub open spec fn no_final_candidate(state: ConsensusState) -> bool {
    forall|x: BlockId| !#[trigger] is_final_candidate(state, x)
}

/// Whether `after` is what `before` becomes when finality is settled anew, `r`
/// being the blocks that became final, or the failure.
///
/// The blocks that became final were candidates, and every candidate of which
/// every known parent was final became final. The blocks that were recorded as
/// incompatible with a block that became final are discarded as stale. Where no
/// block is a candidate, `nothing_settled` says what is done. No block is
/// forgotten, the blocks
/// keep their order, and only blocks of the graph change. The attempt fails only
/// where a fitness does not fit.
pub open spec fn finality_settled(
    before: ConsensusState,
    after: ConsensusState,
    r: Result<Vec<BlockId>, GraphError>,
) -> bool {
    &&& after.wf()
    &&& after.settles_only(&before)
    &&& after.block_statuses.keys() == before.block_statuses.keys()
    &&& r is Err ==> r == Err::<Vec<BlockId>, _>(GraphError::FitnessOverflow) && overflows_since(
        before,
    )
    &&& r is Ok ==> forall|x: BlockId|
        #![trigger r.unwrap()@.contains(x)]
        r.unwrap()@.contains(x) ==> is_final_candidate(before, x) && (is_final(
            after.block_statuses,
            x,
        ) || is_pruned(after.block_statuses, x))
    &&& r is Ok ==> forall|x: BlockId|
        #![trigger r.unwrap()@.contains(x)]
        is_final_candidate(before, x) && parents_are_final(before.block_statuses, x)
            ==> r.unwrap()@.contains(x)
    &&& r is Ok ==> forall|y: BlockId| #[trigger]
        made_stale(before, r.unwrap()@, y) ==> is_stale(after.block_statuses, y)
    &&& r is Ok ==> best_parents_current(after)
    &&& r is Ok && no_final_candidate(before) ==> nothing_settled(before, after)
    &&& r is Err && no_final_candidate(before) && !rivals_overflow(before)
        ==> exists|pruned: ConsensusState| #[trigger]
        pruned_only(before, pruned) && kept_clique_overflows(pruned)
}

/// Whether `pruned` is `before` once the final blocks that are no longer kept were
/// discarded as final and have left the cliques, and nothing else was done.
pub open spec fn pruned_only(before: ConsensusState, pruned: ConsensusState) -> bool {
    &&& pruned.wf()
    &&& pruned.settles_only(&before)
    &&& pruned.block_statuses.keys() == before.block_statuses.keys()
    &&& pruned.latest_final_blocks_periods == before.latest_final_blocks_periods
    &&& pruned.new_final_blocks == before.new_final_blocks
    &&& pruned.attack_attempts == before.attack_attempts
    &&& pruned.best_parents == before.best_parents
    &&& same_record(pruned.gi_head, before.gi_head)
    &&& cliques_pruned(before, pruned.max_cliques@)
    &&& forall|id: BlockId|
        #![trigger pruned.block_statuses.value(id)]
        before.block_statuses.has(id) ==> if is_out_of_keep(before, id) {
            pruned_from(before.block_statuses.value(id), pruned.block_statuses.value(id))
        } else {
            pruned.block_statuses.value(id) == before.block_statuses.value(id)
        }
}

impl ConsensusState {
    /// Whether every known parent of the active block `id` is final, or was final
    /// and is no longer kept.
    pub fn parents_final_now(&self, id: &BlockId) -> (r: bool)
        requires
            self.block_statuses.wf(),
            is_active(self.block_statuses, *id),
        ensures
            r == parents_are_final(self.block_statuses, *id),
    {
        match self.block_statuses.get(id) {
            Some(BlockStatus::Active { a_block, .. }) => {
                let mut k: usize = 0;
                while k < a_block.parents.len()
                    invariant
                        self.block_statuses.wf(),
                        *a_block == active_block(self.block_statuses, *id),
                        k <= a_block.parents@.len(),
                        forall|j: int|
                            0 <= j < k && self.block_statuses.has((#[trigger] a_block.parents@[j]).0)
                                ==> is_final(self.block_statuses, a_block.parents@[j].0)
                                || is_pruned(self.block_statuses, a_block.parents@[j].0),
                    decreases a_block.parents@.len() - k,
                {
                    let ok = match self.block_statuses.get(&a_block.parents[k].0) {
                        None => true,
                        Some(BlockStatus::Active { a_block: p, .. }) => p.is_final,
                        Some(BlockStatus::Discarded { reason, .. }) => match reason {
                            DiscardReason::Final => true,
                            _ => false,
                        },
                        Some(_) => false,
                    };
                    if !ok {
                        proof {
                            let p = active_block(self.block_statuses, *id).parents@[k as int].0;
                            assert(self.block_statuses.has(p));
                            assert(!is_final(self.block_statuses, p) && !is_pruned(
                                self.block_statuses,
                                p,
                            ));
                        }
                        return false;
                    }
                    k += 1;
                }
                true
            },
            _ => true,
        }
    }

    /// Whether some active block that is not final has `id` as a parent.
    pub fn is_needed_by_living(&self, id: &BlockId) -> (r: bool)
        requires
            self.block_statuses.wf(),
        ensures
            r == needed_by_living(self.block_statuses, *id),
    {
        let mut i: usize = 0;
        while i < self.block_statuses.entries.len()
            invariant
                i <= self.block_statuses.entries@.len(),
                forall|j: int|
                    0 <= j < i ==> !((#[trigger] self.block_statuses.entries@[j]).1 matches BlockStatus::Active {
                        a_block,
                        ..
                    } && !a_block.is_final && a_block.has_parent(*id)),
            decreases self.block_statuses.entries@.len() - i,
        {
            match &self.block_statuses.entries[i].1 {
                BlockStatus::Active { a_block, .. } => {
                    if !a_block.is_final && a_block.is_child_of(id) {
                        return true;
                    }
                },
                _ => {},
            }
            i += 1;
        }
        false
    }

    /// Takes the blocks of `finals` out of the cliques that are not the blockclique.
    pub fn remove_from_rivals(&mut self, finals: &Vec<BlockId>)
        requires
            old(self).wf(),
        ensures
            final(self).wf(),
            final(self).settles_only(old(self)),
            *final(self) == (ConsensusState { max_cliques: final(self).max_cliques, ..*old(self) }),
            cliques_shrunk(old(self).max_cliques@, final(self).max_cliques@),
            forall|k: int, b: BlockId|
                #![trigger final(self).max_cliques@[k].block_ids@.contains(b)]
                0 <= k < old(self).max_cliques@.len() ==> (final(self).max_cliques@[k].block_ids@.contains(b) <==> old(
                    self,
                ).max_cliques@[k].block_ids@.contains(b) && (old(
                    self,
                ).max_cliques@[k].is_blockclique || !finals@.contains(b))),
    {
        let n = self.max_cliques.len();
        let mut k: usize = 0;
        while k < n
            invariant
                k <= n,
                n == old(self).max_cliques@.len(),
                self.max_cliques@.len() == n,
                *self == (ConsensusState { max_cliques: self.max_cliques, ..*old(self) }),
                old(self).wf(),
                forall|j: int| k <= j < n ==> self.max_cliques@[j] == old(self).max_cliques@[j],
                forall|j: int|
                    0 <= j < k ==> {
                        &&& (#[trigger] self.max_cliques@[j]).is_blockclique == old(
                            self,
                        ).max_cliques@[j].is_blockclique
                        &&& ids_distinct(self.max_cliques@[j].block_ids@)
                        &&& forall|b: BlockId|
                            #![trigger self.max_cliques@[j].block_ids@.contains(b)]
                            self.max_cliques@[j].block_ids@.contains(b) <==> old(
                                self,
                            ).max_cliques@[j].block_ids@.contains(b) && (old(
                                self,
                            ).max_cliques@[j].is_blockclique || !finals@.contains(b))
                    },
            decreases n - k,
        {
            proof {
                assert(ids_distinct(old(self).max_cliques@[k as int].block_ids@));
            }
            if !self.max_cliques[k].is_blockclique {
                let ghost start = self.max_cliques@[k as int].block_ids@;
                let mut i: usize = 0;
                while i < finals.len()
                    invariant
                        i <= finals@.len(),
                        k < n,
                        self.max_cliques@.len() == n,
                        n == old(self).max_cliques@.len(),
                        *self == (ConsensusState { max_cliques: self.max_cliques, ..*old(self) }),
                        forall|j: int| 0 <= j < n && j != k ==> self.max_cliques@[j] == old(
                            self,
                        ).max_cliques@[j] || j < k,
                        forall|j: int|
                            k < j < n ==> self.max_cliques@[j] == old(self).max_cliques@[j],
                        forall|j: int|
                            0 <= j < k ==> {
                                &&& (#[trigger] self.max_cliques@[j]).is_blockclique == old(
                                    self,
                                ).max_cliques@[j].is_blockclique
                                &&& ids_distinct(self.max_cliques@[j].block_ids@)
                                &&& forall|b: BlockId|
                                    #![trigger self.max_cliques@[j].block_ids@.contains(b)]
                                    self.max_cliques@[j].block_ids@.contains(b) <==> old(
                                        self,
                                    ).max_cliques@[j].block_ids@.contains(b) && (old(
                                        self,
                                    ).max_cliques@[j].is_blockclique || !finals@.contains(b))
                            },
                        self.max_cliques@[k as int].is_blockclique == old(
                            self,
                        ).max_cliques@[k as int].is_blockclique,
                        !self.max_cliques@[k as int].is_blockclique,
                        ids_distinct(self.max_cliques@[k as int].block_ids@),
                        start == old(self).max_cliques@[k as int].block_ids@,
                        forall|b: BlockId|
                            #![trigger self.max_cliques@[k as int].block_ids@.contains(b)]
                            self.max_cliques@[k as int].block_ids@.contains(b) <==> start.contains(
                                b,
                            ) && !finals@.subrange(0, i as int).contains(b),
                    decreases finals@.len() - i,
                {
                    let ghost prev = self.max_cliques@[k as int].block_ids@;
                    let ghost prev_all = self.max_cliques@;
                    id_list_remove(&mut self.max_cliques[k].block_ids, &finals[i]);
                    proof {
                        let now = self.max_cliques@[k as int].block_ids@;
                        let part = finals@.subrange(0, i as int);
                        let next = finals@.subrange(0, i + 1);
                        assert(next =~= part.push(finals@[i as int]));
                        assert forall|b: BlockId|
                            #![trigger now.contains(b)]
                            now.contains(b) <==> start.contains(b) && !next.contains(b) by {
                            assert(id_set(now).contains(b) == now.contains(b));
                            assert(id_set(prev).contains(b) == prev.contains(b));
                            crate::id_set::lemma_id_set_push(part, finals@[i as int]);
                            assert(id_set(next).contains(b) == next.contains(b));
                            assert(id_set(part).contains(b) == part.contains(b));
                        }
                        assert forall|j: int| 0 <= j < n && j != k implies self.max_cliques@[j]
                            == prev_all[j] by {}
                    }
                    i += 1;
                }
                proof {
                    assert(finals@.subrange(0, finals@.len() as int) =~= finals@);
                }
            }
            k += 1;
        }
        proof {
            lemma_cliques_shrunk(*old(self), *self);
        }
    }
}

/// The number of discarded blocks among the entries.
pub open spec fn count_discarded(entries: Seq<(BlockId, BlockStatus)>) -> nat
    decreases entries.len(),
{
    if entries.len() == 0 {
        0
    } else {
        count_discarded(entries.drop_last()) + if entries.last().1 is Discarded {
            1nat
        } else {
            0nat
        }
    }
}

/// Taking an entry out leaves one discarded block less where it was one, and as
/// many otherwise.
pub proof fn lemma_count_discarded_remove(entries: Seq<(BlockId, BlockStatus)>, i: int)
    requires
        0 <= i < entries.len(),
    ensures
        count_discarded(entries.remove(i)) + (if entries[i].1 is Discarded {
            1nat
        } else {
            0nat
        }) == count_discarded(entries),
    decreases entries.len(),
{
    let r = entries.remove(i);
    if i == entries.len() - 1 {
        assert(r =~= entries.drop_last());
    } else {
        lemma_count_discarded_remove(entries.drop_last(), i);
        assert(r.drop_last() =~= entries.drop_last().remove(i));
        assert(r.last() == entries.last());
    }
}

/// A state from which a discarded block was forgotten is a state that can be
/// reached.
pub proof fn lemma_discarded_forgotten(before: ConsensusState, after: ConsensusState, id: BlockId)
    requires
        before.wf(),
        is_discarded(before.block_statuses, id),
        after == (ConsensusState { block_statuses: after.block_statuses, ..before }),
        after.block_statuses.wf(),
        same_but_one(before.block_statuses, after.block_statuses, id),
        !after.block_statuses.has(id),
    ensures
        after.wf(),
        after.settles_only(&before),
{
    let s0 = before.block_statuses;
    let s1 = after.block_statuses;
    assert forall|x: BlockId| x != id implies (is_active(s0, x) == #[trigger] is_active(s1, x))
        && (is_final(s0, x) == is_final(s1, x)) && (is_discarded(s0, x) == is_discarded(s1, x))
        && (is_pruned(s0, x) == is_pruned(s1, x)) by {
        assert(s1.has(x) == s0.has(x));
    }
    assert forall|x: BlockId| #[trigger] s1.has(x) implies s0.has(x) by {
        assert(s1.has(x) == s0.has(x));
    }
    assert forall|i: int| 0 <= i < s1.entries@.len() implies ((#[trigger] s1.entries@[i]).1 matches BlockStatus::Active {
        a_block,
        ..
    } ==> a_block.links_wf(after.config.thread_count)) by {
        let x = s1.entries@[i].0;
        s1.lemma_entry(i);
        assert(s1.has(x) == s0.has(x));
        let j = s0.index_of(x);
        assert(s0.entries@[j].1 == s1.entries@[i].1);
    }
    assert forall|k: int, a: BlockId|
        0 <= k < after.max_cliques@.len() && #[trigger] after.max_cliques@[k].block_ids@.contains(
            a,
        ) implies is_active(s1, a) by {
        assert(is_active(s0, a));
        assert(s1.has(a) == s0.has(a));
    }
    assert forall|a: BlockId| #[trigger] after.gi_head.has(a) implies is_active(s1, a) && !is_final(
        s1,
        a,
    ) && ids_distinct(after.gi_head.value(a)@) by {
        assert(is_active(s0, a));
        assert(s1.has(a) == s0.has(a));
    }
    assert forall|a: BlockId, b: BlockId|
        after.gi_head.has(a) && #[trigger] after.gi_head.value(a)@.contains(b) implies is_active(
        s1,
        b,
    ) && !is_final(s1, b) by {
        assert(is_active(s0, b));
        assert(s1.has(b) == s0.has(b));
    }
    assert forall|x: BlockId, k: int|
        is_final(s1, x) && 0 <= k < active_block(s1, x).parents@.len() && s1.has(
            #[trigger] active_block(s1, x).parents@[k].0,
        ) implies is_final(s1, active_block(s1, x).parents@[k].0) || is_pruned(
        s1,
        active_block(s1, x).parents@[k].0,
    ) by {
        let p = active_block(s1, x).parents@[k].0;
        assert(x != id && p != id);
        assert(s1.has(x) == s0.has(x));
        assert(is_final(s0, x));
        assert(active_block(s0, x).parents@[k].0 == p);
        assert(s1.has(p) == s0.has(p));
        assert(s0.has(active_block(s0, x).parents@[k].0));
        assert(is_final(s0, p) || is_pruned(s0, p));
    }
    assert forall|x: BlockId, k: int|
        is_active(s1, x) && 0 <= k < active_block(s1, x).parents@.len() && s1.has(
            #[trigger] active_block(s1, x).parents@[k].0,
        ) implies is_active(s1, active_block(s1, x).parents@[k].0) || is_discarded(
        s1,
        active_block(s1, x).parents@[k].0,
    ) by {
        let p = active_block(s1, x).parents@[k].0;
        assert(x != id && p != id);
        assert(s1.has(x) == s0.has(x));
        assert(is_active(s0, x));
        assert(active_block(s0, x).parents@[k].0 == p);
        assert(s1.has(p) == s0.has(p));
        assert(s0.has(active_block(s0, x).parents@[k].0));
        assert(is_active(s0, p) || is_discarded(s0, p));
    }
    assert forall|x: BlockId| #[trigger] s1.has(x) implies {
        &&& is_discarded(s0, x) ==> s1.value(x) == s0.value(x)
        &&& is_final(s0, x) ==> is_final(s1, x) || is_pruned(s1, x)
    } by {
        assert(s1.has(x) == s0.has(x));
    }
}

impl ConsensusState {
    /// The number of discarded blocks that are remembered.
    pub fn discarded_count(&self) -> (r: usize)
        ensures
            r == count_discarded(self.block_statuses.entries@),
    {
        let mut count: usize = 0;
        let mut i: usize = 0;
        while i < self.block_statuses.entries.len()
            invariant
                i <= self.block_statuses.entries@.len(),
                count <= i,
                count == count_discarded(self.block_statuses.entries@.subrange(0, i as int)),
            decreases self.block_statuses.entries@.len() - i,
        {
            proof {
                let e = self.block_statuses.entries@;
                assert(e.subrange(0, i + 1).drop_last() =~= e.subrange(0, i as int));
            }
            match &self.block_statuses.entries[i].1 {
                BlockStatus::Discarded { .. } => {
                    count += 1;
                },
                _ => {},
            }
            i += 1;
        }
        proof {
            let e = self.block_statuses.entries@;
            assert(e.subrange(0, e.len() as int) =~= e);
        }
        count
    }

    /// The discarded block that was discarded first, if any block is discarded: its
    /// place among the entries.
    pub fn oldest_discarded(&self) -> (r: Option<usize>)
        ensures
            r is None <==> forall|i: int|
                0 <= i < self.block_statuses.entries@.len() ==> !((#[trigger] self.block_statuses.entries@[i]).1 is Discarded),
            r is Some ==> r.unwrap() < self.block_statuses.entries@.len()
                && self.block_statuses.entries@[r.unwrap() as int].1 is Discarded && forall|i: int|
                0 <= i < self.block_statuses.entries@.len() && (#[trigger] self.block_statuses.entries@[i]).1 is Discarded
                    ==> self.block_statuses.entries@[r.unwrap() as int].1->Discarded_sequence_number
                    <= self.block_statuses.entries@[i].1->Discarded_sequence_number,
    {
        let mut best: Option<(usize, u64)> = None;
        let mut i: usize = 0;
        while i < self.block_statuses.entries.len()
            invariant
                i <= self.block_statuses.entries@.len(),
                best is None <==> forall|j: int|
                    0 <= j < i ==> !((#[trigger] self.block_statuses.entries@[j]).1 is Discarded),
                best is Some ==> best.unwrap().0 < i
                    && self.block_statuses.entries@[best.unwrap().0 as int].1 is Discarded
                    && best.unwrap().1
                    == self.block_statuses.entries@[best.unwrap().0 as int].1->Discarded_sequence_number
                    && forall|j: int|
                    0 <= j < i && (#[trigger] self.block_statuses.entries@[j]).1 is Discarded
                        ==> best.unwrap().1
                        <= self.block_statuses.entries@[j].1->Discarded_sequence_number,
            decreases self.block_statuses.entries@.len() - i,
        {
            match &self.block_statuses.entries[i].1 {
                BlockStatus::Discarded { sequence_number, .. } => {
                    let better = match best {
                        None => true,
                        Some((_, seq)) => *sequence_number < seq,
                    };
                    if better {
                        best = Some((i, *sequence_number));
                    }
                },
                _ => {},
            }
            i += 1;
        }
        match best {
            Some((i, _)) => Some(i),
            None => None,
        }
    }

    /// Forgets the discarded blocks that were discarded first, until no more than
    /// `max_discarded_blocks` are remembered. Nothing else changes.
    pub fn evict_discarded(&mut self)
        requires
            old(self).wf(),
        ensures
            final(self).wf(),
            final(self).settles_only(old(self)),
            forgetting(*old(self), *final(self)),
            count_discarded(old(self).block_statuses.entries@) <= old(
                self,
            ).config.max_discarded_blocks ==> *final(self) == *old(self),
            *final(self) == (ConsensusState { block_statuses: final(self).block_statuses, ..*old(self) }),
            count_discarded(final(self).block_statuses.entries@) <= old(
                self,
            ).config.max_discarded_blocks || count_discarded(final(self).block_statuses.entries@)
                == count_discarded(old(self).block_statuses.entries@),
            count_discarded(final(self).block_statuses.entries@) <= count_discarded(
                old(self).block_statuses.entries@,
            ),
            count_discarded(old(self).block_statuses.entries@) > old(
                self,
            ).config.max_discarded_blocks ==> count_discarded(final(self).block_statuses.entries@)
                == old(self).config.max_discarded_blocks,
            forall|id: BlockId| #[trigger]
                final(self).block_statuses.has(id) ==> final(self).block_statuses.value(id) == old(
                    self,
                ).block_statuses.value(id),
            forall|id: BlockId|
                old(self).block_statuses.has(id) && !is_discarded(old(self).block_statuses, id)
                    ==> #[trigger] final(self).block_statuses.has(id),
    {
        let mut count = self.discarded_count();
        proof {
            lemma_settles_only_self(*self);
        }
        while count > self.config.max_discarded_blocks
            invariant
                self.wf(),
                self.settles_only(old(self)),
                *self == (ConsensusState { block_statuses: self.block_statuses, ..*old(self) }),
                count == count_discarded(self.block_statuses.entries@),
                count <= count_discarded(old(self).block_statuses.entries@),
                count_discarded(old(self).block_statuses.entries@) <= old(
                    self,
                ).config.max_discarded_blocks ==> *self == *old(self),
                count >= old(self).config.max_discarded_blocks || count == count_discarded(
                    old(self).block_statuses.entries@,
                ),
                forall|id: BlockId| #[trigger]
                    self.block_statuses.has(id) ==> self.block_statuses.value(id) == old(
                        self,
                    ).block_statuses.value(id),
                forall|id: BlockId|
                    old(self).block_statuses.has(id) && !is_discarded(old(self).block_statuses, id)
                        ==> #[trigger] self.block_statuses.has(id),
            decreases count,
        {
            let ghost prev = *self;
            match self.oldest_discarded() {
                None => {
                    proof {
                        lemma_no_discarded(self.block_statuses.entries@);
                    }
                    count = 0;
                },
                Some(i) => {
                    let id = self.block_statuses.entries[i].0;
                    proof {
                        self.block_statuses.lemma_entry(i as int);
                        lemma_count_discarded_remove(self.block_statuses.entries@, i as int);
                    }
                    self.block_statuses.entries.remove(i);
                    proof {
                        let s0 = prev.block_statuses;
                        let s1 = self.block_statuses;
                        assert(s1.entries@ == s0.entries@.remove(i as int));
                        crate::id_map::lemma_entry_taken(s0, s1, i as int);
                        lemma_discarded_forgotten(prev, *self, id);
                        lemma_settles_only_chain(*old(self), prev, *self);
                        assert forall|x: BlockId| #[trigger]
                            self.block_statuses.has(x) implies self.block_statuses.value(x) == old(
                            self,
                        ).block_statuses.value(x) by {
                            assert(x != id);
                            assert(s0.has(x));
                        }
                        assert forall|x: BlockId|
                            old(self).block_statuses.has(x) && !is_discarded(
                                old(self).block_statuses,
                                x,
                            ) implies #[trigger] self.block_statuses.has(x) by {
                            assert(s0.has(x));
                            assert(s0.value(x) == old(self).block_statuses.value(x));
                            assert(x != id);
                        }
                    }
                    count = count - 1;
                },
            }
        }
    }
}

/// Whether some active block that is not final has `id` as a parent.
pub open spec fn needed_by_living(statuses: IdMap<BlockStatus>, id: BlockId) -> bool {
    exists|i: int|
        0 <= i < statuses.entries@.len() && ((#[trigger] statuses.entries@[i]).1 matches BlockStatus::Active {
            a_block,
            ..
        } && !a_block.is_final && a_block.has_parent(id))
}

/// Whether `id` is the latest final block of a thread.
pub open spec fn is_latest_final_of(latest: Seq<(BlockId, u64)>, id: BlockId) -> bool {
    exists|t: int| 0 <= t < latest.len() && (#[trigger] latest[t]).0 == id
}

/// Whether the final block `id` is no longer kept: its period is more than
/// `force_keep_final_periods` below the period of the latest final block of its
/// thread, it is not the latest final block of a thread, and no active block that
/// is not final has it as a parent.
pub open spec fn is_out_of_keep(state: ConsensusState, id: BlockId) -> bool {
    let block = active_block(state.block_statuses, id);
    &&& is_final(state.block_statuses, id)
    &&& block.slot.thread < state.latest_final_blocks_periods@.len()
    &&& block.slot.period + state.config.force_keep_final_periods
        < state.latest_final_blocks_periods@[block.slot.thread as int].1
    &&& !is_latest_final_of(state.latest_final_blocks_periods@, id)
    &&& !needed_by_living(state.block_statuses, id)
}

/// Whether `after` is the status of a block that was active with the status
/// `before` and was discarded for having been final, with its slot and creator.
pub open spec fn pruned_from(before: BlockStatus, after: BlockStatus) -> bool {
    before matches BlockStatus::Active { a_block, .. } && (
    after matches BlockStatus::Discarded { reason, slot, creator, .. } && reason
        == DiscardReason::Final && slot == a_block.slot && creator == a_block.creator_address)
}

/// Whether `b` is one of the first `n` blocks of `state`, and a final block that is
/// no longer kept.
pub open spec fn out_of_keep_among_first(state: ConsensusState, n: int, b: BlockId) -> bool {
    is_out_of_keep(state, b) && exists|j: int|
        0 <= j < n && (#[trigger] state.block_statuses.entries@[j]).0 == b
}

/// Where two maps have the same keys in the same order, and the same values but
/// for the key `id`, their entries are the same but for that of `id`.
pub proof fn lemma_entries_but_one(before: IdMap<BlockStatus>, after: IdMap<BlockStatus>, id: BlockId)
    requires
        before.wf(),
        after.wf(),
        after.keys() == before.keys(),
        same_but_one(before, after, id),
    ensures
        after.entries@.len() == before.entries@.len(),
        forall|j: int|
            0 <= j < before.entries@.len() ==> (#[trigger] after.entries@[j]).0
                == before.entries@[j].0,
        forall|j: int|
            0 <= j < before.entries@.len() && before.entries@[j].0 != id
                ==> #[trigger] after.entries@[j] == before.entries@[j],
{
    assert(after.keys().len() == after.entries@.len());
    assert(before.keys().len() == before.entries@.len());
    assert forall|j: int| 0 <= j < before.entries@.len() implies (#[trigger] after.entries@[j]).0
        == before.entries@[j].0 by {
        assert(after.keys()[j] == after.entries@[j].0);
        assert(before.keys()[j] == before.entries@[j].0);
    }
    assert forall|j: int|
        0 <= j < before.entries@.len() && before.entries@[j].0
            != id implies #[trigger] after.entries@[j] == before.entries@[j] by {
        let x = before.entries@[j].0;
        assert(after.keys()[j] == before.keys()[j]);
        before.lemma_entry(j);
        after.lemma_entry(j);
        assert(after.has(x) == before.has(x));
    }
}

/// Whether `after` is `before` once the discarded blocks that are more than
/// `max_discarded_blocks` were forgotten: nothing but the statuses has changed;
/// where no more than `max_discarded_blocks` were remembered nothing has changed
/// at all, and otherwise exactly that many are remembered; every block that is
/// still known has the status it had; and no block is forgotten but a discarded
/// one.
pub open spec fn forgetting(before: ConsensusState, after: ConsensusState) -> bool {
    &&& after == (ConsensusState { block_statuses: after.block_statuses, ..before })
    &&& count_discarded(before.block_statuses.entries@) <= before.config.max_discarded_blocks
        ==> after == before
    &&& count_discarded(before.block_statuses.entries@) > before.config.max_discarded_blocks
        ==> count_discarded(after.block_statuses.entries@) == before.config.max_discarded_blocks
    &&& forall|id: BlockId| #[trigger]
        after.block_statuses.has(id) ==> before.block_statuses.has(id)
            && after.block_statuses.value(id) == before.block_statuses.value(id)
    &&& forall|id: BlockId|
        before.block_statuses.has(id) && !is_discarded(before.block_statuses, id)
            ==> #[trigger] after.block_statuses.has(id)
}

/// Where no entry is a discarded block, none is counted.
pub proof fn lemma_no_discarded(entries: Seq<(BlockId, BlockStatus)>)
    requires
        forall|i: int| 0 <= i < entries.len() ==> !((#[trigger] entries[i]).1 is Discarded),
    ensures
        count_discarded(entries) == 0,
    decreases entries.len(),
{
    if entries.len() > 0 {
        assert(!(entries[entries.len() - 1].1 is Discarded));
        lemma_no_discarded(entries.drop_last());
    }
}

impl ConsensusState {
    /// Whether `id` is the latest final block of a thread.
    pub fn is_latest_final(&self, id: &BlockId) -> (r: bool)
        ensures
            r == is_latest_final_of(self.latest_final_blocks_periods@, *id),
    {
        let mut t: usize = 0;
        while t < self.latest_final_blocks_periods.len()
            invariant
                t <= self.latest_final_blocks_periods@.len(),
                forall|k: int| 0 <= k < t ==> (#[trigger] self.latest_final_blocks_periods@[k]).0 != *id,
            decreases self.latest_final_blocks_periods@.len() - t,
        {
            if self.latest_final_blocks_periods[t].0 == *id {
                return true;
            }
            t += 1;
        }
        false
    }

    /// Discards, as final, the final blocks that are no longer kept: those whose
    /// period is more than `force_keep_final_periods` below the period of the latest
    /// final block of their thread, that are not the latest final block of a thread,
    /// and that no active block that is not final has as a parent. They leave the
    /// cliques. Every other block keeps its status, and the blocks keep their order.
    pub fn prune_old_finals(&mut self)
        requires
            old(self).wf(),
        ensures
            final(self).wf(),
            final(self).settles_only(old(self)),
            final(self).latest_final_blocks_periods == old(self).latest_final_blocks_periods,
            final(self).new_final_blocks == old(self).new_final_blocks,
            final(self).attack_attempts == old(self).attack_attempts,
            forall|id: BlockId| #[trigger]
                final(self).block_statuses.has(id) ==> old(self).block_statuses.has(id) && (final(self).block_statuses.value(id) == old(self).block_statuses.value(id) || (is_final(
                    old(self).block_statuses,
                    id,
                ) && is_pruned(final(self).block_statuses, id))),
            final(self).block_statuses.keys() == old(self).block_statuses.keys(),
            forall|id: BlockId|
                #![trigger final(self).block_statuses.value(id)]
                #![trigger old(self).block_statuses.has(id)]
                old(self).block_statuses.has(id) ==> if is_out_of_keep(*old(self), id) {
                    pruned_from(
                        old(self).block_statuses.value(id),
                        final(self).block_statuses.value(id),
                    )
                } else {
                    final(self).block_statuses.value(id) == old(self).block_statuses.value(id)
                },
            same_record(final(self).gi_head, old(self).gi_head),
            final(self).best_parents == old(self).best_parents,
            final(self).max_cliques@.len() == old(self).max_cliques@.len(),
            forall|k: int, b: BlockId|
                #![trigger final(self).max_cliques@[k].block_ids@.contains(b)]
                0 <= k < old(self).max_cliques@.len() ==> (final(self).max_cliques@[k].block_ids@.contains(b) <==> old(
                    self,
                ).max_cliques@[k].block_ids@.contains(b) && !is_out_of_keep(*old(self), b)),
    {
        proof {
            lemma_settles_only_self(*self);
        }
        let n = self.block_statuses.entries.len();
        let mut i: usize = 0;
        while i < n
            invariant
                i <= n,
                n == self.block_statuses.entries@.len(),
                n == old(self).block_statuses.entries@.len(),
                old(self).wf(),
                self.wf(),
                self.settles_only(old(self)),
                self.config == old(self).config,
                self.latest_final_blocks_periods == old(self).latest_final_blocks_periods,
                self.new_final_blocks == old(self).new_final_blocks,
                self.attack_attempts == old(self).attack_attempts,
                forall|id: BlockId| #[trigger]
                    self.block_statuses.has(id) ==> old(self).block_statuses.has(id) && (
                    self.block_statuses.value(id) == old(self).block_statuses.value(id) || (
                    is_final(old(self).block_statuses, id) && is_pruned(self.block_statuses, id))),
                self.block_statuses.keys() == old(self).block_statuses.keys(),
                forall|j: int|
                    i <= j < n ==> #[trigger] self.block_statuses.entries@[j] == old(
                        self,
                    ).block_statuses.entries@[j],
                forall|j: int|
                    0 <= j < i ==> if is_out_of_keep(
                        *old(self),
                        (#[trigger] old(self).block_statuses.entries@[j]).0,
                    ) {
                        pruned_from(
                            old(self).block_statuses.entries@[j].1,
                            self.block_statuses.entries@[j].1,
                        )
                    } else {
                        self.block_statuses.entries@[j] == old(self).block_statuses.entries@[j]
                    },
                forall|x: BlockId|
                    needed_by_living(self.block_statuses, x) == #[trigger] needed_by_living(
                        old(self).block_statuses,
                        x,
                    ),
                same_record(self.gi_head, old(self).gi_head),
                self.best_parents == old(self).best_parents,
                self.max_cliques@.len() == old(self).max_cliques@.len(),
                forall|k: int, b: BlockId|
                    #![trigger self.max_cliques@[k].block_ids@.contains(b)]
                    0 <= k < old(self).max_cliques@.len() ==> (
                    self.max_cliques@[k].block_ids@.contains(b) <==> old(
                        self,
                    ).max_cliques@[k].block_ids@.contains(b) && !out_of_keep_among_first(
                        *old(self),
                        i as int,
                        b,
                    )),
            decreases n - i,
        {
            let id = self.block_statuses.entries[i].0;
            let ghost prev = *self;
            proof {
                self.block_statuses.lemma_entry(i as int);
                old(self).block_statuses.lemma_entry(i as int);
                assert(prev.block_statuses.entries@[i as int] == old(
                    self,
                ).block_statuses.entries@[i as int]);
            }
            let old_enough: bool = match &self.block_statuses.entries[i].1 {
                BlockStatus::Active { a_block, .. } => {
                    let thread = a_block.slot.thread as usize;
                    a_block.is_final && thread < self.latest_final_blocks_periods.len() && (
                    match a_block.slot.period.checked_add(self.config.force_keep_final_periods) {
                        Some(limit) => limit < self.latest_final_blocks_periods[thread].1,
                        None => false,
                    })
                },
                _ => false,
            };
            let mut pruned: bool = false;
            if old_enough {
                if !self.is_latest_final(&id) && !self.is_needed_by_living(&id) {
                    pruned = true;
                    self.discard_active(id, false);
                    proof {
                        lemma_settles_only_chain(*old(self), prev, *self);
                        assert(self.block_statuses.entries@.len() == n) by {
                            assert(self.block_statuses.keys().len() == prev.block_statuses.keys().len());
                        }
                        assert forall|x: BlockId| #[trigger]
                            self.block_statuses.has(x) implies old(self).block_statuses.has(x) && (
                        self.block_statuses.value(x) == old(self).block_statuses.value(x) || (
                        is_final(old(self).block_statuses, x) && is_pruned(
                            self.block_statuses,
                            x,
                        ))) by {
                            if x != id {
                                assert(self.block_statuses.has(x) == prev.block_statuses.has(x));
                            } else {
                                assert(prev.block_statuses.has(x));
                                assert(prev.block_statuses.value(x) == old(
                                    self,
                                ).block_statuses.value(x) || is_pruned(prev.block_statuses, x));
                            }
                        }
                    }
                }
            }
            proof {
                assert(pruned == is_out_of_keep(*old(self), id));
                if pruned {
                    assert(is_final(prev.block_statuses, id));
                    assert(!prev.gi_head.has(id));
                    assert forall|x: BlockId| #[trigger]
                        self.gi_head.has(x) == prev.gi_head.has(x) by {}
                    assert forall|x: BlockId, y: BlockId|
                        #![trigger self.gi_head.value(x)@.contains(y)]
                        self.gi_head.has(x) implies (self.gi_head.value(x)@.contains(y)
                        <==> prev.gi_head.value(x)@.contains(y)) by {
                        if prev.gi_head.value(x)@.contains(y) {
                            assert(!is_final(prev.block_statuses, y));
                            assert(y != id);
                        }
                    }
                    assert(same_record(self.gi_head, prev.gi_head));
                    assert forall|x: BlockId| #[trigger]
                        self.gi_head.has(x) == old(self).gi_head.has(x) by {
                        assert(self.gi_head.has(x) == prev.gi_head.has(x));
                        assert(prev.gi_head.has(x) == old(self).gi_head.has(x));
                    }
                    assert forall|x: BlockId, y: BlockId|
                        #![trigger self.gi_head.value(x)@.contains(y)]
                        self.gi_head.has(x) implies (self.gi_head.value(x)@.contains(y) <==> old(
                        self,
                    ).gi_head.value(x)@.contains(y)) by {
                        assert(prev.gi_head.has(x));
                        assert(self.gi_head.value(x)@.contains(y)
                            <==> prev.gi_head.value(x)@.contains(y));
                        assert(prev.gi_head.value(x)@.contains(y) <==> old(
                            self,
                        ).gi_head.value(x)@.contains(y));
                    }
                    lemma_entries_but_one(prev.block_statuses, self.block_statuses, id);
                    self.block_statuses.lemma_entry(i as int);
                    assert forall|j: int| 0 <= j < n && j != i implies prev.block_statuses.entries@[j].0
                        != id by {
                        if j < i {
                            assert(prev.block_statuses.entries@[j].0
                                != prev.block_statuses.entries@[i as int].0);
                        } else {
                            assert(prev.block_statuses.entries@[i as int].0
                                != prev.block_statuses.entries@[j].0);
                        }
                    }
                    assert(pruned_from(
                        old(self).block_statuses.entries@[i as int].1,
                        self.block_statuses.entries@[i as int].1,
                    ));
                    // which blocks are needed does not depend on a block that was final
                    assert forall|x: BlockId|
                        needed_by_living(self.block_statuses, x) == #[trigger] needed_by_living(
                            old(self).block_statuses,
                            x,
                        ) by {
                        if needed_by_living(self.block_statuses, x) {
                            let j = choose|j: int|
                                0 <= j < self.block_statuses.entries@.len() && ((
                                #[trigger] self.block_statuses.entries@[j]).1 matches BlockStatus::Active {
                                    a_block,
                                    ..
                                } && !a_block.is_final && a_block.has_parent(x));
                            assert(j != i);
                            assert(self.block_statuses.entries@[j]
                                == prev.block_statuses.entries@[j]);
                            assert(needed_by_living(prev.block_statuses, x));
                        }
                        if needed_by_living(prev.block_statuses, x) {
                            let j = choose|j: int|
                                0 <= j < prev.block_statuses.entries@.len() && ((
                                #[trigger] prev.block_statuses.entries@[j]).1 matches BlockStatus::Active {
                                    a_block,
                                    ..
                                } && !a_block.is_final && a_block.has_parent(x));
                            assert(j != i);
                            assert(self.block_statuses.entries@[j]
                                == prev.block_statuses.entries@[j]);
                            assert(needed_by_living(self.block_statuses, x));
                        }
                    }
                    assert forall|j: int| 0 <= j < i implies if is_out_of_keep(
                        *old(self),
                        (#[trigger] old(self).block_statuses.entries@[j]).0,
                    ) {
                        pruned_from(
                            old(self).block_statuses.entries@[j].1,
                            self.block_statuses.entries@[j].1,
                        )
                    } else {
                        self.block_statuses.entries@[j] == old(self).block_statuses.entries@[j]
                    } by {
                        assert(self.block_statuses.entries@[j] == prev.block_statuses.entries@[j]);
                    }
                }
                assert forall|k: int, b: BlockId|
                    #![trigger self.max_cliques@[k].block_ids@.contains(b)]
                    0 <= k < old(self).max_cliques@.len() implies (
                self.max_cliques@[k].block_ids@.contains(b) <==> old(
                    self,
                ).max_cliques@[k].block_ids@.contains(b) && !out_of_keep_among_first(
                    *old(self),
                    i + 1,
                    b,
                )) by {
                    assert(prev.max_cliques@[k].block_ids@.contains(b) <==> old(
                        self,
                    ).max_cliques@[k].block_ids@.contains(b) && !out_of_keep_among_first(
                        *old(self),
                        i as int,
                        b,
                    ));
                    if pruned {
                        assert(self.max_cliques@[k].block_ids@.contains(b)
                            <==> prev.max_cliques@[k].block_ids@.contains(b) && b != id);
                    }
                    if out_of_keep_among_first(*old(self), i as int, b) {
                        let j = choose|j: int|
                            0 <= j < i && (#[trigger] old(self).block_statuses.entries@[j]).0 == b;
                        assert(0 <= j < i + 1);
                    }
                    if out_of_keep_among_first(*old(self), i + 1, b) {
                        let j = choose|j: int|
                            0 <= j < i + 1 && (#[trigger] old(self).block_statuses.entries@[j]).0
                                == b;
                        if j < i {
                            assert(out_of_keep_among_first(*old(self), i as int, b));
                        } else {
                            assert(b == id);
                        }
                    }
                    if b == id && pruned {
                        assert(old(self).block_statuses.entries@[i as int].0 == b);
                        assert(out_of_keep_among_first(*old(self), i + 1, b));
                    }
                }
            }
            i += 1;
        }
        proof {
            assert forall|id: BlockId|
                #![trigger self.block_statuses.value(id)]
                #![trigger old(self).block_statuses.has(id)]
                old(self).block_statuses.has(id) implies if is_out_of_keep(*old(self), id) {
                pruned_from(old(self).block_statuses.value(id), self.block_statuses.value(id))
            } else {
                self.block_statuses.value(id) == old(self).block_statuses.value(id)
            } by {
                let j = old(self).block_statuses.index_of(id);
                assert(old(self).block_statuses.entries@[j].0 == id);
                assert(self.block_statuses.keys()[j] == old(self).block_statuses.keys()[j]);
                self.block_statuses.lemma_entry(j);
                old(self).block_statuses.lemma_entry(j);
            }
            assert forall|k: int, b: BlockId|
                #![trigger self.max_cliques@[k].block_ids@.contains(b)]
                0 <= k < old(self).max_cliques@.len() implies (
            self.max_cliques@[k].block_ids@.contains(b) <==> old(
                self,
            ).max_cliques@[k].block_ids@.contains(b) && !is_out_of_keep(*old(self), b)) by {
                if is_out_of_keep(*old(self), b) {
                    let j = old(self).block_statuses.index_of(b);
                    assert(old(self).block_statuses.entries@[j].0 == b);
                    assert(out_of_keep_among_first(*old(self), n as int, b));
                }
            }
        }
    }

    /// Brings the best parents up to date: for each thread, the block of the
    /// blockclique in that thread with the highest period, where it is above the
    /// period of the latest final block of the thread, and that latest final block
    /// otherwise. Of two blocks with the highest period, the one whose identifier
    /// comes first is taken.
    pub fn update_best_parents(&mut self)
        requires
            old(self).wf(),
        ensures
            final(self).wf(),
            final(self).settles_only(old(self)),
            *final(self) == (ConsensusState { best_parents: final(self).best_parents, ..*old(self) }),
            final(self).best_parents@.len() == old(self).latest_final_blocks_periods@.len(),
            best_parents_current(*final(self)),
            forall|t: int|
                0 <= t < final(self).best_parents@.len() ==> (#[trigger] final(self).best_parents@[t]).1
                    >= old(self).latest_final_blocks_periods@[t].1,
            exists|b: int|
                0 <= b < old(self).max_cliques@.len() && (#[trigger] old(
                    self,
                ).max_cliques@[b]).is_blockclique && forall|t: int|
                    0 <= t < final(self).best_parents@.len() ==> is_best_parent(
                        old(self).block_statuses,
                        old(self).max_cliques@[b].block_ids@,
                        old(self).max_cliques@[b].block_ids@.len() as int,
                        t,
                        old(self).latest_final_blocks_periods@[t],
                        #[trigger] final(self).best_parents@[t],
                    ),
    {
        let b = self.blockclique_index();
        let mut best = crate::bootstrap::clone_parents(&self.latest_final_blocks_periods);
        let ghost ids = self.max_cliques@[b as int].block_ids@;
        let ghost s0 = self.block_statuses;
        let ghost latest = self.latest_final_blocks_periods@;
        let mut i: usize = 0;
        while i < self.max_cliques[b].block_ids.len()
            invariant
                *self == *old(self),
                self.wf(),
                b < self.max_cliques@.len(),
                ids == self.max_cliques@[b as int].block_ids@,
                s0 == self.block_statuses,
                latest == self.latest_final_blocks_periods@,
                i <= self.max_cliques@[b as int].block_ids@.len(),
                best@.len() == self.latest_final_blocks_periods@.len(),
                forall|t: int|
                    0 <= t < best@.len() ==> (#[trigger] best@[t]).1
                        >= self.latest_final_blocks_periods@[t].1,
                forall|t: int|
                    0 <= t < best@.len() ==> is_best_parent(
                        s0,
                        ids,
                        i as int,
                        t,
                        latest[t],
                        #[trigger] best@[t],
                    ),
            decreases self.max_cliques@[b as int].block_ids@.len() - i,
        {
            let id = self.max_cliques[b].block_ids[i];
            let ghost best_before = best@;
            match self.block_statuses.get(&id) {
                Some(BlockStatus::Active { a_block, .. }) => {
                    let thread = a_block.slot.thread as usize;
                    if thread < best.len() {
                        let better = a_block.slot.period > best[thread].1 || (a_block.slot.period
                            == best[thread].1 && id.is_before(&best[thread].0)
                            && a_block.slot.period > self.latest_final_blocks_periods[thread].1);
                        if better {
                            best[thread] = (id, a_block.slot.period);
                        }
                    }
                },
                _ => {},
            }
            proof {
                assert(ids[i as int] == id);
                assert forall|t: int| 0 <= t < best@.len() implies is_best_parent(
                    s0,
                    ids,
                    i + 1,
                    t,
                    latest[t],
                    #[trigger] best@[t],
                ) by {
                    let was = best_before[t];
                    let now = best@[t];
                    assert(is_best_parent(s0, ids, i as int, t, latest[t], was));
                    if was != latest[t] {
                        let k = choose|k: int|
                            0 <= k < i && is_parent_candidate(
                                s0,
                                #[trigger] ids[k],
                                t,
                                latest[t].1,
                            ) && was == (ids[k], active_block(s0, ids[k]).slot.period);
                        assert(0 <= k < i + 1);
                    }
                    assert forall|k: int|
                        0 <= k < i + 1 && is_parent_candidate(
                            s0,
                            #[trigger] ids[k],
                            t,
                            latest[t].1,
                        ) implies !parent_beats(
                        (ids[k], active_block(s0, ids[k]).slot.period),
                        now,
                    ) by {
                        let c = (ids[k], active_block(s0, ids[k]).slot.period);
                        if k < i {
                            assert(!parent_beats(c, was));
                            if now != was {
                                if crate::bytes::lex_lt(c.0@, now.0@) && c.1 == now.1 {
                                    if was.1 == now.1 {
                                        crate::bytes::lemma_lex_lt_transitive(
                                            c.0@,
                                            now.0@,
                                            was.0@,
                                        );
                                    }
                                }
                            }
                        } else {
                            crate::bytes::lemma_lex_lt_irreflexive(id@);
                        }
                    }
                }
            }
            i += 1;
        }
        self.best_parents = best;
        proof {
            assert forall|id: BlockId| #[trigger] self.block_statuses.has(id) implies {
                &&& is_discarded(old(self).block_statuses, id) ==> self.block_statuses.value(id) == old(self).block_statuses.value(id)
                &&& is_final(old(self).block_statuses, id) ==> is_final(self.block_statuses, id)
                    || is_pruned(self.block_statuses, id)
            } by {}
        }
    }

    /// Settles finality where no block becomes final: the final blocks that are no
    /// longer kept are discarded, and the cliques and the best parents are brought
    /// up to date.
    fn settle_nothing(&mut self) -> (r: Result<Vec<BlockId>, GraphError>)
        requires
            old(self).wf(),
            no_final_candidate(*old(self)),
        ensures
            final(self).wf(),
            final(self).settles_only(old(self)),
            final(self).block_statuses.keys() == old(self).block_statuses.keys(),
            r is Err ==> r == Err::<Vec<BlockId>, _>(GraphError::FitnessOverflow),
            r is Err ==> overflows_since(*old(self)),
            r is Err ==> exists|pruned: ConsensusState| #[trigger]
                pruned_only(*old(self), pruned) && kept_clique_overflows(pruned),
            r is Ok ==> r.unwrap()@.len() == 0,
            r is Ok ==> best_parents_current(*final(self)),
            r is Ok ==> nothing_settled(*old(self), *final(self)),
    {
        self.prune_old_finals();
        let ghost s3 = *self;
        let refreshed = self.refresh_cliques();
        let ghost s4 = *self;
        self.update_best_parents();
        proof {
            lemma_settles_only_chain(*old(self), s3, s4);
            lemma_settles_only_chain(*old(self), s4, *self);
            assert(cliques_pruned(*old(self), s3.max_cliques@));
            lemma_pruned_only(*old(self), s3);
        }
        match refreshed {
            Err(e) => {
                proof {
                    assert(s3.follows_closely(old(self)));
                    assert(overflows_at(s3));
                }
                Err(e)
            },
            Ok(()) => {
                proof {
                    let sets = choose|sets: Seq<Vec<BlockId>>| #[trigger]
                        cliques_kept(sets, s3.max_cliques@) && cliques_of(
                            s4.max_cliques@,
                            sets,
                            s4.block_statuses,
                        );
                    lemma_nothing_settled(*old(self), s3, s4, *self, sets);
                }
                Ok(Vec::new())
            },
        }
    }

    /// Makes final the candidates for finality, each once all its known parents are
    /// final. Returns the blocks that became final, and the blocks that they were
    /// recorded as incompatible with.
    fn mark_candidates_final(&mut self, candidates: &Vec<BlockId>) -> (r: (
        Vec<BlockId>,
        Vec<BlockId>,
    ))
        requires
            old(self).wf(),
            forall|x: BlockId|
                #![trigger candidates@.contains(x)]
                candidates@.contains(x) <==> is_final_candidate(*old(self), x),
        ensures
            final(self).wf(),
            final(self).settles_only(old(self)),
            final(self).block_statuses.keys() == old(self).block_statuses.keys(),
            ids_distinct(r.1@),
            forall|x: BlockId|
                #![trigger r.0@.contains(x)]
                r.0@.contains(x) ==> candidates@.contains(x) && is_final(
                    final(self).block_statuses,
                    x,
                ),
            forall|z: BlockId|
                #![trigger final(self).block_statuses.value(z)]
                #![trigger old(self).block_statuses.has(z)]
                old(self).block_statuses.has(z) && !r.0@.contains(z) ==> final(self).block_statuses.has(z)
                    && final(self).block_statuses.value(z) == old(self).block_statuses.value(z),
            forall|x: BlockId|
                #![trigger r.0@.contains(x)]
                is_final_candidate(*old(self), x) && parents_are_final(old(self).block_statuses, x)
                    ==> r.0@.contains(x),
            forall|x: BlockId, y: BlockId|
                #![trigger old(self).gi_head.value(x)@.contains(y)]
                r.0@.contains(x) && old(self).gi_head.has(x) && old(self).gi_head.value(
                    x,
                )@.contains(y) ==> r.1@.contains(y),
    {
        let n = candidates.len();
        proof {
            lemma_settles_only_self(*self);
        }
        let mut finals: Vec<BlockId> = Vec::new();
        let mut stale: Vec<BlockId> = Vec::new();
        let mut pass: usize = 0;
        while pass < n
            invariant
                pass <= n,
                n == candidates@.len(),
                self.wf(),
                self.settles_only(old(self)),
                self.block_statuses.keys() == old(self).block_statuses.keys(),
                ids_distinct(stale@),
                old(self).wf(),
                forall|a: BlockId|
                    #![trigger self.gi_head.has(a)]
                    old(self).gi_head.has(a) && !finals@.contains(a) ==> self.gi_head.has(a),
                forall|a: BlockId, b: BlockId|
                    #![trigger old(self).gi_head.value(a)@.contains(b)]
                    self.gi_head.has(a) && old(self).gi_head.has(a) && old(self).gi_head.value(
                        a,
                    )@.contains(b) && !finals@.contains(b) ==> self.gi_head.value(a)@.contains(b),
                forall|x: BlockId, y: BlockId|
                    #![trigger old(self).gi_head.value(x)@.contains(y)]
                    finals@.contains(x) && old(self).gi_head.has(x) && old(self).gi_head.value(
                        x,
                    )@.contains(y) ==> stale@.contains(y),
                forall|x: BlockId|
                    #![trigger candidates@.contains(x)]
                    candidates@.contains(x) <==> is_final_candidate(*old(self), x),
                forall|x: BlockId|
                    #![trigger finals@.contains(x)]
                    finals@.contains(x) ==> candidates@.contains(x) && is_final(
                        self.block_statuses,
                        x,
                    ),
                forall|z: BlockId|
                    #![trigger self.block_statuses.value(z)]
                    #![trigger old(self).block_statuses.has(z)]
                    old(self).block_statuses.has(z) && !finals@.contains(z)
                        ==> self.block_statuses.has(z) && self.block_statuses.value(z) == old(
                        self,
                    ).block_statuses.value(z),
                pass > 0 ==> forall|m: int|
                    0 <= m < n && parents_are_final(
                        old(self).block_statuses,
                        #[trigger] candidates@[m],
                    ) ==> finals@.contains(candidates@[m]),
            decreases n - pass,
        {
            let mut i: usize = 0;
            while i < n
                invariant
                    i <= n,
                    n == candidates@.len(),
                    self.wf(),
                    self.settles_only(old(self)),
                    self.block_statuses.keys() == old(self).block_statuses.keys(),
                    ids_distinct(stale@),
                    old(self).wf(),
                    forall|a: BlockId|
                        #![trigger self.gi_head.has(a)]
                        old(self).gi_head.has(a) && !finals@.contains(a) ==> self.gi_head.has(a),
                    forall|a: BlockId, b: BlockId|
                        #![trigger old(self).gi_head.value(a)@.contains(b)]
                        self.gi_head.has(a) && old(self).gi_head.has(a) && old(self).gi_head.value(
                            a,
                        )@.contains(b) && !finals@.contains(b) ==> self.gi_head.value(a)@.contains(b),
                    forall|x: BlockId, y: BlockId|
                        #![trigger old(self).gi_head.value(x)@.contains(y)]
                        finals@.contains(x) && old(self).gi_head.has(x) && old(self).gi_head.value(
                            x,
                        )@.contains(y) ==> stale@.contains(y),
                    forall|x: BlockId|
                        #![trigger candidates@.contains(x)]
                        candidates@.contains(x) <==> is_final_candidate(*old(self), x),
                    forall|x: BlockId|
                        #![trigger finals@.contains(x)]
                        finals@.contains(x) ==> candidates@.contains(x) && is_final(
                            self.block_statuses,
                            x,
                        ),
                    forall|z: BlockId|
                        #![trigger self.block_statuses.value(z)]
                        #![trigger old(self).block_statuses.has(z)]
                        old(self).block_statuses.has(z) && !finals@.contains(z)
                            ==> self.block_statuses.has(z) && self.block_statuses.value(z) == old(
                            self,
                        ).block_statuses.value(z),
                    pass > 0 ==> forall|m: int|
                        0 <= m < n && parents_are_final(
                            old(self).block_statuses,
                            #[trigger] candidates@[m],
                        ) ==> finals@.contains(candidates@[m]),
                    forall|m: int|
                        0 <= m < i && parents_are_final(
                            old(self).block_statuses,
                            #[trigger] candidates@[m],
                        ) ==> finals@.contains(candidates@[m]),
                decreases n - i,
            {
                let x = candidates[i];
                let ghost at_start = *self;
                let ghost finals_at_start = finals@;
                proof {
                    assert(candidates@.contains(x));
                    assert(is_final_candidate(*old(self), x));
                    if !finals@.contains(x) {
                        assert(self.block_statuses.value(x) == old(self).block_statuses.value(x));
                        if parents_are_final(old(self).block_statuses, x) {
                            assert forall|k: int|
                                0 <= k < active_block(self.block_statuses, x).parents@.len()
                                    && self.block_statuses.has(
                                    #[trigger] active_block(self.block_statuses, x).parents@[k].0,
                                ) implies is_final(
                                self.block_statuses,
                                active_block(self.block_statuses, x).parents@[k].0,
                            ) || is_pruned(
                                self.block_statuses,
                                active_block(self.block_statuses, x).parents@[k].0,
                            ) by {
                                let p = active_block(self.block_statuses, x).parents@[k].0;
                                assert(p == active_block(old(self).block_statuses, x).parents@[k].0);
                                assert(old(self).block_statuses.has(p));
                            }
                            assert(parents_are_final(self.block_statuses, x));
                        }
                    }
                }
                let waiting = match self.block_statuses.get(&x) {
                    Some(BlockStatus::Active { a_block, .. }) => !a_block.is_final,
                    _ => false,
                };
                if waiting {
                    if self.parents_final_now(&x) {
                        let ghost prev = *self;
                        let ghost finals_before = finals@;
                        let ghost stale_before = stale@;
                        let incomp = self.mark_final(x);
                        finals.push(x);
                        let mut k: usize = 0;
                        while k < incomp.len()
                            invariant
                                k <= incomp@.len(),
                                ids_distinct(stale@),
                                forall|y: BlockId|
                                    stale_before.contains(y) ==> #[trigger] stale@.contains(y),
                                forall|m: int|
                                    0 <= m < k ==> stale@.contains(#[trigger] incomp@[m]),
                            decreases incomp@.len() - k,
                        {
                            let ghost was = stale@;
                            id_list_insert(&mut stale, incomp[k]);
                            proof {
                                assert forall|y: BlockId|
                                    was.contains(y) || y == incomp@[k as int] implies stale@.contains(
                                    y,
                                ) by {
                                    assert(id_set(stale@).contains(y) == id_set(was).insert(
                                        incomp@[k as int],
                                    ).contains(y));
                                    assert(id_set(stale@).contains(y) == stale@.contains(y));
                                    assert(id_set(was).contains(y) == was.contains(y));
                                }
                                assert forall|m: int| 0 <= m < k + 1 implies stale@.contains(
                                    #[trigger] incomp@[m],
                                ) by {
                                    if m < k {
                                        assert(was.contains(incomp@[m]));
                                    }
                                }
                                assert forall|y: BlockId|
                                    stale_before.contains(y) implies #[trigger] stale@.contains(
                                    y,
                                ) by {
                                    assert(was.contains(y));
                                }
                            }
                            k += 1;
                        }
                        proof {
                            lemma_settles_only_chain(*old(self), prev, *self);
                            assert(finals@[finals@.len() - 1] == x);
                            // the record of incompatibilities, but for the final blocks
                            assert(!finals_before.contains(x)) by {
                                if finals_before.contains(x) {
                                    assert(is_final(prev.block_statuses, x));
                                }
                            }
                            assert forall|a: BlockId|
                                #![trigger self.gi_head.has(a)]
                                old(self).gi_head.has(a) && !finals@.contains(
                                    a,
                                ) implies self.gi_head.has(a) by {
                                if finals_before.contains(a) {
                                    let m = choose|m: int|
                                        0 <= m < finals_before.len() && finals_before[m] == a;
                                    assert(finals@[m] == a);
                                }
                                assert(a != x);
                                assert(prev.gi_head.has(a));
                                assert(self.gi_head.has(a) == prev.gi_head.has(a));
                            }
                            assert forall|a: BlockId, b: BlockId|
                                #![trigger old(self).gi_head.value(a)@.contains(b)]
                                self.gi_head.has(a) && old(self).gi_head.has(a) && old(
                                    self,
                                ).gi_head.value(a)@.contains(b) && !finals@.contains(
                                    b,
                                ) implies self.gi_head.value(a)@.contains(b) by {
                                if finals_before.contains(b) {
                                    let m = choose|m: int|
                                        0 <= m < finals_before.len() && finals_before[m] == b;
                                    assert(finals@[m] == b);
                                }
                                assert(b != x);
                                assert(a != x);
                                assert(self.gi_head.has(a) == prev.gi_head.has(a));
                                assert(prev.gi_head.value(a)@.contains(b));
                                assert(self.gi_head.value(a)@.contains(b)
                                    <==> prev.gi_head.value(a)@.contains(b) && b != x);
                            }
                            assert forall|z: BlockId, y: BlockId|
                                #![trigger old(self).gi_head.value(z)@.contains(y)]
                                finals@.contains(z) && old(self).gi_head.has(z) && old(
                                    self,
                                ).gi_head.value(z)@.contains(y) implies stale@.contains(y) by {
                                let m = choose|m: int| 0 <= m < finals@.len() && finals@[m] == z;
                                if m < finals_before.len() {
                                    assert(finals_before[m] == z);
                                    assert(finals_before.contains(z));
                                    assert(stale_before.contains(y));
                                } else {
                                    assert(z == x);
                                    // a block that is incompatible with a candidate is none
                                    if finals_before.contains(y) {
                                        assert(candidates@.contains(y));
                                        lemma_candidates_compatible(*old(self), x, y);
                                    }
                                    assert(prev.gi_head.has(x));
                                    assert(prev.gi_head.value(x)@.contains(y));
                                    assert(incomp@.contains(y));
                                    let q = choose|q: int| 0 <= q < incomp@.len() && incomp@[q] == y;
                                    assert(stale@.contains(incomp@[q]));
                                }
                            }
                            assert forall|z: BlockId|
                                #![trigger finals@.contains(z)]
                                finals@.contains(z) implies candidates@.contains(z) && is_final(
                                self.block_statuses,
                                z,
                            ) by {
                                let m = choose|m: int| 0 <= m < finals@.len() && finals@[m] == z;
                                if m < finals_before.len() {
                                    assert(finals_before.contains(z));
                                    assert(is_final(prev.block_statuses, z));
                                    if z != x {
                                        assert(self.block_statuses.has(z)
                                            == prev.block_statuses.has(z));
                                    }
                                }
                            }
                            assert forall|z: BlockId|
                                #![trigger self.block_statuses.value(z)]
                                #![trigger old(self).block_statuses.has(z)]
                                old(self).block_statuses.has(z) && !finals@.contains(
                                    z,
                                ) implies self.block_statuses.has(z) && self.block_statuses.value(z)
                                == old(self).block_statuses.value(z) by {
                                if finals_before.contains(z) {
                                    let m = choose|m: int|
                                        0 <= m < finals_before.len() && finals_before[m] == z;
                                    assert(finals@[m] == z);
                                }
                                assert(z != x);
                                assert(prev.block_statuses.has(z));
                                assert(prev.block_statuses.value(z) == old(
                                    self,
                                ).block_statuses.value(z));
                                assert(self.block_statuses.has(z) == prev.block_statuses.has(z));
                            }
                        }
                    }
                }
                proof {
                    assert forall|z: BlockId| finals_at_start.contains(z) implies finals@.contains(
                        z,
                    ) by {
                        let m = choose|m: int|
                            0 <= m < finals_at_start.len() && finals_at_start[m] == z;
                        assert(finals@[m] == z);
                    }
                    assert forall|m: int|
                        0 <= m < i + 1 && parents_are_final(
                            old(self).block_statuses,
                            #[trigger] candidates@[m],
                        ) implies finals@.contains(candidates@[m]) by {
                        if m < i {
                            assert(finals_at_start.contains(candidates@[m]));
                        }
                    }
                    if pass > 0 {
                        assert forall|m: int|
                            0 <= m < n && parents_are_final(
                                old(self).block_statuses,
                                #[trigger] candidates@[m],
                            ) implies finals@.contains(candidates@[m]) by {
                            assert(finals_at_start.contains(candidates@[m]));
                        }
                    }
                }
                i += 1;
            }
            pass += 1;
        }
        let ghost picked = finals@;
        proof {
            assert forall|x: BlockId|
                is_final_candidate(*old(self), x) && parents_are_final(
                    old(self).block_statuses,
                    x,
                ) implies picked.contains(x) by {
                assert(candidates@.contains(x));
                let m = choose|m: int| 0 <= m < candidates@.len() && candidates@[m] == x;
                assert(n > 0);
                assert(parents_are_final(old(self).block_statuses, candidates@[m]));
            }
        }
        (finals, stale)
    }

    /// Discards as stale the blocks of `stale` that are active and not final.
    fn discard_stale(&mut self, stale: &Vec<BlockId>)
        requires
            old(self).wf(),
            ids_distinct(stale@),
        ensures
            final(self).wf(),
            final(self).settles_only(old(self)),
            final(self).block_statuses.keys() == old(self).block_statuses.keys(),
            forall|y: BlockId|
                #![trigger stale@.contains(y)]
                stale@.contains(y) && is_active(old(self).block_statuses, y) && !is_final(
                    old(self).block_statuses,
                    y,
                ) ==> is_stale(final(self).block_statuses, y),
            forall|z: BlockId|
                #![trigger final(self).block_statuses.value(z)]
                #![trigger old(self).block_statuses.has(z)]
                old(self).block_statuses.has(z) && !(stale@.contains(z) && is_active(
                    old(self).block_statuses,
                    z,
                ) && !is_final(old(self).block_statuses, z)) ==> final(self).block_statuses.has(z)
                    && final(self).block_statuses.value(z) == old(self).block_statuses.value(z),
    {
        proof {
            lemma_settles_only_self(*self);
        }
        let mut j: usize = 0;
        while j < stale.len()
            invariant
                j <= stale@.len(),
                ids_distinct(stale@),
                self.wf(),
                self.settles_only(old(self)),
                self.block_statuses.keys() == old(self).block_statuses.keys(),
                forall|m: int|
                    0 <= m < j && is_active(old(self).block_statuses, #[trigger] stale@[m])
                        && !is_final(old(self).block_statuses, stale@[m]) ==> is_stale(
                        self.block_statuses,
                        stale@[m],
                    ),
                forall|z: BlockId|
                    #![trigger self.block_statuses.value(z)]
                    #![trigger old(self).block_statuses.has(z)]
                    old(self).block_statuses.has(z) && !(among_first_ids(stale@, j as int, z)
                        && is_active(old(self).block_statuses, z) && !is_final(
                        old(self).block_statuses,
                        z,
                    )) ==> self.block_statuses.has(z) && self.block_statuses.value(z) == old(
                        self,
                    ).block_statuses.value(z),
            decreases stale@.len() - j,
        {
            let y = stale[j];
            let ghost prev = *self;
            proof {
                assert(!among_first_ids(stale@, j as int, y)) by {
                    if among_first_ids(stale@, j as int, y) {
                        let m = choose|m: int| 0 <= m < j && stale@[m] == y;
                        assert(stale@[m] != stale@[j as int]);
                    }
                }
            }
            let living = match self.block_statuses.get(&y) {
                Some(BlockStatus::Active { a_block, .. }) => !a_block.is_final,
                _ => false,
            };
            if living {
                self.discard_active(y, false);
                proof {
                    lemma_settles_only_chain(*old(self), prev, *self);
                }
            }
            proof {
                assert forall|m: int|
                    0 <= m < j + 1 && is_active(old(self).block_statuses, #[trigger] stale@[m])
                        && !is_final(old(self).block_statuses, stale@[m]) implies is_stale(
                    self.block_statuses,
                    stale@[m],
                ) by {
                    if m < j {
                        assert(stale@[m] != stale@[j as int]);
                        assert(is_stale(prev.block_statuses, stale@[m]));
                        if living {
                            assert(self.block_statuses.has(stale@[m]) == prev.block_statuses.has(
                                stale@[m],
                            ));
                        }
                    } else {
                        assert(old(self).block_statuses.has(y));
                        assert(prev.block_statuses.value(y) == old(self).block_statuses.value(y));
                        assert(living);
                    }
                }
                assert forall|z: BlockId|
                    #![trigger self.block_statuses.value(z)]
                    #![trigger old(self).block_statuses.has(z)]
                    old(self).block_statuses.has(z) && !(among_first_ids(stale@, j + 1, z)
                        && is_active(old(self).block_statuses, z) && !is_final(
                        old(self).block_statuses,
                        z,
                    )) implies self.block_statuses.has(z) && self.block_statuses.value(z) == old(
                    self,
                ).block_statuses.value(z) by {
                    if among_first_ids(stale@, j as int, z) {
                        let m = choose|m: int| 0 <= m < j && stale@[m] == z;
                        assert(0 <= m < j + 1 && stale@[m] == z);
                    }
                    if z == y {
                        assert(0 <= j < j + 1 && stale@[j as int] == z);
                        assert(among_first_ids(stale@, j + 1, z));
                        assert(prev.block_statuses.value(y) == old(self).block_statuses.value(y));
                        assert(!living);
                    } else {
                        assert(prev.block_statuses.has(z));
                        if living {
                            assert(self.block_statuses.has(z) == prev.block_statuses.has(z));
                        }
                    }
                }
            }
            j += 1;
        }
        proof {
            assert forall|y: BlockId|
                #![trigger stale@.contains(y)]
                stale@.contains(y) && is_active(old(self).block_statuses, y) && !is_final(
                    old(self).block_statuses,
                    y,
                ) implies is_stale(self.block_statuses, y) by {
                let m = choose|m: int| 0 <= m < stale@.len() && stale@[m] == y;
                assert(is_stale(self.block_statuses, stale@[m]));
            }
            assert forall|z: BlockId|
                #![trigger self.block_statuses.value(z)]
                #![trigger old(self).block_statuses.has(z)]
                old(self).block_statuses.has(z) && !(stale@.contains(z) && is_active(
                    old(self).block_statuses,
                    z,
                ) && !is_final(old(self).block_statuses, z)) implies self.block_statuses.has(z)
                && self.block_statuses.value(z) == old(self).block_statuses.value(z) by {
                if among_first_ids(stale@, stale@.len() as int, z) {
                    let m = choose|m: int| 0 <= m < stale@.len() && stale@[m] == z;
                    assert(stale@.contains(z));
                }
            }
        }
    }

    /// Settles finality after the cliques have changed.
    ///
    /// The blocks of the blockclique that are not final and meet the threshold of
    /// finality become final, each once all its known parents are final. The blocks
    /// that were incompatible with a block that became final are discarded as stale.
    /// The blocks that became final leave the cliques that are not the blockclique.
    /// Final blocks that are no longer kept are discarded as final. Then the cliques
    /// and the best parents are brought up to date. No block is forgotten.
    ///
    /// Returns the blocks that became final. Fails where a fitness does not fit.
    pub fn update_finality(&mut self) -> (r: Result<Vec<BlockId>, GraphError>)
        requires
            old(self).wf(),
        ensures
            final(self).wf(),
            final(self).settles_only(old(self)),
            final(self).block_statuses.keys() == old(self).block_statuses.keys(),
            r is Err ==> r == Err::<Vec<BlockId>, _>(GraphError::FitnessOverflow),
            r is Err ==> overflows_since(*old(self)),
            finality_settled(*old(self), *final(self), r),
            r is Ok ==> forall|x: BlockId|
                #![trigger r.unwrap()@.contains(x)]
                r.unwrap()@.contains(x) ==> {
                    &&& is_final_candidate(*old(self), x)
                    &&& final(self).block_statuses.has(x) ==> is_final(
                        final(self).block_statuses,
                        x,
                    ) || is_pruned(final(self).block_statuses, x)
                },
            r is Ok ==> forall|x: BlockId|
                #![trigger r.unwrap()@.contains(x)]
                is_final_candidate(*old(self), x) && parents_are_final(old(self).block_statuses, x)
                    ==> r.unwrap()@.contains(x),
    {
        proof {
            lemma_settles_only_self(*self);
        }
        let candidates = match self.final_candidates() {
            Ok(c) => c,
            Err(e) => {
                proof {
                    lemma_follows_closely_self(*self);
                    assert(overflows_at(*self));
                }
                return Err(e);
            },
        };
        let n = candidates.len();
        if n == 0 {
            proof {
                assert forall|x: BlockId| !#[trigger] is_final_candidate(*old(self), x) by {
                    if is_final_candidate(*old(self), x) {
                        assert(candidates@.contains(x));
                    }
                }
            }
            return self.settle_nothing();
        }
        proof {
            assert(candidates@.contains(candidates@[0]));
            assert(is_final_candidate(*old(self), candidates@[0]));
            assert(!no_final_candidate(*old(self)));
        }
        let (finals, stale) = self.mark_candidates_final(&candidates);
        let ghost picked = finals@;
        let ghost s0 = *self;
        self.discard_stale(&stale);
        proof {
            lemma_settles_only_chain(*old(self), s0, *self);
            assert forall|x: BlockId|
                #![trigger finals@.contains(x)]
                finals@.contains(x) implies candidates@.contains(x) && is_final(
                self.block_statuses,
                x,
            ) by {
                // a block that became final is not discarded as stale
                assert(is_final(s0.block_statuses, x));
                assert(self.block_statuses.value(x) == s0.block_statuses.value(x));
            }
        }
        let ghost s1 = *self;
        self.remove_from_rivals(&finals);
        let ghost s2 = *self;
        self.prune_old_finals();
        let ghost s3 = *self;
        proof {
            lemma_settles_only_chain(*old(self), s1, s2);
            lemma_settles_only_chain(*old(self), s2, s3);
        }
        let refreshed = self.refresh_cliques();
        let ghost s4 = *self;
        let ghost s5 = *self;
        self.update_best_parents();
        proof {
            lemma_settles_only_chain(*old(self), s3, s4);
            lemma_settles_only_chain(*old(self), s4, s5);
            lemma_settles_only_chain(*old(self), s5, *self);
        }
        match refreshed {
            Err(e) => {
                proof {
                    assert(s3.follows_closely(old(self)));
                    assert(overflows_at(s3));
                }
                Err(e)
            },
            Ok(()) => {
                proof {
                    crate::id_map::lemma_same_keys(self.block_statuses, old(self).block_statuses);
                    assert forall|x: BlockId|
                        #![trigger finals@.contains(x)]
                        finals@.contains(x) implies {
                        &&& is_final_candidate(*old(self), x)
                        &&& self.block_statuses.has(x)
                        &&& self.block_statuses.has(x) ==> is_final(self.block_statuses, x)
                            || is_pruned(self.block_statuses, x)
                    } by {
                        assert(candidates@.contains(x));
                        assert(is_final(s1.block_statuses, x));
                        assert(is_final(s2.block_statuses, x));
                        // a final block stays final, or is discarded as final
                        assert(s3.settles_only(&s2));
                        assert(s5.settles_only(&s3)) by {
                            lemma_settles_only_chain(s3, s4, s5);
                        }
                        assert(self.block_statuses == s5.block_statuses);
                    }
                }
                Ok(finals)
            },
        }
    }
}

} // verus!
