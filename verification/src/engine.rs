//! How a block enters the graph: as an active block, in the cliques it is
//! compatible with.

use vstd::prelude::*;
use crate::address::Address;
use crate::block_id::BlockId;
use crate::bootstrap::{empty_children, no_children};
use crate::cliques::{
    all_distinct,
    assemble_cliques,
    clique_fitness,
    clique_with,
    cliques_of,
    is_antichain,
    is_candidate,
    is_covered,
    plan_cliques,
    sets_meet,
};
use crate::graph::{one_blockclique, ActiveBlock, BlockStatus, Clique, DiscardReason, Storage};
use crate::id_map::IdMap;
use crate::id_set::{id_list_clone, id_list_insert, id_set, ids_distinct};
use crate::links::{
    block_linked,
    link_block,
    lemma_same_blocks,
    same_blocks_but_links,
    same_but_links,
};
use crate::slot::Slot;
use crate::state::{
    active_block,
    incompatible,
    is_active,
    is_discarded,
    is_final,
    is_pruned,
    links_in_order,
    ConsensusState,
    GraphError,
};

verus! {

/// Largest number of cliques that a graph may have. A block that would bring more
/// is taken for an attack.
pub const MAX_CLIQUES: usize = 1024;

/// Whether `after` records, besides what `before` records, that `id` is
/// incompatible with each block of `incomp`, and nothing else.
pub open spec fn gi_extended(
    before: IdMap<Vec<BlockId>>,
    after: IdMap<Vec<BlockId>>,
    id: BlockId,
    incomp: Seq<BlockId>,
) -> bool {
    &&& after.wf()
    &&& after.has(id)
    &&& after.value(id)@ == incomp
    &&& forall|y: BlockId|
        y != id ==> (#[trigger] after.has(y) <==> before.has(y) || incomp.contains(y))
    &&& forall|y: BlockId|
        #![trigger after.value(y)]
        y != id && after.has(y) ==> ids_distinct(after.value(y)@) && forall|z: BlockId|
            #![trigger after.value(y)@.contains(z)]
            after.value(y)@.contains(z) <==> (before.has(y) && before.value(y)@.contains(z)) || (z
                == id && incomp.contains(y))
}

/// Records that `id` is incompatible with each block of `incomp`.
pub fn extend_gi(gi: &mut IdMap<Vec<BlockId>>, id: BlockId, incomp: &Vec<BlockId>)
    requires
        old(gi).wf(),
        !old(gi).has(id),
        !incomp@.contains(id),
        forall|y: BlockId| #[trigger] old(gi).has(y) ==> ids_distinct(old(gi).value(y)@),
        forall|y: BlockId| #[trigger] old(gi).has(y) ==> !old(gi).value(y)@.contains(id),
    ensures
        gi_extended(*old(gi), *final(gi), id, incomp@),
{
    let mut i: usize = 0;
    while i < incomp.len()
        invariant
            i <= incomp@.len(),
            gi.wf(),
            !gi.has(id),
            !incomp@.contains(id),
            forall|y: BlockId|
                #[trigger] gi.has(y) <==> old(gi).has(y) || exists|k: int|
                    0 <= k < i && incomp@[k] == y,
            forall|y: BlockId|
                #![trigger gi.value(y)]
                gi.has(y) ==> ids_distinct(gi.value(y)@) && forall|z: BlockId|
                    #![trigger gi.value(y)@.contains(z)]
                    gi.value(y)@.contains(z) <==> (old(gi).has(y) && old(gi).value(y)@.contains(z))
                        || (z == id && exists|k: int| 0 <= k < i && incomp@[k] == y),
        decreases incomp@.len() - i,
    {
        let y = incomp[i];
        let ghost before = *gi;
        let mut list: Vec<BlockId> = match gi.remove(&y) {
            Some(l) => l,
            None => Vec::new(),
        };
        let ghost list0 = list@;
        id_list_insert(&mut list, id);
        gi.insert(y, list);
        proof {
            assert(incomp@.contains(y));
            assert forall|w: BlockId|
                #[trigger] gi.has(w) <==> old(gi).has(w) || exists|k: int|
                    0 <= k < i + 1 && incomp@[k] == w by {
                if w != y {
                    assert(gi.has(w) == before.has(w));
                    if exists|k: int| 0 <= k < i + 1 && incomp@[k] == w {
                        let k = choose|k: int| 0 <= k < i + 1 && incomp@[k] == w;
                        assert(k < i);
                    }
                    if before.has(w) && !old(gi).has(w) {
                        let k = choose|k: int| 0 <= k < i && incomp@[k] == w;
                        assert(0 <= k < i + 1);
                    }
                }
            }
            assert forall|w: BlockId|
                #![trigger gi.value(w)]
                gi.has(w) implies ids_distinct(gi.value(w)@) && forall|z: BlockId|
                #![trigger gi.value(w)@.contains(z)]
                gi.value(w)@.contains(z) <==> (old(gi).has(w) && old(gi).value(w)@.contains(z))
                    || (z == id && exists|k: int| 0 <= k < i + 1 && incomp@[k] == w) by {
                if w != y {
                    assert(before.has(w));
                    assert(gi.value(w) == before.value(w));
                    assert forall|z: BlockId|
                        #![trigger gi.value(w)@.contains(z)]
                        gi.value(w)@.contains(z) <==> (old(gi).has(w) && old(gi).value(
                            w,
                        )@.contains(z)) || (z == id && exists|k: int|
                            0 <= k < i + 1 && incomp@[k] == w) by {
                        assert(before.value(w)@.contains(z) <==> (old(gi).has(w) && old(gi).value(
                            w,
                        )@.contains(z)) || (z == id && exists|k: int|
                            0 <= k < i && incomp@[k] == w));
                        if exists|k: int| 0 <= k < i + 1 && incomp@[k] == w {
                            let k = choose|k: int| 0 <= k < i + 1 && incomp@[k] == w;
                            assert(k < i);
                        }
                        if exists|k: int| 0 <= k < i && incomp@[k] == w {
                            let k = choose|k: int| 0 <= k < i && incomp@[k] == w;
                            assert(0 <= k < i + 1);
                        }
                    }
                } else {
                    assert forall|z: BlockId|
                        #![trigger gi.value(w)@.contains(z)]
                        gi.value(w)@.contains(z) <==> (old(gi).has(w) && old(gi).value(
                            w,
                        )@.contains(z)) || (z == id && exists|k: int|
                            0 <= k < i + 1 && incomp@[k] == w) by {
                        assert(id_set(gi.value(w)@).contains(z) == gi.value(w)@.contains(z));
                        assert(id_set(list0).contains(z) == list0.contains(z));
                        if before.has(w) {
                            assert(list0 == before.value(w)@);
                            assert(before.value(w)@.contains(z) <==> (old(gi).has(w) && old(
                                gi,
                            ).value(w)@.contains(z)) || (z == id && exists|k: int|
                                0 <= k < i && incomp@[k] == w));
                        } else {
                            assert(!list0.contains(z));
                            assert(!old(gi).has(w));
                        }
                        assert(incomp@[i as int] == w);
                    }
                }
            }
        }
        i += 1;
    }
    let members = id_list_clone(incomp);
    let ghost before = *gi;
    gi.insert(id, members);
    proof {
        assert forall|y: BlockId|
            y != id implies (#[trigger] gi.has(y) <==> old(gi).has(y) || incomp@.contains(y)) by {
            assert(gi.has(y) == before.has(y));
            if incomp@.contains(y) {
                let k = choose|k: int| 0 <= k < incomp@.len() && incomp@[k] == y;
            }
        }
        assert forall|y: BlockId|
            #![trigger gi.value(y)]
            y != id && gi.has(y) implies ids_distinct(gi.value(y)@) && forall|z: BlockId|
            #![trigger gi.value(y)@.contains(z)]
            gi.value(y)@.contains(z) <==> (old(gi).has(y) && old(gi).value(y)@.contains(z)) || (z
                == id && incomp@.contains(y)) by {
            assert(before.has(y));
            assert(gi.value(y) == before.value(y));
            assert forall|z: BlockId|
                #![trigger gi.value(y)@.contains(z)]
                gi.value(y)@.contains(z) <==> (old(gi).has(y) && old(gi).value(y)@.contains(z))
                    || (z == id && incomp@.contains(y)) by {
                assert(before.value(y)@.contains(z) <==> (old(gi).has(y) && old(gi).value(
                    y,
                )@.contains(z)) || (z == id && exists|k: int|
                    0 <= k < incomp@.len() && incomp@[k] == y));
                if incomp@.contains(y) {
                    let k = choose|k: int| 0 <= k < incomp@.len() && incomp@[k] == y;
                }
            }
        }
    }
}

/// The fitness of a clique does not depend on the links of its blocks.
pub proof fn lemma_fitness_same(a: IdMap<BlockStatus>, b: IdMap<BlockStatus>, ids: Seq<BlockId>)
    requires
        a.wf(),
        same_blocks_but_links(a, b),
    ensures
        clique_fitness(a, ids) == clique_fitness(b, ids),
    decreases ids.len(),
{
    lemma_same_blocks(a, b);
    if ids.len() > 0 {
        lemma_fitness_same(a, b, ids.drop_last());
        let id = ids.last();
        assert(is_active(a, id) == is_active(b, id));
        assert(is_final(a, id) == is_final(b, id));
        if a.has(id) {
            assert(same_but_links(a.value(id), b.value(id)));
        }
    }
}

/// Whether `after` is `before` but for the status of `id`.
pub open spec fn same_but_one(before: IdMap<BlockStatus>, after: IdMap<BlockStatus>, id: BlockId) -> bool {
    forall|other: BlockId|
        other != id ==> (#[trigger] after.has(other) == before.has(other)) && (before.has(other)
            ==> after.value(other) == before.value(other))
}

/// Whether the sets `sets` are what the cliques `cliques` become when the block
/// `id`, incompatible with the blocks of `incomp`, enters.
pub open spec fn cliques_planned(
    sets: Seq<Vec<BlockId>>,
    cliques: Seq<Clique>,
    id: BlockId,
    incomp: Seq<BlockId>,
) -> bool {
    &&& sets.len() >= 1
    &&& is_antichain(sets)
    &&& all_distinct(sets)
    &&& forall|i: int|
        0 <= i < sets.len() ==> is_candidate(id_set((#[trigger] sets[i])@), cliques, id_set(incomp), id)
    &&& forall|k: int|
        0 <= k < cliques.len() ==> is_covered(
            clique_with(id_set((#[trigger] cliques[k]).block_ids@), id_set(incomp), id),
            sets,
        ) && (sets_meet(id_set(cliques[k].block_ids@), id_set(incomp)) ==> is_covered(
            id_set(cliques[k].block_ids@),
            sets,
        ))
}

/// A state in which a block has entered, with the cliques and the record of
/// incompatibilities brought up to date, is a state that can be reached.
pub proof fn lemma_block_entered(
    before: ConsensusState,
    after: ConsensusState,
    mid: IdMap<BlockStatus>,
    id: BlockId,
    incomp: Seq<BlockId>,
    sets: Seq<Vec<BlockId>>,
)
    requires
        before.wf(),
        before.block_statuses.has(id),
        !is_active(before.block_statuses, id),
        !is_discarded(before.block_statuses, id),
        ids_distinct(incomp),
        !incomp.contains(id),
        forall|y: BlockId|
            incomp.contains(y) ==> is_active(before.block_statuses, y) && !is_final(
                before.block_statuses,
                y,
            ),
        mid.wf(),
        same_but_one(before.block_statuses, mid, id),
        mid.has(id),
        mid.value(id) matches BlockStatus::Active { a_block, .. } && !a_block.is_final
            && forall|k: int|
            0 <= k < a_block.parents@.len() ==> is_active(
                before.block_statuses,
                (#[trigger] a_block.parents@[k]).0,
            ),
        same_blocks_but_links(mid, after.block_statuses),
        links_in_order(after.block_statuses, after.config.thread_count),
        gi_extended(before.gi_head, after.gi_head, id, incomp),
        cliques_planned(sets, before.max_cliques@, id, incomp),
        cliques_of(after.max_cliques@, sets, mid),
        one_blockclique(after.max_cliques@),
        after.config == before.config,
        after.latest_final_blocks_periods == before.latest_final_blocks_periods,
    ensures
        after.wf(),
        after.follows(&before),
        is_active(after.block_statuses, id),
        !is_final(after.block_statuses, id),
{
    let s0 = before.block_statuses;
    let s2 = after.block_statuses;
    lemma_same_blocks(mid, s2);
    // what was active stays active, what was final stays final
    assert forall|x: BlockId| x != id implies (is_active(s0, x) == #[trigger] is_active(s2, x))
        && (is_final(s0, x) == is_final(s2, x)) && (is_discarded(s0, x) == is_discarded(s2, x))
        && (is_pruned(s0, x) == is_pruned(s2, x)) && (s0.has(x) == s2.has(x)) by {
        assert(mid.has(x) == s0.has(x));
        assert(is_active(mid, x) == is_active(s2, x));
        assert(is_final(mid, x) == is_final(s2, x));
        assert(is_discarded(mid, x) == is_discarded(s2, x));
        assert(is_pruned(mid, x) == is_pruned(s2, x));
    }
    assert(is_active(mid, id) == is_active(s2, id));
    assert(is_final(mid, id) == is_final(s2, id));
    assert forall|x: BlockId| #[trigger]
        s2.has(x) && is_active(s0, x) && is_active(s2, x) implies {
        let a = active_block(s0, x);
        let b = active_block(s2, x);
        &&& b.block_id == a.block_id
        &&& b.creator_address == a.creator_address
        &&& b.slot == a.slot
        &&& b.parents == a.parents
        &&& b.fitness == a.fitness
    } by {
        assert(x != id);
        assert(mid.has(x) == s0.has(x));
        assert(mid.value(x) == s0.value(x));
        assert(same_but_links(mid.value(x), s2.value(x)));
    }
    assert forall|x: BlockId| x != id && #[trigger] s2.has(x) && s2.value(x) is Active implies s2.value(
        x,
    )->a_block.parents == s0.value(x)->a_block.parents by {
        assert(mid.has(x));
        assert(same_but_links(mid.value(x), s2.value(x)));
    }
    assert(same_but_links(mid.value(id), s2.value(id)));
    // no clique held the block, and no record spoke of it
    assert forall|k: int| 0 <= k < before.max_cliques@.len() implies !(#[trigger] before.max_cliques@[k]).block_ids@.contains(
        id,
    ) by {}
    assert forall|k: int, a: BlockId, b: BlockId|
        0 <= k < after.max_cliques@.len() && #[trigger] after.max_cliques@[k].block_ids@.contains(a)
            && #[trigger] after.max_cliques@[k].block_ids@.contains(b) implies !incompatible(
        after.gi_head,
        a,
        b,
    ) by {
        let set = id_set(sets[k]@);
        assert(after.max_cliques@[k].block_ids@ == sets[k]@);
        assert(is_candidate(set, before.max_cliques@, id_set(incomp), id));
        let j = choose|j: int|
            0 <= j < before.max_cliques@.len() && (set == clique_with(
                id_set(#[trigger] before.max_cliques@[j].block_ids@),
                id_set(incomp),
                id,
            ) || (set == id_set(before.max_cliques@[j].block_ids@) && sets_meet(
                id_set(before.max_cliques@[j].block_ids@),
                id_set(incomp),
            )));
        let kj = before.max_cliques@[j].block_ids@;
        assert(set.contains(a) && set.contains(b));
        assert(!kj.contains(id));
        if a != id && b != id {
            assert(kj.contains(a) && kj.contains(b));
            assert(!incompatible(before.gi_head, a, b));
            if after.gi_head.has(a) {
                assert(after.gi_head.value(a)@.contains(b) <==> (before.gi_head.has(a)
                    && before.gi_head.value(a)@.contains(b)) || (b == id && incomp.contains(a)));
            }
            if after.gi_head.has(b) {
                assert(after.gi_head.value(b)@.contains(a) <==> (before.gi_head.has(b)
                    && before.gi_head.value(b)@.contains(a)) || (a == id && incomp.contains(b)));
            }
        } else {
            // the set holds the block: it is what a clique becomes with it
            assert(set == clique_with(id_set(kj), id_set(incomp), id));
            let other = if a == id {
                b
            } else {
                a
            };
            assert(!incomp.contains(other));
            if other != id && after.gi_head.has(other) {
                assert(after.gi_head.value(other)@.contains(id) <==> (before.gi_head.has(other)
                    && before.gi_head.value(other)@.contains(id)) || (id == id && incomp.contains(
                    other,
                )));
                if before.gi_head.has(other) && before.gi_head.value(other)@.contains(id) {
                    assert(is_active(s0, id));
                }
            }
        }
    }
    assert forall|k: int, a: BlockId|
        0 <= k < after.max_cliques@.len() && #[trigger] after.max_cliques@[k].block_ids@.contains(
            a,
        ) implies is_active(s2, a) by {
        let set = id_set(sets[k]@);
        assert(after.max_cliques@[k].block_ids@ == sets[k]@);
        assert(is_candidate(set, before.max_cliques@, id_set(incomp), id));
        let j = choose|j: int|
            0 <= j < before.max_cliques@.len() && (set == clique_with(
                id_set(#[trigger] before.max_cliques@[j].block_ids@),
                id_set(incomp),
                id,
            ) || (set == id_set(before.max_cliques@[j].block_ids@) && sets_meet(
                id_set(before.max_cliques@[j].block_ids@),
                id_set(incomp),
            )));
        assert(set.contains(a));
        if a != id {
            assert(before.max_cliques@[j].block_ids@.contains(a));
            assert(is_active(s0, a));
        }
    }
    assert forall|k: int| 0 <= k < after.max_cliques@.len() implies ids_distinct(
        #[trigger] after.max_cliques@[k].block_ids@,
    ) by {
        assert(after.max_cliques@[k].block_ids@ == sets[k]@);
    }
    assert forall|a: BlockId| #[trigger] after.gi_head.has(a) implies is_active(s2, a) && !is_final(
        s2,
        a,
    ) && ids_distinct(after.gi_head.value(a)@) by {
        if a != id {
            if before.gi_head.has(a) {
                assert(is_active(s0, a));
            } else {
                assert(incomp.contains(a));
            }
        }
    }
    assert forall|a: BlockId, b: BlockId|
        after.gi_head.has(a) && #[trigger] after.gi_head.value(a)@.contains(b) implies is_active(
        s2,
        b,
    ) && !is_final(s2, b) by {
        if a == id {
            assert(incomp.contains(b));
        } else if b != id {
            assert(before.gi_head.has(a) && before.gi_head.value(a)@.contains(b));
            assert(is_active(s0, b));
        }
    }
    assert forall|x: BlockId, k: int|
        is_final(s2, x) && 0 <= k < active_block(s2, x).parents@.len() && s2.has(
            #[trigger] active_block(s2, x).parents@[k].0,
        ) implies is_final(s2, active_block(s2, x).parents@[k].0) || is_pruned(
        s2,
        active_block(s2, x).parents@[k].0,
    ) by {
        assert(x != id);
        assert(is_final(mid, x) == is_final(s2, x));
        assert(mid.has(x) == s0.has(x));
        assert(is_final(s0, x));
        let p = active_block(s0, x).parents@[k].0;
        assert(active_block(s2, x).parents@[k].0 == p);
        if p == id {
            // a final block had no parent that was on its way in
            assert(s0.has(p));
            assert(is_final(s0, p) || is_pruned(s0, p));
        } else {
            assert(mid.has(p) == s2.has(p));
            assert(mid.has(p) == s0.has(p));
            assert(s0.has(p));
            assert(is_final(s0, p) || is_pruned(s0, p));
            assert(is_final(mid, p) == is_final(s2, p));
            assert(is_pruned(mid, p) == is_pruned(s2, p));
        }
    }
    assert forall|x: BlockId, k: int|
        is_active(s2, x) && 0 <= k < active_block(s2, x).parents@.len() && s2.has(
            #[trigger] active_block(s2, x).parents@[k].0,
        ) implies is_active(s2, active_block(s2, x).parents@[k].0) || is_discarded(
        s2,
        active_block(s2, x).parents@[k].0,
    ) by {
        if x == id {
            let p = mid.value(id)->a_block.parents@[k].0;
            assert(active_block(s2, x).parents@[k].0 == p);
            assert(is_active(s0, p));
        } else {
            assert(is_active(s0, x));
            let p = active_block(s0, x).parents@[k].0;
            assert(active_block(s2, x).parents@[k].0 == p);
            if p != id {
                assert(mid.has(p) == s2.has(p));
                assert(mid.has(p) == s0.has(p));
                assert(s0.has(p));
                assert(is_active(s0, p) || is_discarded(s0, p));
                assert(is_active(mid, p) == is_active(s2, p));
                assert(is_discarded(mid, p) == is_discarded(s2, p));
            }
        }
    }
    assert forall|x: BlockId| #[trigger] s2.has(x) implies {
        &&& is_discarded(s0, x) ==> s2.value(x) == s0.value(x)
        &&& is_final(s0, x) ==> is_final(s2, x) || is_pruned(s2, x)
    } by {
        if x != id {
            assert(mid.has(x) == s0.has(x));
            assert(is_discarded(mid, x) == is_discarded(s2, x));
            assert(is_final(mid, x) == is_final(s2, x));
        }
    }
}

/// Whether some active block has `id` as a parent.
pub open spec fn is_parent_of_active(statuses: IdMap<BlockStatus>, id: BlockId) -> bool {
    exists|x: BlockId| #[trigger] is_active(statuses, x) && active_block(statuses, x).has_parent(id)
}

/// Whether some final block has `id` as a parent.
pub open spec fn is_parent_of_final(statuses: IdMap<BlockStatus>, id: BlockId) -> bool {
    exists|x: BlockId| #[trigger] is_final(statuses, x) && active_block(statuses, x).has_parent(id)
}

/// Whether the block `id` may get the status `status` in `statuses`: the status is
/// not that of an active block; a block that was active or discarded keeps its
/// status; and a parent of a final block is discarded as final, a parent of
/// another active block is discarded.
pub open spec fn may_get(statuses: IdMap<BlockStatus>, id: BlockId, status: BlockStatus) -> bool {
    &&& !(status is Active)
    &&& !is_active(statuses, id)
    &&& !is_discarded(statuses, id)
    &&& is_parent_of_final(statuses, id) ==> (status matches BlockStatus::Discarded { reason, .. }
        && reason == DiscardReason::Final)
    &&& is_parent_of_active(statuses, id) ==> status is Discarded
}

/// A state in which a block that was neither active nor discarded got a status
/// that it may get is a state that can be reached.
pub proof fn lemma_status_given(before: ConsensusState, after: ConsensusState, id: BlockId)
    requires
        before.wf(),
        after.block_statuses.wf(),
        same_but_one(before.block_statuses, after.block_statuses, id),
        after.block_statuses.has(id),
        may_get(before.block_statuses, id, after.block_statuses.value(id)),
        after.config == before.config,
        after.max_cliques == before.max_cliques,
        after.gi_head == before.gi_head,
        after.latest_final_blocks_periods == before.latest_final_blocks_periods,
    ensures
        after.wf(),
        after.follows(&before),
{
    let s0 = before.block_statuses;
    let s1 = after.block_statuses;
    assert forall|x: BlockId| x != id implies (is_active(s0, x) == #[trigger] is_active(s1, x))
        && (is_final(s0, x) == is_final(s1, x)) && (is_discarded(s0, x) == is_discarded(s1, x))
        && (is_pruned(s0, x) == is_pruned(s1, x)) by {
        assert(s1.has(x) == s0.has(x));
    }
    assert forall|i: int| 0 <= i < s1.entries@.len() implies ((#[trigger] s1.entries@[i]).1 matches BlockStatus::Active {
        a_block,
        ..
    } ==> a_block.links_wf(after.config.thread_count)) by {
        let x = s1.entries@[i].0;
        s1.lemma_entry(i);
        if x != id {
            assert(s1.has(x) == s0.has(x));
            let j = s0.index_of(x);
            assert(s0.entries@[j].1 == s1.entries@[i].1);
        }
    }
    assert forall|k: int, a: BlockId|
        0 <= k < after.max_cliques@.len() && #[trigger] after.max_cliques@[k].block_ids@.contains(
            a,
        ) implies is_active(s1, a) by {
        assert(is_active(s0, a));
        assert(s1.has(a) == s0.has(a));
    }
    assert forall|a: BlockId| #[trigger] after.gi_head.has(a) implies is_active(s1, a) && !is_final(
        s1,
        a,
    ) && ids_distinct(after.gi_head.value(a)@) by {
        assert(is_active(s0, a));
        assert(s1.has(a) == s0.has(a));
    }
    assert forall|a: BlockId, b: BlockId|
        after.gi_head.has(a) && #[trigger] after.gi_head.value(a)@.contains(b) implies is_active(
        s1,
        b,
    ) && !is_final(s1, b) by {
        assert(is_active(s0, b));
        assert(s1.has(b) == s0.has(b));
    }
    assert forall|x: BlockId, k: int|
        is_final(s1, x) && 0 <= k < active_block(s1, x).parents@.len() && s1.has(
            #[trigger] active_block(s1, x).parents@[k].0,
        ) implies is_final(s1, active_block(s1, x).parents@[k].0) || is_pruned(
        s1,
        active_block(s1, x).parents@[k].0,
    ) by {
        assert(s1.has(x) == s0.has(x));
        assert(is_final(s0, x));
        let p = active_block(s0, x).parents@[k].0;
        if p == id {
            assert(active_block(s0, x).has_parent(id));
            assert(is_parent_of_final(s0, id));
        } else {
            assert(s1.has(p) == s0.has(p));
            assert(is_final(s0, p) || is_pruned(s0, p));
        }
    }
    assert forall|x: BlockId, k: int|
        is_active(s1, x) && 0 <= k < active_block(s1, x).parents@.len() && s1.has(
            #[trigger] active_block(s1, x).parents@[k].0,
        ) implies is_active(s1, active_block(s1, x).parents@[k].0) || is_discarded(
        s1,
        active_block(s1, x).parents@[k].0,
    ) by {
        assert(s1.has(x) == s0.has(x));
        assert(is_active(s0, x));
        let p = active_block(s0, x).parents@[k].0;
        if p == id {
            assert(active_block(s0, x).has_parent(id));
            assert(is_parent_of_active(s0, id));
        } else {
            assert(s1.has(p) == s0.has(p));
            assert(is_active(s0, p) || is_discarded(s0, p));
        }
    }
    assert forall|x: BlockId| #[trigger] s1.has(x) implies {
        &&& is_discarded(s0, x) ==> s1.value(x) == s0.value(x)
        &&& is_final(s0, x) ==> is_final(s1, x) || is_pruned(s1, x)
    } by {
        if x != id {
            assert(s1.has(x) == s0.has(x));
        }
    }
}

impl ConsensusState {
    /// The next number of the sequence of events.
    pub fn next_sequence_number(&mut self) -> (r: u64)
        ensures
            r == old(self).sequence_counter,
            final(self).sequence_counter == if old(self).sequence_counter < u64::MAX {
                (old(self).sequence_counter + 1) as u64
            } else {
                u64::MAX
            },
            *final(self) == (ConsensusState { sequence_counter: final(self).sequence_counter, ..*old(self) }),
    {
        let r = self.sequence_counter;
        if self.sequence_counter < u64::MAX {
            self.sequence_counter = self.sequence_counter + 1;
        }
        r
    }

    /// Gives the block `id`, which is neither active nor discarded, a status that it
    /// may get.
    pub fn give_status(&mut self, id: BlockId, status: BlockStatus)
        requires
            old(self).wf(),
            may_get(old(self).block_statuses, id, status),
        ensures
            final(self).wf(),
            final(self).follows(old(self)),
            final(self).block_statuses.has(id),
            final(self).block_statuses.value(id) == status,
            same_but_one(old(self).block_statuses, final(self).block_statuses, id),
            *final(self) == (ConsensusState { block_statuses: final(self).block_statuses, ..*old(self) }),
            old(self).block_statuses.has(id) ==> final(self).block_statuses.entries@ == old(
                self,
            ).block_statuses.entries@.update(old(self).block_statuses.index_of(id), (id, status)),
            !old(self).block_statuses.has(id) ==> final(self).block_statuses.entries@ == old(
                self,
            ).block_statuses.entries@.push((id, status)),
    {
        self.block_statuses.insert(id, status);
        proof {
            lemma_status_given(*old(self), *self, id);
        }
    }
}

/// The identifiers of a list of parents.
pub fn parent_ids(parents: &Vec<(BlockId, u64)>) -> (r: Vec<BlockId>)
    ensures
        r@.len() == parents@.len(),
        forall|k: int| 0 <= k < parents@.len() ==> r@[k] == parents@[k].0,
{
    let mut out: Vec<BlockId> = Vec::new();
    let mut k: usize = 0;
    while k < parents.len()
        invariant
            k <= parents@.len(),
            out@.len() == k,
            forall|j: int| 0 <= j < k ==> out@[j] == parents@[j].0,
        decreases parents@.len() - k,
    {
        out.push(parents[k].0);
        k += 1;
    }
    out
}

/// Whether the cliques, once the block `id` that is incompatible with the blocks of
/// `incomp` has entered, are more than `MAX_CLIQUES`.
pub open spec fn too_many_cliques(cliques: Seq<Clique>, id: BlockId, incomp: Seq<BlockId>) -> bool {
    exists|sets: Seq<Vec<BlockId>>| #[trigger]
        cliques_planned(sets, cliques, id, incomp) && sets.len() > MAX_CLIQUES
}

/// Whether a clique, once the block `id` with the fitness `fitness`, incompatible
/// with the blocks of `incomp`, has entered, has a fitness that does not fit.
pub open spec fn entering_overflows(
    state: ConsensusState,
    id: BlockId,
    fitness: u64,
    incomp: Seq<BlockId>,
) -> bool {
    exists|sets: Seq<Vec<BlockId>>, with_block: IdMap<BlockStatus>|
        {
            &&& #[trigger] cliques_planned(sets, state.max_cliques@, id, incomp)
            &&& #[trigger] same_but_one(state.block_statuses, with_block, id)
            &&& with_block.has(id)
            &&& with_block.value(id) matches BlockStatus::Active { a_block, .. } && a_block.fitness
                == fitness && !a_block.is_final
            &&& exists|i: int|
                0 <= i < sets.len() && clique_fitness(with_block, (#[trigger] sets[i])@) > u64::MAX
        }
}

/// Whether `after` is what `before` becomes when the block `id`, with the given
/// creator, slot, parents and fitness, incompatible with the blocks of `incomp`,
/// is let into the graph, `r` telling what became of it.
///
/// Where the cliques would be more than `MAX_CLIQUES`, the block is discarded as
/// invalid and an attack attempt is counted; where a fitness would not fit, the
/// block is discarded as invalid and the attempt fails; in both cases the cliques
/// and the record of incompatibilities are as they were. Otherwise the block is
/// active and not final, without children or descendants, the record of
/// incompatibilities holds it with the blocks of `incomp`, and the cliques are the
/// planned ones, with their fitnesses and the blockclique chosen anew.
pub open spec fn added(
    before: ConsensusState,
    after: ConsensusState,
    id: BlockId,
    creator_address: Address,
    slot: Slot,
    parents: Seq<(BlockId, u64)>,
    fitness: u64,
    incomp: Seq<BlockId>,
    r: Result<Entry, GraphError>,
) -> bool {
    &&& after.wf()
    &&& after.config == before.config
    &&& after.latest_final_blocks_periods == before.latest_final_blocks_periods
    &&& after.block_statuses.has(id)
    &&& forall|other: BlockId|
        other != id ==> (#[trigger] after.block_statuses.has(other) == before.block_statuses.has(
            other,
        ))
    &&& forall|other: BlockId|
        other != id && #[trigger] before.block_statuses.has(other) ==> same_but_links(
            before.block_statuses.value(other),
            after.block_statuses.value(other),
        )
    &&& r == Ok::<Entry, GraphError>(Entry::Attack) ==> too_many_cliques(
        before.max_cliques@,
        id,
        incomp,
    )
    &&& r is Err ==> entering_overflows(before, id, fitness, incomp)
    &&& r is Err ==> r == Err::<Entry, _>(GraphError::FitnessOverflow)
    &&& r is Err || r == Ok::<Entry, GraphError>(Entry::Attack) ==> {
        &&& after.block_statuses.value(id) matches BlockStatus::Discarded { reason, .. } && reason
            == DiscardReason::Invalid
        &&& after.max_cliques == before.max_cliques
        &&& after.gi_head == before.gi_head
    }
    &&& r == Ok::<Entry, GraphError>(Entry::Attack) ==> after.attack_attempts
        == if before.attack_attempts < u64::MAX {
        (before.attack_attempts + 1) as u64
    } else {
        u64::MAX
    }
    &&& r == Ok::<Entry, GraphError>(Entry::Entered) ==> {
        &&& after.block_statuses.value(id) matches BlockStatus::Active { a_block, storage }
            && a_block.block_id == id && a_block.creator_address == creator_address && a_block.slot
            == slot && a_block.parents@ == parents && a_block.fitness == fitness
            && !a_block.is_final && a_block.descendants@.len() == 0 && no_children(
            a_block.children@,
            before.config.thread_count,
        ) && storage.block_refs@ == seq![id]
        &&& gi_extended(before.gi_head, after.gi_head, id, incomp)
        &&& exists|sets: Seq<Vec<BlockId>>| #[trigger]
            cliques_planned(sets, before.max_cliques@, id, incomp) && cliques_of(
                after.max_cliques@,
                sets,
                after.block_statuses,
            )
        &&& after.max_cliques@.len() <= MAX_CLIQUES
        &&& after.attack_attempts == before.attack_attempts
    }
}

/// What came of the entry of a block in the graph.
#[derive(Clone, Copy, Debug, PartialEq, Eq, Structural)]
pub enum Entry {
    /// The block is active.
    Entered,
    /// The block would have brought too many cliques: it was discarded as an attack.
    Attack,
}

impl ConsensusState {
    /// Makes the block `id`, which is known and neither active nor discarded, an
    /// active block that is not final, with the given creator, slot, parents and
    /// fitness, incompatible with the blocks of `incomp`.
    ///
    /// The cliques are brought up to date: each gets the block in place of its blocks
    /// that are in `incomp`, and those that hold such blocks also stay as they are;
    /// sets that are part of another are dropped; the fitnesses are computed anew
    /// and the blockclique is chosen anew. Where that would leave more than
    /// `MAX_CLIQUES` cliques, the block is discarded as invalid instead and an attack
    /// attempt is counted. Where it would give a clique a fitness that does not fit,
    /// the block is discarded as invalid and the call fails.
    pub fn add_active_block(
        &mut self,
        id: BlockId,
        creator_address: Address,
        slot: Slot,
        parents: Vec<(BlockId, u64)>,
        fitness: u64,
        incomp: Vec<BlockId>,
    ) -> (r: Result<Entry, GraphError>)
        requires
            old(self).wf(),
            old(self).block_statuses.has(id),
            !is_active(old(self).block_statuses, id),
            !is_discarded(old(self).block_statuses, id),
            slot.thread < old(self).config.thread_count,
            ids_distinct(incomp@),
            !incomp@.contains(id),
            forall|y: BlockId|
                incomp@.contains(y) ==> is_active(old(self).block_statuses, y) && !is_final(
                    old(self).block_statuses,
                    y,
                ),
            forall|k: int|
                0 <= k < parents@.len() ==> is_active(
                    old(self).block_statuses,
                    (#[trigger] parents@[k]).0,
                ),
        ensures
            final(self).wf(),
            final(self).follows(old(self)),
            final(self).config == old(self).config,
            final(self).latest_final_blocks_periods == old(self).latest_final_blocks_periods,
            forall|other: BlockId|
                other != id ==> (#[trigger] final(self).block_statuses.has(other) == old(
                    self,
                ).block_statuses.has(other)),
            forall|other: BlockId|
                other != id && #[trigger] old(self).block_statuses.has(other) ==> same_but_links(
                    old(self).block_statuses.value(other),
                    final(self).block_statuses.value(other),
                ),
            final(self).block_statuses.has(id),
            r is Err ==> r == Err::<Entry, _>(GraphError::FitnessOverflow),
            r is Err || r == Ok::<_, GraphError>(Entry::Attack) ==> {
                &&& final(self).block_statuses.value(id) matches BlockStatus::Discarded {
                    reason,
                    ..
                } && reason == DiscardReason::Invalid
                &&& final(self).max_cliques == old(self).max_cliques
                &&& final(self).gi_head == old(self).gi_head
            },
            r == Ok::<_, GraphError>(Entry::Attack) ==> final(self).attack_attempts == if old(
                self,
            ).attack_attempts < u64::MAX {
                (old(self).attack_attempts + 1) as u64
            } else {
                u64::MAX
            },
            r == Ok::<_, GraphError>(Entry::Attack) ==> too_many_cliques(
                old(self).max_cliques@,
                id,
                incomp@,
            ),
            r is Err ==> entering_overflows(*old(self), id, fitness, incomp@),
            added(
                *old(self),
                *final(self),
                id,
                creator_address,
                slot,
                parents@,
                fitness,
                incomp@,
                r,
            ),
            r == Ok::<_, GraphError>(Entry::Entered) ==> {
                &&& final(self).block_statuses.value(id) matches BlockStatus::Active {
                    a_block,
                    storage,
                } && a_block.block_id == id && a_block.creator_address == creator_address
                    && a_block.slot == slot && a_block.parents@ == parents@ && a_block.fitness
                    == fitness && !a_block.is_final && a_block.descendants@.len() == 0
                    && no_children(a_block.children@, old(self).config.thread_count)
                    && storage.block_refs@ == seq![id]
                &&& gi_extended(old(self).gi_head, final(self).gi_head, id, incomp@)
                &&& exists|sets: Seq<Vec<BlockId>>| #[trigger]
                    cliques_planned(sets, old(self).max_cliques@, id, incomp@) && cliques_of(
                        final(self).max_cliques@,
                        sets,
                        final(self).block_statuses,
                    )
                &&& final(self).max_cliques@.len() <= MAX_CLIQUES
                &&& final(self).attack_attempts == old(self).attack_attempts
            },
    {
        let thread_count = self.config.thread_count;
        proof {
            assert forall|k: int| 0 <= k < self.max_cliques@.len() implies ids_distinct(
                (#[trigger] self.max_cliques@[k]).block_ids@,
            ) && !self.max_cliques@[k].block_ids@.contains(id) by {}
            let b = choose|b: int|
                0 <= b < self.max_cliques@.len() && self.max_cliques@[b].is_blockclique;
        }
        let sets = plan_cliques(&self.max_cliques, id, &incomp);
        proof {
            assert(cliques_planned(sets@, old(self).max_cliques@, id, incomp@));
        }
        if sets.len() > MAX_CLIQUES {
            let sequence_number = self.next_sequence_number();
            if self.attack_attempts < u64::MAX {
                self.attack_attempts = self.attack_attempts + 1;
            }
            let ghost before = *self;
            assert(before.wf());
            self.give_status(
                id,
                BlockStatus::Discarded {
                    slot,
                    creator: creator_address,
                    parents: parent_ids(&parents),
                    reason: DiscardReason::Invalid,
                    sequence_number,
                },
            );
            proof {
                assert(self.follows(old(self)));
                assert forall|other: BlockId|
                    other != id && #[trigger] old(self).block_statuses.has(
                        other,
                    ) implies same_but_links(
                    old(self).block_statuses.value(other),
                    self.block_statuses.value(other),
                ) by {
                    assert(self.block_statuses.has(other) == old(self).block_statuses.has(other));
                }
            }
            return Ok(Entry::Attack);
        }
        let mut block_refs: Vec<BlockId> = Vec::new();
        block_refs.push(id);
        let a_block = ActiveBlock {
            creator_address,
            block_id: id,
            parents,
            children: empty_children(thread_count),
            descendants: Vec::new(),
            is_final: false,
            slot,
            fitness,
        };
        proof {
            assert(block_refs@ =~= seq![id]);
            assert(a_block.links_wf(thread_count));
        }
        let ghost s0 = self.block_statuses;
        self.block_statuses.insert(id, BlockStatus::Active { a_block, storage: Storage { block_refs } });
        let ghost mid = self.block_statuses;
        let cliques = match assemble_cliques(sets, &self.block_statuses) {
            Ok(c) => c,
            Err(e) => {
                let sequence_number = self.sequence_counter;
                self.block_statuses.insert(
                    id,
                    BlockStatus::Discarded {
                        slot,
                        creator: creator_address,
                        parents: Vec::new(),
                        reason: DiscardReason::Invalid,
                        sequence_number,
                    },
                );
                proof {
                    assert(same_but_one(s0, self.block_statuses, id));
                    assert(!is_parent_of_active(s0, id)) by {
                        if is_parent_of_active(s0, id) {
                            let x = choose|x: BlockId| #[trigger]
                                is_active(s0, x) && active_block(s0, x).has_parent(id);
                            let k = choose|k: int|
                                0 <= k < active_block(s0, x).parents@.len() && active_block(
                                    s0,
                                    x,
                                ).parents@[k].0 == id;
                            assert(s0.has(active_block(s0, x).parents@[k].0));
                        }
                    }
                    assert(!is_parent_of_final(s0, id)) by {
                        if is_parent_of_final(s0, id) {
                            let x = choose|x: BlockId| #[trigger]
                                is_final(s0, x) && active_block(s0, x).has_parent(id);
                            assert(is_active(s0, x));
                        }
                    }
                    lemma_status_given(*old(self), *self, id);
                    assert forall|other: BlockId|
                        other != id && #[trigger] old(self).block_statuses.has(
                            other,
                        ) implies same_but_links(
                        old(self).block_statuses.value(other),
                        self.block_statuses.value(other),
                    ) by {
                        assert(self.block_statuses.has(other) == s0.has(other));
                    }
                    assert(same_but_one(s0, mid, id));
                    let i = choose|i: int|
                        0 <= i < sets@.len() && clique_fitness(mid, (#[trigger] sets@[i])@)
                            > u64::MAX;
                    assert(clique_fitness(mid, sets@[i]@) > u64::MAX);
                    assert(entering_overflows(*old(self), id, fitness, incomp@));
                }
                return Err(e);
            },
        };
        let idx = match self.block_statuses.position(&id) {
            Some(i) => i,
            None => 0,
        };
        proof {
            assert forall|i: int| 0 <= i < mid.entries@.len() implies ((#[trigger] mid.entries@[i]).1 matches BlockStatus::Active {
                a_block,
                ..
            } ==> a_block.links_wf(thread_count)) by {
                let x = mid.entries@[i].0;
                mid.lemma_entry(i);
                if x != id {
                    assert(mid.has(x) == s0.has(x));
                    let j = s0.index_of(x);
                    assert(s0.entries@[j].1 == mid.entries@[i].1);
                }
            }
        }
        link_block(&mut self.block_statuses, idx, thread_count);
        extend_gi(&mut self.gi_head, id, &incomp);
        self.max_cliques = cliques;
        proof {
            let s2 = self.block_statuses;
            lemma_same_blocks(mid, s2);
            assert(cliques_planned(sets@, old(self).max_cliques@, id, incomp@));
            assert(cliques_of(self.max_cliques@, sets@, mid));
            lemma_block_entered(*old(self), *self, mid, id, incomp@, sets@);
            // the fitnesses are those of the blocks with their links made
            assert forall|i: int| 0 <= i < sets@.len() implies (#[trigger] self.max_cliques@[i]).block_ids@
                == sets@[i]@ && self.max_cliques@[i].fitness == clique_fitness(s2, sets@[i]@) by {
                lemma_fitness_same(mid, s2, sets@[i]@);
            }
            assert(cliques_of(self.max_cliques@, sets@, s2));
            assert forall|other: BlockId|
                other != id implies (#[trigger] s2.has(other) == s0.has(other)) by {
                assert(mid.has(other) == s0.has(other));
                assert(mid.has(other) == s2.has(other));
            }
            assert forall|other: BlockId| other != id && #[trigger] s0.has(other) implies same_but_links(
                s0.value(other),
                s2.value(other),
            ) by {
                assert(mid.has(other));
                assert(mid.value(other) == s0.value(other));
                assert(same_but_links(mid.value(other), s2.value(other)));
            }
            // no active block has the new block as a parent: its own links are
            // untouched
            assert(same_but_links(mid.value(id), s2.value(id)));
            assert(block_linked(mid, s2, idx as int));
            mid.lemma_entry(idx as int);
            s2.lemma_entry(idx as int);
            assert(s2.entries@[idx as int].0 == id);
            assert forall|w: int| !crate::links::parent_edge(mid.entries@, w, idx as int) by {
                if crate::links::parent_edge(mid.entries@, w, idx as int) {
                    let x = mid.entries@[w].0;
                    mid.lemma_entry(w);
                    let xb = mid.entries@[w].1->a_block;
                    let k = choose|k: int| 0 <= k < xb.parents@.len() && xb.parents@[k].0 == id;
                    if x == id {
                        assert(is_active(s0, xb.parents@[k].0));
                    } else {
                        assert(mid.has(x) == s0.has(x));
                        assert(is_active(s0, x));
                        assert(s0.has(active_block(s0, x).parents@[k].0));
                    }
                }
            }
            assert(!crate::links::is_ancestor(mid.entries@, idx as int, idx as int)) by {
                if crate::links::is_ancestor(mid.entries@, idx as int, idx as int) {
                    let nn = choose|nn: nat|
                        crate::links::reaches(mid.entries@, idx as int, idx as int, nn);
                    crate::links::lemma_reached_has_child(mid.entries@, idx as int, idx as int, nn);
                }
            }
            let x0 = mid.entries@[idx as int].1->a_block;
            let y0 = s2.entries@[idx as int].1->a_block;
            assert(y0.descendants@.len() == 0) by {
                if y0.descendants@.len() > 0 {
                    assert(y0.descendants@.contains(y0.descendants@[0]));
                }
            }
            assert forall|t: int| 0 <= t < y0.children@.len() implies (#[trigger] y0.children@[t]).entries@.len()
                == 0 by {
                assert(!crate::links::child_in_thread(mid.entries@, idx as int, idx as int, t));
                if y0.children@[t].entries@.len() > 0 {
                    y0.children@[t].lemma_entry(0);
                    assert(y0.children@[t].has(y0.children@[t].entries@[0].0));
                    assert(x0.children@[t].has(y0.children@[t].entries@[0].0));
                }
            }
            assert(cliques_planned(sets@, old(self).max_cliques@, id, incomp@) && cliques_of(
                self.max_cliques@,
                sets@,
                self.block_statuses,
            ));
        }
        Ok(Entry::Entered)
    }
}

} // verus!
