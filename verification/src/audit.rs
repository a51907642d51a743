//! Telling whether a state of the graph is one that can be reached.
//!
//! The operations on the graph ask for such a state and keep it. A state that
//! comes from elsewhere is held against `ConsensusState::wf` here, clause by
//! clause.

use vstd::prelude::*;
use crate::block_id::BlockId;
use crate::graph::{one_blockclique, ActiveBlock, BlockStatus, Clique, DiscardReason};
use crate::id_map::IdMap;
use crate::id_set::{id_list_contains, ids_distinct};
use crate::state::{
    active_block,
    cliques_compatible,
    cliques_hold_actives,
    finals_closed,
    gi_holds_actives,
    incompatible,
    is_active,
    is_discarded,
    is_final,
    is_pruned,
    links_in_order,
    parents_settled,
    ConsensusState,
};

verus! {

/// Whether no identifier occurs twice in a list.
pub fn ids_are_distinct(list: &Vec<BlockId>) -> (r: bool)
    ensures
        r == ids_distinct(list@),
{
    let mut j: usize = 0;
    while j < list.len()
        invariant
            j <= list@.len(),
            forall|a: int, b: int| 0 <= a < b < j ==> list@[a] != list@[b],
        decreases list@.len() - j,
    {
        let mut i: usize = 0;
        while i < j
            invariant
                i <= j,
                j < list@.len(),
                forall|a: int| 0 <= a < i ==> list@[a] != list@[j as int],
            decreases j - i,
        {
            if list[i] == list[j] {
                return false;
            }
            i += 1;
        }
        j += 1;
    }
    true
}

/// Whether no key occurs twice in a map.
pub fn keys_are_distinct<V>(map: &IdMap<V>) -> (r: bool)
    ensures
        r == map.wf(),
{
    let mut j: usize = 0;
    while j < map.entries.len()
        invariant
            j <= map.entries@.len(),
            forall|a: int, b: int| 0 <= a < b < j ==> map.entries@[a].0 != map.entries@[b].0,
        decreases map.entries@.len() - j,
    {
        let mut i: usize = 0;
        while i < j
            invariant
                i <= j,
                j < map.entries@.len(),
                forall|a: int| 0 <= a < i ==> map.entries@[a].0 != map.entries@[j as int].0,
            decreases j - i,
        {
            if map.entries[i].0 == map.entries[j].0 {
                return false;
            }
            i += 1;
        }
        j += 1;
    }
    true
}

/// Whether the links of an active block are in order.
fn block_links_in_order(block: &ActiveBlock, thread_count: u8) -> (r: bool)
    ensures
        r == block.links_wf(thread_count),
{
    if block.slot.thread >= thread_count || block.children.len() != thread_count as usize {
        return false;
    }
    let mut t: usize = 0;
    while t < block.children.len()
        invariant
            t <= block.children@.len(),
            forall|u: int| 0 <= u < t ==> (#[trigger] block.children@[u]).wf(),
        decreases block.children@.len() - t,
    {
        if !keys_are_distinct(&block.children[t]) {
            return false;
        }
        t += 1;
    }
    ids_are_distinct(&block.descendants)
}

/// Whether the links of every active block are in order.
fn all_links_in_order(statuses: &IdMap<BlockStatus>, thread_count: u8) -> (r: bool)
    ensures
        r == links_in_order(*statuses, thread_count),
{
    let mut i: usize = 0;
    while i < statuses.entries.len()
        invariant
            i <= statuses.entries@.len(),
            forall|j: int|
                0 <= j < i ==> ((#[trigger] statuses.entries@[j]).1 matches BlockStatus::Active {
                    a_block,
                    ..
                } ==> a_block.links_wf(thread_count)),
        decreases statuses.entries@.len() - i,
    {
        match &statuses.entries[i].1 {
            BlockStatus::Active { a_block, .. } => {
                if !block_links_in_order(a_block, thread_count) {
                    return false;
                }
            },
            _ => {},
        }
        i += 1;
    }
    true
}

/// Whether exactly one clique is flagged as the blockclique.
fn has_one_blockclique(cliques: &Vec<Clique>) -> (r: bool)
    ensures
        r == one_blockclique(cliques@),
{
    let mut first: usize = 0;
    while first < cliques.len() && !cliques[first].is_blockclique
        invariant
            first <= cliques@.len(),
            forall|j: int| 0 <= j < first ==> !(#[trigger] cliques@[j]).is_blockclique,
        decreases cliques@.len() - first,
    {
        first += 1;
    }
    if first >= cliques.len() {
        return false;
    }
    let mut j: usize = first + 1;
    while j < cliques.len()
        invariant
            first < j <= cliques@.len(),
            cliques@[first as int].is_blockclique,
            forall|m: int| 0 <= m < j && m != first ==> !(#[trigger] cliques@[m]).is_blockclique,
        decreases cliques@.len() - j,
    {
        if cliques[j].is_blockclique {
            proof {
                if one_blockclique(cliques@) {
                    let k = choose|k: int|
                        0 <= k < cliques@.len() && cliques@[k].is_blockclique && forall|m: int|
                            0 <= m < cliques@.len() && m != k ==> !(#[trigger] cliques@[m]).is_blockclique;
                    if k == first as int {
                        assert(!cliques@[j as int].is_blockclique);
                    } else {
                        assert(!cliques@[first as int].is_blockclique);
                    }
                }
            }
            return false;
        }
        j += 1;
    }
    true
}

/// Whether `a` is recorded as incompatible with `b`.
fn is_recorded(gi: &IdMap<Vec<BlockId>>, a: &BlockId, b: &BlockId) -> (r: bool)
    requires
        gi.wf(),
    ensures
        r == (gi.has(*a) && gi.value(*a)@.contains(*b)),
{
    match gi.get(a) {
        Some(list) => id_list_contains(list, b),
        None => false,
    }
}

/// Whether no two blocks of one clique are recorded as incompatible.
fn all_cliques_compatible(cliques: &Vec<Clique>, gi: &IdMap<Vec<BlockId>>) -> (r: bool)
    requires
        gi.wf(),
    ensures
        r == cliques_compatible(cliques@, *gi),
{
    let mut k: usize = 0;
    while k < cliques.len()
        invariant
            k <= cliques@.len(),
            gi.wf(),
            forall|c: int, a: BlockId, b: BlockId|
                0 <= c < k && #[trigger] cliques@[c].block_ids@.contains(a)
                    && #[trigger] cliques@[c].block_ids@.contains(b) ==> !incompatible(*gi, a, b),
        decreases cliques@.len() - k,
    {
        let ids = &cliques[k].block_ids;
        let mut p: usize = 0;
        while p < ids.len()
            invariant
                p <= ids@.len(),
                gi.wf(),
                k < cliques@.len(),
                ids@ == cliques@[k as int].block_ids@,
                forall|x: int, y: int|
                    0 <= x < p && 0 <= y < ids@.len() ==> !(gi.has(#[trigger] ids@[x])
                        && gi.value(ids@[x])@.contains(#[trigger] ids@[y])),
            decreases ids@.len() - p,
        {
            let mut q: usize = 0;
            while q < ids.len()
                invariant
                    q <= ids@.len(),
                    p < ids@.len(),
                    gi.wf(),
                    k < cliques@.len(),
                    ids@ == cliques@[k as int].block_ids@,
                    forall|y: int|
                        0 <= y < q ==> !(gi.has(ids@[p as int]) && gi.value(
                            ids@[p as int],
                        )@.contains(#[trigger] ids@[y])),
                decreases ids@.len() - q,
            {
                if is_recorded(gi, &ids[p], &ids[q]) {
                    proof {
                        assert(cliques@[k as int].block_ids@.contains(ids@[p as int]));
                        assert(cliques@[k as int].block_ids@.contains(ids@[q as int]));
                        assert(incompatible(*gi, ids@[p as int], ids@[q as int]));
                    }
                    return false;
                }
                q += 1;
            }
            p += 1;
        }
        proof {
            assert forall|c: int, a: BlockId, b: BlockId|
                0 <= c < k + 1 && #[trigger] cliques@[c].block_ids@.contains(a)
                    && #[trigger] cliques@[c].block_ids@.contains(b) implies !incompatible(
                *gi,
                a,
                b,
            ) by {
                if c == k {
                    let x = choose|x: int| 0 <= x < ids@.len() && ids@[x] == a;
                    let y = choose|y: int| 0 <= y < ids@.len() && ids@[y] == b;
                    assert(!(gi.has(ids@[x]) && gi.value(ids@[x])@.contains(ids@[y])));
                    assert(!(gi.has(ids@[y]) && gi.value(ids@[y])@.contains(ids@[x])));
                }
            }
        }
        k += 1;
    }
    true
}

/// Whether a block is known and active.
fn block_is_active(statuses: &IdMap<BlockStatus>, id: &BlockId) -> (r: bool)
    requires
        statuses.wf(),
    ensures
        r == is_active(*statuses, *id),
{
    match statuses.get(id) {
        Some(BlockStatus::Active { .. }) => true,
        _ => false,
    }
}

/// Whether a block is active and not final.
fn block_is_living(statuses: &IdMap<BlockStatus>, id: &BlockId) -> (r: bool)
    requires
        statuses.wf(),
    ensures
        r == (is_active(*statuses, *id) && !is_final(*statuses, *id)),
{
    match statuses.get(id) {
        Some(BlockStatus::Active { a_block, .. }) => !a_block.is_final,
        _ => false,
    }
}

/// Whether the cliques hold active blocks only, each once.
fn cliques_hold_only_actives(cliques: &Vec<Clique>, statuses: &IdMap<BlockStatus>) -> (r: bool)
    requires
        statuses.wf(),
    ensures
        r == cliques_hold_actives(cliques@, *statuses),
{
    let mut k: usize = 0;
    while k < cliques.len()
        invariant
            k <= cliques@.len(),
            statuses.wf(),
            forall|c: int| 0 <= c < k ==> ids_distinct(#[trigger] cliques@[c].block_ids@),
            forall|c: int, a: BlockId|
                0 <= c < k && #[trigger] cliques@[c].block_ids@.contains(a) ==> is_active(
                    *statuses,
                    a,
                ),
        decreases cliques@.len() - k,
    {
        let ids = &cliques[k].block_ids;
        if !ids_are_distinct(ids) {
            return false;
        }
        let mut p: usize = 0;
        while p < ids.len()
            invariant
                p <= ids@.len(),
                statuses.wf(),
                k < cliques@.len(),
                ids@ == cliques@[k as int].block_ids@,
                forall|x: int| 0 <= x < p ==> is_active(*statuses, #[trigger] ids@[x]),
            decreases ids@.len() - p,
        {
            if !block_is_active(statuses, &ids[p]) {
                proof {
                    assert(cliques@[k as int].block_ids@.contains(ids@[p as int]));
                }
                return false;
            }
            p += 1;
        }
        proof {
            assert forall|c: int, a: BlockId|
                0 <= c < k + 1 && #[trigger] cliques@[c].block_ids@.contains(a) implies is_active(
                *statuses,
                a,
            ) by {
                if c == k {
                    let x = choose|x: int| 0 <= x < ids@.len() && ids@[x] == a;
                    assert(is_active(*statuses, ids@[x]));
                }
            }
        }
        k += 1;
    }
    true
}

/// Whether the record of incompatibilities speaks of blocks that are active and not
/// final only, each once.
fn gi_holds_only_living(gi: &IdMap<Vec<BlockId>>, statuses: &IdMap<BlockStatus>) -> (r: bool)
    requires
        gi.wf(),
        statuses.wf(),
    ensures
        r == gi_holds_actives(*gi, *statuses),
{
    let mut j: usize = 0;
    while j < gi.entries.len()
        invariant
            j <= gi.entries@.len(),
            gi.wf(),
            statuses.wf(),
            forall|m: int|
                0 <= m < j ==> is_active(*statuses, (#[trigger] gi.entries@[m]).0) && !is_final(
                    *statuses,
                    gi.entries@[m].0,
                ) && ids_distinct(gi.entries@[m].1@),
            forall|m: int, b: BlockId|
                0 <= m < j && (#[trigger] gi.entries@[m]).1@.contains(b) ==> #[trigger] is_active(
                    *statuses,
                    b,
                ) && !is_final(*statuses, b),
        decreases gi.entries@.len() - j,
    {
        let a = gi.entries[j].0;
        let list = &gi.entries[j].1;
        proof {
            gi.lemma_entry(j as int);
        }
        if !block_is_living(statuses, &a) || !ids_are_distinct(list) {
            return false;
        }
        let mut p: usize = 0;
        while p < list.len()
            invariant
                p <= list@.len(),
                statuses.wf(),
                gi.has(a),
                list@ == gi.value(a)@,
                forall|x: int|
                    0 <= x < p ==> is_active(*statuses, #[trigger] list@[x]) && !is_final(
                        *statuses,
                        list@[x],
                    ),
            decreases list@.len() - p,
        {
            if !block_is_living(statuses, &list[p]) {
                proof {
                    assert(gi.value(a)@.contains(list@[p as int]));
                }
                return false;
            }
            p += 1;
        }
        proof {
            assert forall|m: int, b: BlockId|
                0 <= m < j + 1 && (#[trigger] gi.entries@[m]).1@.contains(
                    b,
                ) implies #[trigger] is_active(*statuses, b) && !is_final(*statuses, b) by {
                if m == j {
                    let x = choose|x: int| 0 <= x < list@.len() && list@[x] == b;
                    assert(is_active(*statuses, list@[x]));
                }
            }
        }
        j += 1;
    }
    proof {
        assert forall|a: BlockId| #[trigger] gi.has(a) implies is_active(*statuses, a) && !is_final(
            *statuses,
            a,
        ) && ids_distinct(gi.value(a)@) by {
            let m = gi.index_of(a);
            assert(gi.entries@[m].0 == a);
        }
        assert forall|a: BlockId, b: BlockId|
            gi.has(a) && #[trigger] gi.value(a)@.contains(b) implies is_active(*statuses, b)
            && !is_final(*statuses, b) by {
            let m = gi.index_of(a);
            assert(gi.entries@[m].1@.contains(b));
        }
    }
    true
}

/// Whether the known parent `p` of a block may be one of a final block: it is
/// final, or was final and is no longer kept; `of_final` tells whether the block is
/// final. The known parent of another active block is active or discarded.
fn parent_is_settled(statuses: &IdMap<BlockStatus>, p: &BlockId, of_final: bool) -> (r: bool)
    requires
        statuses.wf(),
    ensures
        r == (!statuses.has(*p) || ((is_active(*statuses, *p) || is_discarded(*statuses, *p)) && (
        of_final ==> is_final(*statuses, *p) || is_pruned(*statuses, *p)))),
{
    match statuses.get(p) {
        None => true,
        Some(BlockStatus::Active { a_block, .. }) => !of_final || a_block.is_final,
        Some(BlockStatus::Discarded { reason, .. }) => {
            !of_final || match reason {
                DiscardReason::Final => true,
                _ => false,
            }
        },
        Some(_) => false,
    }
}

/// Whether every known parent of an active block is active or discarded, and
/// every known parent of a final block final, or discarded for having been final.
fn all_parents_settled(statuses: &IdMap<BlockStatus>) -> (r: bool)
    requires
        statuses.wf(),
    ensures
        r == (finals_closed(*statuses) && parents_settled(*statuses)),
{
    let mut i: usize = 0;
    while i < statuses.entries.len()
        invariant
            i <= statuses.entries@.len(),
            statuses.wf(),
            forall|j: int, k: int|
                0 <= j < i && (statuses.entries@[j].1 matches BlockStatus::Active { a_block, .. }
                    && 0 <= k < a_block.parents@.len() && statuses.has(
                    #[trigger] active_block(*statuses, statuses.entries@[j].0).parents@[k].0,
                )) ==> {
                    let id = statuses.entries@[j].0;
                    let p = active_block(*statuses, id).parents@[k].0;
                    &&& is_active(*statuses, p) || is_discarded(*statuses, p)
                    &&& is_final(*statuses, id) ==> is_final(*statuses, p) || is_pruned(
                        *statuses,
                        p,
                    )
                },
        decreases statuses.entries@.len() - i,
    {
        proof {
            statuses.lemma_entry(i as int);
        }
        let ghost id = statuses.entries@[i as int].0;
        match &statuses.entries[i].1 {
            BlockStatus::Active { a_block, .. } => {
                let mut k: usize = 0;
                while k < a_block.parents.len()
                    invariant
                        k <= a_block.parents@.len(),
                        statuses.wf(),
                        i < statuses.entries@.len(),
                        id == statuses.entries@[i as int].0,
                        is_active(*statuses, id),
                        *a_block == active_block(*statuses, id),
                        forall|m: int|
                            0 <= m < k && statuses.has(
                                #[trigger] active_block(*statuses, id).parents@[m].0,
                            ) ==> {
                                let p = active_block(*statuses, id).parents@[m].0;
                                &&& is_active(*statuses, p) || is_discarded(*statuses, p)
                                &&& is_final(*statuses, id) ==> is_final(*statuses, p)
                                    || is_pruned(*statuses, p)
                            },
                    decreases a_block.parents@.len() - k,
                {
                    if !parent_is_settled(statuses, &a_block.parents[k].0, a_block.is_final) {
                        proof {
                            let p = active_block(*statuses, id).parents@[k as int].0;
                            assert(statuses.has(p));
                            assert(!(finals_closed(*statuses) && parents_settled(*statuses)));
                        }
                        return false;
                    }
                    k += 1;
                }
            },
            _ => {},
        }
        i += 1;
    }
    proof {
        assert forall|id: BlockId, k: int|
            is_final(*statuses, id) && 0 <= k < active_block(*statuses, id).parents@.len()
                && statuses.has(
                #[trigger] active_block(*statuses, id).parents@[k].0,
            ) implies is_final(*statuses, active_block(*statuses, id).parents@[k].0) || is_pruned(
            *statuses,
            active_block(*statuses, id).parents@[k].0,
        ) by {
            let j = statuses.index_of(id);
            assert(statuses.entries@[j].0 == id);
            statuses.lemma_entry(j);
        }
        assert forall|id: BlockId, k: int|
            is_active(*statuses, id) && 0 <= k < active_block(*statuses, id).parents@.len()
                && statuses.has(
                #[trigger] active_block(*statuses, id).parents@[k].0,
            ) implies is_active(*statuses, active_block(*statuses, id).parents@[k].0)
            || is_discarded(*statuses, active_block(*statuses, id).parents@[k].0) by {
            let j = statuses.index_of(id);
            assert(statuses.entries@[j].0 == id);
            statuses.lemma_entry(j);
        }
    }
    true
}

impl ConsensusState {
    /// Whether the state is one that can be reached.
    pub fn is_well_formed(&self) -> (r: bool)
        ensures
            r == self.wf(),
    {
        if !self.config.is_valid() {
            return false;
        }
        if !keys_are_distinct(&self.block_statuses) {
            return false;
        }
        if !all_links_in_order(&self.block_statuses, self.config.thread_count) {
            return false;
        }
        if !keys_are_distinct(&self.gi_head) {
            return false;
        }
        if !has_one_blockclique(&self.max_cliques) {
            return false;
        }
        if !all_cliques_compatible(&self.max_cliques, &self.gi_head) {
            return false;
        }
        if !cliques_hold_only_actives(&self.max_cliques, &self.block_statuses) {
            return false;
        }
        if !gi_holds_only_living(&self.gi_head, &self.block_statuses) {
            return false;
        }
        if !all_parents_settled(&self.block_statuses) {
            return false;
        }
        self.latest_final_blocks_periods.len() == self.config.thread_count as usize
    }
}

} // verus!
