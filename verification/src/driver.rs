//! The driver of the graph: how a block that is handed in moves from status to
//! status.

use vstd::prelude::*;
use crate::address::Address;
use crate::block::{spec_header_signed, BlockHeader};
use crate::block_id::BlockId;
use crate::compat::{all_living_but, is_incompatible_with_new};
use crate::engine::{
    added,
    is_parent_of_active,
    is_parent_of_final,
    lemma_status_given,
    same_but_one,
    Entry,
};
use crate::finality::{
    finality_settled,
    kept_clique_overflows,
    forgetting,
    lemma_follows_closely_chain,
    lemma_follows_closely_self,
    lemma_waiting_was_waiting,
};
use crate::graph::{ActiveBlock, BlockStatus, DiscardReason, HeaderOrBlock};
use crate::id_map::{lemma_same_keys, IdMap};
use crate::links::same_but_links;
use crate::id_set::{
    id_list_contains,
    id_list_insert,
    id_list_without,
    id_set,
    ids_distinct,
    ids_without,
    lemma_ids_without,
};
use crate::slot::{lemma_slot_order_total, Slot};
use crate::state::{
    active_block,
    is_active,
    is_discarded,
    is_final,
    is_pruned,
    ConsensusState,
    GraphError,
};

verus! {

/// What the check of a header says of the block.
#[derive(Debug)]
pub enum Verdict {
    /// The block can enter the graph, with these parents and their periods,
    /// incompatible with these blocks, with this fitness.
    Proceed { parents: Vec<(BlockId, u64)>, incomp: Vec<BlockId>, fitness: u64 },
    /// The block is rejected.
    Discard(DiscardReason),
    /// The slot of the block is still in the future.
    WaitForSlot,
    /// These blocks, which the block depends on, are not in the graph yet.
    WaitForDependencies(Vec<BlockId>),
}

/// Whether a header is malformed for a configuration: it is not signed by its
/// creator, its thread is not one of the threads, it is at period 0, it does not
/// have one parent per thread, or it has too many endorsements.
pub open spec fn header_malformed(header: BlockHeader, config: crate::config::ConsensusConfig) -> bool {
    ||| header@.content.endorsements.len() > u32::MAX
    ||| !spec_header_signed(header@)
    ||| header.content.slot.thread >= config.thread_count
    ||| header.content.slot.period == 0
    ||| header.content.parents@.len() != config.thread_count
    ||| header.content.endorsements@.len() > config.endorsement_count
}

/// Whether a slot is too far ahead of the current slot to be looked at.
pub open spec fn too_far_ahead(slot: Slot, current: Slot, config: crate::config::ConsensusConfig) -> bool {
    slot.period > current.period + config.future_block_processing_max_periods
}

/// Whether the header of a block, with the current slot and the latest final
/// blocks, tells what becomes of the block, whatever its parents are: it is
/// malformed, too far ahead, ahead of the current slot, or not above the latest
/// final block of its thread.
pub open spec fn settled_by_header(state: ConsensusState, header: BlockHeader, current_slot: Slot) -> bool {
    ||| header_malformed(header, state.config)
    ||| too_far_ahead(header.content.slot, current_slot, state.config)
    ||| current_slot.spec_lt(header.content.slot)
    ||| header.content.slot.period
        <= state.latest_final_blocks_periods@[header.content.slot.thread as int].1
}

/// Whether a block is known and was discarded as invalid.
pub open spec fn is_invalid(statuses: IdMap<BlockStatus>, id: BlockId) -> bool {
    statuses.has(id) && (statuses.value(id) matches BlockStatus::Discarded { reason, .. } && reason
        == DiscardReason::Invalid)
}

/// Whether a block is not in the graph yet: neither active nor discarded.
pub open spec fn is_missing(statuses: IdMap<BlockStatus>, id: BlockId) -> bool {
    !is_active(statuses, id) && !is_discarded(statuses, id)
}

/// Whether one of the first `n` blocks of `parents` was discarded as invalid.
pub open spec fn some_parent_invalid(statuses: IdMap<BlockStatus>, parents: Seq<BlockId>, n: int) -> bool {
    exists|k: int| 0 <= k < n && is_invalid(statuses, #[trigger] parents[k])
}

/// Whether one of the first `n` blocks of `parents` was discarded.
pub open spec fn some_parent_discarded(
    statuses: IdMap<BlockStatus>,
    parents: Seq<BlockId>,
    n: int,
) -> bool {
    exists|k: int| 0 <= k < n && is_discarded(statuses, #[trigger] parents[k])
}

/// Whether `y` is one of the first `n` blocks of `parents` and is not in the graph
/// yet.
pub open spec fn is_missing_parent(
    statuses: IdMap<BlockStatus>,
    parents: Seq<BlockId>,
    n: int,
    y: BlockId,
) -> bool {
    is_missing(statuses, y) && exists|k: int| 0 <= k < n && #[trigger] parents[k] == y
}

/// Whether one of the first `n` blocks of `parents` is not in the graph yet.
pub open spec fn some_parent_missing(
    statuses: IdMap<BlockStatus>,
    parents: Seq<BlockId>,
    n: int,
) -> bool {
    exists|k: int| 0 <= k < n && is_missing(statuses, #[trigger] parents[k])
}

/// Whether the active block `parent` fits as the parent in thread `k` of a block at
/// `slot`: it is in that thread, and it is not after the block; in the block's own
/// thread it is before the block.
pub open spec fn parent_fits(parent: ActiveBlock, k: int, slot: Slot) -> bool {
    &&& parent.slot.thread == k
    &&& if k == slot.thread {
        parent.slot.period < slot.period
    } else {
        parent.slot.period <= slot.period
    }
}

/// Whether those of the first `n` blocks of `parents` that are active fit as
/// parents of a block at `slot`.
pub open spec fn active_parents_fit(
    statuses: IdMap<BlockStatus>,
    parents: Seq<BlockId>,
    n: int,
    slot: Slot,
) -> bool {
    forall|k: int|
        0 <= k < n && is_active(statuses, #[trigger] parents[k]) ==> parent_fits(
            active_block(statuses, parents[k]),
            k,
            slot,
        )
}

/// Whether the first `n` endorsements of a header are of the block `parent`.
pub open spec fn endorsements_are_of(header: BlockHeader, n: int, parent: BlockId) -> bool {
    forall|e: int|
        0 <= e < n ==> (#[trigger] header.content.endorsements@[e]).content.endorsed_block
            == parent
}

/// Whether the parents of a header, all active, fit the block, and its
/// endorsements are of its parent in its own thread.
pub open spec fn parents_fit(statuses: IdMap<BlockStatus>, header: BlockHeader) -> bool {
    &&& active_parents_fit(
        statuses,
        header.content.parents@,
        header.content.parents@.len() as int,
        header.content.slot,
    )
    &&& endorsements_are_of(
        header,
        header.content.endorsements@.len() as int,
        header.content.parents@[header.content.slot.thread as int],
    )
}

/// What is said of the parents of a header does not depend on a block that is
/// neither active nor discarded, before or after.
pub proof fn lemma_parents_seen_alike(
    before: IdMap<BlockStatus>,
    after: IdMap<BlockStatus>,
    id: BlockId,
    header: BlockHeader,
)
    requires
        same_but_one(before, after, id),
        is_missing(before, id),
        is_missing(after, id),
    ensures
        forall|n: int|
            some_parent_invalid(before, header.content.parents@, n) == #[trigger] some_parent_invalid(
                after,
                header.content.parents@,
                n,
            ),
        forall|n: int|
            some_parent_discarded(before, header.content.parents@, n)
                == #[trigger] some_parent_discarded(after, header.content.parents@, n),
        forall|n: int|
            some_parent_missing(before, header.content.parents@, n) == #[trigger] some_parent_missing(
                after,
                header.content.parents@,
                n,
            ),
        parents_fit(before, header) == parents_fit(after, header),
{
    let ps = header.content.parents@;
    assert forall|x: BlockId|
        is_invalid(before, x) == is_invalid(after, x) && is_discarded(before, x) == is_discarded(
            after,
            x,
        ) && is_active(before, x) == is_active(after, x) && is_missing(before, x) == is_missing(
            after,
            x,
        ) && (is_active(before, x) ==> active_block(before, x) == active_block(after, x)) by {
        if x != id {
            assert(after.has(x) == before.has(x));
        }
    }
    assert forall|n: int|
        some_parent_invalid(before, ps, n) == #[trigger] some_parent_invalid(after, ps, n) by {
        if some_parent_invalid(before, ps, n) {
            let k = choose|k: int| 0 <= k < n && is_invalid(before, #[trigger] ps[k]);
            assert(is_invalid(after, ps[k]));
        }
        if some_parent_invalid(after, ps, n) {
            let k = choose|k: int| 0 <= k < n && is_invalid(after, #[trigger] ps[k]);
            assert(is_invalid(before, ps[k]));
        }
    }
    assert forall|n: int|
        some_parent_discarded(before, ps, n) == #[trigger] some_parent_discarded(after, ps, n) by {
        if some_parent_discarded(before, ps, n) {
            let k = choose|k: int| 0 <= k < n && is_discarded(before, #[trigger] ps[k]);
            assert(is_discarded(after, ps[k]));
        }
        if some_parent_discarded(after, ps, n) {
            let k = choose|k: int| 0 <= k < n && is_discarded(after, #[trigger] ps[k]);
            assert(is_discarded(before, ps[k]));
        }
    }
    assert forall|n: int|
        some_parent_missing(before, ps, n) == #[trigger] some_parent_missing(after, ps, n) by {
        if some_parent_missing(before, ps, n) {
            let k = choose|k: int| 0 <= k < n && is_missing(before, #[trigger] ps[k]);
            assert(is_missing(after, ps[k]));
        }
        if some_parent_missing(after, ps, n) {
            let k = choose|k: int| 0 <= k < n && is_missing(after, #[trigger] ps[k]);
            assert(is_missing(before, ps[k]));
        }
    }
    let n = ps.len() as int;
    let slot = header.content.slot;
    if active_parents_fit(before, ps, n, slot) {
        assert forall|k: int| 0 <= k < n && is_active(after, #[trigger] ps[k]) implies parent_fits(
            active_block(after, ps[k]),
            k,
            slot,
        ) by {
            assert(is_active(before, ps[k]));
        }
    }
    if active_parents_fit(after, ps, n, slot) {
        assert forall|k: int| 0 <= k < n && is_active(before, #[trigger] ps[k]) implies parent_fits(
            active_block(before, ps[k]),
            k,
            slot,
        ) by {
            assert(is_active(after, ps[k]));
        }
    }
}

/// A block that is known and neither active nor discarded is a parent of no active
/// block.
pub proof fn lemma_unsettled_is_no_parent(state: ConsensusState, id: BlockId)
    requires
        state.wf(),
        state.block_statuses.has(id),
        !is_active(state.block_statuses, id),
        !is_discarded(state.block_statuses, id),
    ensures
        !is_parent_of_active(state.block_statuses, id),
        !is_parent_of_final(state.block_statuses, id),
{
    let s0 = state.block_statuses;
    if is_parent_of_active(s0, id) {
        let x = choose|x: BlockId| #[trigger] is_active(s0, x) && active_block(s0, x).has_parent(id);
        let k = choose|k: int|
            0 <= k < active_block(s0, x).parents@.len() && active_block(s0, x).parents@[k].0 == id;
        assert(s0.has(active_block(s0, x).parents@[k].0));
    }
    if is_parent_of_final(s0, id) {
        let x = choose|x: BlockId| #[trigger] is_final(s0, x) && active_block(s0, x).has_parent(id);
        assert(is_active(s0, x));
    }
}

impl ConsensusState {
    /// Checks the header of the block `id` against the graph at the slot
    /// `current_slot`.
    ///
    /// A malformed header and a header too far ahead are rejected as invalid. A
    /// header whose slot is after the current slot waits for its slot. A header
    /// whose period is not above that of the latest final block of its thread is
    /// rejected as stale. A header with a parent that was discarded is rejected: as
    /// invalid where the parent was invalid, as stale otherwise. A header with a
    /// parent that is not active waits for it. A header whose parents do not fit
    /// (a parent is not in its thread; the parent in the block's thread is not
    /// before the block; another parent is after the block; an endorsement is not
    /// of the parent in the block's thread) is rejected as invalid. Any other
    /// header can enter the graph.
    pub fn check_header(&self, id: &BlockId, header: &BlockHeader, current_slot: Slot) -> (r: Verdict)
        requires
            self.wf(),
        ensures
            header_malformed(*header, self.config) ==> r matches Verdict::Discard(
                DiscardReason::Invalid,
            ),
            !header_malformed(*header, self.config) && too_far_ahead(
                header.content.slot,
                current_slot,
                self.config,
            ) ==> r matches Verdict::Discard(DiscardReason::Invalid),
            !header_malformed(*header, self.config) && !too_far_ahead(
                header.content.slot,
                current_slot,
                self.config,
            ) && current_slot.spec_lt(header.content.slot) ==> r is WaitForSlot,
            !header_malformed(*header, self.config) && !current_slot.spec_lt(header.content.slot)
                && header.content.slot.period
                <= self.latest_final_blocks_periods@[header.content.slot.thread as int].1
                ==> r matches Verdict::Discard(DiscardReason::Stale),
            !settled_by_header(*self, *header, current_slot) && some_parent_invalid(
                self.block_statuses,
                header.content.parents@,
                header.content.parents@.len() as int,
            ) ==> r matches Verdict::Discard(DiscardReason::Invalid),
            !settled_by_header(*self, *header, current_slot) && !some_parent_invalid(
                self.block_statuses,
                header.content.parents@,
                header.content.parents@.len() as int,
            ) && some_parent_discarded(
                self.block_statuses,
                header.content.parents@,
                header.content.parents@.len() as int,
            ) ==> r matches Verdict::Discard(DiscardReason::Stale),
            !settled_by_header(*self, *header, current_slot) && !some_parent_discarded(
                self.block_statuses,
                header.content.parents@,
                header.content.parents@.len() as int,
            ) && some_parent_missing(
                self.block_statuses,
                header.content.parents@,
                header.content.parents@.len() as int,
            ) ==> r is WaitForDependencies,
            !settled_by_header(*self, *header, current_slot) && !some_parent_discarded(
                self.block_statuses,
                header.content.parents@,
                header.content.parents@.len() as int,
            ) && !some_parent_missing(
                self.block_statuses,
                header.content.parents@,
                header.content.parents@.len() as int,
            ) && !parents_fit(self.block_statuses, *header) ==> r matches Verdict::Discard(
                DiscardReason::Invalid,
            ),
            !settled_by_header(*self, *header, current_slot) && !some_parent_discarded(
                self.block_statuses,
                header.content.parents@,
                header.content.parents@.len() as int,
            ) && !some_parent_missing(
                self.block_statuses,
                header.content.parents@,
                header.content.parents@.len() as int,
            ) && parents_fit(self.block_statuses, *header) ==> r is Proceed,
            r is WaitForSlot ==> current_slot.spec_lt(header.content.slot),
            r matches Verdict::Discard(reason) ==> reason != DiscardReason::Final,
            r matches Verdict::WaitForDependencies(missing) ==> missing@.len() > 0 && ids_distinct(
                missing@,
            ) && forall|y: BlockId|
                #![trigger missing@.contains(y)]
                missing@.contains(y) <==> is_missing_parent(
                    self.block_statuses,
                    header.content.parents@,
                    header.content.parents@.len() as int,
                    y,
                ),
            r matches Verdict::Proceed { parents, incomp, fitness } ==> {
                &&& forall|y: BlockId|
                    #![trigger incomp@.contains(y)]
                    incomp@.contains(y) <==> is_incompatible_with_new(
                        self.block_statuses,
                        self.gi_head,
                        header.content.slot.thread as int,
                        parents@,
                        *id,
                        y,
                    )
                &&& !header_malformed(*header, self.config)
                &&& !current_slot.spec_lt(header.content.slot)
                &&& parents@.len() == header.content.parents@.len()
                &&& forall|k: int|
                    0 <= k < parents@.len() ==> (#[trigger] parents@[k]).0
                        == header.content.parents@[k] && is_active(
                        self.block_statuses,
                        parents@[k].0,
                    ) && parents@[k].1 == active_block(
                        self.block_statuses,
                        parents@[k].0,
                    ).slot.period
                &&& all_living_but(self.block_statuses, incomp@, *id)
                &&& fitness == BlockHeader::spec_fitness(header@.content.endorsements.len())
            },
    {
        let slot = header.content.slot;
        let thread_count = self.config.thread_count;
        match header.check_signature() {
            Ok(()) => {},
            Err(_) => { return Verdict::Discard(DiscardReason::Invalid); },
        }
        proof {
            assert(header@.content.endorsements.len() == header.content.endorsements@.len());
            assert(header@.content.parents.len() == header.content.parents@.len());
        }
        if slot.thread >= thread_count || slot.period == 0 || header.content.parents.len()
            != thread_count as usize || header.content.endorsements.len()
            > self.config.endorsement_count as usize {
            return Verdict::Discard(DiscardReason::Invalid);
        }
        let ahead = match current_slot.period.checked_add(
            self.config.future_block_processing_max_periods,
        ) {
            Some(limit) => slot.period > limit,
            None => false,
        };
        if ahead {
            return Verdict::Discard(DiscardReason::Invalid);
        }
        if current_slot.is_before(&slot) {
            return Verdict::WaitForSlot;
        }
        let thread = slot.thread as usize;
        if slot.period <= self.latest_final_blocks_periods[thread].1 {
            return Verdict::Discard(DiscardReason::Stale);
        }
        // the parents
        let mut parents: Vec<(BlockId, u64)> = Vec::new();
        let mut missing: Vec<BlockId> = Vec::new();
        let mut rejected: Option<DiscardReason> = None;
        let mut fits: bool = true;
        let n = header.content.parents.len();
        let mut t: usize = 0;
        while t < n
            invariant
                t <= n,
                n == header.content.parents@.len(),
                n == thread_count,
                thread < n,
                self.wf(),
                rejected matches Some(reason) ==> reason != DiscardReason::Final,
                slot == header.content.slot,
                thread == slot.thread,
                rejected == Some(DiscardReason::Invalid) <==> some_parent_invalid(
                    self.block_statuses,
                    header.content.parents@,
                    t as int,
                ),
                rejected is Some <==> some_parent_discarded(
                    self.block_statuses,
                    header.content.parents@,
                    t as int,
                ),
                missing@.len() > 0 <==> some_parent_missing(
                    self.block_statuses,
                    header.content.parents@,
                    t as int,
                ),
                fits <==> active_parents_fit(
                    self.block_statuses,
                    header.content.parents@,
                    t as int,
                    slot,
                ),
                ids_distinct(missing@),
                forall|y: BlockId|
                    #![trigger missing@.contains(y)]
                    missing@.contains(y) <==> is_missing_parent(
                        self.block_statuses,
                        header.content.parents@,
                        t as int,
                        y,
                    ),
                rejected is None && missing@.len() == 0 ==> parents@.len() == t && forall|k: int|
                    0 <= k < t ==> (#[trigger] parents@[k]).0 == header.content.parents@[k]
                        && is_active(self.block_statuses, parents@[k].0) && parents@[k].1
                        == active_block(self.block_statuses, parents@[k].0).slot.period,
            decreases n - t,
        {
            let p = header.content.parents[t];
            let ghost s0 = self.block_statuses;
            let ghost ps = header.content.parents@;
            let ghost fits_before = fits;
            let ghost missing_before = missing@;
            match self.block_statuses.get(&p) {
                Some(BlockStatus::Active { a_block, .. }) => {
                    if a_block.slot.thread as usize != t {
                        fits = false;
                    }
                    if t == thread {
                        if a_block.slot.period >= slot.period {
                            fits = false;
                        }
                    } else {
                        if a_block.slot.period > slot.period {
                            fits = false;
                        }
                    }
                    parents.push((p, a_block.slot.period));
                    proof {
                        assert(is_active(s0, p));
                        assert(fits == (fits_before && parent_fits(
                            active_block(s0, p),
                            t as int,
                            slot,
                        )));
                    }
                },
                Some(BlockStatus::Discarded { reason, .. }) => {
                    match reason {
                        DiscardReason::Invalid => {
                            rejected = Some(DiscardReason::Invalid);
                        },
                        _ => {
                            if rejected.is_none() {
                                rejected = Some(DiscardReason::Stale);
                            }
                        },
                    }
                    proof {
                        assert(is_discarded(s0, p));
                    }
                },
                _ => {
                    id_list_insert(&mut missing, p);
                    proof {
                        assert(is_missing(s0, p));
                        assert forall|y: BlockId|
                            #![trigger missing@.contains(y)]
                            missing@.contains(y) <==> missing_before.contains(y) || y == p by {
                            assert(id_set(missing@).contains(y) == id_set(missing_before).insert(
                                p,
                            ).contains(y));
                            assert(id_set(missing@).contains(y) == missing@.contains(y));
                            assert(id_set(missing_before).contains(y) == missing_before.contains(
                                y,
                            ));
                        }
                        assert(missing@.contains(p));
                    }
                },
            }
            proof {
                let n = t as int;
                assert(ps[n] == p);
                // which parents were discarded as invalid
                if some_parent_invalid(s0, ps, n) {
                    let k = choose|k: int| 0 <= k < n && is_invalid(s0, #[trigger] ps[k]);
                    assert(0 <= k < n + 1 && is_invalid(s0, ps[k]));
                }
                if is_invalid(s0, p) {
                    assert(0 <= n < n + 1 && is_invalid(s0, ps[n]));
                }
                if some_parent_invalid(s0, ps, n + 1) {
                    let k = choose|k: int| 0 <= k < n + 1 && is_invalid(s0, #[trigger] ps[k]);
                    if k < n {
                        assert(some_parent_invalid(s0, ps, n));
                    }
                }
                // which were discarded
                if some_parent_discarded(s0, ps, n) {
                    let k = choose|k: int| 0 <= k < n && is_discarded(s0, #[trigger] ps[k]);
                    assert(0 <= k < n + 1 && is_discarded(s0, ps[k]));
                }
                if is_discarded(s0, p) {
                    assert(0 <= n < n + 1 && is_discarded(s0, ps[n]));
                }
                if some_parent_discarded(s0, ps, n + 1) {
                    let k = choose|k: int| 0 <= k < n + 1 && is_discarded(s0, #[trigger] ps[k]);
                    if k < n {
                        assert(some_parent_discarded(s0, ps, n));
                    }
                }
                // which are missing
                if some_parent_missing(s0, ps, n) {
                    let k = choose|k: int| 0 <= k < n && is_missing(s0, #[trigger] ps[k]);
                    assert(0 <= k < n + 1 && is_missing(s0, ps[k]));
                }
                if is_missing(s0, p) {
                    assert(0 <= n < n + 1 && is_missing(s0, ps[n]));
                }
                if some_parent_missing(s0, ps, n + 1) {
                    let k = choose|k: int| 0 <= k < n + 1 && is_missing(s0, #[trigger] ps[k]);
                    if k < n {
                        assert(some_parent_missing(s0, ps, n));
                    }
                }
                assert forall|y: BlockId|
                    #![trigger missing@.contains(y)]
                    missing@.contains(y) <==> is_missing_parent(s0, ps, n + 1, y) by {
                    if missing_before.contains(y) {
                        assert(is_missing_parent(s0, ps, n, y));
                        let k = choose|k: int| 0 <= k < n && #[trigger] ps[k] == y;
                        assert(0 <= k < n + 1 && ps[k] == y);
                    }
                    if is_missing_parent(s0, ps, n + 1, y) {
                        let k = choose|k: int| 0 <= k < n + 1 && #[trigger] ps[k] == y;
                        if k < n {
                            assert(is_missing_parent(s0, ps, n, y));
                        }
                    }
                    if y == p && is_missing(s0, p) {
                        assert(0 <= n < n + 1 && ps[n] == y);
                    }
                }
                // whether the active ones fit
                if active_parents_fit(s0, ps, n + 1, slot) {
                    assert forall|k: int|
                        0 <= k < n && is_active(s0, #[trigger] ps[k]) implies parent_fits(
                        active_block(s0, ps[k]),
                        k,
                        slot,
                    ) by {
                        assert(0 <= k < n + 1);
                    }
                }
            }
            t += 1;
        }
        match rejected {
            Some(reason) => { return Verdict::Discard(reason); },
            None => {},
        }
        if missing.len() > 0 {
            return Verdict::WaitForDependencies(missing);
        }
        // each endorsement is of the parent in the block's own thread
        let own_parent = parents[thread].0;
        let ghost parents_ok = fits;
        let mut e: usize = 0;
        while e < header.content.endorsements.len()
            invariant
                e <= header.content.endorsements@.len(),
                fits <==> parents_ok && endorsements_are_of(*header, e as int, own_parent),
            decreases header.content.endorsements@.len() - e,
        {
            if header.content.endorsements[e].content.endorsed_block != own_parent {
                fits = false;
            }
            proof {
                if endorsements_are_of(*header, e + 1, own_parent) {
                    assert forall|j: int| 0 <= j < e implies (
                    #[trigger] header.content.endorsements@[j]).content.endorsed_block
                        == own_parent by {
                        assert(0 <= j < e + 1);
                    }
                }
            }
            e += 1;
        }
        proof {
            assert(own_parent == header.content.parents@[thread as int]);
            assert(fits == parents_fit(self.block_statuses, *header));
        }
        if !fits {
            return Verdict::Discard(DiscardReason::Invalid);
        }
        let incomp = self.compute_incompatibles(id, slot, &parents);
        let fitness = header.get_fitness();
        Verdict::Proceed { parents, incomp, fitness }
    }
}

/// What follows a state that follows another closely follows that other.
pub proof fn lemma_follows_after_closely(a: ConsensusState, b: ConsensusState, c: ConsensusState)
    requires
        b.follows(&a),
        c.follows_closely(&b),
    ensures
        c.follows(&a),
{
    assert forall|t: int|
        0 <= t < a.latest_final_blocks_periods@.len() implies a.latest_final_blocks_periods@[t].1
        <= #[trigger] c.latest_final_blocks_periods@[t].1 by {
        assert(a.latest_final_blocks_periods@[t].1 <= b.latest_final_blocks_periods@[t].1);
        assert(b.latest_final_blocks_periods@[t].1 <= c.latest_final_blocks_periods@[t].1);
    }
    assert forall|id: BlockId| #[trigger] c.block_statuses.has(id) implies {
        &&& is_discarded(a.block_statuses, id) ==> c.block_statuses.value(id) == a.block_statuses.value(id)
        &&& is_final(a.block_statuses, id) ==> is_final(c.block_statuses, id) || is_pruned(
            c.block_statuses,
            id,
        )
    } by {
        assert(b.block_statuses.has(id));
    }
}

impl ConsensusState {
    /// Whether some active block, and whether some final block, has `id` as a
    /// parent.
    pub fn parent_of(&self, id: &BlockId) -> (r: (bool, bool))
        requires
            self.block_statuses.wf(),
        ensures
            r.0 == is_parent_of_active(self.block_statuses, *id),
            r.1 == is_parent_of_final(self.block_statuses, *id),
    {
        let mut of_active = false;
        let mut of_final = false;
        let mut i: usize = 0;
        while i < self.block_statuses.entries.len()
            invariant
                self.block_statuses.wf(),
                i <= self.block_statuses.entries@.len(),
                of_active <==> exists|j: int|
                    0 <= j < i && ((#[trigger] self.block_statuses.entries@[j]).1 matches BlockStatus::Active {
                        a_block,
                        ..
                    } && a_block.has_parent(*id)),
                of_final <==> exists|j: int|
                    0 <= j < i && ((#[trigger] self.block_statuses.entries@[j]).1 matches BlockStatus::Active {
                        a_block,
                        ..
                    } && a_block.is_final && a_block.has_parent(*id)),
            decreases self.block_statuses.entries@.len() - i,
        {
            match &self.block_statuses.entries[i].1 {
                BlockStatus::Active { a_block, .. } => {
                    if a_block.is_child_of(id) {
                        of_active = true;
                        if a_block.is_final {
                            of_final = true;
                        }
                    }
                },
                _ => {},
            }
            i += 1;
        }
        proof {
            let s = self.block_statuses;
            if of_active {
                let j = choose|j: int|
                    0 <= j < s.entries@.len() && ((#[trigger] s.entries@[j]).1 matches BlockStatus::Active {
                        a_block,
                        ..
                    } && a_block.has_parent(*id));
                s.lemma_entry(j);
                assert(is_active(s, s.entries@[j].0));
            }
            if is_parent_of_active(s, *id) {
                let x = choose|x: BlockId| #[trigger]
                    is_active(s, x) && active_block(s, x).has_parent(*id);
                let j = s.index_of(x);
                assert(s.entries@[j].1 is Active);
            }
            if of_final {
                let j = choose|j: int|
                    0 <= j < s.entries@.len() && ((#[trigger] s.entries@[j]).1 matches BlockStatus::Active {
                        a_block,
                        ..
                    } && a_block.is_final && a_block.has_parent(*id));
                s.lemma_entry(j);
                assert(is_final(s, s.entries@[j].0));
            }
            if is_parent_of_final(s, *id) {
                let x = choose|x: BlockId| #[trigger]
                    is_final(s, x) && active_block(s, x).has_parent(*id);
                let j = s.index_of(x);
                assert(s.entries@[j].1 is Active);
            }
        }
        (of_active, of_final)
    }

    /// Gives the block `id`, which is known and neither active nor discarded, a
    /// status that is not that of an active block.
    pub fn move_unsettled(&mut self, id: BlockId, status: BlockStatus)
        requires
            old(self).wf(),
            old(self).block_statuses.has(id),
            !is_active(old(self).block_statuses, id),
            !is_discarded(old(self).block_statuses, id),
            !(status is Active),
        ensures
            final(self).wf(),
            final(self).follows_closely(old(self)),
            final(self).block_statuses.has(id),
            final(self).block_statuses.value(id) == status,
            same_but_one(old(self).block_statuses, final(self).block_statuses, id),
            *final(self) == (ConsensusState { block_statuses: final(self).block_statuses, ..*old(self) }),
            final(self).block_statuses.entries@ == old(self).block_statuses.entries@.update(
                old(self).block_statuses.index_of(id),
                (id, status),
            ),
    {
        proof {
            lemma_unsettled_is_no_parent(*self, id);
        }
        self.give_status(id, status);
        proof {
            assert forall|x: BlockId| #[trigger] self.block_statuses.has(x) implies old(
                self,
            ).block_statuses.has(x) by {
                if x != id {
                    assert(self.block_statuses.has(x) == old(self).block_statuses.has(x));
                }
            }
        }
    }

    /// Lets go of the blocks that wait for the block `id`: `id` leaves what they
    /// wait for, and those that wait for nothing more are incoming again. Returns
    /// the blocks that are incoming again.
    pub fn release_dependents(&mut self, id: &BlockId) -> (r: Vec<BlockId>)
        requires
            old(self).wf(),
        ensures
            final(self).wf(),
            final(self).follows_closely(old(self)),
            forall|x: BlockId|
                #![trigger final(self).block_statuses.has(x)]
                final(self).block_statuses.has(x) == old(self).block_statuses.has(x),
            forall|x: BlockId|
                #![trigger final(self).block_statuses.value(x)]
                #![trigger old(self).block_statuses.has(x)]
                old(self).block_statuses.has(x) ==> let_go(
                    old(self).block_statuses.value(x),
                    final(self).block_statuses.value(x),
                    *id,
                ),
            forall|x: BlockId|
                #![trigger final(self).block_statuses.value(x)]
                #![trigger old(self).block_statuses.has(x)]
                old(self).block_statuses.has(x) && !(old(self).block_statuses.value(
                    x,
                ) is WaitingForDependencies) ==> final(self).block_statuses.value(x) == old(
                    self,
                ).block_statuses.value(x),
            forall|x: BlockId|
                #![trigger r@.contains(x)]
                r@.contains(x) <==> old(self).block_statuses.has(x) && waits_for(
                    old(self).block_statuses.value(x),
                    *id,
                ) && ids_without(
                    old(self).block_statuses.value(x)->unsatisfied_dependencies@,
                    *id,
                ).len() == 0,
            forall|x: BlockId|
                r@.contains(x) ==> final(self).block_statuses.has(x) && final(self).block_statuses.value(x) is Incoming,
            waiters_kept(*final(self), *old(self)),
            *final(self) == (ConsensusState { block_statuses: final(self).block_statuses, ..*old(self) }),
    {
        let mut released: Vec<BlockId> = Vec::new();
        // the blocks that wait for `id`
        let mut waiting: Vec<BlockId> = Vec::new();
        let mut i: usize = 0;
        while i < self.block_statuses.entries.len()
            invariant
                i <= self.block_statuses.entries@.len(),
                *self == *old(self),
                self.wf(),
                forall|j: int|
                    0 <= j < i && waits_for((#[trigger] self.block_statuses.entries@[j]).1, *id)
                        ==> waiting@.contains(self.block_statuses.entries@[j].0),
                forall|x: BlockId|
                    #![trigger waiting@.contains(x)]
                    waiting@.contains(x) ==> self.block_statuses.has(x) && waits_for(
                        self.block_statuses.value(x),
                        *id,
                    ),
            decreases self.block_statuses.entries@.len() - i,
        {
            let ghost waiting_before = waiting@;
            match &self.block_statuses.entries[i].1 {
                BlockStatus::WaitingForDependencies { unsatisfied_dependencies, .. } => {
                    if id_list_contains(unsatisfied_dependencies, id) {
                        waiting.push(self.block_statuses.entries[i].0);
                        proof {
                            self.block_statuses.lemma_entry(i as int);
                            assert(waiting@[waiting@.len() - 1]
                                == self.block_statuses.entries@[i as int].0);
                        }
                    }
                },
                _ => {},
            }
            proof {
                assert forall|x: BlockId| waiting_before.contains(x) implies waiting@.contains(
                    x,
                ) by {
                    let m = choose|m: int| 0 <= m < waiting_before.len() && waiting_before[m] == x;
                    assert(waiting@[m] == x);
                }
                assert forall|x: BlockId|
                    #![trigger waiting@.contains(x)]
                    waiting@.contains(x) implies self.block_statuses.has(x) && waits_for(
                    self.block_statuses.value(x),
                    *id,
                ) by {
                    let m = choose|m: int| 0 <= m < waiting@.len() && waiting@[m] == x;
                    if m < waiting_before.len() {
                        assert(waiting_before[m] == x);
                        assert(waiting_before.contains(x));
                    }
                }
            }
            i += 1;
        }
        proof {
            lemma_follows_closely_self(*self);
            assert forall|x: BlockId|
                self.block_statuses.has(x) && waits_for(
                    self.block_statuses.value(x),
                    *id,
                ) implies waiting@.contains(x) by {
                let j = self.block_statuses.index_of(x);
                assert(self.block_statuses.entries@[j].0 == x);
            }
        }
        let mut k: usize = 0;
        while k < waiting.len()
            invariant
                k <= waiting@.len(),
                self.wf(),
                self.follows_closely(old(self)),
                *self == (ConsensusState { block_statuses: self.block_statuses, ..*old(self) }),
                forall|x: BlockId|
                    #![trigger waiting@.contains(x)]
                    waiting@.contains(x) <==> old(self).block_statuses.has(x) && waits_for(
                        old(self).block_statuses.value(x),
                        *id,
                    ),
                forall|x: BlockId|
                    #![trigger self.block_statuses.has(x)]
                    self.block_statuses.has(x) == old(self).block_statuses.has(x),
                forall|x: BlockId|
                    #![trigger self.block_statuses.value(x)]
                    #![trigger old(self).block_statuses.has(x)]
                    old(self).block_statuses.has(x) ==> if among_first(waiting@, k as int, x) {
                        let_go(
                            old(self).block_statuses.value(x),
                            self.block_statuses.value(x),
                            *id,
                        )
                    } else {
                        self.block_statuses.value(x) == old(self).block_statuses.value(x)
                    },
                forall|x: BlockId|
                    #![trigger released@.contains(x)]
                    released@.contains(x) <==> among_first(waiting@, k as int, x) && ids_without(
                        old(self).block_statuses.value(x)->unsatisfied_dependencies@,
                        *id,
                    ).len() == 0,
                waiters_kept(*self, *old(self)),
            decreases waiting@.len() - k,
        {
            let w = waiting[k];
            let ghost prev = *self;
            let ghost released_before = released@;
            let ghost seen = among_first(waiting@, k as int, w);
            proof {
                assert(waiting@.contains(w));
                assert(old(self).block_statuses.has(w));
                if seen {
                    let d = old(self).block_statuses.value(w)->unsatisfied_dependencies@;
                    lemma_ids_without(d, *id);
                    assert(!ids_without(d, *id).contains(*id));
                    assert(!waits_for(self.block_statuses.value(w), *id));
                }
            }
            let still_waiting = match self.block_statuses.get(&w) {
                Some(BlockStatus::WaitingForDependencies { unsatisfied_dependencies, .. }) => {
                    id_list_contains(unsatisfied_dependencies, id)
                },
                _ => false,
            };
            if still_waiting {
                let taken = self.block_statuses.remove(&w);
                let status = match taken {
                    Some(
                        BlockStatus::WaitingForDependencies {
                            header_or_block,
                            unsatisfied_dependencies,
                            sequence_number,
                        },
                    ) => {
                        let rest = id_list_without(&unsatisfied_dependencies, id);
                        if rest.len() == 0 {
                            released.push(w);
                            BlockStatus::Incoming(header_or_block)
                        } else {
                            BlockStatus::WaitingForDependencies {
                                header_or_block,
                                unsatisfied_dependencies: rest,
                                sequence_number,
                            }
                        }
                    },
                    Some(other) => other,
                    None => BlockStatus::Discarded {
                        slot: Slot::new(0, 0),
                        creator: Address(crate::hash::Hash::from_bytes(&[0u8; 32])),
                        parents: Vec::new(),
                        reason: DiscardReason::Invalid,
                        sequence_number: 0,
                    },
                };
                self.block_statuses.insert(w, status);
                proof {
                    lemma_unsettled_is_no_parent(prev, w);
                    assert(same_but_one(prev.block_statuses, self.block_statuses, w));
                    lemma_status_given(prev, *self, w);
                    lemma_moving_keeps_waiters(prev, *self, w);
                    lemma_waiters_kept_chain(*old(self), prev, *self);
                    assert forall|x: BlockId| #[trigger] self.block_statuses.has(x) implies prev.block_statuses.has(
                        x,
                    ) by {
                        if x != w {
                            assert(self.block_statuses.has(x) == prev.block_statuses.has(x));
                        }
                    }
                    lemma_follows_closely_chain(*old(self), prev, *self);
                    assert forall|x: BlockId|
                        #![trigger self.block_statuses.has(x)]
                        self.block_statuses.has(x) == old(self).block_statuses.has(x) by {
                        if x != w {
                            assert(self.block_statuses.has(x) == prev.block_statuses.has(x));
                        }
                    }
                    assert(!seen);
                    assert(prev.block_statuses.value(w) == old(self).block_statuses.value(w));
                    assert(let_go(
                        old(self).block_statuses.value(w),
                        self.block_statuses.value(w),
                        *id,
                    ));
                }
            }
            proof {
                assert(among_first(waiting@, k + 1, w));
                assert forall|x: BlockId|
                    among_first(waiting@, k + 1, x) <==> among_first(waiting@, k as int, x) || x
                        == w by {
                    if among_first(waiting@, k as int, x) {
                        let m = choose|m: int| 0 <= m < k && waiting@[m] == x;
                        assert(0 <= m < k + 1 && waiting@[m] == x);
                    }
                    if among_first(waiting@, k + 1, x) {
                        let m = choose|m: int| 0 <= m < k + 1 && waiting@[m] == x;
                        if m < k {
                            assert(among_first(waiting@, k as int, x));
                        }
                    }
                }
                assert forall|x: BlockId|
                    #![trigger self.block_statuses.value(x)]
                    #![trigger old(self).block_statuses.has(x)]
                    old(self).block_statuses.has(x) implies if among_first(waiting@, k + 1, x) {
                    let_go(old(self).block_statuses.value(x), self.block_statuses.value(x), *id)
                } else {
                    self.block_statuses.value(x) == old(self).block_statuses.value(x)
                } by {
                    assert(prev.block_statuses.has(x));
                    if x != w {
                        assert(self.block_statuses.has(x) == prev.block_statuses.has(x));
                        assert(self.block_statuses.value(x) == prev.block_statuses.value(x));
                    }
                }
                assert forall|x: BlockId|
                    #![trigger released@.contains(x)]
                    released@.contains(x) <==> among_first(waiting@, k + 1, x) && ids_without(
                        old(self).block_statuses.value(x)->unsatisfied_dependencies@,
                        *id,
                    ).len() == 0 by {
                    if released_before.contains(x) {
                        let m = choose|m: int|
                            0 <= m < released_before.len() && released_before[m] == x;
                        assert(released@[m] == x);
                    }
                    if released@.contains(x) && !released_before.contains(x) {
                        let m = choose|m: int| 0 <= m < released@.len() && released@[m] == x;
                        if m < released_before.len() {
                            assert(released_before[m] == x);
                        }
                        assert(x == w);
                    }
                    if x == w && !seen && ids_without(
                        old(self).block_statuses.value(x)->unsatisfied_dependencies@,
                        *id,
                    ).len() == 0 {
                        assert(released@[released@.len() - 1] == w);
                    }
                }
            }
            k += 1;
        }
        proof {
            assert forall|x: BlockId|
                among_first(waiting@, waiting@.len() as int, x) <==> waiting@.contains(x) by {
                if waiting@.contains(x) {
                    let m = choose|m: int| 0 <= m < waiting@.len() && waiting@[m] == x;
                    assert(0 <= m < waiting@.len() && waiting@[m] == x);
                }
            }
            assert forall|x: BlockId|
                #![trigger self.block_statuses.value(x)]
                #![trigger old(self).block_statuses.has(x)]
                old(self).block_statuses.has(x) implies let_go(
                old(self).block_statuses.value(x),
                self.block_statuses.value(x),
                *id,
            ) by {
                if !among_first(waiting@, waiting@.len() as int, x) {
                    assert(!waiting@.contains(x));
                }
            }
            assert forall|x: BlockId| released@.contains(x) implies self.block_statuses.has(x)
                && self.block_statuses.value(x) is Incoming by {
                assert(waiting@.contains(x));
            }
            assert forall|x: BlockId|
                #![trigger released@.contains(x)]
                released@.contains(x) <==> old(self).block_statuses.has(x) && waits_for(
                    old(self).block_statuses.value(x),
                    *id,
                ) && ids_without(
                    old(self).block_statuses.value(x)->unsatisfied_dependencies@,
                    *id,
                ).len() == 0 by {
                assert(among_first(waiting@, waiting@.len() as int, x) <==> waiting@.contains(x));
            }
        }
        released
    }
}

/// Whether a status is that of a block that waits for the block `id`.
pub open spec fn waits_for(status: BlockStatus, id: BlockId) -> bool {
    status matches BlockStatus::WaitingForDependencies { unsatisfied_dependencies, .. }
        && unsatisfied_dependencies@.contains(id)
}

/// Whether `x` is one of the first `n` blocks of a list.
pub open spec fn among_first(list: Seq<BlockId>, n: int, x: BlockId) -> bool {
    exists|m: int| 0 <= m < n && list[m] == x
}

/// Whether `after` is what the status `before` becomes when the blocks that wait
/// for the block `id` are let go: a block that waits for it no longer waits for
/// it, and is incoming again where it waits for nothing more; any other status
/// stays.
pub open spec fn let_go(before: BlockStatus, after: BlockStatus, id: BlockId) -> bool {
    if waits_for(before, id) {
        let rest = ids_without(before->unsatisfied_dependencies@, id);
        if rest.len() == 0 {
            after == BlockStatus::Incoming(before->header_or_block)
        } else {
            after matches BlockStatus::WaitingForDependencies {
                header_or_block,
                unsatisfied_dependencies,
                sequence_number,
            } && header_or_block == before->header_or_block && unsatisfied_dependencies@ == rest
                && sequence_number == before->WaitingForDependencies_sequence_number
        }
    } else {
        after == before
    }
}

/// Whether `status` is one that a block can have that was received as `received`
/// and made to wait for the blocks of `missing`, with the sequence number `seq`,
/// once blocks that waited longer were dropped: it still waits, for blocks of
/// `missing`; or it is incoming again; or it was dropped, discarded as stale.
pub open spec fn waits_or_moved_on(
    status: BlockStatus,
    received: HeaderOrBlock,
    missing: Seq<BlockId>,
    seq: u64,
) -> bool {
    match status {
        BlockStatus::WaitingForDependencies {
            header_or_block,
            unsatisfied_dependencies,
            sequence_number,
        } => header_or_block == received && sequence_number == seq && forall|d: BlockId|
            unsatisfied_dependencies@.contains(d) ==> missing.contains(d),
        BlockStatus::Incoming(header_or_block) => header_or_block == received,
        BlockStatus::Discarded { .. } => discarded_as(status, received.header, DiscardReason::Stale),
        _ => false,
    }
}

/// Whether `after` knows the blocks that `before` knows, and no others.
pub open spec fn keeps_known(after: ConsensusState, before: ConsensusState) -> bool {
    forall|x: BlockId|
        #![trigger after.block_statuses.has(x)]
        after.block_statuses.has(x) == before.block_statuses.has(x)
}

/// Whether `after` is what `before` becomes when the blocks that wait for the
/// block `id` are let go, `released` being the blocks that are incoming again:
/// nothing but the statuses changes, each status as `let_go` says, and the blocks
/// that are incoming again are those that waited for `id` alone.
pub open spec fn let_go_of(
    before: ConsensusState,
    after: ConsensusState,
    id: BlockId,
    released: Seq<BlockId>,
) -> bool {
    &&& after == (ConsensusState { block_statuses: after.block_statuses, ..before })
    &&& keeps_known(after, before)
    &&& forall|x: BlockId|
        #![trigger after.block_statuses.value(x)]
        before.block_statuses.has(x) ==> let_go(
            before.block_statuses.value(x),
            after.block_statuses.value(x),
            id,
        )
    &&& forall|x: BlockId|
        #![trigger released.contains(x)]
        released.contains(x) <==> before.block_statuses.has(x) && waits_for(
            before.block_statuses.value(x),
            id,
        ) && ids_without(before.block_statuses.value(x)->unsatisfied_dependencies@, id).len() == 0
}

/// Whether `parents` are the parents of a header, each with the period of its
/// block, which is active.
pub open spec fn parents_known_as(
    statuses: IdMap<BlockStatus>,
    header: BlockHeader,
    parents: Seq<(BlockId, u64)>,
) -> bool {
    &&& parents.len() == header.content.parents@.len()
    &&& forall|k: int|
        0 <= k < parents.len() ==> (#[trigger] parents[k]).0 == header.content.parents@[k]
            && is_active(statuses, parents[k].0) && parents[k].1 == active_block(
            statuses,
            parents[k].0,
        ).slot.period
}

/// Whether `incomp` holds, each once, the blocks that a new block `id` with the
/// header `header` and the parents `parents` is incompatible with.
pub open spec fn incompatibles_are(
    state: ConsensusState,
    id: BlockId,
    header: BlockHeader,
    parents: Seq<(BlockId, u64)>,
    incomp: Seq<BlockId>,
) -> bool {
    &&& ids_distinct(incomp)
    &&& forall|y: BlockId|
        #![trigger incomp.contains(y)]
        incomp.contains(y) <==> is_incompatible_with_new(
            state.block_statuses,
            state.gi_head,
            header.content.slot.thread as int,
            parents,
            id,
            y,
        )
}

/// Whether `after` is `before` with the block `id` noted as to be sent on.
pub open spec fn noted_to_propagate(before: ConsensusState, after: ConsensusState, id: BlockId) -> bool {
    after == (ConsensusState { to_propagate: after.to_propagate, ..before })
        && after.to_propagate@ == before.to_propagate@.push(id)
}

/// Whether `after` is what `before` becomes once the block `id` was let in with
/// the outcome `entry`: where it has entered, it is noted as to be sent on and
/// finality is settled anew, and `failed` tells whether that failed; otherwise
/// nothing changes.
pub open spec fn then_settled(
    before: ConsensusState,
    after: ConsensusState,
    id: BlockId,
    entry: Result<Entry, GraphError>,
    failed: bool,
) -> bool {
    if entry == Ok::<Entry, GraphError>(Entry::Entered) {
        exists|noted: ConsensusState, finals: Result<Vec<BlockId>, GraphError>|
            noted_to_propagate(before, noted, id) && #[trigger] finality_settled(
                noted,
                after,
                finals,
            ) && failed == (finals is Err)
    } else {
        after == before && !failed
    }
}

/// Whether `after` is what `before` becomes when the incoming block `id`, received
/// as `received`, enters the graph, `r` being what the step returns.
///
/// The block is let in with the parents of its header, the fitness of its header
/// and the blocks that it is incompatible with (`added`); where it has entered it
/// is noted as to be sent on and finality is settled anew (`finality_settled`);
/// then the blocks that waited for it are let go (`let_go_of`). The step fails
/// where letting the block in or settling finality fails, and returns the blocks
/// that are incoming again otherwise.
pub open spec fn entered_step(
    before: ConsensusState,
    after: ConsensusState,
    id: BlockId,
    received: HeaderOrBlock,
    r: Result<Vec<BlockId>, GraphError>,
) -> bool {
    exists|
        creator: Address,
        parents: Seq<(BlockId, u64)>,
        incomp: Seq<BlockId>,
        let_in: ConsensusState,
        entry: Result<Entry, GraphError>,
        settled: ConsensusState,
        failed: bool,
        released: Seq<BlockId>,
    |
        {
            &&& creator@ == Address::spec_from_public_key(received.header.content.creator@)
            &&& parents_known_as(before.block_statuses, received.header, parents)
            &&& incompatibles_are(before, id, received.header, parents, incomp)
            &&& #[trigger] added(
                before,
                let_in,
                id,
                creator,
                received.header.content.slot,
                parents,
                BlockHeader::spec_fitness(received.header@.content.endorsements.len()),
                incomp,
                entry,
            )
            &&& #[trigger] then_settled(let_in, settled, id, entry, failed)
            &&& #[trigger] let_go_of(settled, after, id, released)
            &&& r is Err <==> entry is Err || failed
            &&& r is Err ==> r == Err::<Vec<BlockId>, _>(GraphError::FitnessOverflow)
            &&& r matches Ok(v) ==> v@ == released
        }
}

/// Whether `after` is what `before` becomes when the incoming block `id`, received
/// as `received`, is made to wait for the blocks of `missing`, `released` being the
/// blocks that are incoming again.
///
/// The blocks of `missing` join the wishlist, and no block is forgotten. Where
/// fewer blocks than `max_dependency_blocks` waited, the block waits for the blocks
/// of `missing` from now on, nothing is dropped, and every other block has the
/// status it had. Otherwise the blocks that have waited longest are dropped and
/// an attack attempt is counted for each, and the block still waits, for blocks of
/// `missing`; or it waited for blocks that were dropped only and is incoming
/// again; or it was dropped itself.
pub open spec fn waiting_settled(
    before: ConsensusState,
    after: ConsensusState,
    id: BlockId,
    received: HeaderOrBlock,
    missing: Seq<BlockId>,
    released: Seq<BlockId>,
) -> bool {
    &&& after.wf()
    &&& keeps_known(after, before)
    &&& forall|x: BlockId|
        #![trigger after.wishlist@.contains(x)]
        after.wishlist@.contains(x) <==> before.wishlist@.contains(x) || missing.contains(x)
    &&& waits_or_moved_on(
        after.block_statuses.value(id),
        received,
        missing,
        before.sequence_counter,
    )
    &&& count_waiting(before.block_statuses.entries@) >= before.config.max_dependency_blocks
        ==> after.attack_attempts > before.attack_attempts || after.attack_attempts == u64::MAX
    &&& count_waiting(before.block_statuses.entries@) < before.config.max_dependency_blocks ==> {
        &&& released.len() == 0
        &&& after.block_statuses.value(id) matches BlockStatus::WaitingForDependencies {
            header_or_block,
            unsatisfied_dependencies,
            sequence_number,
        } && header_or_block == received && unsatisfied_dependencies@ == missing
            && sequence_number == before.sequence_counter
        &&& forall|x: BlockId|
            #![trigger after.block_statuses.value(x)]
            x != id && after.block_statuses.has(x) ==> after.block_statuses.value(x)
                == before.block_statuses.value(x)
    }
}

/// Whether `after` is what `before` becomes when the incoming block `id`, received
/// as `received`, is made to wait for those of its parents that are not in the
/// graph yet, `r` being what the step returns: the blocks that are incoming again.
pub open spec fn made_to_wait(
    before: ConsensusState,
    after: ConsensusState,
    id: BlockId,
    received: HeaderOrBlock,
    r: Result<Vec<BlockId>, GraphError>,
) -> bool {
    exists|missing: Seq<BlockId>|
        {
            &&& ids_distinct(missing)
            &&& forall|y: BlockId|
                #![trigger missing.contains(y)]
                missing.contains(y) <==> is_missing_parent(
                    before.block_statuses,
                    received.header.content.parents@,
                    received.header.content.parents@.len() as int,
                    y,
                )
            &&& r is Ok
            &&& #[trigger] waiting_settled(before, after, id, received, missing, r.unwrap()@)
        }
}

/// Whether a block with the header `header` waits for a parent: what becomes of it
/// is not told by the header alone, no parent was discarded, and one is not in the
/// graph yet.
pub open spec fn is_to_wait(state: ConsensusState, header: BlockHeader, current_slot: Slot) -> bool {
    &&& !settled_by_header(state, header, current_slot)
    &&& !some_parent_discarded(
        state.block_statuses,
        header.content.parents@,
        header.content.parents@.len() as int,
    )
    &&& some_parent_missing(
        state.block_statuses,
        header.content.parents@,
        header.content.parents@.len() as int,
    )
}

/// Whether a block with the header `header` is to enter the graph: what becomes of
/// it is not told by the header alone, and its parents are all active and fit it.
pub open spec fn is_to_enter(state: ConsensusState, header: BlockHeader, current_slot: Slot) -> bool {
    &&& !settled_by_header(state, header, current_slot)
    &&& !some_parent_discarded(
        state.block_statuses,
        header.content.parents@,
        header.content.parents@.len() as int,
    )
    &&& !some_parent_missing(
        state.block_statuses,
        header.content.parents@,
        header.content.parents@.len() as int,
    )
    &&& parents_fit(state.block_statuses, header)
}

/// Whether `after` is what `before` becomes when the incoming block `id`, received
/// as `received`, is looked at at the slot `current_slot`, `r` being what the step
/// returns: what `looked_at` says of a block that is discarded or waits for its
/// slot; what `made_to_wait` says of a block that waits for a parent; and what
/// `entered_step` says of a block that enters the graph. Only the entering of a
/// block can fail.
pub open spec fn first_step(
    before: ConsensusState,
    after: ConsensusState,
    id: BlockId,
    received: HeaderOrBlock,
    current_slot: Slot,
    r: Result<Vec<BlockId>, GraphError>,
) -> bool {
    &&& after.wf()
    &&& after.follows_closely(&before)
    &&& keeps_known(after, before)
    &&& looked_at(before, after, id, received, current_slot)
    &&& is_to_wait(before, received.header, current_slot) ==> made_to_wait(
        before,
        after,
        id,
        received,
        r,
    )
    &&& is_to_enter(before, received.header, current_slot) ==> entered_step(
        before,
        after,
        id,
        received,
        r,
    )
    &&& !is_to_enter(before, received.header, current_slot) ==> r is Ok
}

/// Whether `after` is what `stepped` becomes when the blocks that are incoming
/// again after a first step, which returned `r1`, are looked at in turn, `n` being
/// the number of blocks that were to be looked at and `r` what is returned in the
/// end: a state that can be reached, follows `stepped` closely and forgets no
/// block. Where the first step failed, or nothing was left to look at, nothing has
/// changed.
pub open spec fn then_looked_on(
    stepped: ConsensusState,
    after: ConsensusState,
    r1: Result<Vec<BlockId>, GraphError>,
    n: int,
    r: Result<(), GraphError>,
) -> bool {
    &&& after.wf()
    &&& after.follows_closely(&stepped)
    &&& keeps_known(after, stepped)
    &&& r1 is Err ==> after == stepped && r is Err
    &&& (r1 matches Ok(v) && v@.len() == 0) && n == 1 ==> after == stepped && r is Ok
}

/// Whether, in a state that can be reached, follows `before` closely and knows the
/// blocks that `before` knows, the look at an incoming block fails: a fitness does
/// not fit when the block enters the graph.
pub open spec fn some_step_fails(before: ConsensusState, current_slot: Slot) -> bool {
    exists|
        mid: ConsensusState,
        x: BlockId,
        after: ConsensusState,
        r1: Result<Vec<BlockId>, GraphError>,
    |
        {
            &&& mid.wf()
            &&& mid.follows_closely(&before)
            &&& keeps_known(mid, before)
            &&& mid.block_statuses.has(x)
            &&& mid.block_statuses.value(x) is Incoming
            &&& #[trigger] first_step(
                mid,
                after,
                x,
                mid.block_statuses.value(x)->Incoming_0,
                current_slot,
                r1,
            )
            &&& r1 is Err
        }
}

/// A step that fails after a state that follows another closely fails after that
/// other.
pub proof fn lemma_step_fails_since(a: ConsensusState, b: ConsensusState, current_slot: Slot)
    requires
        b.follows_closely(&a),
        keeps_known(b, a),
        some_step_fails(b, current_slot),
    ensures
        some_step_fails(a, current_slot),
{
    let (mid, x, after, r1) = choose|
        mid: ConsensusState,
        x: BlockId,
        after: ConsensusState,
        r1: Result<Vec<BlockId>, GraphError>,
    |
        {
            &&& mid.wf()
            &&& mid.follows_closely(&b)
            &&& keeps_known(mid, b)
            &&& mid.block_statuses.has(x)
            &&& mid.block_statuses.value(x) is Incoming
            &&& #[trigger] first_step(
                mid,
                after,
                x,
                mid.block_statuses.value(x)->Incoming_0,
                current_slot,
                r1,
            )
            &&& r1 is Err
        };
    lemma_follows_closely_chain(a, b, mid);
    assert forall|y: BlockId|
        #![trigger mid.block_statuses.has(y)]
        mid.block_statuses.has(y) == a.block_statuses.has(y) by {
        assert(mid.block_statuses.has(y) == b.block_statuses.has(y));
        assert(b.block_statuses.has(y) == a.block_statuses.has(y));
    }
    assert(first_step(mid, after, x, mid.block_statuses.value(x)->Incoming_0, current_slot, r1));
}

/// Whether the blocks of `work` were looked at from `before` on, at the slot
/// `current_slot`, with the outcome `r`: the last of them, where it was incoming,
/// went through a first step, and the blocks that were incoming again after it
/// were looked at in turn.
pub open spec fn looked_through(
    before: ConsensusState,
    after: ConsensusState,
    last: BlockId,
    n: int,
    current_slot: Slot,
    r: Result<(), GraphError>,
) -> bool {
    exists|stepped: ConsensusState, r1: Result<Vec<BlockId>, GraphError>|
        #[trigger] first_step(
            before,
            stepped,
            last,
            before.block_statuses.value(last)->Incoming_0,
            current_slot,
            r1,
        ) && then_looked_on(stepped, after, r1, n, r)
}

/// Whether `incoming` is `before` with the block `id`, which was not known, as a
/// new last block that was just received as `received`.
pub open spec fn came_in(
    before: ConsensusState,
    incoming: ConsensusState,
    id: BlockId,
    received: HeaderOrBlock,
) -> bool {
    &&& incoming.wf()
    &&& incoming == (ConsensusState { block_statuses: incoming.block_statuses, ..before })
    &&& !before.block_statuses.has(id)
    &&& incoming.block_statuses.has(id)
    &&& incoming.block_statuses.value(id) == BlockStatus::Incoming(received)
    &&& same_but_one(before.block_statuses, incoming.block_statuses, id)
    &&& incoming.block_statuses.entries@ == before.block_statuses.entries@.push(
        (id, BlockStatus::Incoming(received)),
    )
}

/// Whether `after` is what `before` becomes when the block `id`, which is not known
/// and no parent of an active block, is taken in as `received` at the slot
/// `current_slot`, with the outcome `r`: the block comes in (`came_in`), goes
/// through a first step (`first_step`), the blocks that are incoming again are
/// looked at in turn (`looked_in_turn`, of which `then_looked_on` says what holds
/// whatever they are), and the discarded blocks that are too many are forgotten
/// (`forgetting`).
pub open spec fn registered_by_steps(
    before: ConsensusState,
    after: ConsensusState,
    id: BlockId,
    received: HeaderOrBlock,
    current_slot: Slot,
    r: Result<(), GraphError>,
) -> bool {
    exists|
        incoming: ConsensusState,
        stepped: ConsensusState,
        r1: Result<Vec<BlockId>, GraphError>,
        core: ConsensusState,
    |
        {
            &&& came_in(before, incoming, id, received)
            &&& #[trigger] first_step(incoming, stepped, id, received, current_slot, r1)
            &&& #[trigger] then_looked_on(stepped, core, r1, 1, r)
            &&& looked_in_turn(incoming, core, seq![id], current_slot, r)
            &&& #[trigger] forgetting(core, after)
        }
}

/// Whether `stored` is `before` with the block `id` noted as held by the store.
pub open spec fn with_stored(before: ConsensusState, stored: ConsensusState, id: BlockId) -> bool {
    &&& stored == (ConsensusState { stored_blocks: stored.stored_blocks, ..before })
    &&& id_set(stored.stored_blocks@) == id_set(before.stored_blocks@).insert(id)
    &&& ids_distinct(before.stored_blocks@) ==> ids_distinct(stored.stored_blocks@)
}

/// Whether the taking in of the block `id` as `received` fails from `before` on:
/// once the block has come in, the look at an incoming block fails.
pub open spec fn registering_fails(
    before: ConsensusState,
    id: BlockId,
    received: HeaderOrBlock,
    current_slot: Slot,
) -> bool {
    exists|incoming: ConsensusState| #[trigger]
        came_in(before, incoming, id, received) && some_step_fails(incoming, current_slot)
}

/// Whether `after` is what `before` becomes when the block `id` is looked at at
/// the slot `current_slot`, `r1` being what the look returns: the first step of an
/// incoming block (`first_step`); nothing, and no block that is incoming again,
/// for any other block.
pub open spec fn one_look(
    before: ConsensusState,
    after: ConsensusState,
    id: BlockId,
    current_slot: Slot,
    r1: Result<Vec<BlockId>, GraphError>,
) -> bool {
    if before.block_statuses.has(id) && before.block_statuses.value(id) is Incoming {
        first_step(
            before,
            after,
            id,
            before.block_statuses.value(id)->Incoming_0,
            current_slot,
            r1,
        )
    } else {
        after == before && (r1 matches Ok(v) && v@.len() == 0)
    }
}

/// Whether the state `after` with the blocks `queue_after` to look at comes from
/// the state `before` with the blocks `queue` by one look: the last block of
/// `queue` is looked at, with success, and the blocks that are incoming again
/// take its place.
pub open spec fn look_link(
    before: ConsensusState,
    queue: Seq<BlockId>,
    after: ConsensusState,
    queue_after: Seq<BlockId>,
    current_slot: Slot,
) -> bool {
    queue.len() > 0 && exists|v: Vec<BlockId>| #[trigger]
        one_look(before, after, queue.last(), current_slot, Ok::<Vec<BlockId>, GraphError>(v))
            && queue_after == queue.drop_last() + v@
}

/// Whether `states`, each with the blocks of `queues` that are to be looked at,
/// come one from the other by one look each.
pub open spec fn is_look_trace(
    states: Seq<ConsensusState>,
    queues: Seq<Seq<BlockId>>,
    current_slot: Slot,
) -> bool {
    &&& states.len() == queues.len()
    &&& states.len() >= 1
    &&& forall|i: int|
        0 <= i < states.len() - 1 ==> look_link(
            #[trigger] states[i],
            queues[i],
            states[i + 1],
            queues[i + 1],
            current_slot,
        )
}

/// The number of looks after the first that are made where `known` blocks are
/// known: twice as many and one more, as far as that fits.
pub open spec fn look_fuel(known: nat) -> nat {
    if known < usize::MAX / 2 {
        2 * known + 1
    } else {
        usize::MAX as nat
    }
}

/// Whether `after` is what `before` becomes when the blocks of `work` are looked
/// at in turn at the slot `current_slot`, the last first, each followed by the
/// blocks that are incoming again because of it, with the outcome `r`.
///
/// The looks go on until no block is left to look at, or as many looks were made
/// as `look_fuel` allows and one more, or a look fails; in that last case `after`
/// is the state in which the failed look ended.
pub open spec fn looked_in_turn(
    before: ConsensusState,
    after: ConsensusState,
    work: Seq<BlockId>,
    current_slot: Slot,
    r: Result<(), GraphError>,
) -> bool {
    exists|states: Seq<ConsensusState>, queues: Seq<Seq<BlockId>>|
        {
            &&& #[trigger] is_look_trace(states, queues, current_slot)
            &&& states[0] == before
            &&& queues[0] == work
            &&& states.len() - 1 <= look_fuel(before.block_statuses.entries@.len()) + 1
            &&& match r {
                Ok(_) => after == states.last() && (queues.last().len() == 0 || states.len() - 1
                    == look_fuel(before.block_statuses.entries@.len()) + 1),
                Err(e) => queues.last().len() > 0 && one_look(
                    states.last(),
                    after,
                    queues.last().last(),
                    current_slot,
                    Err::<Vec<BlockId>, GraphError>(e),
                ),
            }
        }
}

/// A trace of looks with one more look is a trace of looks.
pub proof fn lemma_look_trace_push(
    states: Seq<ConsensusState>,
    queues: Seq<Seq<BlockId>>,
    after: ConsensusState,
    queue_after: Seq<BlockId>,
    current_slot: Slot,
)
    requires
        is_look_trace(states, queues, current_slot),
        look_link(states.last(), queues.last(), after, queue_after, current_slot),
    ensures
        is_look_trace(states.push(after), queues.push(queue_after), current_slot),
{
    let s2 = states.push(after);
    let q2 = queues.push(queue_after);
    assert forall|i: int| 0 <= i < s2.len() - 1 implies look_link(
        #[trigger] s2[i],
        q2[i],
        s2[i + 1],
        q2[i + 1],
        current_slot,
    ) by {
        if i < states.len() - 1 {
            assert(s2[i] == states[i] && s2[i + 1] == states[i + 1]);
            assert(q2[i] == queues[i] && q2[i + 1] == queues[i + 1]);
            assert(look_link(states[i], queues[i], states[i + 1], queues[i + 1], current_slot));
        } else {
            assert(s2[i] == states.last() && q2[i] == queues.last());
            assert(s2[i + 1] == after && q2[i + 1] == queue_after);
        }
    }
}

/// Whether every block that waited for its slot in `before` still waits for it in
/// `after`, as it did.
pub open spec fn slot_waiters_untouched(after: ConsensusState, before: ConsensusState) -> bool {
    forall|x: BlockId|
        #![trigger after.block_statuses.value(x)]
        #![trigger before.block_statuses.has(x)]
        before.block_statuses.has(x) && before.block_statuses.value(x) is WaitingForSlot
            ==> after.block_statuses.has(x) && after.block_statuses.value(x)
            == before.block_statuses.value(x)
}

/// Whether every block that waits for its slot in `after` waited for it in
/// `before`, as it does, or waits for a slot that is after `current_slot`.
pub open spec fn waiters_kept_or_early(
    after: ConsensusState,
    before: ConsensusState,
    current_slot: Slot,
) -> bool {
    forall|x: BlockId|
        #![trigger after.block_statuses.has(x)]
        after.block_statuses.has(x) ==> (after.block_statuses.value(x) matches BlockStatus::WaitingForSlot(
            received,
        ) ==> (before.block_statuses.has(x) && before.block_statuses.value(x)
            == after.block_statuses.value(x)) || current_slot.spec_lt(
            received.header.content.slot,
        ))
}

/// Whether the block `x` waited in `before` for a slot that has come at
/// `current_slot`.
pub open spec fn was_due(before: ConsensusState, x: BlockId, current_slot: Slot) -> bool {
    before.block_statuses.has(x) && (before.block_statuses.value(x) matches BlockStatus::WaitingForSlot(
        received,
    ) && !current_slot.spec_lt(received.header.content.slot))
}

/// Whether the block `x`, which waited for its slot in `before`, was looked at
/// since, at the slot `current_slot`: in a state `mid` that can be reached and
/// follows `before` closely it was incoming, as it was received, and went through a
/// first step (`first_step`); then the blocks that were incoming again because of
/// it were looked at in turn (`turn_taken`); and `now` follows closely.
pub open spec fn tick_looked(
    before: ConsensusState,
    now: ConsensusState,
    x: BlockId,
    current_slot: Slot,
) -> bool {
    exists|mid: ConsensusState, stepped: ConsensusState, r1: Result<Vec<BlockId>, GraphError>|
        {
            &&& mid.wf()
            &&& mid.follows_closely(&before)
            &&& keeps_known(mid, before)
            &&& mid.block_statuses.has(x)
            &&& mid.block_statuses.value(x) == BlockStatus::Incoming(
                before.block_statuses.value(x)->WaitingForSlot_0,
            )
            &&& #[trigger] first_step(
                mid,
                stepped,
                x,
                before.block_statuses.value(x)->WaitingForSlot_0,
                current_slot,
                r1,
            )
            &&& now.follows_closely(&stepped)
            &&& keeps_known(now, stepped)
            &&& turn_taken(mid, now, x, current_slot)
        }
}

/// Whether, from the state `mid` on, the block `x` and the blocks that were
/// incoming again because of it were looked at in turn, with success, ending in a
/// state that `now` follows closely.
pub open spec fn turn_taken(
    mid: ConsensusState,
    now: ConsensusState,
    x: BlockId,
    current_slot: Slot,
) -> bool {
    exists|done: ConsensusState| #[trigger]
        looked_in_turn(mid, done, seq![x], current_slot, Ok::<(), GraphError>(()))
            && now.follows_closely(&done) && keeps_known(now, done)
}

/// A block that was looked at since a tick was looked at since, in every state
/// that follows closely.
pub proof fn lemma_tick_looked_stays(
    before: ConsensusState,
    now: ConsensusState,
    later: ConsensusState,
    x: BlockId,
    current_slot: Slot,
)
    requires
        tick_looked(before, now, x, current_slot),
        later.follows_closely(&now),
        keeps_known(later, now),
    ensures
        tick_looked(before, later, x, current_slot),
{
    let (mid, stepped, r1) = choose|
        mid: ConsensusState,
        stepped: ConsensusState,
        r1: Result<Vec<BlockId>, GraphError>,
    |
        {
            &&& mid.wf()
            &&& mid.follows_closely(&before)
            &&& keeps_known(mid, before)
            &&& mid.block_statuses.has(x)
            &&& mid.block_statuses.value(x) == BlockStatus::Incoming(
                before.block_statuses.value(x)->WaitingForSlot_0,
            )
            &&& #[trigger] first_step(
                mid,
                stepped,
                x,
                before.block_statuses.value(x)->WaitingForSlot_0,
                current_slot,
                r1,
            )
            &&& now.follows_closely(&stepped)
            &&& keeps_known(now, stepped)
            &&& turn_taken(mid, now, x, current_slot)
        };
    let done = choose|done: ConsensusState| #[trigger]
        looked_in_turn(mid, done, seq![x], current_slot, Ok::<(), GraphError>(()))
            && now.follows_closely(&done) && keeps_known(now, done);
    lemma_follows_closely_chain(done, now, later);
    assert forall|y: BlockId|
        #![trigger later.block_statuses.has(y)]
        later.block_statuses.has(y) == done.block_statuses.has(y) by {
        assert(later.block_statuses.has(y) == now.block_statuses.has(y));
        assert(now.block_statuses.has(y) == done.block_statuses.has(y));
    }
    assert(looked_in_turn(mid, done, seq![x], current_slot, Ok::<(), GraphError>(())));
    assert(turn_taken(mid, later, x, current_slot));
    lemma_follows_closely_chain(stepped, now, later);
    assert forall|y: BlockId|
        #![trigger later.block_statuses.has(y)]
        later.block_statuses.has(y) == stepped.block_statuses.has(y) by {
        assert(later.block_statuses.has(y) == now.block_statuses.has(y));
        assert(now.block_statuses.has(y) == stepped.block_statuses.has(y));
    }
    assert(first_step(
        mid,
        stepped,
        x,
        before.block_statuses.value(x)->WaitingForSlot_0,
        current_slot,
        r1,
    ));
}

/// Whether `after` is what `before` becomes at a tick of the clock, at the slot
/// `current_slot`: every block that waited for a slot that has come was looked at
/// (`tick_looked`), no block waits for a slot that has come any more, and the
/// discarded blocks that are too many were forgotten. Where the look at a block
/// fails, the blocks that were to be looked at after it are left waiting.
pub open spec fn ticked(
    before: ConsensusState,
    after: ConsensusState,
    current_slot: Slot,
    r: Result<(), GraphError>,
) -> bool {
    exists|core: ConsensusState| #[trigger]
        forgetting(core, after) && core.wf() && core.follows_closely(&before) && keeps_known(
            core,
            before,
        ) && (r is Ok ==> no_late_waiter(core, current_slot) && forall|x: BlockId|
            #![trigger before.block_statuses.has(x)]
            was_due(before, x, current_slot) ==> tick_looked(before, core, x, current_slot))
}

/// Whether every block that waits for its slot in `after` waited for it in
/// `before`, with the same header.
pub open spec fn waiters_kept(after: ConsensusState, before: ConsensusState) -> bool {
    forall|x: BlockId|
        #![trigger after.block_statuses.has(x)]
        after.block_statuses.has(x) && after.block_statuses.value(x) is WaitingForSlot
            ==> before.block_statuses.has(x) && before.block_statuses.value(x)
            == after.block_statuses.value(x)
}

/// Whether no block waits for a slot that is not after `current_slot`.
pub open spec fn no_late_waiter(state: ConsensusState, current_slot: Slot) -> bool {
    forall|x: BlockId|
        #![trigger state.block_statuses.has(x)]
        state.block_statuses.has(x) ==> (state.block_statuses.value(x) matches BlockStatus::WaitingForSlot(
            received,
        ) ==> current_slot.spec_lt(received.header.content.slot))
}

/// Who waits for a slot after two steps that keep the waiters waited for it before
/// them.
pub proof fn lemma_waiters_kept_chain(a: ConsensusState, b: ConsensusState, c: ConsensusState)
    requires
        waiters_kept(b, a),
        waiters_kept(c, b),
    ensures
        waiters_kept(c, a),
{
    assert forall|x: BlockId|
        #![trigger c.block_statuses.has(x)]
        c.block_statuses.has(x) && c.block_statuses.value(x) is WaitingForSlot implies a.block_statuses.has(
        x,
    ) && a.block_statuses.value(x) == c.block_statuses.value(x) by {
        assert(b.block_statuses.has(x));
    }
}

/// A step that changes the status of one block only, and does not make it wait for
/// its slot, keeps the waiters.
pub proof fn lemma_moving_keeps_waiters(before: ConsensusState, after: ConsensusState, id: BlockId)
    requires
        same_but_one(before.block_statuses, after.block_statuses, id),
        after.block_statuses.has(id) ==> !(after.block_statuses.value(id) is WaitingForSlot),
    ensures
        waiters_kept(after, before),
{
    assert forall|x: BlockId|
        #![trigger after.block_statuses.has(x)]
        after.block_statuses.has(x) && after.block_statuses.value(x) is WaitingForSlot implies before.block_statuses.has(
        x,
    ) && before.block_statuses.value(x) == after.block_statuses.value(x) by {
        assert(x != id);
        assert(after.block_statuses.has(x) == before.block_statuses.has(x));
    }
}

/// Where the waiters are kept, none waits for a slot that has come if none did.
pub proof fn lemma_no_late_waiter_kept(before: ConsensusState, after: ConsensusState, current_slot: Slot)
    requires
        waiters_kept(after, before),
        no_late_waiter(before, current_slot),
    ensures
        no_late_waiter(after, current_slot),
{
    assert forall|x: BlockId|
        #![trigger after.block_statuses.has(x)]
        after.block_statuses.has(x) implies (after.block_statuses.value(x) matches BlockStatus::WaitingForSlot(
        received,
    ) ==> current_slot.spec_lt(received.header.content.slot)) by {
        if after.block_statuses.value(x) is WaitingForSlot {
            assert(before.block_statuses.has(x));
        }
    }
}

/// A step that settles only keeps the waiters.
pub proof fn lemma_settling_keeps_waiters(before: ConsensusState, after: ConsensusState)
    requires
        after.settles_only(&before),
    ensures
        waiters_kept(after, before),
{
    assert forall|x: BlockId|
        #![trigger after.block_statuses.has(x)]
        after.block_statuses.has(x) && after.block_statuses.value(x) is WaitingForSlot implies before.block_statuses.has(
        x,
    ) && before.block_statuses.value(x) == after.block_statuses.value(x) by {
        lemma_waiting_was_waiting(before, after, x);
    }
}

/// Whether a status is that of a block that was just received or that waits for
/// its slot.
pub open spec fn is_early(status: BlockStatus) -> bool {
    status is Incoming || status is WaitingForSlot
}

/// Whether every block but `id` that was just received or waited for its slot in
/// `before` has in `after` the status that it had.
pub open spec fn keeps_early(after: ConsensusState, before: ConsensusState, id: BlockId) -> bool {
    forall|x: BlockId|
        x != id && before.block_statuses.has(x) && is_early(before.block_statuses.value(x))
            ==> #[trigger] after.block_statuses.has(x) && after.block_statuses.value(x)
            == before.block_statuses.value(x)
}

/// Whether `status` is that of a block with the header `header` that was discarded
/// for the reason `reason`.
pub open spec fn discarded_as(status: BlockStatus, header: BlockHeader, reason: DiscardReason) -> bool {
    status matches BlockStatus::Discarded { slot, parents, reason: r, .. } && r == reason && slot
        == header.content.slot && parents@ == header.content.parents@
}

/// What has come of the incoming block `id`, received as `received`, once it was
/// looked at at the slot `current_slot`, where it does not wait for a parent:
///
/// - a block with a malformed header, or too far ahead, is discarded as invalid;
/// - else a block whose slot is after the current slot waits for its slot;
/// - else a block whose period is not above that of the latest final block of its
///   thread is discarded as stale;
/// - else a block with a parent that was discarded as invalid is discarded as
///   invalid, and a block with another discarded parent as stale;
/// - else a block whose parents are all active and do not fit it is discarded as
///   invalid;
/// - else a block whose parents are all active has entered the graph: it is active,
///   or it was discarded since.
///
/// The block is still known.
pub open spec fn looked_at(
    before: ConsensusState,
    after: ConsensusState,
    id: BlockId,
    received: HeaderOrBlock,
    current_slot: Slot,
) -> bool {
    let header = received.header;
    let slot = header.content.slot;
    &&& after.block_statuses.has(id)
    &&& header_malformed(header, before.config) || too_far_ahead(slot, current_slot, before.config)
        ==> discarded_as(after.block_statuses.value(id), header, DiscardReason::Invalid)
    &&& !header_malformed(header, before.config) && !too_far_ahead(
        slot,
        current_slot,
        before.config,
    ) && current_slot.spec_lt(slot) ==> after.block_statuses.has(id)
        && after.block_statuses.value(id) == BlockStatus::WaitingForSlot(received)
    &&& !header_malformed(header, before.config) && !current_slot.spec_lt(slot) && slot.period
        <= before.latest_final_blocks_periods@[slot.thread as int].1 ==> discarded_as(after.block_statuses.value(id), header, DiscardReason::Stale)
    &&& !settled_by_header(before, header, current_slot) && some_parent_invalid(
        before.block_statuses,
        header.content.parents@,
        header.content.parents@.len() as int,
    ) ==> discarded_as(after.block_statuses.value(id), header, DiscardReason::Invalid)
    &&& !settled_by_header(before, header, current_slot) && !some_parent_invalid(
        before.block_statuses,
        header.content.parents@,
        header.content.parents@.len() as int,
    ) && some_parent_discarded(
        before.block_statuses,
        header.content.parents@,
        header.content.parents@.len() as int,
    ) ==> discarded_as(after.block_statuses.value(id), header, DiscardReason::Stale)
    &&& !settled_by_header(before, header, current_slot) && !some_parent_discarded(
        before.block_statuses,
        header.content.parents@,
        header.content.parents@.len() as int,
    ) && !some_parent_missing(
        before.block_statuses,
        header.content.parents@,
        header.content.parents@.len() as int,
    ) && !parents_fit(before.block_statuses, header) ==> discarded_as(after.block_statuses.value(id), header, DiscardReason::Invalid)
    &&& !settled_by_header(before, header, current_slot) && !some_parent_discarded(
        before.block_statuses,
        header.content.parents@,
        header.content.parents@.len() as int,
    ) && !some_parent_missing(
        before.block_statuses,
        header.content.parents@,
        header.content.parents@.len() as int,
    ) && parents_fit(before.block_statuses, header) ==> (is_active(after.block_statuses, id) || is_discarded(after.block_statuses, id))
}

/// What has come of the block `id`, handed in with the header `header`, where it
/// was not known:
///
/// - a block that a final block has as a parent is discarded as final;
/// - else a block that an active block has as a parent is discarded as stale;
/// - else the block was incoming and was looked at.
///
/// The block is still known.
pub open spec fn taken_in(
    before: ConsensusState,
    after: ConsensusState,
    id: BlockId,
    header: BlockHeader,
    is_block: bool,
    current_slot: Slot,
) -> bool {
    &&& after.block_statuses.has(id)
    &&& is_parent_of_final(before.block_statuses, id) ==> discarded_as(after.block_statuses.value(id), header, DiscardReason::Final)
    &&& is_parent_of_active(before.block_statuses, id) && !is_parent_of_final(
        before.block_statuses,
        id,
    ) ==> discarded_as(after.block_statuses.value(id), header, DiscardReason::Stale)
    &&& !is_parent_of_active(before.block_statuses, id) ==> looked_at(
        before,
        after,
        id,
        HeaderOrBlock { header, is_block },
        current_slot,
    )
}

/// Whether `after` is a state in which the block `id`, which was not known in
/// `before`, was taken in with the header `header`, once the discarded blocks that
/// are too many were forgotten.
pub open spec fn taken_in_then_forgot(
    before: ConsensusState,
    after: ConsensusState,
    id: BlockId,
    header: BlockHeader,
    is_block: bool,
    current_slot: Slot,
) -> bool {
    exists|core: ConsensusState| #[trigger]
        forgetting(core, after) && core.wf() && taken_in(
            before,
            core,
            id,
            header,
            is_block,
            current_slot,
        )
}

/// What has come of a block that was looked at stays when another block is looked
/// at after it.
pub proof fn lemma_looked_at_stays(
    before: ConsensusState,
    mid: ConsensusState,
    after: ConsensusState,
    id: BlockId,
    received: HeaderOrBlock,
    current_slot: Slot,
    other: BlockId,
)
    requires
        looked_at(before, mid, id, received, current_slot),
        after.follows_closely(&mid),
        keeps_known(after, mid),
        keeps_early(after, mid, other),
        !(mid.block_statuses.has(other) && mid.block_statuses.value(other) is Incoming) ==> after
            == mid,
    ensures
        looked_at(before, after, id, received, current_slot),
{
    if after.block_statuses.has(id) {
        assert(mid.block_statuses.has(id));
    }
}

/// Whether `after` is the status of a block that waited for dependencies with the
/// status `before` and was dropped: discarded as stale, with the slot and the
/// parents of its header.
pub open spec fn was_dropped(before: BlockStatus, after: BlockStatus) -> bool {
    before matches BlockStatus::WaitingForDependencies { header_or_block, .. } && discarded_as(
        after,
        header_or_block.header,
        DiscardReason::Stale,
    )
}

/// The number of blocks that wait for dependencies among the entries.
pub open spec fn count_waiting(entries: Seq<(BlockId, BlockStatus)>) -> nat
    decreases entries.len(),
{
    if entries.len() == 0 {
        0
    } else {
        count_waiting(entries.drop_last()) + if entries.last().1 is WaitingForDependencies {
            1nat
        } else {
            0nat
        }
    }
}

/// No more blocks wait than there are entries; and where none waits, no entry is
/// that of a block that waits.
pub proof fn lemma_count_waiting_bounds(entries: Seq<(BlockId, BlockStatus)>)
    ensures
        count_waiting(entries) <= entries.len(),
        count_waiting(entries) == 0 <==> forall|j: int|
            0 <= j < entries.len() ==> !((#[trigger] entries[j]).1 is WaitingForDependencies),
    decreases entries.len(),
{
    if entries.len() > 0 {
        lemma_count_waiting_bounds(entries.drop_last());
        let rest = entries.drop_last();
        if count_waiting(entries) == 0 {
            assert forall|j: int| 0 <= j < entries.len() implies !((
            #[trigger] entries[j]).1 is WaitingForDependencies) by {
                if j < rest.len() {
                    assert(rest[j] == entries[j]);
                }
            }
        }
        if forall|j: int|
            0 <= j < entries.len() ==> !((#[trigger] entries[j]).1 is WaitingForDependencies) {
            assert forall|j: int| 0 <= j < rest.len() implies !((
            #[trigger] rest[j]).1 is WaitingForDependencies) by {
                assert(rest[j] == entries[j]);
            }
            assert(!(entries[entries.len() - 1].1 is WaitingForDependencies));
        }
    }
}

/// Where the entry of a block that waits for dependencies gets a status that is
/// not that of such a block, one block less waits.
pub proof fn lemma_count_waiting_update(
    entries: Seq<(BlockId, BlockStatus)>,
    i: int,
    entry: (BlockId, BlockStatus),
)
    requires
        0 <= i < entries.len(),
        entries[i].1 is WaitingForDependencies,
        !(entry.1 is WaitingForDependencies),
    ensures
        count_waiting(entries.update(i, entry)) + 1 == count_waiting(entries),
    decreases entries.len(),
{
    let after = entries.update(i, entry);
    if i == entries.len() - 1 {
        assert(after.drop_last() =~= entries.drop_last());
    } else {
        lemma_count_waiting_update(entries.drop_last(), i, entry);
        assert(after.drop_last() =~= entries.drop_last().update(i, entry));
        assert(after.last() == entries.last());
    }
}

/// Taking out an entry that is not that of a block that waits for dependencies
/// leaves as many blocks that wait; adding the entry of one that waits makes one
/// more.
pub proof fn lemma_count_waiting_moved(
    entries: Seq<(BlockId, BlockStatus)>,
    i: int,
    entry: (BlockId, BlockStatus),
)
    requires
        0 <= i < entries.len(),
        !(entries[i].1 is WaitingForDependencies),
        entry.1 is WaitingForDependencies,
    ensures
        count_waiting(entries.remove(i)) == count_waiting(entries),
        count_waiting(entries.remove(i).push(entry)) == count_waiting(entries) + 1,
    decreases entries.len(),
{
    let r = entries.remove(i);
    if i == entries.len() - 1 {
        assert(r =~= entries.drop_last());
        assert(entries.last() == entries[i]);
        assert(count_waiting(entries) == count_waiting(entries.drop_last()));
    } else {
        lemma_count_waiting_moved(entries.drop_last(), i, entry);
        assert(r.drop_last() =~= entries.drop_last().remove(i));
        assert(r.last() == entries.last());
        assert(entries.drop_last()[i] == entries[i]);
        assert(count_waiting(r) == count_waiting(r.drop_last()) + if r.last().1 is WaitingForDependencies {
            1nat
        } else {
            0nat
        });
    }
    assert(count_waiting(r) == count_waiting(entries));
    let p = r.push(entry);
    assert(p.drop_last() =~= r);
    assert(p.last() == entry);
    assert(count_waiting(p) == count_waiting(p.drop_last()) + 1);
}

impl ConsensusState {
    /// The number of blocks that wait for dependencies, and the place of the one
    /// that has waited longest, if any waits.
    pub fn waiting_for_dependencies(&self) -> (r: (usize, Option<usize>))
        ensures
            r.0 == count_waiting(self.block_statuses.entries@),
            r.1 is None <==> r.0 == 0,
            r.1 matches Some(i) ==> i < self.block_statuses.entries@.len()
                && self.block_statuses.entries@[i as int].1 is WaitingForDependencies && forall|
                j: int,
            |
                0 <= j < self.block_statuses.entries@.len() && (#[trigger] self.block_statuses.entries@[j]).1 is WaitingForDependencies
                    ==> self.block_statuses.entries@[i as int].1->WaitingForDependencies_sequence_number
                    <= self.block_statuses.entries@[j].1->WaitingForDependencies_sequence_number,
            r.1 is None ==> r.0 == 0,
            r.0 <= self.block_statuses.entries@.len(),
    {
        let mut count: usize = 0;
        let mut oldest: Option<(usize, u64)> = None;
        let mut i: usize = 0;
        while i < self.block_statuses.entries.len()
            invariant
                i <= self.block_statuses.entries@.len(),
                count <= i,
                count == count_waiting(self.block_statuses.entries@.subrange(0, i as int)),
                oldest is None <==> count == 0,
                oldest is None ==> forall|j: int|
                    0 <= j < i ==> !((#[trigger] self.block_statuses.entries@[j]).1 is WaitingForDependencies),
                oldest is Some ==> oldest.unwrap().0 < i,
                oldest is Some ==> self.block_statuses.entries@[oldest.unwrap().0 as int].1 is WaitingForDependencies,
                oldest is Some ==> oldest.unwrap().1
                    == self.block_statuses.entries@[oldest.unwrap().0 as int].1->WaitingForDependencies_sequence_number,
                oldest is Some ==> forall|j: int|
                    0 <= j < i && (#[trigger] self.block_statuses.entries@[j]).1 is WaitingForDependencies
                        ==> oldest.unwrap().1
                        <= self.block_statuses.entries@[j].1->WaitingForDependencies_sequence_number,
            decreases self.block_statuses.entries@.len() - i,
        {
            match &self.block_statuses.entries[i].1 {
                BlockStatus::WaitingForDependencies { sequence_number, .. } => {
                    count += 1;
                    let older = match oldest {
                        None => true,
                        Some((_, seq)) => *sequence_number < seq,
                    };
                    if older {
                        oldest = Some((i, *sequence_number));
                    }
                },
                _ => {},
            }
            proof {
                assert(self.block_statuses.entries@.subrange(0, i + 1).drop_last()
                    =~= self.block_statuses.entries@.subrange(0, i as int));
            }
            i += 1;
        }
        proof {
            assert(self.block_statuses.entries@.subrange(0, i as int)
                =~= self.block_statuses.entries@);
        }
        match oldest {
            Some((at, _)) => (count, Some(at)),
            None => (count, None),
        }
    }

    /// What the header of a block that has not entered the graph says of its slot,
    /// creator and parents.
    fn describe(header: &BlockHeader) -> (r: (Slot, Address, Vec<BlockId>))
        ensures
            r.0 == header.content.slot,
            r.1@ == Address::spec_from_public_key(header.content.creator@),
            r.2@ == header.content.parents@,
    {
        let mut parents: Vec<BlockId> = Vec::new();
        let mut i: usize = 0;
        while i < header.content.parents.len()
            invariant
                i <= header.content.parents@.len(),
                parents@ == header.content.parents@.subrange(0, i as int),
            decreases header.content.parents@.len() - i,
        {
            parents.push(header.content.parents[i]);
            assert(parents@ =~= header.content.parents@.subrange(0, i + 1));
            i += 1;
        }
        assert(header.content.parents@.subrange(0, header.content.parents@.len() as int)
            =~= header.content.parents@);
        (header.content.slot, Address::from_public_key(&header.content.creator), parents)
    }

    /// Keeps the blocks that wait for dependencies within `max_dependency_blocks`:
    /// while they are more, the one that has waited longest is discarded as stale
    /// and an attack attempt is counted. Returns the blocks that were discarded.
    pub fn bound_waiting(&mut self) -> (r: Vec<BlockId>)
        requires
            old(self).wf(),
        ensures
            final(self).wf(),
            final(self).follows_closely(old(self)),
            final(self).max_cliques == old(self).max_cliques,
            final(self).gi_head == old(self).gi_head,
            final(self).latest_final_blocks_periods == old(self).latest_final_blocks_periods,
            final(self).attack_attempts >= old(self).attack_attempts,
            waiters_kept(*final(self), *old(self)),
            r@.len() > 0 ==> final(self).attack_attempts > old(self).attack_attempts
                || final(self).attack_attempts == u64::MAX,
            forall|x: BlockId|
                r@.contains(x) ==> is_discarded(final(self).block_statuses, x) && old(
                    self,
                ).block_statuses.has(x) && old(self).block_statuses.value(
                    x,
                ) is WaitingForDependencies,
            forall|x: BlockId|
                #![trigger final(self).block_statuses.value(x)]
                #![trigger old(self).block_statuses.has(x)]
                old(self).block_statuses.has(x) && !(old(self).block_statuses.value(
                    x,
                ) is WaitingForDependencies) ==> final(self).block_statuses.has(x) && final(self).block_statuses.value(x) == old(self).block_statuses.value(x),
            count_waiting(final(self).block_statuses.entries@) == if count_waiting(
                old(self).block_statuses.entries@,
            ) > old(self).config.max_dependency_blocks {
                old(self).config.max_dependency_blocks as nat
            } else {
                count_waiting(old(self).block_statuses.entries@)
            },
            r@.len() + count_waiting(final(self).block_statuses.entries@) == count_waiting(
                old(self).block_statuses.entries@,
            ),
            final(self).wishlist == old(self).wishlist,
            forall|x: BlockId|
                #![trigger final(self).block_statuses.has(x)]
                final(self).block_statuses.has(x) == old(self).block_statuses.has(x),
            forall|x: BlockId|
                #![trigger final(self).block_statuses.value(x)]
                #![trigger old(self).block_statuses.has(x)]
                old(self).block_statuses.has(x) ==> final(self).block_statuses.value(x) == old(
                    self,
                ).block_statuses.value(x) || r@.contains(x),
            forall|x: BlockId|
                #![trigger r@.contains(x)]
                r@.contains(x) ==> was_dropped(
                    old(self).block_statuses.value(x),
                    final(self).block_statuses.value(x),
                ),
            forall|x: BlockId|
                #![trigger final(self).block_statuses.value(x)]
                final(self).block_statuses.has(x) && final(self).block_statuses.value(
                    x,
                ) is WaitingForDependencies ==> old(self).block_statuses.has(x) && old(
                    self,
                ).block_statuses.value(x) == final(self).block_statuses.value(x),
            forall|x: BlockId, y: BlockId|
                #![trigger r@.contains(x), final(self).block_statuses.value(y)]
                r@.contains(x) && final(self).block_statuses.has(y) && final(self).block_statuses.value(y) is WaitingForDependencies ==> old(
                    self,
                ).block_statuses.value(x)->WaitingForDependencies_sequence_number <= final(self).block_statuses.value(y)->WaitingForDependencies_sequence_number,
    {
        let mut dropped: Vec<BlockId> = Vec::new();
        proof {
            lemma_follows_closely_self(*self);
        }
        let mut fuel: usize = self.block_statuses.entries.len();
        proof {
            lemma_count_waiting_bounds(self.block_statuses.entries@);
        }
        while fuel > 0
            invariant
                self.wf(),
                self.follows_closely(old(self)),
                self.config == old(self).config,
                self.wishlist == old(self).wishlist,
                forall|x: BlockId|
                    #![trigger self.block_statuses.has(x)]
                    self.block_statuses.has(x) == old(self).block_statuses.has(x),
                forall|x: BlockId|
                    #![trigger self.block_statuses.value(x)]
                    #![trigger old(self).block_statuses.has(x)]
                    old(self).block_statuses.has(x) ==> self.block_statuses.value(x) == old(
                        self,
                    ).block_statuses.value(x) || dropped@.contains(x),
                count_waiting(self.block_statuses.entries@) <= fuel,
                dropped@.len() + count_waiting(self.block_statuses.entries@) == count_waiting(
                    old(self).block_statuses.entries@,
                ),
                dropped@.len() > 0 ==> count_waiting(self.block_statuses.entries@)
                    >= self.config.max_dependency_blocks,
                forall|x: BlockId|
                    #![trigger dropped@.contains(x)]
                    dropped@.contains(x) ==> was_dropped(
                        old(self).block_statuses.value(x),
                        self.block_statuses.value(x),
                    ),
                forall|x: BlockId|
                    #![trigger self.block_statuses.value(x)]
                    self.block_statuses.has(x) && self.block_statuses.value(
                        x,
                    ) is WaitingForDependencies ==> old(self).block_statuses.value(x)
                        == self.block_statuses.value(x),
                forall|x: BlockId, y: BlockId|
                    #![trigger dropped@.contains(x), self.block_statuses.value(y)]
                    dropped@.contains(x) && self.block_statuses.has(y) && self.block_statuses.value(
                        y,
                    ) is WaitingForDependencies ==> old(
                        self,
                    ).block_statuses.value(x)->WaitingForDependencies_sequence_number
                        <= self.block_statuses.value(y)->WaitingForDependencies_sequence_number,
                self.max_cliques == old(self).max_cliques,
                self.gi_head == old(self).gi_head,
                self.latest_final_blocks_periods == old(self).latest_final_blocks_periods,
                self.attack_attempts >= old(self).attack_attempts,
                waiters_kept(*self, *old(self)),
                dropped@.len() > 0 ==> self.attack_attempts > old(self).attack_attempts
                    || self.attack_attempts == u64::MAX,
                forall|x: BlockId|
                    dropped@.contains(x) ==> is_discarded(self.block_statuses, x) && old(
                        self,
                    ).block_statuses.has(x) && old(self).block_statuses.value(
                        x,
                    ) is WaitingForDependencies,
                forall|x: BlockId|
                    #![trigger self.block_statuses.value(x)]
                    self.block_statuses.has(x) && self.block_statuses.value(
                        x,
                    ) is WaitingForDependencies ==> old(self).block_statuses.has(x) && old(
                        self,
                    ).block_statuses.value(x) is WaitingForDependencies,
                forall|x: BlockId|
                    #![trigger self.block_statuses.value(x)]
                    #![trigger old(self).block_statuses.has(x)]
                    old(self).block_statuses.has(x) && !(old(self).block_statuses.value(
                        x,
                    ) is WaitingForDependencies) ==> self.block_statuses.has(x)
                        && self.block_statuses.value(x) == old(self).block_statuses.value(x),
            decreases fuel,
        {
            fuel = fuel - 1;
            let (count, oldest) = self.waiting_for_dependencies();
            if count <= self.config.max_dependency_blocks {
                return dropped;
            }
            match oldest {
                None => { return dropped; },
                Some(i) => {
                    let id = self.block_statuses.entries[i].0;
                    let ghost prev = *self;
                    let ghost dropped_before = dropped@;
                    proof {
                        self.block_statuses.lemma_entry(i as int);
                        assert forall|y: BlockId|
                            prev.block_statuses.has(y) && prev.block_statuses.value(
                                y,
                            ) is WaitingForDependencies implies prev.block_statuses.value(
                            id,
                        )->WaitingForDependencies_sequence_number <= (
                        #[trigger] prev.block_statuses.value(
                            y,
                        ))->WaitingForDependencies_sequence_number by {
                            let j = prev.block_statuses.index_of(y);
                            assert(prev.block_statuses.entries@[j].0 == y);
                        }
                    }
                    let (slot, creator, parents) = match &self.block_statuses.entries[i].1 {
                        BlockStatus::WaitingForDependencies { header_or_block, .. } => Self::describe(
                            &header_or_block.header,
                        ),
                        _ => (
                            Slot::new(0, 0),
                            Address(crate::hash::Hash::from_bytes(&[0u8; 32])),
                            Vec::new(),
                        ),
                    };
                    let sequence_number = self.next_sequence_number();
                    if self.attack_attempts < u64::MAX {
                        self.attack_attempts = self.attack_attempts + 1;
                    }
                    let ghost mid = *self;
                    assert(mid.wf());
                    self.move_unsettled(
                        id,
                        BlockStatus::Discarded {
                            slot,
                            creator,
                            parents,
                            reason: DiscardReason::Stale,
                            sequence_number,
                        },
                    );
                    dropped.push(id);
                    proof {
                        lemma_count_waiting_update(
                            prev.block_statuses.entries@,
                            i as int,
                            (id, self.block_statuses.value(id)),
                        );
                        assert(dropped@[dropped@.len() - 1] == id);
                        assert forall|x: BlockId|
                            #![trigger self.block_statuses.has(x)]
                            self.block_statuses.has(x) == old(self).block_statuses.has(x) by {
                            if x != id {
                                assert(self.block_statuses.has(x) == prev.block_statuses.has(x));
                            }
                        }
                        assert forall|x: BlockId|
                            #![trigger self.block_statuses.value(x)]
                            #![trigger old(self).block_statuses.has(x)]
                            old(self).block_statuses.has(x) implies self.block_statuses.value(x)
                            == old(self).block_statuses.value(x) || dropped@.contains(x) by {
                            assert(prev.block_statuses.has(x));
                            if x != id {
                                assert(self.block_statuses.has(x) == prev.block_statuses.has(x));
                                if dropped_before.contains(x) {
                                    let j = choose|j: int|
                                        0 <= j < dropped_before.len() && dropped_before[j] == x;
                                    assert(dropped@[j] == x);
                                }
                            }
                        }
                        assert forall|x: BlockId|
                            #![trigger self.block_statuses.value(x)]
                            self.block_statuses.has(x) && self.block_statuses.value(
                                x,
                            ) is WaitingForDependencies implies old(self).block_statuses.value(x)
                            == self.block_statuses.value(x) by {
                            assert(x != id);
                            assert(self.block_statuses.has(x) == prev.block_statuses.has(x));
                            assert(self.block_statuses.value(x) == prev.block_statuses.value(x));
                        }
                        assert forall|x: BlockId|
                            #![trigger dropped@.contains(x)]
                            dropped@.contains(x) implies was_dropped(
                            old(self).block_statuses.value(x),
                            self.block_statuses.value(x),
                        ) by {
                            let j = choose|j: int| 0 <= j < dropped@.len() && dropped@[j] == x;
                            if j < dropped_before.len() {
                                assert(dropped_before[j] == x);
                                assert(dropped_before.contains(x));
                                assert(is_discarded(prev.block_statuses, x));
                                assert(x != id);
                                assert(self.block_statuses.has(x) == prev.block_statuses.has(x));
                            } else {
                                assert(x == id);
                                assert(old(self).block_statuses.value(id)
                                    == prev.block_statuses.value(id));
                            }
                        }
                        assert forall|x: BlockId, y: BlockId|
                            #![trigger dropped@.contains(x), self.block_statuses.value(y)]
                            dropped@.contains(x) && self.block_statuses.has(y)
                                && self.block_statuses.value(
                                y,
                            ) is WaitingForDependencies implies old(
                            self,
                        ).block_statuses.value(x)->WaitingForDependencies_sequence_number
                            <= self.block_statuses.value(
                            y,
                        )->WaitingForDependencies_sequence_number by {
                            assert(y != id);
                            assert(self.block_statuses.has(y) == prev.block_statuses.has(y));
                            assert(self.block_statuses.value(y) == prev.block_statuses.value(y));
                            let j = choose|j: int| 0 <= j < dropped@.len() && dropped@[j] == x;
                            if j < dropped_before.len() {
                                assert(dropped_before[j] == x);
                                assert(dropped_before.contains(x));
                            } else {
                                assert(x == id);
                                assert(old(self).block_statuses.value(id)
                                    == prev.block_statuses.value(id));
                            }
                        }
                        assert(mid.follows_closely(&prev));
                        lemma_follows_closely_chain(prev, mid, *self);
                        lemma_follows_closely_chain(*old(self), prev, *self);
                        lemma_moving_keeps_waiters(prev, *self, id);
                        lemma_waiters_kept_chain(*old(self), prev, *self);
                        assert forall|x: BlockId| dropped@.contains(x) implies is_discarded(
                            self.block_statuses,
                            x,
                        ) && old(self).block_statuses.has(x) && old(self).block_statuses.value(
                            x,
                        ) is WaitingForDependencies by {
                            let j = choose|j: int| 0 <= j < dropped@.len() && dropped@[j] == x;
                            if j < dropped_before.len() {
                                assert(dropped_before.contains(x));
                                if x != id {
                                    assert(self.block_statuses.has(x) == prev.block_statuses.has(x));
                                }
                            }
                        }
                        assert forall|x: BlockId|
                            #![trigger self.block_statuses.value(x)]
                            self.block_statuses.has(x) && self.block_statuses.value(
                                x,
                            ) is WaitingForDependencies implies old(self).block_statuses.has(x)
                            && old(self).block_statuses.value(x) is WaitingForDependencies by {
                            assert(x != id);
                            assert(self.block_statuses.has(x) == prev.block_statuses.has(x));
                        }
                        assert forall|x: BlockId|
                            #![trigger self.block_statuses.value(x)]
                            #![trigger old(self).block_statuses.has(x)]
                            old(self).block_statuses.has(x) && !(old(self).block_statuses.value(
                                x,
                            ) is WaitingForDependencies) implies self.block_statuses.has(x)
                            && self.block_statuses.value(x) == old(self).block_statuses.value(
                            x,
                        ) by {
                            assert(prev.block_statuses.has(x));
                            assert(x != id);
                            assert(self.block_statuses.has(x) == prev.block_statuses.has(x));
                        }
                    }
                },
            }
        }
        dropped
    }

    /// Discards the incoming block `id` for the reason `reason`, and lets go of the
    /// blocks that waited for it. Returns the blocks that are incoming again.
    fn settle_discarded(&mut self, id: BlockId, reason: DiscardReason) -> (r: Vec<BlockId>)
        requires
            old(self).wf(),
            old(self).block_statuses.has(id),
            old(self).block_statuses.value(id) is Incoming,
        ensures
            final(self).wf(),
            final(self).follows_closely(old(self)),
            keeps_early(*final(self), *old(self), id),
            waiters_kept(*final(self), *old(self)),
            keeps_known(*final(self), *old(self)),
            discarded_as(
                final(self).block_statuses.value(id),
                old(self).block_statuses.value(id)->Incoming_0.header,
                reason,
            ),
    {
        let (slot, creator, parents) = match self.block_statuses.get(&id) {
            Some(BlockStatus::Incoming(header_or_block)) => Self::describe(&header_or_block.header),
            _ => (Slot::new(0, 0), Address(crate::hash::Hash::from_bytes(&[0u8; 32])), Vec::new()),
        };
        let sequence_number = self.next_sequence_number();
        let ghost mid = *self;
        assert(mid.wf());
        assert(mid.follows_closely(old(self)));
        self.move_unsettled(
            id,
            BlockStatus::Discarded { slot, creator, parents, reason, sequence_number },
        );
        let ghost s1 = *self;
        let released = self.release_dependents(&id);
        let ghost s2 = *self;
        proof {
            lemma_follows_closely_chain(*old(self), mid, s1);
            lemma_follows_closely_chain(*old(self), s1, s2);
            lemma_follows_closely_chain(*old(self), s2, *self);
            assert(same_but_one(old(self).block_statuses, s1.block_statuses, id));
            lemma_moving_keeps_waiters(*old(self), s1, id);
            lemma_waiters_kept_chain(*old(self), s1, s2);
            lemma_settling_keeps_waiters(s2, *self);
            lemma_waiters_kept_chain(*old(self), s2, *self);
            assert forall|x: BlockId|
                x != id && old(self).block_statuses.has(x) && is_early(
                    old(self).block_statuses.value(x),
                ) implies #[trigger] self.block_statuses.has(x) && self.block_statuses.value(x)
                == old(self).block_statuses.value(x) by {
                assert(s1.block_statuses.has(x) == mid.block_statuses.has(x));
                assert(s2.block_statuses.has(x) == s1.block_statuses.has(x));
                assert(s2.block_statuses.value(x) == s1.block_statuses.value(x));
            }
            if self.block_statuses.has(id) {
                assert(s2.block_statuses.has(id));
                assert(s2.block_statuses.value(id) == s1.block_statuses.value(id));
            }
        }
        released
    }

    /// Makes the incoming block `id` wait for its slot.
    fn settle_waiting_for_slot(&mut self, id: BlockId)
        requires
            old(self).wf(),
            old(self).block_statuses.has(id),
            old(self).block_statuses.value(id) is Incoming,
        ensures
            final(self).wf(),
            final(self).follows_closely(old(self)),
            keeps_early(*final(self), *old(self), id),
            final(self).block_statuses.has(id),
            final(self).block_statuses.value(id) == BlockStatus::WaitingForSlot(
                old(self).block_statuses.value(id)->Incoming_0,
            ),
            same_but_one(old(self).block_statuses, final(self).block_statuses, id),
            keeps_known(*final(self), *old(self)),
    {
        let taken = self.block_statuses.remove(&id);
        match taken {
            Some(BlockStatus::Incoming(header_or_block)) => {
                self.block_statuses.insert(id, BlockStatus::WaitingForSlot(header_or_block));
            },
            Some(other) => {
                self.block_statuses.insert(id, other);
            },
            None => {},
        }
        proof {
            lemma_unsettled_is_no_parent(*old(self), id);
            assert(same_but_one(old(self).block_statuses, self.block_statuses, id));
            lemma_status_given(*old(self), *self, id);
            assert forall|x: BlockId| #[trigger] self.block_statuses.has(x) implies old(
                self,
            ).block_statuses.has(x) by {
                if x != id {
                    assert(self.block_statuses.has(x) == old(self).block_statuses.has(x));
                }
            }
            assert forall|x: BlockId|
                x != id && old(self).block_statuses.has(x) && is_early(
                    old(self).block_statuses.value(x),
                ) implies #[trigger] self.block_statuses.has(x) && self.block_statuses.value(x)
                == old(self).block_statuses.value(x) by {
                assert(self.block_statuses.has(x) == old(self).block_statuses.has(x));
            }
        }
    }

    /// Makes the incoming block `id` wait for the blocks of `missing`, asks for
    /// them, and keeps the blocks that wait for dependencies within their limit.
    /// Returns the blocks that are incoming again because they waited for a block
    /// that was dropped.
    ///
    /// The blocks of `missing` join the wishlist. Where fewer blocks than the limit
    /// waited, the block waits for the blocks of `missing` from now on, nothing is
    /// dropped, and every other block has the status it had. Otherwise the blocks
    /// that have waited longest are
    /// dropped, and the block still waits, for blocks of `missing`; or it waited for
    /// blocks that were dropped only and is incoming again; or it was dropped itself.
    fn settle_waiting_for_dependencies(&mut self, id: BlockId, missing: Vec<BlockId>) -> (r: Vec<
        BlockId,
    >)
        requires
            old(self).wf(),
            old(self).block_statuses.has(id),
            old(self).block_statuses.value(id) is Incoming,
        ensures
            final(self).wf(),
            final(self).follows_closely(old(self)),
            keeps_early(*final(self), *old(self), id),
            waiters_kept(*final(self), *old(self)),
            forall|x: BlockId|
                #![trigger final(self).wishlist@.contains(x)]
                final(self).wishlist@.contains(x) <==> old(self).wishlist@.contains(x)
                    || missing@.contains(x),
            keeps_known(*final(self), *old(self)),
            waiting_settled(
                *old(self),
                *final(self),
                id,
                old(self).block_statuses.value(id)->Incoming_0,
                missing@,
                r@,
            ),
            waits_or_moved_on(
                final(self).block_statuses.value(id),
                old(self).block_statuses.value(id)->Incoming_0,
                missing@,
                old(self).sequence_counter,
            ),
            count_waiting(old(self).block_statuses.entries@) < old(
                self,
            ).config.max_dependency_blocks ==> {
                &&& r@.len() == 0
                &&& final(self).block_statuses.value(id)
                    == (BlockStatus::WaitingForDependencies {
                    header_or_block: old(self).block_statuses.value(id)->Incoming_0,
                    unsatisfied_dependencies: missing,
                    sequence_number: old(self).sequence_counter,
                })
                &&& forall|x: BlockId|
                    #![trigger final(self).block_statuses.value(x)]
                    x != id && final(self).block_statuses.has(x) ==> final(self).block_statuses.value(x)
                        == old(self).block_statuses.value(x)
            },
    {
        let ghost received = old(self).block_statuses.value(id)->Incoming_0;
        let ghost seq0 = old(self).sequence_counter;
        let ghost wanted = missing@;
        let sequence_number = self.sequence_counter;
        if self.sequence_counter < u64::MAX {
            self.sequence_counter = self.sequence_counter + 1;
        }
        let mut m: usize = 0;
        while m < missing.len()
            invariant
                m <= missing@.len(),
                *self == (ConsensusState {
                    wishlist: self.wishlist,
                    sequence_counter: self.sequence_counter,
                    ..*old(self)
                }),
                forall|x: BlockId|
                    #![trigger self.wishlist@.contains(x)]
                    self.wishlist@.contains(x) <==> old(self).wishlist@.contains(x)
                        || among_first(missing@, m as int, x),
            decreases missing@.len() - m,
        {
            let ghost before = self.wishlist@;
            id_list_insert(&mut self.wishlist, missing[m]);
            proof {
                let added = missing@[m as int];
                assert forall|x: BlockId|
                    #![trigger self.wishlist@.contains(x)]
                    self.wishlist@.contains(x) <==> old(self).wishlist@.contains(x) || among_first(
                        missing@,
                        m + 1,
                        x,
                    ) by {
                    assert(id_set(self.wishlist@).contains(x) == id_set(before).insert(
                        added,
                    ).contains(x));
                    assert(id_set(self.wishlist@).contains(x) == self.wishlist@.contains(x));
                    assert(id_set(before).contains(x) == before.contains(x));
                    if among_first(missing@, m as int, x) {
                        let k = choose|k: int| 0 <= k < m && missing@[k] == x;
                        assert(0 <= k < m + 1 && missing@[k] == x);
                    }
                    if among_first(missing@, m + 1, x) {
                        let k = choose|k: int| 0 <= k < m + 1 && missing@[k] == x;
                        if k < m {
                            assert(among_first(missing@, m as int, x));
                        }
                    }
                    if x == added {
                        assert(0 <= m < m + 1 && missing@[m as int] == x);
                    }
                }
            }
            m += 1;
        }
        proof {
            assert forall|x: BlockId|
                among_first(missing@, missing@.len() as int, x) <==> missing@.contains(x) by {
                if missing@.contains(x) {
                    let k = choose|k: int| 0 <= k < missing@.len() && missing@[k] == x;
                    assert(0 <= k < missing@.len() && missing@[k] == x);
                }
            }
            assert forall|x: BlockId|
                #![trigger self.wishlist@.contains(x)]
                self.wishlist@.contains(x) <==> old(self).wishlist@.contains(x)
                    || missing@.contains(x) by {
                assert(among_first(missing@, missing@.len() as int, x) <==> missing@.contains(x));
            }
        }
        let ghost mid = *self;
        let ghost wished = self.wishlist;
        let taken = self.block_statuses.remove(&id);
        match taken {
            Some(BlockStatus::Incoming(header_or_block)) => {
                self.block_statuses.insert(
                    id,
                    BlockStatus::WaitingForDependencies {
                        header_or_block,
                        unsatisfied_dependencies: missing,
                        sequence_number,
                    },
                );
            },
            Some(other) => {
                self.block_statuses.insert(id, other);
            },
            None => {},
        }
        proof {
            assert(mid.wf());
            lemma_unsettled_is_no_parent(mid, id);
            assert(same_but_one(mid.block_statuses, self.block_statuses, id));
            lemma_status_given(mid, *self, id);
            assert forall|x: BlockId| #[trigger] self.block_statuses.has(x) implies old(
                self,
            ).block_statuses.has(x) by {
                if x != id {
                    assert(self.block_statuses.has(x) == mid.block_statuses.has(x));
                }
            }
            lemma_count_waiting_moved(
                mid.block_statuses.entries@,
                mid.block_statuses.index_of(id),
                (id, self.block_statuses.value(id)),
            );
        }
        let ghost s1 = *self;
        let ghost placed = s1.block_statuses.value(id);
        assert(count_waiting(s1.block_statuses.entries@) == count_waiting(
            old(self).block_statuses.entries@,
        ) + 1);
        let dropped = self.bound_waiting();
        let ghost s2 = *self;
        proof {
            lemma_follows_closely_chain(*old(self), s1, s2);
            assert(same_but_one(old(self).block_statuses, s1.block_statuses, id));
            lemma_moving_keeps_waiters(*old(self), s1, id);
            lemma_waiters_kept_chain(*old(self), s1, s2);
            assert forall|x: BlockId|
                x != id && old(self).block_statuses.has(x) && is_early(
                    old(self).block_statuses.value(x),
                ) implies #[trigger] s2.block_statuses.has(x) && s2.block_statuses.value(x) == old(
                self,
            ).block_statuses.value(x) by {
                assert(s1.block_statuses.has(x) == mid.block_statuses.has(x));
                assert(s1.block_statuses.value(x) == old(self).block_statuses.value(x));
            }
            assert(s2.block_statuses.has(id));
            assert forall|x: BlockId|
                #![trigger s2.block_statuses.has(x)]
                s2.block_statuses.has(x) == old(self).block_statuses.has(x) by {
                if x != id {
                    assert(s1.block_statuses.has(x) == mid.block_statuses.has(x));
                }
            }
            assert(waits_or_moved_on(placed, received, wanted, seq0));
            assert(s2.block_statuses.value(id) == placed || dropped@.contains(id));
            assert(waits_or_moved_on(s2.block_statuses.value(id), received, wanted, seq0));
        }
        // the blocks that waited for a block that was dropped are let go
        let mut released: Vec<BlockId> = Vec::new();
        let mut d: usize = 0;
        while d < dropped.len()
            invariant
                d <= dropped@.len(),
                self.wf(),
                self.follows_closely(old(self)),
                keeps_early(*self, *old(self), id),
                waiters_kept(*self, *old(self)),
                self.wishlist == wished,
                self.attack_attempts == s2.attack_attempts,
                self.block_statuses.has(id),
                keeps_known(*self, *old(self)),
                waits_or_moved_on(self.block_statuses.value(id), received, wanted, seq0),
                d == 0 ==> released@.len() == 0 && self.block_statuses == s2.block_statuses,
            decreases dropped@.len() - d,
        {
            let ghost prev = *self;
            let mut more = self.release_dependents(&dropped[d]);
            released.append(&mut more);
            proof {
                lemma_follows_closely_chain(*old(self), prev, *self);
                lemma_waiters_kept_chain(*old(self), prev, *self);
                assert forall|x: BlockId|
                    x != id && old(self).block_statuses.has(x) && is_early(
                        old(self).block_statuses.value(x),
                    ) implies #[trigger] self.block_statuses.has(x) && self.block_statuses.value(x)
                    == old(self).block_statuses.value(x) by {
                    assert(prev.block_statuses.has(x));
                    assert(self.block_statuses.has(x) == prev.block_statuses.has(x));
                    assert(self.block_statuses.value(x) == prev.block_statuses.value(x));
                }
                assert(prev.block_statuses.has(id));
                assert(self.block_statuses.has(id) == prev.block_statuses.has(id));
                assert forall|x: BlockId|
                    #![trigger self.block_statuses.has(x)]
                    self.block_statuses.has(x) == old(self).block_statuses.has(x) by {
                    assert(self.block_statuses.has(x) == prev.block_statuses.has(x));
                    assert(prev.block_statuses.has(x) == old(self).block_statuses.has(x));
                }
                assert(let_go(
                    prev.block_statuses.value(id),
                    self.block_statuses.value(id),
                    dropped@[d as int],
                ));
                if waits_for(prev.block_statuses.value(id), dropped@[d as int]) {
                    lemma_ids_without(
                        prev.block_statuses.value(id)->unsatisfied_dependencies@,
                        dropped@[d as int],
                    );
                }
            }
            d += 1;
        }
        let ghost s3 = *self;
        proof {
            lemma_follows_closely_chain(*old(self), s3, *self);
            lemma_settling_keeps_waiters(s3, *self);
            lemma_waiters_kept_chain(*old(self), s3, *self);
            assert forall|x: BlockId|
                x != id && old(self).block_statuses.has(x) && is_early(
                    old(self).block_statuses.value(x),
                ) implies #[trigger] self.block_statuses.has(x) && self.block_statuses.value(x)
                == old(self).block_statuses.value(x) by {
                assert(s3.block_statuses.has(x));
                assert(s3.block_statuses.value(x) == old(self).block_statuses.value(x));
            }
            if count_waiting(old(self).block_statuses.entries@)
                < old(self).config.max_dependency_blocks {
                assert(dropped@.len() == 0);
                assert(s3.block_statuses == s2.block_statuses);
                assert(s2.block_statuses.value(id) == placed);
                assert forall|x: BlockId|
                    #![trigger self.block_statuses.value(x)]
                    x != id && self.block_statuses.has(x) implies self.block_statuses.value(x)
                    == old(self).block_statuses.value(x) by {
                    assert(s3.block_statuses.has(x));
                    assert(s2.block_statuses.has(x));
                    assert(s1.block_statuses.has(x));
                    assert(!dropped@.contains(x));
                    assert(s2.block_statuses.value(x) == s1.block_statuses.value(x));
                    assert(s1.block_statuses.has(x) == mid.block_statuses.has(x));
                }
                assert forall|x: BlockId|
                    #![trigger self.block_statuses.has(x)]
                    old(self).block_statuses.has(x) && !is_discarded(
                        old(self).block_statuses,
                        x,
                    ) implies self.block_statuses.has(x) by {
                    if x != id {
                        assert(s1.block_statuses.has(x) == mid.block_statuses.has(x));
                    }
                    assert(s1.block_statuses.has(x));
                    assert(s2.block_statuses.has(x));
                    assert(!dropped@.contains(x));
                    assert(s2.block_statuses.value(x) == s1.block_statuses.value(x));
                    assert(!is_discarded(s3.block_statuses, x));
                }
            }
        }
        released
    }

    /// Lets the incoming block `id` enter the graph, settles finality anew, and lets
    /// go of the blocks that waited for it. Returns the blocks that are incoming
    /// again.
    fn settle_entering(
        &mut self,
        id: BlockId,
        parents: Vec<(BlockId, u64)>,
        incomp: Vec<BlockId>,
        fitness: u64,
    ) -> (r: Result<Vec<BlockId>, GraphError>)
        requires
            old(self).wf(),
            old(self).block_statuses.has(id),
            old(self).block_statuses.value(id) is Incoming,
            old(self).block_statuses.value(id)->Incoming_0.header.content.slot.thread < old(
                self,
            ).config.thread_count,
            all_living_but(old(self).block_statuses, incomp@, id),
            forall|k: int|
                0 <= k < parents@.len() ==> is_active(
                    old(self).block_statuses,
                    (#[trigger] parents@[k]).0,
                ),
        ensures
            final(self).wf(),
            final(self).follows_closely(old(self)),
            keeps_early(*final(self), *old(self), id),
            waiters_kept(*final(self), *old(self)),
            keeps_known(*final(self), *old(self)),
            is_active(final(self).block_statuses, id) || is_discarded(
                final(self).block_statuses,
                id,
            ),
            r is Err ==> r == Err::<Vec<BlockId>, _>(GraphError::FitnessOverflow),
            parents_known_as(
                old(self).block_statuses,
                old(self).block_statuses.value(id)->Incoming_0.header,
                parents@,
            ) && incompatibles_are(
                *old(self),
                id,
                old(self).block_statuses.value(id)->Incoming_0.header,
                parents@,
                incomp@,
            ) && fitness == BlockHeader::spec_fitness(
                old(self).block_statuses.value(id)->Incoming_0.header@.content.endorsements.len(),
            ) ==> entered_step(
                *old(self),
                *final(self),
                id,
                old(self).block_statuses.value(id)->Incoming_0,
                r,
            ),
    {
        let ghost received = old(self).block_statuses.value(id)->Incoming_0;
        let ghost parents_seq = parents@;
        let ghost incomp_seq = incomp@;
        let (slot, creator, _) = match self.block_statuses.get(&id) {
            Some(BlockStatus::Incoming(header_or_block)) => Self::describe(&header_or_block.header),
            _ => (Slot::new(0, 0), Address(crate::hash::Hash::from_bytes(&[0u8; 32])), Vec::new()),
        };
        let entered = self.add_active_block(id, creator, slot, parents, fitness, incomp);
        let ghost s1 = *self;
        proof {
            assert forall|x: BlockId| #[trigger] s1.block_statuses.has(x) implies old(
                self,
            ).block_statuses.has(x) by {
                if x != id {
                    assert(s1.block_statuses.has(x) == old(self).block_statuses.has(x));
                }
            }
            assert(s1.follows_closely(old(self)));
            assert forall|x: BlockId|
                x != id && old(self).block_statuses.has(x) && is_early(
                    old(self).block_statuses.value(x),
                ) implies #[trigger] s1.block_statuses.has(x) && s1.block_statuses.value(x) == old(
                self,
            ).block_statuses.value(x) by {
                assert(s1.block_statuses.has(x) == old(self).block_statuses.has(x));
                assert(same_but_links(
                    old(self).block_statuses.value(x),
                    s1.block_statuses.value(x),
                ));
            }
        }
        let ghost mut noted = s1;
        let ghost mut finals: Result<Vec<BlockId>, GraphError> = arbitrary();
        let outcome = match entered {
            Ok(Entry::Entered) => {
                self.to_propagate.push(id);
                let ghost s2 = *self;
                assert(s2.wf());
                assert(s2.follows_closely(&s1));
                let settled = self.update_finality();
                proof {
                    noted = s2;
                    finals = settled;
                }
                proof {
                    lemma_follows_closely_chain(s1, s2, *self);
                    lemma_follows_closely_chain(*old(self), s1, *self);
                    assert forall|x: BlockId|
                        x != id && old(self).block_statuses.has(x) && is_early(
                            old(self).block_statuses.value(x),
                        ) implies #[trigger] self.block_statuses.has(x)
                        && self.block_statuses.value(x) == old(self).block_statuses.value(x) by {
                        assert(s1.block_statuses.has(x));
                        assert(s2.block_statuses.has(x));
                        assert(s2.block_statuses.value(x) == old(self).block_statuses.value(x));
                        assert(!is_active(s2.block_statuses, x) && !is_discarded(
                            s2.block_statuses,
                            x,
                        ));
                    }
                }
                match settled {
                    Ok(_) => Ok(()),
                    Err(e) => Err(e),
                }
            },
            Ok(Entry::Attack) => Ok(()),
            Err(e) => Err(e),
        };
        let ghost s3 = *self;
        proof {
            assert forall|x: BlockId|
                x != id && old(self).block_statuses.has(x) && is_early(
                    old(self).block_statuses.value(x),
                ) implies #[trigger] s3.block_statuses.has(x) && s3.block_statuses.value(x) == old(
                self,
            ).block_statuses.value(x) by {
                assert(s1.block_statuses.has(x));
            }
        }
        let released = self.release_dependents(&id);
        let ghost s4 = *self;
        proof {
            lemma_follows_closely_chain(*old(self), s3, s4);
            lemma_follows_closely_chain(*old(self), s4, *self);
            assert forall|x: BlockId|
                #![trigger self.block_statuses.has(x)]
                self.block_statuses.has(x) == old(self).block_statuses.has(x) by {
                assert(s4.block_statuses.has(x) == s3.block_statuses.has(x));
                if entered == Ok::<Entry, GraphError>(Entry::Entered) {
                    lemma_same_keys(s3.block_statuses, s1.block_statuses);
                }
                assert(s3.block_statuses.has(x) == s1.block_statuses.has(x));
                if x != id {
                    assert(s1.block_statuses.has(x) == old(self).block_statuses.has(x));
                }
            }
            assert(s1.block_statuses.has(id));
            assert(is_active(s1.block_statuses, id) || is_discarded(s1.block_statuses, id));
            if entered == Ok::<Entry, GraphError>(Entry::Entered) {
                lemma_same_keys(s3.block_statuses, s1.block_statuses);
            }
            assert(s3.block_statuses.has(id));
            if entered == Ok::<Entry, GraphError>(Entry::Entered) {
                assert(s3.follows_closely(&s1));
            }
            assert(is_active(s3.block_statuses, id) || is_discarded(s3.block_statuses, id));
            assert(s4.block_statuses.value(id) == s3.block_statuses.value(id));
            let r0 = match outcome {
                Ok(()) => Ok::<Vec<BlockId>, GraphError>(released),
                Err(e) => Err::<Vec<BlockId>, GraphError>(e),
            };
            if parents_known_as(old(self).block_statuses, received.header, parents_seq)
                && incompatibles_are(*old(self), id, received.header, parents_seq, incomp_seq)
                && fitness == BlockHeader::spec_fitness(
                received.header@.content.endorsements.len(),
            ) {
                assert(added(
                    *old(self),
                    s1,
                    id,
                    creator,
                    received.header.content.slot,
                    parents_seq,
                    fitness,
                    incomp_seq,
                    entered,
                ));
                assert(let_go_of(s3, *self, id, released@));
                let failed = entered == Ok::<Entry, GraphError>(Entry::Entered) && finals is Err;
                if entered == Ok::<Entry, GraphError>(Entry::Entered) {
                    assert(noted_to_propagate(s1, noted, id));
                    assert(finality_settled(noted, s3, finals));
                }
                assert(then_settled(s1, s3, id, entered, failed));
                assert(entered_step(*old(self), *self, id, received, r0));
            }
            assert forall|x: BlockId|
                x != id && old(self).block_statuses.has(x) && is_early(
                    old(self).block_statuses.value(x),
                ) implies #[trigger] self.block_statuses.has(x) && self.block_statuses.value(x)
                == old(self).block_statuses.value(x) by {
                assert(s3.block_statuses.has(x));
                assert(s4.block_statuses.has(x) == s3.block_statuses.has(x));
                assert(s4.block_statuses.value(x) == s3.block_statuses.value(x));
                assert(!is_active(s4.block_statuses, x) && !is_discarded(s4.block_statuses, x));
            }
            assert(keeps_early(*self, *old(self), id));
        }
        match outcome {
            Ok(()) => Ok(released),
            Err(e) => Err(e),
        }
    }

    /// Looks at the block `id`, if it is incoming: checks its header against the
    /// graph at the slot `current_slot` and gives it the status that the check
    /// calls for. A block that can enter the graph enters it, and finality is
    /// settled anew. Returns the blocks that are incoming again because they waited
    /// for a block that is now active or discarded.
    pub fn process_one(&mut self, id: BlockId, current_slot: Slot) -> (r: Result<
        Vec<BlockId>,
        GraphError,
    >)
        requires
            old(self).wf(),
        ensures
            final(self).wf(),
            final(self).follows_closely(old(self)),
            r is Err ==> r == Err::<Vec<BlockId>, _>(GraphError::FitnessOverflow),
            !(old(self).block_statuses.has(id) && old(self).block_statuses.value(id) is Incoming)
                ==> *final(self) == *old(self) && r is Ok,
            one_look(*old(self), *final(self), id, current_slot, r),
            keeps_early(*final(self), *old(self), id),
            keeps_known(*final(self), *old(self)),
            old(self).block_statuses.has(id) && old(self).block_statuses.value(id) is Incoming
                ==> looked_at(
                *old(self),
                *final(self),
                id,
                old(self).block_statuses.value(id)->Incoming_0,
                current_slot,
            ),
            no_late_waiter(*old(self), current_slot) ==> no_late_waiter(*final(self), current_slot),
            slot_waiters_untouched(*final(self), *old(self)),
            waiters_kept_or_early(*final(self), *old(self), current_slot),
            old(self).block_statuses.has(id) && old(self).block_statuses.value(id) is Incoming
                ==> first_step(
                *old(self),
                *final(self),
                id,
                old(self).block_statuses.value(id)->Incoming_0,
                current_slot,
                r,
            ),
    {
        proof {
            lemma_follows_closely_self(*self);
        }
        let ghost received = old(self).block_statuses.value(id)->Incoming_0;
        let verdict = match self.block_statuses.get(&id) {
            Some(BlockStatus::Incoming(header_or_block)) => self.check_header(
                &id,
                &header_or_block.header,
                current_slot,
            ),
            _ => { return Ok(Vec::new()); },
        };
        let outcome = match verdict {
            Verdict::Discard(reason) => Ok(self.settle_discarded(id, reason)),
            Verdict::WaitForSlot => {
                self.settle_waiting_for_slot(id);
                proof {
                    if no_late_waiter(*old(self), current_slot) {
                        assert forall|x: BlockId|
                            #![trigger self.block_statuses.has(x)]
                            self.block_statuses.has(x) implies (self.block_statuses.value(
                            x,
                        ) matches BlockStatus::WaitingForSlot(received) ==> current_slot.spec_lt(
                            received.header.content.slot,
                        )) by {
                            if x != id {
                                assert(self.block_statuses.has(x) == old(self).block_statuses.has(
                                    x,
                                ));
                            }
                        }
                    }
                }
                Ok(Vec::new())
            },
            Verdict::WaitForDependencies(missing) => {
                let ghost wanted = missing@;
                let released = self.settle_waiting_for_dependencies(id, missing);
                proof {
                    assert(waiting_settled(*old(self), *self, id, received, wanted, released@));
                    let r0 = Ok::<Vec<BlockId>, GraphError>(released);
                    assert(r0.unwrap()@ == released@);
                    assert(waiting_settled(*old(self), *self, id, received, wanted, r0.unwrap()@));
                    assert(ids_distinct(wanted));
                    assert forall|y: BlockId|
                        #![trigger wanted.contains(y)]
                        wanted.contains(y) <==> is_missing_parent(
                            old(self).block_statuses,
                            received.header.content.parents@,
                            received.header.content.parents@.len() as int,
                            y,
                        ) by {}
                    assert(made_to_wait(
                        *old(self),
                        *self,
                        id,
                        received,
                        Ok::<Vec<BlockId>, GraphError>(released),
                    ));
                }
                Ok(released)
            },
            Verdict::Proceed { parents, incomp, fitness } => {
                proof {
                    assert(parents_known_as(old(self).block_statuses, received.header, parents@));
                    assert(incompatibles_are(*old(self), id, received.header, parents@, incomp@));
                }
                self.settle_entering(id, parents, incomp, fitness)
            },
        };
        proof {
            if no_late_waiter(*old(self), current_slot) && !(verdict is WaitForSlot) {
                lemma_no_late_waiter_kept(*old(self), *self, current_slot);
            }
            assert(verdict is Proceed <==> is_to_enter(*old(self), received.header, current_slot));
            assert(is_to_wait(*old(self), received.header, current_slot)
                ==> verdict is WaitForDependencies);
            assert(first_step(*old(self), *self, id, received, current_slot, outcome));
        }
        outcome
    }

    /// Looks at the blocks of `work`, last first, and at the blocks that are
    /// incoming again as a result, one after the other, until none is left. No more
    /// blocks are looked at than twice as many as are known, and two more.
    pub fn process_pending(&mut self, work: Vec<BlockId>, current_slot: Slot) -> (r: Result<
        (),
        GraphError,
    >)
        requires
            old(self).wf(),
        ensures
            final(self).wf(),
            final(self).follows_closely(old(self)),
            r is Err ==> r == Err::<(), _>(GraphError::FitnessOverflow),
            work@.len() == 0 ==> *final(self) == *old(self),
            keeps_known(*final(self), *old(self)),
            slot_waiters_untouched(*final(self), *old(self)),
            waiters_kept_or_early(*final(self), *old(self), current_slot),
            r is Err ==> some_step_fails(*old(self), current_slot),
            looked_in_turn(*old(self), *final(self), work@, current_slot, r),
            work@.len() > 0 && old(self).block_statuses.has(work@[work@.len() - 1]) && old(
                self,
            ).block_statuses.value(work@[work@.len() - 1]) is Incoming ==> looked_through(
                *old(self),
                *final(self),
                work@[work@.len() - 1],
                work@.len() as int,
                current_slot,
                r,
            ),
            no_late_waiter(*old(self), current_slot) ==> no_late_waiter(*final(self), current_slot),
            work@.len() > 0 && old(self).block_statuses.has(work@[work@.len() - 1]) && old(
                self,
            ).block_statuses.value(work@[work@.len() - 1]) is Incoming ==> looked_at(
                *old(self),
                *final(self),
                work@[work@.len() - 1],
                old(self).block_statuses.value(work@[work@.len() - 1])->Incoming_0,
                current_slot,
            ),
    {
        let mut queue = work;
        let known = self.block_statuses.entries.len();
        let mut fuel: usize = if known < usize::MAX / 2 {
            2 * known + 1
        } else {
            usize::MAX
        };
        let ghost mut states: Seq<ConsensusState> = seq![*self];
        let ghost mut queues: Seq<Seq<BlockId>> = seq![work@];
        let ghost allowed = look_fuel(known as nat);
        proof {
            lemma_follows_closely_self(*self);
            assert(is_look_trace(states, queues, current_slot));
        }
        let first = match queue.pop() {
            Some(id) => id,
            None => {
                proof {
                    assert(looked_in_turn(
                        *old(self),
                        *self,
                        work@,
                        current_slot,
                        Ok::<(), GraphError>(()),
                    ));
                }
                return Ok(());
            },
        };
        let ghost hb = old(self).block_statuses.value(first)->Incoming_0;
        let ghost was_incoming = old(self).block_statuses.has(first) && old(
            self,
        ).block_statuses.value(first) is Incoming;
        let first_outcome = self.process_one(first, current_slot);
        let ghost stepped = *self;
        let ghost r1 = first_outcome;
        proof {
            lemma_follows_closely_self(stepped);
        }
        match first_outcome {
            Ok(mut released) => {
                queue.append(&mut released);
                proof {
                    let v = r1.unwrap();
                    assert(r1 == Ok::<Vec<BlockId>, GraphError>(v));
                    assert(first == work@.last());
                    assert(one_look(
                        *old(self),
                        stepped,
                        work@.last(),
                        current_slot,
                        Ok::<Vec<BlockId>, GraphError>(v),
                    ));
                    assert(queue@ =~= work@.drop_last() + v@);
                    assert(look_link(*old(self), work@, stepped, queue@, current_slot));
                    lemma_look_trace_push(states, queues, stepped, queue@, current_slot);
                    states = states.push(stepped);
                    queues = queues.push(queue@);
                }
            },
            Err(e) => {
                proof {
                    assert(one_look(
                        *old(self),
                        stepped,
                        work@.last(),
                        current_slot,
                        Err::<Vec<BlockId>, GraphError>(e),
                    ));
                    assert(looked_in_turn(
                        *old(self),
                        *self,
                        work@,
                        current_slot,
                        Err::<(), GraphError>(e),
                    ));
                    lemma_follows_closely_self(*old(self));
                    assert(was_incoming);
                    assert(first_step(*old(self), stepped, first, hb, current_slot, r1));
                    assert(some_step_fails(*old(self), current_slot));
                    assert(then_looked_on(
                        stepped,
                        *self,
                        r1,
                        work@.len() as int,
                        Err::<(), GraphError>(e),
                    ));
                }
                return Err(e);
            },
        }
        if queue.len() == 0 {
            proof {
                assert(looked_in_turn(
                    *old(self),
                    *self,
                    work@,
                    current_slot,
                    Ok::<(), GraphError>(()),
                ));
                if was_incoming {
                    assert(first_step(*old(self), stepped, first, hb, current_slot, r1));
                    assert(then_looked_on(
                        stepped,
                        *self,
                        r1,
                        work@.len() as int,
                        Ok::<(), GraphError>(()),
                    ));
                }
            }
            return Ok(());
        }
        while fuel > 0 && queue.len() > 0
            invariant
                is_look_trace(states, queues, current_slot),
                states[0] == *old(self),
                queues[0] == work@,
                states.last() == *self,
                queues.last() == queue@,
                allowed == look_fuel(old(self).block_statuses.entries@.len()),
                states.len() - 1 + fuel == allowed + 1,
                self.wf(),
                self.follows_closely(old(self)),
                self.follows_closely(&stepped),
                keeps_known(*self, stepped),
                keeps_known(stepped, *old(self)),
                slot_waiters_untouched(*self, *old(self)),
                waiters_kept_or_early(*self, *old(self), current_slot),
                stepped.follows_closely(old(self)),
                r1 is Ok,
                r1.unwrap()@.len() > 0 || work@.len() > 1,
                was_incoming ==> first_step(*old(self), stepped, first, hb, current_slot, r1),
                work@.len() > 0,
                first == work@[work@.len() - 1],
                was_incoming == (old(self).block_statuses.has(first) && old(
                    self,
                ).block_statuses.value(first) is Incoming),
                hb == old(self).block_statuses.value(first)->Incoming_0,
                was_incoming ==> looked_at(*old(self), *self, first, hb, current_slot),
                keeps_known(*self, *old(self)),
                no_late_waiter(*old(self), current_slot) ==> no_late_waiter(*self, current_slot),
            decreases fuel,
        {
            let ghost queue_before = queue@;
            fuel = fuel - 1;
            let id = match queue.pop() {
                Some(id) => id,
                None => {
                    proof {
                        assert(false);
                        if was_incoming {
                            assert(then_looked_on(
                                stepped,
                                *self,
                                r1,
                                work@.len() as int,
                                Ok::<(), GraphError>(()),
                            ));
                        }
                    }
                    return Ok(());
                },
            };
            let ghost prev = *self;
            let outcome = self.process_one(id, current_slot);
            let ghost step_outcome = outcome;
            proof {
                assert(id == queue_before.last());
                lemma_follows_closely_chain(*old(self), prev, *self);
                lemma_follows_closely_chain(stepped, prev, *self);
                if was_incoming {
                    lemma_looked_at_stays(*old(self), prev, *self, first, hb, current_slot, id);
                }
                assert forall|x: BlockId|
                    #![trigger self.block_statuses.value(x)]
                    #![trigger old(self).block_statuses.has(x)]
                    old(self).block_statuses.has(x) && old(self).block_statuses.value(
                        x,
                    ) is WaitingForSlot implies self.block_statuses.has(x)
                    && self.block_statuses.value(x) == old(self).block_statuses.value(x) by {
                    assert(prev.block_statuses.has(x));
                    assert(prev.block_statuses.value(x) == old(self).block_statuses.value(x));
                }
                assert forall|x: BlockId|
                    #![trigger self.block_statuses.has(x)]
                    self.block_statuses.has(x) implies (self.block_statuses.value(
                    x,
                ) matches BlockStatus::WaitingForSlot(received) ==> (old(self).block_statuses.has(x)
                    && old(self).block_statuses.value(x) == self.block_statuses.value(x))
                    || current_slot.spec_lt(received.header.content.slot)) by {
                    assert(prev.block_statuses.has(x));
                }
                assert forall|y: BlockId|
                    #![trigger self.block_statuses.has(y)]
                    self.block_statuses.has(y) == stepped.block_statuses.has(y) by {
                    assert(self.block_statuses.has(y) == prev.block_statuses.has(y));
                    assert(prev.block_statuses.has(y) == stepped.block_statuses.has(y));
                }
            }
            match outcome {
                Ok(mut released) => {
                    queue.append(&mut released);
                    proof {
                        let v = step_outcome.unwrap();
                        assert(step_outcome == Ok::<Vec<BlockId>, GraphError>(v));
                        assert(one_look(
                            prev,
                            *self,
                            queue_before.last(),
                            current_slot,
                            Ok::<Vec<BlockId>, GraphError>(v),
                        ));
                        assert(queue@ =~= queue_before.drop_last() + v@);
                        assert(look_link(prev, queue_before, *self, queue@, current_slot));
                        lemma_look_trace_push(states, queues, *self, queue@, current_slot);
                        states = states.push(*self);
                        queues = queues.push(queue@);
                    }
                },
                Err(e) => {
                    proof {
                        assert(one_look(
                            prev,
                            *self,
                            queue_before.last(),
                            current_slot,
                            Err::<Vec<BlockId>, GraphError>(e),
                        ));
                        assert(looked_in_turn(
                            *old(self),
                            *self,
                            work@,
                            current_slot,
                            Err::<(), GraphError>(e),
                        ));
                        assert(prev.block_statuses.has(id) && prev.block_statuses.value(
                            id,
                        ) is Incoming);
                        assert(first_step(
                            prev,
                            *self,
                            id,
                            prev.block_statuses.value(id)->Incoming_0,
                            current_slot,
                            outcome,
                        ));
                        assert(some_step_fails(*old(self), current_slot));
                        if was_incoming {
                            assert(then_looked_on(
                                stepped,
                                *self,
                                r1,
                                work@.len() as int,
                                Err::<(), GraphError>(e),
                            ));
                        }
                    }
                    return Err(e);
                },
            }
        }
        proof {
            assert(looked_in_turn(*old(self), *self, work@, current_slot, Ok::<(), GraphError>(())));
            if was_incoming {
                assert(then_looked_on(
                    stepped,
                    *self,
                    r1,
                    work@.len() as int,
                    Ok::<(), GraphError>(()),
                ));
            }
        }
        Ok(())
    }
}

impl ConsensusState {
    /// Takes in the block `id` with the header `header`, at the slot
    /// `current_slot`; `is_block` tells whether the whole block came, or its header
    /// only.
    ///
    /// A block that is known is left as it is: no block enters twice. A block that
    /// a final block has as a parent is discarded as final, and a block that another
    /// active block has as a parent is discarded as stale: they were in the graph
    /// before. Any other block is incoming, and is looked at right away, with the
    /// blocks that waited for it. In the end the discarded blocks that are too many
    /// are forgotten, those that were discarded first.
    pub fn register(
        &mut self,
        id: BlockId,
        header: BlockHeader,
        is_block: bool,
        current_slot: Slot,
    ) -> (r: Result<(), GraphError>)
        requires
            old(self).wf(),
        ensures
            final(self).wf(),
            final(self).follows(old(self)),
            r is Err ==> r == Err::<(), _>(GraphError::FitnessOverflow),
            old(self).block_statuses.has(id) ==> r is Ok && *final(self) == *old(self),
            forall|x: BlockId|
                #![trigger final(self).block_statuses.has(x)]
                final(self).block_statuses.has(x) ==> old(self).block_statuses.has(x) || x == id,
            !old(self).block_statuses.has(id) ==> taken_in_then_forgot(
                *old(self),
                *final(self),
                id,
                header,
                is_block,
                current_slot,
            ),
            !old(self).block_statuses.has(id) && !is_parent_of_active(
                old(self).block_statuses,
                id,
            ) ==> registered_by_steps(
                *old(self),
                *final(self),
                id,
                (HeaderOrBlock { header, is_block: is_block }),
                current_slot,
                r,
            ),
            r is Err ==> registering_fails(
                *old(self),
                id,
                (HeaderOrBlock { header, is_block: is_block }),
                current_slot,
            ),
            no_late_waiter(*old(self), current_slot) ==> no_late_waiter(*final(self), current_slot),
    {
        if self.block_statuses.contains_key(&id) {
            proof {
                assert forall|x: BlockId| #[trigger] self.block_statuses.has(x) implies {
                    &&& is_discarded(old(self).block_statuses, x) ==> self.block_statuses.value(x) == old(self).block_statuses.value(x)
                    &&& is_final(old(self).block_statuses, x) ==> is_final(self.block_statuses, x)
                        || is_pruned(self.block_statuses, x)
                } by {}
            }
            return Ok(());
        }
        let (of_active, of_final) = self.parent_of(&id);
        if of_active {
            let (slot, creator, parents) = Self::describe(&header);
            let sequence_number = self.next_sequence_number();
            let ghost mid = *self;
            assert(mid.wf());
            self.give_status(
                id,
                BlockStatus::Discarded {
                    slot,
                    creator,
                    parents,
                    reason: if of_final {
                        DiscardReason::Final
                    } else {
                        DiscardReason::Stale
                    },
                    sequence_number,
                },
            );
            let ghost s1 = *self;
            self.evict_discarded();
            proof {
                assert(is_parent_of_final(old(self).block_statuses, id) ==> is_parent_of_active(
                    old(self).block_statuses,
                    id,
                )) by {
                    if is_parent_of_final(old(self).block_statuses, id) {
                        let x = choose|x: BlockId| #[trigger]
                            is_final(old(self).block_statuses, x) && active_block(
                                old(self).block_statuses,
                                x,
                            ).has_parent(id);
                        assert(is_active(old(self).block_statuses, x));
                    }
                }
                assert(s1.follows(old(self)));
                lemma_follows_after_closely(*old(self), s1, *self);
                assert forall|x: BlockId|
                    #![trigger self.block_statuses.has(x)]
                    self.block_statuses.has(x) implies old(self).block_statuses.has(x) || x
                    == id by {
                    assert(s1.block_statuses.has(x));
                    if x != id {
                        assert(s1.block_statuses.has(x) == mid.block_statuses.has(x));
                    }
                }
                assert(taken_in(*old(self), s1, id, header, is_block, current_slot));
                assert(forgetting(s1, *self));
                if no_late_waiter(*old(self), current_slot) {
                    lemma_moving_keeps_waiters(*old(self), s1, id);
                    lemma_no_late_waiter_kept(*old(self), s1, current_slot);
                    lemma_settling_keeps_waiters(s1, *self);
                    lemma_no_late_waiter_kept(s1, *self, current_slot);
                }
            }
            return Ok(());
        }
        proof {
            assert(!is_parent_of_final(self.block_statuses, id)) by {
                if is_parent_of_final(self.block_statuses, id) {
                    let x = choose|x: BlockId| #[trigger]
                        is_final(self.block_statuses, x) && active_block(
                            self.block_statuses,
                            x,
                        ).has_parent(id);
                    assert(is_active(self.block_statuses, x));
                }
            }
        }
        self.give_status(id, BlockStatus::Incoming(HeaderOrBlock { header, is_block }));
        let ghost s1 = *self;
        proof {
            if no_late_waiter(*old(self), current_slot) {
                lemma_moving_keeps_waiters(*old(self), s1, id);
                lemma_no_late_waiter_kept(*old(self), s1, current_slot);
            }
        }
        let mut work: Vec<BlockId> = Vec::new();
        work.push(id);
        let outcome = self.process_pending(work, current_slot);
        let ghost core = *self;
        self.evict_discarded();
        proof {
            lemma_follows_after_closely(*old(self), s1, core);
            lemma_follows_after_closely(*old(self), core, *self);
            assert forall|x: BlockId|
                #![trigger self.block_statuses.has(x)]
                self.block_statuses.has(x) implies old(self).block_statuses.has(x) || x == id by {
                assert(core.block_statuses.has(x));
                assert(s1.block_statuses.has(x));
                if x != id {
                    assert(s1.block_statuses.has(x) == old(self).block_statuses.has(x));
                }
            }
            assert(work@[work@.len() - 1] == id);
            assert(looked_at(s1, core, id, HeaderOrBlock { header, is_block }, current_slot));
            lemma_parents_seen_alike(old(self).block_statuses, s1.block_statuses, id, header);
            assert(taken_in(*old(self), core, id, header, is_block, current_slot));
            assert(forgetting(core, *self));
            let received = HeaderOrBlock { header, is_block };
            assert(came_in(*old(self), s1, id, received));
            assert(looked_through(s1, core, id, 1, current_slot, outcome));
            let (stepped, r1) = choose|
                stepped: ConsensusState,
                r1: Result<Vec<BlockId>, GraphError>,
            |
                #[trigger] first_step(
                    s1,
                    stepped,
                    id,
                    s1.block_statuses.value(id)->Incoming_0,
                    current_slot,
                    r1,
                ) && then_looked_on(stepped, core, r1, 1, outcome);
            assert(first_step(s1, stepped, id, received, current_slot, r1));
            assert(then_looked_on(stepped, core, r1, 1, outcome));
            assert(work@ =~= seq![id]);
            assert(looked_in_turn(s1, core, seq![id], current_slot, outcome));
            assert(registered_by_steps(*old(self), *self, id, received, current_slot, outcome));
            if outcome is Err {
                assert(some_step_fails(s1, current_slot));
                assert(registering_fails(*old(self), id, received, current_slot));
            }
            if no_late_waiter(*old(self), current_slot) {
                lemma_settling_keeps_waiters(core, *self);
                lemma_no_late_waiter_kept(core, *self, current_slot);
            }
        }
        outcome
    }

    /// Takes in the header `header` of the block `id` at the slot `current_slot`.
    pub fn register_block_header(&mut self, id: BlockId, header: BlockHeader, current_slot: Slot) -> (r:
        Result<(), GraphError>)
        requires
            old(self).wf(),
        ensures
            final(self).wf(),
            final(self).follows(old(self)),
            r is Err ==> r == Err::<(), _>(GraphError::FitnessOverflow),
            old(self).block_statuses.has(id) ==> r is Ok && *final(self) == *old(self),
            forall|x: BlockId|
                #![trigger final(self).block_statuses.has(x)]
                final(self).block_statuses.has(x) ==> old(self).block_statuses.has(x) || x == id,
            !old(self).block_statuses.has(id) ==> taken_in_then_forgot(
                *old(self),
                *final(self),
                id,
                header,
                false,
                current_slot,
            ),
            !old(self).block_statuses.has(id) && !is_parent_of_active(
                old(self).block_statuses,
                id,
            ) ==> registered_by_steps(
                *old(self),
                *final(self),
                id,
                (HeaderOrBlock { header, is_block: false }),
                current_slot,
                r,
            ),
            r is Err ==> registering_fails(
                *old(self),
                id,
                (HeaderOrBlock { header, is_block: false }),
                current_slot,
            ),
            no_late_waiter(*old(self), current_slot) ==> no_late_waiter(*final(self), current_slot),
    {
        self.register(id, header, false, current_slot)
    }

    /// Takes in the block `id`, of which `header` is the header, at the slot
    /// `current_slot`. The store holds the block from now on.
    pub fn register_block(&mut self, id: BlockId, header: BlockHeader, current_slot: Slot) -> (r:
        Result<(), GraphError>)
        requires
            old(self).wf(),
        ensures
            final(self).wf(),
            final(self).follows(old(self)),
            r is Err ==> r == Err::<(), _>(GraphError::FitnessOverflow),
            forall|x: BlockId|
                #![trigger final(self).block_statuses.has(x)]
                final(self).block_statuses.has(x) ==> old(self).block_statuses.has(x) || x == id,
            old(self).block_statuses.has(id) ==> r is Ok && final(self).block_statuses == old(
                self,
            ).block_statuses && final(self).stored_blocks == old(self).stored_blocks,
            !old(self).block_statuses.has(id) ==> taken_in_then_forgot(
                *old(self),
                *final(self),
                id,
                header,
                true,
                current_slot,
            ),
            !old(self).block_statuses.has(id) && !is_parent_of_active(
                old(self).block_statuses,
                id,
            ) ==> exists|stored: ConsensusState| #[trigger]
                with_stored(*old(self), stored, id) && registered_by_steps(
                    stored,
                    *final(self),
                    id,
                    (HeaderOrBlock { header, is_block: true }),
                    current_slot,
                    r,
                ),
            r is Err ==> exists|stored: ConsensusState| #[trigger]
                with_stored(*old(self), stored, id) && registering_fails(
                    stored,
                    id,
                    (HeaderOrBlock { header, is_block: true }),
                    current_slot,
                ),
            no_late_waiter(*old(self), current_slot) ==> no_late_waiter(*final(self), current_slot),
    {
        let known = self.block_statuses.contains_key(&id);
        if !known {
            id_list_insert(&mut self.stored_blocks, id);
        }
        let ghost mid = *self;
        proof {
            assert(mid.wf());
            assert forall|x: BlockId| #[trigger] mid.block_statuses.has(x) implies {
                &&& is_discarded(old(self).block_statuses, x) ==> mid.block_statuses.value(x) == old(self).block_statuses.value(x)
                &&& is_final(old(self).block_statuses, x) ==> is_final(mid.block_statuses, x)
                    || is_pruned(mid.block_statuses, x)
            } by {}
        }
        let r = self.register(id, header, true, current_slot);
        proof {
            lemma_follows_chain(*old(self), mid, *self);
            if !known {
                assert(with_stored(*old(self), mid, id));
            }
        }
        r
    }

    /// Lets the blocks that waited for a slot that has come be looked at: at the
    /// slot `current_slot`, every block that waits for a slot that is not after it
    /// is incoming again and is looked at, with the blocks that waited for it, the
    /// block that became known last first. Then the discarded blocks that are too
    /// many are forgotten. Where the look at a block fails, the blocks that were to
    /// be looked at after it are left waiting.
    pub fn slot_tick(&mut self, current_slot: Slot) -> (r: Result<(), GraphError>)
        requires
            old(self).wf(),
        ensures
            final(self).wf(),
            final(self).follows_closely(old(self)),
            r is Ok ==> no_late_waiter(*final(self), current_slot),
            ticked(*old(self), *final(self), current_slot, r),
            r is Err ==> r == Err::<(), _>(GraphError::FitnessOverflow),
            r is Err ==> some_step_fails(*old(self), current_slot),
    {
        let mut due: Vec<BlockId> = Vec::new();
        let mut i: usize = 0;
        while i < self.block_statuses.entries.len()
            invariant
                i <= self.block_statuses.entries@.len(),
                *self == *old(self),
                forall|j: int|
                    0 <= j < i ==> ((#[trigger] self.block_statuses.entries@[j]).1 matches BlockStatus::WaitingForSlot(
                        received,
                    ) ==> current_slot.spec_lt(received.header.content.slot) || due@.contains(
                        self.block_statuses.entries@[j].0,
                    )),
            decreases self.block_statuses.entries@.len() - i,
        {
            let ghost due_before = due@;
            match &self.block_statuses.entries[i].1 {
                BlockStatus::WaitingForSlot(header_or_block) => {
                    if header_or_block.header.content.slot.is_before_or_at(&current_slot) {
                        due.push(self.block_statuses.entries[i].0);
                        proof {
                            assert(due@[due@.len() - 1] == self.block_statuses.entries@[i as int].0);
                        }
                    } else {
                        proof {
                            lemma_slot_order_total(
                                current_slot,
                                header_or_block.header.content.slot,
                            );
                        }
                    }
                },
                _ => {},
            }
            proof {
                assert forall|j: int| 0 <= j < i implies ((
                #[trigger] self.block_statuses.entries@[j]).1 matches BlockStatus::WaitingForSlot(
                    received,
                ) ==> current_slot.spec_lt(received.header.content.slot) || due@.contains(
                    self.block_statuses.entries@[j].0,
                )) by {
                    let x = self.block_statuses.entries@[j].0;
                    if due_before.contains(x) {
                        let m = choose|m: int| 0 <= m < due_before.len() && due_before[m] == x;
                        assert(due@[m] == x);
                    }
                }
            }
            i += 1;
        }
        proof {
            lemma_follows_closely_self(*self);
            assert forall|x: BlockId|
                #![trigger self.block_statuses.has(x)]
                self.block_statuses.has(x) implies (self.block_statuses.value(
                x,
            ) matches BlockStatus::WaitingForSlot(received) ==> current_slot.spec_lt(
                received.header.content.slot,
            ) || among_first(due@, due@.len() as int, x)) by {
                let j = self.block_statuses.index_of(x);
                assert(self.block_statuses.entries@[j].0 == x);
                if self.block_statuses.value(x) is WaitingForSlot && !current_slot.spec_lt(
                    self.block_statuses.value(x)->WaitingForSlot_0.header.content.slot,
                ) {
                    assert(due@.contains(x));
                    let m = choose|m: int| 0 <= m < due@.len() && due@[m] == x;
                    assert(0 <= m < due@.len() && due@[m] == x);
                }
            }
        }
        let mut k: usize = due.len();
        while k > 0
            invariant
                k <= due@.len(),
                self.wf(),
                self.follows_closely(old(self)),
                keeps_known(*self, *old(self)),
                // the blocks that still wait for a slot that has come are yet to be
                // looked at, and wait as they did
                forall|x: BlockId|
                    #![trigger self.block_statuses.has(x)]
                    self.block_statuses.has(x) ==> (self.block_statuses.value(
                        x,
                    ) matches BlockStatus::WaitingForSlot(received) ==> current_slot.spec_lt(
                        received.header.content.slot,
                    ) || (among_first(due@, k as int, x) && self.block_statuses.value(x) == old(
                        self,
                    ).block_statuses.value(x))),
                // the others were looked at
                forall|x: BlockId|
                    #![trigger old(self).block_statuses.has(x)]
                    was_due(*old(self), x, current_slot) ==> (self.block_statuses.value(x) == old(
                        self,
                    ).block_statuses.value(x) && among_first(due@, k as int, x)) || tick_looked(
                        *old(self),
                        *self,
                        x,
                        current_slot,
                    ),
            decreases k,
        {
            k = k - 1;
            let id = due[k];
            let ghost before_step = *self;
            let waits = match self.block_statuses.get(&id) {
                Some(BlockStatus::WaitingForSlot(header_or_block)) => {
                    header_or_block.header.content.slot.is_before_or_at(&current_slot)
                },
                _ => false,
            };
            if waits {
                let ghost received = before_step.block_statuses.value(id)->WaitingForSlot_0;
                proof {
                    lemma_slot_order_total(current_slot, received.header.content.slot);
                    assert(before_step.block_statuses.value(id) == old(self).block_statuses.value(
                        id,
                    ));
                }
                let taken = self.block_statuses.remove(&id);
                match taken {
                    Some(BlockStatus::WaitingForSlot(header_or_block)) => {
                        self.block_statuses.insert(id, BlockStatus::Incoming(header_or_block));
                    },
                    Some(other) => {
                        self.block_statuses.insert(id, other);
                    },
                    None => {},
                }
                let ghost mid = *self;
                proof {
                    lemma_unsettled_is_no_parent(before_step, id);
                    assert(same_but_one(before_step.block_statuses, mid.block_statuses, id));
                    lemma_status_given(before_step, mid, id);
                    assert forall|x: BlockId| #[trigger] mid.block_statuses.has(x) implies before_step.block_statuses.has(
                        x,
                    ) by {
                        if x != id {
                            assert(mid.block_statuses.has(x) == before_step.block_statuses.has(x));
                        }
                    }
                    lemma_follows_closely_chain(*old(self), before_step, mid);
                    assert forall|x: BlockId|
                        #![trigger mid.block_statuses.has(x)]
                        mid.block_statuses.has(x) == old(self).block_statuses.has(x) by {
                        if x != id {
                            assert(mid.block_statuses.has(x) == before_step.block_statuses.has(x));
                        }
                        assert(before_step.block_statuses.has(x) == old(self).block_statuses.has(
                            x,
                        ));
                    }
                }
                let mut work: Vec<BlockId> = Vec::new();
                work.push(id);
                let outcome = self.process_pending(work, current_slot);
                proof {
                    lemma_follows_closely_chain(*old(self), mid, *self);
                    assert forall|x: BlockId|
                        #![trigger self.block_statuses.has(x)]
                        self.block_statuses.has(x) == old(self).block_statuses.has(x) by {
                        assert(self.block_statuses.has(x) == mid.block_statuses.has(x));
                        assert(mid.block_statuses.has(x) == old(self).block_statuses.has(x));
                    }
                    // the block was looked at
                    assert(looked_through(mid, *self, id, 1, current_slot, outcome));
                    let (stepped, r1) = choose|
                        stepped: ConsensusState,
                        r1: Result<Vec<BlockId>, GraphError>,
                    |
                        #[trigger] first_step(
                            mid,
                            stepped,
                            id,
                            mid.block_statuses.value(id)->Incoming_0,
                            current_slot,
                            r1,
                        ) && then_looked_on(stepped, *self, r1, 1, outcome);
                    assert(first_step(mid, stepped, id, received, current_slot, r1));
                    assert(work@ =~= seq![id]);
                    if outcome is Ok {
                        lemma_follows_closely_self(*self);
                        assert(looked_in_turn(
                            mid,
                            *self,
                            seq![id],
                            current_slot,
                            Ok::<(), GraphError>(()),
                        ));
                        assert(turn_taken(mid, *self, id, current_slot));
                        assert(tick_looked(*old(self), *self, id, current_slot));
                    }
                    if outcome is Ok {
                        // what was looked at before stays
                        assert forall|x: BlockId|
                            #![trigger old(self).block_statuses.has(x)]
                            was_due(*old(self), x, current_slot) implies (self.block_statuses.value(x)
                            == old(self).block_statuses.value(x) && among_first(due@, k as int, x))
                            || tick_looked(*old(self), *self, x, current_slot) by {
                            if x != id {
                                if tick_looked(*old(self), before_step, x, current_slot) {
                                    lemma_follows_closely_chain(before_step, mid, *self);
                                    assert forall|y: BlockId|
                                        #![trigger self.block_statuses.has(y)]
                                        self.block_statuses.has(y) == before_step.block_statuses.has(
                                            y,
                                        ) by {
                                        assert(self.block_statuses.has(y)
                                            == old(self).block_statuses.has(y));
                                        assert(before_step.block_statuses.has(y) == old(
                                            self,
                                        ).block_statuses.has(y));
                                    }
                                    lemma_tick_looked_stays(
                                        *old(self),
                                        before_step,
                                        *self,
                                        x,
                                        current_slot,
                                    );
                                } else {
                                    let m = choose|m: int| 0 <= m < k + 1 && due@[m] == x;
                                    assert(0 <= m < k && due@[m] == x);
                                    assert(mid.block_statuses.has(x) == before_step.block_statuses.has(
                                        x,
                                    ));
                                    assert(mid.block_statuses.value(x)
                                        == before_step.block_statuses.value(x));
                                    assert(self.block_statuses.value(x) == mid.block_statuses.value(x));
                                }
                            }
                        }
                        assert forall|x: BlockId|
                            #![trigger self.block_statuses.has(x)]
                            self.block_statuses.has(x) implies (self.block_statuses.value(
                            x,
                        ) matches BlockStatus::WaitingForSlot(rcv) ==> current_slot.spec_lt(
                            rcv.header.content.slot,
                        ) || (among_first(due@, k as int, x) && self.block_statuses.value(x) == old(
                            self,
                        ).block_statuses.value(x))) by {
                            if self.block_statuses.value(x) is WaitingForSlot && !current_slot.spec_lt(
                                self.block_statuses.value(x)->WaitingForSlot_0.header.content.slot,
                            ) {
                                assert(mid.block_statuses.has(x));
                                assert(mid.block_statuses.value(x) == self.block_statuses.value(x));
                                assert(x != id);
                                assert(before_step.block_statuses.has(x));
                                assert(before_step.block_statuses.value(x)
                                    == mid.block_statuses.value(x));
                                let m = choose|m: int| 0 <= m < k + 1 && due@[m] == x;
                                assert(0 <= m < k && due@[m] == x);
                            }
                        }
                    }
                }
                match outcome {
                    Ok(()) => {},
                    Err(e) => {
                        let ghost core = *self;
                        self.evict_discarded();
                        proof {
                            lemma_follows_closely_chain(*old(self), core, *self);
                            lemma_step_fails_since(*old(self), mid, current_slot);
                            assert(forgetting(core, *self));
                            assert(ticked(
                                *old(self),
                                *self,
                                current_slot,
                                Err::<(), GraphError>(e),
                            ));
                        }
                        return Err(e);
                    },
                }
            } else {
                proof {
                    // a block that does not wait any more was looked at before
                    assert forall|x: BlockId|
                        #![trigger old(self).block_statuses.has(x)]
                        was_due(*old(self), x, current_slot) implies (self.block_statuses.value(x)
                        == old(self).block_statuses.value(x) && among_first(due@, k as int, x))
                        || tick_looked(*old(self), *self, x, current_slot) by {
                        if !tick_looked(*old(self), *self, x, current_slot) {
                            let m = choose|m: int| 0 <= m < k + 1 && due@[m] == x;
                            if m == k {
                                lemma_slot_order_total(
                                    current_slot,
                                    old(self).block_statuses.value(
                                        x,
                                    )->WaitingForSlot_0.header.content.slot,
                                );
                            }
                            assert(0 <= m < k && due@[m] == x);
                        }
                    }
                    assert forall|x: BlockId|
                        #![trigger self.block_statuses.has(x)]
                        self.block_statuses.has(x) implies (self.block_statuses.value(
                        x,
                    ) matches BlockStatus::WaitingForSlot(rcv) ==> current_slot.spec_lt(
                        rcv.header.content.slot,
                    ) || (among_first(due@, k as int, x) && self.block_statuses.value(x) == old(
                        self,
                    ).block_statuses.value(x))) by {
                        if self.block_statuses.value(x) is WaitingForSlot && !current_slot.spec_lt(
                            self.block_statuses.value(x)->WaitingForSlot_0.header.content.slot,
                        ) {
                            let m = choose|m: int| 0 <= m < k + 1 && due@[m] == x;
                            if m == k {
                                lemma_slot_order_total(
                                    current_slot,
                                    self.block_statuses.value(
                                        x,
                                    )->WaitingForSlot_0.header.content.slot,
                                );
                            }
                            assert(0 <= m < k && due@[m] == x);
                        }
                    }
                }
            }
        }
        let ghost core = *self;
        self.evict_discarded();
        proof {
            assert(no_late_waiter(core, current_slot));
            lemma_follows_closely_chain(*old(self), core, *self);
            lemma_settling_keeps_waiters(core, *self);
            lemma_no_late_waiter_kept(core, *self, current_slot);
            assert(forgetting(core, *self));
            assert(ticked(*old(self), *self, current_slot, Ok::<(), GraphError>(())));
        }
        Ok(())
    }

    /// Marks the block `id` as invalid.
    ///
    /// A block that is not known is remembered as discarded: as final where a final
    /// block has it as a parent, as invalid otherwise. A block that is on its way
    /// into the graph is discarded as invalid. An active block that is not final is
    /// discarded as invalid, and its descendants that are active and not final are
    /// discarded as stale. A block that is final or discarded is left as it is. The
    /// blocks that waited for a block that was discarded here are let go, and are
    /// looked at at the slot `current_slot`.
    pub fn mark_invalid_block(&mut self, id: BlockId, header: BlockHeader, current_slot: Slot) -> (r:
        Result<(), GraphError>)
        requires
            old(self).wf(),
        ensures
            final(self).wf(),
            final(self).follows(old(self)),
            r is Err ==> r == Err::<(), _>(GraphError::FitnessOverflow),
            is_discarded(old(self).block_statuses, id) || is_final(old(self).block_statuses, id)
                ==> r is Ok && *final(self) == *old(self),
            !is_discarded(old(self).block_statuses, id) && !is_final(old(self).block_statuses, id)
                ==> marked_invalid_then_forgot(*old(self), *final(self), id),
            r is Err ==> marking_fails(*old(self), current_slot),
            no_late_waiter(*old(self), current_slot) ==> no_late_waiter(*final(self), current_slot),
    {
        let (slot, creator, parents) = Self::describe(&header);
        let mut gone: Vec<BlockId> = Vec::new();
        let kind: u8 = match self.block_statuses.get(&id) {
            None => 0,
            Some(BlockStatus::Discarded { .. }) => 1,
            Some(BlockStatus::Active { a_block, .. }) => if a_block.is_final {
                1
            } else {
                2
            },
            Some(_) => 3,
        };
        if kind == 1 {
            proof {
                assert forall|x: BlockId| #[trigger] self.block_statuses.has(x) implies {
                    &&& is_discarded(old(self).block_statuses, x) ==> self.block_statuses.value(x) == old(self).block_statuses.value(x)
                    &&& is_final(old(self).block_statuses, x) ==> is_final(self.block_statuses, x)
                        || is_pruned(self.block_statuses, x)
                } by {}
            }
            return Ok(());
        }
        let sequence_number = self.next_sequence_number();
        let ghost s0 = *self;
        proof {
            assert(s0.wf());
            assert forall|x: BlockId| #[trigger] s0.block_statuses.has(x) implies {
                &&& is_discarded(old(self).block_statuses, x) ==> s0.block_statuses.value(x) == old(self).block_statuses.value(x)
                &&& is_final(old(self).block_statuses, x) ==> is_final(s0.block_statuses, x)
                    || is_pruned(s0.block_statuses, x)
            } by {}
            assert(s0.follows(old(self)));
        }
        if kind == 0 {
            let (of_active, of_final) = self.parent_of(&id);
            proof {
                assert(is_parent_of_final(s0.block_statuses, id) ==> is_parent_of_active(
                    s0.block_statuses,
                    id,
                )) by {
                    if is_parent_of_final(s0.block_statuses, id) {
                        let x = choose|x: BlockId| #[trigger]
                            is_final(s0.block_statuses, x) && active_block(
                                s0.block_statuses,
                                x,
                            ).has_parent(id);
                        assert(is_active(s0.block_statuses, x));
                    }
                }
            }
            self.give_status(
                id,
                BlockStatus::Discarded {
                    slot,
                    creator,
                    parents,
                    reason: if of_final {
                        DiscardReason::Final
                    } else {
                        DiscardReason::Invalid
                    },
                    sequence_number,
                },
            );
            proof {
                lemma_follows_chain(*old(self), s0, *self);
                lemma_moving_keeps_waiters(*old(self), *self, id);
            }
        } else if kind == 3 {
            self.move_unsettled(
                id,
                BlockStatus::Discarded {
                    slot,
                    creator,
                    parents,
                    reason: DiscardReason::Invalid,
                    sequence_number,
                },
            );
            gone.push(id);
            proof {
                lemma_follows_after_closely(*old(self), s0, *self);
                lemma_moving_keeps_waiters(*old(self), *self, id);
            }
        } else {
            let descendants = match self.block_statuses.get(&id) {
                Some(BlockStatus::Active { a_block, .. }) => crate::id_set::id_list_clone(
                    &a_block.descendants,
                ),
                _ => Vec::new(),
            };
            self.discard_active(id, true);
            gone.push(id);
            proof {
                lemma_follows_after_closely(*old(self), s0, *self);
                lemma_settling_keeps_waiters(s0, *self);
                lemma_waiters_kept_chain(*old(self), s0, *self);
            }
            let mut d: usize = 0;
            while d < descendants.len()
                invariant
                    d <= descendants@.len(),
                    self.wf(),
                    self.follows(old(self)),
                    marked_invalid(*old(self), *self, id),
                    waiters_kept(*self, *old(self)),
                decreases descendants@.len() - d,
            {
                let y = descendants[d];
                let living = match self.block_statuses.get(&y) {
                    Some(BlockStatus::Active { a_block, .. }) => !a_block.is_final,
                    _ => false,
                };
                if living {
                    let ghost prev = *self;
                    self.discard_active(y, false);
                    gone.push(y);
                    proof {
                        lemma_follows_after_closely(*old(self), prev, *self);
                        lemma_marked_invalid_stays(*old(self), prev, *self, id);
                        lemma_settling_keeps_waiters(prev, *self);
                        lemma_waiters_kept_chain(*old(self), prev, *self);
                    }
                }
                d += 1;
            }
            let ghost s1 = *self;
            let refreshed = self.refresh_cliques();
            let ghost s2 = *self;
            self.update_best_parents();
            proof {
                lemma_follows_after_closely(*old(self), s1, s2);
                lemma_follows_after_closely(*old(self), s2, *self);
                lemma_marked_invalid_stays(*old(self), s1, s2, id);
                lemma_marked_invalid_stays(*old(self), s2, *self, id);
                lemma_settling_keeps_waiters(s1, s2);
                lemma_settling_keeps_waiters(s2, *self);
                lemma_waiters_kept_chain(*old(self), s1, s2);
                lemma_waiters_kept_chain(*old(self), s2, *self);
            }
            match refreshed {
                Ok(()) => {},
                Err(e) => {
                    let ghost core = *self;
                    self.evict_discarded();
                    proof {
                        assert(s1.wf() && s1.follows(old(self)) && kept_clique_overflows(s1));
                        assert(marking_fails(*old(self), current_slot));
                        lemma_follows_after_closely(*old(self), core, *self);
                        assert(forgetting(core, *self));
                        if no_late_waiter(*old(self), current_slot) {
                            lemma_no_late_waiter_kept(*old(self), core, current_slot);
                            lemma_settling_keeps_waiters(core, *self);
                            lemma_no_late_waiter_kept(core, *self, current_slot);
                        }
                    }
                    return Err(e);
                },
            }
        }
        // the blocks that waited for a block that is gone are let go
        let mut work: Vec<BlockId> = Vec::new();
        let mut g: usize = 0;
        while g < gone.len()
            invariant
                g <= gone@.len(),
                self.wf(),
                self.follows(old(self)),
                marked_invalid(*old(self), *self, id),
                waiters_kept(*self, *old(self)),
            decreases gone@.len() - g,
        {
            let ghost prev = *self;
            let mut more = self.release_dependents(&gone[g]);
            work.append(&mut more);
            proof {
                lemma_follows_after_closely(*old(self), prev, *self);
                lemma_marked_invalid_stays(*old(self), prev, *self, id);
                lemma_waiters_kept_chain(*old(self), prev, *self);
            }
            g += 1;
        }
        let ghost s3 = *self;
        let outcome = self.process_pending(work, current_slot);
        let ghost s4 = *self;
        self.evict_discarded();
        proof {
            lemma_follows_after_closely(*old(self), s3, s4);
            lemma_follows_after_closely(*old(self), s4, *self);
            lemma_marked_invalid_stays(*old(self), s3, s4, id);
            assert(forgetting(s4, *self));
            if outcome is Err {
                assert(s3.wf() && s3.follows(old(self)) && some_step_fails(s3, current_slot));
                assert(marking_fails(*old(self), current_slot));
            }
            if no_late_waiter(*old(self), current_slot) {
                lemma_no_late_waiter_kept(*old(self), s3, current_slot);
                lemma_settling_keeps_waiters(s4, *self);
                lemma_no_late_waiter_kept(s4, *self, current_slot);
            }
        }
        outcome
    }
}

/// What has come of the block `id` once it was marked as invalid, where it was
/// neither discarded nor final: it is discarded as invalid; but a block that was
/// not known and that a final block has as a parent is discarded as final. It is
/// still known.
pub open spec fn marked_invalid(before: ConsensusState, after: ConsensusState, id: BlockId) -> bool {
    after.block_statuses.has(id) && (after.block_statuses.value(id) matches BlockStatus::Discarded {
        reason,
        ..
    } && reason == if !before.block_statuses.has(id) && is_parent_of_final(
        before.block_statuses,
        id,
    ) {
        DiscardReason::Final
    } else {
        DiscardReason::Invalid
    })
}

/// Whether the marking of a block as invalid fails from `before` on: in a state
/// that can be reached and follows `before`, the fitness of a clique that is kept
/// does not fit, or the look at an incoming block fails.
pub open spec fn marking_fails(before: ConsensusState, current_slot: Slot) -> bool {
    exists|mid: ConsensusState| #[trigger]
        mid.follows(&before) && mid.wf() && (kept_clique_overflows(mid) || some_step_fails(
            mid,
            current_slot,
        ))
}

/// Whether `after` is a state in which the block `id` was marked as invalid, once
/// the discarded blocks that are too many were forgotten.
pub open spec fn marked_invalid_then_forgot(
    before: ConsensusState,
    after: ConsensusState,
    id: BlockId,
) -> bool {
    exists|core: ConsensusState| #[trigger]
        forgetting(core, after) && core.wf() && marked_invalid(before, core, id)
}

/// What has come of a block that was marked as invalid stays.
pub proof fn lemma_marked_invalid_stays(
    before: ConsensusState,
    mid: ConsensusState,
    after: ConsensusState,
    id: BlockId,
)
    requires
        marked_invalid(before, mid, id),
        after.follows_closely(&mid),
        after.block_statuses.has(id),
    ensures
        marked_invalid(before, after, id),
{
    if after.block_statuses.has(id) {
        assert(mid.block_statuses.has(id));
        assert(is_discarded(mid.block_statuses, id));
    }
}

/// Following goes through where no block is forgotten and known again in between:
/// what follows a state that follows another, and knows every block that it knows
/// and that was settled in the other, follows that other.
pub proof fn lemma_follows_chain(a: ConsensusState, b: ConsensusState, c: ConsensusState)
    requires
        b.follows(&a),
        c.follows(&b),
        forall|id: BlockId| #[trigger]
            c.block_statuses.has(id) && a.block_statuses.has(id) ==> b.block_statuses.has(id),
    ensures
        c.follows(&a),
{
    assert forall|t: int|
        0 <= t < a.latest_final_blocks_periods@.len() implies a.latest_final_blocks_periods@[t].1
        <= #[trigger] c.latest_final_blocks_periods@[t].1 by {
        assert(a.latest_final_blocks_periods@[t].1 <= b.latest_final_blocks_periods@[t].1);
        assert(b.latest_final_blocks_periods@[t].1 <= c.latest_final_blocks_periods@[t].1);
    }
    assert forall|id: BlockId| #[trigger] c.block_statuses.has(id) implies {
        &&& is_discarded(a.block_statuses, id) ==> c.block_statuses.value(id) == a.block_statuses.value(id)
        &&& is_final(a.block_statuses, id) ==> is_final(c.block_statuses, id) || is_pruned(
            c.block_statuses,
            id,
        )
    } by {
        if a.block_statuses.has(id) {
            assert(b.block_statuses.has(id));
        }
    }
}

} // verus!
