//! What the graph tells of itself: the statuses of blocks by kind, the cliques, the
//! latest final blocks, the best parents, and its final blocks part by part for a
//! snapshot.

use vstd::prelude::*;
use crate::block_id::BlockId;
use crate::graph::{BlockStatus, Clique};
use crate::slot::Slot;
use crate::state::ConsensusState;

verus! {

/// The kinds of statuses.
#[derive(Clone, Copy, Debug, PartialEq, Eq, Structural)]
pub enum StatusKind {
    Incoming,
    WaitingForSlot,
    WaitingForDependencies,
    Active,
    Discarded,
}

/// The kind of a status.
pub open spec fn spec_kind(status: BlockStatus) -> StatusKind {
    match status {
        BlockStatus::Incoming(_) => StatusKind::Incoming,
        BlockStatus::WaitingForSlot(_) => StatusKind::WaitingForSlot,
        BlockStatus::WaitingForDependencies { .. } => StatusKind::WaitingForDependencies,
        BlockStatus::Active { .. } => StatusKind::Active,
        BlockStatus::Discarded { .. } => StatusKind::Discarded,
    }
}

/// The kind of a status.
pub fn kind_of(status: &BlockStatus) -> (r: StatusKind)
    ensures
        r == spec_kind(*status),
{
    match status {
        BlockStatus::Incoming(_) => StatusKind::Incoming,
        BlockStatus::WaitingForSlot(_) => StatusKind::WaitingForSlot,
        BlockStatus::WaitingForDependencies { .. } => StatusKind::WaitingForDependencies,
        BlockStatus::Active { .. } => StatusKind::Active,
        BlockStatus::Discarded { .. } => StatusKind::Discarded,
    }
}

/// Whether the entry at `i` is a final block.
pub open spec fn entry_is_final(entries: Seq<(BlockId, BlockStatus)>, i: int) -> bool {
    entries[i].1 matches BlockStatus::Active { a_block, .. } && a_block.is_final
}

/// The slot of the active block at `i`.
pub open spec fn entry_slot(entries: Seq<(BlockId, BlockStatus)>, i: int) -> Slot {
    entries[i].1->a_block.slot
}

/// Whether a slot is after a cursor: after its slot, or any slot where there is
/// none.
pub open spec fn after_cursor(slot: Slot, cursor: Option<Slot>) -> bool {
    match cursor {
        None => true,
        Some(c) => c.spec_lt(slot),
    }
}

/// Whether `id` is a final block with the slot `slot`, after `cursor`.
pub open spec fn is_final_at(
    entries: Seq<(BlockId, BlockStatus)>,
    id: BlockId,
    slot: Slot,
    cursor: Option<Slot>,
) -> bool {
    exists|i: int|
        0 <= i < entries.len() && entry_is_final(entries, i) && (#[trigger] entries[i]).0 == id
            && entry_slot(entries, i) == slot && after_cursor(slot, cursor)
}

impl ConsensusState {
    /// The blocks whose status is of the kind `kind`, in the order in which they
    /// became known.
    pub fn index_of_kind(&self, kind: StatusKind) -> (r: Vec<BlockId>)
        ensures
            forall|id: BlockId|
                r@.contains(id) <==> exists|i: int|
                    0 <= i < self.block_statuses.entries@.len()
                        && (#[trigger] self.block_statuses.entries@[i]).0 == id && spec_kind(
                        self.block_statuses.entries@[i].1,
                    ) == kind,
    {
        let mut out: Vec<BlockId> = Vec::new();
        let mut i: usize = 0;
        while i < self.block_statuses.entries.len()
            invariant
                i <= self.block_statuses.entries@.len(),
                forall|id: BlockId|
                    out@.contains(id) <==> exists|j: int|
                        0 <= j < i && (#[trigger] self.block_statuses.entries@[j]).0 == id
                            && spec_kind(self.block_statuses.entries@[j].1) == kind,
            decreases self.block_statuses.entries@.len() - i,
        {
            let ghost before = out@;
            let here = kind_of(&self.block_statuses.entries[i].1) == kind;
            if here {
                out.push(self.block_statuses.entries[i].0);
            }
            proof {
                let e = self.block_statuses.entries@;
                assert forall|id: BlockId|
                    out@.contains(id) <==> exists|j: int|
                        0 <= j < i + 1 && (#[trigger] e[j]).0 == id && spec_kind(e[j].1)
                            == kind by {
                    if out@.contains(id) {
                        let m = choose|m: int| 0 <= m < out@.len() && out@[m] == id;
                        if m < before.len() {
                            assert(before.contains(id));
                            let j = choose|j: int|
                                0 <= j < i && (#[trigger] e[j]).0 == id && spec_kind(e[j].1)
                                    == kind;
                            assert(0 <= j < i + 1);
                        } else {
                            assert(e[i as int].0 == id);
                        }
                    }
                    if exists|j: int|
                        0 <= j < i + 1 && (#[trigger] e[j]).0 == id && spec_kind(e[j].1) == kind {
                        let j = choose|j: int|
                            0 <= j < i + 1 && (#[trigger] e[j]).0 == id && spec_kind(e[j].1)
                                == kind;
                        if j < i {
                            assert(before.contains(id));
                            let m = choose|m: int| 0 <= m < before.len() && before[m] == id;
                            assert(out@[m] == id);
                        } else {
                            assert(out@[out@.len() - 1] == id);
                        }
                    }
                }
            }
            i += 1;
        }
        out
    }

    /// The blocks that were just received.
    pub fn incoming_index(&self) -> (r: Vec<BlockId>)
        ensures
            forall|id: BlockId|
                r@.contains(id) <==> exists|i: int|
                    0 <= i < self.block_statuses.entries@.len()
                        && (#[trigger] self.block_statuses.entries@[i]).0 == id
                        && self.block_statuses.entries@[i].1 is Incoming,
    {
        self.index_of_kind(StatusKind::Incoming)
    }

    /// The blocks that wait for their slot.
    pub fn waiting_for_slot_index(&self) -> (r: Vec<BlockId>)
        ensures
            forall|id: BlockId|
                r@.contains(id) <==> exists|i: int|
                    0 <= i < self.block_statuses.entries@.len()
                        && (#[trigger] self.block_statuses.entries@[i]).0 == id
                        && self.block_statuses.entries@[i].1 is WaitingForSlot,
    {
        self.index_of_kind(StatusKind::WaitingForSlot)
    }

    /// The blocks that wait for dependencies.
    pub fn waiting_for_dependencies_index(&self) -> (r: Vec<BlockId>)
        ensures
            forall|id: BlockId|
                r@.contains(id) <==> exists|i: int|
                    0 <= i < self.block_statuses.entries@.len()
                        && (#[trigger] self.block_statuses.entries@[i]).0 == id
                        && self.block_statuses.entries@[i].1 is WaitingForDependencies,
    {
        self.index_of_kind(StatusKind::WaitingForDependencies)
    }

    /// The active blocks.
    pub fn active_index(&self) -> (r: Vec<BlockId>)
        ensures
            forall|id: BlockId|
                r@.contains(id) <==> exists|i: int|
                    0 <= i < self.block_statuses.entries@.len()
                        && (#[trigger] self.block_statuses.entries@[i]).0 == id
                        && self.block_statuses.entries@[i].1 is Active,
    {
        self.index_of_kind(StatusKind::Active)
    }

    /// The discarded blocks.
    pub fn discarded_index(&self) -> (r: Vec<BlockId>)
        ensures
            forall|id: BlockId|
                r@.contains(id) <==> exists|i: int|
                    0 <= i < self.block_statuses.entries@.len()
                        && (#[trigger] self.block_statuses.entries@[i]).0 == id
                        && self.block_statuses.entries@[i].1 is Discarded,
    {
        self.index_of_kind(StatusKind::Discarded)
    }

    /// The status of a block, if it is known.
    pub fn get_block_status(&self, id: &BlockId) -> (r: Option<&BlockStatus>)
        requires
            self.block_statuses.wf(),
        ensures
            r is Some <==> self.block_statuses.has(*id),
            r is Some ==> *r.unwrap() == self.block_statuses.value(*id),
    {
        self.block_statuses.get(id)
    }

    /// The latest final block of each thread, with its period.
    pub fn get_latest_final_blocks(&self) -> (r: Vec<(BlockId, u64)>)
        ensures
            r@ == self.latest_final_blocks_periods@,
    {
        crate::bootstrap::clone_parents(&self.latest_final_blocks_periods)
    }

    /// The best parent of each thread for a new block, with its period.
    pub fn get_best_parents(&self) -> (r: Vec<(BlockId, u64)>)
        ensures
            r@ == self.best_parents@,
    {
        crate::bootstrap::clone_parents(&self.best_parents)
    }

    /// The cliques.
    pub fn get_cliques(&self) -> (r: Vec<Clique>)
        ensures
            r@.len() == self.max_cliques@.len(),
            forall|k: int|
                0 <= k < r@.len() ==> (#[trigger] r@[k]).block_ids@ == self.max_cliques@[k].block_ids@
                    && r@[k].fitness == self.max_cliques@[k].fitness && r@[k].is_blockclique
                    == self.max_cliques@[k].is_blockclique,
    {
        let mut out: Vec<Clique> = Vec::new();
        let mut k: usize = 0;
        while k < self.max_cliques.len()
            invariant
                k <= self.max_cliques@.len(),
                out@.len() == k,
                forall|j: int|
                    0 <= j < k ==> (#[trigger] out@[j]).block_ids@ == self.max_cliques@[j].block_ids@
                        && out@[j].fitness == self.max_cliques@[j].fitness && out@[j].is_blockclique
                        == self.max_cliques@[j].is_blockclique,
            decreases self.max_cliques@.len() - k,
        {
            out.push(
                Clique {
                    block_ids: crate::id_set::id_list_clone(&self.max_cliques[k].block_ids),
                    fitness: self.max_cliques[k].fitness,
                    is_blockclique: self.max_cliques[k].is_blockclique,
                },
            );
            k += 1;
        }
        out
    }

    /// The final block with the lowest slot after `cursor`, if there is one: its
    /// place among the entries.
    pub fn next_final_after(&self, cursor: Option<Slot>) -> (r: Option<usize>)
        ensures
            r is None ==> forall|j: int|
                0 <= j < self.block_statuses.entries@.len() && #[trigger] entry_is_final(
                    self.block_statuses.entries@,
                    j,
                ) ==> !after_cursor(entry_slot(self.block_statuses.entries@, j), cursor),
            r is Some ==> {
                &&& r.unwrap() < self.block_statuses.entries@.len()
                &&& entry_is_final(self.block_statuses.entries@, r.unwrap() as int)
                &&& after_cursor(entry_slot(self.block_statuses.entries@, r.unwrap() as int), cursor)
                &&& forall|j: int|
                    0 <= j < self.block_statuses.entries@.len() && #[trigger] entry_is_final(
                        self.block_statuses.entries@,
                        j,
                    ) && after_cursor(entry_slot(self.block_statuses.entries@, j), cursor)
                        ==> entry_slot(self.block_statuses.entries@, r.unwrap() as int).spec_le(
                        entry_slot(self.block_statuses.entries@, j),
                    )
            },
    {
        let mut best: Option<(usize, Slot)> = None;
        let mut i: usize = 0;
        while i < self.block_statuses.entries.len()
            invariant
                i <= self.block_statuses.entries@.len(),
                best is None ==> forall|j: int|
                    0 <= j < i && #[trigger] entry_is_final(self.block_statuses.entries@, j)
                        ==> !after_cursor(entry_slot(self.block_statuses.entries@, j), cursor),
                best is Some ==> best.unwrap().0 < i && entry_is_final(
                    self.block_statuses.entries@,
                    best.unwrap().0 as int,
                ) && best.unwrap().1 == entry_slot(
                    self.block_statuses.entries@,
                    best.unwrap().0 as int,
                ) && after_cursor(best.unwrap().1, cursor),
                best is Some ==> forall|j: int|
                    0 <= j < i && #[trigger] entry_is_final(self.block_statuses.entries@, j)
                        && after_cursor(entry_slot(self.block_statuses.entries@, j), cursor)
                        ==> best.unwrap().1.spec_le(entry_slot(self.block_statuses.entries@, j)),
            decreases self.block_statuses.entries@.len() - i,
        {
            match &self.block_statuses.entries[i].1 {
                BlockStatus::Active { a_block, .. } => {
                    if a_block.is_final {
                        let after = match cursor {
                            None => true,
                            Some(c) => c.is_before(&a_block.slot),
                        };
                        if after {
                            let better = match best {
                                None => true,
                                Some((_, s)) => a_block.slot.is_before(&s),
                            };
                            if better {
                                best = Some((i, a_block.slot));
                            }
                        }
                    }
                },
                _ => {},
            }
            i += 1;
        }
        match best {
            Some((i, _)) => Some(i),
            None => None,
        }
    }

    /// A part of the final blocks of the graph, for a snapshot: the final blocks
    /// after `cursor`, each with its slot, in the order of their slots, lowest first,
    /// up to `bootstrap_part_size` of them; and the cursor for the next part, which
    /// is the slot of the last block of this part, or `cursor` where the part is
    /// empty. Where the part is not full, no final block is left after the new
    /// cursor.
    pub fn get_bootstrap_part(&self, cursor: Option<Slot>) -> (r: (
        Vec<(BlockId, Slot)>,
        Option<Slot>,
    ))
        ensures
            r.0@.len() <= self.config.bootstrap_part_size,
            r.0@.len() == 0 ==> r.1 == cursor,
            r.0@.len() > 0 ==> r.1 == Some(r.0@[r.0@.len() - 1].1),
            forall|k: int|
                0 <= k < r.0@.len() ==> is_final_at(
                    self.block_statuses.entries@,
                    (#[trigger] r.0@[k]).0,
                    r.0@[k].1,
                    cursor,
                ),
            forall|a: int, b: int|
                0 <= a < b < r.0@.len() ==> (#[trigger] r.0@[a]).1.spec_lt((#[trigger] r.0@[b]).1),
            forall|j: int|
                0 <= j < self.block_statuses.entries@.len() && #[trigger] entry_is_final(
                    self.block_statuses.entries@,
                    j,
                ) && after_cursor(entry_slot(self.block_statuses.entries@, j), cursor)
                    ==> !after_cursor(entry_slot(self.block_statuses.entries@, j), r.1) || r.0@.len()
                    == self.config.bootstrap_part_size,
    {
        let mut out: Vec<(BlockId, Slot)> = Vec::new();
        let mut cur = cursor;
        let mut taken: u64 = 0;
        while taken < self.config.bootstrap_part_size
            invariant
                taken <= self.config.bootstrap_part_size,
                out@.len() == taken,
                taken == 0 ==> cur == cursor,
                forall|s: Slot| after_cursor(s, cur) ==> after_cursor(s, cursor),
                out@.len() > 0 ==> cur == Some(out@[out@.len() - 1].1),
                forall|k: int|
                    0 <= k < out@.len() ==> is_final_at(
                        self.block_statuses.entries@,
                        (#[trigger] out@[k]).0,
                        out@[k].1,
                        cursor,
                    ),
                forall|a: int, b: int|
                    0 <= a < b < out@.len() ==> (#[trigger] out@[a]).1.spec_lt(
                        (#[trigger] out@[b]).1,
                    ),
            decreases self.config.bootstrap_part_size - taken,
        {
            match self.next_final_after(cur) {
                None => {
                    return (out, cur);
                },
                Some(i) => {
                    let ghost before = out@;
                    let slot = match &self.block_statuses.entries[i].1 {
                        BlockStatus::Active { a_block, .. } => a_block.slot,
                        _ => Slot::new(0, 0),
                    };
                    out.push((self.block_statuses.entries[i].0, slot));
                    let ghost prev = cur;
                    cur = Some(slot);
                    taken = taken + 1;
                    proof {
                        let e = self.block_statuses.entries@;
                        assert(after_cursor(slot, prev));
                        assert forall|s: Slot| after_cursor(s, cur) implies after_cursor(
                            s,
                            cursor,
                        ) by {
                            if prev is Some {
                                assert(prev.unwrap().spec_lt(slot));
                                assert(prev.unwrap().spec_lt(s));
                            }
                            assert(after_cursor(s, prev));
                        }
                        assert(is_final_at(e, e[i as int].0, slot, cursor)) by {
                            assert(entry_is_final(e, i as int) && e[i as int].0 == e[i as int].0);
                        }
                        assert forall|k: int| 0 <= k < out@.len() implies is_final_at(
                            e,
                            (#[trigger] out@[k]).0,
                            out@[k].1,
                            cursor,
                        ) by {
                            if k < before.len() {
                                assert(out@[k] == before[k]);
                            }
                        }
                        assert forall|a: int, b: int| 0 <= a < b < out@.len() implies (#[trigger] out@[a]).1.spec_lt(
                            (#[trigger] out@[b]).1,
                        ) by {
                            if b < before.len() {
                                assert(before[a].1.spec_lt(before[b].1));
                            } else {
                                let last = before[before.len() - 1].1;
                                assert(prev == Some(last));
                                assert(last.spec_lt(slot));
                                if a < before.len() - 1 {
                                    assert(before[a].1.spec_lt(before[before.len() - 1].1));
                                }
                            }
                        }
                    }
                },
            }
        }
        (out, cur)
    }
}

} // verus!
