//! The links between the active blocks of a graph: references on parents held in
//! the block store, children, and descendants.

use vstd::prelude::*;
use vstd::seq_lib::*;
use crate::block_id::BlockId;
use crate::graph::{ActiveBlock, BlockStatus};
use crate::id_map::IdMap;
use crate::id_set::{id_list_contains, id_list_insert, id_set, ids_distinct};
use crate::state::{
    active_block,
    is_active,
    is_discarded,
    is_final,
    is_pruned,
    ConsensusState,
    GraphError,
};

verus! {

/// Whether two statuses are the same but for the links of an active block: its
/// children, its descendants, and the references that its handle holds.
pub open spec fn same_but_links(a: BlockStatus, b: BlockStatus) -> bool {
    match (a, b) {
        (
            BlockStatus::Active { a_block: x, .. },
            BlockStatus::Active { a_block: y, .. },
        ) => {
            &&& x.creator_address == y.creator_address
            &&& x.block_id == y.block_id
            &&& x.parents == y.parents
            &&& x.is_final == y.is_final
            &&& x.slot == y.slot
            &&& x.fitness == y.fitness
            &&& x.children@.len() == y.children@.len()
        },
        (BlockStatus::Active { .. }, _) => false,
        (_, BlockStatus::Active { .. }) => false,
        _ => a == b,
    }
}

/// Whether two maps of statuses have the same blocks in the same order, with the
/// same statuses but for the links of the active ones.
pub open spec fn same_blocks_but_links(a: IdMap<BlockStatus>, b: IdMap<BlockStatus>) -> bool {
    &&& a.entries@.len() == b.entries@.len()
    &&& forall|i: int|
        0 <= i < a.entries@.len() ==> (#[trigger] a.entries@[i]).0 == b.entries@[i].0
            && same_but_links(a.entries@[i].1, b.entries@[i].1)
}

/// Maps with the same blocks but for links know the same blocks, at the same
/// places, with statuses that are the same but for links.
pub proof fn lemma_same_blocks(a: IdMap<BlockStatus>, b: IdMap<BlockStatus>)
    requires
        a.wf(),
        same_blocks_but_links(a, b),
    ensures
        b.wf(),
        forall|id: BlockId| #[trigger] a.has(id) == b.has(id),
        forall|id: BlockId| #[trigger]
            a.has(id) ==> a.index_of(id) == b.index_of(id) && same_but_links(
                a.value(id),
                b.value(id),
            ),
        forall|id: BlockId| #[trigger] is_active(a, id) == is_active(b, id),
        forall|id: BlockId| #[trigger] is_final(a, id) == is_final(b, id),
        forall|id: BlockId| #[trigger] is_discarded(a, id) == is_discarded(b, id),
        forall|id: BlockId| #[trigger] is_pruned(a, id) == is_pruned(b, id),
{
    assert forall|i: int, j: int| 0 <= i < j < b.entries@.len() implies b.entries@[i].0
        != b.entries@[j].0 by {
        assert(a.entries@[i].0 == b.entries@[i].0);
        assert(a.entries@[j].0 == b.entries@[j].0);
    }
    assert forall|id: BlockId| #[trigger] a.has(id) == b.has(id) by {
        if a.has(id) {
            let i = a.index_of(id);
            assert(a.entries@[i].0 == b.entries@[i].0);
        }
        if b.has(id) {
            let i = b.index_of(id);
            assert(a.entries@[i].0 == b.entries@[i].0);
        }
    }
    assert forall|id: BlockId| #[trigger] a.has(id) implies a.index_of(id) == b.index_of(id)
        && same_but_links(a.value(id), b.value(id)) by {
        let i = a.index_of(id);
        assert(a.entries@[i].0 == b.entries@[i].0);
        b.lemma_entry(i);
    }
    assert forall|id: BlockId| #[trigger] is_active(a, id) == is_active(b, id) by {
        if a.has(id) {
            assert(same_but_links(a.value(id), b.value(id)));
        }
    }
    assert forall|id: BlockId| #[trigger] is_final(a, id) == is_final(b, id) by {
        if a.has(id) {
            assert(same_but_links(a.value(id), b.value(id)));
        }
    }
    assert forall|id: BlockId| #[trigger] is_discarded(a, id) == is_discarded(b, id) by {
        if a.has(id) {
            assert(same_but_links(a.value(id), b.value(id)));
        }
    }
    assert forall|id: BlockId| #[trigger] is_pruned(a, id) == is_pruned(b, id) by {
        if a.has(id) {
            assert(same_but_links(a.value(id), b.value(id)));
        }
    }
}

/// A change of links alone keeps what holds of every reachable state.
pub proof fn lemma_links_keep_wf(before: ConsensusState, after: ConsensusState)
    requires
        before.wf(),
        same_blocks_but_links(before.block_statuses, after.block_statuses),
        crate::state::links_in_order(after.block_statuses, after.config.thread_count),
        after.config == before.config,
        after.max_cliques == before.max_cliques,
        after.gi_head == before.gi_head,
        after.latest_final_blocks_periods == before.latest_final_blocks_periods,
    ensures
        after.wf(),
        after.follows(&before),
{
    let a = before.block_statuses;
    let b = after.block_statuses;
    lemma_same_blocks(a, b);
    assert forall|id: BlockId, k: int|
        is_final(b, id) && 0 <= k < active_block(b, id).parents@.len() && b.has(
            #[trigger] active_block(b, id).parents@[k].0,
        ) implies is_final(b, active_block(b, id).parents@[k].0) || is_pruned(
        b,
        active_block(b, id).parents@[k].0,
    ) by {
        assert(is_final(a, id));
        assert(same_but_links(a.value(id), b.value(id)));
        let p = active_block(a, id).parents@[k].0;
        assert(a.has(p));
        assert(is_final(a, p) || is_pruned(a, p));
    }
    assert forall|id: BlockId, k: int|
        is_active(b, id) && 0 <= k < active_block(b, id).parents@.len() && b.has(
            #[trigger] active_block(b, id).parents@[k].0,
        ) implies is_active(b, active_block(b, id).parents@[k].0) || is_discarded(
        b,
        active_block(b, id).parents@[k].0,
    ) by {
        assert(is_active(a, id));
        assert(same_but_links(a.value(id), b.value(id)));
        let p = active_block(a, id).parents@[k].0;
        assert(a.has(p));
        assert(is_active(a, p) || is_discarded(a, p));
    }
    assert forall|k: int, x: BlockId|
        0 <= k < after.max_cliques@.len() && #[trigger] after.max_cliques@[k].block_ids@.contains(
            x,
        ) implies is_active(b, x) by {
        assert(is_active(a, x));
    }
    assert forall|x: BlockId| #[trigger] after.gi_head.has(x) implies is_active(b, x)
        && !is_final(b, x) && ids_distinct(after.gi_head.value(x)@) by {
        assert(is_active(a, x));
        assert(is_final(a, x) == is_final(b, x));
    }
    assert forall|x: BlockId, y: BlockId|
        after.gi_head.has(x) && #[trigger] after.gi_head.value(x)@.contains(y) implies is_active(
        b,
        y,
    ) && !is_final(b, y) by {
        assert(is_active(a, y));
        assert(is_final(a, y) == is_final(b, y));
    }
}

/// The parents of a block that the store holds.
pub open spec fn claimed_parents(b: ActiveBlock, stored: Seq<BlockId>) -> Set<BlockId> {
    Set::new(|id: BlockId| b.has_parent(id) && stored.contains(id))
}

/// Whether the store holds as many parents of each active block that is not final
/// as there are threads.
pub open spec fn all_parents_claimable(
    statuses: IdMap<BlockStatus>,
    stored: Seq<BlockId>,
    thread_count: u8,
) -> bool {
    forall|i: int|
        0 <= i < statuses.entries@.len() ==> ((#[trigger] statuses.entries@[i]).1 matches BlockStatus::Active {
            a_block,
            ..
        } ==> a_block.is_final || claimed_parents(a_block, stored).len() == thread_count)
}

/// Whether the block at `x` is a parent of the block at `v`, both being active.
pub open spec fn parent_edge(st: Seq<(BlockId, BlockStatus)>, v: int, x: int) -> bool {
    &&& 0 <= v < st.len()
    &&& 0 <= x < st.len()
    &&& st[v].1 matches BlockStatus::Active { a_block, .. }
    &&& st[x].1 is Active
    &&& a_block.has_parent(st[x].0)
}

/// Whether the block at `a` can be reached from the block at `v` in at most `n`
/// steps, each from an active block to an active parent of it.
pub open spec fn reaches(st: Seq<(BlockId, BlockStatus)>, v: int, a: int, n: nat) -> bool
    decreases n,
{
    n > 0 && exists|x: int| #[trigger]
        parent_edge(st, v, x) && (x == a || reaches(st, x, a, (n - 1) as nat))
}

/// Whether the block at `a` is an ancestor of the block at `v`: an active parent of
/// it, or an active parent of an ancestor of it.
pub open spec fn is_ancestor(st: Seq<(BlockId, BlockStatus)>, v: int, a: int) -> bool {
    exists|n: nat| reaches(st, v, a, n)
}

/// A parent of a block that is reached is reached with one step more.
pub proof fn lemma_reaches_extend(st: Seq<(BlockId, BlockStatus)>, v: int, a: int, x: int, n: nat)
    requires
        reaches(st, v, a, n),
        parent_edge(st, a, x),
    ensures
        reaches(st, v, x, n + 1),
    decreases n,
{
    let y = choose|y: int| #[trigger]
        parent_edge(st, v, y) && (y == a || reaches(st, y, a, (n - 1) as nat));
    if y == a {
        assert(reaches(st, a, x, 1)) by {
            assert(parent_edge(st, a, x));
        }
        assert(parent_edge(st, v, y) && reaches(st, y, x, n));
        if n == 1 {
        } else {
            lemma_reaches_more(st, a, x, 1, n);
        }
    } else {
        lemma_reaches_extend(st, y, a, x, (n - 1) as nat);
        assert(parent_edge(st, v, y) && reaches(st, y, x, n));
    }
}

/// What is reached in some steps is reached in more.
pub proof fn lemma_reaches_more(st: Seq<(BlockId, BlockStatus)>, v: int, a: int, n: nat, m: nat)
    requires
        reaches(st, v, a, n),
        n <= m,
    ensures
        reaches(st, v, a, m),
    decreases n,
{
    let y = choose|y: int| #[trigger]
        parent_edge(st, v, y) && (y == a || reaches(st, y, a, (n - 1) as nat));
    if y != a {
        lemma_reaches_more(st, y, a, (n - 1) as nat, (m - 1) as nat);
    }
    assert(parent_edge(st, v, y) && (y == a || reaches(st, y, a, (m - 1) as nat)));
}

/// The parents and the activity of blocks are all that reaching depends on.
pub proof fn lemma_reaches_same(
    a: IdMap<BlockStatus>,
    b: IdMap<BlockStatus>,
    v: int,
    x: int,
    n: nat,
)
    requires
        same_blocks_but_links(a, b),
    ensures
        reaches(a.entries@, v, x, n) == reaches(b.entries@, v, x, n),
    decreases n,
{
    assert forall|p: int, q: int| parent_edge(a.entries@, p, q) == parent_edge(b.entries@, p, q) by {
        if 0 <= p < a.entries@.len() && 0 <= q < a.entries@.len() {
            assert(same_but_links(a.entries@[p].1, b.entries@[p].1));
            assert(same_but_links(a.entries@[q].1, b.entries@[q].1));
            assert(a.entries@[q].0 == b.entries@[q].0);
        }
    }
    if n > 0 {
        if reaches(a.entries@, v, x, n) {
            let y = choose|y: int| #[trigger]
                parent_edge(a.entries@, v, y) && (y == x || reaches(
                    a.entries@,
                    y,
                    x,
                    (n - 1) as nat,
                ));
            lemma_reaches_same(a, b, y, x, (n - 1) as nat);
            assert(parent_edge(b.entries@, v, y));
        }
        if reaches(b.entries@, v, x, n) {
            let y = choose|y: int| #[trigger]
                parent_edge(b.entries@, v, y) && (y == x || reaches(
                    b.entries@,
                    y,
                    x,
                    (n - 1) as nat,
                ));
            lemma_reaches_same(a, b, y, x, (n - 1) as nat);
            assert(parent_edge(a.entries@, v, y));
        }
    }
}

/// The parents of a block that the store holds, each once.
fn claimable_parents(b: &ActiveBlock, stored: &Vec<BlockId>) -> (r: Vec<BlockId>)
    ensures
        ids_distinct(r@),
        id_set(r@) == claimed_parents(*b, stored@),
        r@.len() == claimed_parents(*b, stored@).len(),
{
    let mut out: Vec<BlockId> = Vec::new();
    let mut k: usize = 0;
    while k < b.parents.len()
        invariant
            k <= b.parents@.len(),
            ids_distinct(out@),
            forall|id: BlockId|
                out@.contains(id) <==> stored@.contains(id) && exists|j: int|
                    0 <= j < k && b.parents@[j].0 == id,
        decreases b.parents@.len() - k,
    {
        let id = b.parents[k].0;
        let ghost before = out@;
        if id_list_contains(stored, &id) {
            id_list_insert(&mut out, id);
        }
        proof {
            assert forall|x: BlockId|
                out@.contains(x) <==> stored@.contains(x) && exists|j: int|
                    0 <= j < k + 1 && b.parents@[j].0 == x by {
                assert(id_set(out@).contains(x) == out@.contains(x));
                assert(id_set(before).contains(x) == before.contains(x));
                if before.contains(x) {
                    let j = choose|j: int| 0 <= j < k && b.parents@[j].0 == x;
                    assert(0 <= j < k + 1);
                }
                if stored@.contains(x) && exists|j: int| 0 <= j < k + 1 && b.parents@[j].0 == x {
                    let j = choose|j: int| 0 <= j < k + 1 && b.parents@[j].0 == x;
                    if j < k {
                        assert(before.contains(x));
                    }
                }
            }
        }
        k += 1;
    }
    proof {
        assert forall|x: BlockId|
            id_set(out@).contains(x) == claimed_parents(*b, stored@).contains(x) by {
            if b.has_parent(x) {
                let j = choose|j: int| 0 <= j < b.parents@.len() && b.parents@[j].0 == x;
                assert(0 <= j < k);
            }
        }
        assert(id_set(out@) =~= claimed_parents(*b, stored@));
        assert(id_set(out@) =~= out@.to_set());
        assert(out@.no_duplicates());
        out@.unique_seq_to_set();
    }
    out
}

/// Whether the store holds as many parents of each active block that is not final
/// as there are threads.
fn check_parents_claimable(statuses: &IdMap<BlockStatus>, stored: &Vec<BlockId>, thread_count: u8)
    -> (r: bool)
    ensures
        r == all_parents_claimable(*statuses, stored@, thread_count),
{
    let mut i: usize = 0;
    while i < statuses.entries.len()
        invariant
            i <= statuses.entries@.len(),
            forall|j: int|
                0 <= j < i ==> ((#[trigger] statuses.entries@[j]).1 matches BlockStatus::Active {
                    a_block,
                    ..
                } ==> a_block.is_final || claimed_parents(a_block, stored@).len() == thread_count),
        decreases statuses.entries@.len() - i,
    {
        match &statuses.entries[i].1 {
            BlockStatus::Active { a_block, .. } => {
                if !a_block.is_final {
                    let claimed = claimable_parents(a_block, stored);
                    if claimed.len() != thread_count as usize {
                        return false;
                    }
                }
            },
            _ => {},
        }
        i += 1;
    }
    true
}

/// Whether the handles of `after` hold, besides what those of `before` hold, the
/// parents of their blocks that the store holds, all else being the same.
pub open spec fn refs_claimed(
    before: IdMap<BlockStatus>,
    after: IdMap<BlockStatus>,
    stored: Seq<BlockId>,
) -> bool {
    &&& after.entries@.len() == before.entries@.len()
    &&& forall|i: int|
        0 <= i < before.entries@.len() ==> (#[trigger] after.entries@[i]).0 == before.entries@[i].0
            && match (before.entries@[i].1, after.entries@[i].1) {
            (
                BlockStatus::Active { a_block: x, storage: s },
                BlockStatus::Active { a_block: y, storage: t },
            ) => x == y && id_set(t.block_refs@) == id_set(s.block_refs@).union(
                claimed_parents(x, stored),
            ),
            (BlockStatus::Active { .. }, _) => false,
            (_, BlockStatus::Active { .. }) => false,
            (a, b) => a == b,
        }
}

/// Makes the handle of every active block hold its parents that the store holds.
fn claim_refs(statuses: &mut IdMap<BlockStatus>, stored: &Vec<BlockId>)
    ensures
        refs_claimed(*old(statuses), *final(statuses), stored@),
{
    let n = statuses.entries.len();
    let mut i: usize = 0;
    while i < n
        invariant
            i <= n,
            n == old(statuses).entries@.len(),
            statuses.entries@.len() == n,
            forall|j: int| i <= j < n ==> statuses.entries@[j] == old(statuses).entries@[j],
            forall|j: int|
                0 <= j < i ==> (#[trigger] statuses.entries@[j]).0 == old(statuses).entries@[j].0
                    && match (old(statuses).entries@[j].1, statuses.entries@[j].1) {
                    (
                        BlockStatus::Active { a_block: x, storage: s },
                        BlockStatus::Active { a_block: y, storage: t },
                    ) => x == y && id_set(t.block_refs@) == id_set(s.block_refs@).union(
                        claimed_parents(x, stored@),
                    ),
                    (BlockStatus::Active { .. }, _) => false,
                    (_, BlockStatus::Active { .. }) => false,
                    (a, b) => a == b,
                },
        decreases n - i,
    {
        let ghost prev = statuses.entries@;
        match &mut statuses.entries[i].1 {
            BlockStatus::Active { a_block, storage } => {
                let claimed = claimable_parents(a_block, stored);
                let ghost start = storage.block_refs@;
                let mut k: usize = 0;
                while k < claimed.len()
                    invariant
                        k <= claimed@.len(),
                        id_set(storage.block_refs@) == id_set(start).union(
                            id_set(claimed@.subrange(0, k as int)),
                        ),
                    decreases claimed@.len() - k,
                {
                    let ghost refs_before = storage.block_refs@;
                    id_list_insert(&mut storage.block_refs, claimed[k]);
                    proof {
                        let part = claimed@.subrange(0, k as int);
                        let next = claimed@.subrange(0, k + 1);
                        assert(next =~= part.push(claimed@[k as int]));
                        crate::id_set::lemma_id_set_push(part, claimed@[k as int]);
                        assert(id_set(storage.block_refs@) =~= id_set(start).union(id_set(next)));
                    }
                    k += 1;
                }
                proof {
                    assert(claimed@.subrange(0, claimed@.len() as int) =~= claimed@);
                }
            },
            _ => {},
        }
        i += 1;
    }
}

/// Whether being a parent is the same in two maps with the same blocks but for
/// links.
pub proof fn lemma_edges_same(a: IdMap<BlockStatus>, b: IdMap<BlockStatus>)
    requires
        same_blocks_but_links(a, b),
    ensures
        forall|p: int, q: int| parent_edge(a.entries@, p, q) == parent_edge(b.entries@, p, q),
{
    assert forall|p: int, q: int| parent_edge(a.entries@, p, q) == parent_edge(b.entries@, p, q) by {
        if 0 <= p < a.entries@.len() && 0 <= q < a.entries@.len() {
            assert(same_but_links(a.entries@[p].1, b.entries@[p].1));
            assert(same_but_links(a.entries@[q].1, b.entries@[q].1));
            assert(a.entries@[q].0 == b.entries@[q].0);
        }
    }
}

/// Whether the block at `i` is an active child, in thread `t`, of the active block
/// at `j`.
pub open spec fn child_in_thread(st: Seq<(BlockId, BlockStatus)>, i: int, j: int, t: int) -> bool {
    parent_edge(st, i, j) && st[i].1->a_block.slot.thread == t
}

/// Whether one of the first `upto` blocks is `c` and is an active child, in thread
/// `t`, of the active block at `j`.
pub open spec fn has_child_named(
    st: Seq<(BlockId, BlockStatus)>,
    j: int,
    t: int,
    upto: int,
    c: BlockId,
) -> bool {
    exists|i: int| 0 <= i < upto && st[i].0 == c && child_in_thread(st, i, j, t)
}

/// Whether two active blocks are the same but for their children, and the children
/// of the second are those of the first and the active children of the block at `j`
/// in `st`, each under its period.
pub open spec fn children_added(
    st: Seq<(BlockId, BlockStatus)>,
    j: int,
    upto: int,
    x: ActiveBlock,
    y: ActiveBlock,
) -> bool {
    &&& x.creator_address == y.creator_address
    &&& x.block_id == y.block_id
    &&& x.parents == y.parents
    &&& x.descendants == y.descendants
    &&& x.is_final == y.is_final
    &&& x.slot == y.slot
    &&& x.fitness == y.fitness
    &&& x.children@.len() == y.children@.len()
    &&& forall|t: int|
        0 <= t < x.children@.len() ==> {
            &&& (#[trigger] y.children@[t]).wf()
            &&& forall|c: BlockId|
                #![trigger y.children@[t].has(c)]
                y.children@[t].has(c) <==> x.children@[t].has(c) || has_child_named(
                    st,
                    j,
                    t,
                    upto,
                    c,
                )
            &&& forall|i: int|
                0 <= i < upto && #[trigger] child_in_thread(st, i, j, t) ==> y.children@[t].value(
                    st[i].0,
                ) == st[i].1->a_block.slot.period
            &&& forall|c: BlockId|
                #![trigger y.children@[t].value(c)]
                x.children@[t].has(c) && !(has_child_named(st, j, t, upto, c))
                    ==> y.children@[t].value(c) == x.children@[t].value(c)
        }
}

/// Whether `after` is `before` with, for the active block at `j`, its active
/// children among the first `upto` blocks added to its maps of children.
pub open spec fn children_linked_at(
    before: IdMap<BlockStatus>,
    after: IdMap<BlockStatus>,
    j: int,
    upto: int,
) -> bool {
    &&& after.entries@.len() == before.entries@.len()
    &&& after.entries@[j].0 == before.entries@[j].0
    &&& match (before.entries@[j].1, after.entries@[j].1) {
        (
            BlockStatus::Active { a_block: x, storage: s },
            BlockStatus::Active { a_block: y, storage: t },
        ) => s == t && children_added(before.entries@, j, upto, x, y),
        (BlockStatus::Active { .. }, _) => false,
        (_, BlockStatus::Active { .. }) => false,
        (a, b) => a == b,
    }
}

/// Adds to the maps of children of the block at `j` its active children.
fn link_children_of(statuses: &mut IdMap<BlockStatus>, j: usize, thread_count: u8)
    requires
        old(statuses).wf(),
        crate::state::links_in_order(*old(statuses), thread_count),
        j < old(statuses).entries@.len(),
    ensures
        children_linked_at(
            *old(statuses),
            *final(statuses),
            j as int,
            old(statuses).entries@.len() as int,
        ),
        forall|i: int|
            0 <= i < old(statuses).entries@.len() && i != j ==> final(statuses).entries@[i] == old(
                statuses,
            ).entries@[i],
{
    let n = statuses.entries.len();
    let pid = statuses.entries[j].0;
    let ghost st = old(statuses).entries@;
    let mut i: usize = 0;
    while i < n
        invariant
            i <= n,
            j < n,
            n == st.len(),
            st == old(statuses).entries@,
            old(statuses).wf(),
            crate::state::links_in_order(*old(statuses), thread_count),
            pid == st[j as int].0,
            statuses.entries@.len() == n,
            forall|k: int| 0 <= k < n && k != j ==> statuses.entries@[k] == st[k],
            children_linked_at(*old(statuses), *statuses, j as int, i as int),
        decreases n - i,
    {
        let ghost cur = statuses.entries@;
        let info: Option<(BlockId, crate::slot::Slot)> = match &statuses.entries[i].1 {
            BlockStatus::Active { a_block, .. } => {
                if a_block.is_child_of(&pid) {
                    Some((statuses.entries[i].0, a_block.slot))
                } else {
                    None
                }
            },
            _ => None,
        };
        proof {
            // what was read of the block at `i` is what it held at the start
            if i == j {
                assert(cur[i as int].0 == st[i as int].0);
            } else {
                assert(cur[i as int] == st[i as int]);
            }
            assert(st[i as int].1 is Active ==> st[i as int].1->a_block.links_wf(thread_count));
        }
        let ghost is_child = st[j as int].1 is Active && parent_edge(st, i as int, j as int);
        match info {
            Some((cid, slot)) => {
                match &mut statuses.entries[j].1 {
                    BlockStatus::Active { a_block, .. } => {
                        let t = slot.thread as usize;
                        let ghost maps = a_block.children@;
                        a_block.children[t].insert(cid, slot.period);
                        proof {
                            let x = st[j as int].1->a_block;
                            let y = *a_block;
                            assert(is_child);
                            assert forall|tt: int| 0 <= tt < x.children@.len() implies {
                                &&& (#[trigger] y.children@[tt]).wf()
                                &&& forall|c: BlockId|
                                    #![trigger y.children@[tt].has(c)]
                                    y.children@[tt].has(c) <==> x.children@[tt].has(c) || has_child_named(st, j as int, tt, i + 1, c)
                                &&& forall|k: int|
                                    0 <= k < i + 1 && #[trigger] child_in_thread(
                                        st,
                                        k,
                                        j as int,
                                        tt,
                                    ) ==> y.children@[tt].value(st[k].0)
                                        == st[k].1->a_block.slot.period
                                &&& forall|c: BlockId|
                                    #![trigger y.children@[tt].value(c)]
                                    x.children@[tt].has(c) && !(has_child_named(st, j as int, tt, i + 1, c)) ==> y.children@[tt].value(c) == x.children@[tt].value(c)
                            } by {
                                let m0 = maps[tt];
                                if tt == t {
                                    assert(child_in_thread(st, i as int, j as int, tt));
                                    assert forall|c: BlockId|
                                        #![trigger y.children@[tt].has(c)]
                                        y.children@[tt].has(c) <==> x.children@[tt].has(c)
                                            || has_child_named(st, j as int, tt, i + 1, c) by {
                                        assert(m0.has(c) <==> x.children@[tt].has(c)
                                            || has_child_named(st, j as int, tt, i as int, c));
                                        if has_child_named(st, j as int, tt, i as int, c) {
                                            let k = choose|k: int|
                                                0 <= k < i && st[k].0 == c && child_in_thread(
                                                    st,
                                                    k,
                                                    j as int,
                                                    tt,
                                                );
                                            assert(0 <= k < i + 1);
                                        }
                                        if c != cid {
                                            assert(y.children@[tt].has(c) == m0.has(c));
                                            if has_child_named(st, j as int, tt, i + 1, c) {
                                                let k = choose|k: int|
                                                    0 <= k < i + 1 && st[k].0 == c
                                                        && child_in_thread(st, k, j as int, tt);
                                                assert(k < i);
                                            }
                                        }
                                    }
                                    assert forall|k: int|
                                        0 <= k < i + 1 && #[trigger] child_in_thread(
                                            st,
                                            k,
                                            j as int,
                                            tt,
                                        ) implies y.children@[tt].value(st[k].0)
                                        == st[k].1->a_block.slot.period by {
                                        if k < i {
                                            if st[k].0 == cid {
                                                old(statuses).lemma_entry(k);
                                                old(statuses).lemma_entry(i as int);
                                            }
                                        }
                                    }
                                    assert forall|c: BlockId|
                                        #![trigger y.children@[tt].value(c)]
                                        x.children@[tt].has(c) && !(has_child_named(st, j as int, tt, i + 1, c)) implies y.children@[tt].value(c)
                                        == x.children@[tt].value(c) by {
                                        if c == cid {
                                            assert(st[i as int].0 == c && child_in_thread(
                                                st,
                                                i as int,
                                                j as int,
                                                tt,
                                            ));
                                        } else {
                                            assert(!(has_child_named(st, j as int, tt, i as int, c)));
                                        }
                                    }
                                } else {
                                    assert(y.children@[tt] == m0);
                                    assert(!child_in_thread(st, i as int, j as int, tt));
                                }
                            }
                        }
                    },
                    _ => {},
                }
            },
            None => {
                proof {
                    assert(!is_child);
                    assert(forall|tt: int| !child_in_thread(st, i as int, j as int, tt));
                }
            },
        }
        i += 1;
    }
}

/// Whether `after` is `before` with, for every active block, its active children
/// added to its maps of children.
pub open spec fn children_linked(before: IdMap<BlockStatus>, after: IdMap<BlockStatus>) -> bool {
    &&& after.entries@.len() == before.entries@.len()
    &&& forall|j: int|
        0 <= j < before.entries@.len() ==> #[trigger] children_linked_at(
            before,
            after,
            j,
            before.entries@.len() as int,
        )
}

/// Blocks whose children were linked are the same blocks but for links, with links
/// in order.
pub proof fn lemma_children_linked_same(
    before: IdMap<BlockStatus>,
    after: IdMap<BlockStatus>,
    thread_count: u8,
)
    requires
        before.wf(),
        crate::state::links_in_order(before, thread_count),
        after.entries@.len() == before.entries@.len(),
        forall|j: int|
            0 <= j < before.entries@.len() ==> (exists|upto: int| #[trigger]
                children_linked_at(before, after, j, upto)) || after.entries@[j]
                == before.entries@[j],
    ensures
        same_blocks_but_links(before, after),
        after.wf(),
        crate::state::links_in_order(after, thread_count),
{
    assert forall|i: int| 0 <= i < before.entries@.len() implies (#[trigger] before.entries@[i]).0
        == after.entries@[i].0 && same_but_links(before.entries@[i].1, after.entries@[i].1) by {
        if after.entries@[i] != before.entries@[i] {
            let upto = choose|upto: int| #[trigger] children_linked_at(before, after, i, upto);
        }
    }
    lemma_same_blocks(before, after);
    assert forall|i: int| 0 <= i < after.entries@.len() implies ((#[trigger] after.entries@[i]).1 matches BlockStatus::Active {
        a_block,
        ..
    } ==> a_block.links_wf(thread_count)) by {
        assert(before.entries@[i].1 is Active ==> before.entries@[i].1->a_block.links_wf(
            thread_count,
        ));
        if after.entries@[i] != before.entries@[i] {
            let upto = choose|upto: int| #[trigger] children_linked_at(before, after, i, upto);
        }
    }
}

/// Adding children is told in the same way of two lists with the same blocks but
/// for links.
pub proof fn lemma_children_added_same(
    st1: Seq<(BlockId, BlockStatus)>,
    st2: Seq<(BlockId, BlockStatus)>,
    j: int,
    upto: int,
    x: ActiveBlock,
    y: ActiveBlock,
)
    requires
        st1.len() == st2.len(),
        upto <= st1.len(),
        forall|i: int| 0 <= i < st1.len() ==> (#[trigger] st1[i]).0 == st2[i].0,
        forall|i: int| 0 <= i < st1.len() ==> same_but_links(#[trigger] st1[i].1, st2[i].1),
        forall|i: int, t: int| child_in_thread(st1, i, j, t) == child_in_thread(st2, i, j, t),
        children_added(st1, j, upto, x, y),
    ensures
        children_added(st2, j, upto, x, y),
{
    assert forall|t: int| 0 <= t < x.children@.len() implies {
        &&& (#[trigger] y.children@[t]).wf()
        &&& forall|c: BlockId|
            #![trigger y.children@[t].has(c)]
            y.children@[t].has(c) <==> x.children@[t].has(c) || has_child_named(st2, j, t, upto, c)
        &&& forall|i: int|
            0 <= i < upto && #[trigger] child_in_thread(st2, i, j, t) ==> y.children@[t].value(
                st2[i].0,
            ) == st2[i].1->a_block.slot.period
        &&& forall|c: BlockId|
            #![trigger y.children@[t].value(c)]
            x.children@[t].has(c) && !(has_child_named(st2, j, t, upto, c))
                ==> y.children@[t].value(c) == x.children@[t].value(c)
    } by {
        assert forall|c: BlockId|
            #![trigger has_child_named(st1, j, t, upto, c)]
            #![trigger has_child_named(st2, j, t, upto, c)]
            (has_child_named(st1, j, t, upto, c)) == (
            has_child_named(st2, j, t, upto, c)) by {
            if has_child_named(st1, j, t, upto, c) {
                let i = choose|i: int|
                    0 <= i < upto && st1[i].0 == c && child_in_thread(st1, i, j, t);
                assert(st2[i].0 == c && child_in_thread(st2, i, j, t));
            }
            if has_child_named(st2, j, t, upto, c) {
                let i = choose|i: int|
                    0 <= i < upto && st2[i].0 == c && child_in_thread(st2, i, j, t);
                assert(st1[i].0 == c && child_in_thread(st1, i, j, t));
            }
        }
        assert forall|i: int|
            0 <= i < upto && #[trigger] child_in_thread(
                st2,
                i,
                j,
                t,
            ) implies y.children@[t].value(st2[i].0) == st2[i].1->a_block.slot.period by {
            assert(child_in_thread(st1, i, j, t));
            assert(same_but_links(st1[i].1, st2[i].1));
            assert(st1[i].0 == st2[i].0);
        }
    }
}

/// Adds to the maps of children of every active block its active children.
fn link_children(statuses: &mut IdMap<BlockStatus>, thread_count: u8)
    requires
        old(statuses).wf(),
        crate::state::links_in_order(*old(statuses), thread_count),
    ensures
        children_linked(*old(statuses), *final(statuses)),
{
    let n = statuses.entries.len();
    let ghost st = old(statuses).entries@;
    let mut j: usize = 0;
    while j < n
        invariant
            j <= n,
            n == st.len(),
            st == old(statuses).entries@,
            old(statuses).wf(),
            crate::state::links_in_order(*old(statuses), thread_count),
            statuses.entries@.len() == n,
            forall|k: int| j <= k < n ==> statuses.entries@[k] == st[k],
            forall|k: int|
                0 <= k < j ==> #[trigger] children_linked_at(
                    *old(statuses),
                    *statuses,
                    k,
                    n as int,
                ),
        decreases n - j,
    {
        let ghost cur = *statuses;
        proof {
            assert forall|k: int| 0 <= k < n implies (exists|upto: int| #[trigger]
                children_linked_at(*old(statuses), cur, k, upto)) || cur.entries@[k]
                == st[k] by {
                if k < j {
                    assert(children_linked_at(*old(statuses), cur, k, n as int));
                }
            }
            lemma_children_linked_same(*old(statuses), cur, thread_count);
            lemma_edges_same(*old(statuses), cur);
        }
        link_children_of(statuses, j, thread_count);
        proof {
            let now = *statuses;
            assert(children_linked_at(cur, now, j as int, n as int));
            assert(cur.entries@[j as int] == st[j as int]);
            assert forall|i: int, t: int|
                child_in_thread(cur.entries@, i, j as int, t) == child_in_thread(
                    st,
                    i,
                    j as int,
                    t,
                ) by {
                if 0 <= i < n {
                    assert(same_but_links(st[i].1, cur.entries@[i].1));
                }
            }
            assert forall|i: int| 0 <= i < n implies (#[trigger] cur.entries@[i]).0 == st[i].0 by {}
            if st[j as int].1 is Active {
                lemma_children_added_same(
                    cur.entries@,
                    st,
                    j as int,
                    n as int,
                    cur.entries@[j as int].1->a_block,
                    now.entries@[j as int].1->a_block,
                );
            }
            assert(children_linked_at(*old(statuses), now, j as int, n as int));
            assert forall|k: int| 0 <= k < j implies #[trigger] children_linked_at(
                *old(statuses),
                now,
                k,
                n as int,
            ) by {
                assert(children_linked_at(*old(statuses), cur, k, n as int));
                assert(now.entries@[k] == cur.entries@[k]);
            }
        }
        j += 1;
    }
}

/// The number of `false` in a list.
pub open spec fn count_false(v: Seq<bool>) -> nat
    decreases v.len(),
{
    if v.len() == 0 {
        0
    } else {
        count_false(v.drop_last()) + if v.last() {
            0nat
        } else {
            1nat
        }
    }
}

/// Setting a `false` to `true` leaves one `false` less.
pub proof fn lemma_count_false_set(v: Seq<bool>, i: int)
    requires
        0 <= i < v.len(),
        !v[i],
    ensures
        count_false(v.update(i, true)) + 1 == count_false(v),
    decreases v.len(),
{
    let w = v.update(i, true);
    if i == v.len() - 1 {
        assert(w.drop_last() =~= v.drop_last());
    } else {
        lemma_count_false_set(v.drop_last(), i);
        assert(w.drop_last() =~= v.drop_last().update(i, true));
    }
}

/// Appends to `work` the places of the active parents of the active block at `v`.
fn push_active_parents(statuses: &IdMap<BlockStatus>, v: usize, work: &mut Vec<usize>)
    requires
        statuses.wf(),
        v < statuses.entries@.len(),
    ensures
        final(work)@.len() >= old(work)@.len(),
        final(work)@.subrange(0, old(work)@.len() as int) == old(work)@,
        forall|k: int|
            old(work)@.len() <= k < final(work)@.len() ==> parent_edge(
                statuses.entries@,
                v as int,
                #[trigger] final(work)@[k] as int,
            ),
        forall|x: int|
            parent_edge(statuses.entries@, v as int, x) ==> exists|k: int|
                0 <= k < final(work)@.len() && #[trigger] final(work)@[k] == x,
{
    match &statuses.entries[v].1 {
        BlockStatus::Active { a_block, .. } => {
            let mut k: usize = 0;
            while k < a_block.parents.len()
                invariant
                    statuses.wf(),
                    v < statuses.entries@.len(),
                    statuses.entries@[v as int].1 == (BlockStatus::Active {
                        a_block: *a_block,
                        storage: statuses.entries@[v as int].1->storage,
                    }),
                    k <= a_block.parents@.len(),
                    work@.len() >= old(work)@.len(),
                    work@.subrange(0, old(work)@.len() as int) == old(work)@,
                    forall|m: int|
                        old(work)@.len() <= m < work@.len() ==> parent_edge(
                            statuses.entries@,
                            v as int,
                            #[trigger] work@[m] as int,
                        ),
                    forall|x: int, p: int|
                        0 <= p < k && 0 <= x < statuses.entries@.len() && statuses.entries@[x].0
                            == a_block.parents@[p].0 && statuses.entries@[x].1 is Active
                            ==> exists|m: int| 0 <= m < work@.len() && #[trigger] work@[m] == x,
                decreases a_block.parents@.len() - k,
            {
                let pid = a_block.parents[k].0;
                let ghost before = work@;
                match statuses.position(&pid) {
                    Some(x) => {
                        match &statuses.entries[x].1 {
                            BlockStatus::Active { .. } => {
                                work.push(x);
                                proof {
                                    assert(work@.subrange(0, old(work)@.len() as int)
                                        =~= before.subrange(0, old(work)@.len() as int));
                                    assert(a_block.has_parent(statuses.entries@[x as int].0));
                                }
                            },
                            _ => {},
                        }
                    },
                    None => {},
                }
                proof {
                    assert forall|x: int, p: int|
                        0 <= p < k + 1 && 0 <= x < statuses.entries@.len()
                            && statuses.entries@[x].0 == a_block.parents@[p].0
                            && statuses.entries@[x].1 is Active implies exists|m: int|
                        0 <= m < work@.len() && #[trigger] work@[m] == x by {
                        if p < k {
                            let m = choose|m: int| 0 <= m < before.len() && #[trigger] before[m] == x;
                            assert(work@[m] == x);
                        } else {
                            statuses.lemma_entry(x);
                            assert(work@[work@.len() - 1] == x);
                        }
                    }
                }
                k += 1;
            }
            proof {
                assert forall|x: int| parent_edge(statuses.entries@, v as int, x) implies exists|
                    m: int,
                | 0 <= m < work@.len() && #[trigger] work@[m] == x by {
                    let p = choose|p: int|
                        0 <= p < a_block.parents@.len() && a_block.parents@[p].0
                            == statuses.entries@[x].0;
                    assert(0 <= p < k);
                }
            }
        },
        _ => {
            assert(work@.subrange(0, old(work)@.len() as int) =~= old(work)@);
        },
    }
}

/// Whether every active parent of the root and of every visited block is visited.
pub open spec fn visited_closed(st: Seq<(BlockId, BlockStatus)>, root: int, visited: Seq<bool>) -> bool {
    &&& visited.len() == st.len()
    &&& forall|x: int| #[trigger] parent_edge(st, root, x) ==> visited[x]
    &&& forall|v: int, x: int| 0 <= v < st.len() && visited[v] && #[trigger] parent_edge(st, v, x) ==> visited[x]
}

/// Where the visited blocks are closed under active parents, every ancestor of the
/// root is visited.
pub proof fn lemma_closed_holds_ancestors(
    st: Seq<(BlockId, BlockStatus)>,
    root: int,
    visited: Seq<bool>,
    v: int,
    a: int,
    n: nat,
)
    requires
        visited_closed(st, root, visited),
        v == root || (0 <= v < st.len() && visited[v]),
        reaches(st, v, a, n),
    ensures
        0 <= a < st.len() && visited[a],
    decreases n,
{
    let y = choose|y: int| #[trigger]
        parent_edge(st, v, y) && (y == a || reaches(st, y, a, (n - 1) as nat));
    assert(visited[y]);
    if y != a {
        lemma_closed_holds_ancestors(st, root, visited, y, a, (n - 1) as nat);
    }
}

/// The ancestors of the block at `root`: for each place, whether the block there
/// is one.
fn ancestors_of(statuses: &IdMap<BlockStatus>, root: usize) -> (visited: Vec<bool>)
    requires
        statuses.wf(),
        root < statuses.entries@.len(),
    ensures
        visited@.len() == statuses.entries@.len(),
        forall|a: int|
            0 <= a < visited@.len() ==> (#[trigger] visited@[a] <==> is_ancestor(
                statuses.entries@,
                root as int,
                a,
            )),
{
    let n = statuses.entries.len();
    let ghost st = statuses.entries@;
    let mut visited: Vec<bool> = Vec::new();
    let mut c: usize = 0;
    while c < n
        invariant
            c <= n,
            visited@.len() == c,
            forall|a: int| 0 <= a < c ==> !visited@[a],
        decreases n - c,
    {
        visited.push(false);
        c += 1;
    }
    let mut work: Vec<usize> = Vec::new();
    push_active_parents(statuses, root, &mut work);
    proof {
        assert forall|k: int| 0 <= k < work@.len() implies is_ancestor(
            st,
            root as int,
            #[trigger] work@[k] as int,
        ) by {
            assert(parent_edge(st, root as int, work@[k] as int));
            assert(reaches(st, root as int, work@[k] as int, 1));
        }
    }
    while work.len() > 0
        invariant
            statuses.wf(),
            st == statuses.entries@,
            n == st.len(),
            root < n,
            visited@.len() == n,
            forall|k: int|
                0 <= k < work@.len() ==> (#[trigger] work@[k]) < n && is_ancestor(
                    st,
                    root as int,
                    work@[k] as int,
                ),
            forall|a: int| 0 <= a < n && #[trigger] visited@[a] ==> is_ancestor(st, root as int, a),
            forall|x: int| #[trigger]
                parent_edge(st, root as int, x) ==> visited@[x] || exists|k: int|
                    0 <= k < work@.len() && #[trigger] work@[k] == x,
            forall|v: int, x: int|
                0 <= v < n && visited@[v] && #[trigger] parent_edge(st, v, x) ==> visited@[x]
                    || exists|k: int| 0 <= k < work@.len() && #[trigger] work@[k] == x,
        decreases count_false(visited@), work@.len(),
    {
        let ghost work_before = work@;
        let ghost visited_before = visited@;
        let v = work.pop().unwrap();
        let ghost rest = work@;
        proof {
            assert(work_before[work_before.len() - 1] == v);
            assert forall|k: int| 0 <= k < rest.len() implies rest[k] == work_before[k] by {}
        }
        if !visited[v] {
            visited.set(v, true);
            push_active_parents(statuses, v, &mut work);
            proof {
                lemma_count_false_set(visited_before, v as int);
                assert(visited@ =~= visited_before.update(v as int, true));
                let nv = choose|nv: nat| reaches(st, root as int, v as int, nv);
                assert forall|k: int| 0 <= k < work@.len() implies (#[trigger] work@[k]) < n
                    && is_ancestor(st, root as int, work@[k] as int) by {
                    if k < rest.len() {
                        assert(work@.subrange(0, rest.len() as int)[k] == rest[k]);
                        assert(work@[k] == work_before[k]);
                    } else {
                        assert(parent_edge(st, v as int, work@[k] as int));
                        lemma_reaches_extend(st, root as int, v as int, work@[k] as int, nv);
                    }
                }
                assert forall|x: int| #[trigger] parent_edge(st, root as int, x) implies visited@[x]
                    || exists|k: int| 0 <= k < work@.len() && #[trigger] work@[k] == x by {
                    if !visited_before[x] {
                        let k = choose|k: int|
                            0 <= k < work_before.len() && #[trigger] work_before[k] == x;
                        if k < rest.len() {
                            assert(work@.subrange(0, rest.len() as int)[k] == rest[k]);
                            assert(work@[k] == x);
                        }
                    }
                }
                assert forall|w: int, x: int|
                    0 <= w < n && visited@[w] && #[trigger] parent_edge(st, w, x) implies visited@[x]
                    || exists|k: int| 0 <= k < work@.len() && #[trigger] work@[k] == x by {
                    if w != v {
                        if !visited_before[x] {
                            let k = choose|k: int|
                                0 <= k < work_before.len() && #[trigger] work_before[k] == x;
                            if k < rest.len() {
                                assert(work@.subrange(0, rest.len() as int)[k] == rest[k]);
                                assert(work@[k] == x);
                            }
                        }
                    }
                }
            }
        } else {
            proof {
                assert forall|x: int| #[trigger] parent_edge(st, root as int, x) implies visited@[x]
                    || exists|k: int| 0 <= k < work@.len() && #[trigger] work@[k] == x by {
                    if !visited@[x] {
                        let k = choose|k: int|
                            0 <= k < work_before.len() && #[trigger] work_before[k] == x;
                        assert(k < rest.len());
                        assert(work@[k] == x);
                    }
                }
                assert forall|w: int, x: int|
                    0 <= w < n && visited@[w] && #[trigger] parent_edge(st, w, x) implies visited@[x]
                    || exists|k: int| 0 <= k < work@.len() && #[trigger] work@[k] == x by {
                    if !visited@[x] {
                        let k = choose|k: int|
                            0 <= k < work_before.len() && #[trigger] work_before[k] == x;
                        assert(k < rest.len());
                        assert(work@[k] == x);
                    }
                }
            }
        }
    }
    proof {
        assert(visited_closed(st, root as int, visited@));
        assert forall|a: int| 0 <= a < visited@.len() implies (#[trigger] visited@[a]
            <==> is_ancestor(st, root as int, a)) by {
            if is_ancestor(st, root as int, a) {
                let na = choose|na: nat| reaches(st, root as int, a, na);
                lemma_closed_holds_ancestors(st, root as int, visited@, root as int, a, na);
            }
        }
    }
    visited
}

/// Whether one of the first `upto` blocks is `d` and has the block at `a` as an
/// ancestor.
pub open spec fn has_descendant_named(
    st: Seq<(BlockId, BlockStatus)>,
    a: int,
    upto: int,
    d: BlockId,
) -> bool {
    exists|i: int| 0 <= i < upto && st[i].0 == d && is_ancestor(st, i, a)
}

/// Whether the list `yd` holds each identifier once, and holds what `xd` holds and
/// those of the first `upto` blocks that descend from the block at `a`.
pub open spec fn descendants_added(
    st: Seq<(BlockId, BlockStatus)>,
    a: int,
    upto: int,
    xd: Seq<BlockId>,
    yd: Seq<BlockId>,
) -> bool {
    &&& ids_distinct(yd)
    &&& forall|d: BlockId|
        #![trigger yd.contains(d)]
        yd.contains(d) <==> xd.contains(d) || has_descendant_named(st, a, upto, d)
}

/// Whether `after` is `before` with, for the active block at `a`, those of the
/// first `upto` blocks that descend from it added to its descendants.
pub open spec fn descendants_linked_at(
    before: IdMap<BlockStatus>,
    after: IdMap<BlockStatus>,
    a: int,
    upto: int,
) -> bool {
    &&& after.entries@[a].0 == before.entries@[a].0
    &&& match (before.entries@[a].1, after.entries@[a].1) {
        (
            BlockStatus::Active { a_block: x, storage: s },
            BlockStatus::Active { a_block: y, storage: t },
        ) => {
            &&& s == t
            &&& x.creator_address == y.creator_address
            &&& x.block_id == y.block_id
            &&& x.parents == y.parents
            &&& x.children == y.children
            &&& x.is_final == y.is_final
            &&& x.slot == y.slot
            &&& x.fitness == y.fitness
            &&& descendants_added(before.entries@, a, upto, x.descendants@, y.descendants@)
        },
        (BlockStatus::Active { .. }, _) => false,
        (_, BlockStatus::Active { .. }) => false,
        (p, q) => p == q,
    }
}

/// Whether `after` is `before` with, for every active block, the blocks that
/// descend from it added to its descendants.
pub open spec fn descendants_linked(before: IdMap<BlockStatus>, after: IdMap<BlockStatus>) -> bool {
    &&& after.entries@.len() == before.entries@.len()
    &&& forall|a: int|
        0 <= a < before.entries@.len() ==> #[trigger] descendants_linked_at(
            before,
            after,
            a,
            before.entries@.len() as int,
        )
}

/// Being an ancestor is the same in two maps with the same blocks but for links.
pub proof fn lemma_ancestors_same(a: IdMap<BlockStatus>, b: IdMap<BlockStatus>)
    requires
        same_blocks_but_links(a, b),
    ensures
        forall|v: int, x: int| is_ancestor(a.entries@, v, x) == is_ancestor(b.entries@, v, x),
{
    assert forall|v: int, x: int| is_ancestor(a.entries@, v, x) == is_ancestor(b.entries@, v, x) by {
        if is_ancestor(a.entries@, v, x) {
            let n = choose|n: nat| reaches(a.entries@, v, x, n);
            lemma_reaches_same(a, b, v, x, n);
        }
        if is_ancestor(b.entries@, v, x) {
            let n = choose|n: nat| reaches(b.entries@, v, x, n);
            lemma_reaches_same(a, b, v, x, n);
        }
    }
}

/// What is reached is an active block, and what it is reached from is one too.
pub proof fn lemma_reached_is_active(st: Seq<(BlockId, BlockStatus)>, v: int, a: int, n: nat)
    requires
        reaches(st, v, a, n),
    ensures
        0 <= a < st.len(),
        st[a].1 is Active,
        0 <= v < st.len(),
        st[v].1 is Active,
    decreases n,
{
    let y = choose|y: int| #[trigger]
        parent_edge(st, v, y) && (y == a || reaches(st, y, a, (n - 1) as nat));
    if y != a {
        lemma_reached_is_active(st, y, a, (n - 1) as nat);
    }
}

/// What is reached is the parent of some block.
pub proof fn lemma_reached_has_child(st: Seq<(BlockId, BlockStatus)>, v: int, a: int, n: nat)
    requires
        reaches(st, v, a, n),
    ensures
        exists|w: int| parent_edge(st, w, a),
    decreases n,
{
    let y = choose|y: int| #[trigger]
        parent_edge(st, v, y) && (y == a || reaches(st, y, a, (n - 1) as nat));
    if y != a {
        lemma_reached_has_child(st, y, a, (n - 1) as nat);
    } else {
        assert(parent_edge(st, v, a));
    }
}

/// Adds to the descendants of every active block the blocks that descend from it.
fn link_descendants(statuses: &mut IdMap<BlockStatus>, thread_count: u8)
    requires
        old(statuses).wf(),
        crate::state::links_in_order(*old(statuses), thread_count),
    ensures
        descendants_linked(*old(statuses), *final(statuses)),
{
    let n = statuses.entries.len();
    let ghost st = old(statuses).entries@;
    let mut i: usize = 0;
    proof {
        assert forall|a: int| 0 <= a < n implies #[trigger] descendants_linked_at(
            *old(statuses),
            *statuses,
            a,
            0,
        ) by {
            assert(st[a].1 is Active ==> st[a].1->a_block.links_wf(thread_count));
        }
    }
    while i < n
        invariant
            i <= n,
            n == st.len(),
            st == old(statuses).entries@,
            old(statuses).wf(),
            statuses.entries@.len() == n,
            forall|a: int|
                0 <= a < n ==> #[trigger] descendants_linked_at(
                    *old(statuses),
                    *statuses,
                    a,
                    i as int,
                ),
        decreases n - i,
    {
        let ghost cur = *statuses;
        proof {
            assert forall|k: int| 0 <= k < n implies (#[trigger] st[k]).0 == cur.entries@[k].0
                && same_but_links(st[k].1, cur.entries@[k].1) by {
                assert(descendants_linked_at(*old(statuses), cur, k, i as int));
            }
            lemma_same_blocks(*old(statuses), cur);
            lemma_ancestors_same(*old(statuses), cur);
        }
        let did = statuses.entries[i].0;
        let visited = ancestors_of(statuses, i);
        let mut a: usize = 0;
        while a < n
            invariant
                a <= n,
                i < n,
                n == st.len(),
                st == old(statuses).entries@,
                statuses.entries@.len() == n,
                visited@.len() == n,
                did == st[i as int].0,
                forall|k: int|
                    0 <= k < n ==> (#[trigger] visited@[k] <==> is_ancestor(st, i as int, k)),
                forall|k: int|
                    0 <= k < a ==> #[trigger] descendants_linked_at(
                        *old(statuses),
                        *statuses,
                        k,
                        i + 1,
                    ),
                forall|k: int|
                    a <= k < n ==> #[trigger] descendants_linked_at(
                        *old(statuses),
                        *statuses,
                        k,
                        i as int,
                    ),
            decreases n - a,
        {
            let ghost mid = *statuses;
            assert(descendants_linked_at(*old(statuses), mid, a as int, i as int));
            if visited[a] {
                match &mut statuses.entries[a].1 {
                    BlockStatus::Active { a_block, .. } => {
                        let ghost before = a_block.descendants@;
                        id_list_insert(&mut a_block.descendants, did);
                        proof {
                            let x = st[a as int].1->a_block;
                            assert forall|d: BlockId|
                                #![trigger a_block.descendants@.contains(d)]
                                a_block.descendants@.contains(d) <==> x.descendants@.contains(d)
                                    || has_descendant_named(st, a as int, i + 1, d) by {
                                assert(id_set(a_block.descendants@).contains(d)
                                    == a_block.descendants@.contains(d));
                                assert(id_set(before).contains(d) == before.contains(d));
                                assert(before.contains(d) <==> x.descendants@.contains(d)
                                    || has_descendant_named(st, a as int, i as int, d));
                                if has_descendant_named(st, a as int, i as int, d) {
                                    let k = choose|k: int|
                                        0 <= k < i && st[k].0 == d && is_ancestor(st, k, a as int);
                                    assert(0 <= k < i + 1);
                                }
                                if d == did {
                                    assert(st[i as int].0 == d && is_ancestor(
                                        st,
                                        i as int,
                                        a as int,
                                    ));
                                }
                                if has_descendant_named(st, a as int, i + 1, d) {
                                    let k = choose|k: int|
                                        0 <= k < i + 1 && st[k].0 == d && is_ancestor(
                                            st,
                                            k,
                                            a as int,
                                        );
                                    if k < i {
                                        assert(has_descendant_named(st, a as int, i as int, d));
                                    }
                                }
                            }
                        }
                    },
                    _ => {
                        proof {
                            let nn = choose|nn: nat| reaches(st, i as int, a as int, nn);
                            lemma_reached_is_active(st, i as int, a as int, nn);
                            assert(false);
                        }
                    },
                }
            } else {
                proof {
                    assert forall|d: BlockId|
                        has_descendant_named(st, a as int, i + 1, d) == has_descendant_named(
                            st,
                            a as int,
                            i as int,
                            d,
                        ) by {
                        if has_descendant_named(st, a as int, i + 1, d) {
                            let k = choose|k: int|
                                0 <= k < i + 1 && st[k].0 == d && is_ancestor(st, k, a as int);
                            assert(k < i);
                        }
                        if has_descendant_named(st, a as int, i as int, d) {
                            let k = choose|k: int|
                                0 <= k < i && st[k].0 == d && is_ancestor(st, k, a as int);
                            assert(0 <= k < i + 1);
                        }
                    }
                }
            }
            proof {
                assert forall|k: int| 0 <= k < n && k != a implies statuses.entries@[k]
                    == mid.entries@[k] by {}
                assert forall|k: int| 0 <= k < a + 1 implies #[trigger] descendants_linked_at(
                    *old(statuses),
                    *statuses,
                    k,
                    i + 1,
                ) by {
                    if k < a {
                        assert(descendants_linked_at(*old(statuses), mid, k, i + 1));
                    }
                }
                assert forall|k: int| a + 1 <= k < n implies #[trigger] descendants_linked_at(
                    *old(statuses),
                    *statuses,
                    k,
                    i as int,
                ) by {
                    assert(descendants_linked_at(*old(statuses), mid, k, i as int));
                }
            }
            a += 1;
        }
        i += 1;
    }
}

/// Whether `after` is `before` with all the links of its active blocks made: each
/// handle holds, besides what it held, the parents of its block that are in
/// `stored`; each active block has, besides the children it had, its active
/// children, each in the map of its thread and under its period; and has, besides
/// the descendants it had, every active block that it is an ancestor of.
pub open spec fn links_claimed(
    before: IdMap<BlockStatus>,
    after: IdMap<BlockStatus>,
    stored: Seq<BlockId>,
) -> bool {
    &&& after.entries@.len() == before.entries@.len()
    &&& forall|j: int|
        0 <= j < before.entries@.len() ==> (#[trigger] after.entries@[j]).0 == before.entries@[j].0
            && match (before.entries@[j].1, after.entries@[j].1) {
            (
                BlockStatus::Active { a_block: x, storage: s },
                BlockStatus::Active { a_block: y, storage: t },
            ) => {
                &&& id_set(t.block_refs@) == id_set(s.block_refs@).union(
                    claimed_parents(x, stored),
                )
                &&& children_added(
                    before.entries@,
                    j,
                    before.entries@.len() as int,
                    x,
                    ActiveBlock { descendants: x.descendants, ..y },
                )
                &&& descendants_added(
                    before.entries@,
                    j,
                    before.entries@.len() as int,
                    x.descendants@,
                    y.descendants@,
                )
            },
            (BlockStatus::Active { .. }, _) => false,
            (_, BlockStatus::Active { .. }) => false,
            (p, q) => p == q,
        }
}

/// Telling which blocks descend from a block is the same for two lists with the
/// same blocks but for links.
pub proof fn lemma_descendants_added_same(
    a: IdMap<BlockStatus>,
    b: IdMap<BlockStatus>,
    j: int,
    upto: int,
    xd: Seq<BlockId>,
    yd: Seq<BlockId>,
)
    requires
        same_blocks_but_links(a, b),
        upto <= a.entries@.len(),
        descendants_added(a.entries@, j, upto, xd, yd),
    ensures
        descendants_added(b.entries@, j, upto, xd, yd),
{
    lemma_ancestors_same(a, b);
    assert forall|d: BlockId|
        #![trigger has_descendant_named(a.entries@, j, upto, d)]
        #![trigger has_descendant_named(b.entries@, j, upto, d)]
        has_descendant_named(a.entries@, j, upto, d) == has_descendant_named(
            b.entries@,
            j,
            upto,
            d,
        ) by {
        if has_descendant_named(a.entries@, j, upto, d) {
            let i = choose|i: int|
                0 <= i < upto && a.entries@[i].0 == d && is_ancestor(a.entries@, i, j);
            assert(a.entries@[i].0 == b.entries@[i].0);
            assert(is_ancestor(b.entries@, i, j));
        }
        if has_descendant_named(b.entries@, j, upto, d) {
            let i = choose|i: int|
                0 <= i < upto && b.entries@[i].0 == d && is_ancestor(b.entries@, i, j);
            assert(a.entries@[i].0 == b.entries@[i].0);
            assert(is_ancestor(a.entries@, i, j));
        }
    }
    assert forall|d: BlockId|
        #![trigger yd.contains(d)]
        yd.contains(d) <==> xd.contains(d) || has_descendant_named(b.entries@, j, upto, d) by {
        assert(has_descendant_named(a.entries@, j, upto, d) == has_descendant_named(
            b.entries@,
            j,
            upto,
            d,
        ));
    }
}

impl ConsensusState {
    /// Whether `self` and `before` differ in the statuses of blocks at most.
    pub open spec fn same_but_statuses(&self, before: &ConsensusState) -> bool {
        &&& self.config == before.config
        &&& self.stored_blocks == before.stored_blocks
        &&& self.max_cliques == before.max_cliques
        &&& self.sequence_counter == before.sequence_counter
        &&& self.to_propagate == before.to_propagate
        &&& self.attack_attempts == before.attack_attempts
        &&& self.new_final_blocks == before.new_final_blocks
        &&& self.new_stale_blocks == before.new_stale_blocks
        &&& self.latest_final_blocks_periods == before.latest_final_blocks_periods
        &&& self.best_parents == before.best_parents
        &&& self.genesis_hashes == before.genesis_hashes
        &&& self.gi_head == before.gi_head
        &&& self.wishlist == before.wishlist
        &&& self.final_block_stats == before.final_block_stats
        &&& self.stale_block_stats == before.stale_block_stats
        &&& self.protocol_blocks == before.protocol_blocks
        &&& self.launch_time == before.launch_time
        &&& self.stats_desync_detection_timespan == before.stats_desync_detection_timespan
        &&& self.stats_history_timespan == before.stats_history_timespan
        &&& self.prev_blockclique == before.prev_blockclique
    }

    /// Makes the links of the active blocks: the references of their handles on
    /// their parents in the store, their children, their descendants. Fails, and
    /// changes nothing, where the store does not hold as many parents of an active
    /// block that is not final as there are threads.
    pub fn claim_parent_refs(&mut self) -> (r: Result<(), GraphError>)
        requires
            old(self).wf(),
        ensures
            final(self).wf(),
            final(self).follows(old(self)),
            !all_parents_claimable(
                old(self).block_statuses,
                old(self).stored_blocks@,
                old(self).config.thread_count,
            ) ==> r == Err::<(), _>(GraphError::MissingBlock) && *final(self) == *old(self),
            all_parents_claimable(
                old(self).block_statuses,
                old(self).stored_blocks@,
                old(self).config.thread_count,
            ) ==> r is Ok && links_claimed(
                old(self).block_statuses,
                final(self).block_statuses,
                old(self).stored_blocks@,
            ) && final(self).same_but_statuses(old(self)),
    {
        let thread_count = self.config.thread_count;
        if !check_parents_claimable(&self.block_statuses, &self.stored_blocks, thread_count) {
            proof {
                assert forall|id: BlockId| #[trigger] self.block_statuses.has(id) implies {
                    &&& is_discarded(old(self).block_statuses, id) ==> self.block_statuses.value(id) == old(self).block_statuses.value(id)
                    &&& is_final(old(self).block_statuses, id) ==> is_final(
                        self.block_statuses,
                        id,
                    ) || is_pruned(self.block_statuses, id)
                } by {}
            }
            return Err(GraphError::MissingBlock);
        }
        let ghost s0 = self.block_statuses;
        claim_refs(&mut self.block_statuses, &self.stored_blocks);
        let ghost s1 = self.block_statuses;
        proof {
            assert forall|i: int| 0 <= i < s0.entries@.len() implies (#[trigger] s0.entries@[i]).0
                == s1.entries@[i].0 && same_but_links(s0.entries@[i].1, s1.entries@[i].1) by {
                assert(s1.entries@[i].0 == s0.entries@[i].0);
            }
            lemma_same_blocks(s0, s1);
            assert forall|i: int| 0 <= i < s1.entries@.len() implies ((#[trigger] s1.entries@[i]).1 matches BlockStatus::Active {
                a_block,
                ..
            } ==> a_block.links_wf(thread_count)) by {
                assert(s1.entries@[i].0 == s0.entries@[i].0);
                assert(s0.entries@[i].1 is Active ==> s0.entries@[i].1->a_block.links_wf(
                    thread_count,
                ));
            }
        }
        link_children(&mut self.block_statuses, thread_count);
        let ghost s2 = self.block_statuses;
        proof {
            assert forall|j: int| 0 <= j < s1.entries@.len() implies (exists|upto: int| #[trigger]
                children_linked_at(s1, s2, j, upto)) || s2.entries@[j] == s1.entries@[j] by {
                assert(children_linked_at(s1, s2, j, s1.entries@.len() as int));
            }
            lemma_children_linked_same(s1, s2, thread_count);
        }
        link_descendants(&mut self.block_statuses, thread_count);
        let ghost s3 = self.block_statuses;
        proof {
            let n = s0.entries@.len() as int;
            assert forall|i: int| 0 <= i < n implies (#[trigger] s2.entries@[i]).0
                == s3.entries@[i].0 && same_but_links(s2.entries@[i].1, s3.entries@[i].1) by {
                assert(descendants_linked_at(s2, s3, i, n));
            }
            lemma_same_blocks(s2, s3);
            assert forall|i: int| 0 <= i < n implies (#[trigger] s0.entries@[i]).0
                == s2.entries@[i].0 && same_but_links(s0.entries@[i].1, s2.entries@[i].1) by {
                assert(s1.entries@[i].0 == s0.entries@[i].0);
                assert(same_but_links(s1.entries@[i].1, s2.entries@[i].1));
            }
            assert forall|i: int| 0 <= i < n implies (#[trigger] s0.entries@[i]).0
                == s3.entries@[i].0 && same_but_links(s0.entries@[i].1, s3.entries@[i].1) by {
                assert(s0.entries@[i].0 == s2.entries@[i].0);
                assert(same_but_links(s0.entries@[i].1, s2.entries@[i].1));
                assert(same_but_links(s2.entries@[i].1, s3.entries@[i].1));
            }
            lemma_edges_same(s0, s1);
            assert forall|j: int| 0 <= j < n implies (#[trigger] s3.entries@[j]).0
                == s0.entries@[j].0 && match (s0.entries@[j].1, s3.entries@[j].1) {
                (
                    BlockStatus::Active { a_block: x, storage: s },
                    BlockStatus::Active { a_block: y, storage: t },
                ) => {
                    &&& id_set(t.block_refs@) == id_set(s.block_refs@).union(
                        claimed_parents(x, self.stored_blocks@),
                    )
                    &&& children_added(
                        s0.entries@,
                        j,
                        n,
                        x,
                        ActiveBlock { descendants: x.descendants, ..y },
                    )
                    &&& descendants_added(s0.entries@, j, n, x.descendants@, y.descendants@)
                },
                (BlockStatus::Active { .. }, _) => false,
                (_, BlockStatus::Active { .. }) => false,
                (p, q) => p == q,
            } by {
                assert(s1.entries@[j].0 == s0.entries@[j].0);
                assert(children_linked_at(s1, s2, j, n));
                assert(descendants_linked_at(s2, s3, j, n));
                assert(same_but_links(s0.entries@[j].1, s3.entries@[j].1));
                if s0.entries@[j].1 is Active {
                    let x = s0.entries@[j].1->a_block;
                    let x1 = s1.entries@[j].1->a_block;
                    let x2 = s2.entries@[j].1->a_block;
                    let y = s3.entries@[j].1->a_block;
                    assert(x1 == x);
                    assert forall|i: int, t: int|
                        child_in_thread(s1.entries@, i, j, t) == child_in_thread(
                            s0.entries@,
                            i,
                            j,
                            t,
                        ) by {
                        if 0 <= i < n {
                            assert(s1.entries@[i].0 == s0.entries@[i].0);
                            assert(same_but_links(s0.entries@[i].1, s1.entries@[i].1));
                        }
                    }
                    assert forall|i: int| 0 <= i < n implies same_but_links(
                        #[trigger] s1.entries@[i].1,
                        s0.entries@[i].1,
                    ) by {
                        assert(s1.entries@[i].0 == s0.entries@[i].0);
                    }
                    assert forall|i: int| 0 <= i < n implies (#[trigger] s1.entries@[i]).0
                        == s0.entries@[i].0 by {}
                    lemma_children_added_same(s1.entries@, s0.entries@, j, n, x1, x2);
                    assert(ActiveBlock { descendants: x.descendants, ..y } == x2);
                    lemma_descendants_added_same(s2, s0, j, n, x2.descendants@, y.descendants@);
                }
            }
            assert forall|i: int| 0 <= i < s3.entries@.len() implies ((#[trigger] s3.entries@[i]).1 matches BlockStatus::Active {
                a_block,
                ..
            } ==> a_block.links_wf(thread_count)) by {
                assert(descendants_linked_at(s2, s3, i, n));
                assert(s2.entries@[i].1 is Active ==> s2.entries@[i].1->a_block.links_wf(
                    thread_count,
                ));
            }
            lemma_links_keep_wf(*old(self), *self);
        }
        Ok(())
    }
}

/// Whether `after` is `before` with the block at `i` linked to its active parents
/// and ancestors: each active parent has it as a child, in the map of its thread
/// and under its period, and each ancestor has it as a descendant; all else is the
/// same.
pub open spec fn block_linked(before: IdMap<BlockStatus>, after: IdMap<BlockStatus>, i: int) -> bool {
    &&& after.entries@.len() == before.entries@.len()
    &&& forall|a: int|
        0 <= a < before.entries@.len() ==> (#[trigger] after.entries@[a]).0 == before.entries@[a].0
            && match (before.entries@[a].1, after.entries@[a].1) {
            (
                BlockStatus::Active { a_block: x, storage: s },
                BlockStatus::Active { a_block: y, storage: t },
            ) => {
                &&& s == t
                &&& x.creator_address == y.creator_address
                &&& x.block_id == y.block_id
                &&& x.parents == y.parents
                &&& x.is_final == y.is_final
                &&& x.slot == y.slot
                &&& x.fitness == y.fitness
                &&& x.children@.len() == y.children@.len()
                &&& forall|t: int|
                    0 <= t < x.children@.len() ==> {
                        &&& (#[trigger] y.children@[t]).wf()
                        &&& forall|c: BlockId|
                            #![trigger y.children@[t].has(c)]
                            y.children@[t].has(c) <==> x.children@[t].has(c) || (c
                                == before.entries@[i].0 && child_in_thread(
                                before.entries@,
                                i,
                                a,
                                t,
                            ))
                        &&& child_in_thread(before.entries@, i, a, t) ==> y.children@[t].value(
                            before.entries@[i].0,
                        ) == before.entries@[i].1->a_block.slot.period
                        &&& forall|c: BlockId|
                            #![trigger y.children@[t].value(c)]
                            x.children@[t].has(c) && !(c == before.entries@[i].0
                                && child_in_thread(before.entries@, i, a, t))
                                ==> y.children@[t].value(c) == x.children@[t].value(c)
                    }
                &&& ids_distinct(y.descendants@)
                &&& forall|d: BlockId|
                    #![trigger y.descendants@.contains(d)]
                    y.descendants@.contains(d) <==> x.descendants@.contains(d) || (d
                        == before.entries@[i].0 && is_ancestor(before.entries@, i, a))
            },
            (BlockStatus::Active { .. }, _) => false,
            (_, BlockStatus::Active { .. }) => false,
            (p, q) => p == q,
        }
}

/// Links the block at `i` to its active parents and to its ancestors.
pub fn link_block(statuses: &mut IdMap<BlockStatus>, i: usize, thread_count: u8)
    requires
        old(statuses).wf(),
        crate::state::links_in_order(*old(statuses), thread_count),
        i < old(statuses).entries@.len(),
    ensures
        block_linked(*old(statuses), *final(statuses), i as int),
        same_blocks_but_links(*old(statuses), *final(statuses)),
        final(statuses).wf(),
        crate::state::links_in_order(*final(statuses), thread_count),
{
    let n = statuses.entries.len();
    let ghost st = old(statuses).entries@;
    let visited = ancestors_of(statuses, i);
    let (cid, info): (BlockId, Option<crate::slot::Slot>) = match &statuses.entries[i].1 {
        BlockStatus::Active { a_block, .. } => (statuses.entries[i].0, Some(a_block.slot)),
        _ => (statuses.entries[i].0, None),
    };
    proof {
        assert(st[i as int].1 is Active ==> st[i as int].1->a_block.links_wf(thread_count));
    }
    let mut a: usize = 0;
    while a < n
        invariant
            a <= n,
            i < n,
            n == st.len(),
            st == old(statuses).entries@,
            old(statuses).wf(),
            crate::state::links_in_order(*old(statuses), thread_count),
            statuses.entries@.len() == n,
            visited@.len() == n,
            cid == st[i as int].0,
            info is Some <==> st[i as int].1 is Active,
            info is Some ==> info.unwrap() == st[i as int].1->a_block.slot,
            forall|k: int| 0 <= k < n ==> (#[trigger] visited@[k] <==> is_ancestor(st, i as int, k)),
            forall|k: int| a <= k < n ==> statuses.entries@[k] == st[k],
            forall|k: int|
                0 <= k < a ==> (#[trigger] statuses.entries@[k]).0 == st[k].0 && match (
                    st[k].1,
                    statuses.entries@[k].1,
                ) {
                    (
                        BlockStatus::Active { a_block: x, storage: s },
                        BlockStatus::Active { a_block: y, storage: t },
                    ) => {
                        &&& s == t
                        &&& x.creator_address == y.creator_address
                        &&& x.block_id == y.block_id
                        &&& x.parents == y.parents
                        &&& x.is_final == y.is_final
                        &&& x.slot == y.slot
                        &&& x.fitness == y.fitness
                        &&& x.children@.len() == y.children@.len()
                        &&& forall|t: int|
                            0 <= t < x.children@.len() ==> {
                                &&& (#[trigger] y.children@[t]).wf()
                                &&& forall|c: BlockId|
                                    #![trigger y.children@[t].has(c)]
                                    y.children@[t].has(c) <==> x.children@[t].has(c) || (c == st[i as int].0
                                        && child_in_thread(st, i as int, k, t))
                                &&& child_in_thread(st, i as int, k, t) ==> y.children@[t].value(
                                    st[i as int].0,
                                ) == st[i as int].1->a_block.slot.period
                                &&& forall|c: BlockId|
                                    #![trigger y.children@[t].value(c)]
                                    x.children@[t].has(c) && !(c == st[i as int].0
                                        && child_in_thread(st, i as int, k, t))
                                        ==> y.children@[t].value(c) == x.children@[t].value(c)
                            }
                        &&& ids_distinct(y.descendants@)
                        &&& forall|d: BlockId|
                            #![trigger y.descendants@.contains(d)]
                            y.descendants@.contains(d) <==> x.descendants@.contains(d) || (d
                                == st[i as int].0 && is_ancestor(st, i as int, k))
                    },
                    (BlockStatus::Active { .. }, _) => false,
                    (_, BlockStatus::Active { .. }) => false,
                    (p, q) => p == q,
                },
        decreases n - a,
    {
        let pid = statuses.entries[a].0;
        // whether the block at `a` is a parent of the block at `i`
        let is_parent: bool = match &statuses.entries[i].1 {
            BlockStatus::Active { a_block, .. } => a_block.is_child_of(&pid),
            _ => false,
        };
        proof {
            assert(statuses.entries@[a as int] == st[a as int]);
            if i < a {
                assert(statuses.entries@[i as int].0 == st[i as int].0);
            } else {
                assert(statuses.entries@[i as int] == st[i as int]);
            }
            assert(st[a as int].1 is Active ==> st[a as int].1->a_block.links_wf(thread_count));
            if visited@[a as int] {
                let nn = choose|nn: nat| reaches(st, i as int, a as int, nn);
                lemma_reached_is_active(st, i as int, a as int, nn);
            }
        }
        let is_anc = visited[a];
        match &mut statuses.entries[a].1 {
            BlockStatus::Active { a_block, .. } => {
                let ghost x = *a_block;
                if is_parent {
                    if let Some(slot) = info {
                        let t = slot.thread as usize;
                        a_block.children[t].insert(cid, slot.period);
                    }
                }
                if is_anc {
                    id_list_insert(&mut a_block.descendants, cid);
                }
                proof {
                    let y = *a_block;
                    assert(is_parent <==> (st[i as int].1 is Active && parent_edge(
                        st,
                        i as int,
                        a as int,
                    )));
                    assert forall|d: BlockId|
                        #![trigger y.descendants@.contains(d)]
                        y.descendants@.contains(d) <==> x.descendants@.contains(d) || (d == cid
                            && is_ancestor(st, i as int, a as int)) by {
                        assert(id_set(y.descendants@).contains(d) == y.descendants@.contains(d));
                        assert(id_set(x.descendants@).contains(d) == x.descendants@.contains(d));
                    }
                    assert forall|t: int| 0 <= t < x.children@.len() implies {
                        &&& (#[trigger] y.children@[t]).wf()
                        &&& forall|c: BlockId|
                            #![trigger y.children@[t].has(c)]
                            y.children@[t].has(c) <==> x.children@[t].has(c) || (c == cid
                                && child_in_thread(st, i as int, a as int, t))
                        &&& child_in_thread(st, i as int, a as int, t) ==> y.children@[t].value(cid)
                            == st[i as int].1->a_block.slot.period
                        &&& forall|c: BlockId|
                            #![trigger y.children@[t].value(c)]
                            x.children@[t].has(c) && !(c == cid && child_in_thread(
                                st,
                                i as int,
                                a as int,
                                t,
                            )) ==> y.children@[t].value(c) == x.children@[t].value(c)
                    } by {
                        if is_parent && info.unwrap().thread == t {
                            assert(child_in_thread(st, i as int, a as int, t));
                            assert forall|c: BlockId|
                                #![trigger y.children@[t].has(c)]
                                y.children@[t].has(c) <==> x.children@[t].has(c) || (c == cid
                                    && child_in_thread(st, i as int, a as int, t)) by {
                                if c != cid {
                                    assert(y.children@[t].has(c) == x.children@[t].has(c));
                                }
                            }
                        } else {
                            assert(y.children@[t] == x.children@[t]);
                            assert(!child_in_thread(st, i as int, a as int, t));
                        }
                    }
                }
            },
            _ => {
                proof {
                    assert(!is_ancestor(st, i as int, a as int));
                }
            },
        }
        a += 1;
    }
    proof {
        assert forall|k: int| 0 <= k < n implies (#[trigger] st[k]).0 == statuses.entries@[k].0
            && same_but_links(st[k].1, statuses.entries@[k].1) by {
            assert(statuses.entries@[k].0 == st[k].0);
        }
        lemma_same_blocks(*old(statuses), *statuses);
        assert forall|k: int| 0 <= k < n implies ((#[trigger] statuses.entries@[k]).1 matches BlockStatus::Active {
            a_block,
            ..
        } ==> a_block.links_wf(thread_count)) by {
            assert(statuses.entries@[k].0 == st[k].0);
            assert(st[k].1 is Active ==> st[k].1->a_block.links_wf(thread_count));
        }
    }
}

} // verus!
