//! Which blocks a new block is incompatible with.
//!
//! A new block is incompatible with the blocks that its parents are incompatible
//! with; with the other children of its parent in its own thread, in that thread,
//! and their descendants; and, for each other thread, with the grandchildren in
//! that thread of its parent in that thread whose own parent in the new block's
//! thread is older than the new block's, and their descendants. Only blocks that
//! are active and not final count.

use vstd::prelude::*;
use crate::block_id::BlockId;
use crate::graph::BlockStatus;
use crate::id_map::IdMap;
use crate::id_set::{id_list_insert, id_set, ids_distinct};
use crate::slot::Slot;
use crate::state::{active_block, is_active, is_final, ConsensusState};

verus! {

/// Whether a block is active and not final.
pub open spec fn is_living(statuses: IdMap<BlockStatus>, id: BlockId) -> bool {
    is_active(statuses, id) && !is_final(statuses, id)
}

/// Whether every block of a list is active, not final, and not `id`, and is in the
/// list once.
pub open spec fn all_living_but(statuses: IdMap<BlockStatus>, list: Seq<BlockId>, id: BlockId) -> bool {
    &&& ids_distinct(list)
    &&& !list.contains(id)
    &&& forall|y: BlockId| list.contains(y) ==> is_living(statuses, y)
}

/// Whether `c` is a child, in thread `t`, of the active block `p`.
pub open spec fn is_child_in(statuses: IdMap<BlockStatus>, p: BlockId, t: int, c: BlockId) -> bool {
    &&& is_active(statuses, p)
    &&& 0 <= t < active_block(statuses, p).children@.len()
    &&& active_block(statuses, p).children@[t].has(c)
}

/// Whether `g` is, in thread `t`, a child of a child of `p`.
pub open spec fn is_grandchild_in(statuses: IdMap<BlockStatus>, p: BlockId, t: int, g: BlockId) -> bool {
    exists|c: BlockId| #[trigger] is_child_in(statuses, p, t, c) && is_child_in(statuses, c, t, g)
}

/// Whether the active block `g` has a parent in thread `thread` whose period is
/// below `period`.
pub open spec fn has_older_parent(
    statuses: IdMap<BlockStatus>,
    g: BlockId,
    thread: int,
    period: u64,
) -> bool {
    &&& is_active(statuses, g)
    &&& 0 <= thread < active_block(statuses, g).parents@.len()
    &&& active_block(statuses, g).parents@[thread].1 < period
}

/// Whether `y` is the block `root` or one of its descendants.
pub open spec fn in_branch(statuses: IdMap<BlockStatus>, root: BlockId, y: BlockId) -> bool {
    y == root || (is_active(statuses, root) && active_block(statuses, root).descendants@.contains(
        y,
    ))
}

/// Whether one of `parents` is recorded as incompatible with `y`.
pub open spec fn inherits(gi: IdMap<Vec<BlockId>>, parents: Seq<(BlockId, u64)>, y: BlockId) -> bool {
    exists|k: int|
        0 <= k < parents.len() && gi.has((#[trigger] parents[k]).0) && gi.value(
            parents[k].0,
        )@.contains(y)
}

/// Whether a new block `id` in thread `thread` with the parents `parents` is
/// incompatible with `root` and all that descends from it, `root` being
///
/// - another child, in that thread, of the block's parent in that thread; or
/// - for another thread, a grandchild in that thread of the block's parent in that
///   thread, whose own parent in the block's thread is older than the block's.
pub open spec fn is_rival_root(
    statuses: IdMap<BlockStatus>,
    thread: int,
    parents: Seq<(BlockId, u64)>,
    id: BlockId,
    root: BlockId,
) -> bool {
    &&& 0 <= thread < parents.len()
    &&& root != id
    &&& (is_child_in(statuses, parents[thread].0, thread, root) || (has_older_parent(
        statuses,
        root,
        thread,
        parents[thread].1,
    ) && exists|t: int|
        0 <= t < parents.len() && t != thread && #[trigger] is_grandchild_in(
            statuses,
            parents[t].0,
            t,
            root,
        )))
}

/// Whether a new block `id` in thread `thread` with the parents `parents` is
/// incompatible with the block `y`: `y` is active, not final and not the block
/// itself, and a parent of the block is incompatible with it or it is in the
/// branch of a rival.
pub open spec fn is_incompatible_with_new(
    statuses: IdMap<BlockStatus>,
    gi: IdMap<Vec<BlockId>>,
    thread: int,
    parents: Seq<(BlockId, u64)>,
    id: BlockId,
    y: BlockId,
) -> bool {
    &&& y != id
    &&& is_living(statuses, y)
    &&& (inherits(gi, parents, y) || exists|root: BlockId|
        is_rival_root(statuses, thread, parents, id, root) && #[trigger] in_branch(
            statuses,
            root,
            y,
        ))
}

/// Whether `y` is in the branch of one of the first `n` blocks of `roots`, `id`
/// left out.
pub open spec fn in_branch_of_first(
    statuses: IdMap<BlockStatus>,
    roots: Seq<BlockId>,
    n: int,
    id: BlockId,
    y: BlockId,
) -> bool {
    exists|k: int| 0 <= k < n && roots[k] != id && #[trigger] in_branch(statuses, roots[k], y)
}

/// Whether `g` is a grandchild of `p` in thread `t` through one of the first `n`
/// blocks of `children`.
pub open spec fn is_grandchild_through_first(
    statuses: IdMap<BlockStatus>,
    children: Seq<BlockId>,
    n: int,
    t: int,
    g: BlockId,
) -> bool {
    exists|k: int| 0 <= k < n && #[trigger] is_child_in(statuses, children[k], t, g)
}

/// Whether `y` is in the branch of a grandchild, in one of the first `n` threads
/// but `thread`, of the block's parent in that thread, whose own parent in
/// `thread` is older than the block's.
pub open spec fn in_grandchild_branch_of_first(
    statuses: IdMap<BlockStatus>,
    thread: int,
    parents: Seq<(BlockId, u64)>,
    n: int,
    id: BlockId,
    y: BlockId,
) -> bool {
    exists|t: int, root: BlockId|
        0 <= t < n && t != thread && root != id && has_older_parent(
            statuses,
            root,
            thread,
            parents[thread].1,
        ) && #[trigger] is_grandchild_in(statuses, parents[t].0, t, root) && #[trigger] in_branch(
            statuses,
            root,
            y,
        )
}

impl ConsensusState {
    /// Adds `y` to `out` where it is active, not final, and not `id`.
    fn add_living(&self, out: &mut Vec<BlockId>, y: BlockId, id: &BlockId)
        requires
            self.block_statuses.wf(),
            all_living_but(self.block_statuses, old(out)@, *id),
        ensures
            all_living_but(self.block_statuses, final(out)@, *id),
            forall|z: BlockId|
                #![trigger final(out)@.contains(z)]
                final(out)@.contains(z) <==> old(out)@.contains(z) || (z == y && y != *id
                    && is_living(self.block_statuses, y)),
    {
        let living = match self.block_statuses.get(&y) {
            Some(BlockStatus::Active { a_block, .. }) => !a_block.is_final,
            _ => false,
        };
        if living && y != *id {
            id_list_insert(out, y);
            proof {
                assert forall|z: BlockId|
                    #![trigger final(out)@.contains(z)]
                    final(out)@.contains(z) <==> old(out)@.contains(z) || z == y by {
                    assert(id_set(final(out)@).contains(z) == id_set(old(out)@).insert(y).contains(
                        z,
                    ));
                    assert(id_set(final(out)@).contains(z) == final(out)@.contains(z));
                    assert(id_set(old(out)@).contains(z) == old(out)@.contains(z));
                }
            }
        }
    }

    /// Adds to `out` the block `root` and its descendants, where they are active,
    /// not final, and not `id`.
    fn add_branch(&self, out: &mut Vec<BlockId>, root: BlockId, id: &BlockId)
        requires
            self.block_statuses.wf(),
            all_living_but(self.block_statuses, old(out)@, *id),
        ensures
            all_living_but(self.block_statuses, final(out)@, *id),
            forall|z: BlockId|
                #![trigger final(out)@.contains(z)]
                final(out)@.contains(z) <==> old(out)@.contains(z) || (z != *id && is_living(
                    self.block_statuses,
                    z,
                ) && in_branch(self.block_statuses, root, z)),
    {
        self.add_living(out, root, id);
        match self.block_statuses.get(&root) {
            Some(BlockStatus::Active { a_block, .. }) => {
                let mut i: usize = 0;
                while i < a_block.descendants.len()
                    invariant
                        i <= a_block.descendants@.len(),
                        self.block_statuses.wf(),
                        all_living_but(self.block_statuses, out@, *id),
                        forall|z: BlockId|
                            #![trigger out@.contains(z)]
                            out@.contains(z) <==> old(out)@.contains(z) || (z != *id && is_living(
                                self.block_statuses,
                                z,
                            ) && (z == root || exists|m: int|
                                0 <= m < i && a_block.descendants@[m] == z)),
                    decreases a_block.descendants@.len() - i,
                {
                    let ghost prev = out@;
                    self.add_living(out, a_block.descendants[i], id);
                    proof {
                        let d = a_block.descendants@[i as int];
                        assert forall|z: BlockId|
                            #![trigger out@.contains(z)]
                            out@.contains(z) <==> old(out)@.contains(z) || (z != *id && is_living(
                                self.block_statuses,
                                z,
                            ) && (z == root || exists|m: int|
                                0 <= m < i + 1 && a_block.descendants@[m] == z)) by {
                            if out@.contains(z) && !prev.contains(z) {
                                assert(a_block.descendants@[i as int] == z);
                            }
                            if exists|m: int| 0 <= m < i + 1 && a_block.descendants@[m] == z {
                                let m = choose|m: int|
                                    0 <= m < i + 1 && a_block.descendants@[m] == z;
                                if m < i {
                                    assert(exists|m: int|
                                        0 <= m < i && a_block.descendants@[m] == z);
                                } else {
                                    assert(z == d);
                                }
                            }
                            if exists|m: int| 0 <= m < i && a_block.descendants@[m] == z {
                                let m = choose|m: int| 0 <= m < i && a_block.descendants@[m] == z;
                                assert(0 <= m < i + 1 && a_block.descendants@[m] == z);
                            }
                        }
                    }
                    i += 1;
                }
                proof {
                    assert forall|z: BlockId|
                        a_block.descendants@.contains(z) <==> (exists|m: int|
                            0 <= m < i && a_block.descendants@[m] == z) by {
                        if a_block.descendants@.contains(z) {
                            let m = choose|m: int|
                                0 <= m < a_block.descendants@.len() && a_block.descendants@[m]
                                    == z;
                            assert(0 <= m < i && a_block.descendants@[m] == z);
                        }
                    }
                }
            },
            _ => {},
        }
    }

    /// Adds to `out` the blocks of `roots` but `id`, and their descendants, where
    /// they are active, not final, and not `id`.
    fn add_branches(&self, out: &mut Vec<BlockId>, roots: &Vec<BlockId>, id: &BlockId)
        requires
            self.block_statuses.wf(),
            all_living_but(self.block_statuses, old(out)@, *id),
        ensures
            all_living_but(self.block_statuses, final(out)@, *id),
            forall|z: BlockId|
                #![trigger final(out)@.contains(z)]
                final(out)@.contains(z) <==> old(out)@.contains(z) || (z != *id && is_living(
                    self.block_statuses,
                    z,
                ) && in_branch_of_first(self.block_statuses, roots@, roots@.len() as int, *id, z)),
    {
        let mut i: usize = 0;
        while i < roots.len()
            invariant
                i <= roots@.len(),
                self.block_statuses.wf(),
                all_living_but(self.block_statuses, out@, *id),
                forall|z: BlockId|
                    #![trigger out@.contains(z)]
                    out@.contains(z) <==> old(out)@.contains(z) || (z != *id && is_living(
                        self.block_statuses,
                        z,
                    ) && in_branch_of_first(self.block_statuses, roots@, i as int, *id, z)),
            decreases roots@.len() - i,
        {
            let ghost prev = out@;
            if roots[i] != *id {
                self.add_branch(out, roots[i], id);
            }
            proof {
                let s = self.block_statuses;
                assert forall|z: BlockId|
                    #![trigger out@.contains(z)]
                    out@.contains(z) <==> old(out)@.contains(z) || (z != *id && is_living(s, z)
                        && in_branch_of_first(s, roots@, i + 1, *id, z)) by {
                    if in_branch_of_first(s, roots@, i as int, *id, z) {
                        let k = choose|k: int|
                            0 <= k < i && roots@[k] != *id && #[trigger] in_branch(
                                s,
                                roots@[k],
                                z,
                            );
                        assert(0 <= k < i + 1 && roots@[k] != *id && in_branch(s, roots@[k], z));
                    }
                    if in_branch_of_first(s, roots@, i + 1, *id, z) {
                        let k = choose|k: int|
                            0 <= k < i + 1 && roots@[k] != *id && #[trigger] in_branch(
                                s,
                                roots@[k],
                                z,
                            );
                        if k < i {
                            assert(in_branch_of_first(s, roots@, i as int, *id, z));
                        }
                    }
                    if roots@[i as int] != *id && in_branch(s, roots@[i as int], z) {
                        assert(in_branch_of_first(s, roots@, i + 1, *id, z));
                    }
                }
            }
            i += 1;
        }
    }

    /// The children in thread `t` of the active block `p`.
    fn children_in_thread(&self, p: &BlockId, t: usize) -> (r: Vec<BlockId>)
        requires
            self.block_statuses.wf(),
        ensures
            forall|c: BlockId|
                #![trigger r@.contains(c)]
                #![trigger is_child_in(self.block_statuses, *p, t as int, c)]
                r@.contains(c) <==> is_child_in(self.block_statuses, *p, t as int, c),
    {
        let mut out: Vec<BlockId> = Vec::new();
        match self.block_statuses.get(p) {
            Some(BlockStatus::Active { a_block, .. }) => {
                if t < a_block.children.len() {
                    let map = &a_block.children[t];
                    let mut i: usize = 0;
                    while i < map.entries.len()
                        invariant
                            i <= map.entries@.len(),
                            out@.len() == i,
                            forall|j: int| 0 <= j < i ==> out@[j] == map.entries@[j].0,
                        decreases map.entries@.len() - i,
                    {
                        out.push(map.entries[i].0);
                        i += 1;
                    }
                    proof {
                        assert forall|c: BlockId| out@.contains(c) <==> map.has(c) by {
                            if out@.contains(c) {
                                let j = choose|j: int| 0 <= j < out@.len() && out@[j] == c;
                                assert(map.entries@[j].0 == c);
                            }
                            if map.has(c) {
                                let j = choose|j: int|
                                    0 <= j < map.entries@.len() && map.entries@[j].0 == c;
                                assert(out@[j] == c);
                            }
                        }
                    }
                }
            },
            _ => {},
        }
        out
    }

    /// Whether the active block `g` has a parent in thread `thread` whose period is
    /// below `period`.
    fn older_parent(&self, g: &BlockId, thread: usize, period: u64) -> (r: bool)
        requires
            self.block_statuses.wf(),
        ensures
            r == has_older_parent(self.block_statuses, *g, thread as int, period),
    {
        match self.block_statuses.get(g) {
            Some(BlockStatus::Active { a_block, .. }) => {
                thread < a_block.parents.len() && a_block.parents[thread].1 < period
            },
            _ => false,
        }
    }

    /// The grandchildren in thread `t` of the block `p` whose parent in thread
    /// `thread` has a period below `period`.
    fn older_grandchildren(&self, p: &BlockId, t: usize, thread: usize, period: u64) -> (r: Vec<
        BlockId,
    >)
        requires
            self.block_statuses.wf(),
        ensures
            forall|g: BlockId|
                #![trigger r@.contains(g)]
                r@.contains(g) <==> has_older_parent(
                    self.block_statuses,
                    g,
                    thread as int,
                    period,
                ) && is_grandchild_in(self.block_statuses, *p, t as int, g),
    {
        let ghost s = self.block_statuses;
        let mut out: Vec<BlockId> = Vec::new();
        let children = self.children_in_thread(p, t);
        let mut a: usize = 0;
        while a < children.len()
            invariant
                a <= children@.len(),
                s == self.block_statuses,
                s.wf(),
                forall|g: BlockId|
                    #![trigger out@.contains(g)]
                    out@.contains(g) <==> has_older_parent(s, g, thread as int, period)
                        && is_grandchild_through_first(s, children@, a as int, t as int, g),
            decreases children@.len() - a,
        {
            let ghost start = out@;
            let grandchildren = self.children_in_thread(&children[a], t);
            let mut b: usize = 0;
            while b < grandchildren.len()
                invariant
                    b <= grandchildren@.len(),
                    s == self.block_statuses,
                    s.wf(),
                    forall|g: BlockId|
                        #![trigger out@.contains(g)]
                        out@.contains(g) <==> start.contains(g) || (has_older_parent(
                            s,
                            g,
                            thread as int,
                            period,
                        ) && exists|m: int| 0 <= m < b && grandchildren@[m] == g),
                decreases grandchildren@.len() - b,
            {
                let g = grandchildren[b];
                let ghost prev = out@;
                if self.older_parent(&g, thread, period) {
                    id_list_insert(&mut out, g);
                    proof {
                        assert forall|z: BlockId|
                            #![trigger out@.contains(z)]
                            out@.contains(z) <==> prev.contains(z) || z == g by {
                            assert(id_set(out@).contains(z) == id_set(prev).insert(g).contains(z));
                            assert(id_set(out@).contains(z) == out@.contains(z));
                            assert(id_set(prev).contains(z) == prev.contains(z));
                        }
                    }
                }
                proof {
                    assert forall|z: BlockId|
                        #![trigger out@.contains(z)]
                        out@.contains(z) <==> start.contains(z) || (has_older_parent(
                            s,
                            z,
                            thread as int,
                            period,
                        ) && exists|m: int| 0 <= m < b + 1 && grandchildren@[m] == z) by {
                        if prev.contains(z) {
                            assert(start.contains(z) || (has_older_parent(
                                s,
                                z,
                                thread as int,
                                period,
                            ) && exists|m: int| 0 <= m < b && grandchildren@[m] == z));
                        }
                        if exists|m: int| 0 <= m < b && grandchildren@[m] == z {
                            let m = choose|m: int| 0 <= m < b && grandchildren@[m] == z;
                            assert(0 <= m < b + 1 && grandchildren@[m] == z);
                        }
                        if exists|m: int| 0 <= m < b + 1 && grandchildren@[m] == z {
                            let m = choose|m: int| 0 <= m < b + 1 && grandchildren@[m] == z;
                            if m < b {
                                assert(exists|m: int| 0 <= m < b && grandchildren@[m] == z);
                            } else {
                                assert(z == g);
                            }
                        }
                        if z == g {
                            assert(grandchildren@[b as int] == z);
                        }
                    }
                }
                b += 1;
            }
            proof {
                let c = children@[a as int];
                assert forall|z: BlockId|
                    #![trigger out@.contains(z)]
                    out@.contains(z) <==> has_older_parent(s, z, thread as int, period)
                        && is_grandchild_through_first(s, children@, a + 1, t as int, z) by {
                    if grandchildren@.contains(z) {
                        let m = choose|m: int|
                            0 <= m < grandchildren@.len() && grandchildren@[m] == z;
                        assert(0 <= m < b && grandchildren@[m] == z);
                    }
                    if exists|m: int| 0 <= m < b && grandchildren@[m] == z {
                        let m = choose|m: int| 0 <= m < b && grandchildren@[m] == z;
                        assert(grandchildren@.contains(z));
                    }
                    if is_grandchild_through_first(s, children@, a as int, t as int, z) {
                        let k = choose|k: int|
                            0 <= k < a && #[trigger] is_child_in(s, children@[k], t as int, z);
                        assert(0 <= k < a + 1 && is_child_in(s, children@[k], t as int, z));
                    }
                    if is_grandchild_through_first(s, children@, a + 1, t as int, z) {
                        let k = choose|k: int|
                            0 <= k < a + 1 && #[trigger] is_child_in(s, children@[k], t as int, z);
                        if k < a {
                            assert(is_grandchild_through_first(s, children@, a as int, t as int, z));
                        } else {
                            assert(is_child_in(s, c, t as int, z));
                        }
                    }
                    if is_child_in(s, c, t as int, z) {
                        assert(is_grandchild_through_first(s, children@, a + 1, t as int, z));
                    }
                }
            }
            a += 1;
        }
        proof {
            assert forall|g: BlockId|
                is_grandchild_through_first(s, children@, children@.len() as int, t as int, g)
                    <==> is_grandchild_in(s, *p, t as int, g) by {
                if is_grandchild_through_first(s, children@, children@.len() as int, t as int, g) {
                    let k = choose|k: int|
                        0 <= k < children@.len() && #[trigger] is_child_in(
                            s,
                            children@[k],
                            t as int,
                            g,
                        );
                    assert(children@.contains(children@[k]));
                    assert(is_child_in(s, *p, t as int, children@[k]));
                }
                if is_grandchild_in(s, *p, t as int, g) {
                    let c = choose|c: BlockId| #[trigger]
                        is_child_in(s, *p, t as int, c) && is_child_in(s, c, t as int, g);
                    assert(children@.contains(c));
                    let k = choose|k: int| 0 <= k < children@.len() && children@[k] == c;
                    assert(is_child_in(s, children@[k], t as int, g));
                }
            }
        }
        out
    }

    /// Adds to `out` the blocks that the blocks of `parents` are recorded as
    /// incompatible with, but `id`.
    fn add_inherited(&self, out: &mut Vec<BlockId>, parents: &Vec<(BlockId, u64)>, id: &BlockId)
        requires
            self.wf(),
            all_living_but(self.block_statuses, old(out)@, *id),
        ensures
            all_living_but(self.block_statuses, final(out)@, *id),
            forall|z: BlockId|
                #![trigger final(out)@.contains(z)]
                final(out)@.contains(z) <==> old(out)@.contains(z) || (z != *id && inherits(
                    self.gi_head,
                    parents@,
                    z,
                )),
    {
        let mut k: usize = 0;
        while k < parents.len()
            invariant
                k <= parents@.len(),
                self.wf(),
                all_living_but(self.block_statuses, out@, *id),
                forall|z: BlockId|
                    #![trigger out@.contains(z)]
                    out@.contains(z) <==> old(out)@.contains(z) || (z != *id && inherits(
                        self.gi_head,
                        parents@.subrange(0, k as int),
                        z,
                    )),
            decreases parents@.len() - k,
        {
            let ghost start = out@;
            let ghost p = parents@[k as int].0;
            let ghost listed: Seq<BlockId> = if self.gi_head.has(p) {
                self.gi_head.value(p)@
            } else {
                Seq::empty()
            };
            match self.gi_head.get(&parents[k].0) {
                Some(list) => {
                    let mut i: usize = 0;
                    while i < list.len()
                        invariant
                            i <= list@.len(),
                            self.wf(),
                            list@ == listed,
                            self.gi_head.has(p),
                            self.gi_head.value(p)@ == listed,
                            all_living_but(self.block_statuses, out@, *id),
                            forall|z: BlockId|
                                #![trigger out@.contains(z)]
                                out@.contains(z) <==> start.contains(z) || (z != *id && exists|
                                    m: int,
                                | 0 <= m < i && listed[m] == z),
                        decreases list@.len() - i,
                    {
                        let ghost prev = out@;
                        proof {
                            assert(self.gi_head.value(p)@.contains(listed[i as int]));
                            assert(is_living(self.block_statuses, listed[i as int]));
                        }
                        self.add_living(out, list[i], id);
                        proof {
                            assert forall|z: BlockId|
                                #![trigger out@.contains(z)]
                                out@.contains(z) <==> start.contains(z) || (z != *id && exists|
                                    m: int,
                                | 0 <= m < i + 1 && listed[m] == z) by {
                                if exists|m: int| 0 <= m < i && listed[m] == z {
                                    let m = choose|m: int| 0 <= m < i && listed[m] == z;
                                    assert(0 <= m < i + 1 && listed[m] == z);
                                }
                                if exists|m: int| 0 <= m < i + 1 && listed[m] == z {
                                    let m = choose|m: int| 0 <= m < i + 1 && listed[m] == z;
                                    if m < i {
                                        assert(exists|m: int| 0 <= m < i && listed[m] == z);
                                    }
                                }
                                if z == listed[i as int] {
                                    assert(0 <= i < i + 1 && listed[i as int] == z);
                                }
                            }
                        }
                        i += 1;
                    }
                },
                None => {},
            }
            proof {
                let before = parents@.subrange(0, k as int);
                let after = parents@.subrange(0, k + 1);
                assert forall|z: BlockId|
                    #![trigger out@.contains(z)]
                    out@.contains(z) <==> old(out)@.contains(z) || (z != *id && inherits(
                        self.gi_head,
                        after,
                        z,
                    )) by {
                    if inherits(self.gi_head, before, z) {
                        let j = choose|j: int|
                            0 <= j < before.len() && self.gi_head.has((#[trigger] before[j]).0)
                                && self.gi_head.value(before[j].0)@.contains(z);
                        assert(after[j] == before[j]);
                    }
                    if inherits(self.gi_head, after, z) {
                        let j = choose|j: int|
                            0 <= j < after.len() && self.gi_head.has((#[trigger] after[j]).0)
                                && self.gi_head.value(after[j].0)@.contains(z);
                        if j < k {
                            assert(before[j] == after[j]);
                            assert(inherits(self.gi_head, before, z));
                        } else {
                            assert(after[j].0 == p);
                            let m = choose|m: int| 0 <= m < listed.len() && listed[m] == z;
                            assert(0 <= m < listed.len() && listed[m] == z);
                        }
                    }
                    if self.gi_head.has(p) && (exists|m: int|
                        0 <= m < listed.len() && listed[m] == z) {
                        assert(after[k as int].0 == p);
                        assert(listed.contains(z));
                        assert(inherits(self.gi_head, after, z));
                    }
                }
            }
            k += 1;
        }
        proof {
            assert(parents@.subrange(0, parents@.len() as int) =~= parents@);
        }
    }

    /// The blocks that a new block `id` at `slot` with the parents `parents` is
    /// incompatible with, each once.
    pub fn compute_incompatibles(
        &self,
        id: &BlockId,
        slot: Slot,
        parents: &Vec<(BlockId, u64)>,
    ) -> (r: Vec<BlockId>)
        requires
            self.wf(),
        ensures
            all_living_but(self.block_statuses, r@, *id),
            forall|y: BlockId|
                #![trigger r@.contains(y)]
                r@.contains(y) <==> is_incompatible_with_new(
                    self.block_statuses,
                    self.gi_head,
                    slot.thread as int,
                    parents@,
                    *id,
                    y,
                ),
    {
        let ghost s = self.block_statuses;
        let ghost gi = self.gi_head;
        let ghost th = slot.thread as int;
        let mut out: Vec<BlockId> = Vec::new();
        let thread = slot.thread as usize;
        self.add_inherited(&mut out, parents, id);
        if thread < parents.len() {
            let own_parent_period = parents[thread].1;
            let siblings = self.children_in_thread(&parents[thread].0, thread);
            self.add_branches(&mut out, &siblings, id);
            let ghost base = out@;
            let mut t: usize = 0;
            while t < parents.len()
                invariant
                    t <= parents@.len(),
                    self.wf(),
                    s == self.block_statuses,
                    th == thread,
                    thread < parents@.len(),
                    own_parent_period == parents@[th].1,
                    all_living_but(s, out@, *id),
                    forall|z: BlockId|
                        #![trigger out@.contains(z)]
                        out@.contains(z) <==> base.contains(z) || (z != *id && is_living(s, z)
                            && in_grandchild_branch_of_first(s, th, parents@, t as int, *id, z)),
                decreases parents@.len() - t,
            {
                let ghost prev = out@;
                let ghost roots_now: Seq<BlockId> = Seq::empty();
                if t != thread {
                    let roots = self.older_grandchildren(
                        &parents[t].0,
                        t,
                        thread,
                        own_parent_period,
                    );
                    self.add_branches(&mut out, &roots, id);
                    proof {
                        assert forall|z: BlockId|
                            #![trigger out@.contains(z)]
                            out@.contains(z) <==> base.contains(z) || (z != *id && is_living(s, z)
                                && in_grandchild_branch_of_first(
                                s,
                                th,
                                parents@,
                                t + 1,
                                *id,
                                z,
                            )) by {
                            if in_branch_of_first(s, roots@, roots@.len() as int, *id, z) {
                                let k = choose|k: int|
                                    0 <= k < roots@.len() && roots@[k] != *id
                                        && #[trigger] in_branch(s, roots@[k], z);
                                assert(roots@.contains(roots@[k]));
                                assert(is_grandchild_in(s, parents@[t as int].0, t as int, roots@[k]));
                                assert(in_grandchild_branch_of_first(
                                    s,
                                    th,
                                    parents@,
                                    t + 1,
                                    *id,
                                    z,
                                ));
                            }
                            if in_grandchild_branch_of_first(s, th, parents@, t as int, *id, z) {
                                let (t0, root) = choose|t0: int, root: BlockId|
                                    0 <= t0 < t && t0 != th && root != *id && has_older_parent(
                                        s,
                                        root,
                                        th,
                                        parents@[th].1,
                                    ) && #[trigger] is_grandchild_in(s, parents@[t0].0, t0, root)
                                        && #[trigger] in_branch(s, root, z);
                                assert(is_grandchild_in(s, parents@[t0].0, t0, root) && in_branch(
                                    s,
                                    root,
                                    z,
                                ));
                                assert(in_grandchild_branch_of_first(
                                    s,
                                    th,
                                    parents@,
                                    t + 1,
                                    *id,
                                    z,
                                ));
                            }
                            if in_grandchild_branch_of_first(s, th, parents@, t + 1, *id, z) {
                                let (t0, root) = choose|t0: int, root: BlockId|
                                    0 <= t0 < t + 1 && t0 != th && root != *id && has_older_parent(
                                        s,
                                        root,
                                        th,
                                        parents@[th].1,
                                    ) && #[trigger] is_grandchild_in(s, parents@[t0].0, t0, root)
                                        && #[trigger] in_branch(s, root, z);
                                if t0 < t {
                                    assert(is_grandchild_in(s, parents@[t0].0, t0, root)
                                        && in_branch(s, root, z));
                                    assert(in_grandchild_branch_of_first(
                                        s,
                                        th,
                                        parents@,
                                        t as int,
                                        *id,
                                        z,
                                    ));
                                } else {
                                    assert(roots@.contains(root));
                                    let k = choose|k: int|
                                        0 <= k < roots@.len() && roots@[k] == root;
                                    assert(in_branch(s, roots@[k], z));
                                    assert(in_branch_of_first(
                                        s,
                                        roots@,
                                        roots@.len() as int,
                                        *id,
                                        z,
                                    ));
                                }
                            }
                        }
                    }
                } else {
                    proof {
                        assert forall|z: BlockId|
                            in_grandchild_branch_of_first(s, th, parents@, t as int, *id, z)
                                <==> in_grandchild_branch_of_first(
                                s,
                                th,
                                parents@,
                                t + 1,
                                *id,
                                z,
                            ) by {
                            if in_grandchild_branch_of_first(s, th, parents@, t as int, *id, z) {
                                let (t0, root) = choose|t0: int, root: BlockId|
                                    0 <= t0 < t && t0 != th && root != *id && has_older_parent(
                                        s,
                                        root,
                                        th,
                                        parents@[th].1,
                                    ) && #[trigger] is_grandchild_in(s, parents@[t0].0, t0, root)
                                        && #[trigger] in_branch(s, root, z);
                                assert(is_grandchild_in(s, parents@[t0].0, t0, root) && in_branch(
                                    s,
                                    root,
                                    z,
                                ));
                            }
                            if in_grandchild_branch_of_first(s, th, parents@, t + 1, *id, z) {
                                let (t0, root) = choose|t0: int, root: BlockId|
                                    0 <= t0 < t + 1 && t0 != th && root != *id && has_older_parent(
                                        s,
                                        root,
                                        th,
                                        parents@[th].1,
                                    ) && #[trigger] is_grandchild_in(s, parents@[t0].0, t0, root)
                                        && #[trigger] in_branch(s, root, z);
                                assert(is_grandchild_in(s, parents@[t0].0, t0, root) && in_branch(
                                    s,
                                    root,
                                    z,
                                ));
                            }
                        }
                    }
                }
                t += 1;
            }
            proof {
                assert forall|y: BlockId|
                    #![trigger out@.contains(y)]
                    out@.contains(y) <==> is_incompatible_with_new(s, gi, th, parents@, *id, y) by {
                    lemma_incompatible_with_new(s, gi, th, parents@, *id, y, siblings@);
                }
            }
        } else {
            proof {
                assert forall|y: BlockId|
                    #![trigger out@.contains(y)]
                    out@.contains(y) <==> is_incompatible_with_new(s, gi, th, parents@, *id, y) by {
                    if inherits(gi, parents@, y) {
                        let k = choose|k: int|
                            0 <= k < parents@.len() && gi.has((#[trigger] parents@[k]).0)
                                && gi.value(parents@[k].0)@.contains(y);
                        assert(is_living(s, y));
                    }
                }
            }
        }
        out
    }
}

/// The two ways of saying what a new block is incompatible with agree: `siblings`
/// being the children in the block's thread of its parent in that thread.
proof fn lemma_incompatible_with_new(
    s: IdMap<BlockStatus>,
    gi: IdMap<Vec<BlockId>>,
    th: int,
    parents: Seq<(BlockId, u64)>,
    id: BlockId,
    y: BlockId,
    siblings: Seq<BlockId>,
)
    requires
        0 <= th < parents.len(),
        forall|c: BlockId|
            #![trigger siblings.contains(c)]
            #![trigger is_child_in(s, parents[th].0, th, c)]
            siblings.contains(c) <==> is_child_in(s, parents[th].0, th, c),
        forall|a: BlockId, b: BlockId|
            gi.has(a) && #[trigger] gi.value(a)@.contains(b) ==> is_living(s, b),
    ensures
        is_incompatible_with_new(s, gi, th, parents, id, y) <==> y != id && is_living(s, y) && (
        inherits(gi, parents, y) || in_branch_of_first(s, siblings, siblings.len() as int, id, y)
            || in_grandchild_branch_of_first(s, th, parents, parents.len() as int, id, y)),
{
    if in_branch_of_first(s, siblings, siblings.len() as int, id, y) {
        let k = choose|k: int|
            0 <= k < siblings.len() && siblings[k] != id && #[trigger] in_branch(s, siblings[k], y);
        assert(siblings.contains(siblings[k]));
        assert(is_rival_root(s, th, parents, id, siblings[k]));
    }
    if in_grandchild_branch_of_first(s, th, parents, parents.len() as int, id, y) {
        let (t0, root) = choose|t0: int, root: BlockId|
            0 <= t0 < parents.len() && t0 != th && root != id && has_older_parent(
                s,
                root,
                th,
                parents[th].1,
            ) && #[trigger] is_grandchild_in(s, parents[t0].0, t0, root) && #[trigger] in_branch(
                s,
                root,
                y,
            );
        assert(is_grandchild_in(s, parents[t0].0, t0, root));
        assert(is_rival_root(s, th, parents, id, root));
        assert(in_branch(s, root, y));
    }
    if exists|root: BlockId|
        is_rival_root(s, th, parents, id, root) && #[trigger] in_branch(s, root, y) {
        let root = choose|root: BlockId|
            is_rival_root(s, th, parents, id, root) && #[trigger] in_branch(s, root, y);
        if is_child_in(s, parents[th].0, th, root) {
            assert(siblings.contains(root));
            let k = choose|k: int| 0 <= k < siblings.len() && siblings[k] == root;
            assert(in_branch(s, siblings[k], y));
            assert(in_branch_of_first(s, siblings, siblings.len() as int, id, y));
        } else {
            let t0 = choose|t0: int|
                0 <= t0 < parents.len() && t0 != th && #[trigger] is_grandchild_in(
                    s,
                    parents[t0].0,
                    t0,
                    root,
                );
            assert(is_grandchild_in(s, parents[t0].0, t0, root) && in_branch(s, root, y));
            assert(in_grandchild_branch_of_first(s, th, parents, parents.len() as int, id, y));
        }
    }
}

} // verus!
