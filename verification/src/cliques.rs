//! The cliques of a graph: how they change when a block enters, and which of them
//! is the blockclique.

use vstd::prelude::*;
use crate::block_id::BlockId;
use crate::bytes::lex_lt;
use crate::graph::{one_blockclique, BlockStatus, Clique};
use crate::id_map::IdMap;
use crate::id_set::{
    id_list_clone,
    id_list_contains,
    id_list_is_subset,
    id_lists_intersect,
    id_set,
    ids_distinct,
    lemma_id_set_push,
};
use crate::state::{is_active, is_final, GraphError};

verus! {

/// Whether no list is, as a set, part of another list.
pub open spec fn is_antichain(sets: Seq<Vec<BlockId>>) -> bool {
    forall|i: int, j: int|
        0 <= i < sets.len() && 0 <= j < sets.len() && i != j ==> !id_set(
            #[trigger] sets[i]@,
        ).subset_of(id_set(#[trigger] sets[j]@))
}

/// Whether each list holds each identifier once.
pub open spec fn all_distinct(sets: Seq<Vec<BlockId>>) -> bool {
    forall|i: int| 0 <= i < sets.len() ==> ids_distinct(#[trigger] sets[i]@)
}

/// Whether a set is part of one of the lists.
pub open spec fn is_covered(s: Set<BlockId>, sets: Seq<Vec<BlockId>>) -> bool {
    exists|i: int| 0 <= i < sets.len() && s.subset_of(id_set(#[trigger] sets[i]@))
}

/// Whether one of the lists is, as a set, the set `s`.
pub open spec fn is_among(s: Set<BlockId>, sets: Seq<Vec<BlockId>>) -> bool {
    exists|i: int| 0 <= i < sets.len() && id_set(#[trigger] sets[i]@) == s
}

/// What a clique `k` becomes with a block `new` that is incompatible with the
/// blocks of `incomp`: the blocks of `k` that are compatible with it, and `new`.
pub open spec fn clique_with(k: Set<BlockId>, incomp: Set<BlockId>, new: BlockId) -> Set<BlockId> {
    k.difference(incomp).insert(new)
}

/// Takes a set in a list of sets of which none is part of another: nothing changes
/// where the set is part of one of them; else the sets that are part of it leave
/// and it enters.
pub fn absorb(kept: &mut Vec<Vec<BlockId>>, c: Vec<BlockId>)
    requires
        is_antichain(old(kept)@),
        all_distinct(old(kept)@),
        ids_distinct(c@),
    ensures
        is_antichain(final(kept)@),
        all_distinct(final(kept)@),
        final(kept)@.len() >= 1,
        is_covered(id_set(c@), final(kept)@),
        forall|s: Set<BlockId>| is_covered(s, old(kept)@) ==> is_covered(s, final(kept)@),
        forall|i: int|
            0 <= i < final(kept)@.len() ==> id_set((#[trigger] final(kept)@[i])@) == id_set(c@)
                || is_among(id_set(final(kept)@[i]@), old(kept)@),
        is_covered(id_set(c@), old(kept)@) ==> final(kept)@ == old(kept)@,
        !is_covered(id_set(c@), old(kept)@) ==> is_among(id_set(c@), final(kept)@),
{
    let n = kept.len();
    let mut i: usize = 0;
    while i < n
        invariant
            i <= n,
            n == kept@.len(),
            kept@ == old(kept)@,
            is_antichain(kept@),
            all_distinct(kept@),
            forall|j: int| 0 <= j < i ==> !id_set(c@).subset_of(id_set(#[trigger] kept@[j]@)),
        decreases n - i,
    {
        if id_list_is_subset(&c, &kept[i]) {
            proof {
                assert(is_covered(id_set(c@), kept@));
                assert forall|k: int| 0 <= k < kept@.len() implies id_set(
                    (#[trigger] kept@[k])@,
                ) == id_set(c@) || is_among(id_set(kept@[k]@), old(kept)@) by {
                    assert(id_set(old(kept)@[k]@) == id_set(kept@[k]@));
                }
            }
            return ;
        }
        i += 1;
    }
    proof {
        assert(!is_covered(id_set(c@), old(kept)@));
    }
    // keep the sets that are not part of `c`
    let mut out: Vec<Vec<BlockId>> = Vec::new();
    let ghost mut origins: Seq<int> = Seq::empty();
    let mut j: usize = 0;
    while j < n
        invariant
            j <= n,
            n == kept@.len(),
            kept@ == old(kept)@,
            is_antichain(kept@),
            all_distinct(kept@),
            origins.len() == out@.len(),
            forall|k: int|
                0 <= k < out@.len() ==> 0 <= #[trigger] origins[k] < j && out@[k]@
                    == kept@[origins[k]]@ && !id_set(kept@[origins[k]]@).subset_of(id_set(c@)),
            forall|a: int, b: int| 0 <= a < b < out@.len() ==> origins[a] < origins[b],
            forall|m: int|
                0 <= m < j && !id_set((#[trigger] kept@[m])@).subset_of(id_set(c@)) ==> exists|
                    k: int,
                | 0 <= k < out@.len() && origins[k] == m,
        decreases n - j,
    {
        let ghost before = out@;
        let ghost origins_before = origins;
        if !id_list_is_subset(&kept[j], &c) {
            let copy = id_list_clone(&kept[j]);
            out.push(copy);
            proof {
                origins = origins.push(j as int);
                assert forall|m: int|
                    0 <= m < j + 1 && !id_set((#[trigger] kept@[m])@).subset_of(
                        id_set(c@),
                    ) implies exists|k: int| 0 <= k < out@.len() && origins[k] == m by {
                    if m < j {
                        let k = choose|k: int| 0 <= k < before.len() && origins_before[k] == m;
                        assert(origins[k] == m);
                    } else {
                        assert(origins[before.len() as int] == m);
                    }
                }
            }
        }
        j += 1;
    }
    let ghost filtered = out@;
    out.push(c);
    proof {
        let last = filtered.len() as int;
        assert forall|k: int| 0 <= k < out@.len() implies ids_distinct(#[trigger] out@[k]@) by {
            if k < last {
                assert(ids_distinct(kept@[origins[k]]@));
            }
        }
        assert forall|a: int, b: int|
            0 <= a < out@.len() && 0 <= b < out@.len() && a != b implies !id_set(
            #[trigger] out@[a]@,
        ).subset_of(id_set(#[trigger] out@[b]@)) by {
            if a == last {
                assert(!id_set(c@).subset_of(id_set(kept@[origins[b]]@)));
            } else if b == last {
                assert(!id_set(kept@[origins[a]]@).subset_of(id_set(c@)));
            } else {
                assert(origins[a] != origins[b]) by {
                    if a < b {
                        assert(origins[a] < origins[b]);
                    } else {
                        assert(origins[b] < origins[a]);
                    }
                }
                assert(!id_set(kept@[origins[a]]@).subset_of(id_set(kept@[origins[b]]@)));
            }
        }
        assert(is_covered(id_set(c@), out@)) by {
            assert(id_set(c@).subset_of(id_set(out@[last]@)));
        }
        assert(is_among(id_set(c@), out@)) by {
            assert(id_set(out@[last]@) == id_set(c@));
        }
        assert forall|s: Set<BlockId>| is_covered(s, old(kept)@) implies is_covered(s, out@) by {
            let m = choose|m: int| 0 <= m < n && s.subset_of(id_set(#[trigger] kept@[m]@));
            if id_set(kept@[m]@).subset_of(id_set(c@)) {
                assert(s.subset_of(id_set(out@[last]@)));
            } else {
                let k = choose|k: int| 0 <= k < filtered.len() && origins[k] == m;
                assert(s.subset_of(id_set(out@[k]@)));
            }
        }
        assert forall|k: int| 0 <= k < out@.len() implies id_set((#[trigger] out@[k])@) == id_set(
            c@,
        ) || is_among(id_set(out@[k]@), old(kept)@) by {
            if k < last {
                assert(id_set(kept@[origins[k]]@) == id_set(out@[k]@));
            }
        }
    }
    *kept = out;
}

/// Whether two sets have an element in common.
pub open spec fn sets_meet(a: Set<BlockId>, b: Set<BlockId>) -> bool {
    exists|id: BlockId| a.contains(id) && b.contains(id)
}

/// Whether a set is what one of the cliques becomes when the block `new` enters, or
/// is one of the cliques that hold a block of `incomp`, which stay beside what they
/// become.
pub open spec fn is_candidate(
    s: Set<BlockId>,
    cliques: Seq<Clique>,
    incomp: Set<BlockId>,
    new: BlockId,
) -> bool {
    exists|k: int|
        0 <= k < cliques.len() && (s == clique_with(
            id_set(#[trigger] cliques[k].block_ids@),
            incomp,
            new,
        ) || (s == id_set(cliques[k].block_ids@) && sets_meet(
            id_set(cliques[k].block_ids@),
            incomp,
        )))
}

/// The blocks of `k` that are not in `incomp`, and `new`.
fn clique_with_new(k: &Vec<BlockId>, incomp: &Vec<BlockId>, new: BlockId) -> (r: Vec<BlockId>)
    requires
        ids_distinct(k@),
        !k@.contains(new),
    ensures
        ids_distinct(r@),
        id_set(r@) == clique_with(id_set(k@), id_set(incomp@), new),
{
    let mut out: Vec<BlockId> = Vec::new();
    let mut i: usize = 0;
    while i < k.len()
        invariant
            i <= k@.len(),
            ids_distinct(k@),
            ids_distinct(out@),
            forall|id: BlockId|
                out@.contains(id) <==> !incomp@.contains(id) && exists|j: int|
                    0 <= j < i && k@[j] == id,
        decreases k@.len() - i,
    {
        let ghost before = out@;
        if !id_list_contains(incomp, &k[i]) {
            out.push(k[i]);
            proof {
                lemma_id_set_push(before, k@[i as int]);
                assert forall|a: int, b: int| 0 <= a < b < out@.len() implies out@[a]
                    != out@[b] by {
                    if b == before.len() {
                        assert(before.contains(out@[a]));
                        let j = choose|j: int| 0 <= j < i && k@[j] == out@[a];
                    }
                }
            }
        }
        proof {
            assert forall|id: BlockId|
                out@.contains(id) <==> !incomp@.contains(id) && exists|j: int|
                    0 <= j < i + 1 && k@[j] == id by {
                assert(id_set(out@).contains(id) == out@.contains(id));
                assert(id_set(before).contains(id) == before.contains(id));
                if before.contains(id) {
                    let j = choose|j: int| 0 <= j < i && k@[j] == id;
                    assert(0 <= j < i + 1);
                }
                if !incomp@.contains(id) && exists|j: int| 0 <= j < i + 1 && k@[j] == id {
                    let j = choose|j: int| 0 <= j < i + 1 && k@[j] == id;
                    if j < i {
                        assert(before.contains(id));
                    }
                }
            }
        }
        i += 1;
    }
    let ghost kept = out@;
    out.push(new);
    proof {
        lemma_id_set_push(kept, new);
        assert forall|id: BlockId|
            id_set(kept).contains(id) == id_set(k@).difference(id_set(incomp@)).contains(id) by {
            if k@.contains(id) {
                let j = choose|j: int| 0 <= j < k@.len() && k@[j] == id;
            }
        }
        assert(id_set(kept) =~= id_set(k@).difference(id_set(incomp@)));
        assert(!kept.contains(new));
    }
    out
}

/// The cliques of a graph once the block `new`, which is incompatible with the
/// blocks of `incomp`, has entered: each clique gets `new` in place of its blocks
/// that are in `incomp`; a clique that holds such blocks also stays as it is; and
/// of the sets so made, those that are part of another are dropped.
pub fn plan_cliques(cliques: &Vec<Clique>, new: BlockId, incomp: &Vec<BlockId>) -> (r: Vec<
    Vec<BlockId>,
>)
    requires
        cliques@.len() >= 1,
        forall|k: int|
            0 <= k < cliques@.len() ==> ids_distinct((#[trigger] cliques@[k]).block_ids@)
                && !cliques@[k].block_ids@.contains(new),
    ensures
        r@.len() >= 1,
        is_antichain(r@),
        all_distinct(r@),
        forall|i: int|
            0 <= i < r@.len() ==> is_candidate(
                id_set((#[trigger] r@[i])@),
                cliques@,
                id_set(incomp@),
                new,
            ),
        forall|k: int|
            0 <= k < cliques@.len() ==> is_covered(
                clique_with(id_set((#[trigger] cliques@[k]).block_ids@), id_set(incomp@), new),
                r@,
            ) && (sets_meet(id_set(cliques@[k].block_ids@), id_set(incomp@)) ==> is_covered(
                id_set(cliques@[k].block_ids@),
                r@,
            )),
{
    let mut kept: Vec<Vec<BlockId>> = Vec::new();
    let n = cliques.len();
    let mut k: usize = 0;
    while k < n
        invariant
            k <= n,
            n == cliques@.len(),
            n >= 1,
            k > 0 ==> kept@.len() >= 1,
            is_antichain(kept@),
            all_distinct(kept@),
            forall|m: int|
                0 <= m < cliques@.len() ==> ids_distinct((#[trigger] cliques@[m]).block_ids@)
                    && !cliques@[m].block_ids@.contains(new),
            forall|i: int|
                0 <= i < kept@.len() ==> is_candidate(
                    id_set((#[trigger] kept@[i])@),
                    cliques@,
                    id_set(incomp@),
                    new,
                ),
            forall|m: int|
                0 <= m < k ==> is_covered(
                    clique_with(id_set((#[trigger] cliques@[m]).block_ids@), id_set(incomp@), new),
                    kept@,
                ) && (sets_meet(id_set(cliques@[m].block_ids@), id_set(incomp@)) ==> is_covered(
                    id_set(cliques@[m].block_ids@),
                    kept@,
                )),
        decreases n - k,
    {
        let members = &cliques[k].block_ids;
        let ghost s_with = clique_with(id_set(members@), id_set(incomp@), new);
        let with_new = clique_with_new(members, incomp, new);
        let ghost kept0 = kept@;
        absorb(&mut kept, with_new);
        let ghost kept1 = kept@;
        proof {
            assert forall|i: int| 0 <= i < kept1.len() implies is_candidate(
                id_set((#[trigger] kept1[i])@),
                cliques@,
                id_set(incomp@),
                new,
            ) by {
                if id_set(kept1[i]@) == s_with {
                    assert(id_set(kept1[i]@) == clique_with(
                        id_set(cliques@[k as int].block_ids@),
                        id_set(incomp@),
                        new,
                    ));
                } else {
                    let j = choose|j: int|
                        0 <= j < kept0.len() && id_set(#[trigger] kept0[j]@) == id_set(kept1[i]@);
                    assert(is_candidate(id_set(kept0[j]@), cliques@, id_set(incomp@), new));
                }
            }
        }
        let meets = id_lists_intersect(members, incomp);
        proof {
            if meets {
                let id = choose|id: BlockId| members@.contains(id) && incomp@.contains(id);
                assert(id_set(members@).contains(id) && id_set(incomp@).contains(id));
            }
            if sets_meet(id_set(members@), id_set(incomp@)) {
                let id = choose|id: BlockId|
                    id_set(members@).contains(id) && id_set(incomp@).contains(id);
                assert(members@.contains(id) && incomp@.contains(id));
            }
            assert(meets == sets_meet(id_set(members@), id_set(incomp@)));
        }
        if meets {
            let same = id_list_clone(members);
            absorb(&mut kept, same);
            proof {
                let kept2 = kept@;
                assert forall|i: int| 0 <= i < kept2.len() implies is_candidate(
                    id_set((#[trigger] kept2[i])@),
                    cliques@,
                    id_set(incomp@),
                    new,
                ) by {
                    if id_set(kept2[i]@) == id_set(members@) {
                        assert(id_set(kept2[i]@) == id_set(cliques@[k as int].block_ids@));
                    } else {
                        let j = choose|j: int|
                            0 <= j < kept1.len() && id_set(#[trigger] kept1[j]@) == id_set(
                                kept2[i]@,
                            );
                        assert(is_candidate(id_set(kept1[j]@), cliques@, id_set(incomp@), new));
                    }
                }
            }
        }
        proof {
            assert forall|m: int| 0 <= m < k + 1 implies is_covered(
                clique_with(id_set((#[trigger] cliques@[m]).block_ids@), id_set(incomp@), new),
                kept@,
            ) && (sets_meet(id_set(cliques@[m].block_ids@), id_set(incomp@)) ==> is_covered(
                id_set(cliques@[m].block_ids@),
                kept@,
            )) by {
                if m < k {
                    assert(is_covered(
                        clique_with(id_set(cliques@[m].block_ids@), id_set(incomp@), new),
                        kept0,
                    ));
                    assert(is_covered(
                        clique_with(id_set(cliques@[m].block_ids@), id_set(incomp@), new),
                        kept1,
                    ));
                    if sets_meet(id_set(cliques@[m].block_ids@), id_set(incomp@)) {
                        assert(is_covered(id_set(cliques@[m].block_ids@), kept0));
                        assert(is_covered(id_set(cliques@[m].block_ids@), kept1));
                    }
                } else {
                    assert(is_covered(s_with, kept1));
                }
            }
        }
        k += 1;
    }
    kept
}

/// What a block adds to the fitness of a clique: its fitness where it is active
/// and not final, nothing otherwise.
pub open spec fn block_fitness(statuses: IdMap<BlockStatus>, id: BlockId) -> nat {
    if is_active(statuses, id) && !is_final(statuses, id) {
        statuses.value(id)->a_block.fitness as nat
    } else {
        0
    }
}

/// The fitness of a clique: the sum of what its blocks add.
pub open spec fn clique_fitness(statuses: IdMap<BlockStatus>, ids: Seq<BlockId>) -> nat
    decreases ids.len(),
{
    if ids.len() == 0 {
        0
    } else {
        clique_fitness(statuses, ids.drop_last()) + block_fitness(statuses, ids.last())
    }
}

/// The fitness of the first blocks of a clique is not above that of the clique.
pub proof fn lemma_clique_fitness_grows(statuses: IdMap<BlockStatus>, ids: Seq<BlockId>, n: int)
    requires
        0 <= n <= ids.len(),
    ensures
        clique_fitness(statuses, ids.subrange(0, n)) <= clique_fitness(statuses, ids),
    decreases ids.len() - n,
{
    if n < ids.len() {
        lemma_clique_fitness_grows(statuses, ids, n + 1);
        assert(ids.subrange(0, n + 1).drop_last() =~= ids.subrange(0, n));
    } else {
        assert(ids.subrange(0, n) =~= ids);
    }
}

/// The fitness of a clique is that of the clique without one of its blocks, and
/// what that block adds.
pub proof fn lemma_clique_fitness_without(statuses: IdMap<BlockStatus>, ids: Seq<BlockId>, j: int)
    requires
        0 <= j < ids.len(),
    ensures
        clique_fitness(statuses, ids) == clique_fitness(statuses, ids.remove(j)) + block_fitness(
            statuses,
            ids[j],
        ),
    decreases ids.len(),
{
    if j == ids.len() - 1 {
        assert(ids.remove(j) =~= ids.drop_last());
    } else {
        lemma_clique_fitness_without(statuses, ids.drop_last(), j);
        assert(ids.remove(j).drop_last() =~= ids.drop_last().remove(j));
        assert(ids.remove(j).last() == ids.last());
        assert(ids.drop_last()[j] == ids[j]);
    }
}

/// The fitness of a clique does not depend on the order of its blocks: two lists
/// that hold the same blocks, each once, have the same fitness.
pub proof fn lemma_clique_fitness_of_set(statuses: IdMap<BlockStatus>, a: Seq<BlockId>, b: Seq<BlockId>)
    requires
        ids_distinct(a),
        ids_distinct(b),
        forall|y: BlockId| a.contains(y) <==> b.contains(y),
    ensures
        clique_fitness(statuses, a) == clique_fitness(statuses, b),
    decreases a.len(),
{
    if a.len() == 0 {
        if b.len() > 0 {
            assert(b.contains(b[0]));
            assert(a.contains(b[0]));
        }
    } else {
        let x = a.last();
        assert(a.contains(x));
        assert(b.contains(x));
        let j = choose|j: int| 0 <= j < b.len() && b[j] == x;
        let a1 = a.drop_last();
        let b1 = b.remove(j);
        assert forall|y: BlockId| a1.contains(y) <==> b1.contains(y) by {
            if a1.contains(y) {
                let k = choose|k: int| 0 <= k < a1.len() && a1[k] == y;
                assert(a[k] == y);
                assert(y != x);
                assert(a.contains(y));
                assert(b.contains(y));
                let m = choose|m: int| 0 <= m < b.len() && b[m] == y;
                if m < j {
                    assert(b1[m] == y);
                } else {
                    assert(b1[m - 1] == y);
                }
            }
            if b1.contains(y) {
                let m = choose|m: int| 0 <= m < b1.len() && b1[m] == y;
                if m < j {
                    assert(b[m] == y);
                } else {
                    assert(b[m + 1] == y);
                }
                assert(y != x);
                assert(b.contains(y));
                assert(a.contains(y));
                let k = choose|k: int| 0 <= k < a.len() && a[k] == y;
                assert(a1[k] == y);
            }
        }
        assert(ids_distinct(b1)) by {
            assert forall|p: int, q: int| 0 <= p < q < b1.len() implies b1[p] != b1[q] by {
                let pp = if p < j {
                    p
                } else {
                    p + 1
                };
                let qq = if q < j {
                    q
                } else {
                    q + 1
                };
                assert(b1[p] == b[pp] && b1[q] == b[qq]);
            }
        }
        lemma_clique_fitness_of_set(statuses, a1, b1);
        lemma_clique_fitness_without(statuses, b, j);
    }
}

/// The fitness of a clique. Fails where it does not fit.
pub fn compute_fitness(statuses: &IdMap<BlockStatus>, ids: &Vec<BlockId>) -> (r: Result<
    u64,
    GraphError,
>)
    requires
        statuses.wf(),
    ensures
        clique_fitness(*statuses, ids@) <= u64::MAX ==> r == Ok::<_, GraphError>(
            clique_fitness(*statuses, ids@) as u64,
        ),
        clique_fitness(*statuses, ids@) > u64::MAX ==> r == Err::<u64, _>(
            GraphError::FitnessOverflow,
        ),
{
    let mut acc: u64 = 0;
    let mut i: usize = 0;
    while i < ids.len()
        invariant
            statuses.wf(),
            i <= ids@.len(),
            acc == clique_fitness(*statuses, ids@.subrange(0, i as int)),
        decreases ids@.len() - i,
    {
        let add: u64 = match statuses.get(&ids[i]) {
            Some(BlockStatus::Active { a_block, .. }) => {
                if a_block.is_final {
                    0
                } else {
                    a_block.fitness
                }
            },
            _ => 0,
        };
        proof {
            assert(ids@.subrange(0, i + 1).drop_last() =~= ids@.subrange(0, i as int));
            assert(ids@.subrange(0, i + 1).last() == ids@[i as int]);
            assert(add == block_fitness(*statuses, ids@[i as int]));
        }
        acc = match acc.checked_add(add) {
            Some(v) => v,
            None => {
                proof {
                    lemma_clique_fitness_grows(*statuses, ids@, i + 1);
                }
                return Err(GraphError::FitnessOverflow);
            },
        };
        i += 1;
    }
    proof {
        assert(ids@.subrange(0, ids@.len() as int) =~= ids@);
    }
    Ok(acc)
}

/// Whether the set of `a` comes before the set of `b`: `a` holds a block that `b`
/// does not hold and that comes, byte by byte, before every block that `b` holds
/// and `a` does not.
pub open spec fn precedes(a: Seq<BlockId>, b: Seq<BlockId>) -> bool {
    exists|x: BlockId|
        #![trigger a.contains(x)]
        a.contains(x) && !b.contains(x) && forall|y: BlockId|
            #![trigger b.contains(y)]
            b.contains(y) && !a.contains(y) ==> lex_lt(x@, y@)
}

/// Whether `x` comes before every block that `b` holds and `a` does not.
fn before_all_others(x: &BlockId, a: &Vec<BlockId>, b: &Vec<BlockId>) -> (r: bool)
    ensures
        r == forall|y: BlockId|
            #![trigger b@.contains(y)]
            b@.contains(y) && !a@.contains(y) ==> lex_lt(x@, y@),
{
    let mut j: usize = 0;
    while j < b.len()
        invariant
            j <= b@.len(),
            forall|k: int|
                0 <= k < j && !a@.contains(#[trigger] b@[k]) ==> lex_lt(x@, b@[k]@),
        decreases b@.len() - j,
    {
        if !id_list_contains(a, &b[j]) {
            if !x.is_before(&b[j]) {
                assert(b@.contains(b@[j as int]));
                return false;
            }
        }
        j += 1;
    }
    proof {
        assert forall|y: BlockId|
            #![trigger b@.contains(y)]
            b@.contains(y) && !a@.contains(y) implies lex_lt(x@, y@) by {
            let k = choose|k: int| 0 <= k < b@.len() && b@[k] == y;
        }
    }
    true
}

/// Whether the set of `a` comes before the set of `b`.
pub fn clique_precedes(a: &Vec<BlockId>, b: &Vec<BlockId>) -> (r: bool)
    ensures
        r == precedes(a@, b@),
{
    let mut i: usize = 0;
    while i < a.len()
        invariant
            i <= a@.len(),
            forall|k: int|
                0 <= k < i ==> !(!b@.contains(#[trigger] a@[k]) && forall|y: BlockId|
                    #![trigger b@.contains(y)]
                    b@.contains(y) && !a@.contains(y) ==> lex_lt(a@[k]@, y@)),
        decreases a@.len() - i,
    {
        if !id_list_contains(b, &a[i]) {
            if before_all_others(&a[i], a, b) {
                assert(a@.contains(a@[i as int]));
                return true;
            }
        }
        i += 1;
    }
    proof {
        if precedes(a@, b@) {
            let x = choose|x: BlockId|
                #![trigger a@.contains(x)]
                a@.contains(x) && !b@.contains(x) && forall|y: BlockId|
                    #![trigger b@.contains(y)]
                    b@.contains(y) && !a@.contains(y) ==> lex_lt(x@, y@);
            let k = choose|k: int| 0 <= k < a@.len() && a@[k] == x;
            assert(false);
        }
    }
    false
}

/// Whether the clique at `i` leads: no clique is fitter, and its set comes before
/// the set of every other clique that is as fit.
pub open spec fn leads(cliques: Seq<Clique>, i: int) -> bool {
    &&& 0 <= i < cliques.len()
    &&& forall|j: int| 0 <= j < cliques.len() ==> (#[trigger] cliques[j]).fitness <= cliques[i].fitness
    &&& forall|j: int|
        0 <= j < cliques.len() && j != i && (#[trigger] cliques[j]).fitness == cliques[i].fitness
            ==> precedes(cliques[i].block_ids@, cliques[j].block_ids@)
}

/// Whether the clique at `i` is the first of those that no clique is fitter than.
pub open spec fn first_fittest(cliques: Seq<Clique>, i: int) -> bool {
    &&& 0 <= i < cliques.len()
    &&& forall|j: int| 0 <= j < cliques.len() ==> (#[trigger] cliques[j]).fitness <= cliques[i].fitness
    &&& forall|j: int| 0 <= j < i ==> (#[trigger] cliques[j]).fitness < cliques[i].fitness
}

/// Whether the clique at `b` is the one to be the blockclique: the first clique
/// that leads; or, where none leads, the first of the fittest.
pub open spec fn is_blockclique_choice(cliques: Seq<Clique>, b: int) -> bool {
    ||| leads(cliques, b) && forall|j: int| 0 <= j < b ==> !leads(cliques, j)
    ||| first_fittest(cliques, b) && forall|j: int| 0 <= j < cliques.len() ==> !leads(cliques, j)
}

/// Whether the clique at `i` leads.
fn clique_leads(cliques: &Vec<Clique>, i: usize) -> (r: bool)
    requires
        i < cliques@.len(),
    ensures
        r == leads(cliques@, i as int),
{
    let mut j: usize = 0;
    while j < cliques.len()
        invariant
            i < cliques@.len(),
            j <= cliques@.len(),
            forall|k: int| 0 <= k < j ==> (#[trigger] cliques@[k]).fitness <= cliques@[i as int].fitness,
            forall|k: int|
                0 <= k < j && k != i && (#[trigger] cliques@[k]).fitness == cliques@[i as int].fitness
                    ==> precedes(cliques@[i as int].block_ids@, cliques@[k].block_ids@),
        decreases cliques@.len() - j,
    {
        if cliques[j].fitness > cliques[i].fitness {
            return false;
        }
        if j != i && cliques[j].fitness == cliques[i].fitness {
            if !clique_precedes(&cliques[i].block_ids, &cliques[j].block_ids) {
                return false;
            }
        }
        j += 1;
    }
    true
}

/// The place of the clique to be the blockclique.
pub fn choose_blockclique(cliques: &Vec<Clique>) -> (b: usize)
    requires
        cliques@.len() >= 1,
    ensures
        is_blockclique_choice(cliques@, b as int),
{
    let n = cliques.len();
    let mut i: usize = 0;
    while i < n
        invariant
            i <= n,
            n == cliques@.len(),
            forall|j: int| 0 <= j < i ==> !leads(cliques@, j),
        decreases n - i,
    {
        if clique_leads(cliques, i) {
            return i;
        }
        i += 1;
    }
    let mut best: usize = 0;
    let mut j: usize = 1;
    while j < n
        invariant
            1 <= j <= n,
            n == cliques@.len(),
            best < j,
            forall|k: int| 0 <= k < j ==> (#[trigger] cliques@[k]).fitness <= cliques@[best as int].fitness,
            forall|k: int| 0 <= k < best ==> (#[trigger] cliques@[k]).fitness < cliques@[best as int].fitness,
        decreases n - j,
    {
        if cliques[j].fitness > cliques[best].fitness {
            best = j;
        }
        j += 1;
    }
    best
}

/// Whether `cliques` are the sets `sets` as cliques: each with its fitness, and one
/// of them, the one chosen for it, flagged as the blockclique.
pub open spec fn cliques_of(
    cliques: Seq<Clique>,
    sets: Seq<Vec<BlockId>>,
    statuses: IdMap<BlockStatus>,
) -> bool {
    &&& cliques.len() == sets.len()
    &&& forall|i: int|
        0 <= i < sets.len() ==> (#[trigger] cliques[i]).block_ids@ == sets[i]@ && cliques[i].fitness
            == clique_fitness(statuses, sets[i]@)
    &&& exists|b: int|
        is_blockclique_choice(cliques, b) && forall|i: int|
            0 <= i < cliques.len() ==> ((#[trigger] cliques[i]).is_blockclique <==> i == b)
}

/// Makes cliques of sets of blocks: computes their fitnesses and flags the
/// blockclique. Fails where a fitness does not fit.
pub fn assemble_cliques(sets: Vec<Vec<BlockId>>, statuses: &IdMap<BlockStatus>) -> (r: Result<
    Vec<Clique>,
    GraphError,
>)
    requires
        statuses.wf(),
        sets@.len() >= 1,
    ensures
        (forall|i: int|
            0 <= i < sets@.len() ==> clique_fitness(*statuses, (#[trigger] sets@[i])@) <= u64::MAX)
            ==> r is Ok && cliques_of(r.unwrap()@, sets@, *statuses) && one_blockclique(
            r.unwrap()@,
        ),
        (exists|i: int|
            0 <= i < sets@.len() && clique_fitness(*statuses, (#[trigger] sets@[i])@) > u64::MAX)
            ==> r == Err::<Vec<Clique>, _>(GraphError::FitnessOverflow),
{
    let n = sets.len();
    let mut out: Vec<Clique> = Vec::new();
    let mut i: usize = 0;
    while i < n
        invariant
            statuses.wf(),
            i <= n,
            n == sets@.len(),
            out@.len() == i,
            forall|k: int|
                0 <= k < i ==> (#[trigger] out@[k]).block_ids@ == sets@[k]@ && out@[k].fitness
                    == clique_fitness(*statuses, sets@[k]@) && !out@[k].is_blockclique,
            forall|k: int| 0 <= k < i ==> clique_fitness(*statuses, (#[trigger] sets@[k])@) <= u64::MAX,
        decreases n - i,
    {
        let fitness = match compute_fitness(statuses, &sets[i]) {
            Ok(f) => f,
            Err(e) => {
                assert(clique_fitness(*statuses, sets@[i as int]@) > u64::MAX);
                return Err(e);
            },
        };
        out.push(Clique { block_ids: id_list_clone(&sets[i]), fitness, is_blockclique: false });
        i += 1;
    }
    let b = choose_blockclique(&out);
    let ghost unflagged = out@;
    out[b].is_blockclique = true;
    proof {
        assert forall|k: int| 0 <= k < n implies (#[trigger] out@[k]).block_ids
            == unflagged[k].block_ids && out@[k].fitness == unflagged[k].fitness by {}
        assert forall|k: int| leads(out@, k) == leads(unflagged, k) by {
            if leads(unflagged, k) {
                assert forall|j: int| 0 <= j < out@.len() implies (#[trigger] out@[j]).fitness
                    <= out@[k].fitness by {
                    assert(unflagged[j].fitness <= unflagged[k].fitness);
                }
                assert forall|j: int|
                    0 <= j < out@.len() && j != k && (#[trigger] out@[j]).fitness
                        == out@[k].fitness implies precedes(
                    out@[k].block_ids@,
                    out@[j].block_ids@,
                ) by {
                    assert(unflagged[j].fitness == unflagged[k].fitness);
                }
            }
            if leads(out@, k) {
                assert forall|j: int| 0 <= j < unflagged.len() implies (#[trigger] unflagged[j]).fitness
                    <= unflagged[k].fitness by {
                    assert(out@[j].fitness <= out@[k].fitness);
                }
                assert forall|j: int|
                    0 <= j < unflagged.len() && j != k && (#[trigger] unflagged[j]).fitness
                        == unflagged[k].fitness implies precedes(
                    unflagged[k].block_ids@,
                    unflagged[j].block_ids@,
                ) by {
                    assert(out@[j].fitness == out@[k].fitness);
                }
            }
        }
        if first_fittest(unflagged, b as int) {
            assert forall|j: int| 0 <= j < out@.len() implies (#[trigger] out@[j]).fitness
                <= out@[b as int].fitness by {
                assert(unflagged[j].fitness <= unflagged[b as int].fitness);
            }
            assert forall|j: int| 0 <= j < b implies (#[trigger] out@[j]).fitness
                < out@[b as int].fitness by {
                assert(unflagged[j].fitness < unflagged[b as int].fitness);
            }
            assert(first_fittest(out@, b as int));
        }
        assert(is_blockclique_choice(unflagged, b as int));
        if leads(unflagged, b as int) && forall|j: int| 0 <= j < b ==> !leads(unflagged, j) {
            assert(leads(out@, b as int));
            assert forall|j: int| 0 <= j < b implies !leads(out@, j) by {
                assert(!leads(unflagged, j));
            }
        } else {
            assert(first_fittest(out@, b as int));
            assert forall|j: int| 0 <= j < out@.len() implies !leads(out@, j) by {
                assert(!leads(unflagged, j));
            }
        }
        assert(is_blockclique_choice(out@, b as int));
        assert(one_blockclique(out@)) by {
            assert(out@[b as int].is_blockclique);
            assert forall|j: int| 0 <= j < out@.len() && j != b implies !(#[trigger] out@[j]).is_blockclique by {
                assert(!unflagged[j].is_blockclique);
            }
        }
    }
    Ok(out)
}

} // verus!
