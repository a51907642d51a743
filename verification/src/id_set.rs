//! Sets of block identifiers, held as lists without repetition.

use vstd::prelude::*;
use crate::block_id::BlockId;

verus! {

/// The identifiers that a list holds.
pub open spec fn id_set(list: Seq<BlockId>) -> Set<BlockId> {
    Set::new(|id: BlockId| list.contains(id))
}

/// Whether no identifier occurs twice in a list.
pub open spec fn ids_distinct(list: Seq<BlockId>) -> bool {
    forall|i: int, j: int| 0 <= i < j < list.len() ==> list[i] != list[j]
}

/// A list with one more identifier holds that one more.
pub proof fn lemma_id_set_push(list: Seq<BlockId>, id: BlockId)
    ensures
        id_set(list.push(id)) == id_set(list).insert(id),
        ids_distinct(list) && !list.contains(id) ==> ids_distinct(list.push(id)),
{
    let next = list.push(id);
    assert forall|x: BlockId| id_set(next).contains(x) == id_set(list).insert(id).contains(x) by {
        if next.contains(x) {
            let i = choose|i: int| 0 <= i < next.len() && next[i] == x;
            if i < list.len() {
                assert(list[i] == x);
            }
        }
        if list.contains(x) {
            let i = choose|i: int| 0 <= i < list.len() && list[i] == x;
            assert(next[i] == x);
        }
        if x == id {
            assert(next[list.len() as int] == x);
        }
    }
    assert(id_set(next) =~= id_set(list).insert(id));
}

/// Whether a list holds an identifier.
pub fn id_list_contains(list: &Vec<BlockId>, id: &BlockId) -> (r: bool)
    ensures
        r == list@.contains(*id),
        r == id_set(list@).contains(*id),
{
    let mut i: usize = 0;
    while i < list.len()
        invariant
            i <= list@.len(),
            forall|j: int| 0 <= j < i ==> list@[j] != *id,
        decreases list@.len() - i,
    {
        if list[i] == *id {
            return true;
        }
        i += 1;
    }
    false
}

/// Where a list holds an identifier, if it does.
pub fn id_list_position(list: &Vec<BlockId>, id: &BlockId) -> (r: Option<usize>)
    ensures
        r is Some <==> list@.contains(*id),
        r is Some ==> r.unwrap() < list@.len() && list@[r.unwrap() as int] == *id,
{
    let mut i: usize = 0;
    while i < list.len()
        invariant
            i <= list@.len(),
            forall|j: int| 0 <= j < i ==> list@[j] != *id,
        decreases list@.len() - i,
    {
        if list[i] == *id {
            return Some(i);
        }
        i += 1;
    }
    None
}

/// Adds an identifier to a list, unless it is there. Returns whether it was added.
pub fn id_list_insert(list: &mut Vec<BlockId>, id: BlockId) -> (added: bool)
    ensures
        id_set(final(list)@) == id_set(old(list)@).insert(id),
        ids_distinct(old(list)@) ==> ids_distinct(final(list)@),
        added == !old(list)@.contains(id),
        added ==> final(list)@ == old(list)@.push(id),
        !added ==> final(list)@ == old(list)@,
{
    if id_list_contains(list, &id) {
        assert(id_set(list@) =~= id_set(old(list)@).insert(id));
        false
    } else {
        list.push(id);
        proof {
            lemma_id_set_push(old(list)@, id);
        }
        true
    }
}

/// Removes an identifier from a list that holds each identifier once. Returns
/// whether it was there.
pub fn id_list_remove(list: &mut Vec<BlockId>, id: &BlockId) -> (removed: bool)
    requires
        ids_distinct(old(list)@),
    ensures
        ids_distinct(final(list)@),
        id_set(final(list)@) == id_set(old(list)@).remove(*id),
        removed == old(list)@.contains(*id),
        final(list)@.len() == old(list)@.len() - if removed {
            1int
        } else {
            0int
        },
{
    match id_list_position(list, id) {
        None => {
            assert(id_set(list@) =~= id_set(old(list)@).remove(*id));
            false
        },
        Some(i) => {
            list.remove(i);
            proof {
                let before = old(list)@;
                let after = list@;
                assert forall|x: BlockId| id_set(after).contains(x) == id_set(before).remove(
                    *id,
                ).contains(x) by {
                    if after.contains(x) {
                        let k = choose|k: int| 0 <= k < after.len() && after[k] == x;
                        if k < i {
                            assert(before[k] == x);
                        } else {
                            assert(before[k + 1] == x);
                        }
                    }
                    if before.contains(x) && x != *id {
                        let k = choose|k: int| 0 <= k < before.len() && before[k] == x;
                        if k < i {
                            assert(after[k] == x);
                        } else {
                            assert(after[k - 1] == x);
                        }
                    }
                }
                assert(id_set(after) =~= id_set(before).remove(*id));
            }
            true
        },
    }
}

/// A list without an identifier: what is left of it, in order, once every
/// occurrence of `id` is taken out.
pub open spec fn ids_without(list: Seq<BlockId>, id: BlockId) -> Seq<BlockId>
    decreases list.len(),
{
    if list.len() == 0 {
        list
    } else if list.last() == id {
        ids_without(list.drop_last(), id)
    } else {
        ids_without(list.drop_last(), id).push(list.last())
    }
}

/// A list without an identifier holds what the list holds, but that identifier.
pub proof fn lemma_ids_without(list: Seq<BlockId>, id: BlockId)
    ensures
        forall|x: BlockId|
            #![trigger ids_without(list, id).contains(x)]
            ids_without(list, id).contains(x) <==> list.contains(x) && x != id,
        !list.contains(id) ==> ids_without(list, id) == list,
    decreases list.len(),
{
    if list.len() > 0 {
        let rest = list.drop_last();
        let last = list.last();
        lemma_ids_without(rest, id);
        let out = ids_without(list, id);
        assert forall|x: BlockId|
            #![trigger ids_without(list, id).contains(x)]
            out.contains(x) <==> list.contains(x) && x != id by {
            if out.contains(x) {
                let k = choose|k: int| 0 <= k < out.len() && out[k] == x;
                if last != id && k == out.len() - 1 {
                    assert(list[list.len() - 1] == x);
                } else {
                    assert(ids_without(rest, id)[k] == x);
                    assert(ids_without(rest, id).contains(x));
                    let j = choose|j: int| 0 <= j < rest.len() && rest[j] == x;
                    assert(list[j] == x);
                }
            }
            if list.contains(x) && x != id {
                let j = choose|j: int| 0 <= j < list.len() && list[j] == x;
                if j < rest.len() {
                    assert(rest[j] == x);
                    assert(rest.contains(x));
                    assert(ids_without(rest, id).contains(x));
                    let k = choose|k: int|
                        0 <= k < ids_without(rest, id).len() && ids_without(rest, id)[k] == x;
                    assert(out[k] == x);
                } else {
                    assert(out[out.len() - 1] == x);
                }
            }
        }
        if !list.contains(id) {
            assert(list[list.len() - 1] != id);
            assert(!rest.contains(id)) by {
                if rest.contains(id) {
                    let j = choose|j: int| 0 <= j < rest.len() && rest[j] == id;
                    assert(list[j] == id);
                }
            }
            assert(rest.push(last) =~= list);
        }
    }
}

/// A list without an identifier.
pub fn id_list_without(list: &Vec<BlockId>, id: &BlockId) -> (r: Vec<BlockId>)
    ensures
        r@ == ids_without(list@, *id),
{
    let mut out: Vec<BlockId> = Vec::new();
    let mut i: usize = 0;
    while i < list.len()
        invariant
            i <= list@.len(),
            out@ == ids_without(list@.subrange(0, i as int), *id),
        decreases list@.len() - i,
    {
        proof {
            assert(list@.subrange(0, i + 1).drop_last() =~= list@.subrange(0, i as int));
        }
        if list[i] != *id {
            out.push(list[i]);
        }
        i += 1;
    }
    proof {
        assert(list@.subrange(0, i as int) =~= list@);
    }
    out
}

/// Whether two lists hold an identifier in common.
pub fn id_lists_intersect(a: &Vec<BlockId>, b: &Vec<BlockId>) -> (r: bool)
    ensures
        r == exists|id: BlockId| a@.contains(id) && b@.contains(id),
{
    let mut i: usize = 0;
    while i < a.len()
        invariant
            i <= a@.len(),
            forall|j: int| 0 <= j < i ==> !b@.contains(#[trigger] a@[j]),
        decreases a@.len() - i,
    {
        if id_list_contains(b, &a[i]) {
            assert(a@.contains(a@[i as int]));
            return true;
        }
        i += 1;
    }
    false
}

/// Whether every identifier of `a` is in `b`.
pub fn id_list_is_subset(a: &Vec<BlockId>, b: &Vec<BlockId>) -> (r: bool)
    ensures
        r == id_set(a@).subset_of(id_set(b@)),
{
    let mut i: usize = 0;
    while i < a.len()
        invariant
            i <= a@.len(),
            forall|j: int| 0 <= j < i ==> b@.contains(#[trigger] a@[j]),
        decreases a@.len() - i,
    {
        if !id_list_contains(b, &a[i]) {
            assert(id_set(a@).contains(a@[i as int]));
            return false;
        }
        i += 1;
    }
    true
}

/// A copy of a list of identifiers.
pub fn id_list_clone(list: &Vec<BlockId>) -> (r: Vec<BlockId>)
    ensures
        r@ == list@,
{
    let mut out: Vec<BlockId> = Vec::new();
    let mut i: usize = 0;
    while i < list.len()
        invariant
            i <= list@.len(),
            out@ == list@.subrange(0, i as int),
        decreases list@.len() - i,
    {
        out.push(list[i]);
        assert(out@ =~= list@.subrange(0, i + 1));
        i += 1;
    }
    assert(list@.subrange(0, list@.len() as int) =~= list@);
    out
}

} // verus!
