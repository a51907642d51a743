//! Maps keyed by block identifiers, held as lists of entries in insertion order.

use vstd::prelude::*;
use crate::block_id::BlockId;

verus! {

/// A map from block identifiers to values. Entries keep the order in which their
/// keys were first inserted.
#[derive(Clone, Debug)]
pub struct IdMap<V> {
    pub entries: Vec<(BlockId, V)>,
}

impl<V> IdMap<V> {
    /// The keys, in order.
    pub open spec fn keys(&self) -> Seq<BlockId> {
        Seq::new(self.entries@.len(), |i: int| self.entries@[i].0)
    }

    /// No key occurs twice.
    pub open spec fn wf(&self) -> bool {
        forall|i: int, j: int|
            0 <= i < j < self.entries@.len() ==> self.entries@[i].0 != self.entries@[j].0
    }

    /// Whether the map has an entry for `id`.
    pub open spec fn has(&self, id: BlockId) -> bool {
        exists|i: int| 0 <= i < self.entries@.len() && self.entries@[i].0 == id
    }

    /// The position of the entry for `id`.
    pub open spec fn index_of(&self, id: BlockId) -> int {
        choose|i: int| 0 <= i < self.entries@.len() && self.entries@[i].0 == id
    }

    /// The value for `id`, where the map has one.
    pub open spec fn value(&self, id: BlockId) -> V {
        self.entries@[self.index_of(id)].1
    }

    /// In a well-formed map, the entry at a position is the entry of its key.
    pub proof fn lemma_entry(&self, i: int)
        requires
            self.wf(),
            0 <= i < self.entries@.len(),
        ensures
            self.has(self.entries@[i].0),
            self.index_of(self.entries@[i].0) == i,
            self.value(self.entries@[i].0) == self.entries@[i].1,
    {
        let id = self.entries@[i].0;
        let k = self.index_of(id);
        if k < i {
            assert(self.entries@[k].0 != self.entries@[i].0);
        } else if i < k {
            assert(self.entries@[i].0 != self.entries@[k].0);
        }
    }

    /// The empty map.
    pub fn new() -> (r: IdMap<V>)
        ensures
            r.wf(),
            r.entries@.len() == 0,
            forall|id: BlockId| !r.has(id),
    {
        IdMap { entries: Vec::new() }
    }

    /// The number of entries.
    pub fn len(&self) -> (r: usize)
        ensures
            r == self.entries@.len(),
    {
        self.entries.len()
    }

    /// The position of the entry for `id`, if there is one.
    pub fn position(&self, id: &BlockId) -> (r: Option<usize>)
        requires
            self.wf(),
        ensures
            r is Some <==> self.has(*id),
            r is Some ==> r.unwrap() == self.index_of(*id) && r.unwrap() < self.entries@.len()
                && self.entries@[r.unwrap() as int].0 == *id,
    {
        let mut i: usize = 0;
        while i < self.entries.len()
            invariant
                self.wf(),
                i <= self.entries@.len(),
                forall|j: int| 0 <= j < i ==> self.entries@[j].0 != *id,
            decreases self.entries@.len() - i,
        {
            if self.entries[i].0 == *id {
                proof {
                    self.lemma_entry(i as int);
                }
                return Some(i);
            }
            i += 1;
        }
        None
    }

    /// Whether the map has an entry for `id`.
    pub fn contains_key(&self, id: &BlockId) -> (r: bool)
        requires
            self.wf(),
        ensures
            r == self.has(*id),
    {
        self.position(id).is_some()
    }

    /// The value for `id`, if there is one.
    pub fn get(&self, id: &BlockId) -> (r: Option<&V>)
        requires
            self.wf(),
        ensures
            r is Some <==> self.has(*id),
            r is Some ==> *r.unwrap() == self.value(*id),
    {
        match self.position(id) {
            Some(i) => Some(&self.entries[i].1),
            None => None,
        }
    }

    /// Sets the value for `id`: in place where the map has an entry for it, else as
    /// a new last entry.
    pub fn insert(&mut self, id: BlockId, value: V)
        requires
            old(self).wf(),
        ensures
            final(self).wf(),
            final(self).has(id),
            final(self).value(id) == value,
            forall|other: BlockId|
                other != id ==> final(self).has(other) == old(self).has(other) && (old(self).has(
                    other,
                ) ==> final(self).value(other) == old(self).value(other)),
            old(self).has(id) ==> final(self).keys() == old(self).keys() && final(self).entries@
                == old(self).entries@.update(old(self).index_of(id), (id, value)),
            !old(self).has(id) ==> final(self).keys() == old(self).keys().push(id)
                && final(self).entries@ == old(self).entries@.push((id, value)),
    {
        match self.position(&id) {
            Some(i) => {
                self.entries[i] = (id, value);
                proof {
                    assert(self.entries@ =~= old(self).entries@.update(i as int, (id, value)));
                    assert(final(self).keys() =~= old(self).keys());
                    assert forall|k: int|
                        0 <= k < old(self).entries@.len() && old(self).entries@[k].0
                            != id implies exists|j: int|
                        0 <= j < self.entries@.len() && self.entries@[j] == #[trigger] old(
                            self,
                        ).entries@[k] by {
                        assert(self.entries@[k] == old(self).entries@[k]);
                    }
                    assert forall|j: int|
                        0 <= j < self.entries@.len() && self.entries@[j].0 != id implies exists|
                        k: int,
                    |
                        0 <= k < old(self).entries@.len() && old(self).entries@[k]
                            == #[trigger] self.entries@[j] by {
                        assert(old(self).entries@[j] == self.entries@[j]);
                    }
                    self.lemma_frame(*old(self), id);
                    self.lemma_entry(i as int);
                }
            },
            None => {
                self.entries.push((id, value));
                proof {
                    assert(final(self).keys() =~= old(self).keys().push(id));
                    assert forall|k: int|
                        0 <= k < old(self).entries@.len() && old(self).entries@[k].0
                            != id implies exists|j: int|
                        0 <= j < self.entries@.len() && self.entries@[j] == #[trigger] old(
                            self,
                        ).entries@[k] by {
                        assert(self.entries@[k] == old(self).entries@[k]);
                    }
                    assert forall|j: int|
                        0 <= j < self.entries@.len() && self.entries@[j].0 != id implies exists|
                        k: int,
                    |
                        0 <= k < old(self).entries@.len() && old(self).entries@[k]
                            == #[trigger] self.entries@[j] by {
                        assert(old(self).entries@[j] == self.entries@[j]);
                    }
                    self.lemma_frame(*old(self), id);
                    self.lemma_entry(old(self).entries@.len() as int);
                }
            },
        }
    }

    /// Where two well-formed maps have the same entries but for the key `id`, they
    /// agree on every other key.
    pub proof fn lemma_frame(&self, before: IdMap<V>, id: BlockId)
        requires
            self.wf(),
            before.wf(),
            forall|i: int|
                0 <= i < before.entries@.len() && before.entries@[i].0 != id ==> exists|j: int|
                    0 <= j < self.entries@.len() && self.entries@[j] == #[trigger] before.entries@[i],
            forall|j: int|
                0 <= j < self.entries@.len() && self.entries@[j].0 != id ==> exists|i: int|
                    0 <= i < before.entries@.len() && before.entries@[i] == #[trigger] self.entries@[j],
        ensures
            forall|other: BlockId|
                other != id ==> self.has(other) == before.has(other) && (before.has(other)
                    ==> self.value(other) == before.value(other)),
    {
        assert forall|other: BlockId| other != id implies self.has(other) == before.has(other) && (
        before.has(other) ==> self.value(other) == before.value(other)) by {
            if before.has(other) {
                let i = before.index_of(other);
                let j = choose|j: int|
                    0 <= j < self.entries@.len() && self.entries@[j] == before.entries@[i];
                self.lemma_entry(j);
            }
            if self.has(other) {
                let j = self.index_of(other);
                let i = choose|i: int|
                    0 <= i < before.entries@.len() && before.entries@[i] == self.entries@[j];
                before.lemma_entry(i);
            }
        }
    }

    /// Takes the entry for `id` out of the map, if there is one. The other entries
    /// keep their order.
    pub fn remove(&mut self, id: &BlockId) -> (r: Option<V>)
        requires
            old(self).wf(),
        ensures
            final(self).wf(),
            !final(self).has(*id),
            r is Some <==> old(self).has(*id),
            r is Some ==> r.unwrap() == old(self).value(*id),
            forall|other: BlockId|
                other != *id ==> final(self).has(other) == old(self).has(other) && (old(self).has(
                    other,
                ) ==> final(self).value(other) == old(self).value(other)),
            final(self).entries@.len() == old(self).entries@.len() - if r is Some {
                1int
            } else {
                0int
            },
            r is Some ==> final(self).entries@ == old(self).entries@.remove(
                old(self).index_of(*id),
            ),
            r is None ==> final(self).entries@ == old(self).entries@,
    {
        match self.position(id) {
            None => None,
            Some(i) => {
                let (_, value) = self.entries.remove(i);
                proof {
                    assert(self.entries@ =~= old(self).entries@.remove(i as int));
                    assert forall|j: int| 0 <= j < self.entries@.len() implies (j < i
                        ==> self.entries@[j] == old(self).entries@[j]) && (j >= i
                        ==> self.entries@[j] == old(self).entries@[j + 1]) by {}
                    assert forall|k: int|
                        0 <= k < old(self).entries@.len() && old(self).entries@[k].0
                            != *id implies exists|j: int|
                        0 <= j < self.entries@.len() && self.entries@[j] == #[trigger] old(
                            self,
                        ).entries@[k] by {
                        if k < i {
                            assert(self.entries@[k] == old(self).entries@[k]);
                        } else {
                            assert(self.entries@[k - 1] == old(self).entries@[k]);
                        }
                    }
                    assert forall|j: int|
                        0 <= j < self.entries@.len() && self.entries@[j].0 != *id implies exists|
                        k: int,
                    |
                        0 <= k < old(self).entries@.len() && old(self).entries@[k]
                            == #[trigger] self.entries@[j] by {
                        if j < i {
                            assert(old(self).entries@[j] == self.entries@[j]);
                        } else {
                            assert(old(self).entries@[j + 1] == self.entries@[j]);
                        }
                    }
                    self.lemma_frame(*old(self), *id);
                    if self.has(*id) {
                        let j = self.index_of(*id);
                        if j < i {
                            assert(old(self).entries@[j].0 != old(self).entries@[i as int].0);
                        } else {
                            assert(old(self).entries@[i as int].0 != old(self).entries@[j + 1].0);
                        }
                    }
                }
                Some(value)
            },
        }
    }
}

/// Two maps with the same keys have entries for the same identifiers.
pub proof fn lemma_same_keys<V>(a: IdMap<V>, b: IdMap<V>)
    requires
        a.keys() == b.keys(),
    ensures
        forall|x: BlockId| a.has(x) == #[trigger] b.has(x),
{
    assert(a.keys().len() == a.entries@.len());
    assert(b.keys().len() == b.entries@.len());
    assert forall|x: BlockId| a.has(x) == #[trigger] b.has(x) by {
        if a.has(x) {
            let i = choose|i: int| 0 <= i < a.entries@.len() && a.entries@[i].0 == x;
            assert(a.keys()[i] == x);
            assert(b.keys()[i] == b.entries@[i].0);
        }
        if b.has(x) {
            let i = choose|i: int| 0 <= i < b.entries@.len() && b.entries@[i].0 == x;
            assert(b.keys()[i] == x);
            assert(a.keys()[i] == a.entries@[i].0);
        }
    }
}

/// A map from which the entry at a place was taken has no entry for the key of
/// that entry, and has the other entries as they were.
pub proof fn lemma_entry_taken<V>(before: IdMap<V>, after: IdMap<V>, i: int)
    requires
        before.wf(),
        0 <= i < before.entries@.len(),
        after.entries@ == before.entries@.remove(i),
    ensures
        after.wf(),
        !after.has(before.entries@[i].0),
        forall|other: BlockId|
            other != before.entries@[i].0 ==> (#[trigger] after.has(other) == before.has(other))
                && (before.has(other) ==> after.value(other) == before.value(other)),
{
    let id = before.entries@[i].0;
    let s0 = before.entries@;
    let s1 = after.entries@;
    assert forall|a: int, b: int| 0 <= a < b < s1.len() implies s1[a].0 != s1[b].0 by {
        let a0 = if a < i {
            a
        } else {
            a + 1
        };
        let b0 = if b < i {
            b
        } else {
            b + 1
        };
        assert(s0[a0].0 != s0[b0].0);
    }
    assert forall|k: int| 0 <= k < s0.len() && s0[k].0 != id implies exists|j: int|
        0 <= j < s1.len() && s1[j] == #[trigger] s0[k] by {
        if k < i {
            assert(s1[k] == s0[k]);
        } else {
            assert(k != i);
            assert(s1[k - 1] == s0[k]);
        }
    }
    assert forall|j: int| 0 <= j < s1.len() && s1[j].0 != id implies exists|k: int|
        0 <= k < s0.len() && s0[k] == #[trigger] s1[j] by {
        if j < i {
            assert(s0[j] == s1[j]);
        } else {
            assert(s0[j + 1] == s1[j]);
        }
    }
    after.lemma_frame(before, id);
    if after.has(id) {
        let j = after.index_of(id);
        let j0 = if j < i {
            j
        } else {
            j + 1
        };
        assert(s0[j0].0 == id);
        if j0 < i {
            assert(s0[j0].0 != s0[i].0);
        } else {
            assert(s0[i].0 != s0[j0].0);
        }
    }
}

} // verus!
