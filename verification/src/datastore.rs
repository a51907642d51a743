//! Stores of bytes under keys of bytes, kept in the order of the keys.

use vstd::prelude::*;
use crate::bytes::{
    compare_bytes,
    lemma_lex_lt_irreflexive,
    lemma_lex_lt_total,
    lemma_lex_lt_transitive,
    lex_lt,
    Order,
};

verus! {

/// A store of bytes under keys of bytes. The entries are kept in the order of their
/// keys, each key once.
#[derive(Clone, Debug, Default, PartialEq, Eq)]
pub struct Datastore {
    pub entries: Vec<(Vec<u8>, Vec<u8>)>,
}

/// Entries as plain values.
pub open spec fn entries_view(entries: Seq<(Vec<u8>, Vec<u8>)>) -> Seq<(Seq<u8>, Seq<u8>)> {
    Seq::new(entries.len(), |i: int| (entries[i].0@, entries[i].1@))
}

/// Whether the keys of a list of entries go up strictly.
pub open spec fn keys_ascending(entries: Seq<(Seq<u8>, Seq<u8>)>) -> bool {
    forall|i: int, j: int| 0 <= i < j < entries.len() ==> lex_lt(#[trigger] entries[i].0, #[trigger] entries[j].0)
}

/// Whether a list of entries has one for the key `key`.
pub open spec fn entries_have(entries: Seq<(Seq<u8>, Seq<u8>)>, key: Seq<u8>) -> bool {
    exists|i: int| 0 <= i < entries.len() && (#[trigger] entries[i]).0 == key
}

/// The value under the key `key` in a list of entries that has one for it.
pub open spec fn entries_value(entries: Seq<(Seq<u8>, Seq<u8>)>, key: Seq<u8>) -> Seq<u8> {
    entries[choose|i: int| 0 <= i < entries.len() && (#[trigger] entries[i]).0 == key].1
}

/// In a list whose keys go up strictly, the entry at a place is the one of its key.
pub proof fn lemma_entries_at(entries: Seq<(Seq<u8>, Seq<u8>)>, i: int)
    requires
        keys_ascending(entries),
        0 <= i < entries.len(),
    ensures
        entries_have(entries, entries[i].0),
        entries_value(entries, entries[i].0) == entries[i].1,
{
    let k = choose|k: int| 0 <= k < entries.len() && (#[trigger] entries[k]).0 == entries[i].0;
    lemma_lex_lt_irreflexive(entries[i].0);
    if k < i {
        assert(lex_lt(entries[k].0, entries[i].0));
    } else if i < k {
        assert(lex_lt(entries[i].0, entries[k].0));
    }
}

impl View for Datastore {
    type V = Seq<(Seq<u8>, Seq<u8>)>;

    open spec fn view(&self) -> Seq<(Seq<u8>, Seq<u8>)> {
        entries_view(self.entries@)
    }
}

/// The entries of a store in which `value` was put under `key`: in place of the
/// entry of `key` where there was one, else at the place that the order of the keys
/// gives it.
pub open spec fn entries_with(
    entries: Seq<(Seq<u8>, Seq<u8>)>,
    key: Seq<u8>,
    value: Seq<u8>,
) -> Seq<(Seq<u8>, Seq<u8>)>
    decreases entries.len(),
{
    if entries.len() == 0 {
        seq![(key, value)]
    } else if entries.last().0 == key {
        entries.drop_last().push((key, value))
    } else if lex_lt(entries.last().0, key) {
        entries.push((key, value))
    } else {
        entries_with(entries.drop_last(), key, value).push(entries.last())
    }
}

/// The entries of a store from which the entry of `key` was taken, if there was
/// one.
pub open spec fn entries_without(entries: Seq<(Seq<u8>, Seq<u8>)>, key: Seq<u8>) -> Seq<
    (Seq<u8>, Seq<u8>),
>
    decreases entries.len(),
{
    if entries.len() == 0 {
        entries
    } else if entries.last().0 == key {
        entries.drop_last()
    } else {
        entries_without(entries.drop_last(), key).push(entries.last())
    }
}

/// Putting a value under a key keeps the keys going up, puts the value under the
/// key, and leaves the other keys as they were.
pub proof fn lemma_entries_with(entries: Seq<(Seq<u8>, Seq<u8>)>, key: Seq<u8>, value: Seq<u8>)
    requires
        keys_ascending(entries),
    ensures
        keys_ascending(entries_with(entries, key, value)),
        entries_have(entries_with(entries, key, value), key),
        entries_value(entries_with(entries, key, value), key) == value,
        forall|other: Seq<u8>|
            other != key ==> (#[trigger] entries_have(entries_with(entries, key, value), other)
                == entries_have(entries, other)) && (entries_have(entries, other)
                ==> entries_value(entries_with(entries, key, value), other) == entries_value(
                entries,
                other,
            )),
        forall|i: int|
            0 <= i < entries_with(entries, key, value).len() ==> (#[trigger] entries_with(
                entries,
                key,
                value,
            )[i]).0 == key || entries_have(entries, entries_with(entries, key, value)[i].0),
    decreases entries.len(),
{
    let r = entries_with(entries, key, value);
    if entries.len() == 0 {
        assert(r[0].0 == key);
        lemma_entries_at(r, 0);
    } else {
        let head = entries.drop_last();
        let last = entries.last();
        assert(keys_ascending(head)) by {
            assert forall|i: int, j: int| 0 <= i < j < head.len() implies lex_lt(
                #[trigger] head[i].0,
                #[trigger] head[j].0,
            ) by {
                assert(lex_lt(entries[i].0, entries[j].0));
            }
        }
        lemma_lex_lt_total(last.0, key);
        if last.0 == key {
            assert forall|i: int, j: int| 0 <= i < j < r.len() implies lex_lt(
                #[trigger] r[i].0,
                #[trigger] r[j].0,
            ) by {
                assert(lex_lt(entries[i].0, entries[j].0));
            }
        } else if lex_lt(last.0, key) {
            assert forall|i: int, j: int| 0 <= i < j < r.len() implies lex_lt(
                #[trigger] r[i].0,
                #[trigger] r[j].0,
            ) by {
                if j < entries.len() {
                    assert(lex_lt(entries[i].0, entries[j].0));
                } else if i < entries.len() - 1 {
                    assert(lex_lt(entries[i].0, entries[entries.len() - 1].0));
                    lemma_lex_lt_transitive(entries[i].0, last.0, key);
                }
            }
        } else {
            lemma_entries_with(head, key, value);
            let h = entries_with(head, key, value);
            assert forall|i: int, j: int| 0 <= i < j < r.len() implies lex_lt(
                #[trigger] r[i].0,
                #[trigger] r[j].0,
            ) by {
                if j < h.len() {
                    assert(lex_lt(h[i].0, h[j].0));
                } else {
                    // every key of `h` is `key` or a key of `head`
                    if h[i].0 == key {
                    } else {
                        assert(entries_have(head, h[i].0));
                        let m = choose|m: int| 0 <= m < head.len() && (#[trigger] head[m]).0 == h[i].0;
                        assert(lex_lt(entries[m].0, entries[entries.len() - 1].0));
                    }
                }
            }
        }
        assert forall|i: int| 0 <= i < r.len() implies (#[trigger] r[i]).0 == key || entries_have(
            entries,
            r[i].0,
        ) by {
            if last.0 == key || lex_lt(last.0, key) {
                if i < entries.len() && r[i].0 != key {
                    assert(entries[i].0 == r[i].0);
                }
            } else {
                let h = entries_with(head, key, value);
                if i < h.len() {
                    if h[i].0 != key {
                        assert(entries_have(head, h[i].0));
                        let m = choose|m: int| 0 <= m < head.len() && (#[trigger] head[m]).0 == h[i].0;
                        assert(entries[m].0 == r[i].0);
                    }
                } else {
                    assert(entries[entries.len() - 1].0 == r[i].0);
                }
            }
        }
        // the entry of `key`
        let at: int = if last.0 == key || lex_lt(last.0, key) {
            r.len() - 1
        } else {
            choose|m: int|
                0 <= m < entries_with(head, key, value).len() && (#[trigger] entries_with(
                    head,
                    key,
                    value,
                )[m]).0 == key
        };
        assert(r[at].0 == key);
        lemma_entries_at(r, at);
        if !(last.0 == key || lex_lt(last.0, key)) {
            let h = entries_with(head, key, value);
            lemma_entries_at(h, at);
        }
        assert forall|other: Seq<u8>| other != key implies (#[trigger] entries_have(r, other)
            == entries_have(entries, other)) && (entries_have(entries, other) ==> entries_value(
            r,
            other,
        ) == entries_value(entries, other)) by {
            if entries_have(entries, other) {
                let m = choose|m: int| 0 <= m < entries.len() && (#[trigger] entries[m]).0 == other;
                lemma_entries_at(entries, m);
                if last.0 == key || lex_lt(last.0, key) {
                    assert(r[m].0 == other);
                    lemma_entries_at(r, m);
                } else {
                    let h = entries_with(head, key, value);
                    if m < head.len() {
                        assert(head[m].0 == other);
                        lemma_entries_at(head, m);
                        assert(entries_have(h, other));
                        let w = choose|w: int| 0 <= w < h.len() && (#[trigger] h[w]).0 == other;
                        lemma_entries_at(h, w);
                        assert(r[w] == h[w]);
                        lemma_entries_at(r, w);
                    } else {
                        assert(r[r.len() - 1] == last);
                        lemma_entries_at(r, r.len() - 1);
                    }
                }
            }
            if entries_have(r, other) {
                let w = choose|w: int| 0 <= w < r.len() && (#[trigger] r[w]).0 == other;
                assert(r[w].0 == key || entries_have(entries, r[w].0));
            }
        }
    }
}

/// Taking the entry of a key keeps the keys going up, leaves no entry for the key,
/// and leaves the other keys as they were.
pub proof fn lemma_entries_without(entries: Seq<(Seq<u8>, Seq<u8>)>, key: Seq<u8>)
    requires
        keys_ascending(entries),
    ensures
        keys_ascending(entries_without(entries, key)),
        !entries_have(entries_without(entries, key), key),
        forall|other: Seq<u8>|
            other != key ==> (#[trigger] entries_have(entries_without(entries, key), other)
                == entries_have(entries, other)) && (entries_have(entries, other)
                ==> entries_value(entries_without(entries, key), other) == entries_value(
                entries,
                other,
            )),
        forall|i: int|
            0 <= i < entries_without(entries, key).len() ==> entries_have(
                entries,
                (#[trigger] entries_without(entries, key)[i]).0,
            ),
    decreases entries.len(),
{
    let r = entries_without(entries, key);
    if entries.len() > 0 {
        let head = entries.drop_last();
        let last = entries.last();
        assert(keys_ascending(head)) by {
            assert forall|i: int, j: int| 0 <= i < j < head.len() implies lex_lt(
                #[trigger] head[i].0,
                #[trigger] head[j].0,
            ) by {
                assert(lex_lt(entries[i].0, entries[j].0));
            }
        }
        if last.0 == key {
            assert(!entries_have(r, key)) by {
                if entries_have(r, key) {
                    let m = choose|m: int| 0 <= m < r.len() && (#[trigger] r[m]).0 == key;
                    assert(lex_lt(entries[m].0, entries[entries.len() - 1].0));
                    lemma_lex_lt_irreflexive(key);
                }
            }
            assert forall|i: int| 0 <= i < r.len() implies entries_have(
                entries,
                (#[trigger] r[i]).0,
            ) by {
                assert(entries[i].0 == r[i].0);
            }
        } else {
            lemma_entries_without(head, key);
            let h = entries_without(head, key);
            assert forall|i: int| 0 <= i < r.len() implies entries_have(
                entries,
                (#[trigger] r[i]).0,
            ) by {
                if i < h.len() {
                    assert(entries_have(head, h[i].0));
                    let m = choose|m: int| 0 <= m < head.len() && (#[trigger] head[m]).0 == h[i].0;
                    assert(entries[m].0 == r[i].0);
                } else {
                    assert(entries[entries.len() - 1].0 == r[i].0);
                }
            }
            assert forall|i: int, j: int| 0 <= i < j < r.len() implies lex_lt(
                #[trigger] r[i].0,
                #[trigger] r[j].0,
            ) by {
                if j < h.len() {
                    assert(lex_lt(h[i].0, h[j].0));
                } else {
                    assert(entries_have(head, h[i].0));
                    let m = choose|m: int| 0 <= m < head.len() && (#[trigger] head[m]).0 == h[i].0;
                    assert(lex_lt(entries[m].0, entries[entries.len() - 1].0));
                }
            }
            assert(!entries_have(r, key)) by {
                if entries_have(r, key) {
                    let m = choose|m: int| 0 <= m < r.len() && (#[trigger] r[m]).0 == key;
                    if m < h.len() {
                        assert(h[m].0 == key);
                    }
                }
            }
        }
        assert forall|other: Seq<u8>| other != key implies (#[trigger] entries_have(r, other)
            == entries_have(entries, other)) && (entries_have(entries, other) ==> entries_value(
            r,
            other,
        ) == entries_value(entries, other)) by {
            if entries_have(entries, other) {
                let m = choose|m: int| 0 <= m < entries.len() && (#[trigger] entries[m]).0 == other;
                lemma_entries_at(entries, m);
                if last.0 == key {
                    assert(m < entries.len() - 1);
                    assert(r[m].0 == other);
                    lemma_entries_at(r, m);
                } else {
                    let h = entries_without(head, key);
                    if m < head.len() {
                        assert(head[m].0 == other);
                        lemma_entries_at(head, m);
                        assert(entries_have(h, other));
                        let w = choose|w: int| 0 <= w < h.len() && (#[trigger] h[w]).0 == other;
                        lemma_entries_at(h, w);
                        assert(r[w] == h[w]);
                        lemma_entries_at(r, w);
                    } else {
                        assert(r[r.len() - 1] == last);
                        lemma_entries_at(r, r.len() - 1);
                    }
                }
            }
            if entries_have(r, other) {
                let w = choose|w: int| 0 <= w < r.len() && (#[trigger] r[w]).0 == other;
                assert(entries_have(entries, r[w].0));
            }
        }
    }
}

/// Where the keys before the place `i` come before `key` and the key at `i` does
/// not, putting a value under `key` changes the entry at `i`, where it is the entry
/// of `key`, or puts a new entry at `i`.
pub proof fn lemma_entries_with_at(
    entries: Seq<(Seq<u8>, Seq<u8>)>,
    key: Seq<u8>,
    value: Seq<u8>,
    i: int,
)
    requires
        keys_ascending(entries),
        0 <= i <= entries.len(),
        forall|j: int| 0 <= j < i ==> lex_lt((#[trigger] entries[j]).0, key),
        i < entries.len() ==> !lex_lt(entries[i].0, key),
    ensures
        entries_with(entries, key, value) == if i < entries.len() && entries[i].0 == key {
            entries.update(i, (key, value))
        } else {
            entries.insert(i, (key, value))
        },
    decreases entries.len(),
{
    if entries.len() == 0 {
        assert(entries.insert(0, (key, value)) =~= seq![(key, value)]);
    } else {
        let n = entries.len() as int;
        let head = entries.drop_last();
        let last = entries.last();
        lemma_lex_lt_irreflexive(key);
        lemma_lex_lt_total(last.0, key);
        if i == n {
            assert(lex_lt(entries[n - 1].0, key));
            assert(entries.insert(n, (key, value)) =~= entries.push((key, value)));
        } else if i == n - 1 {
            if last.0 == key {
                assert(entries.update(i, (key, value)) =~= head.push((key, value)));
            } else {
                lemma_entries_with_at(head, key, value, i);
                assert(head.insert(i, (key, value)) =~= head.push((key, value)));
                assert(entries.insert(i, (key, value)) =~= head.push((key, value)).push(last));
            }
        } else {
            assert(lex_lt(entries[i].0, entries[n - 1].0));
            if entries[i].0 == key {
                assert(lex_lt(key, last.0));
            } else {
                lemma_lex_lt_total(entries[i].0, key);
                lemma_lex_lt_transitive(key, entries[i].0, last.0);
            }
            assert(last.0 != key && !lex_lt(last.0, key));
            assert forall|a: int, b: int| 0 <= a < b < head.len() implies lex_lt(
                #[trigger] head[a].0,
                #[trigger] head[b].0,
            ) by {
                assert(lex_lt(entries[a].0, entries[b].0));
            }
            lemma_entries_with_at(head, key, value, i);
            if entries[i].0 == key {
                assert(entries.update(i, (key, value)) =~= head.update(i, (key, value)).push(last));
            } else {
                assert(entries.insert(i, (key, value)) =~= head.insert(i, (key, value)).push(last));
            }
        }
    }
}

/// Taking the entry of the key at the place `i` takes the entry at `i`.
pub proof fn lemma_entries_without_at(entries: Seq<(Seq<u8>, Seq<u8>)>, key: Seq<u8>, i: int)
    requires
        keys_ascending(entries),
        0 <= i < entries.len(),
        entries[i].0 == key,
    ensures
        entries_without(entries, key) == entries.remove(i),
    decreases entries.len(),
{
    let n = entries.len() as int;
    let head = entries.drop_last();
    let last = entries.last();
    if i == n - 1 {
        assert(entries.remove(i) =~= head);
    } else {
        assert(lex_lt(entries[i].0, entries[n - 1].0));
        lemma_lex_lt_irreflexive(key);
        assert(last.0 != key);
        assert forall|a: int, b: int| 0 <= a < b < head.len() implies lex_lt(
            #[trigger] head[a].0,
            #[trigger] head[b].0,
        ) by {
            assert(lex_lt(entries[a].0, entries[b].0));
        }
        lemma_entries_without_at(head, key, i);
        assert(entries.remove(i) =~= head.remove(i).push(last));
    }
}

/// Taking the entry of a key that has none changes nothing.
pub proof fn lemma_entries_without_none(entries: Seq<(Seq<u8>, Seq<u8>)>, key: Seq<u8>)
    requires
        !entries_have(entries, key),
    ensures
        entries_without(entries, key) == entries,
    decreases entries.len(),
{
    if entries.len() > 0 {
        let head = entries.drop_last();
        assert(entries[entries.len() - 1].0 != key);
        assert(!entries_have(head, key)) by {
            if entries_have(head, key) {
                let m = choose|m: int| 0 <= m < head.len() && (#[trigger] head[m]).0 == key;
                assert(entries[m].0 == key);
            }
        }
        lemma_entries_without_none(head, key);
        assert(head.push(entries.last()) =~= entries);
    }
}

impl Datastore {
    /// Whether the keys of the store go up strictly.
    pub open spec fn wf(&self) -> bool {
        keys_ascending(self@)
    }

    /// The empty store.
    pub fn new() -> (r: Datastore)
        ensures
            r.wf(),
            r@.len() == 0,
    {
        Datastore { entries: Vec::new() }
    }

    /// The number of entries.
    pub fn len(&self) -> (r: usize)
        ensures
            r == self@.len(),
    {
        self.entries.len()
    }

    /// The place of the first entry whose key does not come before `key`, and
    /// whether that key is `key`.
    fn position(&self, key: &[u8]) -> (r: (usize, bool))
        requires
            self.wf(),
        ensures
            r.0 <= self@.len(),
            forall|j: int| 0 <= j < r.0 ==> lex_lt((#[trigger] self@[j]).0, key@),
            r.0 < self@.len() ==> !lex_lt(self@[r.0 as int].0, key@),
            r.1 <==> r.0 < self@.len() && self@[r.0 as int].0 == key@,
            r.1 <==> entries_have(self@, key@),
    {
        let mut i: usize = 0;
        while i < self.entries.len()
            invariant
                self.wf(),
                i <= self@.len(),
                self@.len() == self.entries@.len(),
                forall|j: int| 0 <= j < i ==> lex_lt((#[trigger] self@[j]).0, key@),
            decreases self.entries@.len() - i,
        {
            let order = compare_bytes(self.entries[i].0.as_slice(), key);
            proof {
                assert(self@[i as int].0 == self.entries@[i as int].0@);
                lemma_lex_lt_total(self@[i as int].0, key@);
            }
            match order {
                Order::Before => {},
                Order::Same => {
                    return (i, true);
                },
                Order::After => {
                    proof {
                        assert(!entries_have(self@, key@)) by {
                            if entries_have(self@, key@) {
                                let m = choose|m: int|
                                    0 <= m < self@.len() && (#[trigger] self@[m]).0 == key@;
                                lemma_lex_lt_irreflexive(key@);
                                if m < i {
                                    assert(lex_lt(self@[m].0, key@));
                                } else if m > i {
                                    assert(lex_lt(self@[i as int].0, self@[m].0));
                                }
                            }
                        }
                    }
                    return (i, false);
                },
            }
            i += 1;
        }
        proof {
            assert(!entries_have(self@, key@)) by {
                if entries_have(self@, key@) {
                    let m = choose|m: int| 0 <= m < self@.len() && (#[trigger] self@[m]).0 == key@;
                    lemma_lex_lt_irreflexive(key@);
                    assert(lex_lt(self@[m].0, key@));
                }
            }
        }
        (i, false)
    }

    /// The value under `key`, if there is one.
    pub fn get(&self, key: &[u8]) -> (r: Option<&Vec<u8>>)
        requires
            self.wf(),
        ensures
            r is Some <==> entries_have(self@, key@),
            r is Some ==> r.unwrap()@ == entries_value(self@, key@),
    {
        let (i, found) = self.position(key);
        if found {
            proof {
                lemma_entries_at(self@, i as int);
            }
            Some(&self.entries[i].1)
        } else {
            None
        }
    }

    /// Puts `value` under `key`, in place of the value that was there, if any.
    pub fn insert(&mut self, key: Vec<u8>, value: Vec<u8>)
        requires
            old(self).wf(),
        ensures
            final(self).wf(),
            final(self)@ == entries_with(old(self)@, key@, value@),
    {
        let (i, found) = self.position(key.as_slice());
        proof {
            lemma_entries_with_at(self@, key@, value@, i as int);
            lemma_entries_with(self@, key@, value@);
        }
        if found {
            self.entries[i] = (key, value);
            proof {
                assert(self@ =~= old(self)@.update(i as int, (key@, value@)));
            }
        } else {
            self.entries.insert(i, (key, value));
            proof {
                assert(self@ =~= old(self)@.insert(i as int, (key@, value@)));
            }
        }
    }

    /// Takes the entry of `key` out of the store, if there is one. Returns the value
    /// that was under it.
    pub fn remove(&mut self, key: &[u8]) -> (r: Option<Vec<u8>>)
        requires
            old(self).wf(),
        ensures
            final(self).wf(),
            final(self)@ == entries_without(old(self)@, key@),
            r is Some <==> entries_have(old(self)@, key@),
            r is Some ==> r.unwrap()@ == entries_value(old(self)@, key@),
    {
        let (i, found) = self.position(key);
        proof {
            lemma_entries_without(self@, key@);
        }
        if found {
            proof {
                lemma_entries_without_at(self@, key@, i as int);
                lemma_entries_at(self@, i as int);
            }
            let (_, value) = self.entries.remove(i);
            proof {
                assert(self@ =~= old(self)@.remove(i as int));
            }
            Some(value)
        } else {
            proof {
                lemma_entries_without_none(self@, key@);
            }
            None
        }
    }
}

} // verus!
