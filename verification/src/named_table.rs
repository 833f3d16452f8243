//! A table of values filed under distinct names, in the order the names
//! were first filed.
use vstd::prelude::*;

verus! {

/// Values filed under distinct names. Filing under a known name replaces the
/// value in its place; a new name comes last.
pub struct NamedTable<T> {
    entries: Vec<(String, T)>,
}

impl<T> NamedTable<T> {
    /// The names and values, in order.
    pub closed spec fn entries(&self) -> Seq<(Seq<char>, T)> {
        self.entries@.map_values(|e: (String, T)| (e.0@, e.1))
    }

    /// The values, by name.
    pub closed spec fn map(&self) -> Map<Seq<char>, T> {
        Map::new(
            |k: Seq<char>| exists|i: int| 0 <= i < self.entries@.len() && self.entries@[i].0@ == k,
            |k: Seq<char>| self.entries@[choose|i: int| 0 <= i < self.entries@.len() && self.entries@[i].0@ == k].1,
        )
    }

    /// No name is filed twice.
    pub closed spec fn wf(&self) -> bool {
        forall|i: int, j: int|
            0 <= i < self.entries@.len() && 0 <= j < self.entries@.len() && i != j ==> (#[trigger] self.entries@[i]).0@
                != (#[trigger] self.entries@[j]).0@
    }

    /// The map holds exactly the entries: a name is in it when some entry
    /// bears it, with that entry's value, and no name occurs twice.
    pub proof fn lemma_map_is_entries(&self)
        requires
            self.wf(),
        ensures
            forall|k: Seq<char>|
                #[trigger] self.map().contains_key(k) <==> exists|i: int|
                    0 <= i < self.entries().len() && #[trigger] self.entries()[i].0 == k,
            forall|i: int|
                0 <= i < self.entries().len() ==> self.map().contains_key(#[trigger] self.entries()[i].0)
                    && self.map()[self.entries()[i].0] == self.entries()[i].1,
            forall|i: int, j: int|
                0 <= i < self.entries().len() && 0 <= j < self.entries().len() && i != j
                    ==> #[trigger] self.entries()[i].0 != #[trigger] self.entries()[j].0,
    {
        assert forall|k: Seq<char>| #[trigger] self.map().contains_key(k) <==> exists|i: int|
            0 <= i < self.entries().len() && #[trigger] self.entries()[i].0 == k by {
            if self.map().contains_key(k) {
                let c = choose|c: int| 0 <= c < self.entries@.len() && self.entries@[c].0@ == k;
                assert(self.entries()[c].0 == k);
            }
            if exists|i: int| 0 <= i < self.entries().len() && #[trigger] self.entries()[i].0 == k {
                let c = choose|i: int| 0 <= i < self.entries().len() && #[trigger] self.entries()[i].0 == k;
                assert(self.entries@[c].0@ == k);
            }
        }
        assert forall|i: int| 0 <= i < self.entries().len() implies self.map().contains_key(
            #[trigger] self.entries()[i].0,
        ) && self.map()[self.entries()[i].0] == self.entries()[i].1 by {
            let k = self.entries@[i].0@;
            assert(self.entries@[i].0@ == k);
            let c = choose|c: int| 0 <= c < self.entries@.len() && self.entries@[c].0@ == k;
            assert(c == i);
        }
    }

    /// An empty table.
    pub fn new() -> (t: Self)
        ensures
            t.wf(),
            t.map() == Map::<Seq<char>, T>::empty(),
            t.entries() == Seq::<(Seq<char>, T)>::empty(),
    {
        let t = NamedTable { entries: Vec::new() };
        assert(t.map() =~= Map::<Seq<char>, T>::empty());
        assert(t.entries() =~= Seq::<(Seq<char>, T)>::empty());
        t
    }

    /// The number of entries.
    pub fn len(&self) -> (n: usize)
        ensures
            n == self.entries().len(),
    {
        self.entries.len()
    }

    /// The name of the entry at position `i`.
    pub fn name_at(&self, i: usize) -> (s: &String)
        requires
            i < self.entries().len(),
        ensures
            s@ == self.entries()[i as int].0,
    {
        &self.entries[i].0
    }

    /// The value of the entry at position `i`.
    pub fn value_at(&self, i: usize) -> (v: &T)
        requires
            i < self.entries().len(),
        ensures
            *v == self.entries()[i as int].1,
    {
        &self.entries[i].1
    }

    /// The position of the entry named `name`, if there is one.
    pub fn position(&self, name: &str) -> (pos: Option<usize>)
        requires
            self.wf(),
        ensures
            match pos {
                Some(i) => i < self.entries().len() && self.entries()[i as int].0 == name@
                    && self.map().contains_key(name@) && self.map()[name@]
                    == self.entries()[i as int].1,
                None => !self.map().contains_key(name@),
            },
    {
        let key = name.to_owned();
        let mut i: usize = 0;
        while i < self.entries.len()
            invariant
                key@ == name@,
                self.wf(),
                i <= self.entries@.len(),
                forall|j: int| 0 <= j < i ==> (#[trigger] self.entries@[j]).0@ != name@,
            decreases self.entries@.len() - i,
        {
            if self.entries[i].0 == key {
                proof {
                    assert(self.entries@[i as int].0@ == name@);
                    let c = choose|c: int| 0 <= c < self.entries@.len() && self.entries@[c].0@ == name@;
                    assert(c == i);
                }
                return Some(i);
            }
            i = i + 1;
        }
        None
    }

    /// Files `value` under `name`, replacing the value filed under it before,
    /// in its place; a new name comes last.
    pub fn insert(&mut self, name: &str, value: T)
        requires
            old(self).wf(),
        ensures
            final(self).wf(),
            final(self).map() == old(self).map().insert(name@, value),
            old(self).map().contains_key(name@) ==> exists|i: int|
                0 <= i < old(self).entries().len() && old(self).entries()[i].0 == name@
                    && final(self).entries() == old(self).entries().update(i, (name@, value)),
            !old(self).map().contains_key(name@) ==> final(self).entries() == old(self).entries().push(
                (name@, value),
            ),
    {
        let ghost before = self.entries@;
        let ghost m0 = self.map();
        match self.position(name) {
            Some(i) => {
                self.entries.set(i, (name.to_owned(), value));
                proof {
                    let after = self.entries@;
                    assert forall|a: int, b: int|
                        0 <= a < after.len() && 0 <= b < after.len() && a != b implies (#[trigger] after[a]).0@
                            != (#[trigger] after[b]).0@ by {
                        if a != i && b != i {
                            assert(before[a] == after[a] && before[b] == after[b]);
                        } else if a == i {
                            assert(before[b] == after[b]);
                            assert(before[a].0@ == after[a].0@);
                        } else {
                            assert(before[a] == after[a]);
                            assert(before[b].0@ == after[b].0@);
                        }
                    }
                    assert forall|k: Seq<char>| #[trigger] self.map().contains_key(k) == m0.insert(name@, value).contains_key(k) by {
                        if k != name@ {
                            if m0.contains_key(k) {
                                let c = choose|c: int| 0 <= c < before.len() && before[c].0@ == k;
                                assert(after[c] == before[c]);
                            }
                            if self.map().contains_key(k) {
                                let c = choose|c: int| 0 <= c < after.len() && after[c].0@ == k;
                                assert(after[c] == before[c]);
                            }
                        } else {
                            assert(after[i as int].0@ == k);
                        }
                    }
                    assert forall|k: Seq<char>| #[trigger] self.map().contains_key(k) implies self.map()[k] == m0.insert(name@, value)[k] by {
                        let c = choose|c: int| 0 <= c < after.len() && after[c].0@ == k;
                        if k == name@ {
                            assert(after[i as int].0@ == k);
                        } else {
                            assert(after[c] == before[c]);
                            let c0 = choose|c0: int| 0 <= c0 < before.len() && before[c0].0@ == k;
                            assert(after[c0] == before[c0]);
                        }
                    }
                    assert(self.map() =~= m0.insert(name@, value));
                    assert(self.entries() =~= old(self).entries().update(i as int, (name@, value)));
                }
            },
            None => {
                self.entries.push((name.to_owned(), value));
                proof {
                    let after = self.entries@;
                    assert forall|a: int, b: int|
                        0 <= a < after.len() && 0 <= b < after.len() && a != b implies (#[trigger] after[a]).0@
                            != (#[trigger] after[b]).0@ by {
                        if a == before.len() {
                            assert(before[b] == after[b]);
                        } else if b == before.len() {
                            assert(before[a] == after[a]);
                        } else {
                            assert(before[a] == after[a] && before[b] == after[b]);
                        }
                    }
                    assert forall|k: Seq<char>| #[trigger] self.map().contains_key(k) == m0.insert(name@, value).contains_key(k) by {
                        if k != name@ {
                            if m0.contains_key(k) {
                                let c = choose|c: int| 0 <= c < before.len() && before[c].0@ == k;
                                assert(after[c] == before[c]);
                            }
                            if self.map().contains_key(k) {
                                let c = choose|c: int| 0 <= c < after.len() && after[c].0@ == k;
                                assert(after[c] == before[c]);
                            }
                        } else {
                            assert(after[before.len() as int].0@ == k);
                        }
                    }
                    assert forall|k: Seq<char>| #[trigger] self.map().contains_key(k) implies self.map()[k] == m0.insert(name@, value)[k] by {
                        let c = choose|c: int| 0 <= c < after.len() && after[c].0@ == k;
                        if k == name@ {
                            assert(after[before.len() as int].0@ == k);
                        } else {
                            assert(after[c] == before[c]);
                            let c0 = choose|c0: int| 0 <= c0 < before.len() && before[c0].0@ == k;
                            assert(after[c0] == before[c0]);
                        }
                    }
                    assert(self.map() =~= m0.insert(name@, value));
                    assert(self.entries() =~= old(self).entries().push((name@, value)));
                }
            },
        }
    }
}

} // verus!
