//! A table of values under text keys, each key at most once.

use crate::text;
use vstd::prelude::*;

verus! {

/// A table of values under text keys. Keys keep the order in which they first came.
pub struct Table<V> {
    entries: Vec<(String, V)>,
}

impl<V> View for Table<V> {
    type V = Map<Seq<char>, V>;

    closed spec fn view(&self) -> Map<Seq<char>, V> {
        Map::new(|k: Seq<char>| self.has(k), |k: Seq<char>| self.entries@[self.index_of(k)].1)
    }
}

impl<V> Table<V> {
    /// Whether an entry stands under a key.
    pub closed spec fn has(&self, k: Seq<char>) -> bool {
        exists|i: int| 0 <= i < self.entries@.len() && #[trigger] self.entries@[i].0@ == k
    }

    /// An index of an entry under a key.
    spec fn index_of(&self, k: Seq<char>) -> int {
        choose|i: int| 0 <= i < self.entries@.len() && #[trigger] self.entries@[i].0@ == k
    }

    /// No key stands twice.
    pub closed spec fn wf(&self) -> bool {
        forall|i: int, j: int|
            0 <= i < self.entries@.len() && 0 <= j < self.entries@.len()
                && #[trigger] self.entries@[i].0@ == #[trigger] self.entries@[j].0@ ==> i == j
    }

    /// The keys in their order.
    pub closed spec fn keys(&self) -> Seq<Seq<char>> {
        Seq::new(self.entries@.len(), |i: int| self.entries@[i].0@)
    }

    /// The keys are those of the view, each once.
    pub proof fn lemma_keys(&self)
        requires
            self.wf(),
        ensures
            forall|k: Seq<char>| self@.contains_key(k) <==> self.keys().contains(k),
            self.keys().no_duplicates(),
    {
        assert forall|k: Seq<char>| self@.contains_key(k) <==> self.keys().contains(k) by {
            if self.has(k) {
                let i = self.index_of(k);
                assert(self.keys()[i] == k);
            }
            if self.keys().contains(k) {
                let i = choose|i: int| 0 <= i < self.keys().len() && self.keys()[i] == k;
                assert(self.entries@[i].0@ == k);
            }
        }
    }

    /// An entry fixes what the view holds under its key.
    proof fn lemma_at(&self, i: int)
        requires
            self.wf(),
            0 <= i < self.entries@.len(),
        ensures
            self@.contains_key(self.entries@[i].0@),
            self@[self.entries@[i].0@] == self.entries@[i].1,
    {
        assert(self.entries@[i].0@ == self.entries@[i].0@);
        assert(self.has(self.entries@[i].0@));
    }

    /// The empty table.
    pub fn new() -> (r: Table<V>)
        ensures
            r.wf(),
            r@ == Map::<Seq<char>, V>::empty(),
            r.keys() == Seq::<Seq<char>>::empty(),
    {
        let r = Table { entries: Vec::new() };
        assert(r@ =~= Map::<Seq<char>, V>::empty());
        assert(r.keys() =~= Seq::<Seq<char>>::empty());
        r
    }

    /// How many keys there are.
    pub fn len(&self) -> (r: usize)
        ensures
            r == self.keys().len(),
    {
        self.entries.len()
    }

    /// The key and the value at a place in the order.
    pub fn entry(&self, i: usize) -> (r: (&String, &V))
        requires
            self.wf(),
            i < self.keys().len(),
        ensures
            r.0@ == self.keys()[i as int],
            self@.contains_key(r.0@),
            *r.1 == self@[r.0@],
    {
        proof {
            self.lemma_at(i as int);
        }
        (&self.entries[i].0, &self.entries[i].1)
    }

    /// Where a key stands.
    fn find(&self, key: &str) -> (r: Option<usize>)
        requires
            self.wf(),
        ensures
            match r {
                Some(i) => i < self.entries@.len() && self.entries@[i as int].0@ == key@,
                None => !self.has(key@),
            },
    {
        let mut i: usize = 0;
        while i < self.entries.len()
            invariant
                i <= self.entries@.len(),
                forall|j: int| 0 <= j < i ==> #[trigger] self.entries@[j].0@ != key@,
            decreases self.entries@.len() - i,
        {
            if text::same_str(self.entries[i].0.as_str(), key) {
                return Some(i);
            }
            i = i + 1;
        }
        None
    }

    /// The value under a key.
    pub fn get(&self, key: &str) -> (r: Option<&V>)
        requires
            self.wf(),
        ensures
            match r {
                Some(v) => self@.contains_key(key@) && *v == self@[key@],
                None => !self@.contains_key(key@),
            },
    {
        match self.find(key) {
            Some(i) => {
                proof {
                    self.lemma_at(i as int);
                }
                Some(&self.entries[i].1)
            },
            None => None,
        }
    }

    /// Puts a value under a key, in the place of the one that stood there.
    pub fn insert(&mut self, key: String, value: V)
        requires
            old(self).wf(),
        ensures
            final(self).wf(),
            final(self)@ == old(self)@.insert(key@, value),
            final(self).keys() == if old(self)@.contains_key(key@) {
                old(self).keys()
            } else {
                old(self).keys().push(key@)
            },
    {
        let ghost before = *self;
        match self.find(key.as_str()) {
            Some(i) => {
                let ghost k = key@;
                self.entries.set(i, (key, value));
                proof {
                    before.lemma_at(i as int);
                    assert forall|j: int| 0 <= j < self.entries@.len() implies #[trigger] self.entries@[j].0@
                        == before.entries@[j].0@ by {}
                    assert(self.wf()) by {
                        assert forall|a: int, b: int|
                            0 <= a < self.entries@.len() && 0 <= b < self.entries@.len()
                                && #[trigger] self.entries@[a].0@
                                == #[trigger] self.entries@[b].0@ implies a == b by {
                            assert(before.entries@[a].0@ == before.entries@[b].0@);
                        }
                    }
                    assert forall|x: Seq<char>| self.has(x) == before.has(x) by {
                        if self.has(x) {
                            let j = self.index_of(x);
                            assert(before.entries@[j].0@ == x);
                        }
                        if before.has(x) {
                            let j = before.index_of(x);
                            assert(self.entries@[j].0@ == x);
                        }
                    }
                    assert(self@ =~= before@.insert(k, value)) by {
                        assert forall|x: Seq<char>| before@.insert(k, value).contains_key(x) implies self@[x]
                            == before@.insert(k, value)[x] by {
                            let j = self.index_of(x);
                            assert(self.has(x));
                            self.lemma_at(j);
                            before.lemma_at(j);
                        }
                    }
                    assert(self.keys() =~= before.keys());
                }
            },
            None => {
                let ghost k = key@;
                self.entries.push((key, value));
                proof {
                    let n = before.entries@.len() as int;
                    assert(self.entries@[n].0@ == k);
                    assert forall|j: int| 0 <= j < n implies #[trigger] self.entries@[j]
                        == before.entries@[j] by {}
                    assert(self.wf()) by {
                        assert forall|a: int, b: int|
                            0 <= a < self.entries@.len() && 0 <= b < self.entries@.len()
                                && #[trigger] self.entries@[a].0@
                                == #[trigger] self.entries@[b].0@ implies a == b by {
                            if a < n && b < n {
                                assert(before.entries@[a].0@ == before.entries@[b].0@);
                            } else if a < n {
                                assert(before.entries@[a].0@ == k);
                            } else if b < n {
                                assert(before.entries@[b].0@ == k);
                            }
                        }
                    }
                    assert forall|x: Seq<char>| self.has(x) == (before.has(x) || x == k) by {
                        if self.has(x) {
                            let j = self.index_of(x);
                            if j < n {
                                assert(before.entries@[j].0@ == x);
                            }
                        }
                        if before.has(x) {
                            let j = before.index_of(x);
                            assert(self.entries@[j].0@ == x);
                        }
                    }
                    assert(self@ =~= before@.insert(k, value)) by {
                        assert forall|x: Seq<char>| before@.insert(k, value).contains_key(x) implies self@[x]
                            == before@.insert(k, value)[x] by {
                            assert(self.has(x));
                            let j = self.index_of(x);
                            self.lemma_at(j);
                            if j < n {
                                before.lemma_at(j);
                            }
                        }
                    }
                    assert(self.keys() =~= before.keys().push(k));
                }
            },
        }
    }

    /// Takes the entry under a key out.
    pub fn remove(&mut self, key: &str) -> (r: Option<V>)
        requires
            old(self).wf(),
        ensures
            final(self).wf(),
            final(self)@ == old(self)@.remove(key@),
            match r {
                Some(v) => old(self)@.contains_key(key@) && v == old(self)@[key@],
                None => !old(self)@.contains_key(key@),
            },
    {
        let ghost before = *self;
        match self.find(key) {
            Some(i) => {
                let e = self.entries.remove(i);
                proof {
                    before.lemma_at(i as int);
                    let n = self.entries@.len() as int;
                    assert forall|j: int| 0 <= j < n implies #[trigger] self.entries@[j]
                        == before.entries@[if j < i { j } else { j + 1 }] by {}
                    assert(self.wf()) by {
                        assert forall|a: int, b: int|
                            0 <= a < n && 0 <= b < n && #[trigger] self.entries@[a].0@
                                == #[trigger] self.entries@[b].0@ implies a == b by {
                            let x = if a < i { a } else { a + 1 };
                            let y = if b < i { b } else { b + 1 };
                            assert(before.entries@[x].0@ == before.entries@[y].0@);
                        }
                    }
                    assert forall|x: Seq<char>| self.has(x) == (before.has(x) && x != key@) by {
                        if self.has(x) {
                            let j = self.index_of(x);
                            let y = if j < i { j } else { j + 1 };
                            assert(before.entries@[y].0@ == x);
                            if x == key@ {
                                assert(before.entries@[i as int].0@ == x);
                            }
                        }
                        if before.has(x) && x != key@ {
                            let j = before.index_of(x);
                            let y = if j < i { j } else { j - 1 };
                            assert(self.entries@[y].0@ == x);
                        }
                    }
                    assert(self@ =~= before@.remove(key@)) by {
                        assert forall|x: Seq<char>| before@.remove(key@).contains_key(x) implies self@[x]
                            == before@.remove(key@)[x] by {
                            assert(self.has(x));
                            let j = self.index_of(x);
                            self.lemma_at(j);
                            before.lemma_at(if j < i { j } else { j + 1 });
                        }
                    }
                }
                Some(e.1)
            },
            None => {
                assert(self@ =~= before@.remove(key@));
                None
            },
        }
    }
}

} // verus!
