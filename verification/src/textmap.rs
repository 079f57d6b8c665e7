//! A map from texts, kept in dictionary order.
use vstd::prelude::*;

use crate::text;

verus! {

/// Values under texts, no text twice, in dictionary order.
#[derive(Debug)]
pub struct TextMap<V> {
    entries: Vec<(String, V)>,
}

impl<V> View for TextMap<V> {
    type V = Map<Seq<char>, V>;

    closed spec fn view(&self) -> Map<Seq<char>, V> {
        Map::new(|k: Seq<char>| self.holds(k), |k: Seq<char>| self.entries@[self.place(k)].1)
    }
}

impl<V> TextMap<V> {
    /// The keys, in order.
    pub closed spec fn keys(self) -> Seq<Seq<char>> {
        self.entries@.map_values(|e: (String, V)| e.0@)
    }

    /// Whether the keys are in dictionary order, none twice.
    pub closed spec fn wf(self) -> bool {
        forall|i: int, j: int|
            0 <= i < j < self.entries@.len() ==> text::text_before(
                (#[trigger] self.entries@[i]).0@,
                (#[trigger] self.entries@[j]).0@,
            )
    }

    spec fn at(self, i: int, k: Seq<char>) -> bool {
        0 <= i < self.entries@.len() && self.entries@[i].0@ == k
    }

    spec fn holds(self, k: Seq<char>) -> bool {
        exists|i: int| self.at(i, k)
    }

    spec fn place(self, k: Seq<char>) -> int {
        choose|i: int| self.at(i, k)
    }

    /// A key stands in one place.
    proof fn lemma_place(self, i: int, k: Seq<char>)
        requires
            self.wf(),
            self.at(i, k),
        ensures
            self@.contains_key(k),
            self@[k] == self.entries@[i].1,
            self.place(k) == i,
    {
        let j = self.place(k);
        assert(self.at(j, k));
        text::lemma_text_before_irreflexive(k);
        if i < j {
            assert(text::text_before(self.entries@[i].0@, self.entries@[j].0@));
        } else if j < i {
            assert(text::text_before(self.entries@[j].0@, self.entries@[i].0@));
        }
    }

    /// The keys are those that the map has.
    pub proof fn lemma_keys(self)
        requires
            self.wf(),
        ensures
            self.keys().no_duplicates(),
            self.keys().to_set() =~= self@.dom(),
            self.keys().len() == self@.dom().len(),
            forall|i: int, j: int|
                0 <= i < j < self.keys().len() ==> text::text_before(
                    #[trigger] self.keys()[i],
                    #[trigger] self.keys()[j],
                ),
    {
        let ks = self.keys();
        assert forall|i: int, j: int| 0 <= i < j < ks.len() implies text::text_before(
            #[trigger] ks[i],
            #[trigger] ks[j],
        ) by {
            assert(text::text_before(self.entries@[i].0@, self.entries@[j].0@));
        }
        assert forall|i: int, j: int| 0 <= i < ks.len() && 0 <= j < ks.len() && i != j implies ks[i]
            != ks[j] by {
            text::lemma_text_before_irreflexive(ks[i]);
            if i < j {
                assert(text::text_before(ks[i], ks[j]));
            } else {
                assert(text::text_before(ks[j], ks[i]));
            }
        }
        assert forall|k: Seq<char>| #[trigger] ks.to_set().contains(k) == self@.dom().contains(
            k,
        ) by {
            if ks.contains(k) {
                let i = choose|i: int| 0 <= i < ks.len() && ks[i] == k;
                assert(self.at(i, k));
            }
            if self.holds(k) {
                let i = self.place(k);
                assert(self.at(i, k));
                assert(ks[i] == k);
            }
        }
        assert(ks.to_set() =~= self@.dom());
        ks.unique_seq_to_set();
    }

    /// A map with nothing in it.
    pub fn new() -> (m: TextMap<V>)
        ensures
            m.wf(),
            m@ == Map::<Seq<char>, V>::empty(),
    {
        let m = TextMap { entries: Vec::new() };
        assert(m@ =~= Map::<Seq<char>, V>::empty());
        m
    }

    /// How many keys there are.
    pub fn len(&self) -> (n: usize)
        requires
            self.wf(),
        ensures
            n == self@.dom().len(),
            n == self.keys().len(),
    {
        proof {
            self.lemma_keys();
        }
        self.entries.len()
    }

    /// The key at a place in the order.
    pub fn key_at(&self, i: usize) -> (k: &str)
        requires
            self.wf(),
            i < self.keys().len(),
        ensures
            k@ == self.keys()[i as int],
            self@.contains_key(k@),
    {
        proof {
            self.lemma_place(i as int, self.entries@[i as int].0@);
        }
        self.entries[i].0.as_str()
    }

    /// The value at a place in the order.
    pub fn value_at(&self, i: usize) -> (v: &V)
        requires
            self.wf(),
            i < self.keys().len(),
        ensures
            *v == self@[self.keys()[i as int]],
    {
        proof {
            self.lemma_place(i as int, self.entries@[i as int].0@);
        }
        &self.entries[i].1
    }

    /// Where a key stands or would stand.
    fn find(&self, k: &str) -> (r: (bool, usize))
        requires
            self.wf(),
        ensures
            r.1 <= self.entries@.len(),
            r.0 ==> self.at(r.1 as int, k@),
            !r.0 ==> !self.holds(k@),
            !r.0 ==> forall|j: int|
                0 <= j < r.1 ==> text::text_before((#[trigger] self.entries@[j]).0@, k@),
            !r.0 ==> forall|j: int|
                r.1 <= j < self.entries@.len() ==> text::text_before(
                    k@,
                    (#[trigger] self.entries@[j]).0@,
                ),
    {
        let mut i: usize = 0;
        while i < self.entries.len() && text::string_before(self.entries[i].0.as_str(), k)
            invariant
                i <= self.entries@.len(),
                forall|j: int|
                    0 <= j < i ==> text::text_before((#[trigger] self.entries@[j]).0@, k@),
            decreases self.entries@.len() - i,
        {
            i += 1;
        }
        if i < self.entries.len() && text::same_text(self.entries[i].0.as_str(), k) {
            return (true, i);
        }
        proof {
            if i < self.entries@.len() {
                text::lemma_text_before_total(self.entries@[i as int].0@, k@);
                assert forall|j: int| i <= j < self.entries@.len() implies text::text_before(
                    k@,
                    (#[trigger] self.entries@[j]).0@,
                ) by {
                    if i < j {
                        text::lemma_text_before_transitive(
                            k@,
                            self.entries@[i as int].0@,
                            self.entries@[j].0@,
                        );
                    }
                }
            }
            assert forall|j: int| !self.at(j, k@) by {
                text::lemma_text_before_irreflexive(k@);
                if 0 <= j < self.entries@.len() {
                    if j < i {
                        assert(text::text_before(self.entries@[j].0@, k@));
                    } else {
                        assert(text::text_before(k@, self.entries@[j].0@));
                    }
                }
            }
        }
        (false, i)
    }

    /// The value under a key.
    pub fn get(&self, k: &str) -> (r: Option<&V>)
        requires
            self.wf(),
        ensures
            match r {
                Some(v) => self@.contains_key(k@) && *v == self@[k@],
                None => !self@.contains_key(k@),
            },
    {
        let (found, i) = self.find(k);
        if found {
            proof {
                self.lemma_place(i as int, k@);
            }
            Some(&self.entries[i].1)
        } else {
            None
        }
    }

    /// Puts a value under a key, in place of any that was there.
    pub fn insert(&mut self, k: String, v: V)
        requires
            old(self).wf(),
        ensures
            final(self).wf(),
            final(self)@ == old(self)@.insert(k@, v),
    {
        let (found, i) = self.find(k.as_str());
        let ghost before = *self;
        let ghost key = k@;
        if found {
            self.entries[i] = (k, v);
            proof {
                assert(self.wf()) by {
                    assert forall|a: int, b: int|
                        0 <= a < b < self.entries@.len() implies text::text_before(
                        (#[trigger] self.entries@[a]).0@,
                        (#[trigger] self.entries@[b]).0@,
                    ) by {
                        assert(text::text_before(before.entries@[a].0@, before.entries@[b].0@));
                    }
                }
                self.lemma_updated(before, i as int, key, v);
            }
        } else {
            self.entries.insert(i, (k, v));
            proof {
                assert(self.wf()) by {
                    assert forall|a: int, b: int|
                        0 <= a < b < self.entries@.len() implies text::text_before(
                        (#[trigger] self.entries@[a]).0@,
                        (#[trigger] self.entries@[b]).0@,
                    ) by {
                        let x = if a < i {
                            a
                        } else {
                            a - 1
                        };
                        let y = if b < i {
                            b
                        } else {
                            b - 1
                        };
                        if a == i {
                            assert(text::text_before(key, before.entries@[y].0@));
                        } else if b == i {
                            assert(text::text_before(before.entries@[x].0@, key));
                        } else {
                            assert(text::text_before(before.entries@[x].0@, before.entries@[y].0@));
                        }
                    }
                }
                self.lemma_inserted(before, i as int, key, v);
            }
        }
    }

    /// Putting a value over another is what putting it in the map is.
    proof fn lemma_updated(self, before: TextMap<V>, i: int, k: Seq<char>, v: V)
        requires
            before.wf(),
            self.wf(),
            before.at(i, k),
            self.entries@.len() == before.entries@.len(),
            self.at(i, k),
            self.entries@[i].1 == v,
            forall|j: int|
                0 <= j < self.entries@.len() && j != i ==> #[trigger] self.entries@[j]
                    == before.entries@[j],
        ensures
            self@ == before@.insert(k, v),
    {
        assert forall|q: Seq<char>| #[trigger]
            self@.dom().contains(q) == before@.insert(k, v).dom().contains(q) && (
        self@.dom().contains(q) ==> self@[q] == before@.insert(k, v)[q]) by {
            if self.holds(q) {
                let j = self.place(q);
                assert(self.at(j, q));
                self.lemma_place(j, q);
                self.lemma_place(i, k);
                if j != i {
                    assert(before.at(j, q));
                    before.lemma_place(j, q);
                    assert(q != k);
                }
            }
            if before.holds(q) {
                let j = before.place(q);
                assert(before.at(j, q));
                assert(self.at(j, q));
            }
            assert(self.at(i, k));
        }
        assert(self@ =~= before@.insert(k, v));
    }

    /// Putting a new value in at its place is what putting it in the map is.
    proof fn lemma_inserted(self, before: TextMap<V>, i: int, k: Seq<char>, v: V)
        requires
            before.wf(),
            self.wf(),
            !before.holds(k),
            0 <= i <= before.entries@.len(),
            self.at(i, k),
            self.entries@ == before.entries@.insert(i, self.entries@[i]),
            self.entries@[i].1 == v,
        ensures
            self@ == before@.insert(k, v),
    {
        assert forall|q: Seq<char>| #[trigger]
            self@.dom().contains(q) == before@.insert(k, v).dom().contains(q) && (
        self@.dom().contains(q) ==> self@[q] == before@.insert(k, v)[q]) by {
            self.lemma_place(i, k);
            if self.holds(q) {
                let j = self.place(q);
                assert(self.at(j, q));
                self.lemma_place(j, q);
                if j != i {
                    let x = if j < i {
                        j
                    } else {
                        j - 1
                    };
                    assert(before.at(x, q));
                    before.lemma_place(x, q);
                }
            }
            if before.holds(q) {
                let j = before.place(q);
                assert(before.at(j, q));
                assert(self.at(
                    if j < i {
                        j
                    } else {
                        j + 1
                    },
                    q,
                ));
            }
        }
        assert(self@ =~= before@.insert(k, v));
    }

    /// Takes the value under a key out.
    pub fn remove(&mut self, k: &str) -> (r: Option<V>)
        requires
            old(self).wf(),
        ensures
            final(self).wf(),
            final(self)@ == old(self)@.remove(k@),
            r == (if old(self)@.contains_key(k@) {
                Some(old(self)@[k@])
            } else {
                None
            }),
    {
        let (found, i) = self.find(k);
        let ghost before = *self;
        if !found {
            assert(self@ =~= self@.remove(k@));
            return None;
        }
        let (_, v) = self.entries.remove(i);
        proof {
            before.lemma_place(i as int, k@);
            assert(self.wf()) by {
                assert forall|a: int, b: int|
                    0 <= a < b < self.entries@.len() implies text::text_before(
                    (#[trigger] self.entries@[a]).0@,
                    (#[trigger] self.entries@[b]).0@,
                ) by {
                    let x = if a < i {
                        a
                    } else {
                        a + 1
                    };
                    let y = if b < i {
                        b
                    } else {
                        b + 1
                    };
                    assert(text::text_before(before.entries@[x].0@, before.entries@[y].0@));
                }
            }
            assert forall|q: Seq<char>| #[trigger]
                self@.dom().contains(q) == before@.remove(k@).dom().contains(q) && (
            self@.dom().contains(q) ==> self@[q] == before@.remove(k@)[q]) by {
                if self.holds(q) {
                    let j = self.place(q);
                    assert(self.at(j, q));
                    self.lemma_place(j, q);
                    let x = if j < i {
                        j
                    } else {
                        j + 1
                    };
                    assert(before.at(x, q));
                    before.lemma_place(x, q);
                }
                if before.holds(q) && q != k@ {
                    let j = before.place(q);
                    assert(before.at(j, q));
                    before.lemma_place(j, q);
                    assert(self.at(
                        if j < i {
                            j
                        } else {
                            j - 1
                        },
                        q,
                    ));
                }
            }
            assert(self@ =~= before@.remove(k@));
        }
        Some(v)
    }
}

} // verus!
