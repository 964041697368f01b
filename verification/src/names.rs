//! A map from names to values, kept in name order.
use vstd::prelude::*;

use crate::text::{less, lemma_lex_irreflexive, lemma_lex_total, lemma_lex_transitive, lex_lt};

verus! {

/// A map keyed by name whose entries are kept in strictly ascending name order,
/// so walking it always gives the same sequence.
#[derive(Debug, Clone, PartialEq, Eq)]
pub struct NameMap<V> {
    /// The entries, in strictly ascending name order.
    pub entries: Vec<(String, V)>,
}

/// Whether the names ascend strictly.
pub open spec fn ascending(names: Seq<Seq<char>>) -> bool {
    forall|i: int, j: int| 0 <= i < j < names.len() ==> lex_lt(#[trigger] names[i], #[trigger] names[j])
}

impl<V> View for NameMap<V> {
    type V = Map<Seq<char>, V>;

    open spec fn view(&self) -> Map<Seq<char>, V> {
        Map::new(
            |k: Seq<char>| self.names().contains(k),
            |k: Seq<char>| self.entries@[self.names().index_of(k)].1,
        )
    }
}

impl<V> NameMap<V> {
    /// The names in the order they are stored.
    pub open spec fn names(&self) -> Seq<Seq<char>> {
        Seq::new(self.entries@.len(), |i: int| self.entries@[i].0@)
    }

    /// The names ascend strictly, so each occurs once.
    pub open spec fn wf(&self) -> bool {
        ascending(self.names())
    }

    /// Each stored entry is the one its name maps to.
    pub proof fn lemma_entry(&self, i: int)
        requires
            self.wf(),
            0 <= i < self.entries@.len(),
        ensures
            self@.contains_key(self.entries@[i].0@),
            self@[self.entries@[i].0@] == self.entries@[i].1,
            self.names().index_of(self.entries@[i].0@) == i,
    {
        let k = self.entries@[i].0@;
        assert(self.names()[i] == k);
        let j = self.names().index_of(k);
        assert(self.names()[j] == k && 0 <= j < self.names().len());
        lemma_lex_irreflexive(k);
        if i < j {
            assert(lex_lt(self.names()[i], self.names()[j]));
        } else if j < i {
            assert(lex_lt(self.names()[j], self.names()[i]));
        }
    }

    /// An empty map.
    pub fn new() -> (r: Self)
        ensures
            r.wf(),
            r@ == Map::<Seq<char>, V>::empty(),
            r.entries@.len() == 0,
    {
        let r = NameMap { entries: Vec::new() };
        proof {
            assert(r@ =~= Map::<Seq<char>, V>::empty());
        }
        r
    }

    /// The index of `key`, or the index it would be inserted at.
    pub fn position(&self, key: &str) -> (r: Result<usize, usize>)
        requires
            self.wf(),
        ensures
            match r {
                Ok(i) => i < self.entries@.len() && self.entries@[i as int].0@ == key@
                    && self@.contains_key(key@) && self@[key@] == self.entries@[i as int].1,
                Err(i) => i <= self.entries@.len() && !self@.contains_key(key@) && (forall|j: int|
                    0 <= j < i ==> lex_lt(#[trigger] self.names()[j], key@)) && (forall|j: int|
                    i <= j < self.names().len() ==> lex_lt(key@, #[trigger] self.names()[j])),
            },
    {
        let mut lo: usize = 0;
        let mut hi: usize = self.entries.len();
        while lo < hi
            invariant
                self.wf(),
                lo <= hi <= self.entries@.len(),
                forall|j: int| 0 <= j < lo ==> lex_lt(#[trigger] self.names()[j], key@),
                forall|j: int|
                    hi <= j < self.names().len() ==> lex_lt(key@, #[trigger] self.names()[j]),
            decreases hi - lo,
        {
            let mid: usize = lo + (hi - lo) / 2;
            let name = self.entries[mid].0.as_str();
            assert(self.names()[mid as int] == name@);
            if less(name, key) {
                proof {
                    assert forall|j: int| 0 <= j < mid + 1 implies lex_lt(
                        #[trigger] self.names()[j],
                        key@,
                    ) by {
                        if j < mid {
                            lemma_lex_transitive(self.names()[j], name@, key@);
                        }
                    }
                }
                lo = mid + 1;
            } else if less(key, name) {
                proof {
                    assert forall|j: int| mid <= j < self.names().len() implies lex_lt(
                        key@,
                        #[trigger] self.names()[j],
                    ) by {
                        if j > mid {
                            lemma_lex_transitive(key@, name@, self.names()[j]);
                        }
                    }
                }
                hi = mid;
            } else {
                proof {
                    lemma_lex_total(name@, key@);
                    self.lemma_entry(mid as int);
                }
                return Ok(mid);
            }
        }
        proof {
            if self.names().contains(key@) {
                let j = self.names().index_of(key@);
                assert(self.names()[j] == key@);
                lemma_lex_irreflexive(key@);
            }
        }
        Err(lo)
    }

    /// The value stored under `key`.
    pub fn get(&self, key: &str) -> (r: Option<&V>)
        requires
            self.wf(),
        ensures
            match r {
                Some(v) => self@.contains_key(key@) && *v == self@[key@],
                None => !self@.contains_key(key@),
            },
    {
        match self.position(key) {
            Ok(i) => Some(&self.entries[i].1),
            Err(_) => None,
        }
    }

    /// Store `value` under `key`, replacing what was there. Returns its index.
    pub fn set(&mut self, key: &str, value: V) -> (at: usize)
        requires
            old(self).wf(),
        ensures
            final(self).wf(),
            final(self)@ == old(self)@.insert(key@, value),
            at < final(self).entries@.len(),
            final(self).entries@[at as int].0@ == key@,
    {
        match self.position(key) {
            Ok(i) => {
                let name = self.entries[i].0.clone();
                self.entries.set(i, (name, value));
                proof {
                    assert(self.names() =~= old(self).names());
                    self.lemma_same_names(old(self), i as int, key@, value);
                }
                i
            },
            Err(i) => {
                self.entries.insert(i, (key.to_owned(), value));
                proof {
                    let old_names = old(self).names();
                    assert(self.names() =~= old_names.insert(i as int, key@));
                    assert forall|a: int, b: int| 0 <= a < b < self.names().len() implies lex_lt(
                        #[trigger] self.names()[a],
                        #[trigger] self.names()[b],
                    ) by {
                        if a < i && b > i {
                            assert(self.names()[a] == old_names[a]);
                            assert(self.names()[b] == old_names[b - 1]);
                        } else if b < i {
                            assert(self.names()[a] == old_names[a]);
                            assert(self.names()[b] == old_names[b]);
                        } else if a > i {
                            assert(self.names()[a] == old_names[a - 1]);
                            assert(self.names()[b] == old_names[b - 1]);
                        } else if a == i {
                            assert(self.names()[b] == old_names[b - 1]);
                        } else {
                            assert(self.names()[a] == old_names[a]);
                        }
                    }
                    assert(self.wf());
                    assert forall|k: Seq<char>| self@.contains_key(k) == old(self)@.insert(
                        key@,
                        value,
                    ).contains_key(k) by {
                        if k == key@ {
                            assert(self.names()[i as int] == k);
                        }
                        if old_names.contains(k) {
                            let j = old_names.index_of(k);
                            if j < i {
                                assert(self.names()[j] == k);
                            } else {
                                assert(self.names()[j + 1] == k);
                            }
                        }
                        if self.names().contains(k) && k != key@ {
                            let j = self.names().index_of(k);
                            if j < i {
                                assert(old_names[j] == k);
                            } else {
                                assert(old_names[j - 1] == k);
                            }
                        }
                    }
                    assert forall|k: Seq<char>| #[trigger] self@.contains_key(k) implies self@[k]
                        == old(self)@.insert(key@, value)[k] by {
                        let j = self.names().index_of(k);
                        assert(self.names()[j] == k);
                        self.lemma_entry(j);
                        if j < i {
                            assert(old_names[j] == k);
                            old(self).lemma_entry(j);
                        } else if j > i {
                            assert(old_names[j - 1] == k);
                            old(self).lemma_entry(j - 1);
                        }
                    }
                    assert(self@ =~= old(self)@.insert(key@, value));
                }
                i
            },
        }
    }

    /// Replacing one value leaves the other entries as they were.
    proof fn lemma_same_names(&self, before: &Self, i: int, key: Seq<char>, value: V)
        requires
            before.wf(),
            self.names() == before.names(),
            0 <= i < before.entries@.len(),
            before.entries@[i].0@ == key,
            self.entries@.len() == before.entries@.len(),
            self.entries@[i].1 == value,
            forall|j: int|
                0 <= j < self.entries@.len() && j != i ==> self.entries@[j].1
                    == before.entries@[j].1,
        ensures
            self@ == before@.insert(key, value),
    {
        before.lemma_entry(i);
        assert(self.names()[i] == key);
        assert forall|k: Seq<char>| #[trigger] self@.contains_key(k) implies self@[k]
            == before@.insert(key, value)[k] by {
            let j = self.names().index_of(k);
            assert(self.names()[j] == k);
            if j != i {
                before.lemma_entry(j);
                assert(before.names()[j] == k);
                if k == key {
                    lemma_lex_irreflexive(k);
                    assert(lex_lt(before.names()[j], before.names()[i]) || lex_lt(
                        before.names()[i],
                        before.names()[j],
                    ));
                }
            }
        }
        assert(self@ =~= before@.insert(key, value));
    }
}

} // verus!
