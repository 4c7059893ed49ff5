//! A flat table: one row per key, keyed by a single field element.
//!
//! The "first declared at" class indices and the class body locations are
//! kept this way: a class hash maps directly to a block number or to a blob
//! location, with no versioning.

use vstd::prelude::*;
use vstd::map::*;
use crate::core_types::Felt;

verus! {

/// True when some entry of `s` has key `k`.
pub open spec fn entries_contain<V>(s: Seq<(Felt, V)>, k: Felt) -> bool {
    exists|i: int| 0 <= i < s.len() && (#[trigger] s[i]).0 == k
}

/// The index of the entry with key `k`.
pub open spec fn entry_index<V>(s: Seq<(Felt, V)>, k: Felt) -> int {
    choose|i: int| 0 <= i < s.len() && (#[trigger] s[i]).0 == k
}

/// A mapping read as an optional value.
pub open spec fn map_get<V>(m: Map<Felt, V>, k: Felt) -> Option<V> {
    if m.dom().contains(k) {
        Some(m[k])
    } else {
        None
    }
}

/// A flat table.
#[derive(Clone, Debug)]
pub struct FlatTable<V> {
    pub entries: Vec<(Felt, V)>,
}

impl<V> View for FlatTable<V> {
    type V = Map<Felt, V>;

    /// The table as a mapping from key to value.
    open spec fn view(&self) -> Map<Felt, V> {
        Map::new(
            |k: Felt| entries_contain(self.entries@, k),
            |k: Felt| self.entries@[entry_index(self.entries@, k)].1,
        )
    }
}

impl<V: Copy> FlatTable<V> {
    /// No two entries share a key.
    pub open spec fn wf(self) -> bool {
        forall|a: int, b: int|
            0 <= a < b < self.entries@.len() ==> (#[trigger] self.entries@[a]).0 != (
            #[trigger] self.entries@[b]).0
    }

    /// In a well-formed table, each entry is what the mapping view holds for
    /// its key.
    pub proof fn lemma_view_index(self, i: int)
        requires
            self.wf(),
            0 <= i < self.entries@.len(),
        ensures
            self@.dom().contains(self.entries@[i].0),
            self@[self.entries@[i].0] == self.entries@[i].1,
    {
        let k = self.entries@[i].0;
        assert(entries_contain(self.entries@, k));
        let j = entry_index(self.entries@, k);
        if j != i {
            assert((self.entries@[if j < i {
                j
            } else {
                i
            }]).0 != (self.entries@[if j < i {
                i
            } else {
                j
            }]).0);
        }
    }

    /// An empty table.
    pub fn new() -> (r: FlatTable<V>)
        ensures
            r.wf(),
            r@ == Map::<Felt, V>::empty(),
    {
        let r = FlatTable { entries: Vec::new() };
        proof {
            assert(r@ =~= Map::<Felt, V>::empty());
        }
        r
    }

    /// The index of the entry with this key, if the table has one.
    fn find(&self, k: Felt) -> (r: Option<usize>)
        ensures
            match r {
                Some(i) => i < self.entries@.len() && self.entries@[i as int].0 == k,
                None => !entries_contain(self.entries@, k),
            },
    {
        let mut i: usize = 0;
        while i < self.entries.len()
            invariant
                i <= self.entries@.len(),
                forall|j: int| 0 <= j < i ==> (#[trigger] self.entries@[j]).0 != k,
            decreases self.entries@.len() - i,
        {
            if self.entries[i].0 == k {
                return Some(i);
            }
            i = i + 1;
        }
        None
    }

    /// The value at this key, if the table has one.
    pub fn get(&self, k: Felt) -> (r: Option<V>)
        requires
            self.wf(),
        ensures
            match r {
                Some(v) => self@.dom().contains(k) && v == self@[k],
                None => !self@.dom().contains(k),
            },
    {
        match self.find(k) {
            Some(i) => {
                proof {
                    self.lemma_view_index(i as int);
                }
                Some(self.entries[i].1)
            },
            None => None,
        }
    }

    /// Writes the value at this key, replacing the entry if one exists.
    pub fn upsert(&mut self, k: Felt, v: V)
        requires
            old(self).wf(),
        ensures
            final(self).wf(),
            final(self)@ == old(self)@.insert(k, v),
    {
        let ghost olde = self.entries@;
        match self.find(k) {
            Some(i) => {
                self.entries.set(i, (k, v));
                proof {
                    assert forall|a: int, c: int| 0 <= a < c < self.entries@.len() implies (
                    #[trigger] self.entries@[a]).0 != (#[trigger] self.entries@[c]).0 by {
                        assert(olde[a].0 != olde[c].0);
                    }
                    assert forall|q: Felt|
                        true implies #[trigger] self@.dom().contains(q) == old(self)@.insert(
                        k,
                        v,
                    ).dom().contains(q) && (self@.dom().contains(q) ==> self@[q] == old(
                        self,
                    )@.insert(k, v)[q]) by {
                        if q == k {
                            self.lemma_view_index(i as int);
                        } else {
                            if entries_contain(olde, q) {
                                let j = entry_index(olde, q);
                                assert(self.entries@[j].0 == q);
                                old(self).lemma_view_index(j);
                                self.lemma_view_index(j);
                            }
                            if entries_contain(self.entries@, q) {
                                let j = entry_index(self.entries@, q);
                                assert(j != i);
                                assert(olde[j].0 == q);
                                assert(entries_contain(olde, q));
                            }
                        }
                    }
                    assert(self@ =~= old(self)@.insert(k, v));
                }
            },
            None => {
                self.entries.push((k, v));
                proof {
                    let n = olde.len() as int;
                    assert forall|a: int, c: int| 0 <= a < c < self.entries@.len() implies (
                    #[trigger] self.entries@[a]).0 != (#[trigger] self.entries@[c]).0 by {
                        if c < n {
                            assert(olde[a].0 != olde[c].0);
                        } else {
                            assert(self.entries@[c] == (k, v));
                            assert(self.entries@[a] == olde[a]);
                            assert(!entries_contain(olde, k));
                        }
                    }
                    assert forall|q: Felt|
                        true implies #[trigger] self@.dom().contains(q) == old(self)@.insert(
                        k,
                        v,
                    ).dom().contains(q) && (self@.dom().contains(q) ==> self@[q] == old(
                        self,
                    )@.insert(k, v)[q]) by {
                        if q == k {
                            assert(self.entries@[n].0 == k);
                            self.lemma_view_index(n);
                        } else {
                            if entries_contain(olde, q) {
                                let j = entry_index(olde, q);
                                assert(self.entries@[j].0 == q);
                                old(self).lemma_view_index(j);
                                self.lemma_view_index(j);
                            }
                            if entries_contain(self.entries@, q) {
                                let j = entry_index(self.entries@, q);
                                assert(j != n);
                                assert(olde[j].0 == q);
                                assert(entries_contain(olde, q));
                            }
                        }
                    }
                    assert(self@ =~= old(self)@.insert(k, v));
                }
            },
        }
    }

    /// Removes the entry at this key; removing an absent key is a no-op.
    pub fn delete(&mut self, k: Felt)
        requires
            old(self).wf(),
        ensures
            final(self).wf(),
            final(self)@ == old(self)@.remove(k),
    {
        let ghost olde = self.entries@;
        match self.find(k) {
            Some(i) => {
                self.entries.remove(i);
                proof {
                    let iof = |a: int|
                        if a < i {
                            a
                        } else {
                            a + 1
                        };
                    assert(forall|a: int|
                        0 <= a < self.entries@.len() ==> #[trigger] self.entries@[a] == olde[
                            iof(a)
                        ]);
                    assert forall|a: int, c: int| 0 <= a < c < self.entries@.len() implies (
                    #[trigger] self.entries@[a]).0 != (#[trigger] self.entries@[c]).0 by {
                        assert(olde[iof(a)].0 != olde[iof(c)].0);
                    }
                    assert forall|q: Felt|
                        true implies #[trigger] self@.dom().contains(q) == old(self)@.remove(
                        k,
                    ).dom().contains(q) && (self@.dom().contains(q) ==> self@[q] == old(
                        self,
                    )@.remove(k)[q]) by {
                        if entries_contain(self.entries@, q) {
                            let j = entry_index(self.entries@, q);
                            assert(olde[iof(j)].0 == q);
                            assert(entries_contain(olde, q));
                            old(self).lemma_view_index(iof(j));
                            self.lemma_view_index(j);
                            if q == k {
                                assert(olde[i as int].0 == k);
                                assert(iof(j) != i);
                                assert(false);
                            }
                        }
                        if q != k && entries_contain(olde, q) {
                            let j = entry_index(olde, q);
                            assert(j != i);
                            if j < i {
                                assert(self.entries@[j] == olde[j]);
                                assert(entries_contain(self.entries@, q));
                            } else {
                                assert(self.entries@[j - 1] == olde[j]);
                                assert(entries_contain(self.entries@, q));
                            }
                        }
                    }
                    assert(self@ =~= old(self)@.remove(k));
                }
            },
            None => {
                proof {
                    assert(self@ =~= old(self)@.remove(k));
                }
            },
        }
    }
}

} // verus!
