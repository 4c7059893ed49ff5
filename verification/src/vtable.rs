//! A versioned table: rows keyed by an entity and the block number at which
//! the entity took a value.
//!
//! No row is ever changed in place — a change to an entity is a new row at a
//! new block. A point-in-time read finds the entity's row with the largest
//! block number strictly below a boundary; [`pred_block`] defines that
//! closest-predecessor lookup over the table's mapping view.

use vstd::prelude::*;
use vstd::map::*;
use crate::core_types::Felt;

verus! {

/// The entity half of a row key. Entities addressed by a single value carry
/// the zero element in the second slot.
pub type Entity = (Felt, Felt);

/// One versioned row: at `block`, the entity took `value`.
#[derive(Clone, Copy, Debug, PartialEq, Eq, Structural)]
pub struct VRow {
    pub e0: Felt,
    pub e1: Felt,
    pub block: u64,
    pub value: Felt,
}

impl VRow {
    /// The entity this row belongs to.
    pub open spec fn key(self) -> Entity {
        (self.e0, self.e1)
    }
}

/// True when some row of `s` is the entity's row at that block.
pub open spec fn rows_contain(s: Seq<VRow>, e: Entity, b: u64) -> bool {
    exists|i: int| 0 <= i < s.len() && (#[trigger] s[i]).key() == e && s[i].block == b
}

/// The index of the entity's row at that block.
pub open spec fn row_index(s: Seq<VRow>, e: Entity, b: u64) -> int {
    choose|i: int| 0 <= i < s.len() && (#[trigger] s[i]).key() == e && s[i].block == b
}

/// A versioned table.
#[derive(Clone, Debug)]
pub struct VersionedTable {
    pub rows: Vec<VRow>,
}

impl View for VersionedTable {
    type V = Map<(Entity, u64), Felt>;

    /// The table as a mapping from entity and block to the value written.
    open spec fn view(&self) -> Map<(Entity, u64), Felt> {
        Map::new(
            |k: (Entity, u64)| rows_contain(self.rows@, k.0, k.1),
            |k: (Entity, u64)| self.rows@[row_index(self.rows@, k.0, k.1)].value,
        )
    }
}

impl VersionedTable {
    /// No two rows share an entity and a block.
    pub open spec fn wf(self) -> bool {
        forall|a: int, b: int|
            0 <= a < b < self.rows@.len() ==> !((#[trigger] self.rows@[a]).key()
                == (#[trigger] self.rows@[b]).key() && self.rows@[a].block == self.rows@[b].block)
    }

    /// In a well-formed table, each row is what the mapping view holds for
    /// its entity and block.
    pub proof fn lemma_view_index(self, i: int)
        requires
            self.wf(),
            0 <= i < self.rows@.len(),
        ensures
            self@.dom().contains((self.rows@[i].key(), self.rows@[i].block)),
            self@[(self.rows@[i].key(), self.rows@[i].block)] == self.rows@[i].value,
    {
        let e = self.rows@[i].key();
        let b = self.rows@[i].block;
        assert(rows_contain(self.rows@, e, b));
        let j = row_index(self.rows@, e, b);
        if j != i {
            assert(!(self.rows@[if j < i {
                j
            } else {
                i
            }].key() == self.rows@[if j < i {
                i
            } else {
                j
            }].key() && self.rows@[j].block == self.rows@[i].block));
        }
    }

    /// An empty table.
    pub fn new() -> (r: VersionedTable)
        ensures
            r.wf(),
            r@ == Map::<(Entity, u64), Felt>::empty(),
    {
        let r = VersionedTable { rows: Vec::new() };
        proof {
            assert(r@ =~= Map::<(Entity, u64), Felt>::empty());
        }
        r
    }

    /// The index of the entity's row at that block, if the table has one.
    fn find(&self, e0: Felt, e1: Felt, b: u64) -> (r: Option<usize>)
        ensures
            match r {
                Some(i) => i < self.rows@.len() && self.rows@[i as int].key() == (e0, e1)
                    && self.rows@[i as int].block == b,
                None => !rows_contain(self.rows@, (e0, e1), b),
            },
    {
        let mut i: usize = 0;
        while i < self.rows.len()
            invariant
                i <= self.rows@.len(),
                forall|j: int|
                    0 <= j < i ==> !((#[trigger] self.rows@[j]).key() == (e0, e1)
                        && self.rows@[j].block == b),
            decreases self.rows@.len() - i,
        {
            let row = self.rows[i];
            if row.e0 == e0 && row.e1 == e1 && row.block == b {
                return Some(i);
            }
            i = i + 1;
        }
        None
    }

    /// Writes the entity's value at a block, replacing the row if one exists.
    pub fn upsert(&mut self, e0: Felt, e1: Felt, b: u64, v: Felt)
        requires
            old(self).wf(),
        ensures
            final(self).wf(),
            final(self)@ == old(self)@.insert((((e0, e1)), b), v),
    {
        let row = VRow { e0, e1, block: b, value: v };
        let ghost oldrows = self.rows@;
        match self.find(e0, e1, b) {
            Some(i) => {
                self.rows.set(i, row);
                proof {
                    let e = (e0, e1);
                    assert forall|a: int, c: int| 0 <= a < c < self.rows@.len() implies !((
                    #[trigger] self.rows@[a]).key() == (#[trigger] self.rows@[c]).key()
                        && self.rows@[a].block == self.rows@[c].block) by {
                        assert(oldrows[a].key() == self.rows@[a].key() || a == i);
                        assert(!(oldrows[a].key() == oldrows[c].key() && oldrows[a].block
                            == oldrows[c].block));
                    }
                    assert forall|k: (Entity, u64)|
                        true implies #[trigger] self@.dom().contains(k) == old(
                        self,
                    )@.insert((e, b), v).dom().contains(k) && (self@.dom().contains(k)
                        ==> self@[k] == old(self)@.insert((e, b), v)[k]) by {
                        if k == ((e, b)) {
                            self.lemma_view_index(i as int);
                        } else {
                            if rows_contain(oldrows, k.0, k.1) {
                                let j = row_index(oldrows, k.0, k.1);
                                assert(self.rows@[j].key() == k.0 && self.rows@[j].block == k.1);
                                assert(rows_contain(self.rows@, k.0, k.1));
                                old(self).lemma_view_index(j);
                                self.lemma_view_index(j);
                            }
                            if rows_contain(self.rows@, k.0, k.1) {
                                let j = row_index(self.rows@, k.0, k.1);
                                assert(j != i);
                                assert(oldrows[j].key() == k.0 && oldrows[j].block == k.1);
                                assert(rows_contain(oldrows, k.0, k.1));
                            }
                        }
                    }
                    assert(self@ =~= old(self)@.insert(((e0, e1), b), v));
                }
            },
            None => {
                self.rows.push(row);
                proof {
                    let e = (e0, e1);
                    let n = oldrows.len() as int;
                    assert forall|a: int, c: int| 0 <= a < c < self.rows@.len() implies !((
                    #[trigger] self.rows@[a]).key() == (#[trigger] self.rows@[c]).key()
                        && self.rows@[a].block == self.rows@[c].block) by {
                        if c < n {
                            assert(!(oldrows[a].key() == oldrows[c].key() && oldrows[a].block
                                == oldrows[c].block));
                        } else {
                            assert(self.rows@[c] == row);
                            assert(self.rows@[a] == oldrows[a]);
                            assert(!rows_contain(oldrows, e, b));
                        }
                    }
                    assert forall|k: (Entity, u64)|
                        true implies #[trigger] self@.dom().contains(k) == old(
                        self,
                    )@.insert((e, b), v).dom().contains(k) && (self@.dom().contains(k)
                        ==> self@[k] == old(self)@.insert((e, b), v)[k]) by {
                        if k == ((e, b)) {
                            assert(self.rows@[n].key() == e && self.rows@[n].block == b);
                            self.lemma_view_index(n);
                        } else {
                            if rows_contain(oldrows, k.0, k.1) {
                                let j = row_index(oldrows, k.0, k.1);
                                assert(self.rows@[j].key() == k.0 && self.rows@[j].block == k.1);
                                old(self).lemma_view_index(j);
                                self.lemma_view_index(j);
                            }
                            if rows_contain(self.rows@, k.0, k.1) {
                                let j = row_index(self.rows@, k.0, k.1);
                                assert(j != n);
                                assert(oldrows[j].key() == k.0 && oldrows[j].block == k.1);
                                assert(rows_contain(oldrows, k.0, k.1));
                            }
                        }
                    }
                    assert(self@ =~= old(self)@.insert(((e0, e1), b), v));
                }
            },
        }
    }

    /// Removes the entity's row at a block; removing an absent row is a
    /// no-op.
    pub fn delete(&mut self, e0: Felt, e1: Felt, b: u64)
        requires
            old(self).wf(),
        ensures
            final(self).wf(),
            final(self)@ == old(self)@.remove(((e0, e1), b)),
    {
        let ghost oldrows = self.rows@;
        match self.find(e0, e1, b) {
            Some(i) => {
                self.rows.remove(i);
                proof {
                    let e = (e0, e1);
                    let n = oldrows.len() as int;
                    let iof = |a: int|
                        if a < i {
                            a
                        } else {
                            a + 1
                        };
                    assert(forall|a: int|
                        0 <= a < self.rows@.len() ==> #[trigger] self.rows@[a] == oldrows[iof(a)]);
                    assert forall|a: int, c: int| 0 <= a < c < self.rows@.len() implies !((
                    #[trigger] self.rows@[a]).key() == (#[trigger] self.rows@[c]).key()
                        && self.rows@[a].block == self.rows@[c].block) by {
                        assert(!(oldrows[iof(a)].key() == oldrows[iof(c)].key()
                            && oldrows[iof(a)].block == oldrows[iof(c)].block));
                    }
                    assert forall|k: (Entity, u64)|
                        true implies #[trigger] self@.dom().contains(k) == old(self)@.remove(
                        (e, b),
                    ).dom().contains(k) && (self@.dom().contains(k) ==> self@[k] == old(
                        self,
                    )@.remove((e, b))[k]) by {
                        if rows_contain(self.rows@, k.0, k.1) {
                            let j = row_index(self.rows@, k.0, k.1);
                            assert(oldrows[iof(j)].key() == k.0 && oldrows[iof(j)].block == k.1);
                            assert(rows_contain(oldrows, k.0, k.1));
                            old(self).lemma_view_index(iof(j));
                            self.lemma_view_index(j);
                            if k == ((e, b)) {
                                assert(oldrows[i as int].key() == e && oldrows[i as int].block
                                    == b);
                                assert(iof(j) != i);
                                assert(false);
                            }
                        }
                        if k != ((e, b)) && rows_contain(oldrows, k.0, k.1) {
                            let j = row_index(oldrows, k.0, k.1);
                            assert(j != i);
                            if j < i {
                                assert(self.rows@[j] == oldrows[j]);
                                assert(rows_contain(self.rows@, k.0, k.1));
                            } else {
                                assert(self.rows@[j - 1] == oldrows[j]);
                                assert(rows_contain(self.rows@, k.0, k.1));
                            }
                        }
                    }
                    assert(self@ =~= old(self)@.remove(((e0, e1), b)));
                }
            },
            None => {
                proof {
                    assert forall|k: (Entity, u64)|
                        true implies #[trigger] self@.dom().contains(k) == old(self)@.remove(
                        ((e0, e1), b),
                    ).dom().contains(k) && (self@.dom().contains(k) ==> self@[k] == old(
                        self,
                    )@.remove(((e0, e1), b))[k]) by {}
                    assert(self@ =~= old(self)@.remove(((e0, e1), b)));
                }
            },
        }
    }
}

// ---------------------------------------------------------------------------
// Closest-predecessor lookup.
// ---------------------------------------------------------------------------
/// The largest block strictly below `bound` at which the mapping holds a row
/// for the entity.
pub open spec fn pred_block(m: Map<(Entity, u64), Felt>, e: Entity, bound: nat) -> Option<u64>
    decreases bound,
{
    if bound == 0 {
        None
    } else {
        let b = (bound - 1) as u64;
        if m.dom().contains((e, b)) {
            Some(b)
        } else {
            pred_block(m, e, (bound - 1) as nat)
        }
    }
}

/// The value of the entity's closest predecessor row below `bound`.
pub open spec fn pred_value(m: Map<(Entity, u64), Felt>, e: Entity, bound: nat) -> Option<Felt> {
    match pred_block(m, e, bound) {
        None => None,
        Some(b) => Some(m[(e, b)]),
    }
}

/// What the closest-predecessor block is: present, below the boundary, and
/// with no row of the entity between it and the boundary; or absent, with no
/// row of the entity anywhere below the boundary.
pub proof fn lemma_pred_block_spec(m: Map<(Entity, u64), Felt>, e: Entity, bound: nat)
    requires
        bound <= u64::MAX as nat + 1,
    ensures
        match pred_block(m, e, bound) {
            Some(b) => b < bound && m.dom().contains((e, b)) && forall|c: u64|
                b < c < bound ==> !m.dom().contains((e, c)),
            None => forall|c: u64| c < bound ==> !m.dom().contains((e, c)),
        },
    decreases bound,
{
    if bound > 0 {
        let b = (bound - 1) as u64;
        if !m.dom().contains((e, b)) {
            lemma_pred_block_spec(m, e, (bound - 1) as nat);
        }
    }
}

/// Any block with those properties is the closest predecessor.
pub proof fn lemma_pred_block_converse(m: Map<(Entity, u64), Felt>, e: Entity, bound: nat, b: u64)
    requires
        bound <= u64::MAX as nat + 1,
        b < bound,
        m.dom().contains((e, b)),
        forall|c: u64| b < c < bound ==> !m.dom().contains((e, c)),
    ensures
        pred_block(m, e, bound) == Some(b),
    decreases bound,
{
    let top = (bound - 1) as u64;
    if top == b {
    } else {
        assert(!m.dom().contains((e, top)));
        lemma_pred_block_converse(m, e, (bound - 1) as nat, b);
    }
}

/// If the entity has no row below the boundary, there is no predecessor.
pub proof fn lemma_pred_block_absent(m: Map<(Entity, u64), Felt>, e: Entity, bound: nat)
    requires
        bound <= u64::MAX as nat + 1,
        forall|c: u64| c < bound ==> !m.dom().contains((e, c)),
    ensures
        pred_block(m, e, bound) is None,
    decreases bound,
{
    if bound > 0 {
        lemma_pred_block_absent(m, e, (bound - 1) as nat);
    }
}

/// Two mappings that agree on the entity's rows below the boundary give the
/// same predecessor lookup there.
pub proof fn lemma_pred_frame(
    m1: Map<(Entity, u64), Felt>,
    m2: Map<(Entity, u64), Felt>,
    e: Entity,
    bound: nat,
)
    requires
        bound <= u64::MAX as nat + 1,
        forall|c: u64|
            c < bound ==> (#[trigger] m1.dom().contains((e, c))) == m2.dom().contains((e, c)) && (
            m1.dom().contains((e, c)) ==> m1[(e, c)] == m2[(e, c)]),
    ensures
        pred_block(m1, e, bound) == pred_block(m2, e, bound),
        pred_value(m1, e, bound) == pred_value(m2, e, bound),
    decreases bound,
{
    if bound > 0 {
        let b = (bound - 1) as u64;
        assert(m1.dom().contains((e, b)) == m2.dom().contains((e, b)));
        if !m1.dom().contains((e, b)) {
            assert forall|c: u64| c < (bound - 1) as nat implies (#[trigger] m1.dom().contains(
                (e, c),
            )) == m2.dom().contains((e, c)) && (m1.dom().contains((e, c)) ==> m1[(e, c)] == m2[
                (e, c)
            ]) by {
                assert(c < bound);
                assert(m1.dom().contains((e, c)) == m2.dom().contains((e, c)));
            }
            lemma_pred_frame(m1, m2, e, (bound - 1) as nat);
            match pred_block(m1, e, (bound - 1) as nat) {
                Some(pb) => {
                    lemma_pred_block_spec(m1, e, (bound - 1) as nat);
                    assert(m1[(e, pb)] == m2[(e, pb)]);
                },
                None => {},
            }
        }
    }
}

impl VersionedTable {
    /// The value of the entity's latest row strictly below `bound`, the
    /// closest-predecessor read behind every point-in-time query.
    pub fn closest_before(&self, e0: Felt, e1: Felt, bound: u64) -> (r: Option<Felt>)
        requires
            self.wf(),
        ensures
            r == pred_value(self@, (e0, e1), bound as nat),
    {
        let ghost e = (e0, e1);
        let mut found: bool = false;
        let mut best_block: u64 = 0;
        let mut best_val: Felt = Felt::zero();
        let mut i: usize = 0;
        while i < self.rows.len()
            invariant
                self.wf(),
                e == (e0, e1),
                i <= self.rows@.len(),
                found ==> best_block < bound && self@.dom().contains((e, best_block))
                    && self@[(e, best_block)] == best_val,
                forall|j: int|
                    0 <= j < i && (#[trigger] self.rows@[j]).key() == e && self.rows@[j].block
                        < bound ==> found && self.rows@[j].block <= best_block,
            decreases self.rows@.len() - i,
        {
            let row = self.rows[i];
            if row.e0 == e0 && row.e1 == e1 && row.block < bound {
                if !found || row.block > best_block {
                    found = true;
                    best_block = row.block;
                    best_val = row.value;
                    proof {
                        self.lemma_view_index(i as int);
                    }
                }
            }
            i = i + 1;
        }
        proof {
            if found {
                assert forall|c: u64| best_block < c < bound implies !self@.dom().contains(
                    (e, c),
                ) by {
                    if self@.dom().contains((e, c)) {
                        let j = row_index(self.rows@, e, c);
                        assert(self.rows@[j].key() == e && self.rows@[j].block == c);
                    }
                }
                lemma_pred_block_converse(self@, e, bound as nat, best_block);
            } else {
                assert forall|c: u64| c < bound implies !self@.dom().contains((e, c)) by {
                    if self@.dom().contains((e, c)) {
                        let j = row_index(self.rows@, e, c);
                        assert(self.rows@[j].key() == e && self.rows@[j].block == c);
                    }
                }
                lemma_pred_block_absent(self@, e, bound as nat);
            }
        }
        if found {
            Some(best_val)
        } else {
            None
        }
    }
}

} // verus!
