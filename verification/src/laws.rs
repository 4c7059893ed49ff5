//! The engine's cross-operation laws.
//!
//! Each proof here relates several operations of [`crate::state::StateStorage`]
//! through their stated effects: what a point-in-time read sees after
//! appends, and how appending and reverting a block cancel out.

use vstd::prelude::*;
use vstd::map::*;
use crate::core_types::{BlockNumber, ContractAddress, Felt, StorageKey};
use crate::diff::ThinStateDiffView;
use crate::state::{
    addr_entity,
    append_effects,
    catch_up,
    class_entity,
    has_compiled,
    has_declared,
    has_deployed,
    has_deprecated,
    has_nonce,
    has_storage,
    implicit_nonce,
    lemma_catch_up_bounds,
    revert_effects,
    stale_declared,
    storage_entity,
    StateStorage,
};
use crate::vtable::{
    lemma_pred_block_absent,
    lemma_pred_block_converse,
    pred_value,
    Entity,
};

verus! {

/// Predecessor semantics: with diffs appended for blocks 0 and 1 where only
/// block 1 writes storage key `key` of contract `address`, a read as of the
/// state right after block 0 sees the zero default, and a read as of the
/// state right after block 1 sees the written value.
pub proof fn lemma_predecessor_semantics(
    s0: StateStorage,
    s1: StateStorage,
    s2: StateStorage,
    d0: ThinStateDiffView,
    d1: ThinStateDiffView,
    address: ContractAddress,
    key: StorageKey,
    j: int,
    l: int,
)
    requires
        s0.wf(),
        s0.state_marker == 0,
        append_effects(s0, s1, BlockNumber(0), d0),
        append_effects(s1, s2, BlockNumber(1), d1),
        !has_storage(d0.storage_diffs, storage_entity(address, key)),
        0 <= j < d1.storage_diffs.len(),
        0 <= l < d1.storage_diffs[j].1.len(),
        d1.storage_diffs[j].0 == address,
        d1.storage_diffs[j].1[l].0 == key,
    ensures
        pred_value(s2.contract_storage@, storage_entity(address, key), 1) is None,
        pred_value(s2.contract_storage@, storage_entity(address, key), 2) == Some(
            d1.storage_diffs[j].1[l].1,
        ),
{
    let e = storage_entity(address, key);
    // No row of this cell exists at block 0: the diff of block 0 does not
    // write it, and nothing earlier exists at all.
    assert forall|c: u64| c < 1 implies !s2.contract_storage@.dom().contains((e, c)) by {
        assert(!s0.contract_storage@.dom().contains((e, 0)));
        assert(!s1.contract_storage@.dom().contains((e, 0)));
    }
    lemma_pred_block_absent(s2.contract_storage@, e, 1);
    // Block 1 wrote the cell, and nothing sits between block 1 and the
    // boundary.
    assert(has_storage(d1.storage_diffs, e)) by {
        assert(storage_entity(d1.storage_diffs[j].0, d1.storage_diffs[j].1[l].0) == e);
    }
    assert(s2.contract_storage@.dom().contains((e, 1)));
    assert(forall|c: u64| 1 < c < 2 ==> !s2.contract_storage@.dom().contains((e, c)));
    lemma_pred_block_converse(s2.contract_storage@, e, 2, 1);
    assert(s2.contract_storage@[(e, 1)] == d1.storage_diffs[j].1[l].1);
}

/// Implicit nonce: deploying a contract at block 0 with no nonce entry in
/// the diff gives it the default zero nonce as of the state right after
/// block 0.
pub proof fn lemma_implicit_nonce(
    s0: StateStorage,
    s1: StateStorage,
    d0: ThinStateDiffView,
    address: ContractAddress,
    j: int,
)
    requires
        s0.wf(),
        s0.state_marker == 0,
        append_effects(s0, s1, BlockNumber(0), d0),
        0 <= j < d0.deployed_contracts.len(),
        d0.deployed_contracts[j].0 == address,
        !has_nonce(d0.nonces, addr_entity(address)),
    ensures
        pred_value(s1.nonces@, addr_entity(address), 1) == Some(Felt::spec_zero()),
{
    let e = addr_entity(address);
    assert(has_deployed(d0.deployed_contracts, e)) by {
        assert(addr_entity(d0.deployed_contracts[j].0) == e);
    }
    assert forall|c: u64| c < 0 implies !s0.nonces@.dom().contains((e, c)) by {}
    lemma_pred_block_absent(s0.nonces@, e, 0);
    assert(implicit_nonce(d0.deployed_contracts, s0.nonces@, e, 0));
    assert(s1.nonces@.dom().contains((e, 0)));
    assert(s1.nonces@[(e, 0)] == Felt::spec_zero());
    assert(forall|c: u64| 0 < c < 1 ==> !s1.nonces@.dom().contains((e, c)));
    lemma_pred_block_converse(s1.nonces@, e, 1, 0);
}

/// Compiled-class marker catch-up: appending three consecutive blocks where
/// only the middle one declares a class advances the marker past the first,
/// empty, block automatically, but halts it at the declaring block — and
/// the empty block after it does not move it either.
pub proof fn lemma_compiled_class_marker_catch_up(
    s0: StateStorage,
    s1: StateStorage,
    s2: StateStorage,
    s3: StateStorage,
    d0: ThinStateDiffView,
    d1: ThinStateDiffView,
    d2: ThinStateDiffView,
    n: u64,
)
    requires
        s0.wf(),
        s0.state_marker == n,
        s0.compiled_class_marker == n,
        n + 3 <= u64::MAX,
        append_effects(s0, s1, BlockNumber(n), d0),
        append_effects(s1, s2, BlockNumber((n + 1) as u64), d1),
        append_effects(s2, s3, BlockNumber((n + 2) as u64), d2),
        d0.declared_classes.len() == 0,
        d1.declared_classes.len() > 0,
        d2.declared_classes.len() == 0,
    ensures
        s1.compiled_class_marker == n + 1,
        s2.compiled_class_marker == n + 1,
        s3.compiled_class_marker == n + 1,
{
    let h1 = s1.history();
    assert(h1[n as int] == d0);
    assert(s1.compiled_class_marker == catch_up(h1, n as nat, (n + 1) as nat));
    assert(catch_up(h1, n as nat, (n + 1) as nat) == catch_up(h1, (n + 1) as nat, (n + 1) as nat));
    assert(catch_up(h1, (n + 1) as nat, (n + 1) as nat) == n + 1);
    let h2 = s2.history();
    assert(h2[n as int + 1] == d1);
    assert(s2.compiled_class_marker == catch_up(h2, (n + 1) as nat, (n + 2) as nat));
    assert(catch_up(h2, (n + 1) as nat, (n + 2) as nat) == n + 1);
    let h3 = s3.history();
    assert(h3[n as int + 1] == d1);
    assert(s3.compiled_class_marker == catch_up(h3, (n + 1) as nat, (n + 3) as nat));
    assert(catch_up(h3, (n + 1) as nat, (n + 3) as nat) == n + 1);
}

/// The observable contents of the storage: markers, history and every table
/// view. Two storages with equal contents answer every query alike; their
/// blob files may differ by orphaned bytes a revert left behind.
pub open spec fn table_contents_eq(a: StateStorage, b: StateStorage) -> bool {
    &&& a.state_marker == b.state_marker
    &&& a.class_marker == b.class_marker
    &&& a.compiled_class_marker == b.compiled_class_marker
    &&& a.history() == b.history()
    &&& a.deployed_contracts@ == b.deployed_contracts@
    &&& a.contract_storage@ == b.contract_storage@
    &&& a.nonces@ == b.nonces@
    &&& a.compiled_class_hashes@ == b.compiled_class_hashes@
    &&& a.declared_classes_block@ == b.declared_classes_block@
    &&& a.deprecated_declared_classes_block@ == b.deprecated_declared_classes_block@
    &&& a.declared_classes@ == b.declared_classes@
    &&& a.deprecated_declared_classes@ == b.deprecated_declared_classes@
    &&& a.casms@ == b.casms@
}

/// The caught-up marker is a fixed point: catching up again from it goes
/// nowhere new.
pub proof fn lemma_catch_up_fixpoint(h: Seq<ThinStateDiffView>, c: nat, s: nat)
    ensures
        catch_up(h, catch_up(h, c, s), s) == catch_up(h, c, s),
    decreases s - c,
{
    if c < s && c < h.len() && h[c as int].declared_classes.len() == 0 {
        lemma_catch_up_fixpoint(h, c + 1, s);
    }
}

/// Catching up passes through every intermediate point it crosses: starting
/// from any block at or below the result gives the same result.
pub proof fn lemma_catch_up_mid(h: Seq<ThinStateDiffView>, c: nat, s: nat, x: nat)
    requires
        c <= x <= catch_up(h, c, s),
    ensures
        catch_up(h, x, s) == catch_up(h, c, s),
    decreases s - c,
{
    if c == x {
    } else {
        if c < s && c < h.len() && h[c as int].declared_classes.len() == 0 {
            lemma_catch_up_mid(h, c + 1, s, x);
        }
    }
}

/// Reverting the block just appended restores every table and marker to
/// what it was — except the compiled-class marker, which the append may
/// have legitimately advanced over earlier class-less blocks.
#[verifier::rlimit(100)]
pub proof fn lemma_revert_restores(
    s: StateStorage,
    s1: StateStorage,
    s2: StateStorage,
    bn: BlockNumber,
    d: ThinStateDiffView,
)
    requires
        s.wf(),
        d.wf(),
        bn.0 == s.state_marker,
        bn.in_range(),
        !stale_declared(s.declared_classes_block@, d),
        append_effects(s, s1, bn, d),
        revert_effects(s1, s2, bn, d),
    ensures
        s2.state_marker == s.state_marker,
        s2.class_marker == s.class_marker,
        s2.history() == s.history(),
        s2.deployed_contracts@ == s.deployed_contracts@,
        s2.contract_storage@ == s.contract_storage@,
        s2.nonces@ == s.nonces@,
        s2.compiled_class_hashes@ == s.compiled_class_hashes@,
        s2.declared_classes_block@ == s.declared_classes_block@,
        s2.deprecated_declared_classes_block@ == s.deprecated_declared_classes_block@,
        s2.declared_classes@ == s.declared_classes@,
        s2.deprecated_declared_classes@ == s.deprecated_declared_classes@,
        s2.casms@ == s.casms@,
{
    let n = bn.0;
    assert(s2.history() =~= s.history());
    // Deployed rows: everything added at the block is removed again, and
    // nothing older was touched.
    assert forall|k: (Entity, u64)|
        true implies #[trigger] s2.deployed_contracts@.dom().contains(k)
        == s.deployed_contracts@.dom().contains(k) && (s2.deployed_contracts@.dom().contains(k)
        ==> s2.deployed_contracts@[k] == s.deployed_contracts@[k]) by {
        if s.deployed_contracts@.dom().contains(k) {
            assert(k.1 < n);
        }
    }
    assert(s2.deployed_contracts@ =~= s.deployed_contracts@);
    assert forall|k: (Entity, u64)|
        true implies #[trigger] s2.contract_storage@.dom().contains(k)
        == s.contract_storage@.dom().contains(k) && (s2.contract_storage@.dom().contains(k)
        ==> s2.contract_storage@[k] == s.contract_storage@[k]) by {
        if s.contract_storage@.dom().contains(k) {
            assert(k.1 < n);
        }
    }
    assert(s2.contract_storage@ =~= s.contract_storage@);
    assert forall|k: (Entity, u64)|
        true implies #[trigger] s2.compiled_class_hashes@.dom().contains(k)
        == s.compiled_class_hashes@.dom().contains(k) && (
        s2.compiled_class_hashes@.dom().contains(k) ==> s2.compiled_class_hashes@[k]
            == s.compiled_class_hashes@[k]) by {
        if s.compiled_class_hashes@.dom().contains(k) {
            assert(k.1 < n);
        }
    }
    assert(s2.compiled_class_hashes@ =~= s.compiled_class_hashes@);
    // Nonce rows: the revert removes rows at the block under the same
    // condition the append added them, because the nonce history strictly
    // below the block is the same on both sides.
    assert forall|k: (Entity, u64)|
        true implies #[trigger] s2.nonces@.dom().contains(k) == s.nonces@.dom().contains(k) && (
        s2.nonces@.dom().contains(k) ==> s2.nonces@[k] == s.nonces@[k]) by {
        assert forall|c: u64|
            c < n implies s1.nonces@.dom().contains((k.0, c)) == s.nonces@.dom().contains(
            (k.0, c),
        ) && (s1.nonces@.dom().contains((k.0, c)) ==> s1.nonces@[(k.0, c)] == s.nonces@[
            (k.0, c)
        ]) by {
            if s.nonces@.dom().contains((k.0, c)) {
                assert(s1.nonces@[(k.0, c)] == s.nonces@[(k.0, c)]);
            }
        }
        crate::vtable::lemma_pred_frame(s1.nonces@, s.nonces@, k.0, n as nat);
        if s.nonces@.dom().contains(k) {
            assert(k.1 < n);
        }
    }
    assert(s2.nonces@ =~= s.nonces@);
    // Class declarations: the diff's classes were fresh, so removing them
    // restores the index; everything else is untouched.
    assert forall|q: Felt|
        true implies #[trigger] s2.declared_classes_block@.dom().contains(q)
        == s.declared_classes_block@.dom().contains(q) && (
        s2.declared_classes_block@.dom().contains(q) ==> s2.declared_classes_block@[q]
            == s.declared_classes_block@[q]) by {
        if s.declared_classes_block@.dom().contains(q) && has_declared(d.declared_classes, q) {
            let j = choose|j: int|
                0 <= j < d.declared_classes.len() && (#[trigger] d.declared_classes[j]).0.0 == q;
            assert(stale_declared(s.declared_classes_block@, d));
        }
    }
    assert(s2.declared_classes_block@ =~= s.declared_classes_block@);
    assert forall|q: Felt|
        true implies #[trigger] s2.deprecated_declared_classes_block@.dom().contains(q)
        == s.deprecated_declared_classes_block@.dom().contains(q) && (
        s2.deprecated_declared_classes_block@.dom().contains(q)
            ==> s2.deprecated_declared_classes_block@[q]
            == s.deprecated_declared_classes_block@[q]) by {
        if s.deprecated_declared_classes_block@.dom().contains(q) {
            assert(s.deprecated_declared_classes_block@[q] < n);
            assert(s1.deprecated_declared_classes_block@[q]
                == s.deprecated_declared_classes_block@[q]);
        }
    }
    assert(s2.deprecated_declared_classes_block@ =~= s.deprecated_declared_classes_block@);
    // Class bodies: the diff's classes were fresh, so no body of theirs was
    // stored; the revert finds nothing to delete.
    assert forall|q: Felt|
        true implies #[trigger] s2.declared_classes@.dom().contains(q)
        == s.declared_classes@.dom().contains(q) && (s2.declared_classes@.dom().contains(q)
        ==> s2.declared_classes@[q] == s.declared_classes@[q]) by {
        if s.declared_classes@.dom().contains(q) && has_declared(d.declared_classes, q) {
            let j = choose|j: int|
                0 <= j < d.declared_classes.len() && (#[trigger] d.declared_classes[j]).0.0 == q;
            assert(s.declared_classes_block@.dom().contains(q));
            assert(stale_declared(s.declared_classes_block@, d));
        }
    }
    assert(s2.declared_classes@ =~= s.declared_classes@);
    assert forall|q: Felt|
        true implies #[trigger] s2.casms@.dom().contains(q) == s.casms@.dom().contains(q) && (
        s2.casms@.dom().contains(q) ==> s2.casms@[q] == s.casms@[q]) by {
        if s.casms@.dom().contains(q) && has_declared(d.declared_classes, q) {
            let j = choose|j: int|
                0 <= j < d.declared_classes.len() && (#[trigger] d.declared_classes[j]).0.0 == q;
            assert(s.declared_classes_block@.dom().contains(q));
            assert(stale_declared(s.declared_classes_block@, d));
        }
    }
    assert(s2.casms@ =~= s.casms@);
    assert forall|q: Felt|
        true implies #[trigger] s2.deprecated_declared_classes@.dom().contains(q)
        == s.deprecated_declared_classes@.dom().contains(q) && (
        s2.deprecated_declared_classes@.dom().contains(q) ==> s2.deprecated_declared_classes@[q]
            == s.deprecated_declared_classes@[q]) by {
        if s.deprecated_declared_classes@.dom().contains(q) {
            assert(s.deprecated_declared_classes@[q].block_number.0 < s.class_marker);
            assert(s1.deprecated_declared_classes@[q] == s.deprecated_declared_classes@[q]);
        }
    }
    assert(s2.deprecated_declared_classes@ =~= s.deprecated_declared_classes@);
}

/// Append/revert symmetry: appending a diff, reverting the block, and
/// appending the diff again leaves exactly the contents of appending it
/// once.
#[verifier::rlimit(100)]
pub proof fn lemma_append_revert_symmetry(
    s: StateStorage,
    s1: StateStorage,
    s2: StateStorage,
    s3: StateStorage,
    bn: BlockNumber,
    d: ThinStateDiffView,
)
    requires
        s.wf(),
        d.wf(),
        bn.0 == s.state_marker,
        bn.in_range(),
        !stale_declared(s.declared_classes_block@, d),
        append_effects(s, s1, bn, d),
        revert_effects(s1, s2, bn, d),
        append_effects(s2, s3, bn, d),
    ensures
        table_contents_eq(s3, s1),
{
    let n = bn.0;
    lemma_revert_restores(s, s1, s2, bn, d);
    assert(s3.history() =~= s1.history());
    // The compiled-class marker lands where the first append left it: the
    // rolled-back marker either sits at the block (whose diff was then
    // class-less) or at the first append's own fixed point.
    assert(s3.compiled_class_marker == s1.compiled_class_marker) by {
        let h1 = s1.history();
        let c0 = s.compiled_class_marker as nat;
        let cprime = catch_up(h1, c0, (n + 1) as nat);
        assert(s1.compiled_class_marker == cprime);
        lemma_catch_up_bounds(h1, c0, (n + 1) as nat);
        assert(s3.compiled_class_marker == catch_up(
            s3.history(),
            s2.compiled_class_marker as nat,
            (n + 1) as nat,
        ));
        assert(s3.history() == h1);
        if cprime == n + 1 {
            assert(s2.compiled_class_marker == n);
            assert(c0 <= n);
            lemma_catch_up_mid(h1, c0, (n + 1) as nat, n as nat);
            assert(catch_up(h1, n as nat, (n + 1) as nat) == cprime);
        } else {
            assert(s2.compiled_class_marker == cprime);
            lemma_catch_up_fixpoint(h1, c0, (n + 1) as nat);
        }
    }
    // Each table receives the same rows on both appends, over the same
    // restored base.
    assert forall|k: (Entity, u64)|
        true implies #[trigger] s3.deployed_contracts@.dom().contains(k)
        == s1.deployed_contracts@.dom().contains(k) && (s3.deployed_contracts@.dom().contains(k)
        ==> s3.deployed_contracts@[k] == s1.deployed_contracts@[k]) by {
        if s3.deployed_contracts@.dom().contains(k) {
            if s2.deployed_contracts@.dom().contains(k) {
                assert(s3.deployed_contracts@[k] == s2.deployed_contracts@[k]);
                assert(s1.deployed_contracts@[k] == s.deployed_contracts@[k]);
            } else {
                assert(k.1 == n && has_deployed(d.deployed_contracts, k.0));
                let j = choose|j: int|
                    0 <= j < d.deployed_contracts.len() && addr_entity(
                        (#[trigger] d.deployed_contracts[j]).0,
                    ) == k.0;
                assert(s3.deployed_contracts@[(addr_entity(d.deployed_contracts[j].0), n)]
                    == d.deployed_contracts[j].1.0);
                assert(s1.deployed_contracts@[(addr_entity(d.deployed_contracts[j].0), n)]
                    == d.deployed_contracts[j].1.0);
            }
        }
    }
    assert(s3.deployed_contracts@ =~= s1.deployed_contracts@);
    assert forall|k: (Entity, u64)|
        true implies #[trigger] s3.contract_storage@.dom().contains(k)
        == s1.contract_storage@.dom().contains(k) && (s3.contract_storage@.dom().contains(k)
        ==> s3.contract_storage@[k] == s1.contract_storage@[k]) by {
        if s3.contract_storage@.dom().contains(k) {
            if s2.contract_storage@.dom().contains(k) {
                assert(s3.contract_storage@[k] == s2.contract_storage@[k]);
                assert(s1.contract_storage@[k] == s.contract_storage@[k]);
            } else {
                assert(k.1 == n && has_storage(d.storage_diffs, k.0));
                let (j, l) = choose|j: int, l: int|
                    #![trigger storage_entity(d.storage_diffs[j].0, d.storage_diffs[j].1[l].0)]
                    0 <= j < d.storage_diffs.len() && 0 <= l < d.storage_diffs[j].1.len()
                        && storage_entity(d.storage_diffs[j].0, d.storage_diffs[j].1[l].0) == k.0;
                assert(s3.contract_storage@[
                    (storage_entity(d.storage_diffs[j].0, d.storage_diffs[j].1[l].0), n)
                ] == d.storage_diffs[j].1[l].1);
                assert(s1.contract_storage@[
                    (storage_entity(d.storage_diffs[j].0, d.storage_diffs[j].1[l].0), n)
                ] == d.storage_diffs[j].1[l].1);
            }
        }
    }
    assert(s3.contract_storage@ =~= s1.contract_storage@);
    assert forall|k: (Entity, u64)|
        true implies #[trigger] s3.nonces@.dom().contains(k) == s1.nonces@.dom().contains(k) && (
        s3.nonces@.dom().contains(k) ==> s3.nonces@[k] == s1.nonces@[k]) by {
        assert(implicit_nonce(d.deployed_contracts, s2.nonces@, k.0, n) == implicit_nonce(
            d.deployed_contracts,
            s.nonces@,
            k.0,
            n,
        ));
        if s3.nonces@.dom().contains(k) {
            if s2.nonces@.dom().contains(k) {
                assert(s3.nonces@[k] == s2.nonces@[k]);
                assert(s1.nonces@[k] == s.nonces@[k]);
            } else {
                assert(k.1 == n);
                if has_nonce(d.nonces, k.0) {
                    let j = choose|j: int|
                        0 <= j < d.nonces.len() && addr_entity((#[trigger] d.nonces[j]).0) == k.0;
                    assert(s3.nonces@[(addr_entity(d.nonces[j].0), n)] == d.nonces[j].1.0);
                    assert(s1.nonces@[(addr_entity(d.nonces[j].0), n)] == d.nonces[j].1.0);
                } else {
                    assert(implicit_nonce(d.deployed_contracts, s.nonces@, k.0, n));
                    assert(s3.nonces@[(k.0, n)] == Felt::spec_zero());
                    assert(s1.nonces@[(k.0, n)] == Felt::spec_zero());
                }
            }
        }
    }
    assert(s3.nonces@ =~= s1.nonces@);
    assert forall|k: (Entity, u64)|
        true implies #[trigger] s3.compiled_class_hashes@.dom().contains(k)
        == s1.compiled_class_hashes@.dom().contains(k) && (
        s3.compiled_class_hashes@.dom().contains(k) ==> s3.compiled_class_hashes@[k]
            == s1.compiled_class_hashes@[k]) by {
        if s3.compiled_class_hashes@.dom().contains(k) {
            if s2.compiled_class_hashes@.dom().contains(k) {
                assert(s3.compiled_class_hashes@[k] == s2.compiled_class_hashes@[k]);
                assert(s1.compiled_class_hashes@[k] == s.compiled_class_hashes@[k]);
            } else {
                assert(k.1 == n && has_compiled(d.declared_classes, k.0));
                let j = choose|j: int|
                    0 <= j < d.declared_classes.len() && class_entity(
                        (#[trigger] d.declared_classes[j]).0,
                    ) == k.0;
                assert(s3.compiled_class_hashes@[(class_entity(d.declared_classes[j].0), n)]
                    == d.declared_classes[j].1.0);
                assert(s1.compiled_class_hashes@[(class_entity(d.declared_classes[j].0), n)]
                    == d.declared_classes[j].1.0);
            }
        }
    }
    assert(s3.compiled_class_hashes@ =~= s1.compiled_class_hashes@);
    assert forall|q: Felt|
        true implies #[trigger] s3.declared_classes_block@.dom().contains(q)
        == s1.declared_classes_block@.dom().contains(q) && (
        s3.declared_classes_block@.dom().contains(q) ==> s3.declared_classes_block@[q]
            == s1.declared_classes_block@[q]) by {
        if s3.declared_classes_block@.dom().contains(q) {
            if s2.declared_classes_block@.dom().contains(q) {
                assert(s3.declared_classes_block@[q] == s2.declared_classes_block@[q]);
                assert(s1.declared_classes_block@[q] == s.declared_classes_block@[q]);
            } else {
                assert(has_declared(d.declared_classes, q));
                let j = choose|j: int|
                    0 <= j < d.declared_classes.len() && (#[trigger] d.declared_classes[j]).0.0
                        == q;
                assert(s3.declared_classes_block@[d.declared_classes[j].0.0] == n);
                assert(s1.declared_classes_block@[d.declared_classes[j].0.0] == n);
            }
        }
    }
    assert(s3.declared_classes_block@ =~= s1.declared_classes_block@);
    assert forall|q: Felt|
        true implies #[trigger] s3.deprecated_declared_classes_block@.dom().contains(q)
        == s1.deprecated_declared_classes_block@.dom().contains(q) && (
        s3.deprecated_declared_classes_block@.dom().contains(q)
            ==> s3.deprecated_declared_classes_block@[q]
            == s1.deprecated_declared_classes_block@[q]) by {
        if s3.deprecated_declared_classes_block@.dom().contains(q) {
            if s2.deprecated_declared_classes_block@.dom().contains(q) {
                assert(s3.deprecated_declared_classes_block@[q]
                    == s2.deprecated_declared_classes_block@[q]);
                assert(s1.deprecated_declared_classes_block@[q]
                    == s.deprecated_declared_classes_block@[q]);
            } else {
                assert(has_deprecated(d.deprecated_declared_classes, q));
                assert(s3.deprecated_declared_classes_block@[q] == n);
                assert(s1.deprecated_declared_classes_block@[q] == n);
            }
        }
    }
    assert(s3.deprecated_declared_classes_block@ =~= s1.deprecated_declared_classes_block@);
    assert(s3.declared_classes@ =~= s1.declared_classes@);
    assert(s3.deprecated_declared_classes@ =~= s1.deprecated_declared_classes@);
    assert(s3.casms@ =~= s1.casms@);
}

} // verus!
