//! The versioned state storage engine.
//!
//! [`StateStorage`] holds, per data kind, the versioned and flat tables of
//! the state layer together with the per-kind markers and the blob files of
//! serialized bodies. Appending a block's state diff writes every table in
//! one call and advances the state marker by exactly one; reverting the most
//! recently appended block undoes it exactly. Point-in-time queries read the
//! closest predecessor row.
//!
//! Each kind's marker is the smallest block number not yet fully reflected
//! in that kind's tables, and is the sole source of truth for how far the
//! kind is populated.

use vstd::prelude::*;
use vstd::map::*;
use crate::blob::BlobFile;
use crate::compress::MAX_DECOMPRESSED_SIZE;
use crate::core_types::{
    BlockNumber,
    ClassHash,
    CompiledClassHash,
    ContractAddress,
    Felt,
    IndexedDeprecatedContractClass,
    LocationInFile,
    Nonce,
    StateNumber,
    StorageError,
    StorageKey,
};
use crate::diff::{dec_thin_state_diff, enc_diff_fields, ThinStateDiff, ThinStateDiffView};
use crate::flat::FlatTable;
use crate::vtable::{lemma_pred_frame, pred_block, pred_value, Entity, VersionedTable};

verus! {

/// The entity key of a table addressed by contract address.
pub open spec fn addr_entity(a: ContractAddress) -> Entity {
    (a.0, Felt::spec_zero())
}

/// The entity key of the contract storage table.
pub open spec fn storage_entity(a: ContractAddress, k: StorageKey) -> Entity {
    (a.0, k.0)
}

/// The entity key of a table addressed by class hash.
pub open spec fn class_entity(c: ClassHash) -> Entity {
    (c.0, Felt::spec_zero())
}

/// The persistent state layer: versioned tables, first-declared indices,
/// class body tables, blob files, and the per-kind markers.
pub struct StateStorage {
    /// The first block number not yet reflected in the state tables.
    pub state_marker: u64,
    /// The first block number whose class bodies are not all stored.
    pub class_marker: u64,
    /// The first block number whose compiled classes are not all available.
    pub compiled_class_marker: u64,
    /// `(address, block) -> class hash`: deployments and class replacements.
    pub deployed_contracts: VersionedTable,
    /// `((address, key), block) -> value`: contract storage writes.
    pub contract_storage: VersionedTable,
    /// `(address, block) -> nonce`: nonce updates.
    pub nonces: VersionedTable,
    /// `(class hash, block) -> compiled class hash`.
    pub compiled_class_hashes: VersionedTable,
    /// `class hash -> block first declared`, for the current class format.
    pub declared_classes_block: FlatTable<u64>,
    /// `class hash -> block first declared`, for the legacy class format.
    pub deprecated_declared_classes_block: FlatTable<u64>,
    /// `class hash -> body location`, for stored current-format bodies.
    pub declared_classes: FlatTable<LocationInFile>,
    /// `class hash -> (first declared block, body location)`, legacy bodies.
    pub deprecated_declared_classes: FlatTable<IndexedDeprecatedContractClass>,
    /// `class hash -> body location`, compiled class bodies.
    pub casms: FlatTable<LocationInFile>,
    /// `block -> diff body location`, dense from block zero.
    pub state_diffs: Vec<LocationInFile>,
    /// The serialized, compressed diff bodies.
    pub state_diff_file: BlobFile,
    /// Stored current-format class bodies.
    pub sierra_file: BlobFile,
    /// Stored legacy class bodies.
    pub deprecated_file: BlobFile,
    /// Stored compiled class bodies.
    pub casm_file: BlobFile,
    /// The diffs appended so far, in block order.
    pub diffs: Ghost<Seq<ThinStateDiffView>>,
}

impl StateStorage {
    /// The appended diffs, one per block below the state marker.
    pub open spec fn history(self) -> Seq<ThinStateDiffView> {
        self.diffs@
    }

    /// Cross-table consistency. Everything the engine promises rests on
    /// this: markers bound each other, versioned rows sit strictly below the
    /// state marker, stored diff bodies decode to the appended diffs, and
    /// class body rows stay consistent with the first-declared indices.
    pub open spec fn wf(self) -> bool {
        // Markers.
        &&& self.state_marker <= BlockNumber::WIDTH_BOUND
        &&& self.class_marker <= self.state_marker
        &&& self.compiled_class_marker <= self.state_marker
        // Table shapes.
        &&& self.deployed_contracts.wf()
        &&& self.contract_storage.wf()
        &&& self.nonces.wf()
        &&& self.compiled_class_hashes.wf()
        &&& self.declared_classes_block.wf()
        &&& self.deprecated_declared_classes_block.wf()
        &&& self.declared_classes.wf()
        &&& self.deprecated_declared_classes.wf()
        &&& self.casms.wf()
        // Versioned rows sit strictly below the state marker.
        &&& forall|k: (Entity, u64)|
            #[trigger] self.deployed_contracts@.dom().contains(k) ==> k.1 < self.state_marker
        &&& forall|k: (Entity, u64)|
            #[trigger] self.contract_storage@.dom().contains(k) ==> k.1 < self.state_marker
        &&& forall|k: (Entity, u64)|
            #[trigger] self.nonces@.dom().contains(k) ==> k.1 < self.state_marker
        &&& forall|k: (Entity, u64)|
            #[trigger] self.compiled_class_hashes@.dom().contains(k) ==> k.1 < self.state_marker
        // First-declared indices point below the state marker.
        &&& forall|q: Felt|
            #[trigger] self.declared_classes_block@.dom().contains(q)
                ==> self.declared_classes_block@[q] < self.state_marker
        &&& forall|q: Felt|
            #[trigger] self.deprecated_declared_classes_block@.dom().contains(q)
                ==> self.deprecated_declared_classes_block@[q] < self.state_marker
        // One stored diff per block, each decoding to the appended diff.
        &&& self.history().len() == self.state_marker
        &&& self.state_diffs@.len() == self.state_marker
        &&& forall|b: int|
            0 <= b < self.state_marker ==> (#[trigger] self.state_diffs@[b]).offset
                < self.state_diff_file@.len()
        &&& forall|b: int|
            0 <= b < self.state_marker ==> (dec_thin_state_diff(
                self.state_diff_file@[(#[trigger] self.state_diffs@[b]).offset as int],
                0,
            ) matches Some(dj) && dj.0 == self.history()[b])
        &&& forall|b: int| 0 <= b < self.state_marker ==> (#[trigger] self.history()[b]).wf()
        // Every legacy class a diff names has its first-declared row, at or
        // before that diff's block.
        &&& forall|b: int, j: int|
            0 <= b < self.state_marker && 0 <= j < self.history()[b].deprecated_declared_classes.len()
                ==> self.deprecated_declared_classes_block@.dom().contains(
                (#[trigger] self.history()[b].deprecated_declared_classes[j]).0,
            ) && self.deprecated_declared_classes_block@[self.history()[b].deprecated_declared_classes[j].0]
                <= b
        // Class body rows exist only for declared classes, and their
        // locations point into their files.
        // Every row comes from the diff of its block: the tables hold exactly
        // what the appended history wrote.
        &&& forall|k: (Entity, u64)|
            #[trigger] self.deployed_contracts@.dom().contains(k) ==> has_deployed(
                self.history()[k.1 as int].deployed_contracts,
                k.0,
            )
        &&& forall|k: (Entity, u64)|
            #[trigger] self.contract_storage@.dom().contains(k) ==> has_storage(
                self.history()[k.1 as int].storage_diffs,
                k.0,
            )
        &&& forall|k: (Entity, u64)|
            #[trigger] self.nonces@.dom().contains(k) ==> has_nonce(
                self.history()[k.1 as int].nonces,
                k.0,
            ) || (has_deployed(self.history()[k.1 as int].deployed_contracts, k.0) && pred_block(
                self.nonces@,
                k.0,
                k.1 as nat,
            ) is None)
        &&& forall|k: (Entity, u64)|
            #[trigger] self.compiled_class_hashes@.dom().contains(k) ==> has_compiled(
                self.history()[k.1 as int].declared_classes,
                k.0,
            )
        &&& forall|q: Felt|
            #[trigger] self.declared_classes_block@.dom().contains(q) ==> has_declared(
                self.history()[self.declared_classes_block@[q] as int].declared_classes,
                q,
            )
        &&& forall|q: Felt|
            #[trigger] self.deprecated_declared_classes_block@.dom().contains(q) ==> has_deprecated(
                self.history()[self.deprecated_declared_classes_block@[q] as int].deprecated_declared_classes,
                q,
            )
        &&& forall|q: Felt|
            #[trigger] self.declared_classes@.dom().contains(q)
                ==> self.declared_classes_block@.dom().contains(q) && self.declared_classes@[
                q
            ].offset < self.sierra_file@.len()
        &&& forall|q: Felt|
            #[trigger] self.casms@.dom().contains(q) ==> self.declared_classes_block@.dom().contains(
                q,
            ) && self.casms@[q].offset < self.casm_file@.len()
        &&& forall|q: Felt|
            #[trigger] self.deprecated_declared_classes@.dom().contains(q) ==> {
                &&& self.deprecated_declared_classes_block@.dom().contains(q)
                &&& self.deprecated_declared_classes@[q].block_number.0
                    == self.deprecated_declared_classes_block@[q]
                &&& self.deprecated_declared_classes@[q].block_number.0 < self.class_marker
                &&& self.deprecated_declared_classes@[q].location_in_file.offset
                    < self.deprecated_file@.len()
            }
    }

    /// An empty storage: no blocks, every marker at zero.
    pub fn new() -> (r: StateStorage)
        ensures
            r.wf(),
            r.state_marker == 0,
            r.class_marker == 0,
            r.compiled_class_marker == 0,
            r.history() == Seq::<ThinStateDiffView>::empty(),
            r.deployed_contracts@ == Map::<(Entity, u64), Felt>::empty(),
            r.contract_storage@ == Map::<(Entity, u64), Felt>::empty(),
            r.nonces@ == Map::<(Entity, u64), Felt>::empty(),
            r.compiled_class_hashes@ == Map::<(Entity, u64), Felt>::empty(),
            r.declared_classes_block@ == Map::<Felt, u64>::empty(),
            r.deprecated_declared_classes_block@ == Map::<Felt, u64>::empty(),
            r.declared_classes@ == Map::<Felt, LocationInFile>::empty(),
            r.deprecated_declared_classes@ == Map::<Felt, IndexedDeprecatedContractClass>::empty(),
            r.casms@ == Map::<Felt, LocationInFile>::empty(),
    {
        StateStorage {
            state_marker: 0,
            class_marker: 0,
            compiled_class_marker: 0,
            deployed_contracts: VersionedTable::new(),
            contract_storage: VersionedTable::new(),
            nonces: VersionedTable::new(),
            compiled_class_hashes: VersionedTable::new(),
            declared_classes_block: FlatTable::new(),
            deprecated_declared_classes_block: FlatTable::new(),
            declared_classes: FlatTable::new(),
            deprecated_declared_classes: FlatTable::new(),
            casms: FlatTable::new(),
            state_diffs: Vec::new(),
            state_diff_file: BlobFile::new(),
            sierra_file: BlobFile::new(),
            deprecated_file: BlobFile::new(),
            casm_file: BlobFile::new(),
            diffs: Ghost(Seq::empty()),
        }
    }

    /// The state marker: the first block number that does not exist yet.
    pub fn get_state_marker(&self) -> (r: BlockNumber)
        ensures
            r.0 == self.state_marker,
    {
        BlockNumber(self.state_marker)
    }

    /// The state diff appended at a given block, or `None` for a block that
    /// does not exist yet.
    pub fn get_state_diff(&self, block_number: BlockNumber) -> (r: Option<ThinStateDiff>)
        requires
            self.wf(),
        ensures
            match r {
                Some(d) => block_number.0 < self.state_marker && d@ == self.history()[
                    block_number.0 as int
                ],
                None => block_number.0 >= self.state_marker,
            },
    {
        if block_number.0 >= self.state_marker {
            return None;
        }
        let location = self.state_diffs[block_number.0 as usize];
        let body = self.state_diff_file.get_unchecked(location);
        let mut pos: usize = 0;
        let d = ThinStateDiff::deserialize_from(&body, &mut pos);
        proof {
            assert(dec_thin_state_diff(body@, 0) matches Some(dj) && dj.0 == self.history()[
                block_number.0 as int
            ]);
        }
        d
    }

    /// The class hash a contract had at a state number: the latest
    /// deployment or replacement strictly before it, if any.
    pub fn get_class_hash_at(&self, state_number: StateNumber, address: &ContractAddress) -> (r:
        Option<ClassHash>)
        requires
            self.wf(),
        ensures
            r == match pred_value(
                self.deployed_contracts@,
                addr_entity(*address),
                state_number.0.0 as nat,
            ) {
                Some(f) => Some(ClassHash(f)),
                None => None::<ClassHash>,
            },
    {
        let first_irrelevant_block = state_number.block_after();
        match self.deployed_contracts.closest_before(
            address.0,
            Felt::zero(),
            first_irrelevant_block.0,
        ) {
            Some(f) => Some(ClassHash(f)),
            None => None,
        }
    }

    /// The nonce a contract had at a state number, if it has any nonce row
    /// strictly before it.
    pub fn get_nonce_at(&self, state_number: StateNumber, address: &ContractAddress) -> (r: Option<
        Nonce,
    >)
        requires
            self.wf(),
        ensures
            r == match pred_value(self.nonces@, addr_entity(*address), state_number.0.0 as nat) {
                Some(f) => Some(Nonce(f)),
                None => None::<Nonce>,
            },
    {
        let block_number = state_number.block_after();
        match self.nonces.closest_before(address.0, Felt::zero(), block_number.0) {
            Some(f) => Some(Nonce(f)),
            None => None,
        }
    }

    /// The compiled class hash a class had at a state number, if set.
    pub fn get_compiled_class_hash_at(&self, state_number: StateNumber, class_hash: &ClassHash)
        -> (r: Option<CompiledClassHash>)
        requires
            self.wf(),
        ensures
            r == match pred_value(
                self.compiled_class_hashes@,
                class_entity(*class_hash),
                state_number.0.0 as nat,
            ) {
                Some(f) => Some(CompiledClassHash(f)),
                None => None::<CompiledClassHash>,
            },
    {
        let block_number = state_number.block_after();
        match self.compiled_class_hashes.closest_before(class_hash.0, Felt::zero(), block_number.0)
        {
            Some(f) => Some(CompiledClassHash(f)),
            None => None,
        }
    }

    /// The storage value of a contract's cell at a state number: the latest
    /// write strictly before it, or zero if the cell was never written.
    pub fn get_storage_at(
        &self,
        state_number: StateNumber,
        address: &ContractAddress,
        key: &StorageKey,
    ) -> (r: Felt)
        requires
            self.wf(),
        ensures
            r == match pred_value(
                self.contract_storage@,
                storage_entity(*address, *key),
                state_number.0.0 as nat,
            ) {
                Some(f) => f,
                None => Felt::spec_zero(),
            },
    {
        let first_irrelevant_block = state_number.block_after();
        match self.contract_storage.closest_before(address.0, key.0, first_irrelevant_block.0) {
            Some(f) => f,
            None => Felt::zero(),
        }
    }

    /// The block at which a class was declared, or `None` for an unknown
    /// class.
    pub fn get_class_definition_block_number(&self, class_hash: &ClassHash) -> (r: Option<
        BlockNumber,
    >)
        requires
            self.wf(),
        ensures
            r == match crate::flat::map_get(
                self.declared_classes_block@,
                class_hash.0,
            ) {
                Some(b) => Some(BlockNumber(b)),
                None => None::<BlockNumber>,
            },
    {
        match self.declared_classes_block.get(class_hash.0) {
            Some(b) => Some(BlockNumber(b)),
            None => None,
        }
    }

    /// The first block at which a legacy class was declared, or `None` for
    /// an unknown class.
    pub fn get_deprecated_class_definition_block_number(&self, class_hash: &ClassHash) -> (r:
        Option<BlockNumber>)
        requires
            self.wf(),
        ensures
            r == match crate::flat::map_get(
                self.deprecated_declared_classes_block@,
                class_hash.0,
            ) {
                Some(b) => Some(BlockNumber(b)),
                None => None::<BlockNumber>,
            },
    {
        match self.deprecated_declared_classes_block.get(class_hash.0) {
            Some(b) => Some(BlockNumber(b)),
            None => None,
        }
    }

    /// The serialized body of a class as of a state number.
    ///
    /// Absent if the class is unknown or declared at a block the state
    /// number does not see. If the declaration is visible but the body is
    /// not stored, the class marker decides: a state number past it reads
    /// absence, anything else is a cross-table inconsistency.
    pub fn get_class_definition_at(&self, state_number: StateNumber, class_hash: &ClassHash) -> (r:
        Result<Option<Vec<u8>>, StorageError>)
        requires
            self.wf(),
        ensures
            match crate::flat::map_get(
                self.declared_classes_block@,
                class_hash.0,
            ) {
                None => r matches Ok(o) && o is None,
                Some(b) => {
                    if state_number.0.0 <= b {
                        r matches Ok(o) && o is None
                    } else {
                        match crate::flat::map_get(
                            self.declared_classes@,
                            class_hash.0,
                        ) {
                            Some(loc) => r matches Ok(o) && o matches Some(body) && body@
                                == self.sierra_file@[loc.offset as int],
                            None => {
                                if state_number.0.0 > self.class_marker {
                                    r matches Ok(o) && o is None
                                } else {
                                    r == Err::<Option<Vec<u8>>, StorageError>(
                                        StorageError::DBInconsistency,
                                    )
                                }
                            },
                        }
                    }
                },
            },
    {
        let block_number = match self.declared_classes_block.get(class_hash.0) {
            Some(b) => BlockNumber(b),
            None => {
                return Ok(None);
            },
        };
        if state_number.is_before(block_number) {
            return Ok(None);
        }
        match self.declared_classes.get(class_hash.0) {
            Some(location) => Ok(Some(self.sierra_file.get_unchecked(location))),
            None => {
                if state_number.is_after(BlockNumber(self.class_marker)) {
                    Ok(None)
                } else {
                    Err(StorageError::DBInconsistency)
                }
            },
        }
    }

    /// The serialized body of a legacy class as of a state number: absent if
    /// the class is unknown, or its body is not stored, or its first
    /// declaration is not visible from the state number.
    pub fn get_deprecated_class_definition_at(
        &self,
        state_number: StateNumber,
        class_hash: &ClassHash,
    ) -> (r: Option<Vec<u8>>)
        requires
            self.wf(),
        ensures
            match crate::flat::map_get(
                self.deprecated_declared_classes@,
                class_hash.0,
            ) {
                None => r is None,
                Some(v) => {
                    if state_number.0.0 <= v.block_number.0 {
                        r is None
                    } else {
                        r matches Some(body) && body@ == self.deprecated_file@[
                            v.location_in_file.offset as int
                        ]
                    }
                },
            },
    {
        let value = match self.deprecated_declared_classes.get(class_hash.0) {
            Some(v) => v,
            None => {
                return None;
            },
        };
        if state_number.is_before(value.block_number) {
            return None;
        }
        Some(self.deprecated_file.get_unchecked(value.location_in_file))
    }
}

// ---------------------------------------------------------------------------
// Appending a block's diff: spec predicates for the written rows.
// ---------------------------------------------------------------------------
/// True when some deployment in `s` is at this entity.
pub open spec fn has_deployed(s: Seq<(ContractAddress, ClassHash)>, e: Entity) -> bool {
    exists|j: int| 0 <= j < s.len() && addr_entity((#[trigger] s[j]).0) == e
}

/// True when a deployment at this entity gets the implicit zero nonce: the
/// diff carries no nonce history for it below the block.
pub open spec fn implicit_nonce(
    s: Seq<(ContractAddress, ClassHash)>,
    m: Map<(Entity, u64), Felt>,
    e: Entity,
    n: u64,
) -> bool {
    has_deployed(s, e) && pred_block(m, e, n as nat) is None
}

/// True when some explicit nonce update in `s` is at this entity.
pub open spec fn has_nonce(s: Seq<(ContractAddress, Nonce)>, e: Entity) -> bool {
    exists|j: int| 0 <= j < s.len() && addr_entity((#[trigger] s[j]).0) == e
}

/// True when some storage write in `sv` is at this entity.
pub open spec fn has_storage(
    sv: Seq<(ContractAddress, Seq<(StorageKey, Felt)>)>,
    e: Entity,
) -> bool {
    exists|j: int, l: int|
        #![trigger storage_entity(sv[j].0, sv[j].1[l].0)]
        0 <= j < sv.len() && 0 <= l < sv[j].1.len() && storage_entity(sv[j].0, sv[j].1[l].0) == e
}

/// True when some declared class in `s` has this hash.
pub open spec fn has_declared(s: Seq<(ClassHash, CompiledClassHash)>, q: Felt) -> bool {
    exists|j: int| 0 <= j < s.len() && (#[trigger] s[j]).0.0 == q
}

/// True when some legacy declared class in `s` has this hash.
pub open spec fn has_deprecated(s: Seq<ClassHash>, q: Felt) -> bool {
    exists|j: int| 0 <= j < s.len() && (#[trigger] s[j]).0 == q
}

/// Writes a diff's deployed contracts at a block: one class hash row per
/// deployment, and the implicit zero nonce row for contracts that have no
/// nonce history yet.
fn write_deployed_contracts(
    deployed: &Vec<(ContractAddress, ClassHash)>,
    block_number: BlockNumber,
    deployed_contracts_table: &mut VersionedTable,
    nonces_table: &mut VersionedTable,
)
    requires
        old(deployed_contracts_table).wf(),
        old(nonces_table).wf(),
        crate::pairs::unique_keys(deployed@),
        forall|k: (Entity, u64)|
            #[trigger] old(deployed_contracts_table)@.dom().contains(k) ==> k.1 < block_number.0,
        forall|k: (Entity, u64)|
            #[trigger] old(nonces_table)@.dom().contains(k) ==> k.1 < block_number.0,
    ensures
        final(deployed_contracts_table).wf(),
        final(nonces_table).wf(),
        forall|k: (Entity, u64)|
            #[trigger] final(deployed_contracts_table)@.dom().contains(k) == (old(deployed_contracts_table)@.dom().contains(k) || (k.1 == block_number.0 && has_deployed(deployed@, k.0))),
        forall|j: int|
            0 <= j < deployed@.len() ==> final(deployed_contracts_table)@[
                (addr_entity((#[trigger] deployed@[j]).0), block_number.0)
            ] == deployed@[j].1.0,
        forall|k: (Entity, u64)|
            #[trigger] old(deployed_contracts_table)@.dom().contains(k) ==> final(deployed_contracts_table)@[k] == old(deployed_contracts_table)@[k],
        forall|k: (Entity, u64)|
            #[trigger] final(nonces_table)@.dom().contains(k) == (old(nonces_table)@.dom().contains(k) || (k.1 == block_number.0 && implicit_nonce(
                deployed@,
                old(nonces_table)@,
                k.0,
                block_number.0,
            ))),
        forall|k: (Entity, u64)|
            #[trigger] old(nonces_table)@.dom().contains(k) ==> final(nonces_table)@[k] == old(nonces_table)@[k],
        forall|e: Entity|
            #[trigger] implicit_nonce(deployed@, old(nonces_table)@, e, block_number.0) ==> final(nonces_table)@[(e, block_number.0)] == Felt::spec_zero(),
{
    let n: u64 = block_number.0;
    let mut i: usize = 0;
    while i < deployed.len()
        invariant
            deployed_contracts_table.wf(),
            nonces_table.wf(),
            i <= deployed@.len(),
            crate::pairs::unique_keys(deployed@),
            forall|k: (Entity, u64)|
                #[trigger] old(deployed_contracts_table)@.dom().contains(k) ==> k.1 < n,
            forall|k: (Entity, u64)| #[trigger] old(nonces_table)@.dom().contains(k) ==> k.1 < n,
            n == block_number.0,
            forall|k: (Entity, u64)|
                #[trigger] deployed_contracts_table@.dom().contains(k) == (old(deployed_contracts_table)@.dom().contains(k) || (k.1 == n && has_deployed(deployed@.take(i as int), k.0))),
            forall|j: int|
                0 <= j < i ==> deployed_contracts_table@[
                    (addr_entity((#[trigger] deployed@[j]).0), n)
                ] == deployed@[j].1.0,
            forall|k: (Entity, u64)|
                #[trigger] old(deployed_contracts_table)@.dom().contains(k)
                    ==> deployed_contracts_table@[k] == old(deployed_contracts_table)@[k],
            forall|k: (Entity, u64)|
                #[trigger] nonces_table@.dom().contains(k) == (old(nonces_table)@.dom().contains(k)
                    || (k.1 == n && implicit_nonce(
                    deployed@.take(i as int),
                    old(nonces_table)@,
                    k.0,
                    n,
                ))),
            forall|k: (Entity, u64)|
                #[trigger] old(nonces_table)@.dom().contains(k) ==> nonces_table@[k] == old(nonces_table)@[k],
            forall|e: Entity|
                #[trigger] implicit_nonce(deployed@.take(i as int), old(nonces_table)@, e, n)
                    ==> nonces_table@[(e, n)] == Felt::spec_zero(),
        decreases deployed@.len() - i,
    {
        let (address, class_hash) = deployed[i];
        let ghost pre_deployed = deployed_contracts_table@;
        let ghost pre_nonces = nonces_table@;
        deployed_contracts_table.upsert(address.0, Felt::zero(), n, class_hash.0);
        // A contract deployed in an old block may carry no nonce entry in
        // the diff; give it the default nonce now. A replaced class already
        // has nonce history and is left alone.
        proof {
            lemma_pred_frame(nonces_table@, old(nonces_table)@, addr_entity(address), n as nat);
        }
        let has_prior = match nonces_table.closest_before(address.0, Felt::zero(), n) {
            Some(_) => true,
            None => false,
        };
        if !has_prior {
            nonces_table.upsert(address.0, Felt::zero(), n, Felt::zero());
        }
        i = i + 1;
        proof {
            let tk = deployed@.take(i as int);
            assert(tk.drop_last() =~= deployed@.take(i - 1));
            assert(tk.last() == deployed@[i - 1]);
            assert forall|k: (Entity, u64)|
                #[trigger] deployed_contracts_table@.dom().contains(k) == (old(deployed_contracts_table)@.dom().contains(k) || (k.1 == n && has_deployed(tk, k.0))) by {
                if has_deployed(tk, k.0) {
                    let j = choose|j: int|
                        0 <= j < tk.len() && addr_entity((#[trigger] tk[j]).0) == k.0;
                    if j < i - 1 {
                        assert(has_deployed(deployed@.take(i - 1), k.0));
                    }
                }
                if has_deployed(deployed@.take(i - 1), k.0) {
                    let j = choose|j: int|
                        0 <= j < i - 1 && addr_entity((#[trigger] deployed@.take(i - 1)[j]).0)
                            == k.0;
                    assert(tk[j] == deployed@.take(i - 1)[j]);
                    assert(has_deployed(tk, k.0));
                }
                if k.1 == n && addr_entity(deployed@[i - 1].0) == k.0 {
                    assert(tk[i - 1] == deployed@[i - 1]);
                    assert(has_deployed(tk, k.0));
                }
            }
            assert forall|k: (Entity, u64)|
                #[trigger] nonces_table@.dom().contains(k) == (old(nonces_table)@.dom().contains(k)
                    || (k.1 == n && implicit_nonce(tk, old(nonces_table)@, k.0, n))) by {
                if implicit_nonce(tk, old(nonces_table)@, k.0, n) {
                    let j = choose|j: int|
                        0 <= j < tk.len() && addr_entity((#[trigger] tk[j]).0) == k.0;
                    if j < i - 1 {
                        assert(has_deployed(deployed@.take(i - 1), k.0));
                    }
                }
                if implicit_nonce(deployed@.take(i - 1), old(nonces_table)@, k.0, n) {
                    let j = choose|j: int|
                        0 <= j < i - 1 && addr_entity((#[trigger] deployed@.take(i - 1)[j]).0)
                            == k.0;
                    assert(tk[j] == deployed@.take(i - 1)[j]);
                    assert(has_deployed(tk, k.0));
                }
                if k.1 == n && addr_entity(deployed@[i - 1].0) == k.0 && pred_block(
                    old(nonces_table)@,
                    k.0,
                    n as nat,
                ) is None {
                    assert(tk[i - 1] == deployed@[i - 1]);
                    assert(has_deployed(tk, k.0));
                }
            }
            assert forall|j: int|
                0 <= j < i implies deployed_contracts_table@[
                (addr_entity((#[trigger] deployed@[j]).0), n)
            ] == deployed@[j].1.0 by {
                if j < i - 1 {
                    assert(addr_entity(deployed@[j].0) != addr_entity(deployed@[i - 1].0));
                }
            }
            assert forall|e: Entity|
                #[trigger] implicit_nonce(tk, old(nonces_table)@, e, n) implies nonces_table@[
                (e, n)
            ] == Felt::spec_zero() by {
                let j = choose|j: int| 0 <= j < tk.len() && addr_entity((#[trigger] tk[j]).0) == e;
                if j < i - 1 {
                    assert(has_deployed(deployed@.take(i - 1), e));
                    assert(implicit_nonce(deployed@.take(i - 1), old(nonces_table)@, e, n));
                    if e == addr_entity(deployed@[i - 1].0) {
                        assert(deployed@[j] == tk[j]);
                        assert(false);
                    }
                } else {
                    assert(e == addr_entity(deployed@[i - 1].0));
                    if has_prior {
                        assert(pred_block(pre_nonces, e, n as nat) is Some);
                        lemma_pred_frame(pre_nonces, old(nonces_table)@, e, n as nat);
                        assert(false);
                    }
                }
            }
        }
    }
    proof {
        assert(deployed@.take(deployed@.len() as int) =~= deployed@);
    }
}


/// True when some declared class in `s` is at this entity.
pub open spec fn has_compiled(s: Seq<(ClassHash, CompiledClassHash)>, e: Entity) -> bool {
    exists|j: int| 0 <= j < s.len() && class_entity((#[trigger] s[j]).0) == e
}

/// Writes a diff's explicit nonce updates at a block. Runs after the
/// deployed contracts so an explicit nonce overrides the implicit default.
fn write_nonces(data: &Vec<(ContractAddress, Nonce)>, block_number: BlockNumber, table: &mut VersionedTable)
    requires
        old(table).wf(),
        crate::pairs::unique_keys(data@),
    ensures
        final(table).wf(),
        forall|k: (Entity, u64)|
            #[trigger] final(table)@.dom().contains(k) == (old(table)@.dom().contains(k) || (k.1
                == block_number.0 && has_nonce(data@, k.0))),
        forall|j: int|
            0 <= j < data@.len() ==> final(table)@[(addr_entity((#[trigger] data@[j]).0), block_number.0)]
                == data@[j].1.0,
        forall|k: (Entity, u64)|
            #[trigger] old(table)@.dom().contains(k) && !(k.1 == block_number.0 && has_nonce(
                data@,
                k.0,
            )) ==> final(table)@[k] == old(table)@[k],
{
    let n: u64 = block_number.0;
    let mut i: usize = 0;
    while i < data.len()
        invariant
            table.wf(),
            i <= data@.len(),
            n == block_number.0,
            crate::pairs::unique_keys(data@),
            forall|k: (Entity, u64)|
                #[trigger] table@.dom().contains(k) == (old(table)@.dom().contains(k) || (k.1 == n
                    && has_nonce(data@.take(i as int), k.0))),
            forall|j: int|
                0 <= j < i ==> table@[(addr_entity((#[trigger] data@[j]).0), n)] == data@[j].1.0,
            forall|k: (Entity, u64)|
                #[trigger] old(table)@.dom().contains(k) && !(k.1 == n && has_nonce(
                    data@.take(i as int),
                    k.0,
                )) ==> table@[k] == old(table)@[k],
        decreases data@.len() - i,
    {
        let (key, val) = data[i];
        table.upsert(key.0, Felt::zero(), n, val.0);
        i = i + 1;
        proof {
            let tk = data@.take(i as int);
            assert(tk.drop_last() =~= data@.take(i - 1));
            assert(tk.last() == data@[i - 1]);
            assert forall|k: (Entity, u64)|
                #[trigger] table@.dom().contains(k) == (old(table)@.dom().contains(k) || (k.1 == n
                    && has_nonce(tk, k.0))) by {
                if has_nonce(tk, k.0) {
                    let j = choose|j: int|
                        0 <= j < tk.len() && addr_entity((#[trigger] tk[j]).0) == k.0;
                    if j < i - 1 {
                        assert(has_nonce(data@.take(i - 1), k.0));
                    }
                }
                if has_nonce(data@.take(i - 1), k.0) {
                    let j = choose|j: int|
                        0 <= j < i - 1 && addr_entity((#[trigger] data@.take(i - 1)[j]).0) == k.0;
                    assert(tk[j] == data@.take(i - 1)[j]);
                    assert(has_nonce(tk, k.0));
                }
                if k.1 == n && addr_entity(data@[i - 1].0) == k.0 {
                    assert(tk[i - 1] == data@[i - 1]);
                    assert(has_nonce(tk, k.0));
                }
            }
            assert forall|j: int|
                0 <= j < i implies table@[(addr_entity((#[trigger] data@[j]).0), n)] == data@[j].1.0 by {
                if j < i - 1 {
                    assert(addr_entity(data@[j].0) != addr_entity(data@[i - 1].0));
                }
            }
            assert forall|k: (Entity, u64)|
                #[trigger] old(table)@.dom().contains(k) && !(k.1 == n && has_nonce(tk, k.0))
                    implies table@[k] == old(table)@[k] by {
                if k.1 == n && addr_entity(data@[i - 1].0) == k.0 {
                    assert(tk[i - 1] == data@[i - 1]);
                    assert(has_nonce(tk, k.0));
                }
            }
        }
    }
    proof {
        assert(data@.take(data@.len() as int) =~= data@);
    }
}

/// Writes a diff's compiled class hashes at a block, one row per newly
/// declared class.
fn write_compiled_class_hashes(data: &Vec<(ClassHash, CompiledClassHash)>, block_number: BlockNumber, table: &mut VersionedTable)
    requires
        old(table).wf(),
        crate::pairs::unique_keys(data@),
    ensures
        final(table).wf(),
        forall|k: (Entity, u64)|
            #[trigger] final(table)@.dom().contains(k) == (old(table)@.dom().contains(k) || (k.1
                == block_number.0 && has_compiled(data@, k.0))),
        forall|j: int|
            0 <= j < data@.len() ==> final(table)@[(class_entity((#[trigger] data@[j]).0), block_number.0)]
                == data@[j].1.0,
        forall|k: (Entity, u64)|
            #[trigger] old(table)@.dom().contains(k) && !(k.1 == block_number.0 && has_compiled(
                data@,
                k.0,
            )) ==> final(table)@[k] == old(table)@[k],
{
    let n: u64 = block_number.0;
    let mut i: usize = 0;
    while i < data.len()
        invariant
            table.wf(),
            i <= data@.len(),
            n == block_number.0,
            crate::pairs::unique_keys(data@),
            forall|k: (Entity, u64)|
                #[trigger] table@.dom().contains(k) == (old(table)@.dom().contains(k) || (k.1 == n
                    && has_compiled(data@.take(i as int), k.0))),
            forall|j: int|
                0 <= j < i ==> table@[(class_entity((#[trigger] data@[j]).0), n)] == data@[j].1.0,
            forall|k: (Entity, u64)|
                #[trigger] old(table)@.dom().contains(k) && !(k.1 == n && has_compiled(
                    data@.take(i as int),
                    k.0,
                )) ==> table@[k] == old(table)@[k],
        decreases data@.len() - i,
    {
        let (key, val) = data[i];
        table.upsert(key.0, Felt::zero(), n, val.0);
        i = i + 1;
        proof {
            let tk = data@.take(i as int);
            assert(tk.drop_last() =~= data@.take(i - 1));
            assert(tk.last() == data@[i - 1]);
            assert forall|k: (Entity, u64)|
                #[trigger] table@.dom().contains(k) == (old(table)@.dom().contains(k) || (k.1 == n
                    && has_compiled(tk, k.0))) by {
                if has_compiled(tk, k.0) {
                    let j = choose|j: int|
                        0 <= j < tk.len() && class_entity((#[trigger] tk[j]).0) == k.0;
                    if j < i - 1 {
                        assert(has_compiled(data@.take(i - 1), k.0));
                    }
                }
                if has_compiled(data@.take(i - 1), k.0) {
                    let j = choose|j: int|
                        0 <= j < i - 1 && class_entity((#[trigger] data@.take(i - 1)[j]).0) == k.0;
                    assert(tk[j] == data@.take(i - 1)[j]);
                    assert(has_compiled(tk, k.0));
                }
                if k.1 == n && class_entity(data@[i - 1].0) == k.0 {
                    assert(tk[i - 1] == data@[i - 1]);
                    assert(has_compiled(tk, k.0));
                }
            }
            assert forall|j: int|
                0 <= j < i implies table@[(class_entity((#[trigger] data@[j]).0), n)] == data@[j].1.0 by {
                if j < i - 1 {
                    assert(class_entity(data@[j].0) != class_entity(data@[i - 1].0));
                }
            }
            assert forall|k: (Entity, u64)|
                #[trigger] old(table)@.dom().contains(k) && !(k.1 == n && has_compiled(tk, k.0))
                    implies table@[k] == old(table)@[k] by {
                if k.1 == n && class_entity(data@[i - 1].0) == k.0 {
                    assert(tk[i - 1] == data@[i - 1]);
                    assert(has_compiled(tk, k.0));
                }
            }
        }
    }
    proof {
        assert(data@.take(data@.len() as int) =~= data@);
    }
}

/// True when one contract's entries include this entity.
pub open spec fn has_storage_one(
    a: ContractAddress,
    s: Seq<(StorageKey, Felt)>,
    e: Entity,
) -> bool {
    exists|l: int| 0 <= l < s.len() && storage_entity(a, (#[trigger] s[l]).0) == e
}

/// Writes one contract's storage entries at a block.
fn write_storage_one(
    address: ContractAddress,
    entries: &Vec<(StorageKey, Felt)>,
    block_number: BlockNumber,
    storage_table: &mut VersionedTable,
)
    requires
        old(storage_table).wf(),
        crate::pairs::unique_keys(entries@),
    ensures
        final(storage_table).wf(),
        forall|k: (Entity, u64)|
            #[trigger] final(storage_table)@.dom().contains(k) == (old(storage_table)@.dom().contains(k) || (k.1 == block_number.0 && has_storage_one(
                address,
                entries@,
                k.0,
            ))),
        forall|l: int|
            0 <= l < entries@.len() ==> final(storage_table)@[
                (storage_entity(address, (#[trigger] entries@[l]).0), block_number.0)
            ] == entries@[l].1,
        forall|k: (Entity, u64)|
            #[trigger] old(storage_table)@.dom().contains(k) && !(k.1 == block_number.0
                && has_storage_one(address, entries@, k.0)) ==> final(storage_table)@[k] == old(storage_table)@[k],
{
    let n: u64 = block_number.0;
    let mut i: usize = 0;
    while i < entries.len()
        invariant
            storage_table.wf(),
            i <= entries@.len(),
            n == block_number.0,
            crate::pairs::unique_keys(entries@),
            forall|k: (Entity, u64)|
                #[trigger] storage_table@.dom().contains(k) == (old(storage_table)@.dom().contains(k) || (k.1 == n && has_storage_one(
                    address,
                    entries@.take(i as int),
                    k.0,
                ))),
            forall|l: int|
                0 <= l < i ==> storage_table@[
                    (storage_entity(address, (#[trigger] entries@[l]).0), n)
                ] == entries@[l].1,
            forall|k: (Entity, u64)|
                #[trigger] old(storage_table)@.dom().contains(k) && !(k.1 == n && has_storage_one(
                    address,
                    entries@.take(i as int),
                    k.0,
                )) ==> storage_table@[k] == old(storage_table)@[k],
        decreases entries@.len() - i,
    {
        let (key, value) = entries[i];
        storage_table.upsert(address.0, key.0, n, value);
        i = i + 1;
        proof {
            let tk = entries@.take(i as int);
            assert(tk.drop_last() =~= entries@.take(i - 1));
            assert(tk.last() == entries@[i - 1]);
            assert forall|k: (Entity, u64)|
                #[trigger] storage_table@.dom().contains(k) == (old(storage_table)@.dom().contains(k) || (k.1 == n && has_storage_one(address, tk, k.0))) by {
                if has_storage_one(address, tk, k.0) {
                    let l = choose|l: int|
                        0 <= l < tk.len() && storage_entity(address, (#[trigger] tk[l]).0) == k.0;
                    if l < i - 1 {
                        assert(has_storage_one(address, entries@.take(i - 1), k.0));
                    }
                }
                if has_storage_one(address, entries@.take(i - 1), k.0) {
                    let l = choose|l: int|
                        0 <= l < i - 1 && storage_entity(
                            address,
                            (#[trigger] entries@.take(i - 1)[l]).0,
                        ) == k.0;
                    assert(tk[l] == entries@.take(i - 1)[l]);
                    assert(has_storage_one(address, tk, k.0));
                }
                if k.1 == n && storage_entity(address, entries@[i - 1].0) == k.0 {
                    assert(tk[i - 1] == entries@[i - 1]);
                    assert(has_storage_one(address, tk, k.0));
                }
            }
            assert forall|l: int|
                0 <= l < i implies storage_table@[
                (storage_entity(address, (#[trigger] entries@[l]).0), n)
            ] == entries@[l].1 by {
                if l < i - 1 {
                    assert(storage_entity(address, entries@[l].0) != storage_entity(
                        address,
                        entries@[i - 1].0,
                    ));
                }
            }
            assert forall|k: (Entity, u64)|
                #[trigger] old(storage_table)@.dom().contains(k) && !(k.1 == n && has_storage_one(
                    address,
                    tk,
                    k.0,
                )) implies storage_table@[k] == old(storage_table)@[k] by {
                if k.1 == n && storage_entity(address, entries@[i - 1].0) == k.0 {
                    assert(tk[i - 1] == entries@[i - 1]);
                    assert(has_storage_one(address, tk, k.0));
                }
            }
        }
    }
    proof {
        assert(entries@.take(entries@.len() as int) =~= entries@);
    }
}

/// Writes a diff's storage writes at a block, contract by contract.
fn write_storage_diffs(
    storage_diffs: &Vec<(ContractAddress, Vec<(StorageKey, Felt)>)>,
    block_number: BlockNumber,
    storage_table: &mut VersionedTable,
)
    requires
        old(storage_table).wf(),
        crate::pairs::unique_keys(crate::diff::storage_view(storage_diffs@)),
        forall|j: int|
            0 <= j < storage_diffs@.len() ==> crate::pairs::unique_keys(
                (#[trigger] crate::diff::storage_view(storage_diffs@)[j]).1,
            ),
    ensures
        final(storage_table).wf(),
        forall|k: (Entity, u64)|
            #[trigger] final(storage_table)@.dom().contains(k) == (old(storage_table)@.dom().contains(k) || (k.1 == block_number.0 && has_storage(
                crate::diff::storage_view(storage_diffs@),
                k.0,
            ))),
        forall|j: int, l: int|
            #![trigger crate::diff::storage_view(storage_diffs@)[j].1[l]]
            0 <= j < crate::diff::storage_view(storage_diffs@).len() && 0 <= l
                < crate::diff::storage_view(storage_diffs@)[j].1.len() ==> final(storage_table)@[
                (
                    storage_entity(
                        crate::diff::storage_view(storage_diffs@)[j].0,
                        crate::diff::storage_view(storage_diffs@)[j].1[l].0,
                    ),
                    block_number.0,
                )
            ] == crate::diff::storage_view(storage_diffs@)[j].1[l].1,
        forall|k: (Entity, u64)|
            #[trigger] old(storage_table)@.dom().contains(k) && !(k.1 == block_number.0
                && has_storage(crate::diff::storage_view(storage_diffs@), k.0)) ==> final(storage_table)@[k] == old(storage_table)@[k],
{
    let ghost sv = crate::diff::storage_view(storage_diffs@);
    let n: u64 = block_number.0;
    let mut j: usize = 0;
    while j < storage_diffs.len()
        invariant
            storage_table.wf(),
            j <= storage_diffs@.len(),
            n == block_number.0,
            sv == crate::diff::storage_view(storage_diffs@),
            sv.len() == storage_diffs@.len(),
            crate::pairs::unique_keys(sv),
            forall|q: int| 0 <= q < sv.len() ==> crate::pairs::unique_keys((#[trigger] sv[q]).1),
            forall|k: (Entity, u64)|
                #[trigger] storage_table@.dom().contains(k) == (old(storage_table)@.dom().contains(k) || (k.1 == n && has_storage(sv.take(j as int), k.0))),
            forall|q: int, l: int|
                #![trigger sv[q].1[l]]
                0 <= q < j && 0 <= l < sv[q].1.len() ==> storage_table@[
                    (storage_entity(sv[q].0, sv[q].1[l].0), n)
                ] == sv[q].1[l].1,
            forall|k: (Entity, u64)|
                #[trigger] old(storage_table)@.dom().contains(k) && !(k.1 == n && has_storage(
                    sv.take(j as int),
                    k.0,
                )) ==> storage_table@[k] == old(storage_table)@[k],
        decreases storage_diffs@.len() - j,
    {
        let ghost pre = storage_table@;
        let address = storage_diffs[j].0;
        proof {
            assert(sv[j as int] == (storage_diffs@[j as int].0, storage_diffs@[j as int].1@));
        }
        write_storage_one(address, &storage_diffs[j].1, block_number, storage_table);
        j = j + 1;
        proof {
            let tk = sv.take(j as int);
            let prev = sv.take(j - 1);
            assert(tk.drop_last() =~= prev);
            assert(tk.last() == sv[j - 1]);
            let entries = sv[j - 1].1;
            assert forall|k: (Entity, u64)|
                #[trigger] storage_table@.dom().contains(k) == (old(storage_table)@.dom().contains(k) || (k.1 == n && has_storage(tk, k.0))) by {
                if has_storage(tk, k.0) {
                    let (q, l) = choose|q: int, l: int|
                        #![trigger storage_entity(tk[q].0, tk[q].1[l].0)]
                        0 <= q < tk.len() && 0 <= l < tk[q].1.len() && storage_entity(
                            tk[q].0,
                            tk[q].1[l].0,
                        ) == k.0;
                    if q < j - 1 {
                        assert(prev[q] == tk[q]);
                        assert(has_storage(prev, k.0));
                    } else {
                        assert(has_storage_one(address, entries, k.0));
                    }
                }
                if has_storage(prev, k.0) {
                    let (q, l) = choose|q: int, l: int|
                        #![trigger storage_entity(prev[q].0, prev[q].1[l].0)]
                        0 <= q < prev.len() && 0 <= l < prev[q].1.len() && storage_entity(
                            prev[q].0,
                            prev[q].1[l].0,
                        ) == k.0;
                    assert(tk[q] == prev[q]);
                    assert(has_storage(tk, k.0));
                }
                if has_storage_one(address, entries, k.0) {
                    let l = choose|l: int|
                        0 <= l < entries.len() && storage_entity(address, (#[trigger] entries[l]).0)
                            == k.0;
                    assert(storage_entity(tk[j - 1].0, tk[j - 1].1[l].0) == k.0);
                    assert(has_storage(tk, k.0));
                }
            }
            assert forall|q: int, l: int|
                #![trigger sv[q].1[l]]
                0 <= q < j && 0 <= l < sv[q].1.len() implies storage_table@[
                (storage_entity(sv[q].0, sv[q].1[l].0), n)
            ] == sv[q].1[l].1 by {
                if q < j - 1 {
                    let e = storage_entity(sv[q].0, sv[q].1[l].0);
                    assert(prev[q] == sv[q]);
                    assert(storage_entity(prev[q].0, prev[q].1[l].0) == e);
                    assert(has_storage(prev, e));
                    assert(pre.dom().contains((e, n)));
                    assert(pre[(e, n)] == sv[q].1[l].1);
                    if has_storage_one(address, entries, e) {
                        let l2 = choose|l2: int|
                            0 <= l2 < entries.len() && storage_entity(
                                address,
                                (#[trigger] entries[l2]).0,
                            ) == e;
                        assert(sv[q].0.0 == address.0);
                        assert(sv[q].0 == sv[j - 1].0);
                        assert(false);
                    }
                    assert(storage_table@[(e, n)] == pre[(e, n)]);
                }
            }
            assert forall|k: (Entity, u64)|
                #[trigger] old(storage_table)@.dom().contains(k) && !(k.1 == n && has_storage(
                    tk,
                    k.0,
                )) implies storage_table@[k] == old(storage_table)@[k] by {
                if k.1 == n && has_storage_one(address, entries, k.0) {
                    let l = choose|l: int|
                        0 <= l < entries.len() && storage_entity(address, (#[trigger] entries[l]).0)
                            == k.0;
                    assert(storage_entity(tk[j - 1].0, tk[j - 1].1[l].0) == k.0);
                    assert(has_storage(tk, k.0));
                }
                if k.1 == n && has_storage(prev, k.0) {
                    let (q, l) = choose|q: int, l: int|
                        #![trigger storage_entity(prev[q].0, prev[q].1[l].0)]
                        0 <= q < prev.len() && 0 <= l < prev[q].1.len() && storage_entity(
                            prev[q].0,
                            prev[q].1[l].0,
                        ) == k.0;
                    assert(tk[q] == prev[q]);
                    assert(storage_entity(tk[q].0, tk[q].1[l].0) == k.0);
                    assert(has_storage(tk, k.0));
                }
                assert(pre.dom().contains(k));
                assert(pre[k] == old(storage_table)@[k]);
                assert(storage_table@[k] == pre[k]);
            }
        }
    }
    proof {
        assert(sv.take(sv.len() as int) =~= sv);
    }
}

/// Records the first-declared block of each class a diff declares. A class
/// is declared once; callers check freshness beforehand.
fn write_declared_classes_block(
    declared: &Vec<(ClassHash, CompiledClassHash)>,
    block_number: BlockNumber,
    table: &mut FlatTable<u64>,
)
    requires
        old(table).wf(),
        crate::pairs::unique_keys(declared@),
        forall|j: int|
            0 <= j < declared@.len() ==> !old(table)@.dom().contains(
                (#[trigger] declared@[j]).0.0,
            ),
    ensures
        final(table).wf(),
        forall|q: Felt|
            #[trigger] final(table)@.dom().contains(q) == (old(table)@.dom().contains(q)
                || has_declared(declared@, q)),
        forall|j: int|
            0 <= j < declared@.len() ==> final(table)@[(#[trigger] declared@[j]).0.0]
                == block_number.0,
        forall|q: Felt|
            #[trigger] old(table)@.dom().contains(q) ==> final(table)@[q] == old(table)@[q],
{
    let n: u64 = block_number.0;
    let mut i: usize = 0;
    while i < declared.len()
        invariant
            table.wf(),
            i <= declared@.len(),
            n == block_number.0,
            crate::pairs::unique_keys(declared@),
            forall|j: int|
                0 <= j < declared@.len() ==> !old(table)@.dom().contains(
                    (#[trigger] declared@[j]).0.0,
                ),
            forall|q: Felt|
                #[trigger] table@.dom().contains(q) == (old(table)@.dom().contains(q)
                    || has_declared(declared@.take(i as int), q)),
            forall|j: int| 0 <= j < i ==> table@[(#[trigger] declared@[j]).0.0] == n,
            forall|q: Felt|
                #[trigger] old(table)@.dom().contains(q) ==> table@[q] == old(table)@[q],
        decreases declared@.len() - i,
    {
        let class_hash = declared[i].0;
        table.upsert(class_hash.0, n);
        i = i + 1;
        proof {
            let tk = declared@.take(i as int);
            assert(tk.drop_last() =~= declared@.take(i - 1));
            assert(tk.last() == declared@[i - 1]);
            assert forall|q: Felt|
                #[trigger] table@.dom().contains(q) == (old(table)@.dom().contains(q)
                    || has_declared(tk, q)) by {
                if has_declared(tk, q) {
                    let j = choose|j: int| 0 <= j < tk.len() && (#[trigger] tk[j]).0.0 == q;
                    if j < i - 1 {
                        assert(has_declared(declared@.take(i - 1), q));
                    }
                }
                if has_declared(declared@.take(i - 1), q) {
                    let j = choose|j: int|
                        0 <= j < i - 1 && (#[trigger] declared@.take(i - 1)[j]).0.0 == q;
                    assert(tk[j] == declared@.take(i - 1)[j]);
                    assert(has_declared(tk, q));
                }
                if declared@[i - 1].0.0 == q {
                    assert(tk[i - 1] == declared@[i - 1]);
                    assert(has_declared(tk, q));
                }
            }
            assert forall|j: int| 0 <= j < i implies table@[(#[trigger] declared@[j]).0.0]
                == n by {
                if j < i - 1 {
                    assert(declared@[j].0 != declared@[i - 1].0);
                }
            }
        }
    }
    proof {
        assert(declared@.take(declared@.len() as int) =~= declared@);
    }
}

/// Records the first-declared block of each legacy class a diff names, but
/// only for classes with no earlier record: a legacy class may be declared
/// across several blocks and only the first block is kept.
fn write_deprecated_declared_classes_block(
    deprecated: &Vec<ClassHash>,
    block_number: BlockNumber,
    table: &mut FlatTable<u64>,
)
    requires
        old(table).wf(),
    ensures
        final(table).wf(),
        forall|q: Felt|
            #[trigger] final(table)@.dom().contains(q) == (old(table)@.dom().contains(q)
                || has_deprecated(deprecated@, q)),
        forall|q: Felt|
            #[trigger] old(table)@.dom().contains(q) ==> final(table)@[q] == old(table)@[q],
        forall|q: Felt|
            !old(table)@.dom().contains(q) && has_deprecated(deprecated@, q) ==> final(table)@[q]
                == block_number.0,
{
    let n: u64 = block_number.0;
    let mut i: usize = 0;
    while i < deprecated.len()
        invariant
            table.wf(),
            i <= deprecated@.len(),
            n == block_number.0,
            forall|q: Felt|
                #[trigger] table@.dom().contains(q) == (old(table)@.dom().contains(q)
                    || has_deprecated(deprecated@.take(i as int), q)),
            forall|q: Felt|
                #[trigger] old(table)@.dom().contains(q) ==> table@[q] == old(table)@[q],
            forall|q: Felt|
                !old(table)@.dom().contains(q) && has_deprecated(deprecated@.take(i as int), q)
                    ==> table@[q] == n,
        decreases deprecated@.len() - i,
    {
        let class_hash = deprecated[i];
        let already = match table.get(class_hash.0) {
            Some(_) => true,
            None => false,
        };
        if !already {
            table.upsert(class_hash.0, n);
        }
        i = i + 1;
        proof {
            let tk = deprecated@.take(i as int);
            assert(tk.drop_last() =~= deprecated@.take(i - 1));
            assert(tk.last() == deprecated@[i - 1]);
            assert forall|q: Felt|
                #[trigger] table@.dom().contains(q) == (old(table)@.dom().contains(q)
                    || has_deprecated(tk, q)) by {
                if has_deprecated(tk, q) {
                    let j = choose|j: int| 0 <= j < tk.len() && (#[trigger] tk[j]).0 == q;
                    if j < i - 1 {
                        assert(has_deprecated(deprecated@.take(i - 1), q));
                    }
                }
                if has_deprecated(deprecated@.take(i - 1), q) {
                    let j = choose|j: int|
                        0 <= j < i - 1 && (#[trigger] deprecated@.take(i - 1)[j]).0 == q;
                    assert(tk[j] == deprecated@.take(i - 1)[j]);
                    assert(has_deprecated(tk, q));
                }
                if deprecated@[i - 1].0 == q {
                    assert(tk[i - 1] == deprecated@[i - 1]);
                    assert(has_deprecated(tk, q));
                }
            }
            assert forall|q: Felt|
                !old(table)@.dom().contains(q) && has_deprecated(tk, q) implies table@[q] == n by {
                if deprecated@[i - 1].0 != q {
                    let j = choose|j: int| 0 <= j < tk.len() && (#[trigger] tk[j]).0 == q;
                    assert(j < i - 1);
                    assert(tk[j] == deprecated@.take(i - 1)[j]);
                    assert(has_deprecated(deprecated@.take(i - 1), q));
                }
            }
        }
    }
    proof {
        assert(deprecated@.take(deprecated@.len() as int) =~= deprecated@);
    }
}

// ---------------------------------------------------------------------------
// Markers.
// ---------------------------------------------------------------------------
/// Where the compiled-class marker lands when skipped forward over blocks
/// that declare no classes, from `c` up to at most `s`.
pub open spec fn catch_up(h: Seq<ThinStateDiffView>, c: nat, s: nat) -> nat
    decreases s - c,
{
    if c < s && c < h.len() && h[c as int].declared_classes.len() == 0 {
        catch_up(h, c + 1, s)
    } else {
        c
    }
}

/// The catch-up never moves the marker backwards or past the state marker.
pub proof fn lemma_catch_up_bounds(h: Seq<ThinStateDiffView>, c: nat, s: nat)
    requires
        c <= s,
    ensures
        c <= catch_up(h, c, s) <= s,
    decreases s - c,
{
    if c < s && c < h.len() && h[c as int].declared_classes.len() == 0 {
        lemma_catch_up_bounds(h, c + 1, s);
    }
}

impl StateStorage {
    /// True when only the compiled-class marker differs between two states.
    pub open spec fn eq_except_compiled_marker(pre: StateStorage, post: StateStorage) -> bool {
        &&& post.state_marker == pre.state_marker
        &&& post.class_marker == pre.class_marker
        &&& post.deployed_contracts == pre.deployed_contracts
        &&& post.contract_storage == pre.contract_storage
        &&& post.nonces == pre.nonces
        &&& post.compiled_class_hashes == pre.compiled_class_hashes
        &&& post.declared_classes_block == pre.declared_classes_block
        &&& post.deprecated_declared_classes_block == pre.deprecated_declared_classes_block
        &&& post.declared_classes == pre.declared_classes
        &&& post.deprecated_declared_classes == pre.deprecated_declared_classes
        &&& post.casms == pre.casms
        &&& post.state_diffs == pre.state_diffs
        &&& post.state_diff_file == pre.state_diff_file
        &&& post.sierra_file == pre.sierra_file
        &&& post.deprecated_file == pre.deprecated_file
        &&& post.casm_file == pre.casm_file
        &&& post.diffs@ == pre.diffs@
    }

    /// Skips the compiled-class marker forward one block at a time while the
    /// block it sits on declared no classes: such a block trivially has all
    /// its compiled classes, and need not hold the marker back.
    #[verifier::rlimit(50)]
    fn advance_compiled_class_marker_over_blocks_without_classes(&mut self)
        requires
            old(self).compiled_class_marker <= old(self).state_marker,
            old(self).state_marker == old(self).state_diffs@.len(),
            old(self).state_marker == old(self).history().len(),
            forall|b: int|
                0 <= b < old(self).state_marker ==> (#[trigger] old(self).state_diffs@[b]).offset
                    < old(self).state_diff_file@.len(),
            forall|b: int|
                0 <= b < old(self).state_marker ==> (dec_thin_state_diff(
                    old(self).state_diff_file@[(#[trigger] old(self).state_diffs@[b]).offset as int],
                    0,
                ) matches Some(dj) && dj.0 == old(self).history()[b]),
        ensures
            StateStorage::eq_except_compiled_marker(*old(self), *final(self)),
            final(self).compiled_class_marker == catch_up(
                old(self).history(),
                old(self).compiled_class_marker as nat,
                old(self).state_marker as nat,
            ),
    {
        let state_marker: u64 = self.state_marker;
        while self.compiled_class_marker < state_marker
            invariant
                StateStorage::eq_except_compiled_marker(*old(self), *self),
                state_marker == old(self).state_marker,
                self.compiled_class_marker <= state_marker,
                catch_up(
                    old(self).history(),
                    old(self).compiled_class_marker as nat,
                    state_marker as nat,
                ) == catch_up(
                    old(self).history(),
                    self.compiled_class_marker as nat,
                    state_marker as nat,
                ),
                old(self).state_marker == old(self).state_diffs@.len(),
                old(self).state_marker == old(self).history().len(),
                forall|b: int|
                    0 <= b < old(self).state_marker ==> (#[trigger] old(self).state_diffs@[b]).offset < old(self).state_diff_file@.len(),
                forall|b: int|
                    0 <= b < old(self).state_marker ==> (dec_thin_state_diff(
                        old(self).state_diff_file@[(#[trigger] old(self).state_diffs@[b]).offset as int],
                        0,
                    ) matches Some(dj) && dj.0 == old(self).history()[b]),
            decreases state_marker - self.compiled_class_marker,
        {
            let c = self.compiled_class_marker;
            let sdlen: usize = self.state_diffs.len();
            proof {
                assert(sdlen == old(self).state_diffs@.len());
            }
            let location = self.state_diffs[c as usize];
            proof {
                assert(location == old(self).state_diffs@[c as int]);
            }
            let body = self.state_diff_file.get_unchecked(location);
            proof {
                assert(body@ == old(self).state_diff_file@[location.offset as int]);
                assert(dec_thin_state_diff(body@, 0) matches Some(dj) && dj.0 == old(self).history()[c as int]);
            }
            let mut pos: usize = 0;
            let d = match ThinStateDiff::deserialize_from(&body, &mut pos) {
                Some(d) => d,
                None => {
                    proof {
                        assert(false);
                    }
                    return ;
                },
            };
            if d.declared_classes.len() != 0 {
                proof {
                    assert(d@ == old(self).history()[c as int]);
                    assert(old(self).history()[c as int].declared_classes.len() != 0);
                }
                return ;
            }
            proof {
                assert(d@ == old(self).history()[c as int]);
                assert(old(self).history()[c as int].declared_classes.len() == 0);
            }
            self.compiled_class_marker = c + 1;
        }
    }
}

// ---------------------------------------------------------------------------
// Appending a block's diff.
// ---------------------------------------------------------------------------
/// True when a diff declares a class the storage already knows: appending it
/// would redeclare a class, which the engine refuses.
pub open spec fn stale_declared(m: Map<Felt, u64>, d: ThinStateDiffView) -> bool {
    exists|j: int|
        0 <= j < d.declared_classes.len() && m.dom().contains(
            (#[trigger] d.declared_classes[j]).0.0,
        )
}

/// Everything appending `d` at block `bn` does to the storage, stated over
/// the table views of the state before and after.
pub open spec fn append_effects(
    pre: StateStorage,
    post: StateStorage,
    bn: BlockNumber,
    d: ThinStateDiffView,
) -> bool {
    let n = bn.0;
    // Markers: the state marker advances by exactly one; the compiled-class
    // marker catches up over blocks without declared classes; the class
    // marker is untouched.
    &&& post.state_marker == n + 1
    &&& post.class_marker == pre.class_marker
    &&& post.compiled_class_marker == catch_up(
        post.history(),
        pre.compiled_class_marker as nat,
        (n + 1) as nat,
    )
    // History: the diff is recorded for the block, and its stored body is
    // one new blob.
    &&& post.history() == pre.history().push(d)
    &&& post.state_diffs@.len() == n + 1
    &&& forall|b: int| 0 <= b < n ==> post.state_diffs@[b] == pre.state_diffs@[b]
    &&& post.state_diff_file@.len() == pre.state_diff_file@.len() + 1
    &&& forall|b: int|
        0 <= b < pre.state_diff_file@.len() ==> post.state_diff_file@[b]
            == pre.state_diff_file@[b]
    // Untouched tables and files.
    &&& post.declared_classes == pre.declared_classes
    &&& post.deprecated_declared_classes == pre.deprecated_declared_classes
    &&& post.casms == pre.casms
    &&& post.sierra_file == pre.sierra_file
    &&& post.deprecated_file == pre.deprecated_file
    &&& post.casm_file == pre.casm_file
    // Deployed contracts: one row per deployment, at this block.
    &&& forall|k: (Entity, u64)|
        #[trigger] post.deployed_contracts@.dom().contains(k) == (
        pre.deployed_contracts@.dom().contains(k) || (k.1 == n && has_deployed(
            d.deployed_contracts,
            k.0,
        )))
    &&& forall|j: int|
        0 <= j < d.deployed_contracts.len() ==> post.deployed_contracts@[
            (addr_entity((#[trigger] d.deployed_contracts[j]).0), n)
        ] == d.deployed_contracts[j].1.0
    &&& forall|k: (Entity, u64)|
        #[trigger] pre.deployed_contracts@.dom().contains(k) ==> post.deployed_contracts@[k]
            == pre.deployed_contracts@[k]
    // Contract storage: one row per write, at this block.
    &&& forall|k: (Entity, u64)|
        #[trigger] post.contract_storage@.dom().contains(k) == (
        pre.contract_storage@.dom().contains(k) || (k.1 == n && has_storage(d.storage_diffs, k.0)))
    &&& forall|j: int, l: int|
        #![trigger d.storage_diffs[j].1[l]]
        0 <= j < d.storage_diffs.len() && 0 <= l < d.storage_diffs[j].1.len()
            ==> post.contract_storage@[
            (storage_entity(d.storage_diffs[j].0, d.storage_diffs[j].1[l].0), n)
        ] == d.storage_diffs[j].1[l].1
    &&& forall|k: (Entity, u64)|
        #[trigger] pre.contract_storage@.dom().contains(k) ==> post.contract_storage@[k]
            == pre.contract_storage@[k]
    // Nonces: the diff's explicit updates, plus the implicit zero row for
    // deployments with no nonce history.
    &&& forall|k: (Entity, u64)|
        #[trigger] post.nonces@.dom().contains(k) == (pre.nonces@.dom().contains(k) || (k.1 == n
            && (has_nonce(d.nonces, k.0) || implicit_nonce(
            d.deployed_contracts,
            pre.nonces@,
            k.0,
            n,
        ))))
    &&& forall|j: int|
        0 <= j < d.nonces.len() ==> post.nonces@[(addr_entity((#[trigger] d.nonces[j]).0), n)]
            == d.nonces[j].1.0
    &&& forall|e: Entity|
        #[trigger] implicit_nonce(d.deployed_contracts, pre.nonces@, e, n) && !has_nonce(
            d.nonces,
            e,
        ) ==> post.nonces@[(e, n)] == Felt::spec_zero()
    &&& forall|k: (Entity, u64)|
        #[trigger] pre.nonces@.dom().contains(k) ==> post.nonces@[k] == pre.nonces@[k]
    // Compiled class hashes: one row per declared class, at this block.
    &&& forall|k: (Entity, u64)|
        #[trigger] post.compiled_class_hashes@.dom().contains(k) == (
        pre.compiled_class_hashes@.dom().contains(k) || (k.1 == n && has_compiled(
            d.declared_classes,
            k.0,
        )))
    &&& forall|j: int|
        0 <= j < d.declared_classes.len() ==> post.compiled_class_hashes@[
            (class_entity((#[trigger] d.declared_classes[j]).0), n)
        ] == d.declared_classes[j].1.0
    &&& forall|k: (Entity, u64)|
        #[trigger] pre.compiled_class_hashes@.dom().contains(k) ==> post.compiled_class_hashes@[k]
            == pre.compiled_class_hashes@[k]
    // First-declared index: each declared class is recorded at this block.
    &&& forall|q: Felt|
        #[trigger] post.declared_classes_block@.dom().contains(q) == (
        pre.declared_classes_block@.dom().contains(q) || has_declared(d.declared_classes, q))
    &&& forall|j: int|
        0 <= j < d.declared_classes.len() ==> post.declared_classes_block@[
            (#[trigger] d.declared_classes[j]).0.0
        ] == n
    &&& forall|q: Felt|
        #[trigger] pre.declared_classes_block@.dom().contains(q)
            ==> post.declared_classes_block@[q] == pre.declared_classes_block@[q]
    // Legacy first-declared index: only first declarations are recorded.
    &&& forall|q: Felt|
        #[trigger] post.deprecated_declared_classes_block@.dom().contains(q) == (
        pre.deprecated_declared_classes_block@.dom().contains(q) || has_deprecated(
            d.deprecated_declared_classes,
            q,
        ))
    &&& forall|q: Felt|
        #[trigger] pre.deprecated_declared_classes_block@.dom().contains(q)
            ==> post.deprecated_declared_classes_block@[q]
            == pre.deprecated_declared_classes_block@[q]
    &&& forall|q: Felt|
        !pre.deprecated_declared_classes_block@.dom().contains(q) && has_deprecated(
            d.deprecated_declared_classes,
            q,
        ) ==> post.deprecated_declared_classes_block@[q] == n
}

impl StateStorage {
    /// Appends a block's state diff across every table, atomically.
    ///
    /// The block appended must be exactly the one the state marker owes;
    /// anything else is refused with `MarkerMismatch` and no change. A diff
    /// redeclaring a known class is refused with `KeyAlreadyExists` and no
    /// change; a refusal of the compression library leaves no change either.
    /// On success every table holds the diff's rows at this block, the diff
    /// body is persisted compressed, the state marker advances by one, and
    /// the compiled-class marker catches up over blocks without classes.
    pub fn append_state_diff(
        &mut self,
        block_number: BlockNumber,
        thin_state_diff: &ThinStateDiff,
    ) -> (r: Result<(), StorageError>)
        requires
            old(self).wf(),
            thin_state_diff@.wf(),
            enc_diff_fields(thin_state_diff@).len() <= MAX_DECOMPRESSED_SIZE,
            block_number.in_range(),
        ensures
            (block_number.0 != old(self).state_marker) <==> r == Err::<(), StorageError>(
                StorageError::MarkerMismatch {
                    expected: BlockNumber(old(self).state_marker),
                    found: block_number,
                },
            ),
            (block_number.0 == old(self).state_marker && stale_declared(
                old(self).declared_classes_block@,
                thin_state_diff@,
            )) <==> r == Err::<(), StorageError>(StorageError::KeyAlreadyExists),
            r is Err ==> *final(self) == *old(self),
            r is Ok ==> append_effects(*old(self), *final(self), block_number, thin_state_diff@),
            r is Ok ==> final(self).wf(),
    {
        // The marker is the precondition: only the next block may come.
        if block_number.0 != self.state_marker {
            return Err(
                StorageError::MarkerMismatch {
                    expected: BlockNumber(self.state_marker),
                    found: block_number,
                },
            );
        }
        // A class is declared once across the chain; refuse a repeat.
        let mut j: usize = 0;
        while j < thin_state_diff.declared_classes.len()
            invariant
                *self == *old(self),
                self.wf(),
                block_number.0 == old(self).state_marker,
                j <= thin_state_diff@.declared_classes.len(),
                forall|q: int|
                    0 <= q < j ==> !self.declared_classes_block@.dom().contains(
                        (#[trigger] thin_state_diff@.declared_classes[q]).0.0,
                    ),
            decreases thin_state_diff@.declared_classes.len() - j,
        {
            let class_hash = thin_state_diff.declared_classes[j].0;
            match self.declared_classes_block.get(class_hash.0) {
                Some(_) => {
                    proof {
                        assert(stale_declared(
                            old(self).declared_classes_block@,
                            thin_state_diff@,
                        ));
                    }
                    return Err(StorageError::KeyAlreadyExists);
                },
                None => {},
            }
            j = j + 1;
        }
        proof {
            assert(!stale_declared(old(self).declared_classes_block@, thin_state_diff@));
        }
        // Serialize the body first: a compression refusal changes nothing.
        let mut body: Vec<u8> = Vec::new();
        match thin_state_diff.serialize_into(&mut body) {
            Ok(_) => {},
            Err(_) => {
                return Err(StorageError::Compression);
            },
        }
        let n: u64 = block_number.0;
        // Write the state rows.
        write_deployed_contracts(
            &thin_state_diff.deployed_contracts,
            block_number,
            &mut self.deployed_contracts,
            &mut self.nonces,
        );
        let ghost nonces_mid = self.nonces@;
        write_storage_diffs(
            &thin_state_diff.storage_diffs,
            block_number,
            &mut self.contract_storage,
        );
        // After the deployed contracts, so explicit nonces take precedence.
        write_nonces(&thin_state_diff.nonces, block_number, &mut self.nonces);
        write_declared_classes_block(
            &thin_state_diff.declared_classes,
            block_number,
            &mut self.declared_classes_block,
        );
        write_compiled_class_hashes(
            &thin_state_diff.declared_classes,
            block_number,
            &mut self.compiled_class_hashes,
        );
        write_deprecated_declared_classes_block(
            &thin_state_diff.deprecated_declared_classes,
            block_number,
            &mut self.deprecated_declared_classes_block,
        );
        // Persist the diff body and advance the markers.
        let location = self.state_diff_file.append(body);
        self.state_diffs.push(location);
        self.diffs = Ghost(self.diffs@.push(thin_state_diff@));
        self.state_marker = n + 1;
        proof {
            let c = choose|c: Seq<u8>|
                {
                    &&& self.state_diff_file@[location.offset as int] == crate::codec::enc_bytes(c)
                    &&& c.len() <= u64::MAX
                    &&& #[trigger] crate::compress::zstd_inflate(c, MAX_DECOMPRESSED_SIZE as nat)
                        == Some(enc_diff_fields(thin_state_diff@))
                };
            crate::diff::lemma_diff_body_decodes(
                self.state_diff_file@[location.offset as int],
                c,
                thin_state_diff@,
            );
        }
        self.advance_compiled_class_marker_over_blocks_without_classes();
        proof {
            lemma_catch_up_bounds(
                self.history(),
                old(self).compiled_class_marker as nat,
                (n + 1) as nat,
            );
            assert(self.history() =~= old(self).history().push(thin_state_diff@));
            assert(self.state_marker == n + 1);
            assert(self.class_marker == old(self).class_marker);
            assert(self.compiled_class_marker == catch_up(
                self.history(),
                old(self).compiled_class_marker as nat,
                (n + 1) as nat,
            ));
            assert(self.state_diffs@ == old(self).state_diffs@.push(location));
            assert(self.state_diffs@.len() == n + 1);
            assert(forall|b: int| 0 <= b < n ==> self.state_diffs@[b] == old(self).state_diffs@[b]);
            assert(self.state_diff_file@.len() == old(self).state_diff_file@.len() + 1);
            assert(forall|b: int|
                0 <= b < old(self).state_diff_file@.len() ==> self.state_diff_file@[b] == old(self).state_diff_file@[b]);
            let d = thin_state_diff@;
            let pren = old(self).nonces@;
            assert forall|k: (Entity, u64)|
                #[trigger] self.nonces@.dom().contains(k) == (pren.dom().contains(k) || (k.1 == n
                    && (has_nonce(d.nonces, k.0) || implicit_nonce(
                    d.deployed_contracts,
                    pren,
                    k.0,
                    n,
                )))) by {
                assert(nonces_mid.dom().contains(k) == (pren.dom().contains(k) || (k.1 == n
                    && implicit_nonce(d.deployed_contracts, pren, k.0, n))));
                assert(self.nonces@.dom().contains(k) == (nonces_mid.dom().contains(k) || (k.1 == n
                    && has_nonce(d.nonces, k.0))));
            }
            assert forall|e: Entity|
                #[trigger] implicit_nonce(d.deployed_contracts, pren, e, n) && !has_nonce(
                    d.nonces,
                    e,
                ) implies self.nonces@[(e, n)] == Felt::spec_zero() by {
                assert(nonces_mid[(e, n)] == Felt::spec_zero());
                assert(nonces_mid.dom().contains((e, n)));
                assert(self.nonces@[(e, n)] == nonces_mid[(e, n)]);
            }
            assert forall|k: (Entity, u64)| #[trigger] pren.dom().contains(k) implies self.nonces@[
                k
            ] == pren[k] by {
                assert(k.1 < n);
                assert(nonces_mid[k] == pren[k]);
                assert(nonces_mid.dom().contains(k));
                assert(self.nonces@[k] == nonces_mid[k]);
            }
            assert(final(self).wf()) by {
                assert forall|k: (Entity, u64)| #[trigger] self.nonces@.dom().contains(k) implies
                    has_nonce(self.history()[k.1 as int].nonces, k.0) || (has_deployed(
                    self.history()[k.1 as int].deployed_contracts,
                    k.0,
                ) && pred_block(self.nonces@, k.0, k.1 as nat) is None) by {
                    assert(k.1 <= n);
                    lemma_pred_frame(self.nonces@, old(self).nonces@, k.0, k.1 as nat);
                    if old(self).nonces@.dom().contains(k) {
                        assert(self.history()[k.1 as int] == old(self).history()[k.1 as int]);
                    } else {
                        assert(k.1 == n);
                        assert(self.history()[n as int] == thin_state_diff@);
                    }
                }
                assert forall|b: int, jj: int|
                    0 <= b < self.state_marker && 0 <= jj < self.history()[
                        b
                    ].deprecated_declared_classes.len() implies self.deprecated_declared_classes_block@.dom().contains(
                    (#[trigger] self.history()[b].deprecated_declared_classes[jj]).0,
                ) && self.deprecated_declared_classes_block@[self.history()[b].deprecated_declared_classes[jj].0]
                    <= b by {
                    let q = self.history()[b].deprecated_declared_classes[jj].0;
                    if b < n {
                        assert(old(self).history()[b] == self.history()[b]);
                        assert(old(self).deprecated_declared_classes_block@.dom().contains(q));
                    } else {
                        assert(self.history()[b] == thin_state_diff@);
                        assert(has_deprecated(thin_state_diff@.deprecated_declared_classes, q));
                        if old(self).deprecated_declared_classes_block@.dom().contains(q) {
                        } else {
                        }
                    }
                }
            }
        }
        Ok(())
    }
}


/// Removes a diff's explicit nonce rows at a reverted block.
fn delete_nonces(data: &Vec<(ContractAddress, Nonce)>, block_number: BlockNumber, table: &mut VersionedTable)
    requires
        old(table).wf(),
    ensures
        final(table).wf(),
        forall|k: (Entity, u64)|
            #[trigger] final(table)@.dom().contains(k) == (old(table)@.dom().contains(k) && !(k.1
                == block_number.0 && has_nonce(data@, k.0))),
        forall|k: (Entity, u64)|
            #[trigger] final(table)@.dom().contains(k) ==> final(table)@[k] == old(table)@[k],
{
    let n: u64 = block_number.0;
    let mut i: usize = 0;
    while i < data.len()
        invariant
            table.wf(),
            i <= data@.len(),
            n == block_number.0,
            forall|k: (Entity, u64)|
                #[trigger] table@.dom().contains(k) == (old(table)@.dom().contains(k) && !(k.1 == n
                    && has_nonce(data@.take(i as int), k.0))),
            forall|k: (Entity, u64)|
                #[trigger] table@.dom().contains(k) ==> table@[k] == old(table)@[k],
        decreases data@.len() - i,
    {
        let key = data[i].0;
        table.delete(key.0, Felt::zero(), n);
        i = i + 1;
        proof {
            let tk = data@.take(i as int);
            assert(tk.drop_last() =~= data@.take(i - 1));
            assert(tk.last() == data@[i - 1]);
            assert forall|k: (Entity, u64)|
                #[trigger] table@.dom().contains(k) == (old(table)@.dom().contains(k) && !(k.1 == n
                    && has_nonce(tk, k.0))) by {
                if has_nonce(tk, k.0) {
                    let j = choose|j: int|
                        0 <= j < tk.len() && addr_entity((#[trigger] tk[j]).0) == k.0;
                    if j < i - 1 {
                        assert(has_nonce(data@.take(i - 1), k.0));
                    }
                }
                if has_nonce(data@.take(i - 1), k.0) {
                    let j = choose|j: int|
                        0 <= j < i - 1 && addr_entity((#[trigger] data@.take(i - 1)[j]).0) == k.0;
                    assert(tk[j] == data@.take(i - 1)[j]);
                    assert(has_nonce(tk, k.0));
                }
                if k.1 == n && addr_entity(data@[i - 1].0) == k.0 {
                    assert(tk[i - 1] == data@[i - 1]);
                    assert(has_nonce(tk, k.0));
                }
            }
        }
    }
    proof {
        assert(data@.take(data@.len() as int) =~= data@);
    }
}

/// Removes a diff's compiled class hash rows at a reverted block.
fn delete_compiled_class_hashes(data: &Vec<(ClassHash, CompiledClassHash)>, block_number: BlockNumber, table: &mut VersionedTable)
    requires
        old(table).wf(),
    ensures
        final(table).wf(),
        forall|k: (Entity, u64)|
            #[trigger] final(table)@.dom().contains(k) == (old(table)@.dom().contains(k) && !(k.1
                == block_number.0 && has_compiled(data@, k.0))),
        forall|k: (Entity, u64)|
            #[trigger] final(table)@.dom().contains(k) ==> final(table)@[k] == old(table)@[k],
{
    let n: u64 = block_number.0;
    let mut i: usize = 0;
    while i < data.len()
        invariant
            table.wf(),
            i <= data@.len(),
            n == block_number.0,
            forall|k: (Entity, u64)|
                #[trigger] table@.dom().contains(k) == (old(table)@.dom().contains(k) && !(k.1 == n
                    && has_compiled(data@.take(i as int), k.0))),
            forall|k: (Entity, u64)|
                #[trigger] table@.dom().contains(k) ==> table@[k] == old(table)@[k],
        decreases data@.len() - i,
    {
        let key = data[i].0;
        table.delete(key.0, Felt::zero(), n);
        i = i + 1;
        proof {
            let tk = data@.take(i as int);
            assert(tk.drop_last() =~= data@.take(i - 1));
            assert(tk.last() == data@[i - 1]);
            assert forall|k: (Entity, u64)|
                #[trigger] table@.dom().contains(k) == (old(table)@.dom().contains(k) && !(k.1 == n
                    && has_compiled(tk, k.0))) by {
                if has_compiled(tk, k.0) {
                    let j = choose|j: int|
                        0 <= j < tk.len() && class_entity((#[trigger] tk[j]).0) == k.0;
                    if j < i - 1 {
                        assert(has_compiled(data@.take(i - 1), k.0));
                    }
                }
                if has_compiled(data@.take(i - 1), k.0) {
                    let j = choose|j: int|
                        0 <= j < i - 1 && class_entity((#[trigger] data@.take(i - 1)[j]).0) == k.0;
                    assert(tk[j] == data@.take(i - 1)[j]);
                    assert(has_compiled(tk, k.0));
                }
                if k.1 == n && class_entity(data@[i - 1].0) == k.0 {
                    assert(tk[i - 1] == data@[i - 1]);
                    assert(has_compiled(tk, k.0));
                }
            }
        }
    }
    proof {
        assert(data@.take(data@.len() as int) =~= data@);
    }
}

/// Removes a diff's deployed-contract rows at a reverted block, and the
/// implicit nonce row of each contract that was deployed there: a contract
/// with no nonce history below the block got its nonce row implicitly.
fn delete_deployed_contracts(
    deployed: &Vec<(ContractAddress, ClassHash)>,
    block_number: BlockNumber,
    deployed_contracts_table: &mut VersionedTable,
    nonces_table: &mut VersionedTable,
)
    requires
        old(deployed_contracts_table).wf(),
        old(nonces_table).wf(),
    ensures
        final(deployed_contracts_table).wf(),
        final(nonces_table).wf(),
        forall|k: (Entity, u64)|
            #[trigger] final(deployed_contracts_table)@.dom().contains(k) == (old(deployed_contracts_table)@.dom().contains(k) && !(k.1 == block_number.0 && has_deployed(deployed@, k.0))),
        forall|k: (Entity, u64)|
            #[trigger] final(deployed_contracts_table)@.dom().contains(k) ==> final(deployed_contracts_table)@[k] == old(deployed_contracts_table)@[k],
        forall|k: (Entity, u64)|
            #[trigger] final(nonces_table)@.dom().contains(k) == (old(nonces_table)@.dom().contains(k) && !(k.1 == block_number.0 && implicit_nonce(
                deployed@,
                old(nonces_table)@,
                k.0,
                block_number.0,
            ))),
        forall|k: (Entity, u64)|
            #[trigger] final(nonces_table)@.dom().contains(k) ==> final(nonces_table)@[k] == old(nonces_table)@[k],
{
    let n: u64 = block_number.0;
    let mut i: usize = 0;
    while i < deployed.len()
        invariant
            deployed_contracts_table.wf(),
            nonces_table.wf(),
            i <= deployed@.len(),
            n == block_number.0,
            forall|k: (Entity, u64)|
                #[trigger] deployed_contracts_table@.dom().contains(k) == (old(deployed_contracts_table)@.dom().contains(k) && !(k.1 == n && has_deployed(deployed@.take(i as int), k.0))),
            forall|k: (Entity, u64)|
                #[trigger] deployed_contracts_table@.dom().contains(k)
                    ==> deployed_contracts_table@[k] == old(deployed_contracts_table)@[k],
            forall|k: (Entity, u64)|
                #[trigger] nonces_table@.dom().contains(k) == (old(nonces_table)@.dom().contains(k)
                    && !(k.1 == n && implicit_nonce(
                    deployed@.take(i as int),
                    old(nonces_table)@,
                    k.0,
                    n,
                ))),
            forall|k: (Entity, u64)|
                #[trigger] nonces_table@.dom().contains(k) ==> nonces_table@[k] == old(nonces_table)@[k],
        decreases deployed@.len() - i,
    {
        let address = deployed[i].0;
        deployed_contracts_table.delete(address.0, Felt::zero(), n);
        // The row at this block is implicit exactly when the contract has no
        // nonce history strictly below it.
        proof {
            lemma_pred_frame(nonces_table@, old(nonces_table)@, addr_entity(address), n as nat);
        }
        let has_prior = match nonces_table.closest_before(address.0, Felt::zero(), n) {
            Some(_) => true,
            None => false,
        };
        if !has_prior {
            nonces_table.delete(address.0, Felt::zero(), n);
        }
        i = i + 1;
        proof {
            let tk = deployed@.take(i as int);
            assert(tk.drop_last() =~= deployed@.take(i - 1));
            assert(tk.last() == deployed@[i - 1]);
            assert forall|k: (Entity, u64)|
                #[trigger] deployed_contracts_table@.dom().contains(k) == (old(deployed_contracts_table)@.dom().contains(k) && !(k.1 == n && has_deployed(tk, k.0))) by {
                if has_deployed(tk, k.0) {
                    let j = choose|j: int|
                        0 <= j < tk.len() && addr_entity((#[trigger] tk[j]).0) == k.0;
                    if j < i - 1 {
                        assert(has_deployed(deployed@.take(i - 1), k.0));
                    }
                }
                if has_deployed(deployed@.take(i - 1), k.0) {
                    let j = choose|j: int|
                        0 <= j < i - 1 && addr_entity((#[trigger] deployed@.take(i - 1)[j]).0)
                            == k.0;
                    assert(tk[j] == deployed@.take(i - 1)[j]);
                    assert(has_deployed(tk, k.0));
                }
                if k.1 == n && addr_entity(deployed@[i - 1].0) == k.0 {
                    assert(tk[i - 1] == deployed@[i - 1]);
                    assert(has_deployed(tk, k.0));
                }
            }
            assert forall|k: (Entity, u64)|
                #[trigger] nonces_table@.dom().contains(k) == (old(nonces_table)@.dom().contains(k)
                    && !(k.1 == n && implicit_nonce(tk, old(nonces_table)@, k.0, n))) by {
                if implicit_nonce(tk, old(nonces_table)@, k.0, n) {
                    let j = choose|j: int|
                        0 <= j < tk.len() && addr_entity((#[trigger] tk[j]).0) == k.0;
                    if j < i - 1 {
                        assert(has_deployed(deployed@.take(i - 1), k.0));
                    }
                }
                if implicit_nonce(deployed@.take(i - 1), old(nonces_table)@, k.0, n) {
                    let j = choose|j: int|
                        0 <= j < i - 1 && addr_entity((#[trigger] deployed@.take(i - 1)[j]).0)
                            == k.0;
                    assert(tk[j] == deployed@.take(i - 1)[j]);
                    assert(has_deployed(tk, k.0));
                }
                if k.1 == n && addr_entity(deployed@[i - 1].0) == k.0 && pred_block(
                    old(nonces_table)@,
                    k.0,
                    n as nat,
                ) is None {
                    assert(tk[i - 1] == deployed@[i - 1]);
                    assert(has_deployed(tk, k.0));
                    assert(implicit_nonce(tk, old(nonces_table)@, k.0, n));
                }
            }
        }
    }
    proof {
        assert(deployed@.take(deployed@.len() as int) =~= deployed@);
    }
}

/// Removes one contract's storage rows at a reverted block.
fn delete_storage_one(
    address: ContractAddress,
    entries: &Vec<(StorageKey, Felt)>,
    block_number: BlockNumber,
    storage_table: &mut VersionedTable,
)
    requires
        old(storage_table).wf(),
    ensures
        final(storage_table).wf(),
        forall|k: (Entity, u64)|
            #[trigger] final(storage_table)@.dom().contains(k) == (old(storage_table)@.dom().contains(k) && !(k.1 == block_number.0 && has_storage_one(
                address,
                entries@,
                k.0,
            ))),
        forall|k: (Entity, u64)|
            #[trigger] final(storage_table)@.dom().contains(k) ==> final(storage_table)@[k] == old(storage_table)@[k],
{
    let n: u64 = block_number.0;
    let mut i: usize = 0;
    while i < entries.len()
        invariant
            storage_table.wf(),
            i <= entries@.len(),
            n == block_number.0,
            forall|k: (Entity, u64)|
                #[trigger] storage_table@.dom().contains(k) == (old(storage_table)@.dom().contains(k) && !(k.1 == n && has_storage_one(
                    address,
                    entries@.take(i as int),
                    k.0,
                ))),
            forall|k: (Entity, u64)|
                #[trigger] storage_table@.dom().contains(k) ==> storage_table@[k] == old(storage_table)@[k],
        decreases entries@.len() - i,
    {
        let key = entries[i].0;
        storage_table.delete(address.0, key.0, n);
        i = i + 1;
        proof {
            let tk = entries@.take(i as int);
            assert(tk.drop_last() =~= entries@.take(i - 1));
            assert(tk.last() == entries@[i - 1]);
            assert forall|k: (Entity, u64)|
                #[trigger] storage_table@.dom().contains(k) == (old(storage_table)@.dom().contains(k) && !(k.1 == n && has_storage_one(address, tk, k.0))) by {
                if has_storage_one(address, tk, k.0) {
                    let l = choose|l: int|
                        0 <= l < tk.len() && storage_entity(address, (#[trigger] tk[l]).0) == k.0;
                    if l < i - 1 {
                        assert(has_storage_one(address, entries@.take(i - 1), k.0));
                    }
                }
                if has_storage_one(address, entries@.take(i - 1), k.0) {
                    let l = choose|l: int|
                        0 <= l < i - 1 && storage_entity(
                            address,
                            (#[trigger] entries@.take(i - 1)[l]).0,
                        ) == k.0;
                    assert(tk[l] == entries@.take(i - 1)[l]);
                    assert(has_storage_one(address, tk, k.0));
                }
                if k.1 == n && storage_entity(address, entries@[i - 1].0) == k.0 {
                    assert(tk[i - 1] == entries@[i - 1]);
                    assert(has_storage_one(address, tk, k.0));
                }
            }
        }
    }
    proof {
        assert(entries@.take(entries@.len() as int) =~= entries@);
    }
}

/// Removes a diff's storage rows at a reverted block, contract by contract.
fn delete_storage_diffs(
    storage_diffs: &Vec<(ContractAddress, Vec<(StorageKey, Felt)>)>,
    block_number: BlockNumber,
    storage_table: &mut VersionedTable,
)
    requires
        old(storage_table).wf(),
    ensures
        final(storage_table).wf(),
        forall|k: (Entity, u64)|
            #[trigger] final(storage_table)@.dom().contains(k) == (old(storage_table)@.dom().contains(k) && !(k.1 == block_number.0 && has_storage(
                crate::diff::storage_view(storage_diffs@),
                k.0,
            ))),
        forall|k: (Entity, u64)|
            #[trigger] final(storage_table)@.dom().contains(k) ==> final(storage_table)@[k] == old(storage_table)@[k],
{
    let ghost sv = crate::diff::storage_view(storage_diffs@);
    let n: u64 = block_number.0;
    let mut j: usize = 0;
    while j < storage_diffs.len()
        invariant
            storage_table.wf(),
            j <= storage_diffs@.len(),
            n == block_number.0,
            sv == crate::diff::storage_view(storage_diffs@),
            sv.len() == storage_diffs@.len(),
            forall|k: (Entity, u64)|
                #[trigger] storage_table@.dom().contains(k) == (old(storage_table)@.dom().contains(k) && !(k.1 == n && has_storage(sv.take(j as int), k.0))),
            forall|k: (Entity, u64)|
                #[trigger] storage_table@.dom().contains(k) ==> storage_table@[k] == old(storage_table)@[k],
        decreases storage_diffs@.len() - j,
    {
        let address = storage_diffs[j].0;
        proof {
            assert(sv[j as int] == (storage_diffs@[j as int].0, storage_diffs@[j as int].1@));
        }
        delete_storage_one(address, &storage_diffs[j].1, block_number, storage_table);
        j = j + 1;
        proof {
            let tk = sv.take(j as int);
            let prev = sv.take(j - 1);
            assert(tk.drop_last() =~= prev);
            assert(tk.last() == sv[j - 1]);
            let entries = sv[j - 1].1;
            assert forall|k: (Entity, u64)|
                #[trigger] storage_table@.dom().contains(k) == (old(storage_table)@.dom().contains(k) && !(k.1 == n && has_storage(tk, k.0))) by {
                if has_storage(tk, k.0) {
                    let (q, l) = choose|q: int, l: int|
                        #![trigger storage_entity(tk[q].0, tk[q].1[l].0)]
                        0 <= q < tk.len() && 0 <= l < tk[q].1.len() && storage_entity(
                            tk[q].0,
                            tk[q].1[l].0,
                        ) == k.0;
                    if q < j - 1 {
                        assert(prev[q] == tk[q]);
                        assert(storage_entity(prev[q].0, prev[q].1[l].0) == k.0);
                        assert(has_storage(prev, k.0));
                    } else {
                        assert(has_storage_one(address, entries, k.0));
                    }
                }
                if has_storage(prev, k.0) {
                    let (q, l) = choose|q: int, l: int|
                        #![trigger storage_entity(prev[q].0, prev[q].1[l].0)]
                        0 <= q < prev.len() && 0 <= l < prev[q].1.len() && storage_entity(
                            prev[q].0,
                            prev[q].1[l].0,
                        ) == k.0;
                    assert(tk[q] == prev[q]);
                    assert(storage_entity(tk[q].0, tk[q].1[l].0) == k.0);
                    assert(has_storage(tk, k.0));
                }
                if k.1 == n && has_storage_one(address, entries, k.0) {
                    let l = choose|l: int|
                        0 <= l < entries.len() && storage_entity(address, (#[trigger] entries[l]).0)
                            == k.0;
                    assert(storage_entity(tk[j - 1].0, tk[j - 1].1[l].0) == k.0);
                    assert(has_storage(tk, k.0));
                }
            }
        }
    }
    proof {
        assert(sv.take(sv.len() as int) =~= sv);
    }
}


/// Removes the stored body of each class a reverted diff declared,
/// collecting the removed bodies.
fn delete_declared_classes(
    declared: &Vec<(ClassHash, CompiledClassHash)>,
    table: &mut FlatTable<LocationInFile>,
    file: &BlobFile,
) -> (deleted: Vec<(ClassHash, Vec<u8>)>)
    requires
        old(table).wf(),
        forall|q: Felt|
            #[trigger] old(table)@.dom().contains(q) ==> old(table)@[q].offset < file@.len(),
    ensures
        final(table).wf(),
        forall|q: Felt|
            #[trigger] final(table)@.dom().contains(q) == (old(table)@.dom().contains(q)
                && !has_declared(declared@, q)),
        forall|q: Felt|
            #[trigger] final(table)@.dom().contains(q) ==> final(table)@[q] == old(table)@[q],
        forall|idx: int|
            0 <= idx < deleted@.len() ==> {
                &&& has_declared(declared@, (#[trigger] deleted@[idx]).0.0)
                &&& old(table)@.dom().contains(deleted@[idx].0.0)
                &&& deleted@[idx].1@ == file@[old(table)@[deleted@[idx].0.0].offset as int]
            },
{
    let mut deleted: Vec<(ClassHash, Vec<u8>)> = Vec::new();
    let mut i: usize = 0;
    while i < declared.len()
        invariant
            table.wf(),
            i <= declared@.len(),
            forall|q: Felt|
                #[trigger] old(table)@.dom().contains(q) ==> old(table)@[q].offset < file@.len(),
            forall|q: Felt|
                #[trigger] table@.dom().contains(q) == (old(table)@.dom().contains(q)
                    && !has_declared(declared@.take(i as int), q)),
            forall|q: Felt|
                #[trigger] table@.dom().contains(q) ==> table@[q] == old(table)@[q],
            forall|idx: int|
                0 <= idx < deleted@.len() ==> {
                    &&& has_declared(declared@, (#[trigger] deleted@[idx]).0.0)
                    &&& old(table)@.dom().contains(deleted@[idx].0.0)
                    &&& deleted@[idx].1@ == file@[old(table)@[deleted@[idx].0.0].offset as int]
                },
        decreases declared@.len() - i,
    {
        let class_hash = declared[i].0;
        match table.get(class_hash.0) {
            Some(location) => {
                let body = file.get_unchecked(location);
                deleted.push((class_hash, body));
                table.delete(class_hash.0);
                proof {
                    assert(has_declared(declared@, class_hash.0)) by {
                        assert(declared@[i as int].0 == class_hash);
                    }
                }
            },
            None => {},
        }
        i = i + 1;
        proof {
            let tk = declared@.take(i as int);
            assert(tk.drop_last() =~= declared@.take(i - 1));
            assert(tk.last() == declared@[i - 1]);
            assert forall|q: Felt|
                #[trigger] table@.dom().contains(q) == (old(table)@.dom().contains(q)
                    && !has_declared(tk, q)) by {
                if has_declared(tk, q) {
                    let j = choose|j: int| 0 <= j < tk.len() && (#[trigger] tk[j]).0.0 == q;
                    if j < i - 1 {
                        assert(has_declared(declared@.take(i - 1), q));
                    }
                }
                if has_declared(declared@.take(i - 1), q) {
                    let j = choose|j: int|
                        0 <= j < i - 1 && (#[trigger] declared@.take(i - 1)[j]).0.0 == q;
                    assert(tk[j] == declared@.take(i - 1)[j]);
                    assert(has_declared(tk, q));
                }
                if declared@[i - 1].0.0 == q {
                    assert(tk[i - 1] == declared@[i - 1]);
                    assert(has_declared(tk, q));
                }
            }
        }
    }
    proof {
        assert(declared@.take(declared@.len() as int) =~= declared@);
    }
    deleted
}

/// Removes the stored compiled body of each class a reverted diff
/// declared, collecting the removed bodies.
fn delete_compiled_classes(
    declared: &Vec<(ClassHash, CompiledClassHash)>,
    table: &mut FlatTable<LocationInFile>,
    file: &BlobFile,
) -> (deleted: Vec<(ClassHash, Vec<u8>)>)
    requires
        old(table).wf(),
        forall|q: Felt|
            #[trigger] old(table)@.dom().contains(q) ==> old(table)@[q].offset < file@.len(),
    ensures
        final(table).wf(),
        forall|q: Felt|
            #[trigger] final(table)@.dom().contains(q) == (old(table)@.dom().contains(q)
                && !has_declared(declared@, q)),
        forall|q: Felt|
            #[trigger] final(table)@.dom().contains(q) ==> final(table)@[q] == old(table)@[q],
        forall|idx: int|
            0 <= idx < deleted@.len() ==> {
                &&& has_declared(declared@, (#[trigger] deleted@[idx]).0.0)
                &&& old(table)@.dom().contains(deleted@[idx].0.0)
                &&& deleted@[idx].1@ == file@[old(table)@[deleted@[idx].0.0].offset as int]
            },
{
    let mut deleted: Vec<(ClassHash, Vec<u8>)> = Vec::new();
    let mut i: usize = 0;
    while i < declared.len()
        invariant
            table.wf(),
            i <= declared@.len(),
            forall|q: Felt|
                #[trigger] old(table)@.dom().contains(q) ==> old(table)@[q].offset < file@.len(),
            forall|q: Felt|
                #[trigger] table@.dom().contains(q) == (old(table)@.dom().contains(q)
                    && !has_declared(declared@.take(i as int), q)),
            forall|q: Felt|
                #[trigger] table@.dom().contains(q) ==> table@[q] == old(table)@[q],
            forall|idx: int|
                0 <= idx < deleted@.len() ==> {
                    &&& has_declared(declared@, (#[trigger] deleted@[idx]).0.0)
                    &&& old(table)@.dom().contains(deleted@[idx].0.0)
                    &&& deleted@[idx].1@ == file@[old(table)@[deleted@[idx].0.0].offset as int]
                },
        decreases declared@.len() - i,
    {
        let class_hash = declared[i].0;
        match table.get(class_hash.0) {
            Some(location) => {
                let body = file.get_unchecked(location);
                deleted.push((class_hash, body));
                table.delete(class_hash.0);
                proof {
                    assert(has_declared(declared@, class_hash.0)) by {
                        assert(declared@[i as int].0 == class_hash);
                    }
                }
            },
            None => {},
        }
        i = i + 1;
        proof {
            let tk = declared@.take(i as int);
            assert(tk.drop_last() =~= declared@.take(i - 1));
            assert(tk.last() == declared@[i - 1]);
            assert forall|q: Felt|
                #[trigger] table@.dom().contains(q) == (old(table)@.dom().contains(q)
                    && !has_declared(tk, q)) by {
                if has_declared(tk, q) {
                    let j = choose|j: int| 0 <= j < tk.len() && (#[trigger] tk[j]).0.0 == q;
                    if j < i - 1 {
                        assert(has_declared(declared@.take(i - 1), q));
                    }
                }
                if has_declared(declared@.take(i - 1), q) {
                    let j = choose|j: int|
                        0 <= j < i - 1 && (#[trigger] declared@.take(i - 1)[j]).0.0 == q;
                    assert(tk[j] == declared@.take(i - 1)[j]);
                    assert(has_declared(tk, q));
                }
                if declared@[i - 1].0.0 == q {
                    assert(tk[i - 1] == declared@[i - 1]);
                    assert(has_declared(tk, q));
                }
            }
        }
    }
    proof {
        assert(declared@.take(declared@.len() as int) =~= declared@);
    }
    deleted
}

/// Removes the first-declared row of each class a reverted diff declared,
/// returning the class hashes in diff order.
fn delete_declared_classes_block(
    declared: &Vec<(ClassHash, CompiledClassHash)>,
    table: &mut FlatTable<u64>,
) -> (deleted: Vec<ClassHash>)
    requires
        old(table).wf(),
    ensures
        final(table).wf(),
        forall|q: Felt|
            #[trigger] final(table)@.dom().contains(q) == (old(table)@.dom().contains(q)
                && !has_declared(declared@, q)),
        forall|q: Felt|
            #[trigger] final(table)@.dom().contains(q) ==> final(table)@[q] == old(table)@[q],
        deleted@ == declared@.map_values(|p: (ClassHash, CompiledClassHash)| p.0),
{
    let mut deleted: Vec<ClassHash> = Vec::new();
    let mut i: usize = 0;
    while i < declared.len()
        invariant
            table.wf(),
            i <= declared@.len(),
            deleted@ == declared@.take(i as int).map_values(
                |p: (ClassHash, CompiledClassHash)| p.0,
            ),
            forall|q: Felt|
                #[trigger] table@.dom().contains(q) == (old(table)@.dom().contains(q)
                    && !has_declared(declared@.take(i as int), q)),
            forall|q: Felt|
                #[trigger] table@.dom().contains(q) ==> table@[q] == old(table)@[q],
        decreases declared@.len() - i,
    {
        let class_hash = declared[i].0;
        table.delete(class_hash.0);
        deleted.push(class_hash);
        i = i + 1;
        proof {
            let tk = declared@.take(i as int);
            assert(tk.drop_last() =~= declared@.take(i - 1));
            assert(tk.last() == declared@[i - 1]);
            assert(deleted@ =~= tk.map_values(|p: (ClassHash, CompiledClassHash)| p.0));
            assert forall|q: Felt|
                #[trigger] table@.dom().contains(q) == (old(table)@.dom().contains(q)
                    && !has_declared(tk, q)) by {
                if has_declared(tk, q) {
                    let j = choose|j: int| 0 <= j < tk.len() && (#[trigger] tk[j]).0.0 == q;
                    if j < i - 1 {
                        assert(has_declared(declared@.take(i - 1), q));
                    }
                }
                if has_declared(declared@.take(i - 1), q) {
                    let j = choose|j: int|
                        0 <= j < i - 1 && (#[trigger] declared@.take(i - 1)[j]).0.0 == q;
                    assert(tk[j] == declared@.take(i - 1)[j]);
                    assert(has_declared(tk, q));
                }
                if declared@[i - 1].0.0 == q {
                    assert(tk[i - 1] == declared@[i - 1]);
                    assert(has_declared(tk, q));
                }
            }
        }
    }
    proof {
        assert(declared@.take(declared@.len() as int) =~= declared@);
    }
    deleted
}

/// Removes the first-declared row of each legacy class a reverted diff
/// names that was first declared at that very block: a legacy class declared
/// again in a later block keeps its original row. Returns the class hashes
/// whose rows were removed.
fn delete_deprecated_declared_classes_block(
    deprecated: &Vec<ClassHash>,
    block_number: BlockNumber,
    table: &mut FlatTable<u64>,
) -> (r: Result<Vec<ClassHash>, StorageError>)
    requires
        old(table).wf(),
        forall|a: int, b: int| 0 <= a < b < deprecated@.len() ==> deprecated@[a] != deprecated@[b],
        forall|j: int|
            0 <= j < deprecated@.len() ==> old(table)@.dom().contains(
                (#[trigger] deprecated@[j]).0,
            ) && old(table)@[deprecated@[j].0] <= block_number.0,
    ensures
        r matches Ok(deleted) && {
            &&& final(table).wf()
            &&& forall|q: Felt|
                #[trigger] final(table)@.dom().contains(q) == (old(table)@.dom().contains(q) && !(
                has_deprecated(deprecated@, q) && old(table)@[q] == block_number.0))
            &&& forall|q: Felt|
                #[trigger] final(table)@.dom().contains(q) ==> final(table)@[q] == old(table)@[q]
            &&& forall|idx: int|
                0 <= idx < deleted@.len() ==> has_deprecated(
                    deprecated@,
                    (#[trigger] deleted@[idx]).0,
                ) && old(table)@.dom().contains(deleted@[idx].0) && old(table)@[deleted@[idx].0]
                    == block_number.0
        },
{
    let n: u64 = block_number.0;
    let mut deleted: Vec<ClassHash> = Vec::new();
    let mut i: usize = 0;
    while i < deprecated.len()
        invariant
            table.wf(),
            i <= deprecated@.len(),
            n == block_number.0,
            forall|a: int, b: int|
                0 <= a < b < deprecated@.len() ==> deprecated@[a] != deprecated@[b],
            forall|j: int|
                0 <= j < deprecated@.len() ==> old(table)@.dom().contains(
                    (#[trigger] deprecated@[j]).0,
                ) && old(table)@[deprecated@[j].0] <= n,
            forall|q: Felt|
                #[trigger] table@.dom().contains(q) == (old(table)@.dom().contains(q) && !(
                has_deprecated(deprecated@.take(i as int), q) && old(table)@[q] == n)),
            forall|q: Felt|
                #[trigger] table@.dom().contains(q) ==> table@[q] == old(table)@[q],
            forall|idx: int|
                0 <= idx < deleted@.len() ==> has_deprecated(
                    deprecated@,
                    (#[trigger] deleted@[idx]).0,
                ) && old(table)@.dom().contains(deleted@[idx].0) && old(table)@[deleted@[idx].0]
                    == n,
        decreases deprecated@.len() - i,
    {
        let class_hash = deprecated[i];
        let declared_block = match table.get(class_hash.0) {
            Some(b) => b,
            None => {
                // The class was recorded when its diff was appended and the
                // diff names each class once; a missing row would mean the
                // tables disagree.
                proof {
                    assert(old(table)@.dom().contains(class_hash.0)) by {
                        assert(deprecated@[i as int] == class_hash);
                    }
                    assert(has_deprecated(deprecated@.take(i as int), class_hash.0));
                    let tk = deprecated@.take(i as int);
                    let j = choose|j: int| 0 <= j < tk.len() && (#[trigger] tk[j]).0 == class_hash.0;
                    assert(deprecated@[j] == tk[j]);
                    assert(deprecated@[j].0 == class_hash.0);
                    assert(deprecated@[j] == class_hash);
                    assert(deprecated@[i as int] == class_hash);
                    assert(false);
                }
                return Err(StorageError::DBInconsistency);
            },
        };
        if declared_block > n {
            proof {
                assert(old(table)@[class_hash.0] <= n);
                assert(table@[class_hash.0] == old(table)@[class_hash.0]);
                assert(false);
            }
            return Err(StorageError::DBInconsistency);
        }
        if declared_block == n {
            table.delete(class_hash.0);
            deleted.push(class_hash);
            proof {
                assert(has_deprecated(deprecated@, class_hash.0)) by {
                    assert(deprecated@[i as int] == class_hash);
                }
            }
        }
        i = i + 1;
        proof {
            let tk = deprecated@.take(i as int);
            assert(tk.drop_last() =~= deprecated@.take(i - 1));
            assert(tk.last() == deprecated@[i - 1]);
            assert forall|q: Felt|
                #[trigger] table@.dom().contains(q) == (old(table)@.dom().contains(q) && !(
                has_deprecated(tk, q) && old(table)@[q] == n)) by {
                if has_deprecated(tk, q) {
                    let j = choose|j: int| 0 <= j < tk.len() && (#[trigger] tk[j]).0 == q;
                    if j < i - 1 {
                        assert(has_deprecated(deprecated@.take(i - 1), q));
                    }
                }
                if has_deprecated(deprecated@.take(i - 1), q) {
                    let j = choose|j: int|
                        0 <= j < i - 1 && (#[trigger] deprecated@.take(i - 1)[j]).0 == q;
                    assert(tk[j] == deprecated@.take(i - 1)[j]);
                    assert(has_deprecated(tk, q));
                }
                if deprecated@[i - 1].0 == q {
                    assert(tk[i - 1] == deprecated@[i - 1]);
                    assert(has_deprecated(tk, q));
                }
            }
        }
    }
    proof {
        assert(deprecated@.take(deprecated@.len() as int) =~= deprecated@);
    }
    Ok(deleted)
}

/// True when a reverted diff reaches a legacy class: it declares it, or
/// deploys a contract whose class it is.
pub open spec fn dep_referenced(d: ThinStateDiffView, q: Felt) -> bool {
    has_deprecated(d.deprecated_declared_classes, q) || has_deployed_class(d.deployed_contracts, q)
}

/// True when some deployment in `s` uses this class hash.
pub open spec fn has_deployed_class(s: Seq<(ContractAddress, ClassHash)>, q: Felt) -> bool {
    exists|j: int| 0 <= j < s.len() && (#[trigger] s[j]).1.0 == q
}

/// Removes the stored body of each legacy class the reverted diff reaches —
/// declared by it, or deployed by it — if the body was first declared at
/// that very block. A body from an earlier block remains valid and stays.
fn delete_deprecated_declared_classes(
    diff: &ThinStateDiff,
    block_number: BlockNumber,
    table: &mut FlatTable<IndexedDeprecatedContractClass>,
    file: &BlobFile,
) -> (deleted: Vec<(ClassHash, Vec<u8>)>)
    requires
        old(table).wf(),
        forall|q: Felt|
            #[trigger] old(table)@.dom().contains(q) ==> old(table)@[q].location_in_file.offset < file@.len(),
    ensures
        final(table).wf(),
        forall|q: Felt|
            #[trigger] final(table)@.dom().contains(q) == (old(table)@.dom().contains(q) && !(
            dep_referenced(diff@, q) && old(table)@[q].block_number.0 == block_number.0)),
        forall|q: Felt|
            #[trigger] final(table)@.dom().contains(q) ==> final(table)@[q] == old(table)@[q],
        forall|idx: int|
            0 <= idx < deleted@.len() ==> {
                &&& dep_referenced(diff@, (#[trigger] deleted@[idx]).0.0)
                &&& old(table)@.dom().contains(deleted@[idx].0.0)
                &&& deleted@[idx].1@ == file@[old(table)@[deleted@[idx].0.0].location_in_file.offset as int]
            },
{
    let n: u64 = block_number.0;
    let mut deleted: Vec<(ClassHash, Vec<u8>)> = Vec::new();
    let mut i: usize = 0;
    // First the classes the diff declares.
    while i < diff.deprecated_declared_classes.len()
        invariant
            table.wf(),
            i <= diff@.deprecated_declared_classes.len(),
            n == block_number.0,
            diff@.deprecated_declared_classes == diff.deprecated_declared_classes@,
            forall|q: Felt|
                #[trigger] old(table)@.dom().contains(q) ==> old(table)@[q].location_in_file.offset < file@.len(),
            forall|q: Felt|
                #[trigger] table@.dom().contains(q) == (old(table)@.dom().contains(q) && !(
                has_deprecated(diff@.deprecated_declared_classes.take(i as int), q) && old(table)@[q].block_number.0 == n)),
            forall|q: Felt|
                #[trigger] table@.dom().contains(q) ==> table@[q] == old(table)@[q],
            forall|idx: int|
                0 <= idx < deleted@.len() ==> {
                    &&& dep_referenced(diff@, (#[trigger] deleted@[idx]).0.0)
                    &&& old(table)@.dom().contains(deleted@[idx].0.0)
                    &&& deleted@[idx].1@ == file@[old(table)@[deleted@[idx].0.0].location_in_file.offset as int]
                },
        decreases diff@.deprecated_declared_classes.len() - i,
    {
        let class_hash = diff.deprecated_declared_classes[i];
        match table.get(class_hash.0) {
            Some(value) => {
                if value.block_number.0 == n {
                    let body = file.get_unchecked(value.location_in_file);
                    deleted.push((class_hash, body));
                    table.delete(class_hash.0);
                    proof {
                        assert(has_deprecated(diff@.deprecated_declared_classes, class_hash.0))
                            by {
                            assert(diff@.deprecated_declared_classes[i as int] == class_hash);
                        }
                    }
                }
            },
            None => {},
        }
        i = i + 1;
        proof {
            let dl = diff@.deprecated_declared_classes;
            let tk = dl.take(i as int);
            assert(tk.drop_last() =~= dl.take(i - 1));
            assert(tk.last() == dl[i - 1]);
            assert forall|q: Felt|
                #[trigger] table@.dom().contains(q) == (old(table)@.dom().contains(q) && !(
                has_deprecated(tk, q) && old(table)@[q].block_number.0 == n)) by {
                if has_deprecated(tk, q) {
                    let j = choose|j: int| 0 <= j < tk.len() && (#[trigger] tk[j]).0 == q;
                    if j < i - 1 {
                        assert(has_deprecated(dl.take(i - 1), q));
                    }
                }
                if has_deprecated(dl.take(i - 1), q) {
                    let j = choose|j: int| 0 <= j < i - 1 && (#[trigger] dl.take(i - 1)[j]).0 == q;
                    assert(tk[j] == dl.take(i - 1)[j]);
                    assert(has_deprecated(tk, q));
                }
                if dl[i - 1].0 == q {
                    assert(tk[i - 1] == dl[i - 1]);
                    assert(has_deprecated(tk, q));
                }
            }
        }
    }
    let ghost mid = table@;
    proof {
        assert(diff@.deprecated_declared_classes.take(
            diff@.deprecated_declared_classes.len() as int,
        ) =~= diff@.deprecated_declared_classes);
    }
    // Then the classes of the diff's deployments: a deployment can reach a
    // legacy class declared elsewhere.
    let mut i2: usize = 0;
    while i2 < diff.deployed_contracts.len()
        invariant
            table.wf(),
            i2 <= diff@.deployed_contracts.len(),
            n == block_number.0,
            diff@.deployed_contracts == diff.deployed_contracts@,
            forall|q: Felt|
                #[trigger] old(table)@.dom().contains(q) ==> old(table)@[q].location_in_file.offset < file@.len(),
            forall|q: Felt|
                #[trigger] mid.dom().contains(q) == (old(table)@.dom().contains(q) && !(
                has_deprecated(diff@.deprecated_declared_classes, q) && old(table)@[q].block_number.0 == n)),
            forall|q: Felt| #[trigger] mid.dom().contains(q) ==> mid[q] == old(table)@[q],
            forall|q: Felt|
                #[trigger] table@.dom().contains(q) == (mid.dom().contains(q) && !(
                has_deployed_class(diff@.deployed_contracts.take(i2 as int), q) && old(table)@[q].block_number.0 == n)),
            forall|q: Felt|
                #[trigger] table@.dom().contains(q) ==> table@[q] == old(table)@[q],
            forall|idx: int|
                0 <= idx < deleted@.len() ==> {
                    &&& dep_referenced(diff@, (#[trigger] deleted@[idx]).0.0)
                    &&& old(table)@.dom().contains(deleted@[idx].0.0)
                    &&& deleted@[idx].1@ == file@[old(table)@[deleted@[idx].0.0].location_in_file.offset as int]
                },
        decreases diff@.deployed_contracts.len() - i2,
    {
        let class_hash = diff.deployed_contracts[i2].1;
        match table.get(class_hash.0) {
            Some(value) => {
                if value.block_number.0 == n {
                    let body = file.get_unchecked(value.location_in_file);
                    deleted.push((class_hash, body));
                    table.delete(class_hash.0);
                    proof {
                        assert(has_deployed_class(diff@.deployed_contracts, class_hash.0)) by {
                            assert(diff@.deployed_contracts[i2 as int].1 == class_hash);
                        }
                    }
                }
            },
            None => {},
        }
        i2 = i2 + 1;
        proof {
            let dl = diff@.deployed_contracts;
            let tk = dl.take(i2 as int);
            assert(tk.drop_last() =~= dl.take(i2 - 1));
            assert(tk.last() == dl[i2 - 1]);
            assert forall|q: Felt|
                #[trigger] table@.dom().contains(q) == (mid.dom().contains(q) && !(
                has_deployed_class(tk, q) && old(table)@[q].block_number.0 == n)) by {
                if has_deployed_class(tk, q) {
                    let j = choose|j: int| 0 <= j < tk.len() && (#[trigger] tk[j]).1.0 == q;
                    if j < i2 - 1 {
                        assert(has_deployed_class(dl.take(i2 - 1), q));
                    }
                }
                if has_deployed_class(dl.take(i2 - 1), q) {
                    let j = choose|j: int|
                        0 <= j < i2 - 1 && (#[trigger] dl.take(i2 - 1)[j]).1.0 == q;
                    assert(tk[j] == dl.take(i2 - 1)[j]);
                    assert(has_deployed_class(tk, q));
                }
                if dl[i2 - 1].1.0 == q {
                    assert(tk[i2 - 1] == dl[i2 - 1]);
                    assert(has_deployed_class(tk, q));
                }
            }
        }
    }
    proof {
        assert(diff@.deployed_contracts.take(diff@.deployed_contracts.len() as int)
            =~= diff@.deployed_contracts);
        assert forall|q: Felt|
            #[trigger] table@.dom().contains(q) == (old(table)@.dom().contains(q) && !(
            dep_referenced(diff@, q) && old(table)@[q].block_number.0 == n)) by {}
    }
    deleted
}

// ---------------------------------------------------------------------------
// Reverting the most recently appended block.
// ---------------------------------------------------------------------------
/// What a revert returns: the reverted diff, and every class index row and
/// stored body removed with it, for the caller's own bookkeeping.
pub struct RevertedStateDiff {
    /// The diff that had been appended at the reverted block.
    pub thin_state_diff: ThinStateDiff,
    /// The classes whose first-declared rows were removed.
    pub declared_class_hashes: Vec<ClassHash>,
    /// The removed class bodies, serialized.
    pub declared_classes: Vec<(ClassHash, Vec<u8>)>,
    /// The legacy classes whose first-declared rows were removed.
    pub deprecated_declared_class_hashes: Vec<ClassHash>,
    /// The removed legacy class bodies, serialized.
    pub deprecated_declared_classes: Vec<(ClassHash, Vec<u8>)>,
    /// The removed compiled class bodies, serialized.
    pub compiled_classes: Vec<(ClassHash, Vec<u8>)>,
}

/// Everything reverting the diff `d` appended at block `bn` does to the
/// storage: the logical inverse of [`append_effects`].
pub open spec fn revert_effects(
    pre: StateStorage,
    post: StateStorage,
    bn: BlockNumber,
    d: ThinStateDiffView,
) -> bool {
    let n = bn.0;
    // Markers roll back: the state marker to the reverted block, and any
    // class-kind marker that sat exactly one past it.
    &&& post.state_marker == n
    &&& post.class_marker == if pre.class_marker == n + 1 {
        n
    } else {
        pre.class_marker
    }
    &&& post.compiled_class_marker == if pre.compiled_class_marker == n + 1 {
        n
    } else {
        pre.compiled_class_marker
    }
    // The block leaves the history; blob files keep their bytes, only the
    // location rows go.
    &&& post.history() == pre.history().drop_last()
    &&& post.state_diffs@ == pre.state_diffs@.drop_last()
    &&& post.state_diff_file == pre.state_diff_file
    &&& post.sierra_file == pre.sierra_file
    &&& post.deprecated_file == pre.deprecated_file
    &&& post.casm_file == pre.casm_file
    // Versioned rows written at the block are removed, nothing else moves.
    &&& forall|k: (Entity, u64)|
        #[trigger] post.deployed_contracts@.dom().contains(k) == (
        pre.deployed_contracts@.dom().contains(k) && !(k.1 == n && has_deployed(
            d.deployed_contracts,
            k.0,
        )))
    &&& forall|k: (Entity, u64)|
        #[trigger] post.deployed_contracts@.dom().contains(k) ==> post.deployed_contracts@[k]
            == pre.deployed_contracts@[k]
    &&& forall|k: (Entity, u64)|
        #[trigger] post.contract_storage@.dom().contains(k) == (
        pre.contract_storage@.dom().contains(k) && !(k.1 == n && has_storage(d.storage_diffs, k.0)))
    &&& forall|k: (Entity, u64)|
        #[trigger] post.contract_storage@.dom().contains(k) ==> post.contract_storage@[k]
            == pre.contract_storage@[k]
    &&& forall|k: (Entity, u64)|
        #[trigger] post.nonces@.dom().contains(k) == (pre.nonces@.dom().contains(k) && !(k.1 == n
            && (has_nonce(d.nonces, k.0) || implicit_nonce(
            d.deployed_contracts,
            pre.nonces@,
            k.0,
            n,
        ))))
    &&& forall|k: (Entity, u64)|
        #[trigger] post.nonces@.dom().contains(k) ==> post.nonces@[k] == pre.nonces@[k]
    &&& forall|k: (Entity, u64)|
        #[trigger] post.compiled_class_hashes@.dom().contains(k) == (
        pre.compiled_class_hashes@.dom().contains(k) && !(k.1 == n && has_compiled(
            d.declared_classes,
            k.0,
        )))
    &&& forall|k: (Entity, u64)|
        #[trigger] post.compiled_class_hashes@.dom().contains(k) ==> post.compiled_class_hashes@[k]
            == pre.compiled_class_hashes@[k]
    // Class index rows and bodies of the block's declarations are removed.
    &&& forall|q: Felt|
        #[trigger] post.declared_classes_block@.dom().contains(q) == (
        pre.declared_classes_block@.dom().contains(q) && !has_declared(d.declared_classes, q))
    &&& forall|q: Felt|
        #[trigger] post.declared_classes_block@.dom().contains(q)
            ==> post.declared_classes_block@[q] == pre.declared_classes_block@[q]
    &&& forall|q: Felt|
        #[trigger] post.declared_classes@.dom().contains(q) == (
        pre.declared_classes@.dom().contains(q) && !has_declared(d.declared_classes, q))
    &&& forall|q: Felt|
        #[trigger] post.declared_classes@.dom().contains(q) ==> post.declared_classes@[q]
            == pre.declared_classes@[q]
    &&& forall|q: Felt|
        #[trigger] post.casms@.dom().contains(q) == (pre.casms@.dom().contains(q) && !has_declared(
            d.declared_classes,
            q,
        ))
    &&& forall|q: Felt|
        #[trigger] post.casms@.dom().contains(q) ==> post.casms@[q] == pre.casms@[q]
    // Legacy rows and bodies go only if this block was their first
    // declaration.
    &&& forall|q: Felt|
        #[trigger] post.deprecated_declared_classes_block@.dom().contains(q) == (
        pre.deprecated_declared_classes_block@.dom().contains(q) && !(has_deprecated(
            d.deprecated_declared_classes,
            q,
        ) && pre.deprecated_declared_classes_block@[q] == n))
    &&& forall|q: Felt|
        #[trigger] post.deprecated_declared_classes_block@.dom().contains(q)
            ==> post.deprecated_declared_classes_block@[q]
            == pre.deprecated_declared_classes_block@[q]
    &&& forall|q: Felt|
        #[trigger] post.deprecated_declared_classes@.dom().contains(q) == (
        pre.deprecated_declared_classes@.dom().contains(q) && !(dep_referenced(d, q)
            && pre.deprecated_declared_classes@[q].block_number.0 == n))
    &&& forall|q: Felt|
        #[trigger] post.deprecated_declared_classes@.dom().contains(q)
            ==> post.deprecated_declared_classes@[q] == pre.deprecated_declared_classes@[q]
}

impl StateStorage {
    /// Reverts the most recently appended block and returns what it held.
    ///
    /// Only the block right below the state marker can be reverted; for any
    /// other block this is a deliberate no-op returning `None`, not an
    /// error. On a revert, every table row the block's diff wrote is
    /// removed, the markers roll back, and the diff is returned together
    /// with every class index row and body deleted with it — appending the
    /// returned diff again reproduces the stored state exactly.
    #[verifier::rlimit(100)]
    pub fn revert_state_diff(&mut self, block_number: BlockNumber) -> (r: Result<
        Option<RevertedStateDiff>,
        StorageError,
    >)
        requires
            old(self).wf(),
        ensures
            block_number.0 + 1 != old(self).state_marker ==> (r matches Ok(o) && o is None
                && *final(self) == *old(self)),
            block_number.0 + 1 == old(self).state_marker ==> (r matches Ok(o) && o matches Some(
                data,
            ) && {
                &&& data.thin_state_diff@ == old(self).history().last()
                &&& revert_effects(
                    *old(self),
                    *final(self),
                    block_number,
                    old(self).history().last(),
                )
                &&& final(self).wf()
                &&& data.declared_class_hashes@ == old(self).history().last().declared_classes.map_values(
                    |p: (ClassHash, CompiledClassHash)| p.0,
                )
                &&& forall|idx: int|
                    0 <= idx < data.declared_classes@.len() ==> {
                        &&& has_declared(
                            old(self).history().last().declared_classes,
                            (#[trigger] data.declared_classes@[idx]).0.0,
                        )
                        &&& old(self).declared_classes@.dom().contains(
                            data.declared_classes@[idx].0.0,
                        )
                        &&& data.declared_classes@[idx].1@ == old(self).sierra_file@[old(
                            self,
                        ).declared_classes@[data.declared_classes@[idx].0.0].offset as int]
                    }
                &&& forall|idx: int|
                    0 <= idx < data.deprecated_declared_classes@.len() ==> {
                        &&& dep_referenced(
                            old(self).history().last(),
                            (#[trigger] data.deprecated_declared_classes@[idx]).0.0,
                        )
                        &&& old(self).deprecated_declared_classes@.dom().contains(
                            data.deprecated_declared_classes@[idx].0.0,
                        )
                        &&& data.deprecated_declared_classes@[idx].1@ == old(
                            self,
                        ).deprecated_file@[old(self).deprecated_declared_classes@[
                            data.deprecated_declared_classes@[idx].0.0
                        ].location_in_file.offset as int]
                    }
                &&& forall|idx: int|
                    0 <= idx < data.compiled_classes@.len() ==> {
                        &&& has_declared(
                            old(self).history().last().declared_classes,
                            (#[trigger] data.compiled_classes@[idx]).0.0,
                        )
                        &&& old(self).casms@.dom().contains(data.compiled_classes@[idx].0.0)
                        &&& data.compiled_classes@[idx].1@ == old(self).casm_file@[old(
                            self,
                        ).casms@[data.compiled_classes@[idx].0.0].offset as int]
                    }
            }),
    {
        // Reverts only the last state diff; anything else is a no-op.
        if block_number.0 >= u64::MAX || block_number.0 + 1 != self.state_marker {
            return Ok(None);
        }
        let n: u64 = block_number.0;
        let ghost pre = *self;
        let ghost d = self.history().last();
        let thin_state_diff = match self.get_state_diff(block_number) {
            Some(diff) => diff,
            None => {
                proof {
                    assert(false);
                }
                return Err(StorageError::DBInconsistency);
            },
        };
        proof {
            assert(thin_state_diff@ == d);
            assert(d.wf());
        }
        // Roll the markers back.
        self.state_marker = n;
        if self.class_marker == n + 1 {
            self.class_marker = n;
        }
        if self.compiled_class_marker == n + 1 {
            self.compiled_class_marker = n;
        }
        // Remove the class declarations of the block.
        let declared_class_hashes = delete_declared_classes_block(
            &thin_state_diff.declared_classes,
            &mut self.declared_classes_block,
        );
        let declared_classes = delete_declared_classes(
            &thin_state_diff.declared_classes,
            &mut self.declared_classes,
            &self.sierra_file,
        );
        let deprecated_declared_class_hashes = match delete_deprecated_declared_classes_block(
            &thin_state_diff.deprecated_declared_classes,
            block_number,
            &mut self.deprecated_declared_classes_block,
        ) {
            Ok(v) => v,
            Err(e) => {
                proof {
                    assert(false);
                }
                return Err(e);
            },
        };
        let deprecated_declared_classes = delete_deprecated_declared_classes(
            &thin_state_diff,
            block_number,
            &mut self.deprecated_declared_classes,
            &self.deprecated_file,
        );
        let compiled_classes = delete_compiled_classes(
            &thin_state_diff.declared_classes,
            &mut self.casms,
            &self.casm_file,
        );
        // Undo the versioned rows written at the block.
        delete_deployed_contracts(
            &thin_state_diff.deployed_contracts,
            block_number,
            &mut self.deployed_contracts,
            &mut self.nonces,
        );
        delete_storage_diffs(
            &thin_state_diff.storage_diffs,
            block_number,
            &mut self.contract_storage,
        );
        let ghost nonces_mid = self.nonces@;
        delete_nonces(&thin_state_diff.nonces, block_number, &mut self.nonces);
        delete_compiled_class_hashes(
            &thin_state_diff.declared_classes,
            block_number,
            &mut self.compiled_class_hashes,
        );
        // Drop the diff's location row; the blob bytes stay in the file.
        self.state_diffs.pop();
        self.diffs = Ghost(self.diffs@.drop_last());
        proof {
            assert(self.state_diffs@ =~= pre.state_diffs@.drop_last());
            // The nonce removals compose: the implicit rows went with the
            // deployments, the explicit ones with the nonce updates.
            assert forall|k: (Entity, u64)|
                #[trigger] self.nonces@.dom().contains(k) == (pre.nonces@.dom().contains(k) && !(
                k.1 == n && (has_nonce(d.nonces, k.0) || implicit_nonce(
                    d.deployed_contracts,
                    pre.nonces@,
                    k.0,
                    n,
                )))) by {
                assert(nonces_mid.dom().contains(k) == (pre.nonces@.dom().contains(k) && !(k.1 == n
                    && implicit_nonce(d.deployed_contracts, pre.nonces@, k.0, n))));
                assert(self.nonces@.dom().contains(k) == (nonces_mid.dom().contains(k) && !(k.1
                    == n && has_nonce(d.nonces, k.0))));
            }
            assert(revert_effects(pre, *self, block_number, d));
            assert(final(self).wf()) by {
                assert forall|k: (Entity, u64)|
                    #[trigger] self.deployed_contracts@.dom().contains(k) implies k.1 < n
                    && has_deployed(self.history()[k.1 as int].deployed_contracts, k.0) by {
                    assert(pre.deployed_contracts@.dom().contains(k));
                    if k.1 == n {
                        assert(has_deployed(pre.history()[n as int].deployed_contracts, k.0));
                        assert(pre.history()[n as int] == d);
                        assert(false);
                    }
                    assert(self.history()[k.1 as int] == pre.history()[k.1 as int]);
                }
                assert forall|k: (Entity, u64)|
                    #[trigger] self.contract_storage@.dom().contains(k) implies k.1 < n
                    && has_storage(self.history()[k.1 as int].storage_diffs, k.0) by {
                    assert(pre.contract_storage@.dom().contains(k));
                    if k.1 == n {
                        assert(has_storage(pre.history()[n as int].storage_diffs, k.0));
                        assert(pre.history()[n as int] == d);
                        assert(false);
                    }
                    assert(self.history()[k.1 as int] == pre.history()[k.1 as int]);
                }
                assert forall|k: (Entity, u64)|
                    #[trigger] self.compiled_class_hashes@.dom().contains(k) implies k.1 < n
                    && has_compiled(self.history()[k.1 as int].declared_classes, k.0) by {
                    assert(pre.compiled_class_hashes@.dom().contains(k));
                    if k.1 == n {
                        assert(has_compiled(pre.history()[n as int].declared_classes, k.0));
                        assert(pre.history()[n as int] == d);
                        assert(false);
                    }
                    assert(self.history()[k.1 as int] == pre.history()[k.1 as int]);
                }
                assert forall|k: (Entity, u64)|
                    #[trigger] self.nonces@.dom().contains(k) implies k.1 < n && (has_nonce(
                    self.history()[k.1 as int].nonces,
                    k.0,
                ) || (has_deployed(self.history()[k.1 as int].deployed_contracts, k.0)
                    && pred_block(self.nonces@, k.0, k.1 as nat) is None)) by {
                    assert(pre.nonces@.dom().contains(k));
                    if k.1 == n {
                        assert(has_nonce(pre.history()[n as int].nonces, k.0) || (has_deployed(
                            pre.history()[n as int].deployed_contracts,
                            k.0,
                        ) && pred_block(pre.nonces@, k.0, n as nat) is None));
                        assert(pre.history()[n as int] == d);
                        assert(false);
                    }
                    assert(self.history()[k.1 as int] == pre.history()[k.1 as int]);
                    lemma_pred_frame(self.nonces@, pre.nonces@, k.0, k.1 as nat);
                }
                assert forall|q: Felt|
                    #[trigger] self.declared_classes_block@.dom().contains(q) implies
                    self.declared_classes_block@[q] < n && has_declared(
                    self.history()[self.declared_classes_block@[q] as int].declared_classes,
                    q,
                ) by {
                    assert(pre.declared_classes_block@.dom().contains(q));
                    assert(self.declared_classes_block@[q] == pre.declared_classes_block@[q]);
                    if pre.declared_classes_block@[q] == n {
                        assert(has_declared(pre.history()[n as int].declared_classes, q));
                        assert(pre.history()[n as int] == d);
                        assert(false);
                    }
                }
                assert forall|q: Felt|
                    #[trigger] self.deprecated_declared_classes_block@.dom().contains(q) implies
                    self.deprecated_declared_classes_block@[q] < n && has_deprecated(
                    self.history()[self.deprecated_declared_classes_block@[q] as int].deprecated_declared_classes,
                    q,
                ) by {
                    assert(pre.deprecated_declared_classes_block@.dom().contains(q));
                    assert(self.deprecated_declared_classes_block@[q]
                        == pre.deprecated_declared_classes_block@[q]);
                    if pre.deprecated_declared_classes_block@[q] == n {
                        assert(has_deprecated(
                            pre.history()[n as int].deprecated_declared_classes,
                            q,
                        ));
                        assert(pre.history()[n as int] == d);
                        assert(false);
                    }
                }
                assert forall|b: int, jj: int|
                    0 <= b < self.state_marker && 0 <= jj < self.history()[
                        b
                    ].deprecated_declared_classes.len() implies self.deprecated_declared_classes_block@.dom().contains(
                    (#[trigger] self.history()[b].deprecated_declared_classes[jj]).0,
                ) && self.deprecated_declared_classes_block@[self.history()[b].deprecated_declared_classes[jj].0]
                    <= b by {
                    assert(self.history()[b] == pre.history()[b]);
                    let q = pre.history()[b].deprecated_declared_classes[jj].0;
                    assert(pre.deprecated_declared_classes_block@.dom().contains(q));
                    assert(pre.deprecated_declared_classes_block@[q] <= b);
                }
                assert forall|q: Felt|
                    #[trigger] self.deprecated_declared_classes@.dom().contains(q) implies {
                    &&& self.deprecated_declared_classes_block@.dom().contains(q)
                    &&& self.deprecated_declared_classes@[q].block_number.0
                        == self.deprecated_declared_classes_block@[q]
                    &&& self.deprecated_declared_classes@[q].block_number.0 < self.class_marker
                    &&& self.deprecated_declared_classes@[q].location_in_file.offset
                        < self.deprecated_file@.len()
                } by {
                    assert(pre.deprecated_declared_classes@.dom().contains(q));
                    assert(self.deprecated_declared_classes@[q]
                        == pre.deprecated_declared_classes@[q]);
                    let bv = pre.deprecated_declared_classes@[q].block_number.0;
                    assert(pre.deprecated_declared_classes_block@.dom().contains(q));
                    assert(bv == pre.deprecated_declared_classes_block@[q]);
                    if bv == n {
                        assert(has_deprecated(
                            pre.history()[n as int].deprecated_declared_classes,
                            q,
                        ));
                        assert(pre.history()[n as int] == d);
                        assert(dep_referenced(d, q));
                        assert(false);
                    }
                    assert(self.deprecated_declared_classes_block@.dom().contains(q));
                }
            }
        }
        Ok(
            Some(
                RevertedStateDiff {
                    thin_state_diff,
                    declared_class_hashes,
                    declared_classes,
                    deprecated_declared_class_hashes,
                    deprecated_declared_classes,
                    compiled_classes,
                },
            ),
        )
    }
}

// ---------------------------------------------------------------------------
// Storing class bodies.
// ---------------------------------------------------------------------------
impl StateStorage {
    /// Stores the serialized bodies of the classes declared at a block and
    /// advances the class marker past it.
    ///
    /// The block must be exactly the one the class marker owes, and must
    /// already have its state diff appended. Each current-format class must
    /// be declared and not yet have a body. A legacy body is stored only
    /// when none exists and this block is the class's first declaration: a
    /// legacy class may be declared again later, and only the first body
    /// counts.
    pub fn append_classes(
        &mut self,
        block_number: BlockNumber,
        classes: &Vec<(ClassHash, Vec<u8>)>,
        deprecated_classes: &Vec<(ClassHash, Vec<u8>)>,
    ) -> (r: Result<(), StorageError>)
        requires
            old(self).wf(),
            forall|j: int|
                0 <= j < classes@.len() ==> old(self).declared_classes_block@.dom().contains(
                    (#[trigger] classes@[j]).0.0,
                ),
            forall|a: int, b: int|
                0 <= a < b < classes@.len() ==> (#[trigger] classes@[a]).0 != (
                #[trigger] classes@[b]).0,
        ensures
            (block_number.0 != old(self).class_marker || block_number.0 >= old(self).state_marker) ==> (r is Err && *final(self) == *old(self)),
            (block_number.0 == old(self).class_marker && block_number.0 < old(self).state_marker
                && (exists|j: int|
                0 <= j < classes@.len() && old(self).declared_classes@.dom().contains(
                    (#[trigger] classes@[j]).0.0,
                ))) ==> (r == Err::<(), StorageError>(StorageError::KeyAlreadyExists) && *final(self) == *old(self)),
            r is Ok ==> {
                &&& block_number.0 == old(self).class_marker < old(self).state_marker
                &&& final(self).class_marker == block_number.0 + 1
                &&& final(self).state_marker == old(self).state_marker
                &&& final(self).compiled_class_marker == old(self).compiled_class_marker
                &&& final(self).history() == old(self).history()
                &&& final(self).deployed_contracts == old(self).deployed_contracts
                &&& final(self).contract_storage == old(self).contract_storage
                &&& final(self).nonces == old(self).nonces
                &&& final(self).compiled_class_hashes == old(self).compiled_class_hashes
                &&& final(self).declared_classes_block == old(self).declared_classes_block
                &&& final(self).deprecated_declared_classes_block == old(self).deprecated_declared_classes_block
                &&& final(self).casms == old(self).casms
                &&& final(self).state_diffs == old(self).state_diffs
                &&& final(self).state_diff_file == old(self).state_diff_file
                &&& final(self).casm_file == old(self).casm_file
                &&& forall|j: int|
                    0 <= j < classes@.len() ==> final(self).declared_classes@.dom().contains(
                        (#[trigger] classes@[j]).0.0,
                    )
                &&& forall|j: int|
                    0 <= j < classes@.len() ==> final(self).sierra_file@[final(self).declared_classes@[(#[trigger] classes@[j]).0.0].offset as int] == classes@[
                        j
                    ].1@
                &&& forall|q: Felt|
                    #[trigger] old(self).declared_classes@.dom().contains(q) ==> final(self).declared_classes@.dom().contains(q) && final(self).declared_classes@[q]
                        == old(self).declared_classes@[q]
            },
            r is Ok ==> final(self).wf(),
            (block_number.0 == old(self).class_marker && block_number.0 < old(self).state_marker
                && !(exists|j: int|
                0 <= j < classes@.len() && old(self).declared_classes@.dom().contains(
                    (#[trigger] classes@[j]).0.0,
                ))) ==> r is Ok,
    {
        // The class marker is the precondition, and classes can only be
        // stored for blocks whose state diff exists.
        if block_number.0 != self.class_marker {
            return Err(
                StorageError::MarkerMismatch {
                    expected: BlockNumber(self.class_marker),
                    found: block_number,
                },
            );
        }
        if block_number.0 >= self.state_marker {
            return Err(StorageError::DBInconsistency);
        }
        // A class body is stored once.
        let mut j: usize = 0;
        while j < classes.len()
            invariant
                *self == *old(self),
                self.wf(),
                block_number.0 == old(self).class_marker,
                block_number.0 < old(self).state_marker,
                j <= classes@.len(),
                forall|q: int|
                    0 <= q < j ==> !self.declared_classes@.dom().contains(
                        (#[trigger] classes@[q]).0.0,
                    ),
            decreases classes@.len() - j,
        {
            let class_hash = classes[j].0;
            match self.declared_classes.get(class_hash.0) {
                Some(_) => {
                    proof {
                        assert(old(self).declared_classes@.dom().contains(
                            classes@[j as int].0.0,
                        ));
                    }
                    return Err(StorageError::KeyAlreadyExists);
                },
                None => {},
            }
            j = j + 1;
        }
        let ghost pre = *self;
        let mut i: usize = 0;
        while i < classes.len()
            invariant
                self.declared_classes.wf(),
                i <= classes@.len(),
                pre.wf(),
                forall|q: int|
                    0 <= q < classes@.len() ==> !pre.declared_classes@.dom().contains(
                        (#[trigger] classes@[q]).0.0,
                    ),
                forall|a: int, b: int|
                    0 <= a < b < classes@.len() ==> (#[trigger] classes@[a]).0 != (
                    #[trigger] classes@[b]).0,
                forall|q: int|
                    0 <= q < classes@.len() ==> pre.declared_classes_block@.dom().contains(
                        (#[trigger] classes@[q]).0.0,
                    ),
                self.declared_classes_block == pre.declared_classes_block,
                self.state_marker == pre.state_marker,
                self.class_marker == pre.class_marker,
                self.compiled_class_marker == pre.compiled_class_marker,
                self.diffs == pre.diffs,
                self.deployed_contracts == pre.deployed_contracts,
                self.contract_storage == pre.contract_storage,
                self.nonces == pre.nonces,
                self.compiled_class_hashes == pre.compiled_class_hashes,
                self.deprecated_declared_classes_block == pre.deprecated_declared_classes_block,
                self.deprecated_declared_classes == pre.deprecated_declared_classes,
                self.casms == pre.casms,
                self.state_diffs == pre.state_diffs,
                self.state_diff_file == pre.state_diff_file,
                self.deprecated_file == pre.deprecated_file,
                self.casm_file == pre.casm_file,
                forall|b: int|
                    0 <= b < pre.sierra_file@.len() ==> self.sierra_file@[b] == pre.sierra_file@[b],
                pre.sierra_file@.len() <= self.sierra_file@.len(),
                forall|q: Felt|
                    #[trigger] self.declared_classes@.dom().contains(q)
                        ==> self.declared_classes@[q].offset < self.sierra_file@.len(),
                forall|q: Felt|
                    #[trigger] self.declared_classes@.dom().contains(q) == (
                    pre.declared_classes@.dom().contains(q) || exists|jj: int|
                        0 <= jj < i && (#[trigger] classes@[jj]).0.0 == q),
                forall|q: Felt|
                    #[trigger] pre.declared_classes@.dom().contains(q)
                        ==> self.declared_classes@[q] == pre.declared_classes@[q],
                forall|jj: int|
                    0 <= jj < i ==> self.declared_classes@.dom().contains(
                        (#[trigger] classes@[jj]).0.0,
                    ) && self.sierra_file@[self.declared_classes@[classes@[jj].0.0].offset as int]
                        == classes@[jj].1@,
            decreases classes@.len() - i,
        {
            let (class_hash, body) = &classes[i];
            let mut owned: Vec<u8> = Vec::new();
            let mut b: usize = 0;
            while b < body.len()
                invariant
                    b <= body@.len(),
                    body@ == classes@[i as int].1@,
                    owned@ == body@.subrange(0, b as int),
                decreases body@.len() - b,
            {
                owned.push(body[b]);
                b = b + 1;
                assert(owned@ =~= body@.subrange(0, b as int));
            }
            assert(owned@ =~= body@);
            let location = self.sierra_file.append(owned);
            self.declared_classes.upsert(class_hash.0, location);
            proof {
                assert forall|q: Felt|
                    #[trigger] self.declared_classes@.dom().contains(q) == (
                    pre.declared_classes@.dom().contains(q) || exists|jj: int|
                        0 <= jj < i + 1 && (#[trigger] classes@[jj]).0.0 == q) by {
                    if self.declared_classes@.dom().contains(q) {
                    }
                    if exists|jj: int| 0 <= jj < i + 1 && (#[trigger] classes@[jj]).0.0 == q {
                        let jj = choose|jj: int|
                            0 <= jj < i + 1 && (#[trigger] classes@[jj]).0.0 == q;
                        if jj == i {
                            assert(q == classes@[i as int].0.0);
                        }
                    }
                }
                assert forall|jj: int|
                    0 <= jj < i + 1 implies self.declared_classes@.dom().contains(
                    (#[trigger] classes@[jj]).0.0,
                ) && self.sierra_file@[self.declared_classes@[classes@[jj].0.0].offset as int]
                    == classes@[jj].1@ by {
                    if jj < i {
                        assert(classes@[jj].0 != classes@[i as int].0);
                        assert(classes@[jj].0.0 != classes@[i as int].0.0 || classes@[jj].0
                            == classes@[i as int].0);
                    }
                }
            }
            i = i + 1;
        }
        // Legacy bodies: only a first declaration at this block stores one.
        let mut k: usize = 0;
        let ghost mid = *self;
        while k < deprecated_classes.len()
            invariant
                self.deprecated_declared_classes.wf(),
                k <= deprecated_classes@.len(),
                mid.deprecated_declared_classes_block.wf(),
                self.state_marker == mid.state_marker,
                self.class_marker == mid.class_marker,
                self.compiled_class_marker == mid.compiled_class_marker,
                self.diffs == mid.diffs,
                self.deployed_contracts == mid.deployed_contracts,
                self.contract_storage == mid.contract_storage,
                self.nonces == mid.nonces,
                self.compiled_class_hashes == mid.compiled_class_hashes,
                self.declared_classes_block == mid.declared_classes_block,
                self.deprecated_declared_classes_block == mid.deprecated_declared_classes_block,
                self.declared_classes == mid.declared_classes,
                self.casms == mid.casms,
                self.state_diffs == mid.state_diffs,
                self.state_diff_file == mid.state_diff_file,
                self.sierra_file == mid.sierra_file,
                self.casm_file == mid.casm_file,
                block_number.0 == mid.class_marker,
                forall|b: int|
                    0 <= b < mid.deprecated_file@.len() ==> self.deprecated_file@[b]
                        == mid.deprecated_file@[b],
                mid.deprecated_file@.len() <= self.deprecated_file@.len(),
                forall|q: Felt|
                    #[trigger] self.deprecated_declared_classes@.dom().contains(q) ==> {
                        &&& self.deprecated_declared_classes_block@.dom().contains(q)
                        &&& self.deprecated_declared_classes@[q].block_number.0
                            == self.deprecated_declared_classes_block@[q]
                        &&& self.deprecated_declared_classes@[q].block_number.0 < block_number.0
                            + 1
                        &&& self.deprecated_declared_classes@[q].location_in_file.offset
                            < self.deprecated_file@.len()
                    },
                forall|q: Felt|
                    #[trigger] mid.deprecated_declared_classes@.dom().contains(q)
                        ==> self.deprecated_declared_classes@.dom().contains(q)
                        && self.deprecated_declared_classes@[q]
                        == mid.deprecated_declared_classes@[q],
                forall|q: Felt|
                    #[trigger] self.deprecated_declared_classes@.dom().contains(q)
                        ==> mid.deprecated_declared_classes@.dom().contains(q)
                        || self.deprecated_declared_classes_block@[q] == block_number.0,
            decreases deprecated_classes@.len() - k,
        {
            let (class_hash, body) = &deprecated_classes[k];
            let already = match self.deprecated_declared_classes.get(class_hash.0) {
                Some(_) => true,
                None => false,
            };
            let first_block_matches = match self.deprecated_declared_classes_block.get(
                class_hash.0,
            ) {
                Some(b) => b == block_number.0,
                None => false,
            };
            if !already && first_block_matches {
                let mut owned: Vec<u8> = Vec::new();
                let mut b: usize = 0;
                while b < body.len()
                    invariant
                        b <= body@.len(),
                        body@ == deprecated_classes@[k as int].1@,
                        owned@ == body@.subrange(0, b as int),
                    decreases body@.len() - b,
                {
                    owned.push(body[b]);
                    b = b + 1;
                    assert(owned@ =~= body@.subrange(0, b as int));
                }
                let location = self.deprecated_file.append(owned);
                self.deprecated_declared_classes.upsert(
                    class_hash.0,
                    IndexedDeprecatedContractClass {
                        block_number,
                        location_in_file: location,
                    },
                );
            }
            k = k + 1;
        }
        self.class_marker = block_number.0 + 1;
        proof {
            assert(final(self).wf()) by {
                assert forall|q: Felt|
                    #[trigger] self.declared_classes@.dom().contains(q) implies
                    self.declared_classes_block@.dom().contains(q) && self.declared_classes@[
                    q
                ].offset < self.sierra_file@.len() by {
                    if !pre.declared_classes@.dom().contains(q) {
                        let jj = choose|jj: int|
                            0 <= jj < classes@.len() && (#[trigger] classes@[jj]).0.0 == q;
                        assert(pre.declared_classes_block@.dom().contains(q));
                    }
                }
            }
        }
        Ok(())
    }

    /// Stores the serialized compiled body of a declared class.
    pub fn append_casm(&mut self, class_hash: &ClassHash, casm: Vec<u8>) -> (r: Result<
        (),
        StorageError,
    >)
        requires
            old(self).wf(),
        ensures
            !old(self).declared_classes_block@.dom().contains(class_hash.0) <==> r == Err::<
                (),
                StorageError,
            >(StorageError::DBInconsistency),
            (old(self).declared_classes_block@.dom().contains(class_hash.0) && old(self).casms@.dom().contains(class_hash.0)) <==> r == Err::<(), StorageError>(
                StorageError::KeyAlreadyExists,
            ),
            r is Err ==> *final(self) == *old(self),
            r is Ok ==> {
                &&& final(self).casms@.dom().contains(class_hash.0)
                &&& final(self).casm_file@[final(self).casms@[class_hash.0].offset as int]
                    == casm@
                &&& forall|q: Felt|
                    #[trigger] old(self).casms@.dom().contains(q) ==> final(self).casms@.dom().contains(q) && final(self).casms@[q] == old(self).casms@[q]
                &&& forall|q: Felt|
                    #[trigger] final(self).casms@.dom().contains(q) == (old(self).casms@.dom().contains(q) || q == class_hash.0)
                &&& final(self).state_marker == old(self).state_marker
                &&& final(self).class_marker == old(self).class_marker
                &&& final(self).compiled_class_marker == old(self).compiled_class_marker
                &&& final(self).history() == old(self).history()
                &&& final(self).deployed_contracts == old(self).deployed_contracts
                &&& final(self).contract_storage == old(self).contract_storage
                &&& final(self).nonces == old(self).nonces
                &&& final(self).compiled_class_hashes == old(self).compiled_class_hashes
                &&& final(self).declared_classes_block == old(self).declared_classes_block
                &&& final(self).deprecated_declared_classes_block == old(self).deprecated_declared_classes_block
                &&& final(self).declared_classes == old(self).declared_classes
                &&& final(self).deprecated_declared_classes == old(self).deprecated_declared_classes
            },
            r is Ok ==> final(self).wf(),
            (old(self).declared_classes_block@.dom().contains(class_hash.0) && !old(
                self,
            ).casms@.dom().contains(class_hash.0)) ==> r is Ok,
    {
        match self.declared_classes_block.get(class_hash.0) {
            Some(_) => {},
            None => {
                return Err(StorageError::DBInconsistency);
            },
        }
        match self.casms.get(class_hash.0) {
            Some(_) => {
                return Err(StorageError::KeyAlreadyExists);
            },
            None => {},
        }
        let location = self.casm_file.append(casm);
        self.casms.upsert(class_hash.0, location);
        Ok(())
    }
}

// ---------------------------------------------------------------------------
// The state reader.
// ---------------------------------------------------------------------------
/// A single coherent state at a single point in time: a read-only view over
/// the storage, answering the point-in-time queries.
pub struct StateReader<'env> {
    pub storage: &'env StateStorage,
}

impl StateStorage {
    /// A reader over this storage.
    pub fn get_state_reader(&self) -> (r: StateReader<'_>)
        ensures
            r.storage == self,
    {
        StateReader { storage: self }
    }
}

impl<'env> StateReader<'env> {
    /// The class hash a contract had at a state number.
    pub fn get_class_hash_at(&self, state_number: StateNumber, address: &ContractAddress) -> (r:
        Option<ClassHash>)
        requires
            self.storage.wf(),
        ensures
            r == match pred_value(
                self.storage.deployed_contracts@,
                addr_entity(*address),
                state_number.0.0 as nat,
            ) {
                Some(f) => Some(ClassHash(f)),
                None => None::<ClassHash>,
            },
    {
        self.storage.get_class_hash_at(state_number, address)
    }

    /// The nonce a contract had at a state number.
    pub fn get_nonce_at(&self, state_number: StateNumber, address: &ContractAddress) -> (r: Option<
        Nonce,
    >)
        requires
            self.storage.wf(),
        ensures
            r == match pred_value(
                self.storage.nonces@,
                addr_entity(*address),
                state_number.0.0 as nat,
            ) {
                Some(f) => Some(Nonce(f)),
                None => None::<Nonce>,
            },
    {
        self.storage.get_nonce_at(state_number, address)
    }

    /// The compiled class hash a class had at a state number.
    pub fn get_compiled_class_hash_at(&self, state_number: StateNumber, class_hash: &ClassHash)
        -> (r: Option<CompiledClassHash>)
        requires
            self.storage.wf(),
        ensures
            r == match pred_value(
                self.storage.compiled_class_hashes@,
                class_entity(*class_hash),
                state_number.0.0 as nat,
            ) {
                Some(f) => Some(CompiledClassHash(f)),
                None => None::<CompiledClassHash>,
            },
    {
        self.storage.get_compiled_class_hash_at(state_number, class_hash)
    }

    /// The storage value of a contract's cell at a state number.
    pub fn get_storage_at(
        &self,
        state_number: StateNumber,
        address: &ContractAddress,
        key: &StorageKey,
    ) -> (r: Felt)
        requires
            self.storage.wf(),
        ensures
            r == match pred_value(
                self.storage.contract_storage@,
                storage_entity(*address, *key),
                state_number.0.0 as nat,
            ) {
                Some(f) => f,
                None => Felt::spec_zero(),
            },
    {
        self.storage.get_storage_at(state_number, address, key)
    }

    /// The block at which a class was declared.
    pub fn get_class_definition_block_number(&self, class_hash: &ClassHash) -> (r: Option<
        BlockNumber,
    >)
        requires
            self.storage.wf(),
        ensures
            r == match crate::flat::map_get(self.storage.declared_classes_block@, class_hash.0) {
                Some(b) => Some(BlockNumber(b)),
                None => None::<BlockNumber>,
            },
    {
        self.storage.get_class_definition_block_number(class_hash)
    }

    /// The first block at which a legacy class was declared.
    pub fn get_deprecated_class_definition_block_number(&self, class_hash: &ClassHash) -> (r:
        Option<BlockNumber>)
        requires
            self.storage.wf(),
        ensures
            r == match crate::flat::map_get(
                self.storage.deprecated_declared_classes_block@,
                class_hash.0,
            ) {
                Some(b) => Some(BlockNumber(b)),
                None => None::<BlockNumber>,
            },
    {
        self.storage.get_deprecated_class_definition_block_number(class_hash)
    }
}

} // verus!
