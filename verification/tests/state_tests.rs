//! Behavior of the append/revert engine and its point-in-time reads.

use state_store::core_types::{
    BlockNumber, ClassHash, CompiledClassHash, ContractAddress, Felt, Nonce, StateNumber,
    StorageError, StorageKey,
};
use state_store::diff::ThinStateDiff;
use state_store::state::StateStorage;

fn felt(v: u128) -> Felt {
    Felt::from_u128(v)
}

fn after(block: u64) -> StateNumber {
    StateNumber::unchecked_right_after_block(BlockNumber(block))
}

fn diff_with_storage(address: u128, key: u128, value: u128) -> ThinStateDiff {
    ThinStateDiff {
        deployed_contracts: vec![],
        storage_diffs: vec![(
            ContractAddress(felt(address)),
            vec![(StorageKey(felt(key)), felt(value))],
        )],
        declared_classes: vec![],
        deprecated_declared_classes: vec![],
        nonces: vec![],
    }
}

#[test]
fn empty_storage_has_zero_markers() {
    let storage = StateStorage::new();
    assert_eq!(storage.get_state_marker(), BlockNumber(0));
    assert_eq!(storage.get_state_diff(BlockNumber(0)), None);
}

#[test]
fn append_out_of_order_is_marker_mismatch() {
    // The ordering invariant: appending any block number other than the
    // marker is refused and changes nothing.
    let mut storage = StateStorage::new();
    let r = storage.append_state_diff(BlockNumber(1), &ThinStateDiff::default());
    assert_eq!(
        r,
        Err(StorageError::MarkerMismatch { expected: BlockNumber(0), found: BlockNumber(1) })
    );
    assert_eq!(storage.get_state_marker(), BlockNumber(0));
    storage
        .append_state_diff(BlockNumber(0), &ThinStateDiff::default())
        .unwrap();
    assert_eq!(storage.get_state_marker(), BlockNumber(1));
    let r2 = storage.append_state_diff(BlockNumber(5), &diff_with_storage(1, 2, 3));
    assert_eq!(
        r2,
        Err(StorageError::MarkerMismatch { expected: BlockNumber(1), found: BlockNumber(5) })
    );
    assert_eq!(storage.get_state_marker(), BlockNumber(1));
    assert_eq!(
        storage.get_storage_at(after(0), &ContractAddress(felt(1)), &StorageKey(felt(2))),
        Felt::from_u128(0)
    );
}

#[test]
fn redeclared_class_is_refused() {
    let mut storage = StateStorage::new();
    let declare = ThinStateDiff {
        deployed_contracts: vec![],
        storage_diffs: vec![],
        declared_classes: vec![(ClassHash(felt(100)), CompiledClassHash(felt(1000)))],
        deprecated_declared_classes: vec![],
        nonces: vec![],
    };
    storage.append_state_diff(BlockNumber(0), &declare).unwrap();
    let r = storage.append_state_diff(BlockNumber(1), &declare);
    assert_eq!(r, Err(StorageError::KeyAlreadyExists));
    assert_eq!(storage.get_state_marker(), BlockNumber(1));
}

#[test]
fn revert_of_non_topmost_block_is_a_no_op() {
    // The revert restriction: anything but the most recently appended block
    // gives back no data and changes nothing.
    let mut storage = StateStorage::new();
    storage
        .append_state_diff(BlockNumber(0), &diff_with_storage(1, 2, 3))
        .unwrap();
    storage
        .append_state_diff(BlockNumber(1), &diff_with_storage(1, 2, 4))
        .unwrap();
    assert!(storage.revert_state_diff(BlockNumber(0)).unwrap().is_none());
    assert!(storage.revert_state_diff(BlockNumber(7)).unwrap().is_none());
    assert_eq!(storage.get_state_marker(), BlockNumber(2));
    assert_eq!(
        storage.get_storage_at(after(1), &ContractAddress(felt(1)), &StorageKey(felt(2))),
        felt(4)
    );
}

#[test]
fn predecessor_semantics() {
    // Only block 1 writes the key: a read as of right after block 0 sees
    // the zero default, a read as of right after block 1 sees the value.
    let mut storage = StateStorage::new();
    storage
        .append_state_diff(BlockNumber(0), &ThinStateDiff::default())
        .unwrap();
    storage
        .append_state_diff(BlockNumber(1), &diff_with_storage(1, 2, 42))
        .unwrap();
    let address = ContractAddress(felt(1));
    let key = StorageKey(felt(2));
    assert_eq!(storage.get_storage_at(after(0), &address, &key), Felt::from_u128(0));
    assert_eq!(storage.get_storage_at(after(1), &address, &key), felt(42));
}

#[test]
fn implicit_nonce_on_deployment() {
    // A deployment with no nonce entry in the diff reads back the default
    // nonce right after its block.
    let mut storage = StateStorage::new();
    let deploy = ThinStateDiff {
        deployed_contracts: vec![(ContractAddress(felt(1)), ClassHash(felt(100)))],
        storage_diffs: vec![],
        declared_classes: vec![],
        deprecated_declared_classes: vec![],
        nonces: vec![],
    };
    storage.append_state_diff(BlockNumber(0), &deploy).unwrap();
    let address = ContractAddress(felt(1));
    assert_eq!(storage.get_nonce_at(after(0), &address), Some(Nonce(felt(0))));
    assert_eq!(
        storage.get_class_hash_at(after(0), &address),
        Some(ClassHash(felt(100)))
    );
    assert_eq!(storage.get_class_hash_at(StateNumber::right_before_block(BlockNumber(0)), &address), None);
}

#[test]
fn explicit_nonce_takes_precedence() {
    let mut storage = StateStorage::new();
    let deploy = ThinStateDiff {
        deployed_contracts: vec![(ContractAddress(felt(1)), ClassHash(felt(100)))],
        storage_diffs: vec![],
        declared_classes: vec![],
        deprecated_declared_classes: vec![],
        nonces: vec![(ContractAddress(felt(1)), Nonce(felt(7)))],
    };
    storage.append_state_diff(BlockNumber(0), &deploy).unwrap();
    assert_eq!(
        storage.get_nonce_at(after(0), &ContractAddress(felt(1))),
        Some(Nonce(felt(7)))
    );
}

fn rich_diff() -> ThinStateDiff {
    ThinStateDiff {
        deployed_contracts: vec![(ContractAddress(felt(1)), ClassHash(felt(100)))],
        storage_diffs: vec![(
            ContractAddress(felt(1)),
            vec![(StorageKey(felt(10)), felt(111))],
        )],
        declared_classes: vec![(ClassHash(felt(100)), CompiledClassHash(felt(1000)))],
        deprecated_declared_classes: vec![ClassHash(felt(400))],
        nonces: vec![(ContractAddress(felt(2)), Nonce(felt(9)))],
    }
}

#[test]
fn revert_returns_the_appended_diff() {
    let mut storage = StateStorage::new();
    let diff = rich_diff();
    storage.append_state_diff(BlockNumber(0), &diff).unwrap();
    assert_eq!(storage.get_state_diff(BlockNumber(0)), Some(diff.clone()));
    let reverted = storage.revert_state_diff(BlockNumber(0)).unwrap().unwrap();
    assert_eq!(reverted.thin_state_diff, diff);
    assert_eq!(reverted.declared_class_hashes, vec![ClassHash(felt(100))]);
    assert_eq!(storage.get_state_marker(), BlockNumber(0));
    assert_eq!(storage.get_state_diff(BlockNumber(0)), None);
}

#[test]
fn append_revert_append_matches_single_append() {
    // Append/revert symmetry, observed through every read the engine
    // offers.
    let base = ThinStateDiff {
        deployed_contracts: vec![(ContractAddress(felt(3)), ClassHash(felt(300)))],
        storage_diffs: vec![],
        declared_classes: vec![],
        deprecated_declared_classes: vec![],
        nonces: vec![],
    };
    let diff = rich_diff();

    let mut once = StateStorage::new();
    once.append_state_diff(BlockNumber(0), &base).unwrap();
    once.append_state_diff(BlockNumber(1), &diff).unwrap();

    let mut twice = StateStorage::new();
    twice.append_state_diff(BlockNumber(0), &base).unwrap();
    twice.append_state_diff(BlockNumber(1), &diff).unwrap();
    let reverted = twice.revert_state_diff(BlockNumber(1)).unwrap().unwrap();
    twice
        .append_state_diff(BlockNumber(1), &reverted.thin_state_diff)
        .unwrap();

    assert_eq!(once.get_state_marker(), twice.get_state_marker());
    assert_eq!(once.get_state_diff(BlockNumber(1)), twice.get_state_diff(BlockNumber(1)));
    let address = ContractAddress(felt(1));
    let key = StorageKey(felt(10));
    assert_eq!(
        once.get_storage_at(after(1), &address, &key),
        twice.get_storage_at(after(1), &address, &key)
    );
    assert_eq!(
        once.get_class_hash_at(after(1), &address),
        twice.get_class_hash_at(after(1), &address)
    );
    assert_eq!(
        once.get_nonce_at(after(1), &address),
        twice.get_nonce_at(after(1), &address)
    );
    assert_eq!(
        once.get_nonce_at(after(1), &ContractAddress(felt(2))),
        twice.get_nonce_at(after(1), &ContractAddress(felt(2)))
    );
    assert_eq!(
        once.get_compiled_class_hash_at(after(1), &ClassHash(felt(100))),
        twice.get_compiled_class_hash_at(after(1), &ClassHash(felt(100)))
    );
    assert_eq!(
        once.get_class_definition_block_number(&ClassHash(felt(100))),
        twice.get_class_definition_block_number(&ClassHash(felt(100)))
    );
    assert_eq!(
        once.get_deprecated_class_definition_block_number(&ClassHash(felt(400))),
        twice.get_deprecated_class_definition_block_number(&ClassHash(felt(400)))
    );
}

#[test]
fn compiled_class_marker_catches_up_over_empty_blocks() {
    // Three consecutive blocks, only the middle one declares a class: the
    // marker passes the empty first block and halts at the declaring one.
    let mut storage = StateStorage::new();
    let declare = ThinStateDiff {
        deployed_contracts: vec![],
        storage_diffs: vec![],
        declared_classes: vec![(ClassHash(felt(100)), CompiledClassHash(felt(1000)))],
        deprecated_declared_classes: vec![],
        nonces: vec![],
    };
    storage
        .append_state_diff(BlockNumber(0), &ThinStateDiff::default())
        .unwrap();
    assert_eq!(storage.compiled_class_marker, 1);
    storage.append_state_diff(BlockNumber(1), &declare).unwrap();
    assert_eq!(storage.compiled_class_marker, 1);
    storage
        .append_state_diff(BlockNumber(2), &ThinStateDiff::default())
        .unwrap();
    assert_eq!(storage.compiled_class_marker, 1);
    assert_eq!(storage.get_state_marker(), BlockNumber(3));
}

#[test]
fn class_bodies_are_stored_and_read_back() {
    let mut storage = StateStorage::new();
    let diff = ThinStateDiff {
        deployed_contracts: vec![],
        storage_diffs: vec![],
        declared_classes: vec![(ClassHash(felt(100)), CompiledClassHash(felt(1000)))],
        deprecated_declared_classes: vec![ClassHash(felt(400))],
        nonces: vec![],
    };
    storage.append_state_diff(BlockNumber(0), &diff).unwrap();
    let sierra_body: Vec<u8> = vec![1, 2, 3];
    let legacy_body: Vec<u8> = vec![4, 5, 6];
    storage
        .append_classes(
            BlockNumber(0),
            &vec![(ClassHash(felt(100)), sierra_body.clone())],
            &vec![(ClassHash(felt(400)), legacy_body.clone())],
        )
        .unwrap();
    assert_eq!(storage.class_marker, 1);
    assert_eq!(
        storage.get_class_definition_at(after(0), &ClassHash(felt(100))),
        Ok(Some(sierra_body.clone()))
    );
    assert_eq!(
        storage.get_class_definition_at(StateNumber::right_before_block(BlockNumber(0)), &ClassHash(felt(100))),
        Ok(None)
    );
    assert_eq!(
        storage.get_deprecated_class_definition_at(after(0), &ClassHash(felt(400))),
        Some(legacy_body.clone())
    );
    let casm_body: Vec<u8> = vec![7, 8, 9];
    storage
        .append_casm(&ClassHash(felt(100)), casm_body.clone())
        .unwrap();
    assert_eq!(
        storage.append_casm(&ClassHash(felt(100)), casm_body.clone()),
        Err(StorageError::KeyAlreadyExists)
    );
    // Reverting the block hands every stored body back.
    let reverted = storage.revert_state_diff(BlockNumber(0)).unwrap().unwrap();
    assert_eq!(reverted.declared_classes, vec![(ClassHash(felt(100)), sierra_body)]);
    assert_eq!(
        reverted.deprecated_declared_classes,
        vec![(ClassHash(felt(400)), legacy_body)]
    );
    assert_eq!(reverted.compiled_classes, vec![(ClassHash(felt(100)), casm_body)]);
    assert_eq!(storage.class_marker, 0);
    assert_eq!(
        storage.get_class_definition_at(after(0), &ClassHash(felt(100))),
        Ok(None)
    );
}

#[test]
fn deprecated_class_keeps_first_declaration() {
    // A legacy class declared in two blocks keeps its first block; reverting
    // the second block does not remove it.
    let mut storage = StateStorage::new();
    let declare = |felt_val: u128| ThinStateDiff {
        deployed_contracts: vec![],
        storage_diffs: vec![],
        declared_classes: vec![],
        deprecated_declared_classes: vec![ClassHash(felt(felt_val))],
        nonces: vec![],
    };
    storage.append_state_diff(BlockNumber(0), &declare(400)).unwrap();
    storage.append_state_diff(BlockNumber(1), &declare(400)).unwrap();
    assert_eq!(
        storage.get_deprecated_class_definition_block_number(&ClassHash(felt(400))),
        Some(BlockNumber(0))
    );
    let reverted = storage.revert_state_diff(BlockNumber(1)).unwrap().unwrap();
    assert_eq!(reverted.deprecated_declared_class_hashes, Vec::<ClassHash>::new());
    assert_eq!(
        storage.get_deprecated_class_definition_block_number(&ClassHash(felt(400))),
        Some(BlockNumber(0))
    );
    let reverted0 = storage.revert_state_diff(BlockNumber(0)).unwrap().unwrap();
    assert_eq!(reverted0.deprecated_declared_class_hashes, vec![ClassHash(felt(400))]);
    assert_eq!(
        storage.get_deprecated_class_definition_block_number(&ClassHash(felt(400))),
        None
    );
}

#[test]
fn storage_value_survives_unrelated_blocks() {
    let mut storage = StateStorage::new();
    storage
        .append_state_diff(BlockNumber(0), &diff_with_storage(1, 2, 42))
        .unwrap();
    storage
        .append_state_diff(BlockNumber(1), &diff_with_storage(9, 9, 9))
        .unwrap();
    storage
        .append_state_diff(BlockNumber(2), &diff_with_storage(1, 2, 43))
        .unwrap();
    let address = ContractAddress(felt(1));
    let key = StorageKey(felt(2));
    assert_eq!(storage.get_storage_at(after(0), &address, &key), felt(42));
    assert_eq!(storage.get_storage_at(after(1), &address, &key), felt(42));
    assert_eq!(storage.get_storage_at(after(2), &address, &key), felt(43));
}

#[test]
fn missing_class_body_below_class_marker_is_inconsistent() {
    // Block 0 declares two classes but the class writer stores only one
    // body before advancing its marker: reading the other body below the
    // marker surfaces the cross-table inconsistency.
    let mut storage = StateStorage::new();
    let diff = ThinStateDiff {
        deployed_contracts: vec![],
        storage_diffs: vec![],
        declared_classes: vec![
            (ClassHash(felt(100)), CompiledClassHash(felt(1000))),
            (ClassHash(felt(101)), CompiledClassHash(felt(1001))),
        ],
        deprecated_declared_classes: vec![],
        nonces: vec![],
    };
    storage.append_state_diff(BlockNumber(0), &diff).unwrap();
    storage
        .append_classes(BlockNumber(0), &vec![(ClassHash(felt(100)), vec![1])], &vec![])
        .unwrap();
    assert_eq!(
        storage.get_class_definition_at(after(0), &ClassHash(felt(101))),
        Err(StorageError::DBInconsistency)
    );
    // A compiled body for an undeclared class is inconsistent too.
    assert_eq!(
        storage.append_casm(&ClassHash(felt(999)), vec![1, 2]),
        Err(StorageError::DBInconsistency)
    );
    // The class marker is owed block 1 now.
    assert_eq!(
        storage.append_classes(BlockNumber(0), &vec![], &vec![]),
        Err(StorageError::MarkerMismatch { expected: BlockNumber(1), found: BlockNumber(0) })
    );
}

#[test]
fn state_reader_answers_like_the_storage() {
    let mut storage = StateStorage::new();
    storage
        .append_state_diff(BlockNumber(0), &diff_with_storage(1, 2, 42))
        .unwrap();
    let reader = storage.get_state_reader();
    let address = ContractAddress(felt(1));
    let key = StorageKey(felt(2));
    assert_eq!(reader.get_storage_at(after(0), &address, &key), felt(42));
    assert_eq!(reader.get_class_hash_at(after(0), &address), None);
    assert_eq!(reader.get_nonce_at(after(0), &address), None);
    assert_eq!(reader.get_compiled_class_hash_at(after(0), &ClassHash(felt(5))), None);
    assert_eq!(reader.get_class_definition_block_number(&ClassHash(felt(5))), None);
    assert_eq!(
        reader.get_deprecated_class_definition_block_number(&ClassHash(felt(5))),
        None
    );
}

