//! Round trips of the class body codecs, with the real compression library.

use state_store::classes::{
    CasmContractClass, CasmContractEntryPoint, CasmContractEntryPoints, ContractClassAbiEntry,
    DeprecatedContractClass, DeprecatedEntryPoint, EntryPoint, EntryPointByType, EntryPointType,
    EventAbiEntry, EventType, FunctionAbiEntry, FunctionStateMutability, HintEntry,
    SierraContractClass, StructAbiEntry, StructMember, StructType, TypedParameter,
};
use state_store::core_types::{EntryPointSelector, Felt};

fn felt(v: u128) -> Felt {
    Felt::from_u128(v)
}

fn sample_sierra() -> SierraContractClass {
    SierraContractClass {
        sierra_program: vec![felt(1), felt(2), felt(3), felt(4)],
        contract_class_version: b"0.1.0".to_vec(),
        entry_points_by_type: EntryPointByType {
            constructor: vec![EntryPoint { function_idx: 0, selector: EntryPointSelector(felt(7)) }],
            external: vec![
                EntryPoint { function_idx: 1, selector: EntryPointSelector(felt(8)) },
                EntryPoint { function_idx: 2, selector: EntryPointSelector(felt(9)) },
            ],
            l1handler: vec![],
        },
        abi: b"[{\"name\":\"transfer\"}]".to_vec(),
    }
}

#[test]
fn sierra_class_round_trips() {
    let cls = sample_sierra();
    let mut out: Vec<u8> = Vec::new();
    cls.serialize_into(&mut out).unwrap();
    let mut pos: usize = 0;
    assert_eq!(SierraContractClass::deserialize_from(&out, &mut pos), Some(cls));
    assert_eq!(pos, out.len());
}

#[test]
fn deprecated_class_round_trips() {
    let cls = DeprecatedContractClass {
        abi: Some(vec![
            ContractClassAbiEntry::Function(FunctionAbiEntry {
                name: b"transfer".to_vec(),
                inputs: vec![TypedParameter { name: b"amount".to_vec(), ty: b"felt".to_vec() }],
                outputs: vec![],
                state_mutability: None,
            }),
            ContractClassAbiEntry::Constructor(FunctionAbiEntry {
                name: b"constructor".to_vec(),
                inputs: vec![],
                outputs: vec![],
                state_mutability: Some(FunctionStateMutability::View),
            }),
            ContractClassAbiEntry::Event(EventAbiEntry {
                data: vec![TypedParameter { name: b"from".to_vec(), ty: b"felt".to_vec() }],
                keys: vec![],
                name: b"Transfer".to_vec(),
                ty: EventType::Event,
            }),
            ContractClassAbiEntry::Struct(StructAbiEntry {
                members: vec![StructMember {
                    name: b"low".to_vec(),
                    offset: 0,
                    ty: b"felt".to_vec(),
                }],
                name: b"Uint256".to_vec(),
                size: 2,
                ty: StructType::Struct,
            }),
        ]),
        program: b"{\"data\":[1,2,3]}".to_vec(),
        entry_points_by_type: vec![
            (
                EntryPointType::External,
                vec![DeprecatedEntryPoint { selector: EntryPointSelector(felt(5)), offset: 16 }],
            ),
            (EntryPointType::Constructor, vec![]),
        ],
    };
    let mut out: Vec<u8> = Vec::new();
    cls.serialize_into(&mut out).unwrap();
    let mut pos: usize = 0;
    assert_eq!(DeprecatedContractClass::deserialize_from(&out, &mut pos), Some(cls));
    assert_eq!(pos, out.len());
}

#[test]
fn deprecated_class_without_interface_round_trips() {
    let cls = DeprecatedContractClass {
        abi: None,
        program: b"{}".to_vec(),
        entry_points_by_type: vec![],
    };
    let mut out: Vec<u8> = Vec::new();
    cls.serialize_into(&mut out).unwrap();
    let mut pos: usize = 0;
    assert_eq!(DeprecatedContractClass::deserialize_from(&out, &mut pos), Some(cls));
}

#[test]
fn casm_class_round_trips() {
    let cls = CasmContractClass {
        prime: vec![0x08, 0x00, 0x00, 0x11],
        compiler_version: b"2.6.0".to_vec(),
        bytecode: vec![vec![1], vec![2, 3], vec![4, 5, 6]],
        bytecode_segment_lengths: Some(vec![0, 3]),
        hints: vec![
            HintEntry { offset: 2, hints: vec![vec![0xaa], vec![0xbb, 0xcc]] },
            HintEntry { offset: 5, hints: vec![] },
        ],
        pythonic_hints: Some(vec![HintEntry { offset: 2, hints: vec![b"ap += 1".to_vec()] }]),
        entry_points_by_type: CasmContractEntryPoints {
            external: vec![CasmContractEntryPoint {
                selector: vec![9, 9],
                offset: 42,
                builtins: vec![b"range_check".to_vec(), b"pedersen".to_vec()],
            }],
            l1_handler: vec![],
            constructor: vec![CasmContractEntryPoint {
                selector: vec![1],
                offset: 0,
                builtins: vec![],
            }],
        },
    };
    let mut out: Vec<u8> = Vec::new();
    cls.serialize_into(&mut out).unwrap();
    let mut pos: usize = 0;
    assert_eq!(CasmContractClass::deserialize_from(&out, &mut pos), Some(cls));
    assert_eq!(pos, out.len());
}

#[test]
fn unknown_entry_point_type_reads_absent() {
    let cls = DeprecatedContractClass {
        abi: None,
        program: b"{}".to_vec(),
        entry_points_by_type: vec![(EntryPointType::L1Handler, vec![])],
    };
    let mut out: Vec<u8> = Vec::new();
    cls.serialize_into(&mut out).unwrap();
    // The entry point mapping sits after the compressed block; its first
    // key tag is the third byte from the end (tag, then a zero-length
    // entry list). Corrupt the tag.
    let tag_index = out.len() - 2;
    assert_eq!(out[tag_index], 2);
    out[tag_index] = 9;
    let mut pos: usize = 0;
    assert_eq!(DeprecatedContractClass::deserialize_from(&out, &mut pos), None);
}

#[test]
fn casm_class_without_optional_parts_round_trips() {
    let cls = CasmContractClass {
        prime: vec![1],
        compiler_version: b"2.6.0".to_vec(),
        bytecode: vec![],
        bytecode_segment_lengths: None,
        hints: vec![],
        pythonic_hints: None,
        entry_points_by_type: CasmContractEntryPoints {
            external: vec![],
            l1_handler: vec![],
            constructor: vec![],
        },
    };
    let mut out: Vec<u8> = Vec::new();
    cls.serialize_into(&mut out).unwrap();
    let mut pos: usize = 0;
    assert_eq!(CasmContractClass::deserialize_from(&out, &mut pos), Some(cls));
}

