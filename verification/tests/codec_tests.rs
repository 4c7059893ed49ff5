//! Round trips and rejection behavior of the binary codec, on concrete
//! values, with the real compression library linked.

use state_store::codec::{
    read_bool, read_bytes, read_u128, read_u32, read_u64, read_u8, read_vec_felt, write_bool,
    write_bytes, write_u128, write_u32, write_u64, write_u8, write_vec_felt,
};
use state_store::core_types::{
    BlockNumber, ClassHash, CompiledClassHash, ContractAddress, Felt, IndexedDeprecatedContractClass,
    LocationInFile, Nonce, StorageKey, TransactionOffsetInBlock,
};
use state_store::diff::ThinStateDiff;
use state_store::maps::{read_deployed, read_nonces, write_deployed, write_nonces};
use state_store::tx::InvokeTransactionV1;
use state_store::varint::{read_varint, write_varint};

fn felt(v: u128) -> Felt {
    Felt::from_u128(v)
}

#[test]
fn primitive_round_trips() {
    let mut out: Vec<u8> = Vec::new();
    write_u8(&mut out, 0xab);
    write_u32(&mut out, 0xdead_beef);
    write_u64(&mut out, 0x0123_4567_89ab_cdef);
    write_u128(&mut out, 0xfeed_f00d_dead_beef_0102_0304_0506_0708);
    write_bool(&mut out, true);
    write_bool(&mut out, false);
    assert_eq!(out.len(), 1 + 4 + 8 + 16 + 1 + 1);
    let mut pos: usize = 0;
    assert_eq!(read_u8(&out, &mut pos), Some(0xab));
    assert_eq!(read_u32(&out, &mut pos), Some(0xdead_beef));
    assert_eq!(read_u64(&out, &mut pos), Some(0x0123_4567_89ab_cdef));
    assert_eq!(
        read_u128(&out, &mut pos),
        Some(0xfeed_f00d_dead_beef_0102_0304_0506_0708)
    );
    assert_eq!(read_bool(&out, &mut pos), Some(true));
    assert_eq!(read_bool(&out, &mut pos), Some(false));
    assert_eq!(pos, out.len());
}

#[test]
fn fixed_width_is_big_endian() {
    let mut out: Vec<u8> = Vec::new();
    write_u32(&mut out, 0x0102_0304);
    assert_eq!(out, vec![1, 2, 3, 4]);
}

#[test]
fn truncated_input_reads_absent() {
    let out: Vec<u8> = vec![1, 2, 3];
    let mut pos: usize = 0;
    assert_eq!(read_u32(&out, &mut pos), None);
    let mut pos2: usize = 0;
    assert_eq!(read_u64(&out, &mut pos2), None);
    let empty: Vec<u8> = Vec::new();
    let mut pos3: usize = 0;
    assert_eq!(read_u8(&empty, &mut pos3), None);
}

#[test]
fn varint_round_trips() {
    for v in [0u64, 1, 127, 128, 300, 16_383, 16_384, u64::MAX] {
        let mut out: Vec<u8> = Vec::new();
        write_varint(&mut out, v);
        let mut pos: usize = 0;
        assert_eq!(read_varint(&out, &mut pos), Some(v));
        assert_eq!(pos, out.len());
    }
    let mut small: Vec<u8> = Vec::new();
    write_varint(&mut small, 5);
    assert_eq!(small, vec![5]);
    let mut two: Vec<u8> = Vec::new();
    write_varint(&mut two, 300);
    assert_eq!(two, vec![0xac, 0x02]);
}

#[test]
fn felt_round_trips() {
    let x = Felt {
        hi: 0x0102_0304_0506_0708_090a_0b0c_0d0e_0f10,
        lo: 0x1112_1314_1516_1718_191a_1b1c_1d1e_1f20,
    };
    let mut out: Vec<u8> = Vec::new();
    x.serialize_into(&mut out);
    assert_eq!(out.len(), 32);
    assert_eq!(out[0], 1);
    assert_eq!(out[31], 0x20);
    let mut pos: usize = 0;
    assert_eq!(Felt::deserialize_from(&out, &mut pos), Some(x));
}

#[test]
fn wrapper_types_round_trip() {
    let mut out: Vec<u8> = Vec::new();
    ContractAddress(felt(7)).serialize_into(&mut out);
    ClassHash(felt(8)).serialize_into(&mut out);
    CompiledClassHash(felt(9)).serialize_into(&mut out);
    Nonce(felt(10)).serialize_into(&mut out);
    StorageKey(felt(11)).serialize_into(&mut out);
    let mut pos: usize = 0;
    assert_eq!(
        ContractAddress::deserialize_from(&out, &mut pos),
        Some(ContractAddress(felt(7)))
    );
    assert_eq!(ClassHash::deserialize_from(&out, &mut pos), Some(ClassHash(felt(8))));
    assert_eq!(
        CompiledClassHash::deserialize_from(&out, &mut pos),
        Some(CompiledClassHash(felt(9)))
    );
    assert_eq!(Nonce::deserialize_from(&out, &mut pos), Some(Nonce(felt(10))));
    assert_eq!(StorageKey::deserialize_from(&out, &mut pos), Some(StorageKey(felt(11))));
    assert_eq!(pos, out.len());
}

#[test]
fn block_number_uses_four_bytes() {
    let b = BlockNumber(0x0a0b_0c0d);
    let mut out: Vec<u8> = Vec::new();
    b.serialize_into(&mut out);
    assert_eq!(out, vec![0x0a, 0x0b, 0x0c, 0x0d]);
    let mut pos: usize = 0;
    assert_eq!(BlockNumber::deserialize_from(&out, &mut pos), Some(b));
}

#[test]
fn transaction_offset_uses_three_bytes() {
    let t = TransactionOffsetInBlock(0x0a0b0c);
    let mut out: Vec<u8> = Vec::new();
    t.serialize_into(&mut out);
    assert_eq!(out, vec![0x0a, 0x0b, 0x0c]);
    let mut pos: usize = 0;
    assert_eq!(TransactionOffsetInBlock::deserialize_from(&out, &mut pos), Some(t));
}

#[test]
fn location_types_round_trip() {
    let loc = LocationInFile { offset: 3, len: 99 };
    let entry = IndexedDeprecatedContractClass {
        block_number: BlockNumber(12),
        location_in_file: loc,
    };
    let mut out: Vec<u8> = Vec::new();
    loc.serialize_into(&mut out);
    entry.serialize_into(&mut out);
    let mut pos: usize = 0;
    assert_eq!(LocationInFile::deserialize_from(&out, &mut pos), Some(loc));
    assert_eq!(
        IndexedDeprecatedContractClass::deserialize_from(&out, &mut pos),
        Some(entry)
    );
}

#[test]
fn byte_strings_and_felt_sequences_round_trip() {
    let data: Vec<u8> = vec![9, 8, 7, 6, 5];
    let felts: Vec<Felt> = vec![felt(1), felt(2), felt(3)];
    let mut out: Vec<u8> = Vec::new();
    write_bytes(&mut out, &data);
    write_vec_felt(&mut out, &felts);
    let mut pos: usize = 0;
    assert_eq!(read_bytes(&out, &mut pos), Some(data));
    assert_eq!(read_vec_felt(&out, &mut pos), Some(felts));
    assert_eq!(pos, out.len());
}

#[test]
fn mappings_round_trip() {
    let deployed = vec![
        (ContractAddress(felt(1)), ClassHash(felt(100))),
        (ContractAddress(felt(2)), ClassHash(felt(200))),
    ];
    let nonces = vec![(ContractAddress(felt(1)), Nonce(felt(5)))];
    let mut out: Vec<u8> = Vec::new();
    write_deployed(&mut out, &deployed);
    write_nonces(&mut out, &nonces);
    let mut pos: usize = 0;
    assert_eq!(read_deployed(&out, &mut pos), Some(deployed));
    assert_eq!(read_nonces(&out, &mut pos), Some(nonces));
}

#[test]
fn duplicate_map_key_reads_absent() {
    // Two entries with the same key: the wire format does not permit
    // duplicate keys, so the whole mapping reads back absent.
    let dup = vec![
        (ContractAddress(felt(1)), ClassHash(felt(100))),
        (ContractAddress(felt(1)), ClassHash(felt(200))),
    ];
    let mut out: Vec<u8> = Vec::new();
    write_deployed(&mut out, &dup);
    let mut pos: usize = 0;
    assert_eq!(read_deployed(&out, &mut pos), None);
}

fn sample_diff() -> ThinStateDiff {
    ThinStateDiff {
        deployed_contracts: vec![
            (ContractAddress(felt(1)), ClassHash(felt(100))),
            (ContractAddress(felt(2)), ClassHash(felt(200))),
        ],
        storage_diffs: vec![
            (
                ContractAddress(felt(1)),
                vec![(StorageKey(felt(10)), felt(111)), (StorageKey(felt(11)), felt(222))],
            ),
            (ContractAddress(felt(3)), vec![(StorageKey(felt(12)), felt(333))]),
        ],
        declared_classes: vec![(ClassHash(felt(100)), CompiledClassHash(felt(1000)))],
        deprecated_declared_classes: vec![ClassHash(felt(400)), ClassHash(felt(401))],
        nonces: vec![(ContractAddress(felt(1)), Nonce(felt(1)))],
    }
}

#[test]
fn state_diff_round_trips_through_compression() {
    let diff = sample_diff();
    let mut out: Vec<u8> = Vec::new();
    diff.serialize_into(&mut out).unwrap();
    let mut pos: usize = 0;
    let back = ThinStateDiff::deserialize_from(&out, &mut pos).unwrap();
    assert_eq!(back, diff);
    assert_eq!(pos, out.len());
}

#[test]
fn empty_state_diff_round_trips() {
    let diff = ThinStateDiff::default();
    let mut out: Vec<u8> = Vec::new();
    diff.serialize_into(&mut out).unwrap();
    let mut pos: usize = 0;
    assert_eq!(ThinStateDiff::deserialize_from(&out, &mut pos), Some(diff));
}

#[test]
fn corrupt_state_diff_reads_absent() {
    // A length-prefixed block that is not a valid compressed frame.
    let mut out: Vec<u8> = Vec::new();
    write_bytes(&mut out, &vec![1, 2, 3, 4, 5]);
    let mut pos: usize = 0;
    assert_eq!(ThinStateDiff::deserialize_from(&out, &mut pos), None);
}

#[test]
fn small_transaction_stays_raw() {
    let tx = InvokeTransactionV1 {
        max_fee: 55,
        signature: vec![felt(1), felt(2)],
        nonce: Nonce(felt(3)),
        sender_address: ContractAddress(felt(4)),
        calldata: vec![felt(5)],
    };
    let mut out: Vec<u8> = Vec::new();
    tx.serialize_into(&mut out).unwrap();
    // Tag byte zero: below the threshold nothing is compressed.
    assert_eq!(out[0], 0);
    let mut pos: usize = 0;
    assert_eq!(InvokeTransactionV1::deserialize_from(&out, &mut pos), Some(tx));
    assert_eq!(pos, out.len());
}

#[test]
fn large_transaction_is_compressed() {
    let mut calldata: Vec<Felt> = Vec::new();
    let mut i: u128 = 0;
    while i < 64 {
        calldata.push(felt(i));
        i += 1;
    }
    let tx = InvokeTransactionV1 {
        max_fee: u128::MAX,
        signature: vec![felt(9); 4],
        nonce: Nonce(felt(3)),
        sender_address: ContractAddress(felt(4)),
        calldata,
    };
    let mut out: Vec<u8> = Vec::new();
    tx.serialize_into(&mut out).unwrap();
    // Tag byte one: past the threshold the body is compressed.
    assert_eq!(out[0], 1);
    let mut pos: usize = 0;
    assert_eq!(InvokeTransactionV1::deserialize_from(&out, &mut pos), Some(tx));
    assert_eq!(pos, out.len());
}

#[test]
fn unknown_tag_reads_absent() {
    // A discriminant byte that is not one of the known tags fails the read,
    // it never guesses a variant.
    let tx = InvokeTransactionV1 {
        max_fee: 1,
        signature: vec![],
        nonce: Nonce(felt(0)),
        sender_address: ContractAddress(felt(1)),
        calldata: vec![],
    };
    let mut out: Vec<u8> = Vec::new();
    tx.serialize_into(&mut out).unwrap();
    out[0] = 2;
    let mut pos: usize = 0;
    assert_eq!(InvokeTransactionV1::deserialize_from(&out, &mut pos), None);
    out[0] = 0xff;
    let mut pos2: usize = 0;
    assert_eq!(InvokeTransactionV1::deserialize_from(&out, &mut pos2), None);
}
