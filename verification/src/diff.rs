//! The state diff: the unit of change for one block, and its wire form.
//!
//! A state diff carries the contract deployments, storage writes, declared
//! classes and nonce updates of one block. Mappings preserve insertion order
//! and hold each key once. On disk the five fields are serialized into one
//! intermediate buffer which is compressed as a whole; the stored bytes are
//! that compressed block, length-prefixed.

use vstd::prelude::*;
use crate::codec::{
    dec_bytes,
    dec_class_hash,
    enc_class_hash,
    enc_bytes,
    lemma_dec_enc_bytes,
    lemma_dec_enc_class_hash,
    lemma_sub_of_sub,
};
use crate::compress::{compress, decompress, zstd_inflate, MAX_DECOMPRESSED_SIZE};
use crate::core_types::{
    ClassHash,
    CompiledClassHash,
    ContractAddress,
    Felt,
    Nonce,
    StorageError,
    StorageKey,
};
use crate::maps::{
    contains_key_deployed,
    dec_declared,
    dec_deployed,
    dec_fn_contract_address,
    dec_nonces,
    dec_storage_entries,
    enc_declared,
    enc_deployed,
    enc_fn_contract_address,
    enc_nonces,
    enc_storage_entries,
    lemma_dec_enc_declared,
    lemma_dec_enc_deployed,
    lemma_dec_enc_nonces,
    lemma_dec_enc_storage_entries,
    read_declared,
    read_deployed,
    read_nonces,
    read_storage_entries,
    write_declared,
    write_deployed,
    write_nonces,
    write_storage_entries,
}; 
use crate::pairs::{
    contains_key,
    dec_map,
    dec_pair_list,
    enc_map,
    enc_pair_list,
    lemma_dec_enc_map,
    lemma_enc_pair_list_snoc,
    unique_keys,
};
use crate::varint::{lemma_varint_dec_enc, read_varint, varint_dec, varint_enc, write_varint};

verus! {

// ---------------------------------------------------------------------------
// Sequences of class hashes (the legacy declared-class list).
// ---------------------------------------------------------------------------
/// The elements of a class hash sequence, back to back.
pub open spec fn enc_class_hash_list(s: Seq<ClassHash>) -> Seq<u8>
    decreases s.len(),
{
    if s.len() == 0 {
        Seq::empty()
    } else {
        enc_class_hash(s[0]) + enc_class_hash_list(s.drop_first())
    }
}

/// A sequence of class hashes: its length, then the elements in order.
pub open spec fn enc_vec_class_hash(s: Seq<ClassHash>) -> Seq<u8> {
    varint_enc(s.len() as u64) + enc_class_hash_list(s)
}

/// Reads `n` class hashes back to back.
pub open spec fn dec_class_hash_list(s: Seq<u8>, i: int, n: nat) -> Option<(Seq<ClassHash>, int)>
    decreases n,
{
    if n == 0 {
        Some((Seq::empty(), i))
    } else {
        match dec_class_hash(s, i) {
            None => None,
            Some((x, j)) => match dec_class_hash_list(s, j, (n - 1) as nat) {
                None => None,
                Some((rest, k)) => Some((seq![x] + rest, k)),
            },
        }
    }
}

/// Reads a length-prefixed sequence of class hashes.
pub open spec fn dec_vec_class_hash(s: Seq<u8>, i: int) -> Option<(Seq<ClassHash>, int)> {
    match varint_dec(s, i) {
        Some((n, j)) => dec_class_hash_list(s, j, n as nat),
        None => None,
    }
}

/// Encoding one more class hash appends its bytes.
pub proof fn lemma_enc_class_hash_list_snoc(s: Seq<ClassHash>, x: ClassHash)
    ensures
        enc_class_hash_list(s.push(x)) == enc_class_hash_list(s) + enc_class_hash(x),
    decreases s.len(),
{
    if s.len() == 0 {
        assert(s.push(x).drop_first() =~= Seq::<ClassHash>::empty());
        assert(s =~= Seq::<ClassHash>::empty());
        assert(enc_class_hash_list(Seq::<ClassHash>::empty()) == Seq::<u8>::empty());
        assert(enc_class_hash_list(s.push(x)) == enc_class_hash(x) + enc_class_hash_list(
            Seq::<ClassHash>::empty(),
        ));
        assert(enc_class_hash_list(s.push(x)) =~= enc_class_hash_list(s) + enc_class_hash(x));
    } else {
        assert(s.push(x).drop_first() =~= s.drop_first().push(x));
        assert(enc_class_hash_list(s.push(x)) == enc_class_hash(s[0]) + enc_class_hash_list(
            s.drop_first().push(x),
        ));
        lemma_enc_class_hash_list_snoc(s.drop_first(), x);
        assert(enc_class_hash_list(s.push(x)) =~= enc_class_hash_list(s) + enc_class_hash(x));
    }
}

/// Appends a length-prefixed sequence of class hashes.
pub fn write_vec_class_hash(out: &mut Vec<u8>, data: &Vec<ClassHash>)
    ensures
        final(out)@ == old(out)@ + enc_vec_class_hash(data@),
{
    write_varint(out, data.len() as u64);
    let mut k: usize = 0;
    while k < data.len()
        invariant
            k <= data@.len(),
            out@ == old(out)@ + varint_enc(data@.len() as u64) + enc_class_hash_list(
                data@.subrange(0, k as int),
            ),
        decreases data@.len() - k,
    {
        data[k].serialize_into(out);
        k = k + 1;
        proof {
            assert(data@.subrange(0, k as int) =~= data@.subrange(0, k - 1).push(data@[k - 1]));
            lemma_enc_class_hash_list_snoc(data@.subrange(0, k - 1), data@[k - 1]);
            assert(out@ =~= old(out)@ + varint_enc(data@.len() as u64) + enc_class_hash_list(
                data@.subrange(0, k as int),
            ));
        }
    }
    assert(data@.subrange(0, data@.len() as int) =~= data@);
    assert(out@ =~= old(out)@ + enc_vec_class_hash(data@));
}

/// Reads a length-prefixed sequence of class hashes, advancing the position
/// on success.
pub fn read_vec_class_hash(v: &Vec<u8>, pos: &mut usize) -> (r: Option<Vec<ClassHash>>)
    ensures
        match dec_vec_class_hash(v@, *old(pos) as int) {
            Some((data, j)) => {
                &&& r matches Some(out) && out@ == data
                &&& *final(pos) == j
            },
            None => r is None,
        },
{
    let n = match read_varint(v, pos) {
        Some(n) => n,
        None => {
            return None;
        },
    };
    let ghost j0 = *pos as int;
    let mut res: Vec<ClassHash> = Vec::new();
    let mut k: u64 = 0;
    while k < n
        invariant
            k <= n,
            res@.len() == k,
            dec_vec_class_hash(v@, *old(pos) as int) == dec_class_hash_list(v@, j0, n as nat),
            match dec_class_hash_list(v@, *pos as int, (n - k) as nat) {
                Some((rest, end)) => dec_class_hash_list(v@, j0, n as nat) == Some::<
                    (Seq<ClassHash>, int),
                >((res@ + rest, end)),
                None => dec_class_hash_list(v@, j0, n as nat) is None,
            },
        decreases n - k,
    {
        let ghost res_before = res@;
        let x = match ClassHash::deserialize_from(v, pos) {
            Some(x) => x,
            None => {
                return None;
            },
        };
        res.push(x);
        k = k + 1;
        proof {
            match dec_class_hash_list(v@, *pos as int, (n - k) as nat) {
                Some((rest, end)) => {
                    assert(res_before + (seq![x] + rest) =~= res@ + rest);
                },
                None => {},
            }
        }
    }
    assert(res@ + Seq::<ClassHash>::empty() =~= res@);
    Some(res)
}

/// Round trip for class hash sequences.
pub proof fn lemma_dec_enc_class_hash_list(s: Seq<u8>, i: int, data: Seq<ClassHash>)
    requires
        0 <= i,
        i + enc_class_hash_list(data).len() <= s.len(),
        s.subrange(i, i + enc_class_hash_list(data).len()) == enc_class_hash_list(data),
    ensures
        dec_class_hash_list(s, i, data.len()) == Some(
            (data, i + enc_class_hash_list(data).len()),
        ),
    decreases data.len(),
{
    if data.len() == 0 {
        assert(dec_class_hash_list(s, i, 0) == Some((Seq::<ClassHash>::empty(), i)));
        assert(data =~= Seq::<ClassHash>::empty());
    } else {
        let head = enc_class_hash(data[0]);
        let tail = enc_class_hash_list(data.drop_first());
        let total = enc_class_hash_list(data).len() as int;
        crate::codec::lemma_enc_felt_len(data[0].0);
        lemma_sub_of_sub(s, i, total, 0, 32);
        assert(s.subrange(i, i + 32) =~= head);
        lemma_dec_enc_class_hash(s, i, data[0]);
        lemma_sub_of_sub(s, i, total, 32, total);
        assert(s.subrange(i + 32, i + total) =~= tail);
        lemma_dec_enc_class_hash_list(s, i + 32, data.drop_first());
        assert(seq![data[0]] + data.drop_first() =~= data);
    }
}

/// Round trip for length-prefixed class hash sequences.
pub proof fn lemma_dec_enc_vec_class_hash(s: Seq<u8>, i: int, data: Seq<ClassHash>)
    requires
        0 <= i,
        data.len() <= u64::MAX,
        i + enc_vec_class_hash(data).len() <= s.len(),
        s.subrange(i, i + enc_vec_class_hash(data).len()) == enc_vec_class_hash(data),
    ensures
        dec_vec_class_hash(s, i) == Some((data, i + enc_vec_class_hash(data).len())),
{
    let lenbytes = varint_enc(data.len() as u64);
    let total = enc_vec_class_hash(data).len() as int;
    lemma_sub_of_sub(s, i, total, 0, lenbytes.len() as int);
    assert(s.subrange(i, i + lenbytes.len()) =~= lenbytes);
    lemma_varint_dec_enc(s, i, data.len() as u64);
    let j = i + lenbytes.len() as int;
    lemma_sub_of_sub(s, i, total, lenbytes.len() as int, total);
    assert(s.subrange(j, i + total) =~= enc_class_hash_list(data));
    lemma_dec_enc_class_hash_list(s, j, data);
}

// ---------------------------------------------------------------------------
// The outer storage diff mapping: contract address to its storage writes.
// ---------------------------------------------------------------------------
/// The specification view of per-contract storage writes.
pub open spec fn storage_view(s: Seq<(ContractAddress, Vec<(StorageKey, Felt)>)>) -> Seq<
    (ContractAddress, Seq<(StorageKey, Felt)>),
> {
    s.map_values(|p: (ContractAddress, Vec<(StorageKey, Felt)>)| (p.0, p.1@))
}

/// The value codec of the outer mapping: one contract's storage writes.
pub open spec fn enc_fn_storage_entries_val() -> spec_fn(Seq<(StorageKey, Felt)>) -> Seq<u8> {
    |m: Seq<(StorageKey, Felt)>| enc_storage_entries(m)
}

/// The value decoder of the outer mapping.
pub open spec fn dec_fn_storage_entries_val() -> spec_fn(Seq<u8>, int) -> Option<
    (Seq<(StorageKey, Felt)>, int),
> {
    |s: Seq<u8>, i: int| dec_storage_entries(s, i)
}

/// Values the inner codec round-trips: inner mappings with unique keys.
pub open spec fn valid_storage_entries() -> spec_fn(Seq<(StorageKey, Felt)>) -> bool {
    |m: Seq<(StorageKey, Felt)>| unique_keys(m) && m.len() <= u64::MAX
}

/// The encoding of the outer storage diff mapping.
pub open spec fn enc_storage_diffs(data: Seq<(ContractAddress, Seq<(StorageKey, Felt)>)>) -> Seq<
    u8,
> {
    enc_map(enc_fn_contract_address(), enc_fn_storage_entries_val(), data)
}

/// Reads the outer storage diff mapping.
pub open spec fn dec_storage_diffs(s: Seq<u8>, i: int) -> Option<
    (Seq<(ContractAddress, Seq<(StorageKey, Felt)>)>, int),
> {
    dec_map(dec_fn_contract_address(), dec_fn_storage_entries_val(), s, i)
}

/// True when some entry carries this address.
pub fn contains_key_storage_diffs(
    entries: &Vec<(ContractAddress, Vec<(StorageKey, Felt)>)>,
    key: ContractAddress,
) -> (r: bool)
    ensures
        r == contains_key(storage_view(entries@), key),
{
    let mut idx: usize = 0;
    while idx < entries.len()
        invariant
            idx <= entries@.len(),
            forall|j: int| 0 <= j < idx ==> (#[trigger] storage_view(entries@)[j]).0 != key,
        decreases entries@.len() - idx,
    {
        if entries[idx].0 == key {
            assert(storage_view(entries@)[idx as int].0 == key);
            return true;
        }
        assert(storage_view(entries@)[idx as int].0 == entries@[idx as int].0);
        idx = idx + 1;
    }
    false
}

/// Appends the outer storage diff mapping.
pub fn write_storage_diffs_map(
    out: &mut Vec<u8>,
    data: &Vec<(ContractAddress, Vec<(StorageKey, Felt)>)>,
)
    ensures
        final(out)@ == old(out)@ + enc_storage_diffs(storage_view(data@)),
{
    write_varint(out, data.len() as u64);
    let mut k: usize = 0;
    while k < data.len()
        invariant
            k <= data@.len(),
            out@ == old(out)@ + varint_enc(data@.len() as u64) + enc_pair_list(
                enc_fn_contract_address(),
                enc_fn_storage_entries_val(),
                storage_view(data@).subrange(0, k as int),
            ),
        decreases data@.len() - k,
    {
        data[k].0.serialize_into(out);
        write_storage_entries(out, &data[k].1);
        k = k + 1;
        proof {
            let sv = storage_view(data@);
            assert(sv[k - 1] == (data@[k - 1].0, data@[k - 1].1@));
            assert(sv.subrange(0, k as int) =~= sv.subrange(0, k - 1).push(sv[k - 1]));
            lemma_enc_pair_list_snoc(
                enc_fn_contract_address(),
                enc_fn_storage_entries_val(),
                sv.subrange(0, k - 1),
                sv[k - 1].0,
                sv[k - 1].1,
            );
            assert(out@ =~= old(out)@ + varint_enc(data@.len() as u64) + enc_pair_list(
                enc_fn_contract_address(),
                enc_fn_storage_entries_val(),
                sv.subrange(0, k as int),
            ));
        }
    }
    assert(storage_view(data@).subrange(0, data@.len() as int) =~= storage_view(data@));
    assert(out@ =~= old(out)@ + enc_storage_diffs(storage_view(data@)));
}

/// Reads the outer storage diff mapping, advancing the position on success;
/// a repeated address fails the whole read.
pub fn read_storage_diffs_map(v: &Vec<u8>, pos: &mut usize) -> (r: Option<
    Vec<(ContractAddress, Vec<(StorageKey, Felt)>)>,
>)
    ensures
        match dec_storage_diffs(v@, *old(pos) as int) {
            Some((data, j)) => {
                &&& r matches Some(out) && storage_view(out@) == data
                &&& *final(pos) == j
            },
            None => r is None,
        },
{
    let n = match read_varint(v, pos) {
        Some(n) => n,
        None => {
            return None;
        },
    };
    let mut res: Vec<(ContractAddress, Vec<(StorageKey, Felt)>)> = Vec::new();
    proof {
        assert(storage_view(res@) =~= Seq::<(ContractAddress, Seq<(StorageKey, Felt)>)>::empty());
    }
    let mut k: u64 = 0;
    while k < n
        invariant
            k <= n,
            res@.len() == k,
            dec_storage_diffs(v@, *old(pos) as int) == dec_pair_list(
                dec_fn_contract_address(),
                dec_fn_storage_entries_val(),
                v@,
                *pos as int,
                (n - k) as nat,
                storage_view(res@),
            ),
        decreases n - k,
    {
        let ghost sv_before = storage_view(res@);
        let key = match ContractAddress::deserialize_from(v, pos) {
            Some(x) => x,
            None => {
                return None;
            },
        };
        let val = match read_storage_entries(v, pos) {
            Some(x) => x,
            None => {
                return None;
            },
        };
        if contains_key_storage_diffs(&res, key) {
            return None;
        }
        res.push((key, val));
        k = k + 1;
        proof {
            assert(storage_view(res@) =~= sv_before.push((key, val@)));
        }
    }
    Some(res)
}

/// Round trip for the outer storage diff mapping: unique addresses, and each
/// contract's writes with unique keys.
pub proof fn lemma_dec_enc_storage_diffs(
    s: Seq<u8>,
    i: int,
    data: Seq<(ContractAddress, Seq<(StorageKey, Felt)>)>,
)
    requires
        unique_keys(data),
        forall|j: int|
            0 <= j < data.len() ==> unique_keys(#[trigger] data[j].1) && data[j].1.len()
                <= u64::MAX,
        data.len() <= u64::MAX,
        0 <= i,
        i + enc_storage_diffs(data).len() <= s.len(),
        s.subrange(i, i + enc_storage_diffs(data).len()) == enc_storage_diffs(data),
    ensures
        dec_storage_diffs(s, i) == Some((data, i + enc_storage_diffs(data).len())),
{
    assert forall|x: ContractAddress, ii: int|
        0 <= ii && ii + (#[trigger] enc_fn_contract_address()(x)).len() <= s.len() && s.subrange(
            ii,
            ii + enc_fn_contract_address()(x).len(),
        ) == enc_fn_contract_address()(x) implies #[trigger] dec_fn_contract_address()(s, ii)
        == Some::<(ContractAddress, int)>((x, ii + enc_fn_contract_address()(x).len())) by {
        crate::codec::lemma_enc_felt_len(x.0);
        crate::codec::lemma_dec_enc_contract_address(s, ii, x);
    }
    assert forall|y: Seq<(StorageKey, Felt)>, ii: int|
        valid_storage_entries()(y) && 0 <= ii && ii + (#[trigger] enc_fn_storage_entries_val()(
            y,
        )).len() <= s.len() && s.subrange(ii, ii + enc_fn_storage_entries_val()(y).len())
            == enc_fn_storage_entries_val()(y) implies #[trigger] dec_fn_storage_entries_val()(
        s,
        ii,
    ) == Some::<(Seq<(StorageKey, Felt)>, int)>(
        (y, ii + enc_fn_storage_entries_val()(y).len()),
    ) by {
        lemma_dec_enc_storage_entries(s, ii, y);
    }
    assert(forall|j: int|
        0 <= j < data.len() ==> valid_storage_entries()(#[trigger] data[j].1));
    lemma_dec_enc_map(
        dec_fn_contract_address(),
        dec_fn_storage_entries_val(),
        enc_fn_contract_address(),
        enc_fn_storage_entries_val(),
        valid_storage_entries(),
        s,
        i,
        data,
    );
}

// ---------------------------------------------------------------------------
// The state diff itself.
// ---------------------------------------------------------------------------
/// The set of changes one block makes to the on-chain state.
///
/// Each mapping preserves insertion order and holds each key at most once;
/// [`ThinStateDiffView::wf`] states that. `deployed_contracts` covers both
/// new deployments and class replacements.
#[derive(Clone, Debug, PartialEq, Eq)]
pub struct ThinStateDiff {
    pub deployed_contracts: Vec<(ContractAddress, ClassHash)>,
    pub storage_diffs: Vec<(ContractAddress, Vec<(StorageKey, Felt)>)>,
    pub declared_classes: Vec<(ClassHash, CompiledClassHash)>,
    pub deprecated_declared_classes: Vec<ClassHash>,
    pub nonces: Vec<(ContractAddress, Nonce)>,
}

/// The mathematical view of a state diff: the same five fields as sequences.
#[verifier::ext_equal]
pub struct ThinStateDiffView {
    pub deployed_contracts: Seq<(ContractAddress, ClassHash)>,
    pub storage_diffs: Seq<(ContractAddress, Seq<(StorageKey, Felt)>)>,
    pub declared_classes: Seq<(ClassHash, CompiledClassHash)>,
    pub deprecated_declared_classes: Seq<ClassHash>,
    pub nonces: Seq<(ContractAddress, Nonce)>,
}

impl View for ThinStateDiff {
    type V = ThinStateDiffView;

    open spec fn view(&self) -> ThinStateDiffView {
        ThinStateDiffView {
            deployed_contracts: self.deployed_contracts@,
            storage_diffs: storage_view(self.storage_diffs@),
            declared_classes: self.declared_classes@,
            deprecated_declared_classes: self.deprecated_declared_classes@,
            nonces: self.nonces@,
        }
    }
}

impl ThinStateDiffView {
    /// Every mapping holds each key at most once, and lengths fit the wire
    /// format's 64-bit counts.
    pub open spec fn wf(self) -> bool {
        &&& unique_keys(self.deployed_contracts)
        &&& unique_keys(self.storage_diffs)
        &&& forall|j: int|
            0 <= j < self.storage_diffs.len() ==> unique_keys(#[trigger] self.storage_diffs[j].1)
                && self.storage_diffs[j].1.len() <= u64::MAX
        &&& unique_keys(self.declared_classes)
        &&& unique_keys(self.nonces)
        &&& forall|a: int, b: int|
            0 <= a < b < self.deprecated_declared_classes.len()
                ==> self.deprecated_declared_classes[a] != self.deprecated_declared_classes[b]
        &&& self.deployed_contracts.len() <= u64::MAX
        &&& self.storage_diffs.len() <= u64::MAX
        &&& self.declared_classes.len() <= u64::MAX
        &&& self.deprecated_declared_classes.len() <= u64::MAX
        &&& self.nonces.len() <= u64::MAX
    }

    /// The view of the empty diff.
    pub open spec fn spec_empty() -> ThinStateDiffView {
        ThinStateDiffView {
            deployed_contracts: Seq::empty(),
            storage_diffs: Seq::empty(),
            declared_classes: Seq::empty(),
            deprecated_declared_classes: Seq::empty(),
            nonces: Seq::empty(),
        }
    }
}

impl Default for ThinStateDiff {
    /// The empty diff: a block that changes nothing.
    fn default() -> (r: Self)
        ensures
            r@ == ThinStateDiffView::spec_empty(),
            r@.wf(),
    {
        let r = ThinStateDiff {
            deployed_contracts: Vec::new(),
            storage_diffs: Vec::new(),
            declared_classes: Vec::new(),
            deprecated_declared_classes: Vec::new(),
            nonces: Vec::new(),
        };
        proof {
            assert(storage_view(r.storage_diffs@) =~= Seq::<
                (ContractAddress, Seq<(StorageKey, Felt)>),
            >::empty());
            assert(r@ =~= ThinStateDiffView::spec_empty());
        }
        r
    }
}

/// The uncompressed serialization of a diff: its five fields back to back.
/// This buffer is what gets compressed for storage.
pub open spec fn enc_diff_fields(d: ThinStateDiffView) -> Seq<u8> {
    enc_deployed(d.deployed_contracts) + enc_storage_diffs(d.storage_diffs) + enc_declared(
        d.declared_classes,
    ) + enc_vec_class_hash(d.deprecated_declared_classes) + enc_nonces(d.nonces)
}

/// Reads the five fields of a diff from an uncompressed buffer.
pub open spec fn dec_diff_fields(s: Seq<u8>, i: int) -> Option<(ThinStateDiffView, int)> {
    match dec_deployed(s, i) {
        None => None,
        Some((deployed_contracts, a)) => match dec_storage_diffs(s, a) {
            None => None,
            Some((storage_diffs, b)) => match dec_declared(s, b) {
                None => None,
                Some((declared_classes, c)) => match dec_vec_class_hash(s, c) {
                    None => None,
                    Some((deprecated_declared_classes, d)) => match dec_nonces(s, d) {
                        None => None,
                        Some((nonces, e)) => Some(
                            (
                                ThinStateDiffView {
                                    deployed_contracts,
                                    storage_diffs,
                                    declared_classes,
                                    deprecated_declared_classes,
                                    nonces,
                                },
                                e,
                            ),
                        ),
                    },
                },
            },
        },
    }
}

/// Reads a stored diff: a length-prefixed compressed block whose expansion
/// holds the five fields. Trailing bytes of the expansion are ignored, as
/// the field decoders consume exactly what they need.
pub open spec fn dec_thin_state_diff(s: Seq<u8>, i: int) -> Option<(ThinStateDiffView, int)> {
    match dec_bytes(s, i) {
        None => None,
        Some((comp, j)) => match zstd_inflate(comp, MAX_DECOMPRESSED_SIZE as nat) {
            None => None,
            Some(inner) => match dec_diff_fields(inner, 0) {
                None => None,
                Some((d, _end)) => Some((d, j)),
            },
        },
    }
}

/// Round trip for the five uncompressed fields.
#[verifier::rlimit(50)]
pub proof fn lemma_dec_enc_diff_fields(s: Seq<u8>, i: int, d: ThinStateDiffView)
    requires
        d.wf(),
        0 <= i,
        i + enc_diff_fields(d).len() <= s.len(),
        s.subrange(i, i + enc_diff_fields(d).len()) == enc_diff_fields(d),
    ensures
        dec_diff_fields(s, i) == Some((d, i + enc_diff_fields(d).len())),
{
    let e1 = enc_deployed(d.deployed_contracts);
    let e2 = enc_storage_diffs(d.storage_diffs);
    let e3 = enc_declared(d.declared_classes);
    let e4 = enc_vec_class_hash(d.deprecated_declared_classes);
    let e5 = enc_nonces(d.nonces);
    let total = enc_diff_fields(d).len() as int;
    let a = i + e1.len() as int;
    let b = a + e2.len() as int;
    let c = b + e3.len() as int;
    let dd = c + e4.len() as int;
    lemma_sub_of_sub(s, i, total, 0, e1.len() as int);
    assert(s.subrange(i, a) =~= e1);
    lemma_dec_enc_deployed(s, i, d.deployed_contracts);
    lemma_sub_of_sub(s, i, total, e1.len() as int, (e1.len() + e2.len()) as int);
    assert(s.subrange(a, b) =~= e2);
    lemma_dec_enc_storage_diffs(s, a, d.storage_diffs);
    lemma_sub_of_sub(s, i, total, (e1.len() + e2.len()) as int, (e1.len() + e2.len() + e3.len()) as int);
    assert(s.subrange(b, c) =~= e3);
    lemma_dec_enc_declared(s, b, d.declared_classes);
    lemma_sub_of_sub(
        s,
        i,
        total,
        (e1.len() + e2.len() + e3.len()) as int,
        (e1.len() + e2.len() + e3.len() + e4.len()) as int,
    );
    assert(s.subrange(c, dd) =~= e4);
    lemma_dec_enc_vec_class_hash(s, c, d.deprecated_declared_classes);
    lemma_sub_of_sub(s, i, total, (e1.len() + e2.len() + e3.len() + e4.len()) as int, total);
    assert(s.subrange(dd, i + total) =~= e5);
    lemma_dec_enc_nonces(s, dd, d.nonces);
}

impl ThinStateDiff {
    /// Serializes this diff: the five fields into one buffer, compressed as
    /// a whole, stored length-prefixed.
    ///
    /// The size guard of the format is the decoder's fixed expansion bound:
    /// a diff whose field buffer exceeds it is still written, but will not
    /// read back. The postcondition is conditional on that bound.
    pub fn serialize_into(&self, out: &mut Vec<u8>) -> (r: Result<(), StorageError>)
        ensures
            match r {
                Ok(_) => exists|c: Seq<u8>|
                    {
                        &&& final(out)@ == old(out)@ + enc_bytes(c)
                        &&& c.len() <= u64::MAX
                        &&& enc_diff_fields(self@).len() <= MAX_DECOMPRESSED_SIZE
                            ==> #[trigger] zstd_inflate(c, MAX_DECOMPRESSED_SIZE as nat) == Some(
                            enc_diff_fields(self@),
                        )
                    },
                Err(e) => *final(out) == *old(out) && e == StorageError::Compression,
            },
    {
        let mut inner: Vec<u8> = Vec::new();
        write_deployed(&mut inner, &self.deployed_contracts);
        write_storage_diffs_map(&mut inner, &self.storage_diffs);
        write_declared(&mut inner, &self.declared_classes);
        write_vec_class_hash(&mut inner, &self.deprecated_declared_classes);
        write_nonces(&mut inner, &self.nonces);
        assert(inner@ =~= enc_diff_fields(self@));
        let compressed = match compress(&inner) {
            Some(c) => c,
            None => {
                return Err(StorageError::Compression);
            },
        };
        let clen: usize = compressed.len();
        crate::codec::write_bytes(out, &compressed);
        proof {
            let cw = compressed@;
            assert(cw.len() == clen);
            assert(out@ == old(out)@ + enc_bytes(cw));
            assert(cw.len() <= u64::MAX);
            assert(enc_diff_fields(self@).len() <= MAX_DECOMPRESSED_SIZE ==> zstd_inflate(
                cw,
                MAX_DECOMPRESSED_SIZE as nat,
            ) == Some(enc_diff_fields(self@)));
        }
        Ok(())
    }

    /// Reads a stored diff, advancing the position on success.
    pub fn deserialize_from(v: &Vec<u8>, pos: &mut usize) -> (r: Option<ThinStateDiff>)
        ensures
            match dec_thin_state_diff(v@, *old(pos) as int) {
                Some((dv, j)) => {
                    &&& r matches Some(d) && d@ == dv
                    &&& *final(pos) == j
                },
                None => r is None,
            },
    {
        let compressed = match crate::codec::read_bytes(v, pos) {
            Some(c) => c,
            None => {
                return None;
            },
        };
        let data = match decompress(&compressed) {
            Some(d) => d,
            None => {
                return None;
            },
        };
        let mut ipos: usize = 0;
        let deployed_contracts = match read_deployed(&data, &mut ipos) {
            Some(x) => x,
            None => {
                return None;
            },
        };
        let storage_diffs = match read_storage_diffs_map(&data, &mut ipos) {
            Some(x) => x,
            None => {
                return None;
            },
        };
        let declared_classes = match read_declared(&data, &mut ipos) {
            Some(x) => x,
            None => {
                return None;
            },
        };
        let deprecated_declared_classes = match read_vec_class_hash(&data, &mut ipos) {
            Some(x) => x,
            None => {
                return None;
            },
        };
        let nonces = match read_nonces(&data, &mut ipos) {
            Some(x) => x,
            None => {
                return None;
            },
        };
        let d = ThinStateDiff {
            deployed_contracts,
            storage_diffs,
            declared_classes,
            deprecated_declared_classes,
            nonces,
        };
        proof {
            let got = dec_thin_state_diff(v@, *old(pos) as int)->0;
            assert(d@ =~= got.0);
        }
        Some(d)
    }
}

/// A serialized diff body reads back as the diff it was built from: the
/// round trip of the compressed tier, for bodies within the expansion bound.
#[verifier::rlimit(50)]
pub proof fn lemma_diff_body_decodes(body: Seq<u8>, c: Seq<u8>, dv: ThinStateDiffView)
    requires
        dv.wf(),
        body == enc_bytes(c),
        c.len() <= u64::MAX,
        zstd_inflate(c, MAX_DECOMPRESSED_SIZE as nat) == Some(enc_diff_fields(dv)),
    ensures
        dec_thin_state_diff(body, 0) == Some((dv, body.len() as int)),
{
    assert(body.subrange(0, enc_bytes(c).len() as int) =~= enc_bytes(c));
    lemma_dec_enc_bytes(body, 0, c);
    let inner = enc_diff_fields(dv);
    assert(inner.subrange(0, inner.len() as int) =~= inner);
    lemma_dec_enc_diff_fields(inner, 0, dv);
}

} // verus!
