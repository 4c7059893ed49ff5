//! The concrete mapping codecs of the state diff tables.
//!
//! Each instantiates the shared mapping wire form of [`crate::pairs`] with
//! its key and value codecs, and carries its round-trip and duplicate-key
//! lemmas over from the generic proofs.

use vstd::prelude::*;
use crate::codec::{
    dec_class_hash,
    dec_compiled_class_hash,
    dec_contract_address,
    dec_felt,
    dec_nonce,
    dec_storage_key,
    enc_class_hash,
    enc_compiled_class_hash,
    enc_contract_address,
    enc_felt,
    enc_nonce,
    enc_storage_key,
    lemma_dec_enc_class_hash,
    lemma_dec_enc_compiled_class_hash,
    lemma_dec_enc_contract_address,
    lemma_dec_enc_felt,
    lemma_dec_enc_nonce,
    lemma_dec_enc_storage_key,
    lemma_sub_of_sub,
};
use crate::core_types::{ClassHash, CompiledClassHash, ContractAddress, Felt, Nonce, StorageKey};
use crate::pairs::{
    contains_key,
    dec_map,
    dec_pair_list,
    enc_map,
    enc_pair_list,
    lemma_dec_enc_map,
    lemma_dec_enc_map_dup,
    lemma_enc_pair_list_snoc,
    unique_keys,
};
use crate::varint::{lemma_varint_dec_enc, read_varint, varint_dec, varint_enc, write_varint};

verus! {


/// The key or value codec of `ContractAddress`, as a function value.
pub open spec fn enc_fn_contract_address() -> spec_fn(ContractAddress) -> Seq<u8> {
    |x: ContractAddress| enc_contract_address(x)
}

/// The decoder of `ContractAddress`, as a function value.
pub open spec fn dec_fn_contract_address() -> spec_fn(Seq<u8>, int) -> Option<(ContractAddress, int)> {
    |s: Seq<u8>, i: int| dec_contract_address(s, i)
}


/// The key or value codec of `ClassHash`, as a function value.
pub open spec fn enc_fn_class_hash() -> spec_fn(ClassHash) -> Seq<u8> {
    |x: ClassHash| enc_class_hash(x)
}

/// The decoder of `ClassHash`, as a function value.
pub open spec fn dec_fn_class_hash() -> spec_fn(Seq<u8>, int) -> Option<(ClassHash, int)> {
    |s: Seq<u8>, i: int| dec_class_hash(s, i)
}


/// The key or value codec of `CompiledClassHash`, as a function value.
pub open spec fn enc_fn_compiled_class_hash() -> spec_fn(CompiledClassHash) -> Seq<u8> {
    |x: CompiledClassHash| enc_compiled_class_hash(x)
}

/// The decoder of `CompiledClassHash`, as a function value.
pub open spec fn dec_fn_compiled_class_hash() -> spec_fn(Seq<u8>, int) -> Option<(CompiledClassHash, int)> {
    |s: Seq<u8>, i: int| dec_compiled_class_hash(s, i)
}


/// The key or value codec of `Nonce`, as a function value.
pub open spec fn enc_fn_nonce() -> spec_fn(Nonce) -> Seq<u8> {
    |x: Nonce| enc_nonce(x)
}

/// The decoder of `Nonce`, as a function value.
pub open spec fn dec_fn_nonce() -> spec_fn(Seq<u8>, int) -> Option<(Nonce, int)> {
    |s: Seq<u8>, i: int| dec_nonce(s, i)
}


/// The key or value codec of `StorageKey`, as a function value.
pub open spec fn enc_fn_storage_key() -> spec_fn(StorageKey) -> Seq<u8> {
    |x: StorageKey| enc_storage_key(x)
}

/// The decoder of `StorageKey`, as a function value.
pub open spec fn dec_fn_storage_key() -> spec_fn(Seq<u8>, int) -> Option<(StorageKey, int)> {
    |s: Seq<u8>, i: int| dec_storage_key(s, i)
}


/// The key or value codec of `Felt`, as a function value.
pub open spec fn enc_fn_felt() -> spec_fn(Felt) -> Seq<u8> {
    |x: Felt| enc_felt(x)
}

/// The decoder of `Felt`, as a function value.
pub open spec fn dec_fn_felt() -> spec_fn(Seq<u8>, int) -> Option<(Felt, int)> {
    |s: Seq<u8>, i: int| dec_felt(s, i)
}


// ---------------------------------------------------------------------------
// The mapping of deployed contracts: contract address to class hash.
// ---------------------------------------------------------------------------
/// The encoding of this mapping.
pub open spec fn enc_deployed(data: Seq<(ContractAddress, ClassHash)>) -> Seq<u8> {
    enc_map(enc_fn_contract_address(), enc_fn_class_hash(), data)
}

/// Reads this mapping.
pub open spec fn dec_deployed(s: Seq<u8>, i: int) -> Option<(Seq<(ContractAddress, ClassHash)>, int)> {
    dec_map(dec_fn_contract_address(), dec_fn_class_hash(), s, i)
}

/// True when some entry carries this key.
pub fn contains_key_deployed(entries: &Vec<(ContractAddress, ClassHash)>, key: ContractAddress) -> (r: bool)
    ensures
        r == contains_key(entries@, key),
{
    let mut idx: usize = 0;
    while idx < entries.len()
        invariant
            idx <= entries@.len(),
            forall|j: int| 0 <= j < idx ==> (#[trigger] entries@[j]).0 != key,
        decreases entries@.len() - idx,
    {
        if entries[idx].0 == key {
            assert(entries@[idx as int].0 == key);
            return true;
        }
        idx = idx + 1;
    }
    false
}

/// Appends this mapping: its entry count, then each key and value.
pub fn write_deployed(out: &mut Vec<u8>, data: &Vec<(ContractAddress, ClassHash)>)
    ensures
        final(out)@ == old(out)@ + enc_deployed(data@),
{
    write_varint(out, data.len() as u64);
    let mut k: usize = 0;
    while k < data.len()
        invariant
            k <= data@.len(),
            out@ == old(out)@ + varint_enc(data@.len() as u64) + enc_pair_list(
                enc_fn_contract_address(),
                enc_fn_class_hash(),
                data@.subrange(0, k as int),
            ),
        decreases data@.len() - k,
    {
        data[k].0.serialize_into(out);
        data[k].1.serialize_into(out);
        k = k + 1;
        proof {
            assert(data@.subrange(0, k as int) =~= data@.subrange(0, k - 1).push(data@[k - 1]));
            lemma_enc_pair_list_snoc(
                enc_fn_contract_address(),
                enc_fn_class_hash(),
                data@.subrange(0, k - 1),
                data@[k - 1].0,
                data@[k - 1].1,
            );
            assert(out@ =~= old(out)@ + varint_enc(data@.len() as u64) + enc_pair_list(
                enc_fn_contract_address(),
                enc_fn_class_hash(),
                data@.subrange(0, k as int),
            ));
        }
    }
    assert(data@.subrange(0, data@.len() as int) =~= data@);
    assert(out@ =~= old(out)@ + enc_deployed(data@));
}

/// Reads this mapping, advancing the position on success; a repeated key
/// fails the whole read.
pub fn read_deployed(v: &Vec<u8>, pos: &mut usize) -> (r: Option<Vec<(ContractAddress, ClassHash)>>)
    ensures
        match dec_deployed(v@, *old(pos) as int) {
            Some((data, j)) => {
                &&& r matches Some(out) && out@ == data
                &&& *final(pos) == j
            },
            None => r is None,
        },
{
    let n = match read_varint(v, pos) {
        Some(n) => n,
        None => {
            return None;
        },
    };
    let mut res: Vec<(ContractAddress, ClassHash)> = Vec::new();
    let mut k: u64 = 0;
    while k < n
        invariant
            k <= n,
            res@.len() == k,
            dec_deployed(v@, *old(pos) as int) == dec_pair_list(
                dec_fn_contract_address(),
                dec_fn_class_hash(),
                v@,
                *pos as int,
                (n - k) as nat,
                res@,
            ),
        decreases n - k,
    {
        let key = match ContractAddress::deserialize_from(v, pos) {
            Some(x) => x,
            None => {
                return None;
            },
        };
        let val = match ClassHash::deserialize_from(v, pos) {
            Some(x) => x,
            None => {
                return None;
            },
        };
        if contains_key_deployed(&res, key) {
            return None;
        }
        res.push((key, val));
        k = k + 1;
    }
    Some(res)
}

/// Round trip: an encoded mapping with unique keys reads back as itself.
pub proof fn lemma_dec_enc_deployed(s: Seq<u8>, i: int, data: Seq<(ContractAddress, ClassHash)>)
    requires
        unique_keys(data),
        data.len() <= u64::MAX,
        0 <= i,
        i + enc_deployed(data).len() <= s.len(),
        s.subrange(i, i + enc_deployed(data).len()) == enc_deployed(data),
    ensures
        dec_deployed(s, i) == Some((data, i + enc_deployed(data).len())),
{
    assert forall|x: ContractAddress, ii: int|
        0 <= ii && ii + (#[trigger] enc_fn_contract_address()(x)).len() <= s.len() && s.subrange(
            ii,
            ii + enc_fn_contract_address()(x).len(),
        ) == enc_fn_contract_address()(x) implies #[trigger] dec_fn_contract_address()(s, ii) == Some::<(ContractAddress, int)>(
        (x, ii + enc_fn_contract_address()(x).len()),
    ) by {
        crate::codec::lemma_enc_felt_len(x.0);
        lemma_dec_enc_contract_address(s, ii, x);
    }
    assert forall|y: ClassHash, ii: int|
        0 <= ii && ii + (#[trigger] enc_fn_class_hash()(y)).len() <= s.len() && s.subrange(
            ii,
            ii + enc_fn_class_hash()(y).len(),
        ) == enc_fn_class_hash()(y) implies #[trigger] dec_fn_class_hash()(s, ii) == Some::<(ClassHash, int)>(
        (y, ii + enc_fn_class_hash()(y).len()),
    ) by {
        crate::codec::lemma_enc_felt_len(y.0);
        lemma_dec_enc_class_hash(s, ii, y);
    }
    lemma_dec_enc_map(
        dec_fn_contract_address(),
        dec_fn_class_hash(),
        enc_fn_contract_address(),
        enc_fn_class_hash(),
        |y: ClassHash| true,
        s,
        i,
        data,
    );
}

/// A duplicate key in the encoded bytes fails the read.
pub proof fn lemma_dec_enc_deployed_dup(s: Seq<u8>, i: int, data: Seq<(ContractAddress, ClassHash)>)
    requires
        !unique_keys(data),
        data.len() <= u64::MAX,
        0 <= i,
        i + enc_deployed(data).len() <= s.len(),
        s.subrange(i, i + enc_deployed(data).len()) == enc_deployed(data),
    ensures
        dec_deployed(s, i) is None,
{
    assert forall|x: ContractAddress, ii: int|
        0 <= ii && ii + (#[trigger] enc_fn_contract_address()(x)).len() <= s.len() && s.subrange(
            ii,
            ii + enc_fn_contract_address()(x).len(),
        ) == enc_fn_contract_address()(x) implies #[trigger] dec_fn_contract_address()(s, ii) == Some::<(ContractAddress, int)>(
        (x, ii + enc_fn_contract_address()(x).len()),
    ) by {
        crate::codec::lemma_enc_felt_len(x.0);
        lemma_dec_enc_contract_address(s, ii, x);
    }
    assert forall|y: ClassHash, ii: int|
        0 <= ii && ii + (#[trigger] enc_fn_class_hash()(y)).len() <= s.len() && s.subrange(
            ii,
            ii + enc_fn_class_hash()(y).len(),
        ) == enc_fn_class_hash()(y) implies #[trigger] dec_fn_class_hash()(s, ii) == Some::<(ClassHash, int)>(
        (y, ii + enc_fn_class_hash()(y).len()),
    ) by {
        crate::codec::lemma_enc_felt_len(y.0);
        lemma_dec_enc_class_hash(s, ii, y);
    }
    lemma_dec_enc_map_dup(
        dec_fn_contract_address(),
        dec_fn_class_hash(),
        enc_fn_contract_address(),
        enc_fn_class_hash(),
        |y: ClassHash| true,
        s,
        i,
        data,
    );
}


// ---------------------------------------------------------------------------
// The mapping of declared classes: class hash to compiled class hash.
// ---------------------------------------------------------------------------
/// The encoding of this mapping.
pub open spec fn enc_declared(data: Seq<(ClassHash, CompiledClassHash)>) -> Seq<u8> {
    enc_map(enc_fn_class_hash(), enc_fn_compiled_class_hash(), data)
}

/// Reads this mapping.
pub open spec fn dec_declared(s: Seq<u8>, i: int) -> Option<(Seq<(ClassHash, CompiledClassHash)>, int)> {
    dec_map(dec_fn_class_hash(), dec_fn_compiled_class_hash(), s, i)
}

/// True when some entry carries this key.
pub fn contains_key_declared(entries: &Vec<(ClassHash, CompiledClassHash)>, key: ClassHash) -> (r: bool)
    ensures
        r == contains_key(entries@, key),
{
    let mut idx: usize = 0;
    while idx < entries.len()
        invariant
            idx <= entries@.len(),
            forall|j: int| 0 <= j < idx ==> (#[trigger] entries@[j]).0 != key,
        decreases entries@.len() - idx,
    {
        if entries[idx].0 == key {
            assert(entries@[idx as int].0 == key);
            return true;
        }
        idx = idx + 1;
    }
    false
}

/// Appends this mapping: its entry count, then each key and value.
pub fn write_declared(out: &mut Vec<u8>, data: &Vec<(ClassHash, CompiledClassHash)>)
    ensures
        final(out)@ == old(out)@ + enc_declared(data@),
{
    write_varint(out, data.len() as u64);
    let mut k: usize = 0;
    while k < data.len()
        invariant
            k <= data@.len(),
            out@ == old(out)@ + varint_enc(data@.len() as u64) + enc_pair_list(
                enc_fn_class_hash(),
                enc_fn_compiled_class_hash(),
                data@.subrange(0, k as int),
            ),
        decreases data@.len() - k,
    {
        data[k].0.serialize_into(out);
        data[k].1.serialize_into(out);
        k = k + 1;
        proof {
            assert(data@.subrange(0, k as int) =~= data@.subrange(0, k - 1).push(data@[k - 1]));
            lemma_enc_pair_list_snoc(
                enc_fn_class_hash(),
                enc_fn_compiled_class_hash(),
                data@.subrange(0, k - 1),
                data@[k - 1].0,
                data@[k - 1].1,
            );
            assert(out@ =~= old(out)@ + varint_enc(data@.len() as u64) + enc_pair_list(
                enc_fn_class_hash(),
                enc_fn_compiled_class_hash(),
                data@.subrange(0, k as int),
            ));
        }
    }
    assert(data@.subrange(0, data@.len() as int) =~= data@);
    assert(out@ =~= old(out)@ + enc_declared(data@));
}

/// Reads this mapping, advancing the position on success; a repeated key
/// fails the whole read.
pub fn read_declared(v: &Vec<u8>, pos: &mut usize) -> (r: Option<Vec<(ClassHash, CompiledClassHash)>>)
    ensures
        match dec_declared(v@, *old(pos) as int) {
            Some((data, j)) => {
                &&& r matches Some(out) && out@ == data
                &&& *final(pos) == j
            },
            None => r is None,
        },
{
    let n = match read_varint(v, pos) {
        Some(n) => n,
        None => {
            return None;
        },
    };
    let mut res: Vec<(ClassHash, CompiledClassHash)> = Vec::new();
    let mut k: u64 = 0;
    while k < n
        invariant
            k <= n,
            res@.len() == k,
            dec_declared(v@, *old(pos) as int) == dec_pair_list(
                dec_fn_class_hash(),
                dec_fn_compiled_class_hash(),
                v@,
                *pos as int,
                (n - k) as nat,
                res@,
            ),
        decreases n - k,
    {
        let key = match ClassHash::deserialize_from(v, pos) {
            Some(x) => x,
            None => {
                return None;
            },
        };
        let val = match CompiledClassHash::deserialize_from(v, pos) {
            Some(x) => x,
            None => {
                return None;
            },
        };
        if contains_key_declared(&res, key) {
            return None;
        }
        res.push((key, val));
        k = k + 1;
    }
    Some(res)
}

/// Round trip: an encoded mapping with unique keys reads back as itself.
pub proof fn lemma_dec_enc_declared(s: Seq<u8>, i: int, data: Seq<(ClassHash, CompiledClassHash)>)
    requires
        unique_keys(data),
        data.len() <= u64::MAX,
        0 <= i,
        i + enc_declared(data).len() <= s.len(),
        s.subrange(i, i + enc_declared(data).len()) == enc_declared(data),
    ensures
        dec_declared(s, i) == Some((data, i + enc_declared(data).len())),
{
    assert forall|x: ClassHash, ii: int|
        0 <= ii && ii + (#[trigger] enc_fn_class_hash()(x)).len() <= s.len() && s.subrange(
            ii,
            ii + enc_fn_class_hash()(x).len(),
        ) == enc_fn_class_hash()(x) implies #[trigger] dec_fn_class_hash()(s, ii) == Some::<(ClassHash, int)>(
        (x, ii + enc_fn_class_hash()(x).len()),
    ) by {
        crate::codec::lemma_enc_felt_len(x.0);
        lemma_dec_enc_class_hash(s, ii, x);
    }
    assert forall|y: CompiledClassHash, ii: int|
        0 <= ii && ii + (#[trigger] enc_fn_compiled_class_hash()(y)).len() <= s.len() && s.subrange(
            ii,
            ii + enc_fn_compiled_class_hash()(y).len(),
        ) == enc_fn_compiled_class_hash()(y) implies #[trigger] dec_fn_compiled_class_hash()(s, ii) == Some::<(CompiledClassHash, int)>(
        (y, ii + enc_fn_compiled_class_hash()(y).len()),
    ) by {
        crate::codec::lemma_enc_felt_len(y.0);
        lemma_dec_enc_compiled_class_hash(s, ii, y);
    }
    lemma_dec_enc_map(
        dec_fn_class_hash(),
        dec_fn_compiled_class_hash(),
        enc_fn_class_hash(),
        enc_fn_compiled_class_hash(),
        |y: CompiledClassHash| true,
        s,
        i,
        data,
    );
}

/// A duplicate key in the encoded bytes fails the read.
pub proof fn lemma_dec_enc_declared_dup(s: Seq<u8>, i: int, data: Seq<(ClassHash, CompiledClassHash)>)
    requires
        !unique_keys(data),
        data.len() <= u64::MAX,
        0 <= i,
        i + enc_declared(data).len() <= s.len(),
        s.subrange(i, i + enc_declared(data).len()) == enc_declared(data),
    ensures
        dec_declared(s, i) is None,
{
    assert forall|x: ClassHash, ii: int|
        0 <= ii && ii + (#[trigger] enc_fn_class_hash()(x)).len() <= s.len() && s.subrange(
            ii,
            ii + enc_fn_class_hash()(x).len(),
        ) == enc_fn_class_hash()(x) implies #[trigger] dec_fn_class_hash()(s, ii) == Some::<(ClassHash, int)>(
        (x, ii + enc_fn_class_hash()(x).len()),
    ) by {
        crate::codec::lemma_enc_felt_len(x.0);
        lemma_dec_enc_class_hash(s, ii, x);
    }
    assert forall|y: CompiledClassHash, ii: int|
        0 <= ii && ii + (#[trigger] enc_fn_compiled_class_hash()(y)).len() <= s.len() && s.subrange(
            ii,
            ii + enc_fn_compiled_class_hash()(y).len(),
        ) == enc_fn_compiled_class_hash()(y) implies #[trigger] dec_fn_compiled_class_hash()(s, ii) == Some::<(CompiledClassHash, int)>(
        (y, ii + enc_fn_compiled_class_hash()(y).len()),
    ) by {
        crate::codec::lemma_enc_felt_len(y.0);
        lemma_dec_enc_compiled_class_hash(s, ii, y);
    }
    lemma_dec_enc_map_dup(
        dec_fn_class_hash(),
        dec_fn_compiled_class_hash(),
        enc_fn_class_hash(),
        enc_fn_compiled_class_hash(),
        |y: CompiledClassHash| true,
        s,
        i,
        data,
    );
}


// ---------------------------------------------------------------------------
// The mapping of nonces: contract address to nonce.
// ---------------------------------------------------------------------------
/// The encoding of this mapping.
pub open spec fn enc_nonces(data: Seq<(ContractAddress, Nonce)>) -> Seq<u8> {
    enc_map(enc_fn_contract_address(), enc_fn_nonce(), data)
}

/// Reads this mapping.
pub open spec fn dec_nonces(s: Seq<u8>, i: int) -> Option<(Seq<(ContractAddress, Nonce)>, int)> {
    dec_map(dec_fn_contract_address(), dec_fn_nonce(), s, i)
}

/// True when some entry carries this key.
pub fn contains_key_nonces(entries: &Vec<(ContractAddress, Nonce)>, key: ContractAddress) -> (r: bool)
    ensures
        r == contains_key(entries@, key),
{
    let mut idx: usize = 0;
    while idx < entries.len()
        invariant
            idx <= entries@.len(),
            forall|j: int| 0 <= j < idx ==> (#[trigger] entries@[j]).0 != key,
        decreases entries@.len() - idx,
    {
        if entries[idx].0 == key {
            assert(entries@[idx as int].0 == key);
            return true;
        }
        idx = idx + 1;
    }
    false
}

/// Appends this mapping: its entry count, then each key and value.
pub fn write_nonces(out: &mut Vec<u8>, data: &Vec<(ContractAddress, Nonce)>)
    ensures
        final(out)@ == old(out)@ + enc_nonces(data@),
{
    write_varint(out, data.len() as u64);
    let mut k: usize = 0;
    while k < data.len()
        invariant
            k <= data@.len(),
            out@ == old(out)@ + varint_enc(data@.len() as u64) + enc_pair_list(
                enc_fn_contract_address(),
                enc_fn_nonce(),
                data@.subrange(0, k as int),
            ),
        decreases data@.len() - k,
    {
        data[k].0.serialize_into(out);
        data[k].1.serialize_into(out);
        k = k + 1;
        proof {
            assert(data@.subrange(0, k as int) =~= data@.subrange(0, k - 1).push(data@[k - 1]));
            lemma_enc_pair_list_snoc(
                enc_fn_contract_address(),
                enc_fn_nonce(),
                data@.subrange(0, k - 1),
                data@[k - 1].0,
                data@[k - 1].1,
            );
            assert(out@ =~= old(out)@ + varint_enc(data@.len() as u64) + enc_pair_list(
                enc_fn_contract_address(),
                enc_fn_nonce(),
                data@.subrange(0, k as int),
            ));
        }
    }
    assert(data@.subrange(0, data@.len() as int) =~= data@);
    assert(out@ =~= old(out)@ + enc_nonces(data@));
}

/// Reads this mapping, advancing the position on success; a repeated key
/// fails the whole read.
pub fn read_nonces(v: &Vec<u8>, pos: &mut usize) -> (r: Option<Vec<(ContractAddress, Nonce)>>)
    ensures
        match dec_nonces(v@, *old(pos) as int) {
            Some((data, j)) => {
                &&& r matches Some(out) && out@ == data
                &&& *final(pos) == j
            },
            None => r is None,
        },
{
    let n = match read_varint(v, pos) {
        Some(n) => n,
        None => {
            return None;
        },
    };
    let mut res: Vec<(ContractAddress, Nonce)> = Vec::new();
    let mut k: u64 = 0;
    while k < n
        invariant
            k <= n,
            res@.len() == k,
            dec_nonces(v@, *old(pos) as int) == dec_pair_list(
                dec_fn_contract_address(),
                dec_fn_nonce(),
                v@,
                *pos as int,
                (n - k) as nat,
                res@,
            ),
        decreases n - k,
    {
        let key = match ContractAddress::deserialize_from(v, pos) {
            Some(x) => x,
            None => {
                return None;
            },
        };
        let val = match Nonce::deserialize_from(v, pos) {
            Some(x) => x,
            None => {
                return None;
            },
        };
        if contains_key_nonces(&res, key) {
            return None;
        }
        res.push((key, val));
        k = k + 1;
    }
    Some(res)
}

/// Round trip: an encoded mapping with unique keys reads back as itself.
pub proof fn lemma_dec_enc_nonces(s: Seq<u8>, i: int, data: Seq<(ContractAddress, Nonce)>)
    requires
        unique_keys(data),
        data.len() <= u64::MAX,
        0 <= i,
        i + enc_nonces(data).len() <= s.len(),
        s.subrange(i, i + enc_nonces(data).len()) == enc_nonces(data),
    ensures
        dec_nonces(s, i) == Some((data, i + enc_nonces(data).len())),
{
    assert forall|x: ContractAddress, ii: int|
        0 <= ii && ii + (#[trigger] enc_fn_contract_address()(x)).len() <= s.len() && s.subrange(
            ii,
            ii + enc_fn_contract_address()(x).len(),
        ) == enc_fn_contract_address()(x) implies #[trigger] dec_fn_contract_address()(s, ii) == Some::<(ContractAddress, int)>(
        (x, ii + enc_fn_contract_address()(x).len()),
    ) by {
        crate::codec::lemma_enc_felt_len(x.0);
        lemma_dec_enc_contract_address(s, ii, x);
    }
    assert forall|y: Nonce, ii: int|
        0 <= ii && ii + (#[trigger] enc_fn_nonce()(y)).len() <= s.len() && s.subrange(
            ii,
            ii + enc_fn_nonce()(y).len(),
        ) == enc_fn_nonce()(y) implies #[trigger] dec_fn_nonce()(s, ii) == Some::<(Nonce, int)>(
        (y, ii + enc_fn_nonce()(y).len()),
    ) by {
        crate::codec::lemma_enc_felt_len(y.0);
        lemma_dec_enc_nonce(s, ii, y);
    }
    lemma_dec_enc_map(
        dec_fn_contract_address(),
        dec_fn_nonce(),
        enc_fn_contract_address(),
        enc_fn_nonce(),
        |y: Nonce| true,
        s,
        i,
        data,
    );
}

/// A duplicate key in the encoded bytes fails the read.
pub proof fn lemma_dec_enc_nonces_dup(s: Seq<u8>, i: int, data: Seq<(ContractAddress, Nonce)>)
    requires
        !unique_keys(data),
        data.len() <= u64::MAX,
        0 <= i,
        i + enc_nonces(data).len() <= s.len(),
        s.subrange(i, i + enc_nonces(data).len()) == enc_nonces(data),
    ensures
        dec_nonces(s, i) is None,
{
    assert forall|x: ContractAddress, ii: int|
        0 <= ii && ii + (#[trigger] enc_fn_contract_address()(x)).len() <= s.len() && s.subrange(
            ii,
            ii + enc_fn_contract_address()(x).len(),
        ) == enc_fn_contract_address()(x) implies #[trigger] dec_fn_contract_address()(s, ii) == Some::<(ContractAddress, int)>(
        (x, ii + enc_fn_contract_address()(x).len()),
    ) by {
        crate::codec::lemma_enc_felt_len(x.0);
        lemma_dec_enc_contract_address(s, ii, x);
    }
    assert forall|y: Nonce, ii: int|
        0 <= ii && ii + (#[trigger] enc_fn_nonce()(y)).len() <= s.len() && s.subrange(
            ii,
            ii + enc_fn_nonce()(y).len(),
        ) == enc_fn_nonce()(y) implies #[trigger] dec_fn_nonce()(s, ii) == Some::<(Nonce, int)>(
        (y, ii + enc_fn_nonce()(y).len()),
    ) by {
        crate::codec::lemma_enc_felt_len(y.0);
        lemma_dec_enc_nonce(s, ii, y);
    }
    lemma_dec_enc_map_dup(
        dec_fn_contract_address(),
        dec_fn_nonce(),
        enc_fn_contract_address(),
        enc_fn_nonce(),
        |y: Nonce| true,
        s,
        i,
        data,
    );
}


// ---------------------------------------------------------------------------
// The mapping of one contract's storage writes: storage key to value.
// ---------------------------------------------------------------------------
/// The encoding of this mapping.
pub open spec fn enc_storage_entries(data: Seq<(StorageKey, Felt)>) -> Seq<u8> {
    enc_map(enc_fn_storage_key(), enc_fn_felt(), data)
}

/// Reads this mapping.
pub open spec fn dec_storage_entries(s: Seq<u8>, i: int) -> Option<(Seq<(StorageKey, Felt)>, int)> {
    dec_map(dec_fn_storage_key(), dec_fn_felt(), s, i)
}

/// True when some entry carries this key.
pub fn contains_key_storage_entries(entries: &Vec<(StorageKey, Felt)>, key: StorageKey) -> (r: bool)
    ensures
        r == contains_key(entries@, key),
{
    let mut idx: usize = 0;
    while idx < entries.len()
        invariant
            idx <= entries@.len(),
            forall|j: int| 0 <= j < idx ==> (#[trigger] entries@[j]).0 != key,
        decreases entries@.len() - idx,
    {
        if entries[idx].0 == key {
            assert(entries@[idx as int].0 == key);
            return true;
        }
        idx = idx + 1;
    }
    false
}

/// Appends this mapping: its entry count, then each key and value.
pub fn write_storage_entries(out: &mut Vec<u8>, data: &Vec<(StorageKey, Felt)>)
    ensures
        final(out)@ == old(out)@ + enc_storage_entries(data@),
{
    write_varint(out, data.len() as u64);
    let mut k: usize = 0;
    while k < data.len()
        invariant
            k <= data@.len(),
            out@ == old(out)@ + varint_enc(data@.len() as u64) + enc_pair_list(
                enc_fn_storage_key(),
                enc_fn_felt(),
                data@.subrange(0, k as int),
            ),
        decreases data@.len() - k,
    {
        data[k].0.serialize_into(out);
        data[k].1.serialize_into(out);
        k = k + 1;
        proof {
            assert(data@.subrange(0, k as int) =~= data@.subrange(0, k - 1).push(data@[k - 1]));
            lemma_enc_pair_list_snoc(
                enc_fn_storage_key(),
                enc_fn_felt(),
                data@.subrange(0, k - 1),
                data@[k - 1].0,
                data@[k - 1].1,
            );
            assert(out@ =~= old(out)@ + varint_enc(data@.len() as u64) + enc_pair_list(
                enc_fn_storage_key(),
                enc_fn_felt(),
                data@.subrange(0, k as int),
            ));
        }
    }
    assert(data@.subrange(0, data@.len() as int) =~= data@);
    assert(out@ =~= old(out)@ + enc_storage_entries(data@));
}

/// Reads this mapping, advancing the position on success; a repeated key
/// fails the whole read.
pub fn read_storage_entries(v: &Vec<u8>, pos: &mut usize) -> (r: Option<Vec<(StorageKey, Felt)>>)
    ensures
        match dec_storage_entries(v@, *old(pos) as int) {
            Some((data, j)) => {
                &&& r matches Some(out) && out@ == data
                &&& *final(pos) == j
            },
            None => r is None,
        },
{
    let n = match read_varint(v, pos) {
        Some(n) => n,
        None => {
            return None;
        },
    };
    let mut res: Vec<(StorageKey, Felt)> = Vec::new();
    let mut k: u64 = 0;
    while k < n
        invariant
            k <= n,
            res@.len() == k,
            dec_storage_entries(v@, *old(pos) as int) == dec_pair_list(
                dec_fn_storage_key(),
                dec_fn_felt(),
                v@,
                *pos as int,
                (n - k) as nat,
                res@,
            ),
        decreases n - k,
    {
        let key = match StorageKey::deserialize_from(v, pos) {
            Some(x) => x,
            None => {
                return None;
            },
        };
        let val = match Felt::deserialize_from(v, pos) {
            Some(x) => x,
            None => {
                return None;
            },
        };
        if contains_key_storage_entries(&res, key) {
            return None;
        }
        res.push((key, val));
        k = k + 1;
    }
    Some(res)
}

/// Round trip: an encoded mapping with unique keys reads back as itself.
pub proof fn lemma_dec_enc_storage_entries(s: Seq<u8>, i: int, data: Seq<(StorageKey, Felt)>)
    requires
        unique_keys(data),
        data.len() <= u64::MAX,
        0 <= i,
        i + enc_storage_entries(data).len() <= s.len(),
        s.subrange(i, i + enc_storage_entries(data).len()) == enc_storage_entries(data),
    ensures
        dec_storage_entries(s, i) == Some((data, i + enc_storage_entries(data).len())),
{
    assert forall|x: StorageKey, ii: int|
        0 <= ii && ii + (#[trigger] enc_fn_storage_key()(x)).len() <= s.len() && s.subrange(
            ii,
            ii + enc_fn_storage_key()(x).len(),
        ) == enc_fn_storage_key()(x) implies #[trigger] dec_fn_storage_key()(s, ii) == Some::<(StorageKey, int)>(
        (x, ii + enc_fn_storage_key()(x).len()),
    ) by {
        crate::codec::lemma_enc_felt_len(x.0);
        lemma_dec_enc_storage_key(s, ii, x);
    }
    assert forall|y: Felt, ii: int|
        0 <= ii && ii + (#[trigger] enc_fn_felt()(y)).len() <= s.len() && s.subrange(
            ii,
            ii + enc_fn_felt()(y).len(),
        ) == enc_fn_felt()(y) implies #[trigger] dec_fn_felt()(s, ii) == Some::<(Felt, int)>(
        (y, ii + enc_fn_felt()(y).len()),
    ) by {
        crate::codec::lemma_enc_felt_len(y);
        lemma_dec_enc_felt(s, ii, y);
    }
    lemma_dec_enc_map(
        dec_fn_storage_key(),
        dec_fn_felt(),
        enc_fn_storage_key(),
        enc_fn_felt(),
        |y: Felt| true,
        s,
        i,
        data,
    );
}

/// A duplicate key in the encoded bytes fails the read.
pub proof fn lemma_dec_enc_storage_entries_dup(s: Seq<u8>, i: int, data: Seq<(StorageKey, Felt)>)
    requires
        !unique_keys(data),
        data.len() <= u64::MAX,
        0 <= i,
        i + enc_storage_entries(data).len() <= s.len(),
        s.subrange(i, i + enc_storage_entries(data).len()) == enc_storage_entries(data),
    ensures
        dec_storage_entries(s, i) is None,
{
    assert forall|x: StorageKey, ii: int|
        0 <= ii && ii + (#[trigger] enc_fn_storage_key()(x)).len() <= s.len() && s.subrange(
            ii,
            ii + enc_fn_storage_key()(x).len(),
        ) == enc_fn_storage_key()(x) implies #[trigger] dec_fn_storage_key()(s, ii) == Some::<(StorageKey, int)>(
        (x, ii + enc_fn_storage_key()(x).len()),
    ) by {
        crate::codec::lemma_enc_felt_len(x.0);
        lemma_dec_enc_storage_key(s, ii, x);
    }
    assert forall|y: Felt, ii: int|
        0 <= ii && ii + (#[trigger] enc_fn_felt()(y)).len() <= s.len() && s.subrange(
            ii,
            ii + enc_fn_felt()(y).len(),
        ) == enc_fn_felt()(y) implies #[trigger] dec_fn_felt()(s, ii) == Some::<(Felt, int)>(
        (y, ii + enc_fn_felt()(y).len()),
    ) by {
        crate::codec::lemma_enc_felt_len(y);
        lemma_dec_enc_felt(s, ii, y);
    }
    lemma_dec_enc_map_dup(
        dec_fn_storage_key(),
        dec_fn_felt(),
        enc_fn_storage_key(),
        enc_fn_felt(),
        |y: Felt| true,
        s,
        i,
        data,
    );
}


} // verus!
