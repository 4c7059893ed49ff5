//! The conditionally compressed tier of the codec.
//!
//! Transactions carry variable-length call data: short ones are stored raw,
//! long ones compressed. The encoder serializes the fields into one buffer;
//! past [`COMPRESSION_THRESHOLD_BYTES`] the buffer is compressed and tagged,
//! otherwise it is stored as it is. The decoder always reads the tag first
//! and branches on it; a tag byte that is not one of the known discriminants
//! fails the read.

use vstd::prelude::*;
use crate::codec::{
    dec_bytes,
    dec_contract_address,
    dec_nonce,
    dec_u128,
    dec_u8,
    dec_vec_felt,
    enc_bytes,
    enc_contract_address,
    enc_nonce,
    enc_u128,
    enc_vec_felt,
    lemma_dec_enc_bytes,
    lemma_dec_enc_contract_address,
    lemma_dec_enc_nonce,
    lemma_dec_enc_u128,
    lemma_dec_enc_vec_felt,
    lemma_sub_of_sub,
    read_bytes,
    read_u128,
    read_u8,
    read_vec_felt,
    write_bytes,
    write_u128,
    write_u8,
    write_vec_felt,
};
use crate::compress::{
    compress,
    decompress,
    zstd_inflate,
    COMPRESSION_THRESHOLD_BYTES,
    MAX_DECOMPRESSED_SIZE,
};
use crate::core_types::{ContractAddress, Felt, Nonce, StorageError};

verus! {

/// Whether a conditionally compressed body was stored compressed.
#[derive(Clone, Copy, Debug, PartialEq, Eq, Structural)]
pub enum IsCompressed {
    No,
    Yes,
}

/// The discriminant byte of the tag: zero for raw, one for compressed.
pub open spec fn enc_is_compressed(x: IsCompressed) -> Seq<u8> {
    match x {
        IsCompressed::No => seq![0u8],
        IsCompressed::Yes => seq![1u8],
    }
}

/// Reads the tag. A discriminant byte that is not a known tag fails the
/// read: decoding never guesses a variant.
pub open spec fn dec_is_compressed(s: Seq<u8>, i: int) -> Option<(IsCompressed, int)> {
    match dec_u8(s, i) {
        None => None,
        Some((b, j)) => if b == 0 {
            Some((IsCompressed::No, j))
        } else if b == 1 {
            Some((IsCompressed::Yes, j))
        } else {
            None
        },
    }
}

/// Tag robustness: a discriminant byte outside the known tags reads back as
/// an absent result, never as some variant.
pub proof fn lemma_unknown_tag_rejected(s: Seq<u8>, i: int)
    requires
        0 <= i < s.len(),
        s[i] != 0,
        s[i] != 1,
    ensures
        dec_is_compressed(s, i) is None,
        dec_invoke_transaction_v1(s, i) is None,
{
}

/// Round trip for the tag.
pub proof fn lemma_dec_enc_is_compressed(s: Seq<u8>, i: int, x: IsCompressed)
    requires
        0 <= i,
        i + 1 <= s.len(),
        s.subrange(i, i + 1) == enc_is_compressed(x),
    ensures
        dec_is_compressed(s, i) == Some((x, i + 1)),
{
    assert(s[i] == enc_is_compressed(x)[0]);
}

/// Appends the tag byte.
pub fn write_is_compressed(out: &mut Vec<u8>, x: IsCompressed)
    ensures
        final(out)@ == old(out)@ + enc_is_compressed(x),
{
    match x {
        IsCompressed::No => write_u8(out, 0),
        IsCompressed::Yes => write_u8(out, 1),
    }
}

/// Reads the tag, advancing the position on success.
pub fn read_is_compressed(v: &Vec<u8>, pos: &mut usize) -> (r: Option<IsCompressed>)
    ensures
        match dec_is_compressed(v@, *old(pos) as int) {
            Some((x, j)) => r == Some(x) && *final(pos) == j,
            None => r is None,
        },
{
    match read_u8(v, pos) {
        None => None,
        Some(b) => {
            if b == 0 {
                Some(IsCompressed::No)
            } else if b == 1 {
                Some(IsCompressed::Yes)
            } else {
                None
            }
        },
    }
}

/// An invoke transaction, first version: a call with variable-length call
/// data, the representative of the conditionally compressed tier.
#[derive(Clone, Debug, PartialEq, Eq)]
pub struct InvokeTransactionV1 {
    pub max_fee: u128,
    pub signature: Vec<Felt>,
    pub nonce: Nonce,
    pub sender_address: ContractAddress,
    pub calldata: Vec<Felt>,
}

/// The mathematical view of an invoke transaction.
#[verifier::ext_equal]
pub struct InvokeTransactionV1View {
    pub max_fee: u128,
    pub signature: Seq<Felt>,
    pub nonce: Nonce,
    pub sender_address: ContractAddress,
    pub calldata: Seq<Felt>,
}

impl View for InvokeTransactionV1 {
    type V = InvokeTransactionV1View;

    open spec fn view(&self) -> InvokeTransactionV1View {
        InvokeTransactionV1View {
            max_fee: self.max_fee,
            signature: self.signature@,
            nonce: self.nonce,
            sender_address: self.sender_address,
            calldata: self.calldata@,
        }
    }
}

impl InvokeTransactionV1View {
    /// Lengths fit the wire format's 64-bit counts.
    pub open spec fn wf(self) -> bool {
        &&& self.signature.len() <= u64::MAX
        &&& self.calldata.len() <= u64::MAX
    }
}

/// The uncompressed serialization of the transaction's fields.
pub open spec fn enc_invoke_v1_fields(t: InvokeTransactionV1View) -> Seq<u8> {
    enc_u128(t.max_fee) + enc_vec_felt(t.signature) + enc_nonce(t.nonce) + enc_contract_address(
        t.sender_address,
    ) + enc_vec_felt(t.calldata)
}

/// Reads the transaction's fields from an uncompressed buffer.
pub open spec fn dec_invoke_v1_fields(s: Seq<u8>, i: int) -> Option<
    (InvokeTransactionV1View, int),
> {
    match dec_u128(s, i) {
        None => None,
        Some((max_fee, a)) => match dec_vec_felt(s, a) {
            None => None,
            Some((signature, b)) => match dec_nonce(s, b) {
                None => None,
                Some((nonce, c)) => match dec_contract_address(s, c) {
                    None => None,
                    Some((sender_address, dd)) => match dec_vec_felt(s, dd) {
                        None => None,
                        Some((calldata, e)) => Some(
                            (
                                InvokeTransactionV1View {
                                    max_fee,
                                    signature,
                                    nonce,
                                    sender_address,
                                    calldata,
                                },
                                e,
                            ),
                        ),
                    },
                },
            },
        },
    }
}

/// Reads a stored transaction: the tag, then the length-prefixed body, raw
/// or compressed as the tag says.
pub open spec fn dec_invoke_transaction_v1(s: Seq<u8>, i: int) -> Option<
    (InvokeTransactionV1View, int),
> {
    match dec_is_compressed(s, i) {
        None => None,
        Some((tag, j)) => match dec_bytes(s, j) {
            None => None,
            Some((body, k)) => {
                let data = match tag {
                    IsCompressed::No => Some(body),
                    IsCompressed::Yes => zstd_inflate(body, MAX_DECOMPRESSED_SIZE as nat),
                };
                match data {
                    None => None,
                    Some(inner) => match dec_invoke_v1_fields(inner, 0) {
                        None => None,
                        Some((t, _end)) => Some((t, k)),
                    },
                }
            },
        },
    }
}

/// Round trip for the uncompressed fields.
#[verifier::rlimit(50)]
pub proof fn lemma_dec_enc_invoke_v1_fields(s: Seq<u8>, i: int, t: InvokeTransactionV1View)
    requires
        t.wf(),
        0 <= i,
        i + enc_invoke_v1_fields(t).len() <= s.len(),
        s.subrange(i, i + enc_invoke_v1_fields(t).len()) == enc_invoke_v1_fields(t),
    ensures
        dec_invoke_v1_fields(s, i) == Some((t, i + enc_invoke_v1_fields(t).len())),
{
    crate::bebytes::lemma_be_enc_len(t.max_fee as nat, 16);
    crate::codec::lemma_enc_felt_len(t.nonce.0);
    crate::codec::lemma_enc_felt_len(t.sender_address.0);
    let e1 = enc_u128(t.max_fee);
    let e2 = enc_vec_felt(t.signature);
    let e3 = enc_nonce(t.nonce);
    let e4 = enc_contract_address(t.sender_address);
    let e5 = enc_vec_felt(t.calldata);
    let total = enc_invoke_v1_fields(t).len() as int;
    let a = i + e1.len() as int;
    let b = a + e2.len() as int;
    let c = b + e3.len() as int;
    let dd = c + e4.len() as int;
    lemma_sub_of_sub(s, i, total, 0, e1.len() as int);
    assert(s.subrange(i, a) =~= e1);
    lemma_dec_enc_u128(s, i, t.max_fee);
    lemma_sub_of_sub(s, i, total, e1.len() as int, (e1.len() + e2.len()) as int);
    assert(s.subrange(a, b) =~= e2);
    lemma_dec_enc_vec_felt(s, a, t.signature);
    crate::codec::lemma_enc_felt_len(t.nonce.0);
    lemma_sub_of_sub(
        s,
        i,
        total,
        (e1.len() + e2.len()) as int,
        (e1.len() + e2.len() + e3.len()) as int,
    );
    assert(s.subrange(b, c) =~= e3);
    lemma_dec_enc_nonce(s, b, t.nonce);
    crate::codec::lemma_enc_felt_len(t.sender_address.0);
    lemma_sub_of_sub(
        s,
        i,
        total,
        (e1.len() + e2.len() + e3.len()) as int,
        (e1.len() + e2.len() + e3.len() + e4.len()) as int,
    );
    assert(s.subrange(c, dd) =~= e4);
    lemma_dec_enc_contract_address(s, c, t.sender_address);
    lemma_sub_of_sub(s, i, total, (e1.len() + e2.len() + e3.len() + e4.len()) as int, total);
    assert(s.subrange(dd, i + total) =~= e5);
    lemma_dec_enc_vec_felt(s, dd, t.calldata);
}

impl InvokeTransactionV1 {
    /// Serializes this transaction: its fields into one buffer, compressed
    /// only past the threshold, stored tagged and length-prefixed.
    pub fn serialize_into(&self, out: &mut Vec<u8>) -> (r: Result<(), StorageError>)
        ensures
            match r {
                Ok(_) => exists|tag: IsCompressed, c: Seq<u8>|
                    #![trigger enc_is_compressed(tag), enc_bytes(c)]
                    {
                        &&& final(out)@ == old(out)@ + enc_is_compressed(tag) + enc_bytes(c)
                        &&& c.len() <= u64::MAX
                        &&& match tag {
                            IsCompressed::No => c == enc_invoke_v1_fields(self@),
                            IsCompressed::Yes => enc_invoke_v1_fields(self@).len()
                                <= MAX_DECOMPRESSED_SIZE ==> zstd_inflate(
                                c,
                                MAX_DECOMPRESSED_SIZE as nat,
                            ) == Some(enc_invoke_v1_fields(self@)),
                        }
                    },
                Err(e) => *final(out) == *old(out) && e == StorageError::Compression,
            },
            enc_invoke_v1_fields(self@).len() <= COMPRESSION_THRESHOLD_BYTES ==> r is Ok,
    {
        let mut inner: Vec<u8> = Vec::new();
        write_u128(&mut inner, self.max_fee);
        write_vec_felt(&mut inner, &self.signature);
        self.nonce.serialize_into(&mut inner);
        self.sender_address.serialize_into(&mut inner);
        write_vec_felt(&mut inner, &self.calldata);
        assert(inner@ =~= enc_invoke_v1_fields(self@));
        if inner.len() > COMPRESSION_THRESHOLD_BYTES {
            let compressed = match compress(&inner) {
                Some(c) => c,
                None => {
                    return Err(StorageError::Compression);
                },
            };
            let clen: usize = compressed.len();
            write_is_compressed(out, IsCompressed::Yes);
            write_bytes(out, &compressed);
            proof {
                let cw = compressed@;
                assert(cw.len() == clen);
                assert(out@ =~= old(out)@ + enc_is_compressed(IsCompressed::Yes) + enc_bytes(cw));
            }
        } else {
            let ilen: usize = inner.len();
            write_is_compressed(out, IsCompressed::No);
            write_bytes(out, &inner);
            proof {
                let cw = inner@;
                assert(cw.len() == ilen);
                assert(out@ =~= old(out)@ + enc_is_compressed(IsCompressed::No) + enc_bytes(cw));
            }
        }
        Ok(())
    }

    /// Reads a stored transaction, advancing the position on success.
    pub fn deserialize_from(v: &Vec<u8>, pos: &mut usize) -> (r: Option<InvokeTransactionV1>)
        ensures
            match dec_invoke_transaction_v1(v@, *old(pos) as int) {
                Some((t, j)) => {
                    &&& r matches Some(out) && out@ == t
                    &&& *final(pos) == j
                },
                None => r is None,
            },
    {
        let tag = match read_is_compressed(v, pos) {
            Some(t) => t,
            None => {
                return None;
            },
        };
        let body = match read_bytes(v, pos) {
            Some(b) => b,
            None => {
                return None;
            },
        };
        let data = match tag {
            IsCompressed::No => body,
            IsCompressed::Yes => match decompress(&body) {
                Some(d) => d,
                None => {
                    return None;
                },
            },
        };
        let mut ipos: usize = 0;
        let max_fee = match read_u128(&data, &mut ipos) {
            Some(x) => x,
            None => {
                return None;
            },
        };
        let signature = match read_vec_felt(&data, &mut ipos) {
            Some(x) => x,
            None => {
                return None;
            },
        };
        let nonce = match Nonce::deserialize_from(&data, &mut ipos) {
            Some(x) => x,
            None => {
                return None;
            },
        };
        let sender_address = match ContractAddress::deserialize_from(&data, &mut ipos) {
            Some(x) => x,
            None => {
                return None;
            },
        };
        let calldata = match read_vec_felt(&data, &mut ipos) {
            Some(x) => x,
            None => {
                return None;
            },
        };
        let t = InvokeTransactionV1 { max_fee, signature, nonce, sender_address, calldata };
        proof {
            let got = dec_invoke_transaction_v1(v@, *old(pos) as int)->0;
            assert(t@ =~= got.0);
        }
        Some(t)
    }
}

/// A serialized transaction reads back as itself: the round trip of the
/// conditionally compressed tier, for bodies within the expansion bound.
pub proof fn lemma_invoke_v1_body_decodes(
    stream: Seq<u8>,
    tag: IsCompressed,
    c: Seq<u8>,
    t: InvokeTransactionV1View,
)
    requires
        t.wf(),
        stream == enc_is_compressed(tag) + enc_bytes(c),
        c.len() <= u64::MAX,
        match tag {
            IsCompressed::No => c == enc_invoke_v1_fields(t),
            IsCompressed::Yes => zstd_inflate(c, MAX_DECOMPRESSED_SIZE as nat) == Some(
                enc_invoke_v1_fields(t),
            ),
        },
    ensures
        dec_invoke_transaction_v1(stream, 0) == Some((t, stream.len() as int)),
{
    assert(stream.subrange(0, 1) =~= enc_is_compressed(tag));
    lemma_dec_enc_is_compressed(stream, 0, tag);
    assert(stream.subrange(1, (1 + enc_bytes(c).len()) as int) =~= enc_bytes(c));
    lemma_dec_enc_bytes(stream, 1, c);
    let inner = enc_invoke_v1_fields(t);
    assert(inner.subrange(0, inner.len() as int) =~= inner);
    lemma_dec_enc_invoke_v1_fields(inner, 0, t);
}

} // verus!
