//! The binary codec for primitive and scalar values.
//!
//! Each type has one encoding rule, stated as a pair of specification
//! functions: `enc_*` gives the exact bytes of a value, and `dec_*` gives the
//! result of reading the stream at a position — the decoded value and the
//! position after it, or `None` on malformed or truncated input. The
//! executable writers and readers are proved against those functions, and
//! round-trip lemmas show that decoding inverts encoding wherever the bytes
//! sit in a stream.

use vstd::prelude::*;
use crate::bebytes::{
    be_dec,
    be_enc,
    lemma_be_dec_bound,
    lemma_be_dec_enc,
    lemma_be_enc_len,
    pow256,
    push_be,
    read_be,
};
use crate::varint::{lemma_varint_dec_enc, read_varint, varint_dec, varint_enc, write_varint};
use crate::core_types::{
    BlockNumber,
    ClassHash,
    CompiledClassHash,
    ContractAddress,
    EntryPointSelector,
    Felt,
    IndexedDeprecatedContractClass,
    LocationInFile,
    Nonce,
    StorageKey,
    TransactionOffsetInBlock,
};

verus! {

/// Restates a slice of an already-sliced stream as a direct slice.
pub proof fn lemma_sub_of_sub(s: Seq<u8>, i: int, l: int, a: int, b: int)
    requires
        0 <= i,
        i + l <= s.len(),
        0 <= a <= b <= l,
    ensures
        s.subrange(i + a, i + b) == s.subrange(i, i + l).subrange(a, b),
{
    assert(s.subrange(i + a, i + b) =~= s.subrange(i, i + l).subrange(a, b));
}

// ---------------------------------------------------------------------------
// Single bytes and booleans.
// ---------------------------------------------------------------------------
/// A byte is stored as itself.
pub open spec fn enc_u8(x: u8) -> Seq<u8> {
    seq![x]
}

/// Reads one byte.
pub open spec fn dec_u8(s: Seq<u8>, i: int) -> Option<(u8, int)> {
    if 0 <= i && i + 1 <= s.len() {
        Some((s[i], i + 1))
    } else {
        None
    }
}

/// A boolean is one byte, zero for false; any other byte reads back as true.
pub open spec fn enc_bool(x: bool) -> Seq<u8> {
    if x {
        seq![1u8]
    } else {
        seq![0u8]
    }
}

/// Reads one byte as a boolean.
pub open spec fn dec_bool(s: Seq<u8>, i: int) -> Option<(bool, int)> {
    match dec_u8(s, i) {
        Some((b, j)) => Some((b != 0, j)),
        None => None,
    }
}

/// Appends one byte.
pub fn write_u8(out: &mut Vec<u8>, x: u8)
    ensures
        final(out)@ == old(out)@ + enc_u8(x),
{
    out.push(x);
    assert(out@ =~= old(out)@ + enc_u8(x));
}

/// Reads one byte, advancing the position on success.
pub fn read_u8(v: &Vec<u8>, pos: &mut usize) -> (r: Option<u8>)
    ensures
        match dec_u8(v@, *old(pos) as int) {
            Some((x, j)) => r == Some(x) && *final(pos) == j,
            None => r is None && *final(pos) == *old(pos),
        },
{
    if *pos < v.len() {
        let b = v[*pos];
        *pos = *pos + 1;
        Some(b)
    } else {
        None
    }
}

/// Appends a boolean as one byte.
pub fn write_bool(out: &mut Vec<u8>, x: bool)
    ensures
        final(out)@ == old(out)@ + enc_bool(x),
{
    if x {
        write_u8(out, 1);
    } else {
        write_u8(out, 0);
    }
}

/// Reads a boolean, advancing the position on success.
pub fn read_bool(v: &Vec<u8>, pos: &mut usize) -> (r: Option<bool>)
    ensures
        match dec_bool(v@, *old(pos) as int) {
            Some((x, j)) => r == Some(x) && *final(pos) == j,
            None => r is None,
        },
{
    match read_u8(v, pos) {
        Some(b) => Some(b != 0),
        None => None,
    }
}

/// Round trip for bytes.
pub proof fn lemma_dec_enc_u8(s: Seq<u8>, i: int, x: u8)
    requires
        0 <= i,
        i + 1 <= s.len(),
        s.subrange(i, i + 1) == enc_u8(x),
    ensures
        dec_u8(s, i) == Some((x, i + 1)),
{
    assert(s[i] == enc_u8(x)[0]);
}

/// Round trip for booleans.
pub proof fn lemma_dec_enc_bool(s: Seq<u8>, i: int, x: bool)
    requires
        0 <= i,
        i + 1 <= s.len(),
        s.subrange(i, i + 1) == enc_bool(x),
    ensures
        dec_bool(s, i) == Some((x, i + 1)),
{
    assert(s[i] == enc_bool(x)[0]);
}

// ---------------------------------------------------------------------------
// Fixed-width integers, big-endian.
// ---------------------------------------------------------------------------
/// A 32-bit integer is 4 bytes, big-endian.
pub open spec fn enc_u32(x: u32) -> Seq<u8> {
    be_enc(x as nat, 4)
}

/// Reads 4 bytes as a big-endian 32-bit integer.
pub open spec fn dec_u32(s: Seq<u8>, i: int) -> Option<(u32, int)> {
    if 0 <= i && i + 4 <= s.len() {
        Some((be_dec(s.subrange(i, i + 4)) as u32, i + 4))
    } else {
        None
    }
}

/// A 64-bit integer is 8 bytes, big-endian. Size-like integers are widened
/// to this form before encoding.
pub open spec fn enc_u64(x: u64) -> Seq<u8> {
    be_enc(x as nat, 8)
}

/// Reads 8 bytes as a big-endian 64-bit integer.
pub open spec fn dec_u64(s: Seq<u8>, i: int) -> Option<(u64, int)> {
    if 0 <= i && i + 8 <= s.len() {
        Some((be_dec(s.subrange(i, i + 8)) as u64, i + 8))
    } else {
        None
    }
}

/// A 128-bit integer is 16 bytes, big-endian.
pub open spec fn enc_u128(x: u128) -> Seq<u8> {
    be_enc(x as nat, 16)
}

/// Reads 16 bytes as a big-endian 128-bit integer.
pub open spec fn dec_u128(s: Seq<u8>, i: int) -> Option<(u128, int)> {
    if 0 <= i && i + 16 <= s.len() {
        Some((be_dec(s.subrange(i, i + 16)) as u128, i + 16))
    } else {
        None
    }
}

/// Appends a 32-bit integer.
pub fn write_u32(out: &mut Vec<u8>, x: u32)
    ensures
        final(out)@ == old(out)@ + enc_u32(x),
{
    proof {
        reveal_with_fuel(pow256, 5);
    }
    push_be(out, x as u128, 4);
}

/// Reads a 32-bit integer, advancing the position on success.
pub fn read_u32(v: &Vec<u8>, pos: &mut usize) -> (r: Option<u32>)
    ensures
        match dec_u32(v@, *old(pos) as int) {
            Some((x, j)) => r == Some(x) && *final(pos) == j,
            None => r is None && *final(pos) == *old(pos),
        },
{
    proof {
        reveal_with_fuel(pow256, 5);
        if *pos + 4 <= v@.len() {
            lemma_be_dec_bound(v@.subrange(*pos as int, *pos + 4));
        }
    }
    match read_be(v, pos, 4) {
        Some(x) => Some(x as u32),
        None => None,
    }
}

/// Appends a 64-bit integer.
pub fn write_u64(out: &mut Vec<u8>, x: u64)
    ensures
        final(out)@ == old(out)@ + enc_u64(x),
{
    proof {
        reveal_with_fuel(pow256, 9);
    }
    push_be(out, x as u128, 8);
}

/// Reads a 64-bit integer, advancing the position on success.
pub fn read_u64(v: &Vec<u8>, pos: &mut usize) -> (r: Option<u64>)
    ensures
        match dec_u64(v@, *old(pos) as int) {
            Some((x, j)) => r == Some(x) && *final(pos) == j,
            None => r is None && *final(pos) == *old(pos),
        },
{
    proof {
        reveal_with_fuel(pow256, 9);
        if *pos + 8 <= v@.len() {
            lemma_be_dec_bound(v@.subrange(*pos as int, *pos + 8));
        }
    }
    match read_be(v, pos, 8) {
        Some(x) => Some(x as u64),
        None => None,
    }
}

/// Appends a 128-bit integer.
pub fn write_u128(out: &mut Vec<u8>, x: u128)
    ensures
        final(out)@ == old(out)@ + enc_u128(x),
{
    proof {
        reveal_with_fuel(pow256, 17);
    }
    push_be(out, x, 16);
}

/// Reads a 128-bit integer, advancing the position on success.
pub fn read_u128(v: &Vec<u8>, pos: &mut usize) -> (r: Option<u128>)
    ensures
        match dec_u128(v@, *old(pos) as int) {
            Some((x, j)) => r == Some(x) && *final(pos) == j,
            None => r is None && *final(pos) == *old(pos),
        },
{
    read_be(v, pos, 16)
}

/// Round trip for 32-bit integers.
pub proof fn lemma_dec_enc_u32(s: Seq<u8>, i: int, x: u32)
    requires
        0 <= i,
        i + 4 <= s.len(),
        s.subrange(i, i + 4) == enc_u32(x),
    ensures
        dec_u32(s, i) == Some((x, i + 4)),
{
    reveal_with_fuel(pow256, 5);
    lemma_be_enc_len(x as nat, 4);
    lemma_be_dec_enc(x as nat, 4);
}

/// Round trip for 64-bit integers.
pub proof fn lemma_dec_enc_u64(s: Seq<u8>, i: int, x: u64)
    requires
        0 <= i,
        i + 8 <= s.len(),
        s.subrange(i, i + 8) == enc_u64(x),
    ensures
        dec_u64(s, i) == Some((x, i + 8)),
{
    reveal_with_fuel(pow256, 9);
    lemma_be_enc_len(x as nat, 8);
    lemma_be_dec_enc(x as nat, 8);
}

/// Round trip for 128-bit integers.
pub proof fn lemma_dec_enc_u128(s: Seq<u8>, i: int, x: u128)
    requires
        0 <= i,
        i + 16 <= s.len(),
        s.subrange(i, i + 16) == enc_u128(x),
    ensures
        dec_u128(s, i) == Some((x, i + 16)),
{
    reveal_with_fuel(pow256, 17);
    lemma_be_enc_len(x as nat, 16);
    lemma_be_dec_enc(x as nat, 16);
}

// ---------------------------------------------------------------------------
// Field elements and the types wrapping one.
// ---------------------------------------------------------------------------
/// A field element is 32 bytes: the high word then the low word.
pub open spec fn enc_felt(x: Felt) -> Seq<u8> {
    enc_u128(x.hi) + enc_u128(x.lo)
}

/// Reads 32 bytes as a field element.
pub open spec fn dec_felt(s: Seq<u8>, i: int) -> Option<(Felt, int)> {
    match dec_u128(s, i) {
        Some((hi, j)) => match dec_u128(s, j) {
            Some((lo, k)) => Some((Felt { hi, lo }, k)),
            None => None,
        },
        None => None,
    }
}

impl Felt {
    /// Appends the 32-byte form of this element.
    pub fn serialize_into(&self, out: &mut Vec<u8>)
        ensures
            final(out)@ == old(out)@ + enc_felt(*self),
    {
        write_u128(out, self.hi);
        write_u128(out, self.lo);
        assert(out@ =~= old(out)@ + enc_felt(*self));
    }

    /// Reads a field element, advancing the position on success.
    pub fn deserialize_from(v: &Vec<u8>, pos: &mut usize) -> (r: Option<Felt>)
        ensures
            match dec_felt(v@, *old(pos) as int) {
                Some((x, j)) => r == Some(x) && *final(pos) == j,
                None => r is None,
            },
    {
        let hi = match read_u128(v, pos) {
            Some(x) => x,
            None => {
                return None;
            },
        };
        let lo = match read_u128(v, pos) {
            Some(x) => x,
            None => {
                return None;
            },
        };
        Some(Felt { hi, lo })
    }
}

/// A field element encodes to exactly 32 bytes.
pub proof fn lemma_enc_felt_len(x: Felt)
    ensures
        enc_felt(x).len() == 32,
{
    lemma_be_enc_len(x.hi as nat, 16);
    lemma_be_enc_len(x.lo as nat, 16);
}

/// Round trip for field elements.
pub proof fn lemma_dec_enc_felt(s: Seq<u8>, i: int, x: Felt)
    requires
        0 <= i,
        i + 32 <= s.len(),
        s.subrange(i, i + 32) == enc_felt(x),
    ensures
        dec_felt(s, i) == Some((x, i + 32)),
{
    lemma_be_enc_len(x.hi as nat, 16);
    lemma_be_enc_len(x.lo as nat, 16);
    lemma_sub_of_sub(s, i, 32, 0, 16);
    assert(s.subrange(i, i + 16) =~= enc_u128(x.hi));
    lemma_sub_of_sub(s, i, 32, 16, 32);
    assert(s.subrange(i + 16, i + 32) =~= enc_u128(x.lo));
    lemma_dec_enc_u128(s, i, x.hi);
    lemma_dec_enc_u128(s, i + 16, x.lo);
}

// ---------------------------------------------------------------------------
// Block numbers and transaction offsets: deliberately narrow encodings.
// ---------------------------------------------------------------------------
/// A block number is stored in 4 bytes rather than its natural 8: the chain
/// is bounded to block numbers below 2^32.
pub open spec fn enc_block_number(x: BlockNumber) -> Seq<u8> {
    be_enc(x.0 as nat, 4)
}

/// Reads 4 bytes as a block number.
pub open spec fn dec_block_number(s: Seq<u8>, i: int) -> Option<(BlockNumber, int)> {
    match dec_u32(s, i) {
        Some((x, j)) => Some((BlockNumber(x as u64), j)),
        None => None,
    }
}

impl BlockNumber {
    /// Appends the 4-byte form of this block number.
    pub fn serialize_into(&self, out: &mut Vec<u8>)
        requires
            self.in_range(),
        ensures
            final(out)@ == old(out)@ + enc_block_number(*self),
    {
        proof {
            reveal_with_fuel(pow256, 5);
        }
        push_be(out, self.0 as u128, 4);
    }

    /// Reads a block number, advancing the position on success.
    pub fn deserialize_from(v: &Vec<u8>, pos: &mut usize) -> (r: Option<BlockNumber>)
        ensures
            match dec_block_number(v@, *old(pos) as int) {
                Some((x, j)) => r == Some(x) && *final(pos) == j,
                None => r is None,
            },
    {
        match read_u32(v, pos) {
            Some(x) => Some(BlockNumber(x as u64)),
            None => None,
        }
    }
}

/// Round trip for block numbers in the 4-byte range.
pub proof fn lemma_dec_enc_block_number(s: Seq<u8>, i: int, x: BlockNumber)
    requires
        0 <= i,
        i + 4 <= s.len(),
        x.in_range(),
        s.subrange(i, i + 4) == enc_block_number(x),
    ensures
        dec_block_number(s, i) == Some((x, i + 4)),
{
    reveal_with_fuel(pow256, 5);
    lemma_be_enc_len(x.0 as nat, 4);
    lemma_be_dec_enc(x.0 as nat, 4);
}

/// A transaction offset is stored in 3 bytes, capping a block at about 16
/// million transactions.
pub open spec fn enc_tx_offset(x: TransactionOffsetInBlock) -> Seq<u8> {
    be_enc(x.0 as nat, 3)
}

/// Reads 3 bytes as a transaction offset.
pub open spec fn dec_tx_offset(s: Seq<u8>, i: int) -> Option<(TransactionOffsetInBlock, int)> {
    if 0 <= i && i + 3 <= s.len() {
        Some((TransactionOffsetInBlock(be_dec(s.subrange(i, i + 3)) as u64), i + 3))
    } else {
        None
    }
}

impl TransactionOffsetInBlock {
    /// Appends the 3-byte form of this offset.
    pub fn serialize_into(&self, out: &mut Vec<u8>)
        requires
            self.in_range(),
        ensures
            final(out)@ == old(out)@ + enc_tx_offset(*self),
    {
        proof {
            reveal_with_fuel(pow256, 4);
        }
        push_be(out, self.0 as u128, 3);
    }

    /// Reads a transaction offset, advancing the position on success.
    pub fn deserialize_from(v: &Vec<u8>, pos: &mut usize) -> (r: Option<TransactionOffsetInBlock>)
        ensures
            match dec_tx_offset(v@, *old(pos) as int) {
                Some((x, j)) => r == Some(x) && *final(pos) == j,
                None => r is None,
            },
    {
        proof {
            reveal_with_fuel(pow256, 4);
            if *pos + 3 <= v@.len() {
                lemma_be_dec_bound(v@.subrange(*pos as int, *pos + 3));
            }
        }
        match read_be(v, pos, 3) {
            Some(x) => Some(TransactionOffsetInBlock(x as u64)),
            None => None,
        }
    }
}

/// Round trip for transaction offsets in the 3-byte range.
pub proof fn lemma_dec_enc_tx_offset(s: Seq<u8>, i: int, x: TransactionOffsetInBlock)
    requires
        0 <= i,
        i + 3 <= s.len(),
        x.in_range(),
        s.subrange(i, i + 3) == enc_tx_offset(x),
    ensures
        dec_tx_offset(s, i) == Some((x, i + 3)),
{
    reveal_with_fuel(pow256, 4);
    lemma_be_enc_len(x.0 as nat, 3);
    lemma_be_dec_enc(x.0 as nat, 3);
}

// ---------------------------------------------------------------------------
// Variable-length byte strings.
// ---------------------------------------------------------------------------
/// A byte string is its length as a variable-length integer, then its raw
/// bytes. Text is stored the same way, as its UTF-8 bytes.
pub open spec fn enc_bytes(data: Seq<u8>) -> Seq<u8> {
    varint_enc(data.len() as u64) + data
}

/// Reads a length-prefixed byte string.
pub open spec fn dec_bytes(s: Seq<u8>, i: int) -> Option<(Seq<u8>, int)> {
    match varint_dec(s, i) {
        Some((n, j)) => if j + n <= s.len() {
            Some((s.subrange(j, j + n), j + n))
        } else {
            None
        },
        None => None,
    }
}

/// Appends a length-prefixed byte string.
pub fn write_bytes(out: &mut Vec<u8>, data: &Vec<u8>)
    ensures
        final(out)@ == old(out)@ + enc_bytes(data@),
{
    write_varint(out, data.len() as u64);
    let mut k: usize = 0;
    while k < data.len()
        invariant
            k <= data@.len(),
            out@ == old(out)@ + varint_enc(data@.len() as u64) + data@.subrange(0, k as int),
        decreases data@.len() - k,
    {
        out.push(data[k]);
        k = k + 1;
        assert(out@ =~= old(out)@ + varint_enc(data@.len() as u64) + data@.subrange(0, k as int));
    }
    assert(data@.subrange(0, data@.len() as int) =~= data@);
    assert(out@ =~= old(out)@ + enc_bytes(data@));
}

/// Reads a length-prefixed byte string, advancing the position on success.
pub fn read_bytes(v: &Vec<u8>, pos: &mut usize) -> (r: Option<Vec<u8>>)
    ensures
        match dec_bytes(v@, *old(pos) as int) {
            Some((data, j)) => {
                &&& r matches Some(out) && out@ == data
                &&& *final(pos) == j
            },
            None => r is None,
        },
{
    proof {
        crate::varint::lemma_varint_dec_bounds(v@, *pos as int);
    }
    let n = match read_varint(v, pos) {
        Some(n) => n,
        None => {
            return None;
        },
    };
    if n > (v.len() - *pos) as u64 {
        return None;
    }
    let count: usize = n as usize;
    let start: usize = *pos;
    let vlen: usize = v.len();
    let mut res: Vec<u8> = Vec::new();
    let mut k: usize = 0;
    while k < count
        invariant
            k <= count,
            start + count <= vlen,
            vlen == v@.len(),
            res@ == v@.subrange(start as int, start + k),
        decreases count - k,
    {
        res.push(v[start + k]);
        k = k + 1;
        assert(res@ =~= v@.subrange(start as int, start + k));
    }
    *pos = start + count;
    Some(res)
}

/// Round trip for byte strings.
pub proof fn lemma_dec_enc_bytes(s: Seq<u8>, i: int, data: Seq<u8>)
    requires
        0 <= i,
        data.len() <= u64::MAX,
        i + enc_bytes(data).len() <= s.len(),
        s.subrange(i, i + enc_bytes(data).len()) == enc_bytes(data),
    ensures
        dec_bytes(s, i) == Some((data, i + enc_bytes(data).len())),
{
    let lenbytes = varint_enc(data.len() as u64);
    let total = enc_bytes(data).len() as int;
    lemma_sub_of_sub(s, i, total, 0, lenbytes.len() as int);
    assert(s.subrange(i, i + lenbytes.len()) =~= lenbytes);
    lemma_varint_dec_enc(s, i, data.len() as u64);
    let j = i + lenbytes.len() as int;
    lemma_sub_of_sub(s, i, total, lenbytes.len() as int, total);
    assert(s.subrange(j, i + total) =~= data);
}

// ---------------------------------------------------------------------------
// Sequences of field elements.
// ---------------------------------------------------------------------------
/// The elements of a sequence of field elements, back to back.
pub open spec fn enc_felt_list(s: Seq<Felt>) -> Seq<u8>
    decreases s.len(),
{
    if s.len() == 0 {
        Seq::empty()
    } else {
        enc_felt(s[0]) + enc_felt_list(s.drop_first())
    }
}

/// A sequence of field elements: its length, then the elements in order.
pub open spec fn enc_vec_felt(s: Seq<Felt>) -> Seq<u8> {
    varint_enc(s.len() as u64) + enc_felt_list(s)
}

/// Reads `n` field elements back to back.
pub open spec fn dec_felt_list(s: Seq<u8>, i: int, n: nat) -> Option<(Seq<Felt>, int)>
    decreases n,
{
    if n == 0 {
        Some((Seq::empty(), i))
    } else {
        match dec_felt(s, i) {
            None => None,
            Some((x, j)) => match dec_felt_list(s, j, (n - 1) as nat) {
                None => None,
                Some((rest, k)) => Some((seq![x] + rest, k)),
            },
        }
    }
}

/// Reads a length-prefixed sequence of field elements.
pub open spec fn dec_vec_felt(s: Seq<u8>, i: int) -> Option<(Seq<Felt>, int)> {
    match varint_dec(s, i) {
        Some((n, j)) => dec_felt_list(s, j, n as nat),
        None => None,
    }
}

/// Encoding one more element appends its bytes.
pub proof fn lemma_enc_felt_list_snoc(s: Seq<Felt>, x: Felt)
    ensures
        enc_felt_list(s.push(x)) == enc_felt_list(s) + enc_felt(x),
    decreases s.len(),
{
    if s.len() == 0 {
        assert(s.push(x).drop_first() =~= Seq::<Felt>::empty());
        assert(s =~= Seq::<Felt>::empty());
        assert(enc_felt_list(Seq::<Felt>::empty()) == Seq::<u8>::empty());
        assert(enc_felt_list(s.push(x)) == enc_felt(x) + enc_felt_list(Seq::<Felt>::empty()));
        assert(enc_felt_list(s.push(x)) =~= enc_felt_list(s) + enc_felt(x));
    } else {
        assert(s.push(x).drop_first() =~= s.drop_first().push(x));
        assert(enc_felt_list(s.push(x)) == enc_felt(s[0]) + enc_felt_list(s.drop_first().push(x)));
        lemma_enc_felt_list_snoc(s.drop_first(), x);
        assert(enc_felt_list(s.push(x)) =~= enc_felt_list(s) + enc_felt(x));
    }
}

/// Appends a length-prefixed sequence of field elements.
pub fn write_vec_felt(out: &mut Vec<u8>, data: &Vec<Felt>)
    ensures
        final(out)@ == old(out)@ + enc_vec_felt(data@),
{
    write_varint(out, data.len() as u64);
    let mut k: usize = 0;
    while k < data.len()
        invariant
            k <= data@.len(),
            out@ == old(out)@ + varint_enc(data@.len() as u64) + enc_felt_list(
                data@.subrange(0, k as int),
            ),
        decreases data@.len() - k,
    {
        data[k].serialize_into(out);
        k = k + 1;
        proof {
            assert(data@.subrange(0, k as int) =~= data@.subrange(0, k - 1).push(data@[k - 1]));
            lemma_enc_felt_list_snoc(data@.subrange(0, k - 1), data@[k - 1]);
            assert(out@ =~= old(out)@ + varint_enc(data@.len() as u64) + enc_felt_list(
                data@.subrange(0, k as int),
            ));
        }
    }
    assert(data@.subrange(0, data@.len() as int) =~= data@);
    assert(out@ =~= old(out)@ + enc_vec_felt(data@));
}

/// Reads a length-prefixed sequence of field elements, advancing the
/// position on success.
pub fn read_vec_felt(v: &Vec<u8>, pos: &mut usize) -> (r: Option<Vec<Felt>>)
    ensures
        match dec_vec_felt(v@, *old(pos) as int) {
            Some((data, j)) => {
                &&& r matches Some(out) && out@ == data
                &&& *final(pos) == j
            },
            None => r is None,
        },
{
    let n = match read_varint(v, pos) {
        Some(n) => n,
        None => {
            return None;
        },
    };
    let ghost j0 = *pos as int;
    let mut res: Vec<Felt> = Vec::new();
    let mut k: u64 = 0;
    while k < n
        invariant
            k <= n,
            res@.len() == k,
            dec_vec_felt(v@, *old(pos) as int) == dec_felt_list(v@, j0, n as nat),
            match dec_felt_list(v@, *pos as int, (n - k) as nat) {
                Some((rest, end)) => dec_felt_list(v@, j0, n as nat) == Some::<(Seq<Felt>, int)>((
                    res@ + rest,
                    end,
                )),
                None => dec_felt_list(v@, j0, n as nat) is None,
            },
        decreases n - k,
    {
        let ghost res_before = res@;
        let x = match Felt::deserialize_from(v, pos) {
            Some(x) => x,
            None => {
                return None;
            },
        };
        res.push(x);
        k = k + 1;
        proof {
            match dec_felt_list(v@, *pos as int, (n - k) as nat) {
                Some((rest, end)) => {
                    assert(res_before + (seq![x] + rest) =~= res@ + rest);
                },
                None => {},
            }
        }
    }
    assert(res@ + Seq::<Felt>::empty() =~= res@);
    Some(res)
}

/// Round trip for sequences of field elements.
pub proof fn lemma_dec_enc_felt_list(s: Seq<u8>, i: int, data: Seq<Felt>)
    requires
        0 <= i,
        i + enc_felt_list(data).len() <= s.len(),
        s.subrange(i, i + enc_felt_list(data).len()) == enc_felt_list(data),
    ensures
        dec_felt_list(s, i, data.len()) == Some((data, i + enc_felt_list(data).len())),
    decreases data.len(),
{
    if data.len() == 0 {
        assert(dec_felt_list(s, i, 0) == Some((Seq::<Felt>::empty(), i)));
        assert(data =~= Seq::<Felt>::empty());
    } else {
        let head = enc_felt(data[0]);
        let tail = enc_felt_list(data.drop_first());
        let total = enc_felt_list(data).len() as int;
        assert(head.len() == 32) by {
            lemma_be_enc_len(data[0].hi as nat, 16);
            lemma_be_enc_len(data[0].lo as nat, 16);
        }
        lemma_sub_of_sub(s, i, total, 0, 32);
        assert(s.subrange(i, i + 32) =~= head);
        lemma_dec_enc_felt(s, i, data[0]);
        lemma_sub_of_sub(s, i, total, 32, total);
        assert(s.subrange(i + 32, i + total) =~= tail);
        lemma_dec_enc_felt_list(s, i + 32, data.drop_first());
        assert(seq![data[0]] + data.drop_first() =~= data);
    }
}

/// Round trip for length-prefixed sequences of field elements.
pub proof fn lemma_dec_enc_vec_felt(s: Seq<u8>, i: int, data: Seq<Felt>)
    requires
        0 <= i,
        data.len() <= u64::MAX,
        i + enc_vec_felt(data).len() <= s.len(),
        s.subrange(i, i + enc_vec_felt(data).len()) == enc_vec_felt(data),
    ensures
        dec_vec_felt(s, i) == Some((data, i + enc_vec_felt(data).len())),
{
    let lenbytes = varint_enc(data.len() as u64);
    let total = enc_vec_felt(data).len() as int;
    lemma_sub_of_sub(s, i, total, 0, lenbytes.len() as int);
    assert(s.subrange(i, i + lenbytes.len()) =~= lenbytes);
    lemma_varint_dec_enc(s, i, data.len() as u64);
    let j = i + lenbytes.len() as int;
    lemma_sub_of_sub(s, i, total, lenbytes.len() as int, total);
    assert(s.subrange(j, i + total) =~= enc_felt_list(data));
    lemma_dec_enc_felt_list(s, j, data);
}

// ---------------------------------------------------------------------------
// Types wrapping a single field element share its 32-byte layout.
// ---------------------------------------------------------------------------

/// A contract address is stored as its field element.
pub open spec fn enc_contract_address(x: ContractAddress) -> Seq<u8> {
    enc_felt(x.0)
}

/// Reads a contract address.
pub open spec fn dec_contract_address(s: Seq<u8>, i: int) -> Option<(ContractAddress, int)> {
    match dec_felt(s, i) {
        Some((x, j)) => Some((ContractAddress(x), j)),
        None => None,
    }
}

impl ContractAddress {
    /// Appends the 32-byte form of this value.
    pub fn serialize_into(&self, out: &mut Vec<u8>)
        ensures
            final(out)@ == old(out)@ + enc_contract_address(*self),
    {
        self.0.serialize_into(out);
    }

    /// Reads a value of this type, advancing the position on success.
    pub fn deserialize_from(v: &Vec<u8>, pos: &mut usize) -> (r: Option<ContractAddress>)
        ensures
            match dec_contract_address(v@, *old(pos) as int) {
                Some((x, j)) => r == Some(x) && *final(pos) == j,
                None => r is None,
            },
    {
        match Felt::deserialize_from(v, pos) {
            Some(x) => Some(ContractAddress(x)),
            None => None,
        }
    }
}

/// Round trip for this wrapper.
pub proof fn lemma_dec_enc_contract_address(s: Seq<u8>, i: int, x: ContractAddress)
    requires
        0 <= i,
        i + 32 <= s.len(),
        s.subrange(i, i + 32) == enc_contract_address(x),
    ensures
        dec_contract_address(s, i) == Some((x, i + 32)),
{
    lemma_dec_enc_felt(s, i, x.0);
}

/// A class hash is stored as its field element.
pub open spec fn enc_class_hash(x: ClassHash) -> Seq<u8> {
    enc_felt(x.0)
}

/// Reads a class hash.
pub open spec fn dec_class_hash(s: Seq<u8>, i: int) -> Option<(ClassHash, int)> {
    match dec_felt(s, i) {
        Some((x, j)) => Some((ClassHash(x), j)),
        None => None,
    }
}

impl ClassHash {
    /// Appends the 32-byte form of this value.
    pub fn serialize_into(&self, out: &mut Vec<u8>)
        ensures
            final(out)@ == old(out)@ + enc_class_hash(*self),
    {
        self.0.serialize_into(out);
    }

    /// Reads a value of this type, advancing the position on success.
    pub fn deserialize_from(v: &Vec<u8>, pos: &mut usize) -> (r: Option<ClassHash>)
        ensures
            match dec_class_hash(v@, *old(pos) as int) {
                Some((x, j)) => r == Some(x) && *final(pos) == j,
                None => r is None,
            },
    {
        match Felt::deserialize_from(v, pos) {
            Some(x) => Some(ClassHash(x)),
            None => None,
        }
    }
}

/// Round trip for this wrapper.
pub proof fn lemma_dec_enc_class_hash(s: Seq<u8>, i: int, x: ClassHash)
    requires
        0 <= i,
        i + 32 <= s.len(),
        s.subrange(i, i + 32) == enc_class_hash(x),
    ensures
        dec_class_hash(s, i) == Some((x, i + 32)),
{
    lemma_dec_enc_felt(s, i, x.0);
}

/// A compiled class hash is stored as its field element.
pub open spec fn enc_compiled_class_hash(x: CompiledClassHash) -> Seq<u8> {
    enc_felt(x.0)
}

/// Reads a compiled class hash.
pub open spec fn dec_compiled_class_hash(s: Seq<u8>, i: int) -> Option<(CompiledClassHash, int)> {
    match dec_felt(s, i) {
        Some((x, j)) => Some((CompiledClassHash(x), j)),
        None => None,
    }
}

impl CompiledClassHash {
    /// Appends the 32-byte form of this value.
    pub fn serialize_into(&self, out: &mut Vec<u8>)
        ensures
            final(out)@ == old(out)@ + enc_compiled_class_hash(*self),
    {
        self.0.serialize_into(out);
    }

    /// Reads a value of this type, advancing the position on success.
    pub fn deserialize_from(v: &Vec<u8>, pos: &mut usize) -> (r: Option<CompiledClassHash>)
        ensures
            match dec_compiled_class_hash(v@, *old(pos) as int) {
                Some((x, j)) => r == Some(x) && *final(pos) == j,
                None => r is None,
            },
    {
        match Felt::deserialize_from(v, pos) {
            Some(x) => Some(CompiledClassHash(x)),
            None => None,
        }
    }
}

/// Round trip for this wrapper.
pub proof fn lemma_dec_enc_compiled_class_hash(s: Seq<u8>, i: int, x: CompiledClassHash)
    requires
        0 <= i,
        i + 32 <= s.len(),
        s.subrange(i, i + 32) == enc_compiled_class_hash(x),
    ensures
        dec_compiled_class_hash(s, i) == Some((x, i + 32)),
{
    lemma_dec_enc_felt(s, i, x.0);
}

/// A nonce is stored as its field element.
pub open spec fn enc_nonce(x: Nonce) -> Seq<u8> {
    enc_felt(x.0)
}

/// Reads a nonce.
pub open spec fn dec_nonce(s: Seq<u8>, i: int) -> Option<(Nonce, int)> {
    match dec_felt(s, i) {
        Some((x, j)) => Some((Nonce(x), j)),
        None => None,
    }
}

impl Nonce {
    /// Appends the 32-byte form of this value.
    pub fn serialize_into(&self, out: &mut Vec<u8>)
        ensures
            final(out)@ == old(out)@ + enc_nonce(*self),
    {
        self.0.serialize_into(out);
    }

    /// Reads a value of this type, advancing the position on success.
    pub fn deserialize_from(v: &Vec<u8>, pos: &mut usize) -> (r: Option<Nonce>)
        ensures
            match dec_nonce(v@, *old(pos) as int) {
                Some((x, j)) => r == Some(x) && *final(pos) == j,
                None => r is None,
            },
    {
        match Felt::deserialize_from(v, pos) {
            Some(x) => Some(Nonce(x)),
            None => None,
        }
    }
}

/// Round trip for this wrapper.
pub proof fn lemma_dec_enc_nonce(s: Seq<u8>, i: int, x: Nonce)
    requires
        0 <= i,
        i + 32 <= s.len(),
        s.subrange(i, i + 32) == enc_nonce(x),
    ensures
        dec_nonce(s, i) == Some((x, i + 32)),
{
    lemma_dec_enc_felt(s, i, x.0);
}

/// A storage key is stored as its field element.
pub open spec fn enc_storage_key(x: StorageKey) -> Seq<u8> {
    enc_felt(x.0)
}

/// Reads a storage key.
pub open spec fn dec_storage_key(s: Seq<u8>, i: int) -> Option<(StorageKey, int)> {
    match dec_felt(s, i) {
        Some((x, j)) => Some((StorageKey(x), j)),
        None => None,
    }
}

impl StorageKey {
    /// Appends the 32-byte form of this value.
    pub fn serialize_into(&self, out: &mut Vec<u8>)
        ensures
            final(out)@ == old(out)@ + enc_storage_key(*self),
    {
        self.0.serialize_into(out);
    }

    /// Reads a value of this type, advancing the position on success.
    pub fn deserialize_from(v: &Vec<u8>, pos: &mut usize) -> (r: Option<StorageKey>)
        ensures
            match dec_storage_key(v@, *old(pos) as int) {
                Some((x, j)) => r == Some(x) && *final(pos) == j,
                None => r is None,
            },
    {
        match Felt::deserialize_from(v, pos) {
            Some(x) => Some(StorageKey(x)),
            None => None,
        }
    }
}

/// Round trip for this wrapper.
pub proof fn lemma_dec_enc_storage_key(s: Seq<u8>, i: int, x: StorageKey)
    requires
        0 <= i,
        i + 32 <= s.len(),
        s.subrange(i, i + 32) == enc_storage_key(x),
    ensures
        dec_storage_key(s, i) == Some((x, i + 32)),
{
    lemma_dec_enc_felt(s, i, x.0);
}

/// A entry point selector is stored as its field element.
pub open spec fn enc_entry_point_selector(x: EntryPointSelector) -> Seq<u8> {
    enc_felt(x.0)
}

/// Reads a entry point selector.
pub open spec fn dec_entry_point_selector(s: Seq<u8>, i: int) -> Option<(EntryPointSelector, int)> {
    match dec_felt(s, i) {
        Some((x, j)) => Some((EntryPointSelector(x), j)),
        None => None,
    }
}

impl EntryPointSelector {
    /// Appends the 32-byte form of this value.
    pub fn serialize_into(&self, out: &mut Vec<u8>)
        ensures
            final(out)@ == old(out)@ + enc_entry_point_selector(*self),
    {
        self.0.serialize_into(out);
    }

    /// Reads a value of this type, advancing the position on success.
    pub fn deserialize_from(v: &Vec<u8>, pos: &mut usize) -> (r: Option<EntryPointSelector>)
        ensures
            match dec_entry_point_selector(v@, *old(pos) as int) {
                Some((x, j)) => r == Some(x) && *final(pos) == j,
                None => r is None,
            },
    {
        match Felt::deserialize_from(v, pos) {
            Some(x) => Some(EntryPointSelector(x)),
            None => None,
        }
    }
}

/// Round trip for this wrapper.
pub proof fn lemma_dec_enc_entry_point_selector(s: Seq<u8>, i: int, x: EntryPointSelector)
    requires
        0 <= i,
        i + 32 <= s.len(),
        s.subrange(i, i + 32) == enc_entry_point_selector(x),
    ensures
        dec_entry_point_selector(s, i) == Some((x, i + 32)),
{
    lemma_dec_enc_felt(s, i, x.0);
}

// ---------------------------------------------------------------------------
// Blob file locations.
// ---------------------------------------------------------------------------
/// A blob location is its offset then its length, both widened to 64 bits.
pub open spec fn enc_location(x: LocationInFile) -> Seq<u8> {
    enc_u64(x.offset) + enc_u64(x.len)
}

/// Reads a blob location.
pub open spec fn dec_location(s: Seq<u8>, i: int) -> Option<(LocationInFile, int)> {
    match dec_u64(s, i) {
        Some((offset, j)) => match dec_u64(s, j) {
            Some((len, k)) => Some((LocationInFile { offset, len }, k)),
            None => None,
        },
        None => None,
    }
}

impl LocationInFile {
    /// Appends the 16-byte form of this location.
    pub fn serialize_into(&self, out: &mut Vec<u8>)
        ensures
            final(out)@ == old(out)@ + enc_location(*self),
    {
        write_u64(out, self.offset);
        write_u64(out, self.len);
        assert(out@ =~= old(out)@ + enc_location(*self));
    }

    /// Reads a location, advancing the position on success.
    pub fn deserialize_from(v: &Vec<u8>, pos: &mut usize) -> (r: Option<LocationInFile>)
        ensures
            match dec_location(v@, *old(pos) as int) {
                Some((x, j)) => r == Some(x) && *final(pos) == j,
                None => r is None,
            },
    {
        let offset = match read_u64(v, pos) {
            Some(x) => x,
            None => {
                return None;
            },
        };
        let len = match read_u64(v, pos) {
            Some(x) => x,
            None => {
                return None;
            },
        };
        Some(LocationInFile { offset, len })
    }
}

/// Round trip for blob locations.
pub proof fn lemma_dec_enc_location(s: Seq<u8>, i: int, x: LocationInFile)
    requires
        0 <= i,
        i + 16 <= s.len(),
        s.subrange(i, i + 16) == enc_location(x),
    ensures
        dec_location(s, i) == Some((x, i + 16)),
{
    lemma_be_enc_len(x.offset as nat, 8);
    lemma_be_enc_len(x.len as nat, 8);
    lemma_sub_of_sub(s, i, 16, 0, 8);
    assert(s.subrange(i, i + 8) =~= enc_u64(x.offset));
    lemma_sub_of_sub(s, i, 16, 8, 16);
    assert(s.subrange(i + 8, i + 16) =~= enc_u64(x.len));
    lemma_dec_enc_u64(s, i, x.offset);
    lemma_dec_enc_u64(s, i + 8, x.len);
}

// ---------------------------------------------------------------------------
// Legacy class index entries.
// ---------------------------------------------------------------------------
/// A legacy class index entry is its first-declared block then the body's
/// location.
pub open spec fn enc_indexed_deprecated(x: IndexedDeprecatedContractClass) -> Seq<u8> {
    enc_block_number(x.block_number) + enc_location(x.location_in_file)
}

/// Reads a legacy class index entry.
pub open spec fn dec_indexed_deprecated(s: Seq<u8>, i: int) -> Option<
    (IndexedDeprecatedContractClass, int),
> {
    match dec_block_number(s, i) {
        Some((block_number, j)) => match dec_location(s, j) {
            Some((location_in_file, k)) => Some(
                (IndexedDeprecatedContractClass { block_number, location_in_file }, k),
            ),
            None => None,
        },
        None => None,
    }
}

impl IndexedDeprecatedContractClass {
    /// Appends the 20-byte form of this entry.
    pub fn serialize_into(&self, out: &mut Vec<u8>)
        requires
            self.block_number.in_range(),
        ensures
            final(out)@ == old(out)@ + enc_indexed_deprecated(*self),
    {
        self.block_number.serialize_into(out);
        self.location_in_file.serialize_into(out);
        assert(out@ =~= old(out)@ + enc_indexed_deprecated(*self));
    }

    /// Reads an entry, advancing the position on success.
    pub fn deserialize_from(v: &Vec<u8>, pos: &mut usize) -> (r: Option<
        IndexedDeprecatedContractClass,
    >)
        ensures
            match dec_indexed_deprecated(v@, *old(pos) as int) {
                Some((x, j)) => r == Some(x) && *final(pos) == j,
                None => r is None,
            },
    {
        let block_number = match BlockNumber::deserialize_from(v, pos) {
            Some(x) => x,
            None => {
                return None;
            },
        };
        let location_in_file = match LocationInFile::deserialize_from(v, pos) {
            Some(x) => x,
            None => {
                return None;
            },
        };
        Some(IndexedDeprecatedContractClass { block_number, location_in_file })
    }
}

/// Round trip for legacy class index entries.
pub proof fn lemma_dec_enc_indexed_deprecated(s: Seq<u8>, i: int, x: IndexedDeprecatedContractClass)
    requires
        0 <= i,
        i + 20 <= s.len(),
        x.block_number.in_range(),
        s.subrange(i, i + 20) == enc_indexed_deprecated(x),
    ensures
        dec_indexed_deprecated(s, i) == Some((x, i + 20)),
{
    lemma_be_enc_len(x.block_number.0 as nat, 4);
    lemma_be_enc_len(x.location_in_file.offset as nat, 8);
    lemma_be_enc_len(x.location_in_file.len as nat, 8);
    lemma_sub_of_sub(s, i, 20, 0, 4);
    assert(s.subrange(i, i + 4) =~= enc_block_number(x.block_number));
    lemma_sub_of_sub(s, i, 20, 4, 20);
    assert(s.subrange(i + 4, i + 20) =~= enc_location(x.location_in_file));
    lemma_dec_enc_block_number(s, i, x.block_number);
    lemma_dec_enc_location(s, i + 4, x.location_in_file);
}

} // verus!
