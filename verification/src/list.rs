//! The wire form shared by every serialized sequence.
//!
//! A sequence is stored as its element count, then each element in order.
//! The functions here are generic over the element codec; each concrete
//! sequence states its rule by instantiating them, and the round-trip proof
//! is done once.

use vstd::prelude::*;
use crate::varint::{lemma_varint_dec_enc, varint_dec, varint_enc};

verus! {

/// The elements of a sequence, back to back.
pub open spec fn enc_elem_list<T>(encf: spec_fn(T) -> Seq<u8>, s: Seq<T>) -> Seq<u8>
    decreases s.len(),
{
    if s.len() == 0 {
        Seq::empty()
    } else {
        encf(s[0]) + enc_elem_list(encf, s.drop_first())
    }
}

/// A sequence: its element count, then its elements.
pub open spec fn enc_list<T>(encf: spec_fn(T) -> Seq<u8>, s: Seq<T>) -> Seq<u8> {
    varint_enc(s.len() as u64) + enc_elem_list(encf, s)
}

/// Reads `n` elements back to back.
pub open spec fn dec_elem_list<T>(
    decf: spec_fn(Seq<u8>, int) -> Option<(T, int)>,
    s: Seq<u8>,
    i: int,
    n: nat,
) -> Option<(Seq<T>, int)>
    decreases n,
{
    if n == 0 {
        Some((Seq::empty(), i))
    } else {
        match decf(s, i) {
            None => None,
            Some((x, j)) => match dec_elem_list(decf, s, j, (n - 1) as nat) {
                None => None,
                Some((rest, k)) => Some((seq![x] + rest, k)),
            },
        }
    }
}

/// Reads a length-prefixed sequence.
pub open spec fn dec_list<T>(
    decf: spec_fn(Seq<u8>, int) -> Option<(T, int)>,
    s: Seq<u8>,
    i: int,
) -> Option<(Seq<T>, int)> {
    match varint_dec(s, i) {
        None => None,
        Some((n, j)) => dec_elem_list(decf, s, j, n as nat),
    }
}

/// Encoding one more element appends its bytes.
pub proof fn lemma_enc_elem_list_snoc<T>(encf: spec_fn(T) -> Seq<u8>, s: Seq<T>, x: T)
    ensures
        enc_elem_list(encf, s.push(x)) == enc_elem_list(encf, s) + encf(x),
    decreases s.len(),
{
    if s.len() == 0 {
        assert(s =~= Seq::<T>::empty());
        assert(s.push(x).drop_first() =~= Seq::<T>::empty());
        assert(enc_elem_list(encf, Seq::<T>::empty()) == Seq::<u8>::empty());
        assert(enc_elem_list(encf, s.push(x)) == encf(x) + enc_elem_list(
            encf,
            Seq::<T>::empty(),
        ));
        assert(enc_elem_list(encf, s.push(x)) =~= enc_elem_list(encf, s) + encf(x));
    } else {
        assert(s.push(x).drop_first() =~= s.drop_first().push(x));
        assert(enc_elem_list(encf, s.push(x)) == encf(s[0]) + enc_elem_list(
            encf,
            s.drop_first().push(x),
        ));
        lemma_enc_elem_list_snoc(encf, s.drop_first(), x);
        assert(enc_elem_list(encf, s.push(x)) =~= enc_elem_list(encf, s) + encf(x));
    }
}

/// Decoding inverts encoding for the elements, wherever they sit; `validf`
/// carves out the elements the codec round-trips.
pub proof fn lemma_dec_enc_elem_list<T>(
    decf: spec_fn(Seq<u8>, int) -> Option<(T, int)>,
    encf: spec_fn(T) -> Seq<u8>,
    validf: spec_fn(T) -> bool,
    s: Seq<u8>,
    i: int,
    data: Seq<T>,
)
    requires
        forall|x: T, ii: int|
            validf(x) && 0 <= ii && ii + (#[trigger] encf(x)).len() <= s.len() && s.subrange(
                ii,
                ii + encf(x).len(),
            ) == encf(x) ==> #[trigger] decf(s, ii) == Some((x, ii + encf(x).len())),
        forall|j: int| 0 <= j < data.len() ==> validf(#[trigger] data[j]),
        0 <= i,
        i + enc_elem_list(encf, data).len() <= s.len(),
        s.subrange(i, i + enc_elem_list(encf, data).len()) == enc_elem_list(encf, data),
    ensures
        dec_elem_list(decf, s, i, data.len()) == Some(
            (data, i + enc_elem_list(encf, data).len()),
        ),
    decreases data.len(),
{
    if data.len() == 0 {
        assert(data =~= Seq::<T>::empty());
    } else {
        let head = encf(data[0]);
        let tail = enc_elem_list(encf, data.drop_first());
        let total = enc_elem_list(encf, data).len() as int;
        crate::codec::lemma_sub_of_sub(s, i, total, 0, head.len() as int);
        assert(s.subrange(i, i + head.len()) =~= head);
        assert(decf(s, i) == Some((data[0], i + head.len())));
        crate::codec::lemma_sub_of_sub(s, i, total, head.len() as int, total);
        assert(s.subrange(i + head.len(), i + total) =~= tail);
        assert(forall|j: int|
            0 <= j < data.drop_first().len() ==> validf(#[trigger] data.drop_first()[j]));
        lemma_dec_enc_elem_list(decf, encf, validf, s, i + head.len(), data.drop_first());
        assert(seq![data[0]] + data.drop_first() =~= data);
    }
}

/// Round trip for a whole length-prefixed sequence.
pub proof fn lemma_dec_enc_list<T>(
    decf: spec_fn(Seq<u8>, int) -> Option<(T, int)>,
    encf: spec_fn(T) -> Seq<u8>,
    validf: spec_fn(T) -> bool,
    s: Seq<u8>,
    i: int,
    data: Seq<T>,
)
    requires
        forall|x: T, ii: int|
            validf(x) && 0 <= ii && ii + (#[trigger] encf(x)).len() <= s.len() && s.subrange(
                ii,
                ii + encf(x).len(),
            ) == encf(x) ==> #[trigger] decf(s, ii) == Some((x, ii + encf(x).len())),
        forall|j: int| 0 <= j < data.len() ==> validf(#[trigger] data[j]),
        data.len() <= u64::MAX,
        0 <= i,
        i + enc_list(encf, data).len() <= s.len(),
        s.subrange(i, i + enc_list(encf, data).len()) == enc_list(encf, data),
    ensures
        dec_list(decf, s, i) == Some((data, i + enc_list(encf, data).len())),
{
    let lenbytes = varint_enc(data.len() as u64);
    let total = enc_list(encf, data).len() as int;
    crate::codec::lemma_sub_of_sub(s, i, total, 0, lenbytes.len() as int);
    assert(s.subrange(i, i + lenbytes.len()) =~= lenbytes);
    lemma_varint_dec_enc(s, i, data.len() as u64);
    let j = i + lenbytes.len() as int;
    crate::codec::lemma_sub_of_sub(s, i, total, lenbytes.len() as int, total);
    assert(s.subrange(j, i + total) =~= enc_elem_list(encf, data));
    lemma_dec_enc_elem_list(decf, encf, validf, s, j, data);
}

} // verus!
