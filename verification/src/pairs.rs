//! The wire form shared by every serialized mapping.
//!
//! A mapping is stored as its entry count, then each key and value in order.
//! The wire format does not permit duplicate keys: a decoder keeps the keys
//! it has seen and fails the whole read when one repeats. The functions here
//! are generic over the key and value codecs, so each concrete mapping states
//! its rule by instantiating them; the round-trip and duplicate-rejection
//! proofs are done once.

use vstd::prelude::*;
use crate::varint::{lemma_varint_dec_enc, varint_dec, varint_enc};

verus! {

/// True when some entry of `s` has key `k`.
pub open spec fn contains_key<K, V>(s: Seq<(K, V)>, k: K) -> bool {
    exists|j: int| 0 <= j < s.len() && s[j].0 == k
}

/// True when no two entries of `s` share a key.
pub open spec fn unique_keys<K, V>(s: Seq<(K, V)>) -> bool {
    forall|a: int, b: int| 0 <= a < b < s.len() ==> s[a].0 != s[b].0
}

/// The value at the first entry of `s` with key `k`, if any.
pub open spec fn lookup_pair<K, V>(s: Seq<(K, V)>, k: K) -> Option<V>
    decreases s.len(),
{
    if s.len() == 0 {
        None
    } else if s[0].0 == k {
        Some(s[0].1)
    } else {
        lookup_pair(s.drop_first(), k)
    }
}

/// The entries of a mapping, each key then its value, back to back.
pub open spec fn enc_pair_list<K, V>(
    enck: spec_fn(K) -> Seq<u8>,
    encv: spec_fn(V) -> Seq<u8>,
    s: Seq<(K, V)>,
) -> Seq<u8>
    decreases s.len(),
{
    if s.len() == 0 {
        Seq::empty()
    } else {
        enck(s[0].0) + encv(s[0].1) + enc_pair_list(enck, encv, s.drop_first())
    }
}

/// A mapping: its entry count, then its entries.
pub open spec fn enc_map<K, V>(
    enck: spec_fn(K) -> Seq<u8>,
    encv: spec_fn(V) -> Seq<u8>,
    s: Seq<(K, V)>,
) -> Seq<u8> {
    varint_enc(s.len() as u64) + enc_pair_list(enck, encv, s)
}

/// Reads `n` entries onto `acc`, failing on a key already seen.
pub open spec fn dec_pair_list<K, V>(
    deck: spec_fn(Seq<u8>, int) -> Option<(K, int)>,
    decv: spec_fn(Seq<u8>, int) -> Option<(V, int)>,
    s: Seq<u8>,
    i: int,
    n: nat,
    acc: Seq<(K, V)>,
) -> Option<(Seq<(K, V)>, int)>
    decreases n,
{
    if n == 0 {
        Some((acc, i))
    } else {
        match deck(s, i) {
            None => None,
            Some((k, j)) => match decv(s, j) {
                None => None,
                Some((v, l)) => if contains_key(acc, k) {
                    None
                } else {
                    dec_pair_list(deck, decv, s, l, (n - 1) as nat, acc.push((k, v)))
                },
            },
        }
    }
}

/// Reads a mapping: its entry count, then its entries.
pub open spec fn dec_map<K, V>(
    deck: spec_fn(Seq<u8>, int) -> Option<(K, int)>,
    decv: spec_fn(Seq<u8>, int) -> Option<(V, int)>,
    s: Seq<u8>,
    i: int,
) -> Option<(Seq<(K, V)>, int)> {
    match varint_dec(s, i) {
        None => None,
        Some((n, j)) => dec_pair_list(deck, decv, s, j, n as nat, Seq::empty()),
    }
}

/// Encoding one more entry appends its bytes.
pub proof fn lemma_enc_pair_list_snoc<K, V>(
    enck: spec_fn(K) -> Seq<u8>,
    encv: spec_fn(V) -> Seq<u8>,
    s: Seq<(K, V)>,
    k: K,
    v: V,
)
    ensures
        enc_pair_list(enck, encv, s.push((k, v))) == enc_pair_list(enck, encv, s) + enck(k) + encv(
            v,
        ),
    decreases s.len(),
{
    if s.len() == 0 {
        assert(s =~= Seq::<(K, V)>::empty());
        assert(s.push((k, v)).drop_first() =~= Seq::<(K, V)>::empty());
        assert(enc_pair_list(enck, encv, Seq::<(K, V)>::empty()) == Seq::<u8>::empty());
        assert(enc_pair_list(enck, encv, s.push((k, v))) == enck(k) + encv(v) + enc_pair_list(
            enck,
            encv,
            Seq::<(K, V)>::empty(),
        ));
        assert(enc_pair_list(enck, encv, s.push((k, v))) =~= enc_pair_list(enck, encv, s) + enck(k)
            + encv(v));
    } else {
        assert(s.push((k, v)).drop_first() =~= s.drop_first().push((k, v)));
        assert(enc_pair_list(enck, encv, s.push((k, v))) == enck(s[0].0) + encv(s[0].1)
            + enc_pair_list(enck, encv, s.drop_first().push((k, v))));
        lemma_enc_pair_list_snoc(enck, encv, s.drop_first(), k, v);
        assert(enc_pair_list(enck, encv, s.push((k, v))) =~= enc_pair_list(enck, encv, s) + enck(k)
            + encv(v));
    }
}

/// Decoding inverts encoding for a mapping whose keys are unique: reading its
/// entries onto `acc` extends `acc` by exactly those entries.
///
/// The first two hypotheses are the round trips of the key and value codecs,
/// stated on this stream; `validv` carves out the values the value codec
/// round-trips (everything, for scalar values; inner mappings must have
/// unique keys themselves).
pub proof fn lemma_dec_enc_pair_list<K, V>(
    deck: spec_fn(Seq<u8>, int) -> Option<(K, int)>,
    decv: spec_fn(Seq<u8>, int) -> Option<(V, int)>,
    enck: spec_fn(K) -> Seq<u8>,
    encv: spec_fn(V) -> Seq<u8>,
    validv: spec_fn(V) -> bool,
    s: Seq<u8>,
    i: int,
    data: Seq<(K, V)>,
    acc: Seq<(K, V)>,
)
    requires
        forall|x: K, ii: int|
            0 <= ii && ii + (#[trigger] enck(x)).len() <= s.len() && s.subrange(
                ii,
                ii + enck(x).len(),
            ) == enck(x) ==> #[trigger] deck(s, ii) == Some((x, ii + enck(x).len())),
        forall|y: V, ii: int|
            validv(y) && 0 <= ii && ii + (#[trigger] encv(y)).len() <= s.len() && s.subrange(
                ii,
                ii + encv(y).len(),
            ) == encv(y) ==> #[trigger] decv(s, ii) == Some((y, ii + encv(y).len())),
        forall|j: int| 0 <= j < data.len() ==> validv(#[trigger] data[j].1),
        unique_keys(acc + data),
        0 <= i,
        i + enc_pair_list(enck, encv, data).len() <= s.len(),
        s.subrange(i, i + enc_pair_list(enck, encv, data).len()) == enc_pair_list(
            enck,
            encv,
            data,
        ),
    ensures
        dec_pair_list(deck, decv, s, i, data.len(), acc) == Some(
            (acc + data, i + enc_pair_list(enck, encv, data).len()),
        ),
    decreases data.len(),
{
    if data.len() == 0 {
        assert(acc + data =~= acc);
    } else {
        let k0 = data[0].0;
        let v0 = data[0].1;
        let kl = enck(k0).len() as int;
        let vl = encv(v0).len() as int;
        let rest = enc_pair_list(enck, encv, data.drop_first());
        let total = enc_pair_list(enck, encv, data).len() as int;
        assert(total == kl + vl + rest.len());
        crate::codec::lemma_sub_of_sub(s, i, total, 0, kl);
        assert(s.subrange(i, i + kl) =~= enck(k0));
        assert(deck(s, i) == Some((k0, i + kl)));
        crate::codec::lemma_sub_of_sub(s, i, total, kl, kl + vl);
        assert(s.subrange(i + kl, i + kl + vl) =~= encv(v0));
        assert(validv(v0));
        assert(decv(s, i + kl) == Some((v0, i + kl + vl)));
        assert(!contains_key(acc, k0)) by {
            if contains_key(acc, k0) {
                let j = choose|j: int| 0 <= j < acc.len() && acc[j].0 == k0;
                assert((acc + data)[j].0 == k0);
                assert((acc + data)[acc.len() as int].0 == k0);
            }
        }
        crate::codec::lemma_sub_of_sub(s, i, total, kl + vl, total);
        assert(s.subrange(i + kl + vl, i + total) =~= rest);
        assert(acc.push((k0, v0)) + data.drop_first() =~= acc + data);
        assert(forall|j: int|
            0 <= j < data.drop_first().len() ==> validv(#[trigger] data.drop_first()[j].1));
        lemma_dec_enc_pair_list(
            deck,
            decv,
            enck,
            encv,
            validv,
            s,
            i + kl + vl,
            data.drop_first(),
            acc.push((k0, v0)),
        );
    }
}

/// Decoding an encoded mapping that repeats a key fails: the wire format does
/// not permit duplicate keys.
pub proof fn lemma_dec_enc_pair_list_dup<K, V>(
    deck: spec_fn(Seq<u8>, int) -> Option<(K, int)>,
    decv: spec_fn(Seq<u8>, int) -> Option<(V, int)>,
    enck: spec_fn(K) -> Seq<u8>,
    encv: spec_fn(V) -> Seq<u8>,
    validv: spec_fn(V) -> bool,
    s: Seq<u8>,
    i: int,
    data: Seq<(K, V)>,
    acc: Seq<(K, V)>,
)
    requires
        forall|x: K, ii: int|
            0 <= ii && ii + (#[trigger] enck(x)).len() <= s.len() && s.subrange(
                ii,
                ii + enck(x).len(),
            ) == enck(x) ==> #[trigger] deck(s, ii) == Some((x, ii + enck(x).len())),
        forall|y: V, ii: int|
            validv(y) && 0 <= ii && ii + (#[trigger] encv(y)).len() <= s.len() && s.subrange(
                ii,
                ii + encv(y).len(),
            ) == encv(y) ==> #[trigger] decv(s, ii) == Some((y, ii + encv(y).len())),
        forall|j: int| 0 <= j < data.len() ==> validv(#[trigger] data[j].1),
        unique_keys(acc),
        !unique_keys(acc + data),
        0 <= i,
        i + enc_pair_list(enck, encv, data).len() <= s.len(),
        s.subrange(i, i + enc_pair_list(enck, encv, data).len()) == enc_pair_list(
            enck,
            encv,
            data,
        ),
    ensures
        dec_pair_list(deck, decv, s, i, data.len(), acc) is None,
    decreases data.len(),
{
    if data.len() == 0 {
        assert(acc + data =~= acc);
    } else {
        let k0 = data[0].0;
        let v0 = data[0].1;
        let kl = enck(k0).len() as int;
        let vl = encv(v0).len() as int;
        let rest = enc_pair_list(enck, encv, data.drop_first());
        let total = enc_pair_list(enck, encv, data).len() as int;
        assert(total == kl + vl + rest.len());
        crate::codec::lemma_sub_of_sub(s, i, total, 0, kl);
        assert(s.subrange(i, i + kl) =~= enck(k0));
        assert(deck(s, i) == Some((k0, i + kl)));
        crate::codec::lemma_sub_of_sub(s, i, total, kl, kl + vl);
        assert(s.subrange(i + kl, i + kl + vl) =~= encv(v0));
        assert(validv(v0));
        assert(decv(s, i + kl) == Some((v0, i + kl + vl)));
        if contains_key(acc, k0) {
        } else {
            crate::codec::lemma_sub_of_sub(s, i, total, kl + vl, total);
            assert(s.subrange(i + kl + vl, i + total) =~= rest);
            assert(acc.push((k0, v0)) + data.drop_first() =~= acc + data);
            assert(unique_keys(acc.push((k0, v0)))) by {
                let accp = acc.push((k0, v0));
                assert forall|a: int, b: int| 0 <= a < b < accp.len() implies accp[a].0
                    != accp[b].0 by {
                    if b < acc.len() {
                        assert(acc[a].0 != acc[b].0);
                    } else {
                        assert(accp[b].0 == k0);
                        assert(accp[a] == acc[a]);
                        assert(!contains_key(acc, k0));
                    }
                }
            }
            assert(forall|j: int|
                0 <= j < data.drop_first().len() ==> validv(#[trigger] data.drop_first()[j].1));
            lemma_dec_enc_pair_list_dup(
                deck,
                decv,
                enck,
                encv,
                validv,
                s,
                i + kl + vl,
                data.drop_first(),
                acc.push((k0, v0)),
            );
        }
    }
}

/// Round trip for a whole mapping with unique keys.
pub proof fn lemma_dec_enc_map<K, V>(
    deck: spec_fn(Seq<u8>, int) -> Option<(K, int)>,
    decv: spec_fn(Seq<u8>, int) -> Option<(V, int)>,
    enck: spec_fn(K) -> Seq<u8>,
    encv: spec_fn(V) -> Seq<u8>,
    validv: spec_fn(V) -> bool,
    s: Seq<u8>,
    i: int,
    data: Seq<(K, V)>,
)
    requires
        forall|x: K, ii: int|
            0 <= ii && ii + (#[trigger] enck(x)).len() <= s.len() && s.subrange(
                ii,
                ii + enck(x).len(),
            ) == enck(x) ==> #[trigger] deck(s, ii) == Some((x, ii + enck(x).len())),
        forall|y: V, ii: int|
            validv(y) && 0 <= ii && ii + (#[trigger] encv(y)).len() <= s.len() && s.subrange(
                ii,
                ii + encv(y).len(),
            ) == encv(y) ==> #[trigger] decv(s, ii) == Some((y, ii + encv(y).len())),
        forall|j: int| 0 <= j < data.len() ==> validv(#[trigger] data[j].1),
        unique_keys(data),
        data.len() <= u64::MAX,
        0 <= i,
        i + enc_map(enck, encv, data).len() <= s.len(),
        s.subrange(i, i + enc_map(enck, encv, data).len()) == enc_map(enck, encv, data),
    ensures
        dec_map(deck, decv, s, i) == Some((data, i + enc_map(enck, encv, data).len())),
{
    let lenbytes = varint_enc(data.len() as u64);
    let total = enc_map(enck, encv, data).len() as int;
    crate::codec::lemma_sub_of_sub(s, i, total, 0, lenbytes.len() as int);
    assert(s.subrange(i, i + lenbytes.len()) =~= lenbytes);
    lemma_varint_dec_enc(s, i, data.len() as u64);
    let j = i + lenbytes.len() as int;
    crate::codec::lemma_sub_of_sub(s, i, total, lenbytes.len() as int, total);
    assert(s.subrange(j, i + total) =~= enc_pair_list(enck, encv, data));
    assert(Seq::<(K, V)>::empty() + data =~= data);
    assert(unique_keys(Seq::<(K, V)>::empty() + data));
    lemma_dec_enc_pair_list(deck, decv, enck, encv, validv, s, j, data, Seq::empty());
}

/// Decoding an encoded mapping with a duplicate key yields an absent result.
pub proof fn lemma_dec_enc_map_dup<K, V>(
    deck: spec_fn(Seq<u8>, int) -> Option<(K, int)>,
    decv: spec_fn(Seq<u8>, int) -> Option<(V, int)>,
    enck: spec_fn(K) -> Seq<u8>,
    encv: spec_fn(V) -> Seq<u8>,
    validv: spec_fn(V) -> bool,
    s: Seq<u8>,
    i: int,
    data: Seq<(K, V)>,
)
    requires
        forall|x: K, ii: int|
            0 <= ii && ii + (#[trigger] enck(x)).len() <= s.len() && s.subrange(
                ii,
                ii + enck(x).len(),
            ) == enck(x) ==> #[trigger] deck(s, ii) == Some((x, ii + enck(x).len())),
        forall|y: V, ii: int|
            validv(y) && 0 <= ii && ii + (#[trigger] encv(y)).len() <= s.len() && s.subrange(
                ii,
                ii + encv(y).len(),
            ) == encv(y) ==> #[trigger] decv(s, ii) == Some((y, ii + encv(y).len())),
        forall|j: int| 0 <= j < data.len() ==> validv(#[trigger] data[j].1),
        !unique_keys(data),
        data.len() <= u64::MAX,
        0 <= i,
        i + enc_map(enck, encv, data).len() <= s.len(),
        s.subrange(i, i + enc_map(enck, encv, data).len()) == enc_map(enck, encv, data),
    ensures
        dec_map(deck, decv, s, i) is None,
{
    let lenbytes = varint_enc(data.len() as u64);
    let total = enc_map(enck, encv, data).len() as int;
    crate::codec::lemma_sub_of_sub(s, i, total, 0, lenbytes.len() as int);
    assert(s.subrange(i, i + lenbytes.len()) =~= lenbytes);
    lemma_varint_dec_enc(s, i, data.len() as u64);
    let j = i + lenbytes.len() as int;
    crate::codec::lemma_sub_of_sub(s, i, total, lenbytes.len() as int, total);
    assert(s.subrange(j, i + total) =~= enc_pair_list(enck, encv, data));
    assert(Seq::<(K, V)>::empty() + data =~= data);
    lemma_dec_enc_pair_list_dup(deck, decv, enck, encv, validv, s, j, data, Seq::empty());
}

} // verus!
