//! Fixed-width big-endian integer encoding.
//!
//! Every fixed-width integer in the on-disk format is laid out as its base-256
//! digits, most significant first. [`be_enc`] and [`be_dec`] define that
//! layout once; the codec derives each concrete width from them.

use vstd::prelude::*;
use vstd::arithmetic::div_mod::{
    lemma_fundamental_div_mod,
    lemma_multiply_divide_lt,
};

verus! {

/// 256 raised to the `n`-th power: the number of values `n` bytes can hold.
pub open spec fn pow256(n: nat) -> nat
    decreases n,
{
    if n == 0 {
        1
    } else {
        256 * pow256((n - 1) as nat)
    }
}

/// The `n` base-256 digits of `x`, most significant first.
pub open spec fn be_enc(x: nat, n: nat) -> Seq<u8>
    decreases n,
{
    if n == 0 {
        Seq::empty()
    } else {
        be_enc(x / 256, (n - 1) as nat).push((x % 256) as u8)
    }
}

/// The value whose base-256 digits, most significant first, are `s`.
pub open spec fn be_dec(s: Seq<u8>) -> nat
    decreases s.len(),
{
    if s.len() == 0 {
        0
    } else {
        be_dec(s.drop_last()) * 256 + s.last() as nat
    }
}

/// An `n`-byte encoding has exactly `n` bytes.
pub proof fn lemma_be_enc_len(x: nat, n: nat)
    ensures
        be_enc(x, n).len() == n,
    decreases n,
{
    if n > 0 {
        lemma_be_enc_len(x / 256, (n - 1) as nat);
    }
}

/// Powers of 256 never shrink as the exponent grows.
pub proof fn lemma_pow256_monotonic(m: nat, n: nat)
    requires
        m <= n,
    ensures
        pow256(m) <= pow256(n),
        pow256(m) >= 1,
    decreases n,
{
    if n > 0 {
        if m == n {
            lemma_pow256_monotonic(0, (n - 1) as nat);
        } else {
            lemma_pow256_monotonic(m, (n - 1) as nat);
        }
    }
}

/// Decoding inverts encoding for every value the width can hold.
pub proof fn lemma_be_dec_enc(x: nat, n: nat)
    requires
        x < pow256(n),
    ensures
        be_dec(be_enc(x, n)) == x,
    decreases n,
{
    if n == 0 {
    } else {
        let q = x / 256;
        let prefix = be_enc(q, (n - 1) as nat);
        lemma_be_enc_len(q, (n - 1) as nat);
        assert(prefix.push((x % 256) as u8).drop_last() =~= prefix);
        assert(q < pow256((n - 1) as nat)) by {
            lemma_multiply_divide_lt(x as int, 256, pow256((n - 1) as nat) as int);
        }
        lemma_be_dec_enc(q, (n - 1) as nat);
        assert(256 * q + x % 256 == x) by {
            lemma_fundamental_div_mod(x as int, 256);
        }
    }
}

/// A decoded value always fits the width it was read from.
pub proof fn lemma_be_dec_bound(s: Seq<u8>)
    ensures
        be_dec(s) < pow256(s.len()),
    decreases s.len(),
{
    if s.len() > 0 {
        lemma_be_dec_bound(s.drop_last());
    }
}

/// Reading one more byte multiplies the decoded prefix by 256 and adds it.
pub proof fn lemma_be_dec_extend(s: Seq<u8>, a: int, b: int)
    requires
        0 <= a <= b < s.len(),
    ensures
        be_dec(s.subrange(a, b + 1)) == be_dec(s.subrange(a, b)) * 256 + s[b],
{
    assert(s.subrange(a, b + 1).drop_last() =~= s.subrange(a, b));
}

/// Appends the `n`-byte big-endian form of `x`.
pub fn push_be(out: &mut Vec<u8>, x: u128, n: usize)
    requires
        n <= 16,
        (x as nat) < pow256(n as nat),
    ensures
        final(out)@ == old(out)@ + be_enc(x as nat, n as nat),
    decreases n,
{
    if n == 0 {
        assert(out@ =~= old(out)@ + be_enc(x as nat, 0));
    } else {
        proof {
            lemma_multiply_divide_lt(x as int, 256, pow256((n - 1) as nat) as int);
        }
        push_be(out, x / 256, n - 1);
        out.push((x % 256) as u8);
        assert(out@ =~= old(out)@ + be_enc(x as nat, n as nat));
    }
}

/// Reads `n` bytes as a big-endian integer, advancing the position.
/// Fails exactly when fewer than `n` bytes remain, leaving the position as
/// it was.
pub fn read_be(v: &Vec<u8>, pos: &mut usize, n: usize) -> (r: Option<u128>)
    requires
        n <= 16,
    ensures
        match r {
            Some(x) => {
                &&& *old(pos) + n <= v@.len()
                &&& *final(pos) == *old(pos) + n
                &&& x as nat == be_dec(v@.subrange(*old(pos) as int, *old(pos) + n))
            },
            None => {
                &&& *old(pos) + n > v@.len()
                &&& *final(pos) == *old(pos)
            },
        },
{
    if n > v.len() || *pos > v.len() - n {
        return None;
    }
    let start: usize = *pos;
    let vlen: usize = v.len();
    let mut acc: u128 = 0;
    let mut i: usize = 0;
    while i < n
        invariant
            n <= 16,
            i <= n,
            start + n <= vlen,
            vlen == v@.len(),
            acc as nat == be_dec(v@.subrange(start as int, start + i)),
            (acc as nat) < pow256(i as nat),
        decreases n - i,
    {
        proof {
            lemma_be_dec_extend(v@, start as int, start + i);
            lemma_pow256_monotonic((i + 1) as nat, 16);
            assert(pow256(16) == 0x1_0000_0000_0000_0000_0000_0000_0000_0000) by {
                reveal_with_fuel(pow256, 17);
            }
        }
        acc = acc * 256 + (v[start + i] as u128);
        i = i + 1;
    }
    *pos = start + n;
    Some(acc)
}

} // verus!
