//! Variable-length unsigned integer encoding.
//!
//! Lengths of byte strings, sequences and mappings are stored base-128: each
//! byte carries seven low-order bits, least significant group first, with the
//! high bit set on every byte except the last. A value below 128 is a single
//! byte.

use vstd::prelude::*;
use vstd::arithmetic::div_mod::lemma_fundamental_div_mod;

verus! {

/// The variable-length encoding of `x`.
pub open spec fn varint_enc(x: u64) -> Seq<u8>
    decreases x,
{
    if x < 128 {
        seq![x as u8]
    } else {
        seq![((x % 128) + 128) as u8] + varint_enc(x / 128)
    }
}

/// Decodes a variable-length integer at position `i` of `s`.
///
/// Returns the value and the position after it, or `None` when the bytes run
/// out before a final group or the value overflows 64 bits.
pub open spec fn varint_dec(s: Seq<u8>, i: int) -> Option<(u64, int)>
    decreases s.len() - i,
{
    if i < 0 || i >= s.len() {
        None
    } else if s[i] < 128 {
        Some((s[i] as u64, i + 1))
    } else {
        match varint_dec(s, i + 1) {
            None => None,
            Some((rest, j)) => {
                let val = (rest as nat) * 128 + (s[i] - 128);
                if val <= u64::MAX {
                    Some((val as u64, j))
                } else {
                    None
                }
            },
        }
    }
}

/// Decoding inverts encoding, wherever the encoding sits in the stream.
pub proof fn lemma_varint_dec_enc(s: Seq<u8>, i: int, x: u64)
    requires
        0 <= i,
        i + varint_enc(x).len() <= s.len(),
        s.subrange(i, i + varint_enc(x).len()) == varint_enc(x),
    ensures
        varint_dec(s, i) == Some((x, i + varint_enc(x).len())),
    decreases x,
{
    let e = varint_enc(x);
    assert(s[i] == e[0]);
    if x < 128 {
    } else {
        let erest = varint_enc(x / 128);
        assert(e[0] == ((x % 128) + 128) as u8);
        assert(s[i] >= 128);
        assert(s.subrange(i + 1, i + 1 + erest.len()) =~= erest) by {
            assert forall|k: int| 0 <= k < erest.len() implies s.subrange(
                i + 1,
                i + 1 + erest.len(),
            )[k] == erest[k] by {
                assert(s[i + 1 + k] == e[1 + k]);
            }
        }
        lemma_varint_dec_enc(s, i + 1, x / 128);
        assert((x / 128) * 128 + (x % 128) == x) by {
            lemma_fundamental_div_mod(x as int, 128);
        }
    }
}

/// A successful decode lands strictly past its start and inside the stream.
pub proof fn lemma_varint_dec_bounds(s: Seq<u8>, i: int)
    ensures
        match varint_dec(s, i) {
            Some((x, j)) => i < j <= s.len(),
            None => true,
        },
    decreases s.len() - i,
{
    if 0 <= i && i < s.len() && s[i] >= 128 {
        lemma_varint_dec_bounds(s, i + 1);
    }
}

/// Appends the variable-length encoding of `x`.
pub fn write_varint(out: &mut Vec<u8>, x: u64)
    ensures
        final(out)@ == old(out)@ + varint_enc(x),
    decreases x,
{
    if x < 128 {
        out.push(x as u8);
        assert(out@ =~= old(out)@ + varint_enc(x));
    } else {
        out.push((x % 128 + 128) as u8);
        write_varint(out, x / 128);
        assert(out@ =~= old(out)@ + varint_enc(x));
    }
}

/// Reads a variable-length integer, advancing the position on success.
pub fn read_varint(v: &Vec<u8>, pos: &mut usize) -> (r: Option<u64>)
    ensures
        match varint_dec(v@, *old(pos) as int) {
            Some((x, j)) => r == Some(x) && *final(pos) == j,
            None => r is None,
        },
    decreases v@.len() - *pos,
{
    if *pos >= v.len() {
        return None;
    }
    let b = v[*pos];
    *pos = *pos + 1;
    if b < 128 {
        return Some(b as u64);
    }
    let low: u64 = (b - 128) as u64;
    match read_varint(v, pos) {
        None => None,
        Some(rest) => {
            if rest > (u64::MAX - low) / 128 {
                proof {
                    lemma_fundamental_div_mod((u64::MAX - low) as int, 128);
                }
                None
            } else {
                proof {
                    lemma_fundamental_div_mod((u64::MAX - low) as int, 128);
                }
                Some(rest * 128 + low)
            }
        },
    }
}

} // verus!
