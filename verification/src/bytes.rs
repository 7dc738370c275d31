//! Adapters between the 16-byte big-endian buffer form of a value (the raw
//! bytes of a UUID) and the 128-bit integer the codec works on. The
//! conversion is exact and total on 16-byte buffers; any other length is
//! rejected as `InvalidInput`.

use vstd::prelude::*;
use vstd::arithmetic::power::pow;
use vstd::arithmetic::power::lemma_pow0;
use vstd::arithmetic::power::lemma_pow_increases;
use vstd::arithmetic::power::lemma_pow_positive;

use crate::error::Base62Error;

verus! {

/// The unsigned integer a byte buffer denotes, most significant byte first
/// (Horner's rule in base 256).
pub open spec fn be_bytes_value(bs: Seq<u8>) -> int
    decreases bs.len(),
{
    if bs.len() == 0 {
        0
    } else {
        be_bytes_value(bs.drop_last()) * 256 + bs.last()
    }
}

/// A buffer of `n` bytes denotes a value below 256^n.
pub proof fn lemma_be_bytes_upper(bs: Seq<u8>)
    ensures
        be_bytes_value(bs) < pow(256, bs.len()),
    decreases bs.len(),
{
    if bs.len() == 0 {
        lemma_pow0(256);
    } else {
        lemma_be_bytes_upper(bs.drop_last());
        assert(pow(256, bs.len()) == 256 * pow(256, (bs.len() - 1) as nat)) by {
            reveal(pow);
        };
    }
}

/// 256^16 is exactly 2^128: sixteen bytes hold exactly a 128-bit value.
pub proof fn lemma_pow256_16()
    ensures
        pow(256, 16) == 0x1_0000_0000_0000_0000_0000_0000_0000_0000,
{
    reveal_with_fuel(pow, 17);
}

/// Putting a byte in front of a buffer multiplies its weight by 256 to the
/// length of what follows.
proof fn lemma_be_bytes_prepend(b: u8, bs: Seq<u8>)
    ensures
        be_bytes_value(seq![b] + bs) == b * pow(256, bs.len()) + be_bytes_value(bs),
    decreases bs.len(),
{
    if bs.len() == 0 {
        assert(seq![b] + bs =~= seq![b]);
        assert(seq![b].drop_last() =~= Seq::<u8>::empty());
        assert(seq![b].last() == b);
        assert(be_bytes_value(Seq::<u8>::empty()) == 0);
        lemma_pow0(256);
    } else {
        let t = seq![b] + bs;
        assert(t.drop_last() =~= seq![b] + bs.drop_last());
        assert(t.last() == bs.last());
        lemma_be_bytes_prepend(b, bs.drop_last());
        let q = pow(256, (bs.len() - 1) as nat);
        assert(pow(256, bs.len()) == 256 * q) by {
            reveal(pow);
        };
        assert((b * q + be_bytes_value(bs.drop_last())) * 256 == b * (256 * q) + be_bytes_value(
            bs.drop_last(),
        ) * 256) by (nonlinear_arith);
    }
}

/// Reads a 16-byte big-endian buffer as a 128-bit value. Exactly the
/// buffers of length 16 are accepted; any other length is `InvalidInput`.
pub fn value_from_be_bytes(bytes: &[u8]) -> (r: Result<u128, Base62Error>)
    ensures
        r is Ok <==> bytes@.len() == 16,
        r is Ok ==> r->Ok_0 as int == be_bytes_value(bytes@),
        r is Err ==> r->Err_0 == Base62Error::InvalidInput,
{
    if bytes.len() != 16 {
        return Err(Base62Error::InvalidInput);
    }
    let mut acc: u128 = 0;
    let mut i: usize = 0;
    while i < 16
        invariant
            0 <= i <= 16,
            bytes@.len() == 16,
            acc as int == be_bytes_value(bytes@.take(i as int)),
        decreases 16 - i,
    {
        let b = bytes[i];
        proof {
            let t = bytes@.take(i as int);
            assert(bytes@.take(i as int + 1) =~= t.push(b));
            assert(bytes@.take(i as int + 1).drop_last() =~= t);
            lemma_be_bytes_upper(t);
            assert(pow(256, (i + 1) as nat) == 256 * pow(256, i as nat)) by {
                reveal(pow);
            };
            lemma_pow_increases(256, (i + 1) as nat, 16);
            lemma_pow256_16();
        }
        acc = acc * 256 + (b as u128);
        i = i + 1;
    }
    proof {
        assert(bytes@.take(16) =~= bytes@);
    }
    Ok(acc)
}

/// Writes a 128-bit value as its 16-byte big-endian buffer.
pub fn value_to_be_bytes(value: u128) -> (r: Vec<u8>)
    ensures
        r@.len() == 16,
        be_bytes_value(r@) == value as int,
{
    let mut out: Vec<u8> = Vec::new();
    let mut v: u128 = value;
    let mut k: usize = 0;
    proof {
        lemma_pow0(256);
        lemma_pow256_16();
        assert(be_bytes_value(Seq::<u8>::empty()) == 0);
    }
    while k < 16
        invariant
            0 <= k <= 16,
            out@.len() == k,
            v as int * pow(256, k as nat) + be_bytes_value(out@) == value as int,
            (v as int) < pow(256, (16 - k) as nat),
        decreases 16 - k,
    {
        let ghost prev = out@;
        let ghost vi = v as int;
        let b = (v % 256) as u8;
        out.insert(0, b);
        v = v / 256;
        proof {
            assert(out@ =~= seq![b] + prev);
            lemma_be_bytes_prepend(b, prev);
            let q = pow(256, prev.len());
            assert(pow(256, prev.len() + 1) == 256 * q) by {
                reveal(pow);
            };
            assert(vi == 256 * (vi / 256) + (vi % 256)) by {
                vstd::arithmetic::div_mod::lemma_fundamental_div_mod(vi, 256);
            };
            assert((256 * (vi / 256) + (vi % 256)) * q == (vi / 256) * (256 * q) + (vi % 256) * q)
                by (nonlinear_arith);
            let p = pow(256, (16 - k - 1) as nat);
            assert(pow(256, (16 - k) as nat) == 256 * p) by {
                reveal(pow);
            };
            lemma_pow_positive(256, (16 - k - 1) as nat);
            assert(vi / 256 < p) by (nonlinear_arith)
                requires
                    0 <= vi <= 256 * p - 1,
                    p >= 1,
            {
            }
        }
        k = k + 1;
    }
    out
}

} // verus!
