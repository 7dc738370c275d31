//! The base62 codec itself: the alphabet, the numeric meaning of a digit
//! string, and the verified encoder and decoder.
//!
//! The alphabet is the 62 ASCII characters `0-9`, `A-Z`, `a-z`, in that
//! order, so the digit values are `'0'..='9'` for 0..=9, `'A'..='Z'` for
//! 10..=35 and `'a'..='z'` for 36..=61.

use vstd::prelude::*;
use vstd::string::StrSliceExecFns;
use vstd::arithmetic::power::pow;
use vstd::arithmetic::power::lemma_pow0;
use vstd::arithmetic::power::lemma_pow1;
use vstd::arithmetic::power::lemma_pow_increases;
use vstd::arithmetic::div_mod::lemma_fundamental_div_mod_converse;

use crate::error::Base62Error;

verus! {

/// The numeric value of one alphabet character, or -1 for a character
/// outside the alphabet.
pub open spec fn digit_of(c: char) -> int {
    let u = c as u32;
    if 48 <= u && u <= 57 {
        u as int - 48
    } else if 65 <= u && u <= 90 {
        u as int - 55
    } else if 97 <= u && u <= 122 {
        u as int - 61
    } else {
        -1
    }
}

/// Whether a character belongs to the alphabet.
pub open spec fn is_digit(c: char) -> bool {
    digit_of(c) >= 0
}

/// Whether every character of a string belongs to the alphabet.
pub open spec fn all_digits(s: Seq<char>) -> bool {
    forall|i: int| 0 <= i < s.len() ==> is_digit(#[trigger] s[i])
}

/// The unsigned integer a digit string denotes, most significant digit
/// first (Horner's rule in base 62).
pub open spec fn base62_value(s: Seq<char>) -> int
    decreases s.len(),
{
    if s.len() == 0 {
        0
    } else {
        base62_value(s.drop_last()) * 62 + digit_of(s.last())
    }
}

/// A canonical encoding: at least one digit, every character in the
/// alphabet, and no superfluous leading zero digit (only the value zero
/// itself begins with the zero digit, as the single string `"0"`).
pub open spec fn is_canonical(s: Seq<char>) -> bool {
    &&& all_digits(s)
    &&& s.len() >= 1
    &&& (s.len() > 1 ==> digit_of(s[0]) != 0)
}

/// The strings the decoder accepts: non-empty, alphabet-only, and denoting
/// a value that fits in 128 bits.
pub open spec fn decode_ok(s: Seq<char>) -> bool {
    &&& s.len() >= 1
    &&& all_digits(s)
    &&& base62_value(s) <= u128::MAX
}

/// How many base62 digits the canonical encoding of a value has.
pub open spec fn encoded_len(v: int) -> nat
    decreases v,
{
    if v < 62 {
        1
    } else {
        1 + encoded_len(v / 62)
    }
}

/// Two alphabet characters with the same digit value are the same
/// character: the reverse lookup is unambiguous.
pub proof fn lemma_digit_injective(c1: char, c2: char)
    requires
        is_digit(c1),
        is_digit(c2),
        digit_of(c1) == digit_of(c2),
    ensures
        c1 == c2,
{
    assert(c1 as u32 == c2 as u32);
}

/// Putting a digit in front of a string multiplies its weight by 62 to the
/// length of what follows.
pub proof fn lemma_value_prepend(c: char, s: Seq<char>)
    ensures
        base62_value(seq![c] + s) == digit_of(c) * pow(62, s.len()) + base62_value(s),
    decreases s.len(),
{
    if s.len() == 0 {
        assert(seq![c] + s =~= seq![c]);
        assert(seq![c].drop_last() =~= Seq::<char>::empty());
        assert(seq![c].last() == c);
        assert(base62_value(Seq::<char>::empty()) == 0);
        assert(base62_value(seq![c]) == digit_of(c));
        lemma_pow0(62);
    } else {
        let t = seq![c] + s;
        assert(t.drop_last() =~= seq![c] + s.drop_last());
        assert(t.last() == s.last());
        assert(base62_value(t) == base62_value(seq![c] + s.drop_last()) * 62 + digit_of(s.last()));
        lemma_value_prepend(c, s.drop_last());
        let q = pow(62, (s.len() - 1) as nat);
        assert(base62_value(t) == (digit_of(c) * q + base62_value(s.drop_last())) * 62 + digit_of(
            s.last(),
        ));
        assert(pow(62, s.len()) == 62 * q) by {
            reveal(pow);
        };
        assert((digit_of(c) * q + base62_value(s.drop_last())) * 62 == digit_of(c) * (62 * q)
            + base62_value(s.drop_last()) * 62) by (nonlinear_arith);
        assert(base62_value(s) == base62_value(s.drop_last()) * 62 + digit_of(s.last()));
    }
}

/// An alphabet-only string denotes a non-negative value.
pub proof fn lemma_value_nonneg(s: Seq<char>)
    requires
        all_digits(s),
    ensures
        base62_value(s) >= 0,
    decreases s.len(),
{
    if s.len() > 0 {
        assert(all_digits(s.drop_last()));
        lemma_value_nonneg(s.drop_last());
    }
}

/// An alphabet-only string of length `n` denotes a value below 62^n.
pub proof fn lemma_value_upper(s: Seq<char>)
    requires
        all_digits(s),
    ensures
        base62_value(s) < pow(62, s.len()),
    decreases s.len(),
{
    if s.len() == 0 {
        lemma_pow0(62);
    } else {
        assert(all_digits(s.drop_last()));
        lemma_value_upper(s.drop_last());
        assert(pow(62, s.len()) == 62 * pow(62, (s.len() - 1) as nat)) by {
            reveal(pow);
        };
        assert(digit_of(s.last()) <= 61);
    }
}

/// A canonical string of more than one digit denotes a value of at least
/// 62 to one less than its length: the leading digit really carries weight.
pub proof fn lemma_canonical_lower(s: Seq<char>)
    requires
        is_canonical(s),
    ensures
        s.len() > 1 ==> base62_value(s) >= pow(62, (s.len() - 1) as nat),
    decreases s.len(),
{
    if s.len() > 1 {
        let p = s.drop_last();
        assert(all_digits(p));
        assert(p[0] == s[0]);
        assert(is_canonical(p));
        lemma_canonical_lower(p);
        assert(digit_of(s.last()) >= 0);
        if p.len() == 1 {
            assert(base62_value(p) == base62_value(p.drop_last()) * 62 + digit_of(p.last()));
            assert(p.drop_last() =~= Seq::<char>::empty());
            assert(base62_value(p) == digit_of(p[0]));
            assert(base62_value(p) >= 1);
            lemma_pow1(62);
        } else {
            assert(base62_value(p) >= pow(62, (p.len() - 1) as nat));
            assert(pow(62, (s.len() - 1) as nat) == 62 * pow(62, (s.len() - 2) as nat)) by {
                reveal(pow);
            };
        }
    }
}

/// Splitting a digit string splits its value: the front part is weighted
/// by 62 to the length of the back part.
pub proof fn lemma_value_concat(a: Seq<char>, b: Seq<char>)
    ensures
        base62_value(a + b) == base62_value(a) * pow(62, b.len()) + base62_value(b),
    decreases b.len(),
{
    if b.len() == 0 {
        assert(a + b =~= a);
        lemma_pow0(62);
    } else {
        let t = a + b;
        assert(t.drop_last() =~= a + b.drop_last());
        assert(t.last() == b.last());
        lemma_value_concat(a, b.drop_last());
        assert(pow(62, b.len()) == 62 * pow(62, (b.len() - 1) as nat)) by {
            reveal(pow);
        };
        assert((base62_value(a) * pow(62, (b.len() - 1) as nat)) * 62 == base62_value(a) * (62
            * pow(62, (b.len() - 1) as nat))) by (nonlinear_arith);
    }
}

/// The two powers of 62 that bracket the 128-bit range:
/// 62^21 < 2^128 <= 62^22.
pub proof fn lemma_pow62_bounds()
    ensures
        pow(62, 21) == 43674252383913877424036476406214950912,
        pow(62, 22) == 2707803647802660400290261537185326956544,
{
    reveal_with_fuel(pow, 23);
}

/// A value below 62^(n+1) needs at most n+1 digits.
pub proof fn lemma_encoded_len_bound(v: int, n: nat)
    requires
        0 <= v < pow(62, n + 1),
    ensures
        encoded_len(v) <= n + 1,
    decreases n,
{
    if v < 62 {
    } else {
        assert(pow(62, n + 1) == 62 * pow(62, n)) by {
            reveal(pow);
        };
        assert(n >= 1) by {
            if n == 0 {
                lemma_pow1(62);
            }
        };
        assert(v / 62 < pow(62, n)) by {
            assert(v <= 62 * pow(62, n) - 1);
            assert((62 * pow(62, n) - 1) / 62 == pow(62, n) - 1) by (nonlinear_arith)
                requires
                    pow(62, n) >= 1,
            {
            }
            assert(v / 62 <= (62 * pow(62, n) - 1) / 62) by (nonlinear_arith)
                requires
                    0 <= v <= 62 * pow(62, n) - 1,
            {
            }
            assert(pow(62, n) >= 1) by {
                vstd::arithmetic::power::lemma_pow_positive(62, n);
            };
        };
        lemma_encoded_len_bound(v / 62, (n - 1) as nat);
    }
}

/// No 128-bit value needs more than 22 digits.
pub proof fn lemma_encoded_len_max(v: int)
    requires
        0 <= v <= u128::MAX,
    ensures
        encoded_len(v) <= 22,
{
    lemma_pow62_bounds();
    lemma_encoded_len_bound(v, 21);
}

/// Canonical encodings are unique: two canonical strings that denote the
/// same value are the same string. Together with the encoder's and the
/// decoder's contracts this is the second half of the round trip: decoding
/// a canonical string and re-encoding the value gives the string back. The
/// identity holds only of canonical strings — one with superfluous leading
/// zero digits still decodes, but re-encodes to the shorter canonical form.
pub proof fn lemma_canonical_unique(s1: Seq<char>, s2: Seq<char>)
    requires
        is_canonical(s1),
        is_canonical(s2),
        base62_value(s1) == base62_value(s2),
    ensures
        s1 == s2,
    decreases s1.len(),
{
    lemma_canonical_lower(s1);
    lemma_canonical_lower(s2);
    lemma_value_upper(s1);
    lemma_value_upper(s2);
    if s1.len() < s2.len() {
        lemma_pow_increases(62, s1.len(), (s2.len() - 1) as nat);
        assert(false);
    } else if s2.len() < s1.len() {
        lemma_pow_increases(62, s2.len(), (s1.len() - 1) as nat);
        assert(false);
    } else if s1.len() == 1 {
        assert(s1.drop_last() =~= Seq::<char>::empty());
        assert(s2.drop_last() =~= Seq::<char>::empty());
        assert(base62_value(s1) == digit_of(s1[0]));
        assert(base62_value(s2) == digit_of(s2[0]));
        lemma_digit_injective(s1[0], s2[0]);
        assert(s1 =~= s2);
    } else {
        let v = base62_value(s1);
        let p1 = s1.drop_last();
        let p2 = s2.drop_last();
        assert(all_digits(p1));
        assert(all_digits(p2));
        lemma_value_nonneg(p1);
        lemma_value_nonneg(p2);
        lemma_fundamental_div_mod_converse(v, 62, base62_value(p1), digit_of(s1.last()));
        lemma_fundamental_div_mod_converse(v, 62, base62_value(p2), digit_of(s2.last()));
        lemma_digit_injective(s1.last(), s2.last());
        assert(p1[0] == s1[0]);
        assert(p2[0] == s2[0]);
        lemma_canonical_unique(p1, p2);
        assert(s1 =~= p1.push(s1.last()));
        assert(s2 =~= p2.push(s2.last()));
    }
}

/// Looks an alphabet character up, returning its digit value, or `None`
/// for a character outside the alphabet.
pub fn digit_value(c: char) -> (r: Option<u8>)
    ensures
        r is Some <==> is_digit(c),
        r is Some ==> r->0 == digit_of(c),
{
    let u = c as u32;
    if 48 <= u && u <= 57 {
        Some((u - 48) as u8)
    } else if 65 <= u && u <= 90 {
        Some((u - 55) as u8)
    } else if 97 <= u && u <= 122 {
        Some((u - 61) as u8)
    } else {
        None
    }
}

/// The ASCII byte of a digit value.
pub fn digit_byte(d: u8) -> (b: u8)
    requires
        d < 62,
    ensures
        48 <= b <= 122,
        is_digit(b as char),
        digit_of(b as char) == d as int,
{
    if d < 10 {
        48 + d
    } else if d < 36 {
        55 + d
    } else {
        61 + d
    }
}

/// The alphabet character of a digit value.
pub fn digit_char(d: u8) -> (c: char)
    requires
        d < 62,
    ensures
        is_digit(c),
        digit_of(c) == d as int,
{
    digit_byte(d) as char
}

/// Encoding then decoding is the identity on every 128-bit value: the
/// encoder's output is canonical and denotes the value, and every
/// canonical string within the 128-bit range is a string the decoder
/// accepts, returning exactly that value.
pub proof fn lemma_encode_then_decode(s: Seq<char>, v: u128)
    requires
        is_canonical(s),
        base62_value(s) == v as int,
    ensures
        decode_ok(s),
{
}

/// A string with any character outside the alphabet is one the decoder
/// rejects, wherever that character stands.
pub proof fn lemma_invalid_char_rejected(s: Seq<char>, i: int)
    requires
        0 <= i < s.len(),
        !is_digit(s[i]),
    ensures
        !decode_ok(s),
{
}

/// Relies on `String::push` from std: it appends exactly the one given
/// character to the end of the string.
#[verifier::external_body]
fn push_char(s: &mut String, c: char)
    ensures
        final(s)@ == old(s)@.push(c),
{
    s.push(c);
}

/// The canonical digit characters of a value, most significant first:
/// the shared core of the string encoder and the buffer encoder.
fn encode_digits(value: u128) -> (digits: Vec<char>)
    ensures
        is_canonical(digits@),
        base62_value(digits@) == value as int,
        digits@.len() == encoded_len(value as int),
        digits@.len() <= 22,
{
    let mut digits: Vec<char> = Vec::new();
    proof {
        lemma_pow0(62);
        assert(base62_value(Seq::<char>::empty()) == 0);
    }
    if value == 0 {
        let c0 = digit_char(0);
        digits.push(c0);
        proof {
            assert(digits@ =~= seq![c0]);
            assert(digits@.drop_last() =~= Seq::<char>::empty());
            assert(digits@.last() == c0);
            assert(base62_value(digits@) == 0);
            lemma_pow1(62);
        }
    }
    let mut v: u128 = value;
    while v > 0
        invariant
            all_digits(digits@),
            v as int * pow(62, digits@.len()) + base62_value(digits@) == value as int,
            v == 0 ==> digits@.len() >= 1,
            digits@.len() > 1 ==> digit_of(digits@[0]) != 0 || v > 0,
            v > 0 ==> encoded_len(value as int) == digits@.len() + encoded_len(v as int),
            v == 0 ==> digits@.len() == encoded_len(value as int),
        decreases v,
    {
        let ghost prev = digits@;
        let ghost vi = v as int;
        let d: u8 = (v % 62) as u8;
        let c = digit_char(d);
        digits.insert(0, c);
        v = v / 62;
        proof {
            assert(digits@ =~= seq![c] + prev);
            lemma_value_prepend(c, prev);
            let q = pow(62, prev.len());
            assert(pow(62, prev.len() + 1) == 62 * q) by {
                reveal(pow);
            };
            assert(vi == 62 * (vi / 62) + (vi % 62)) by {
                vstd::arithmetic::div_mod::lemma_fundamental_div_mod(vi, 62);
            };
            assert((62 * (vi / 62) + (vi % 62)) * q == (vi / 62) * (62 * q) + (vi % 62) * q)
                by (nonlinear_arith);
        }
    }
    proof {
        lemma_pow0(62);
        lemma_encoded_len_max(value as int);
    }
    digits
}

/// Encodes a 128-bit value as its canonical base62 string: the shortest
/// alphabet-only string that denotes the value, at most 22 characters,
/// most significant digit first; the value zero encodes as `"0"`.
pub fn encode(value: u128) -> (s: String)
    ensures
        is_canonical(s@),
        base62_value(s@) == value as int,
        s@.len() == encoded_len(value as int),
        s@.len() <= 22,
{
    let digits = encode_digits(value);
    let mut s = String::new();
    let mut i: usize = 0;
    while i < digits.len()
        invariant
            0 <= i <= digits@.len(),
            s@ == digits@.take(i as int),
        decreases digits@.len() - i,
    {
        let c = digits[i];
        push_char(&mut s, c);
        proof {
            assert(s@ =~= digits@.take(i as int + 1));
        }
        i = i + 1;
    }
    proof {
        assert(digits@.take(digits@.len() as int) =~= digits@);
    }
    s
}

/// The digit characters of a byte buffer, read one byte per character.
pub open spec fn chars_of_bytes(bs: Seq<u8>) -> Seq<char> {
    bs.map_values(|b: u8| b as char)
}

/// Encodes a 128-bit value into a caller-supplied byte buffer, filling its
/// front with the ASCII bytes of the canonical encoding and reporting how
/// many bytes were written; the rest of the buffer is left as it was. A
/// buffer of 22 bytes always suffices. A buffer with fewer bytes than the
/// value has digits is a caller-contract violation: the call fails with
/// `EncodeError` and writes nothing.
pub fn encode_bytes(value: u128, buf: &mut Vec<u8>) -> (r: Result<usize, Base62Error>)
    ensures
        final(buf)@.len() == old(buf)@.len(),
        r is Ok <==> old(buf)@.len() >= encoded_len(value as int),
        r is Ok ==> {
            let n = r->Ok_0 as int;
            &&& n == encoded_len(value as int)
            &&& is_canonical(chars_of_bytes(final(buf)@.take(n)))
            &&& base62_value(chars_of_bytes(final(buf)@.take(n))) == value as int
            &&& final(buf)@.skip(n) == old(buf)@.skip(n)
        },
        r is Err ==> r->Err_0 == Base62Error::EncodeError && final(buf)@ == old(buf)@,
{
    let digits = encode_digits(value);
    let n = digits.len();
    if buf.len() < n {
        return Err(Base62Error::EncodeError);
    }
    let ghost orig = buf@;
    let mut i: usize = 0;
    while i < n
        invariant
            0 <= i <= n,
            n == digits@.len(),
            all_digits(digits@),
            n <= buf@.len(),
            buf@.len() == orig.len(),
            forall|j: int| 0 <= j < i ==> (#[trigger] buf@[j]) as char == digits@[j],
            forall|j: int| i <= j < orig.len() ==> #[trigger] buf@[j] == orig[j],
        decreases n - i,
    {
        let c = digits[i];
        let d = digit_value(c).unwrap();
        let b = digit_byte(d);
        proof {
            lemma_digit_injective(b as char, c);
        }
        buf[i] = b;
        i = i + 1;
    }
    proof {
        assert(chars_of_bytes(buf@.take(n as int)) =~= digits@);
        assert(buf@.skip(n as int) =~= orig.skip(n as int));
    }
    Ok(n)
}

/// Decodes a base62 string back to its 128-bit value, Horner's rule with
/// overflow-checked arithmetic. It succeeds exactly on the non-empty
/// alphabet-only strings whose value fits in 128 bits (so leading zero
/// digits are accepted); everything else fails with `DecodeError` — an
/// empty string, a character outside the alphabet, or a magnitude beyond
/// 2^128 - 1.
pub fn decode(input: &str) -> (r: Result<u128, Base62Error>)
    ensures
        r is Ok <==> decode_ok(input@),
        r is Ok ==> r->Ok_0 as int == base62_value(input@),
        r is Err ==> r->Err_0 == Base62Error::DecodeError,
{
    let n = input.unicode_len();
    if n == 0 {
        return Err(Base62Error::DecodeError);
    }
    let mut acc: u128 = 0;
    let mut i: usize = 0;
    while i < n
        invariant
            0 <= i <= n,
            n == input@.len(),
            all_digits(input@.take(i as int)),
            acc as int == base62_value(input@.take(i as int)),
        decreases n - i,
    {
        let c = input.get_char(i);
        proof {
            assert(input@.take(i as int + 1) =~= input@.take(i as int).push(c));
            assert(input@.take(i as int + 1).drop_last() =~= input@.take(i as int));
        }
        match digit_value(c) {
            None => {
                proof {
                    assert(!is_digit(input@[i as int]));
                }
                return Err(Base62Error::DecodeError);
            },
            Some(d) => {
                let next = match acc.checked_mul(62) {
                    Some(m) => m.checked_add(d as u128),
                    None => None,
                };
                match next {
                    Some(a) => {
                        acc = a;
                    },
                    None => {
                        proof {
                            lemma_decode_overflow(input@, i as int, acc as int * 62 + d);
                        }
                        return Err(Base62Error::DecodeError);
                    },
                }
            },
        }
        i = i + 1;
    }
    proof {
        assert(input@.take(n as int) =~= input@);
    }
    Ok(acc)
}

/// If some prefix of an alphabet-only string already denotes more than the
/// largest 128-bit value, so does the whole string: later digits only scale
/// it up further.
proof fn lemma_decode_overflow(s: Seq<char>, i: int, vt: int)
    requires
        0 <= i < s.len(),
        vt == base62_value(s.take(i + 1)),
        vt > u128::MAX,
    ensures
        !decode_ok(s),
{
    let t = s.take(i + 1);
    let rest = s.skip(i + 1);
    assert(s =~= t + rest);
    if all_digits(s) {
        assert(all_digits(rest)) by {
            assert(forall|j: int| 0 <= j < rest.len() ==> rest[j] == #[trigger] s[j + i + 1]);
        };
        lemma_value_concat(t, rest);
        lemma_value_nonneg(rest);
        vstd::arithmetic::power::lemma_pow_positive(62, rest.len());
        assert(vt * pow(62, rest.len()) >= vt) by (nonlinear_arith)
            requires
                vt >= 0,
                pow(62, rest.len()) >= 1,
        {
        }
        assert(base62_value(s) > u128::MAX);
    }
}

} // verus!
