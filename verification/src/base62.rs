//! Base62 text form of a KSUID: 27 characters from `0-9A-Za-z` that spell
//! the KSUID's 160-bit big-endian value, most significant digit first.
use vstd::prelude::*;
use crate::error::Error;
use crate::positional::{
    be_value, digits_below, lemma_be_append, lemma_be_bound, lemma_be_digit, lemma_be_injective,
    lemma_lex_order_value, lemma_power_adds, lemma_power_positive, lemma_to_digits_below,
    lemma_to_digits_of_value, lemma_to_digits_value, lex_order, num_order, power, to_digits,
};
use vstd::arithmetic::div_mod::{
    lemma_breakdown,
    lemma_div_denominator,
    lemma_fundamental_div_mod,
    lemma_fundamental_div_mod_converse,
    lemma_small_div_converse,
    lemma_small_mod,
};

verus! {

/// Length of an encoded KSUID string.
pub const ENCODED_LEN: usize = 27;

/// Length of a decoded KSUID in bytes.
pub const DECODED_LEN: usize = 20;

/// The character that stands for the base62 digit `d`: `0-9`, then `A-Z`, then `a-z`.
pub open spec fn alphabet(d: u8) -> u8 {
    if d < 10 {
        (d + 48) as u8
    } else if d < 36 {
        (d + 55) as u8
    } else {
        (d + 61) as u8
    }
}

/// `c` is one of the 62 characters of the alphabet.
pub open spec fn is_base62_char(c: u8) -> bool {
    (48 <= c && c <= 57) || (65 <= c && c <= 90) || (97 <= c && c <= 122)
}

/// The digit that an alphabet character stands for.
pub open spec fn digit_of(c: u8) -> u8 {
    if c <= 57 {
        (c - 48) as u8
    } else if c <= 90 {
        (c - 55) as u8
    } else {
        (c - 61) as u8
    }
}

/// Every character of `s` is in the alphabet.
pub open spec fn all_base62(s: Seq<u8>) -> bool {
    forall|i: int| 0 <= i < s.len() ==> is_base62_char(#[trigger] s[i])
}

/// The digits that the characters of `s` stand for.
pub open spec fn digit_values(s: Seq<u8>) -> Seq<u8> {
    s.map_values(|c: u8| digit_of(c))
}

/// The number that a base62 string spells.
pub open spec fn base62_value(s: Seq<u8>) -> nat {
    be_value(digit_values(s), 62)
}

/// Index of the first character of `s` outside the alphabet (`s.len()` if none).
pub open spec fn first_invalid(s: Seq<u8>) -> nat
    decreases s.len(),
{
    if s.len() == 0 {
        0
    } else if !is_base62_char(s[0]) {
        0
    } else {
        1 + first_invalid(s.drop_first())
    }
}

/// What decoding the characters `s` gives: the 20 bytes of the value they
/// spell, or the error for the first character outside the alphabet, or an
/// overflow when the value needs more than 20 bytes.
pub open spec fn spec_decode(s: Seq<u8>) -> Result<Seq<u8>, Error> {
    if !all_base62(s) {
        Err(Error::InvalidCharacter(s[first_invalid(s) as int] as char))
    } else if base62_value(s) >= power(256, 20) {
        Err(Error::ValueOverflow)
    } else {
        Ok(to_digits(base62_value(s), 256, 20))
    }
}

/// The 27-character base62 spelling of the big-endian value of `src`.
pub open spec fn spec_encode(src: Seq<u8>) -> Seq<u8> {
    to_digits(be_value(src, 256), 62, 27).map_values(|d: u8| alphabet(d))
}

/// The value of a sequence of 32-bit words, most significant first.
pub open spec fn words_value(w: Seq<u32>) -> nat
    decreases w.len(),
{
    if w.len() == 0 {
        0
    } else {
        words_value(w.drop_last()) * 4294967296 + w.last() as nat
    }
}

pub proof fn lemma_alphabet_digit(d: u8)
    requires
        d < 62,
    ensures
        is_base62_char(alphabet(d)),
        digit_of(alphabet(d)) == d,
{
}

pub proof fn lemma_digit_alphabet(c: u8)
    requires
        is_base62_char(c),
    ensures
        digit_of(c) < 62,
        alphabet(digit_of(c)) == c,
{
}

pub proof fn lemma_power_values()
    ensures
        power(256, 1) == 256,
        power(256, 2) == 65536,
        power(256, 3) == 16777216,
        power(256, 4) == 4294967296,
        power(62, 1) == 62,
{
    assert(power(256, 0) == 1);
    assert(power(256, 1) == 256 * power(256, 0));
    assert(power(256, 2) == 256 * power(256, 1));
    assert(power(256, 3) == 256 * power(256, 2));
    assert(power(256, 4) == 256 * power(256, 3));
    assert(power(62, 0) == 1);
    assert(power(62, 1) == 62 * power(62, 0));
}

/// The value of four bytes, most significant first.
pub proof fn lemma_be4(s: Seq<u8>)
    requires
        s.len() == 4,
    ensures
        be_value(s, 256) == s[0] as nat * 16777216 + s[1] as nat * 65536 + s[2] as nat * 256
            + s[3] as nat,
{
    let s3 = s.drop_last();
    let s2 = s3.drop_last();
    let s1 = s2.drop_last();
    let s0 = s1.drop_last();
    assert(s0.len() == 0);
    assert(be_value(s0, 256) == 0);
    assert(be_value(s1, 256) == be_value(s0, 256) * 256 + s[0] as nat);
    assert(be_value(s2, 256) == be_value(s1, 256) * 256 + s[1] as nat);
    assert(be_value(s3, 256) == be_value(s2, 256) * 256 + s[2] as nat);
    assert(be_value(s, 256) == be_value(s3, 256) * 256 + s[3] as nat);
}

/// One step of long division: if `hi == d * q + c`, then appending a digit
/// `w` in base `b` divides as `q` with the digit `(c * b + w) / d` appended.
pub proof fn lemma_division_step(hi: nat, q: nat, c: nat, w: nat, b: nat, d: nat)
    requires
        hi == d * q + c,
        c < d,
        w < b,
        d > 0,
    ensures
        hi * b + w == d * (q * b + (c * b + w) / d) + (c * b + w) % d,
        (c * b + w) % d < d,
        (c * b + w) / d < b,
{
    let t = c * b + w;
    lemma_fundamental_div_mod(t as int, d as int);
    assert(hi * b + w == d * (q * b + t / d) + t % d) by (nonlinear_arith)
        requires
            hi == d * q + c,
            t == c * b + w,
            t == d * (t / d) + t % d,
    ;
    assert(t % d < d) by (nonlinear_arith)
        requires
            d > 0,
    ;
    assert(t < d * b) by (nonlinear_arith)
        requires
            c < d,
            w < b,
            t == c * b + w,
    ;
    assert(t / d < b) by (nonlinear_arith)
        requires
            t < d * b,
            d > 0,
    ;
}

fn alphabet_char(d: u8) -> (c: u8)
    requires
        d < 62,
    ensures
        c == alphabet(d),
{
    if d < 10 {
        d + 48
    } else if d < 36 {
        d + 55
    } else {
        d + 61
    }
}

fn decode_char(c: u8) -> (r: Option<u8>)
    ensures
        r == (if is_base62_char(c) {
            Some(digit_of(c))
        } else {
            None
        }),
{
    if c >= 48 && c <= 57 {
        Some(c - 48)
    } else if c >= 65 && c <= 90 {
        Some(c - 55)
    } else if c >= 97 && c <= 122 {
        Some(c - 61)
    } else {
        None
    }
}

/// Encodes 20 bytes as the 27 base62 digits of their big-endian value.
pub fn encode(src: &[u8; 20]) -> (dst: [u8; 27])
    ensures
        dst@ == spec_encode(src@),
{
    let ghost n = be_value(src@, 256);
    proof {
        lemma_power_values();
    }
    // Load the 20 bytes as five 32-bit words, most significant first.
    let mut words = [0u32; 5];
    let mut j: usize = 0;
    while j < 5
        invariant
            j <= 5,
            words_value(words@.take(j as int)) == be_value(src@.take(4 * j), 256),
        decreases 5 - j,
    {
        let b0 = src[4 * j] as u32;
        let b1 = src[4 * j + 1] as u32;
        let b2 = src[4 * j + 2] as u32;
        let b3 = src[4 * j + 3] as u32;
        let w = b0 * 16777216 + b1 * 65536 + b2 * 256 + b3;
        proof {
            let chunk = src@.subrange(4 * j, 4 * j + 4);
            assert(chunk.len() == 4);
            lemma_power_values();
            lemma_be4(chunk);
            assert(src@.take(4 * j) + chunk =~= src@.take(4 * (j + 1)));
            lemma_be_append(src@.take(4 * j), chunk, 256);
            assert(power(256, chunk.len()) == 4294967296);
        }
        let ghost before = words@;
        words[j] = w;
        proof {
            let chunk = src@.subrange(4 * j, 4 * j + 4);
            assert(words@.take(j as int) =~= before.take(j as int));
            assert(words@.take(j + 1).drop_last() =~= words@.take(j as int));
            assert(words@.take(j + 1).last() == w);
            assert(w as nat == be_value(chunk, 256));
            assert(words_value(words@.take(j + 1)) == words_value(before.take(j as int))
                * 4294967296 + w as nat);
            assert(be_value(src@.take(4 * (j + 1)), 256) == be_value(src@.take(4 * j), 256)
                * 4294967296 + be_value(chunk, 256));
        }
        j += 1;
    }
    proof {
        assert(words@.take(5) =~= words@);
        assert(src@.take(20) =~= src@);
        assert(words_value(words@) == n);
        assert(power(62, 0) == 1);
        assert(n / 1 == n);
    }
    let mut dst = [48u8; 27];
    let mut i: usize = 27;
    while i > 0
        invariant
            i <= 27,
            words_value(words@) == n / power(62, (27 - i) as nat),
            forall|p: int|
                i <= p < 27 ==> dst[p] == alphabet(((n / power(62, (26 - p) as nat)) % 62) as u8),
        decreases i,
    {
        i -= 1;
        let ghost old_words = words@;
        let mut carry: u64 = 0;
        let mut j: usize = 0;
        while j < 5
            invariant
                j <= 5,
                carry < 62,
                old_words.len() == 5,
                words_value(old_words.take(j as int)) == 62 * words_value(words@.take(j as int))
                    + carry,
                words@.skip(j as int) == old_words.skip(j as int),
            decreases 5 - j,
        {
            let w = words[j];
            proof {
                assert(old_words[j as int] == old_words.skip(j as int)[0]);
                assert(words@[j as int] == words@.skip(j as int)[0]);
                lemma_division_step(
                    words_value(old_words.take(j as int)),
                    words_value(words@.take(j as int)),
                    carry as nat,
                    w as nat,
                    4294967296,
                    62,
                );
                assert(old_words.take(j + 1).drop_last() =~= old_words.take(j as int));
            }
            let value: u64 = carry * 4294967296 + w as u64;
            let ghost before = words@;
            words[j] = (value / 62) as u32;
            carry = value % 62;
            proof {
                assert(words@.take(j as int) =~= before.take(j as int));
                assert(words@.take(j + 1).drop_last() =~= words@.take(j as int));
                assert(words@.skip(j + 1) =~= old_words.skip(j + 1)) by {
                    assert forall|t: int| 0 <= t < words@.skip(j + 1).len() implies #[trigger] words@.skip(
                        j + 1,
                    )[t] == old_words.skip(j + 1)[t] by {
                        assert(before.skip(j as int)[t + 1] == old_words.skip(j as int)[t + 1]);
                    }
                }
            }
            j += 1;
        }
        proof {
            assert(old_words.take(5) =~= old_words);
            assert(words@.take(5) =~= words@);
            let k = (26 - i) as nat;
            let wv = words_value(old_words);
            lemma_fundamental_div_mod_converse(
                wv as int,
                62,
                words_value(words@) as int,
                carry as int,
            );
            lemma_power_positive(62, k);
            lemma_div_denominator(n as int, power(62, k) as int, 62);
            lemma_power_adds(62, k, 1);
            assert((27 - i) as nat == k + 1);
        }
        dst[i] = alphabet_char(carry as u8);
    }
    proof {
        assert(dst@ =~= spec_encode(src@));
    }
    dst
}

/// A digit string is all zeros exactly when its value is zero.
pub proof fn lemma_be_zero(s: Seq<u8>, base: nat)
    requires
        digits_below(s, base),
    ensures
        (be_value(s, base) == 0) <==> (forall|i: int| 0 <= i < s.len() ==> s[i] == 0),
    decreases s.len(),
{
    if s.len() > 0 {
        let t = s.drop_last();
        assert(digits_below(t, base)) by {
            assert forall|i: int| 0 <= i < t.len() implies (#[trigger] t[i]) < base by {
                assert(t[i] == s[i]);
            }
        }
        lemma_be_zero(t, base);
        assert(base > 0) by {
            assert(s[0] < base);
        }
        if be_value(s, base) == 0 {
            assert forall|i: int| 0 <= i < s.len() implies s[i] == 0 by {
                lemma_be_digit(s, base, i);
                lemma_power_positive(base, (s.len() - 1 - i) as nat);
                let p = power(base, (s.len() - 1 - i) as nat);
                assert((0nat / p) % base == 0) by (nonlinear_arith)
                    requires
                        p > 0,
                        base > 0,
                ;
            }
        }
        if forall|i: int| 0 <= i < s.len() ==> s[i] == 0 {
            assert forall|i: int| 0 <= i < t.len() implies t[i] == 0 by {
                assert(t[i] == s[i]);
            }
            assert(s.last() == s[s.len() - 1]);
            assert(be_value(t, base) == 0);
            assert(be_value(s, base) == 0 * base + 0);
        }
    }
}

fn decode_digits(src: &[u8; 27]) -> (r: Result<[u8; 20], Error>)
    ensures
        all_base62(src@) && base62_value(src@) < power(256, 20) ==> (match r {
            Ok(bytes) => be_value(bytes@, 256) == base62_value(src@),
            Err(_) => false,
        }),
        all_base62(src@) && base62_value(src@) >= power(256, 20) ==> r == Err::<[u8; 20], Error>(
            Error::ValueOverflow,
        ),
        !all_base62(src@) ==> exists|i: int|
            0 <= i < 27 && all_base62(#[trigger] src@.take(i)) && !is_base62_char(src@[i]) && r
                == Err::<[u8; 20], Error>(Error::InvalidCharacter(src@[i] as char)),
{
    // Convert base62 characters to digit values.
    let mut digits = [0u8; 27];
    let mut i: usize = 0;
    while i < 27
        invariant
            i <= 27,
            all_base62(src@.take(i as int)),
            forall|t: int| 0 <= t < i ==> digits[t] == digit_of(#[trigger] src@[t]),
        decreases 27 - i,
    {
        let b = src[i];
        match decode_char(b) {
            Some(d) => {
                digits[i] = d;
            },
            None => {
                assert(src@.take(i as int) =~= src@.take(i as int));
                return Err(Error::InvalidCharacter(b as char));
            },
        }
        proof {
            assert forall|t: int| 0 <= t < i + 1 implies is_base62_char(
                #[trigger] src@.take(i + 1)[t],
            ) by {
                if t < i {
                    assert(src@.take(i + 1)[t] == src@.take(i as int)[t]);
                }
            }
        }
        i += 1;
    }
    let ghost m = base62_value(src@);
    proof {
        assert(src@.take(27) =~= src@);
        assert(digits@ =~= digit_values(src@));
        assert forall|t: int| 0 <= t < 27 implies (#[trigger] digits@[t]) < 62 by {
            lemma_digit_alphabet(src@[t]);
        }
        assert(power(256, 0) == 1);
        assert(m / 1 == m);
        assert(m % 1 == 0);
        assert(be_value(Seq::<u8>::empty(), 256) == 0);
    }
    let mut dst = [0u8; 20];
    // Extract 32-bit words, least significant first.
    let mut k: usize = 0;
    while k < 5
        invariant
            k <= 5,
            digits_below(digits@, 62),
            be_value(digits@, 62) == m / power(256, (4 * k) as nat),
            be_value(dst@.skip(20 - 4 * k), 256) == m % power(256, (4 * k) as nat),
        decreases 5 - k,
    {
        let ghost old_digits = digits@;
        let mut carry: u64 = 0;
        let mut j: usize = 0;
        while j < 27
            invariant
                j <= 27,
                carry < 4294967296,
                old_digits.len() == 27,
                digits_below(old_digits, 62),
                digits_below(digits@.take(j as int), 62),
                be_value(old_digits.take(j as int), 62) == 4294967296 * be_value(
                    digits@.take(j as int),
                    62,
                ) + carry,
                digits@.skip(j as int) == old_digits.skip(j as int),
            decreases 27 - j,
        {
            let d = digits[j];
            proof {
                assert(old_digits[j as int] == old_digits.skip(j as int)[0]);
                assert(digits@[j as int] == digits@.skip(j as int)[0]);
                lemma_division_step(
                    be_value(old_digits.take(j as int), 62),
                    be_value(digits@.take(j as int), 62),
                    carry as nat,
                    d as nat,
                    62,
                    4294967296,
                );
                assert(old_digits.take(j + 1).drop_last() =~= old_digits.take(j as int));
            }
            let value: u64 = carry * 62 + d as u64;
            let ghost before = digits@;
            digits[j] = (value / 4294967296) as u8;
            carry = value % 4294967296;
            proof {
                assert(digits@.take(j as int) =~= before.take(j as int));
                assert(digits@.take(j + 1).drop_last() =~= digits@.take(j as int));
                assert forall|t: int| 0 <= t < j + 1 implies (#[trigger] digits@.take(j + 1)[t])
                    < 62 by {
                    if t < j {
                        assert(digits@.take(j + 1)[t] == before.take(j as int)[t]);
                    }
                }
                assert(digits@.skip(j + 1) =~= old_digits.skip(j + 1)) by {
                    assert forall|t: int| 0 <= t < digits@.skip(j + 1).len() implies #[trigger] digits@.skip(
                        j + 1,
                    )[t] == old_digits.skip(j + 1)[t] by {
                        assert(before.skip(j as int)[t + 1] == old_digits.skip(j as int)[t + 1]);
                    }
                }
            }
            j += 1;
        }
        let offset = 16 - 4 * k;
        let ghost old_dst = dst@;
        dst[offset] = ((carry / 16777216) % 256) as u8;
        dst[offset + 1] = ((carry / 65536) % 256) as u8;
        dst[offset + 2] = ((carry / 256) % 256) as u8;
        dst[offset + 3] = (carry % 256) as u8;
        proof {
            assert(old_digits.take(27) =~= old_digits);
            assert(digits@.take(27) =~= digits@);
            let pk = power(256, (4 * k) as nat);
            let dv = be_value(old_digits, 62);
            lemma_fundamental_div_mod_converse(
                dv as int,
                4294967296,
                be_value(digits@, 62) as int,
                carry as int,
            );
            lemma_power_positive(256, (4 * k) as nat);
            lemma_power_values();
            lemma_power_adds(256, (4 * k) as nat, 4);
            assert((4 * (k + 1)) as nat == (4 * k) as nat + 4);
            lemma_div_denominator(m as int, pk as int, 4294967296);
            // the four new bytes spell `carry`
            let word = to_digits(carry as nat, 256, 4);
            lemma_to_digits_value(carry as nat, 256, 4);
            lemma_small_mod(carry as nat, 4294967296);
            assert(carry as nat / 1 == carry as nat);
            assert(power(256, 0) == 1);
            let new_tail = dst@.skip(20 - 4 * (k + 1));
            let old_tail = old_dst.skip(20 - 4 * k);
            assert(new_tail =~= word + old_tail);
            lemma_be_append(word, old_tail, 256);
            assert(old_tail.len() == (4 * k) as nat);
            lemma_breakdown(m as int, pk as int, 4294967296);
            assert(pk * ((m / pk) % 4294967296) == ((m / pk) % 4294967296) * pk) by (nonlinear_arith);
        }
        k += 1;
    }
    proof {
        assert(dst@.skip(0) =~= dst@);
        assert((4 * 5) as nat == 20);
    }
    // Check for overflow: all digits should be zero after extraction.
    let mut t: usize = 0;
    while t < 27
        invariant
            t <= 27,
            forall|u: int| 0 <= u < t ==> digits@[u] == 0,
            digits_below(digits@, 62),
            be_value(digits@, 62) == m / power(256, 20),
            all_base62(src@),
            m == base62_value(src@),
        decreases 27 - t,
    {
        if digits[t] != 0 {
            proof {
                lemma_be_zero(digits@, 62);
                lemma_power_positive(256, 20);
                assert(m / power(256, 20) != 0);
                assert(m >= power(256, 20)) by {
                    if m < power(256, 20) {
                        assert(m / power(256, 20) == 0) by (nonlinear_arith)
                            requires
                                m < power(256, 20),
                        ;
                    }
                }
            }
            return Err(Error::ValueOverflow);
        }
        t += 1;
    }
    proof {
        lemma_be_zero(digits@, 62);
        lemma_power_positive(256, 20);
        lemma_small_div_converse(m as int, power(256, 20) as int);
        lemma_small_mod(m, power(256, 20));
    }
    Ok(dst)
}

pub proof fn lemma_first_invalid(s: Seq<u8>, i: int)
    requires
        0 <= i < s.len(),
        all_base62(s.take(i)),
        !is_base62_char(s[i]),
    ensures
        first_invalid(s) == i,
    decreases i,
{
    if i > 0 {
        assert(is_base62_char(s.take(i)[0]));
        let t = s.drop_first();
        assert(all_base62(t.take(i - 1))) by {
            assert forall|j: int| 0 <= j < i - 1 implies is_base62_char(#[trigger] t.take(i - 1)[j]) by {
                assert(t.take(i - 1)[j] == s.take(i)[j + 1]);
            }
        }
        lemma_first_invalid(t, i - 1);
    }
}

/// Every byte string is a digit string in base 256.
pub proof fn lemma_bytes_below(s: Seq<u8>)
    ensures
        digits_below(s, 256),
{
}

/// Decodes 27 base62 characters into the 20 bytes of the value they spell.
///
/// The first character outside the alphabet is reported; a value of
/// 2^160 or more is an overflow.
pub fn decode(src: &[u8; 27]) -> (r: Result<[u8; 20], Error>)
    ensures
        r matches Ok(b) ==> spec_decode(src@) == Ok::<Seq<u8>, Error>(b@),
        r matches Err(e) ==> spec_decode(src@) == Err::<Seq<u8>, Error>(e),
{
    let r = decode_digits(src);
    proof {
        let m = base62_value(src@);
        if all_base62(src@) {
            if m < power(256, 20) {
                let b = r->Ok_0@;
                lemma_to_digits_value(m, 256, 20);
                lemma_to_digits_below(m, 256, 20);
                lemma_small_mod(m, power(256, 20));
                lemma_bytes_below(b);
                lemma_be_injective(b, to_digits(m, 256, 20), 256);
            }
        } else {
            let i = choose|i: int|
                0 <= i < 27 && all_base62(#[trigger] src@.take(i)) && !is_base62_char(src@[i])
                    && r == Err::<[u8; 20], Error>(Error::InvalidCharacter(src@[i] as char));
            lemma_first_invalid(src@, i);
        }
    }
    r
}

/// Every 160-bit value has 27 base62 digits: `2^160 < 62^27`.
pub proof fn lemma_width_fits()
    ensures
        power(256, 20) == 1461501637330902918203684832716283019655932542976,
        power(62, 27) == 2480707824361381849652170924082266893544595652608,
        power(256, 20) < power(62, 27),
{
    reveal_with_fuel(power, 28);
}

/// The alphabet keeps the order of the digits, so comparing spellings
/// compares the digits.
pub proof fn lemma_lex_order_alphabet(d1: Seq<u8>, d2: Seq<u8>)
    requires
        digits_below(d1, 62),
        digits_below(d2, 62),
    ensures
        lex_order(d1.map_values(|d: u8| alphabet(d)), d2.map_values(|d: u8| alphabet(d)))
            == lex_order(d1, d2),
    decreases d1.len(),
{
    let m1 = d1.map_values(|d: u8| alphabet(d));
    let m2 = d2.map_values(|d: u8| alphabet(d));
    if d1.len() > 0 && d2.len() > 0 {
        let r1 = d1.drop_first();
        let r2 = d2.drop_first();
        assert(digits_below(r1, 62)) by {
            assert forall|j: int| 0 <= j < r1.len() implies (#[trigger] r1[j]) < 62 by {
                assert(r1[j] == d1[j + 1]);
            }
        }
        assert(digits_below(r2, 62)) by {
            assert forall|j: int| 0 <= j < r2.len() implies (#[trigger] r2[j]) < 62 by {
                assert(r2[j] == d2[j + 1]);
            }
        }
        lemma_lex_order_alphabet(r1, r2);
        assert(m1.drop_first() =~= r1.map_values(|d: u8| alphabet(d)));
        assert(m2.drop_first() =~= r2.map_values(|d: u8| alphabet(d)));
        assert(d1[0] < 62 && d2[0] < 62);
    }
}

/// Law: decoding the base62 spelling of 20 bytes gives those bytes back.
pub proof fn lemma_decode_encode(src: Seq<u8>)
    requires
        src.len() == 20,
    ensures
        spec_encode(src).len() == 27,
        spec_decode(spec_encode(src)) == Ok::<Seq<u8>, Error>(src),
{
    let n = be_value(src, 256);
    let d = to_digits(n, 62, 27);
    let e = spec_encode(src);
    lemma_to_digits_below(n, 62, 27);
    lemma_bytes_below(src);
    lemma_be_bound(src, 256);
    lemma_width_fits();
    assert forall|i: int| 0 <= i < 27 implies is_base62_char(#[trigger] e[i]) by {
        lemma_alphabet_digit(d[i]);
    }
    assert(digit_values(e) =~= d) by {
        assert forall|i: int| 0 <= i < 27 implies digit_values(e)[i] == d[i] by {
            lemma_alphabet_digit(d[i]);
        }
    }
    lemma_to_digits_value(n, 62, 27);
    lemma_small_mod(n, power(62, 27));
    lemma_to_digits_of_value(src, 256);
}

/// Law: a base62 string that decodes is the spelling of what it decodes to.
pub proof fn lemma_encode_decode(s: Seq<u8>)
    requires
        s.len() == 27,
        spec_decode(s) is Ok,
    ensures
        spec_decode(s) matches Ok(b) && b.len() == 20 && spec_encode(b) == s,
{
    let d = digit_values(s);
    let m = base62_value(s);
    let b = to_digits(m, 256, 20);
    assert(digits_below(d, 62)) by {
        assert forall|i: int| 0 <= i < d.len() implies (#[trigger] d[i]) < 62 by {
            lemma_digit_alphabet(s[i]);
        }
    }
    lemma_to_digits_value(m, 256, 20);
    lemma_small_mod(m, power(256, 20));
    lemma_to_digits_of_value(d, 62);
    assert(spec_encode(b) =~= s) by {
        assert forall|i: int| 0 <= i < 27 implies spec_encode(b)[i] == s[i] by {
            lemma_digit_alphabet(s[i]);
        }
    }
}

/// Law: base62 spellings of 20-byte values compare as the values do, and
/// as the bytes do.
pub proof fn lemma_encode_order(a: Seq<u8>, b: Seq<u8>)
    requires
        a.len() == 20,
        b.len() == 20,
    ensures
        lex_order(spec_encode(a), spec_encode(b)) == num_order(
            be_value(a, 256) as int,
            be_value(b, 256) as int,
        ),
        lex_order(spec_encode(a), spec_encode(b)) == lex_order(a, b),
{
    let na = be_value(a, 256);
    let nb = be_value(b, 256);
    let da = to_digits(na, 62, 27);
    let db = to_digits(nb, 62, 27);
    lemma_to_digits_below(na, 62, 27);
    lemma_to_digits_below(nb, 62, 27);
    lemma_lex_order_alphabet(da, db);
    lemma_lex_order_value(da, db, 62);
    lemma_to_digits_value(na, 62, 27);
    lemma_to_digits_value(nb, 62, 27);
    lemma_bytes_below(a);
    lemma_bytes_below(b);
    lemma_be_bound(a, 256);
    lemma_be_bound(b, 256);
    lemma_width_fits();
    lemma_small_mod(na, power(62, 27));
    lemma_small_mod(nb, power(62, 27));
    lemma_lex_order_value(a, b, 256);
}

} // verus!
