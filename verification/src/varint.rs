//! Unsigned LEB128 varints: seven bits per byte, least significant group
//! first, the high bit set on every byte but the last.
use vstd::prelude::*;
use crate::positional::{lemma_power_adds, power};
use vstd::arithmetic::power2::{lemma2_to64, lemma_pow2_adds, pow2};
use vstd::bits::lemma_u64_shl_is_mul;

verus! {

/// The varint encoding of `v`.
pub open spec fn spec_varint(v: nat) -> Seq<u8>
    decreases v,
{
    if v < 128 {
        seq![v as u8]
    } else {
        seq![(v % 128 + 128) as u8] + spec_varint(v / 128)
    }
}

/// The number of bytes up to and including the first byte of `s` whose high
/// bit is clear, or 0 when every byte has its high bit set.
pub open spec fn varint_len(s: Seq<u8>) -> nat
    decreases s.len(),
{
    if s.len() == 0 {
        0
    } else if s[0] < 128 {
        1
    } else {
        let r = varint_len(s.drop_first());
        if r == 0 {
            0
        } else {
            r + 1
        }
    }
}

/// The number the low seven bits of the first `n` bytes of `s` spell, least
/// significant group first.
pub open spec fn varint_value(s: Seq<u8>, n: nat) -> nat
    decreases n,
{
    if n == 0 || s.len() == 0 {
        0
    } else {
        (s[0] % 128) as nat + 128 * varint_value(s.drop_first(), (n - 1) as nat)
    }
}

/// What reading a varint at the start of `s` gives: its value modulo 2^64
/// and its length, or nothing when no terminating byte is among the first
/// ten bytes.
pub open spec fn spec_decode_varint(s: Seq<u8>) -> Option<(nat, nat)> {
    let n = varint_len(s);
    if n == 0 || n > 10 {
        None
    } else {
        Some((varint_value(s, n) % 18446744073709551616, n))
    }
}

/// Appends the varint encoding of `value` to `buf`.
pub fn encode_varint(buf: &mut Vec<u8>, value: u64)
    ensures
        final(buf)@ == old(buf)@ + spec_varint(value as nat),
{
    let ghost orig = value as nat;
    let mut value = value;
    while value >= 0x80
        invariant
            buf@ + spec_varint(value as nat) == old(buf)@ + spec_varint(orig),
        decreases value,
    {
        let ghost before = buf@;
        buf.push(((value % 128) as u8) + 0x80);
        proof {
            assert(spec_varint(value as nat) == seq![(value % 128 + 128) as u8] + spec_varint(
                value as nat / 128,
            ));
            assert(buf@ + spec_varint(value as nat / 128) =~= before + spec_varint(value as nat));
        }
        value = value / 128;
    }
    let ghost before = buf@;
    buf.push(value as u8);
    proof {
        assert(buf@ =~= before + spec_varint(value as nat));
    }
}

/// Reading the first `i + 1` bytes adds byte `i`'s seven bits at weight 128^i.
pub proof fn lemma_varint_value_step(s: Seq<u8>, i: nat)
    requires
        i < s.len(),
    ensures
        varint_value(s, i + 1) == varint_value(s, i) + (s[i as int] % 128) as nat * power(128, i),
    decreases i,
{
    if i > 0 {
        let t = s.drop_first();
        lemma_varint_value_step(t, (i - 1) as nat);
        assert(t[i - 1] == s[i as int]);
        let a = varint_value(t, (i - 1) as nat);
        let c = (s[i as int] % 128) as nat;
        let p = power(128, (i - 1) as nat);
        assert(power(128, i) == 128 * p);
        assert(128 * (a + c * p) == 128 * a + c * (128 * p)) by (nonlinear_arith);
    } else {
        assert(power(128, 0) == 1);
        assert(varint_value(s.drop_first(), 0) == 0);
    }
}

/// A prefix of bytes with the high bit set just shifts the varint length.
pub proof fn lemma_varint_len_skip(s: Seq<u8>, i: nat)
    requires
        i <= s.len(),
        forall|j: int| 0 <= j < i ==> s[j] >= 128,
    ensures
        varint_len(s) == (if varint_len(s.skip(i as int)) == 0 {
            0
        } else {
            varint_len(s.skip(i as int)) + i
        }),
    decreases i,
{
    if i > 0 {
        let t = s.drop_first();
        assert forall|j: int| 0 <= j < i - 1 implies t[j] >= 128 by {
            assert(t[j] == s[j + 1]);
        }
        lemma_varint_len_skip(t, (i - 1) as nat);
        assert(t.skip(i - 1) =~= s.skip(i as int));
        assert(s[0] >= 128);
    } else {
        assert(s.skip(0) =~= s);
    }
}

/// `2^(7 i)` is `128^i`.
pub proof fn lemma_pow2_seven(i: nat)
    ensures
        pow2(7 * i) == power(128, i),
    decreases i,
{
    lemma2_to64();
    if i > 0 {
        lemma_pow2_seven((i - 1) as nat);
        lemma_pow2_adds(7 * (i - 1) as nat, 7);
        assert(7 * (i - 1) as nat + 7 == 7 * i);
    } else {
        assert(power(128, 0) == 1);
    }
}

proof fn lemma_or_is_add(r: u64, c: u64, sh: u64)
    requires
        sh < 64,
        r < (1u64 << sh),
    ensures
        (r | (c << sh)) as int == r as int + (c << sh) as int,
{
    assert((r | (c << sh)) as int == r as int + (c << sh) as int) by (bit_vector)
        requires
            sh < 64,
            r < (1u64 << sh),
    ;
}

proof fn lemma_shl_63(c: u64)
    ensures
        c << 63u64 == (c % 2) << 63u64,
{
    assert(c << 63u64 == (c % 2) << 63u64) by (bit_vector);
}

/// Reads a varint at the start of `data`: its value and the number of bytes
/// it takes, or `None` when no terminating byte is among the first ten.
pub fn decode_varint(data: &[u8]) -> (r: Option<(u64, usize)>)
    ensures
        r matches Some((v, n)) ==> spec_decode_varint(data@) == Some((v as nat, n as nat)),
        r is None ==> spec_decode_varint(data@) is None,
{
    let mut result: u64 = 0;
    let mut shift: u64 = 0;
    let mut i: usize = 0;
    proof {
        lemma2_to64();
    }
    while i < data.len()
        invariant
            i <= data@.len(),
            i <= 10,
            shift == 7 * i,
            forall|j: int| 0 <= j < i ==> data@[j] >= 128,
            i <= 9 ==> result as nat == varint_value(data@, i as nat),
            i <= 9 ==> result < pow2(shift as nat),
        decreases data@.len() - i,
    {
        if shift >= 64 {
            proof {
                lemma_varint_len_skip(data@, i as nat);
            }
            return None;
        }
        let byte = data[i];
        let chunk = (byte & 0x7F) as u64;
        proof {
            assert(byte & 0x7F == byte % 128) by (bit_vector);
            lemma_pow2_seven(i as nat);
            lemma_varint_value_step(data@, i as nat);
            vstd::bits::lemma_u64_pow2_no_overflow(shift as nat);
            lemma_u64_shl_is_mul(1, shift);
            lemma_or_is_add(result, chunk, shift);
            let c = chunk as nat;
            let p = pow2(shift as nat);
            lemma2_to64();
            vstd::arithmetic::power2::lemma2_to64_rest();
            if i <= 8 {
                if shift < 56 {
                    vstd::arithmetic::power2::lemma_pow2_strictly_increases(shift as nat, 56);
                }
                assert(c * p < 0x8000000000000000) by (nonlinear_arith)
                    requires
                        c < 128,
                        p <= pow2(56),
                        pow2(56) == 0x100000000000000,
                {
                }
                lemma_u64_shl_is_mul(chunk, shift);
                lemma_pow2_adds(shift as nat, 7);
                assert(result + c * p < p * 128) by (nonlinear_arith)
                    requires
                        result < p,
                        c < 128,
                ;
            } else {
                lemma_shl_63(chunk);
                lemma_u64_shl_is_mul(chunk % 2, 63);
                let v9 = result as nat;
                assert((v9 + c * p) % 18446744073709551616 == v9 + (c % 2) * p) by (nonlinear_arith)
                    requires
                        v9 < p,
                        p == 0x8000000000000000,
                        c < 128,
                ;
            }
        }
        result = result | (chunk << shift);
        if byte & 0x80 == 0 {
            proof {
                assert(byte & 0x80 == 0 ==> byte < 128) by (bit_vector);
                lemma_varint_len_skip(data@, i as nat);
                assert(data@.skip(i as int)[0] == byte);
                if i <= 8 {
                    vstd::arithmetic::div_mod::lemma_small_mod(
                        varint_value(data@, (i + 1) as nat),
                        18446744073709551616,
                    );
                }
            }
            return Some((result, i + 1));
        }
        proof {
            assert(byte & 0x80 != 0 ==> byte >= 128) by (bit_vector);
        }
        shift += 7;
        i += 1;
    }
    proof {
        lemma_varint_len_skip(data@, i as nat);
        assert(data@.skip(i as int).len() == 0);
    }
    None
}

/// The encoding of `v`, followed by anything, reads back as `v` and its
/// length; a value below `128^k` (for `k >= 1`) takes at most `k` bytes.
pub proof fn lemma_varint_roundtrip_prefix(v: nat, rest: Seq<u8>, k: nat)
    requires
        k >= 1,
        v < power(128, k),
    ensures
        spec_varint(v).len() >= 1,
        spec_varint(v).len() <= k,
        varint_len(spec_varint(v) + rest) == spec_varint(v).len(),
        varint_value(spec_varint(v) + rest, spec_varint(v).len()) == v,
    decreases v,
{
    let e = spec_varint(v);
    let s = e + rest;
    if v < 128 {
        assert(s[0] == v as u8);
        assert(varint_value(s.drop_first(), 0) == 0);
    } else {
        let e1 = spec_varint(v / 128);
        assert(k >= 2) by {
            if k == 1 {
                assert(power(128, 1) == 128 * power(128, 0));
                assert(power(128, 0) == 1);
            }
        }
        assert(power(128, k) == 128 * power(128, (k - 1) as nat));
        assert(v / 128 < power(128, (k - 1) as nat)) by (nonlinear_arith)
            requires
                v < 128 * power(128, (k - 1) as nat),
        ;
        lemma_varint_roundtrip_prefix(v / 128, rest, (k - 1) as nat);
        assert(s.drop_first() =~= e1 + rest);
        assert(s[0] == (v % 128 + 128) as u8);
        assert((s[0] % 128) as nat == v % 128);
        assert(v % 128 + 128 * (v / 128) == v) by (nonlinear_arith);
    }
}

/// Law: reading a varint back gives the value that was written, for every
/// 64-bit value, whatever bytes follow it.
pub proof fn lemma_varint_roundtrip(v: u64, rest: Seq<u8>)
    ensures
        spec_decode_varint(spec_varint(v as nat) + rest) == Some(
            (v as nat, spec_varint(v as nat).len()),
        ),
{
    lemma_pow2_seven(10);
    lemma2_to64();
    vstd::arithmetic::power2::lemma2_to64_rest();
    vstd::arithmetic::power2::lemma_pow2_strictly_increases(64, 70);
    lemma_varint_roundtrip_prefix(v as nat, rest, 10);
    vstd::arithmetic::div_mod::lemma_small_mod(v as nat, 18446744073709551616);
}

/// A varint that reads at all is at most as long as the bytes it was read from.
pub proof fn lemma_varint_len_bound(s: Seq<u8>)
    ensures
        varint_len(s) <= s.len(),
    decreases s.len(),
{
    if s.len() > 0 {
        lemma_varint_len_bound(s.drop_first());
    }
}

} // verus!
