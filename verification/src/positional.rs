//! Positional notation: the value of a fixed-width digit string in a given
//! base, the digits of a number, and the lexicographic order of digit strings.
use vstd::prelude::*;
use vstd::arithmetic::div_mod::{
    lemma_breakdown,
    lemma_div_denominator,
    lemma_fundamental_div_mod_converse,
    lemma_small_mod,
};
use vstd::arithmetic::mul::lemma_mul_inequality;

verus! {

/// `base` raised to the power `e`.
pub open spec fn power(base: nat, e: nat) -> nat
    decreases e,
{
    if e == 0 {
        1
    } else {
        base * power(base, (e - 1) as nat)
    }
}

/// The value of the big-endian digit string `s` in base `base`.
pub open spec fn be_value(s: Seq<u8>, base: nat) -> nat
    decreases s.len(),
{
    if s.len() == 0 {
        0
    } else {
        be_value(s.drop_last(), base) * base + s.last() as nat
    }
}

/// Every digit of `s` is below `base`.
pub open spec fn digits_below(s: Seq<u8>, base: nat) -> bool {
    forall|i: int| 0 <= i < s.len() ==> (#[trigger] s[i]) < base
}

/// The `width` lowest digits of `n` in base `base`, most significant first.
pub open spec fn to_digits(n: nat, base: nat, width: nat) -> Seq<u8> {
    Seq::new(width, |i: int| ((n / power(base, (width - 1 - i) as nat)) % base) as u8)
}

/// Three-way lexicographic comparison of two digit strings: -1, 0 or 1.
pub open spec fn lex_order(s: Seq<u8>, t: Seq<u8>) -> int
    decreases s.len(),
{
    if s.len() == 0 || t.len() == 0 {
        if s.len() == t.len() {
            0
        } else if s.len() == 0 {
            -1
        } else {
            1
        }
    } else if s[0] < t[0] {
        -1
    } else if s[0] > t[0] {
        1
    } else {
        lex_order(s.drop_first(), t.drop_first())
    }
}

/// Three-way comparison of two numbers: -1, 0 or 1.
pub open spec fn num_order(a: int, b: int) -> int {
    if a < b {
        -1
    } else if a == b {
        0
    } else {
        1
    }
}

pub proof fn lemma_power_positive(base: nat, e: nat)
    requires
        base > 0,
    ensures
        power(base, e) > 0,
    decreases e,
{
    if e > 0 {
        lemma_power_positive(base, (e - 1) as nat);
        lemma_mul_inequality(1, base as int, power(base, (e - 1) as nat) as int);
    }
}

pub proof fn lemma_power_adds(base: nat, e1: nat, e2: nat)
    ensures
        power(base, e1 + e2) == power(base, e1) * power(base, e2),
    decreases e2,
{
    if e2 > 0 {
        lemma_power_adds(base, e1, (e2 - 1) as nat);
        assert((e1 + e2 - 1) as nat == e1 + (e2 - 1) as nat);
        assert(power(base, e1 + e2) == base * power(base, (e1 + e2 - 1) as nat));
        assert(power(base, e2) == base * power(base, (e2 - 1) as nat));
        let a = power(base, e1);
        let b = power(base, (e2 - 1) as nat);
        assert(power(base, e1 + (e2 - 1) as nat) == a * b);
        assert(base * (a * b) == a * (base * b)) by (nonlinear_arith);
    } else {
        assert(power(base, 0) == 1);
        assert(e1 + e2 == e1);
    }
}

/// Appending digits shifts the prefix up by the suffix's width.
pub proof fn lemma_be_append(a: Seq<u8>, b: Seq<u8>, base: nat)
    ensures
        be_value(a + b, base) == be_value(a, base) * power(base, b.len()) + be_value(b, base),
    decreases b.len(),
{
    if b.len() == 0 {
        assert(a + b =~= a);
        assert(power(base, 0) == 1);
        assert(be_value(b, base) == 0);
    } else {
        lemma_be_append(a, b.drop_last(), base);
        assert((a + b).drop_last() =~= a + b.drop_last());
        assert((a + b).last() == b.last());
        let va = be_value(a, base);
        let p = power(base, b.drop_last().len());
        let vb = be_value(b.drop_last(), base);
        assert(b.drop_last().len() == (b.len() - 1) as nat);
        assert(power(base, b.len()) == base * p);
        assert(be_value(a + b, base) == be_value(a + b.drop_last(), base) * base + b.last() as nat);
        assert(be_value(a + b.drop_last(), base) == va * p + vb);
        assert(be_value(b, base) == vb * base + b.last() as nat);
        assert((va * p + vb) * base == va * (base * p) + vb * base) by (nonlinear_arith);
    }
}

/// The value of a digit string read from its most significant digit.
pub proof fn lemma_be_front(s: Seq<u8>, base: nat)
    requires
        s.len() > 0,
    ensures
        be_value(s, base) == s[0] as nat * power(base, (s.len() - 1) as nat) + be_value(
            s.drop_first(),
            base,
        ),
{
    let head = s.take(1);
    assert(head + s.drop_first() =~= s);
    lemma_be_append(head, s.drop_first(), base);
    assert(head.drop_last() =~= Seq::<u8>::empty());
    assert(be_value(head.drop_last(), base) == 0);
    assert(head.last() == s[0]);
    assert(be_value(head, base) == 0 * base + s[0] as nat);
}

/// A string of `n` digits below `base` has a value below `base^n`.
pub proof fn lemma_be_bound(s: Seq<u8>, base: nat)
    requires
        digits_below(s, base),
    ensures
        be_value(s, base) < power(base, s.len()),
    decreases s.len(),
{
    if s.len() > 0 {
        let t = s.drop_last();
        assert(digits_below(t, base)) by {
            assert forall|i: int| 0 <= i < t.len() implies (#[trigger] t[i]) < base by {
                assert(t[i] == s[i]);
            }
        }
        lemma_be_bound(t, base);
        let v = be_value(t, base);
        let p = power(base, t.len());
        let d = s.last() as nat;
        assert(d < base) by {
            assert(s[s.len() - 1] < base);
        }
        assert(v * base + d < base * p) by (nonlinear_arith)
            requires
                v < p,
                d < base,
        ;
    } else {
        assert(power(base, 0) == 1);
    }
}

/// Every digit can be read back from the value.
pub proof fn lemma_be_digit(s: Seq<u8>, base: nat, i: int)
    requires
        digits_below(s, base),
        0 <= i < s.len(),
    ensures
        s[i] as nat == (be_value(s, base) / power(base, (s.len() - 1 - i) as nat)) % base,
{
    let hi = s.take(i + 1);
    let lo = s.skip(i + 1);
    assert(hi + lo =~= s);
    lemma_be_append(hi, lo, base);
    assert(digits_below(lo, base)) by {
        assert forall|j: int| 0 <= j < lo.len() implies (#[trigger] lo[j]) < base by {
            assert(lo[j] == s[j + i + 1]);
        }
    }
    lemma_be_bound(lo, base);
    assert(base > 0) by {
        assert(s[i] < base);
    }
    lemma_power_positive(base, lo.len());
    assert(lo.len() == (s.len() - 1 - i) as nat);
    let p = power(base, lo.len());
    let vh = be_value(hi, base);
    lemma_fundamental_div_mod_converse(
        be_value(s, base) as int,
        p as int,
        vh as int,
        be_value(lo, base) as int,
    );
    assert(hi.drop_last() =~= s.take(i));
    assert(hi.last() == s[i]);
    lemma_fundamental_div_mod_converse(
        vh as int,
        base as int,
        be_value(s.take(i), base) as int,
        s[i] as int,
    );
}

/// Two digit strings of one width with the same value are equal.
pub proof fn lemma_be_injective(s: Seq<u8>, t: Seq<u8>, base: nat)
    requires
        digits_below(s, base),
        digits_below(t, base),
        s.len() == t.len(),
        be_value(s, base) == be_value(t, base),
    ensures
        s == t,
{
    assert forall|i: int| 0 <= i < s.len() implies s[i] == t[i] by {
        lemma_be_digit(s, base, i);
        lemma_be_digit(t, base, i);
    }
    assert(s =~= t);
}

/// The digits of `n` are below the base.
pub proof fn lemma_to_digits_below(n: nat, base: nat, width: nat)
    requires
        0 < base <= 256,
    ensures
        digits_below(to_digits(n, base, width), base),
        to_digits(n, base, width).len() == width,
{
    let s = to_digits(n, base, width);
    assert forall|i: int| 0 <= i < s.len() implies (#[trigger] s[i]) < base by {
        let p = power(base, (width - 1 - i) as nat);
        lemma_power_positive(base, (width - 1 - i) as nat);
        assert((n / p) % base < base) by (nonlinear_arith)
            requires
                base > 0,
                p > 0,
        ;
    }
}

/// Writing `n` with `width` digits keeps `n` modulo `base^width`.
pub proof fn lemma_to_digits_value(n: nat, base: nat, width: nat)
    requires
        0 < base <= 256,
    ensures
        be_value(to_digits(n, base, width), base) == n % power(base, width),
    decreases width,
{
    let s = to_digits(n, base, width);
    if width == 0 {
        assert(n % 1 == 0) by (nonlinear_arith);
    } else {
        let w1 = (width - 1) as nat;
        lemma_to_digits_value(n / base, base, w1);
        let t = to_digits(n / base, base, w1);
        assert forall|i: int| 0 <= i < w1 implies s.drop_last()[i] == t[i] by {
            let e = (w1 - 1 - i) as nat;
            lemma_power_positive(base, e);
            assert((width - 1 - i) as nat == e + 1);
            lemma_power_adds(base, 1, e);
            assert(power(base, 0) == 1);
            assert(power(base, 1) == base * power(base, 0));
            lemma_div_denominator(n as int, base as int, power(base, e) as int);
        }
        assert(s.drop_last() =~= t);
        assert(power(base, 0) == 1);
        assert(s.last() as nat == n % base) by {
            assert(n / 1 == n);
            assert(n % base < 256) by (nonlinear_arith)
                requires
                    base <= 256,
                    base > 0,
            ;
        }
        lemma_power_positive(base, w1);
        lemma_breakdown(n as int, base as int, power(base, w1) as int);
        assert(power(base, width) == base * power(base, w1));
        assert(((n / base) % power(base, w1)) * base == base * ((n / base) % power(base, w1)))
            by (nonlinear_arith);
    }
}

/// Digit strings of one width compare lexicographically as their values compare.
pub proof fn lemma_lex_order_value(s: Seq<u8>, t: Seq<u8>, base: nat)
    requires
        digits_below(s, base),
        digits_below(t, base),
        s.len() == t.len(),
    ensures
        lex_order(s, t) == num_order(be_value(s, base) as int, be_value(t, base) as int),
    decreases s.len(),
{
    if s.len() > 0 {
        let rs = s.drop_first();
        let rt = t.drop_first();
        assert(digits_below(rs, base)) by {
            assert forall|j: int| 0 <= j < rs.len() implies (#[trigger] rs[j]) < base by {
                assert(rs[j] == s[j + 1]);
            }
        }
        assert(digits_below(rt, base)) by {
            assert forall|j: int| 0 <= j < rt.len() implies (#[trigger] rt[j]) < base by {
                assert(rt[j] == t[j + 1]);
            }
        }
        lemma_lex_order_value(rs, rt, base);
        lemma_be_front(s, base);
        lemma_be_front(t, base);
        lemma_be_bound(rs, base);
        lemma_be_bound(rt, base);
        let p = power(base, rs.len());
        let a = s[0] as nat;
        let b = t[0] as nat;
        let x = be_value(rs, base);
        let y = be_value(rt, base);
        assert(a < b ==> a * p + x < b * p + y) by (nonlinear_arith)
            requires
                x < p,
                y < p,
        ;
        assert(a > b ==> a * p + x > b * p + y) by (nonlinear_arith)
            requires
                x < p,
                y < p,
        ;
    } else {
        assert(s =~= Seq::<u8>::empty());
        assert(t =~= Seq::<u8>::empty());
    }
}

/// A digit string is the digits of its own value.
pub proof fn lemma_to_digits_of_value(s: Seq<u8>, base: nat)
    requires
        digits_below(s, base),
        base <= 256,
    ensures
        to_digits(be_value(s, base), base, s.len()) == s,
{
    let t = to_digits(be_value(s, base), base, s.len());
    assert forall|i: int| 0 <= i < s.len() implies t[i] == s[i] by {
        lemma_be_digit(s, base, i);
    }
    assert(t =~= s);
}

} // verus!
