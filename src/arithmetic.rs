//! Scaling between a raw byte count and a (power, scaled value) pair.
//!
//! Scaled values are exact: a scaled magnitude is kept in hundredths, rounded
//! to the nearest hundredth with ties going to the even neighbour.
use vstd::prelude::*;

use crate::suffix::Literal;

verus! {

/// `b` raised to the power `e`.
pub open spec fn pow_nat(b: nat, e: nat) -> nat
    decreases e,
{
    if e == 0 {
        1
    } else {
        b * pow_nat(b, (e - 1) as nat)
    }
}

/// Absolute value of a raw byte count.
pub open spec fn magnitude(v: i64) -> nat {
    if v < 0 {
        (-v) as nat
    } else {
        v as nat
    }
}

/// The power reached by dividing `m` by `b` while the quotient is still at
/// least `b` and fewer than `cap` divisions were made.
pub open spec fn scale_power(m: nat, b: nat, cap: int) -> nat
    decreases cap,
{
    if cap <= 0 || b == 0 || m < b {
        0
    } else {
        1 + scale_power(m / b, b, cap - 1)
    }
}

/// `n / d` rounded to the nearest integer, ties to the even neighbour.
pub open spec fn round_half_even(n: nat, d: nat) -> nat
    recommends
        d > 0,
{
    let q = n / d;
    let r = n % d;
    if 2 * r > d || (2 * r == d && q % 2 == 1) {
        q + 1
    } else {
        q
    }
}

/// The scaled value of `v` at `power`, in hundredths, carrying the sign of `v`.
pub open spec fn scaled_hundredths(v: i64, base: nat, power: nat) -> int {
    let h = round_half_even(magnitude(v) * 100, pow_nat(base, power));
    if v < 0 {
        -h
    } else {
        h as int
    }
}

pub(crate) proof fn lemma_pow_positive(b: nat, e: nat)
    requires
        b > 0,
    ensures
        pow_nat(b, e) > 0,
    decreases e,
{
    if e > 0 {
        lemma_pow_positive(b, (e - 1) as nat);
        assert(b * pow_nat(b, (e - 1) as nat) > 0) by (nonlinear_arith)
            requires
                b > 0,
                pow_nat(b, (e - 1) as nat) > 0,
        ;
    }
}

pub(crate) proof fn lemma_power_fits(m: nat, b: nat, cap: int)
    requires
        b >= 2,
        m >= 1,
    ensures
        pow_nat(b, scale_power(m, b, cap)) <= m,
    decreases cap,
{
    if cap <= 0 || m < b {
        assert(pow_nat(b, 0) == 1);
    } else {
        let q = m / b;
        vstd::arithmetic::div_mod::lemma_fundamental_div_mod(m as int, b as int);
        assert(q >= 1) by {
            vstd::arithmetic::div_mod::lemma_div_is_ordered(b as int, m as int, b as int);
            vstd::arithmetic::div_mod::lemma_div_by_self(b as int);
        }
        lemma_power_fits(q, b, cap - 1);
        let s1 = scale_power(q, b, cap - 1);
        lemma_pow_step(b, s1);
        let x = pow_nat(b, s1);
        assert(x * b <= q * b) by (nonlinear_arith)
            requires
                x <= q,
        ;
        assert(q * b <= m) by {
            vstd::arithmetic::div_mod::lemma_mod_pos_bound(m as int, b as int);
            assert(m == b * q + m % b);
            assert(b * q == q * b) by (nonlinear_arith);
        }
    }
}

/// Sign preservation: a negative count is scaled to the same power as its
/// magnitude, and its scaled value is the negated, strictly negative, scaled
/// value of its magnitude.
pub proof fn lemma_sign_preserved(v: i64, base: nat, cap: int)
    requires
        i64::MIN < v < 0,
        2 <= base,
    ensures
        scale_power(magnitude(v), base, cap) == scale_power(magnitude((-v) as i64), base, cap),
        ({
            let p = scale_power(magnitude(v), base, cap);
            &&& scaled_hundredths(v, base, p) == -scaled_hundredths((-v) as i64, base, p)
            &&& scaled_hundredths(v, base, p) < 0
        }),
{
    let m = magnitude(v);
    let p = scale_power(m, base, cap);
    lemma_power_fits(m, base, cap);
    lemma_pow_positive(base, p);
    let d = pow_nat(base, p);
    vstd::arithmetic::div_mod::lemma_div_is_ordered(d as int, (m * 100) as int, d as int);
    vstd::arithmetic::div_mod::lemma_div_by_self(d as int);
}

/// A scaled value in hundredths never exceeds a hundred times the count.
pub(crate) proof fn lemma_scaled_bound(v: i64, base: nat, power: nat)
    requires
        base >= 1,
    ensures
        -0x1_0000_0000_0000_0000_0000int < scaled_hundredths(v, base, power),
{
    let d = pow_nat(base, power);
    lemma_pow_positive(base, power);
    let n = magnitude(v) * 100;
    vstd::arithmetic::div_mod::lemma_div_is_ordered_by_denominator(n as int, 1, d as int);
}

pub(crate) proof fn lemma_pow_step(b: nat, e: nat)
    ensures
        pow_nat(b, e + 1) == pow_nat(b, e) * b,
{
    assert(pow_nat(b, e + 1) == b * pow_nat(b, e));
    assert(b * pow_nat(b, e) == pow_nat(b, e) * b) by (nonlinear_arith);
}

/// Splits `bytes` into the power of `base` at which it is displayed (never
/// above `power_of`, never below zero) and its scaled value in hundredths.
///
/// A count of zero stays at power zero; a negative count gets the power of its
/// magnitude and the negated scaled value.
pub fn divisor(bytes: i64, base: u64, power_of: i8) -> (r: (i8, i128))
    requires
        2 <= base <= 1024,
    ensures
        r.0 == scale_power(magnitude(bytes), base as nat, power_of as int),
        r.1 == scaled_hundredths(bytes, base as nat, r.0 as nat),
{
    let mag: u64 = if bytes < 0 {
        ((-(bytes as i128)) as u64)
    } else {
        bytes as u64
    };
    assert(mag == magnitude(bytes));
    let mut q: u64 = mag;
    let mut pw: u128 = 1;
    let mut power: i8 = 0;
    while q >= base && power < power_of
        invariant
            2 <= base <= 1024,
            0 <= power,
            power <= power_of || power == 0,
            pw == pow_nat(base as nat, power as nat),
            pw <= mag || power == 0,
            mag <= 0x8000_0000_0000_0000u64,
            q == mag as nat / pw as nat,
            scale_power(mag as nat, base as nat, power_of as int) == power + scale_power(
                q as nat,
                base as nat,
                power_of - power,
            ),
        decreases q,
    {
        proof {
            lemma_pow_positive(base as nat, power as nat);
            lemma_pow_step(base as nat, power as nat);
            vstd::arithmetic::div_mod::lemma_div_denominator(mag as int, pw as int, base as int);
            vstd::arithmetic::div_mod::lemma_fundamental_div_mod(mag as int, pw as int);
            vstd::arithmetic::div_mod::lemma_mod_pos_bound(mag as int, pw as int);
            let (m, d, qq, bb) = (mag as int, pw as int, q as int, base as int);
            assert(d * bb <= m) by (nonlinear_arith)
                requires
                    m == d * qq + m % d,
                    qq >= bb,
                    m % d >= 0,
                    d > 0,
            ;
            vstd::arithmetic::div_mod::lemma_div_decreases(q as int, base as int);
        }
        q = q / base;
        pw = pw * (base as u128);
        power = power + 1;
    }
    proof {
        lemma_pow_positive(base as nat, power as nat);
    }
    assert(power as nat == scale_power(mag as nat, base as nat, power_of as int));
    let n: u128 = (mag as u128) * 100;
    let quot: u128 = n / pw;
    let rem: u128 = n % pw;
    let h: u128 = if 2 * rem > pw || (2 * rem == pw && quot % 2 == 1) {
        quot + 1
    } else {
        quot
    };
    assert(h == round_half_even(mag as nat * 100, pw as nat));
    assert(quot <= n) by {
        vstd::arithmetic::div_mod::lemma_div_is_ordered_by_denominator(n as int, 1, pw as int);
        vstd::arithmetic::div_mod::lemma_fundamental_div_mod(n as int, pw as int);
    }
    if bytes < 0 {
        (power, -(h as i128))
    } else {
        (power, h as i128)
    }
}

/// Value of a sequence of decimal digits, most significant first.
pub open spec fn digits_value(s: Seq<u8>) -> nat
    decreases s.len(),
{
    if s.len() == 0 {
        0
    } else {
        digits_value(s.drop_last()) * 10 + s.last() as nat
    }
}

/// `whole.fraction * factor`, rounded toward zero.
pub open spec fn scaled_magnitude(whole: Seq<u8>, fraction: Seq<u8>, factor: nat) -> nat {
    digits_value(whole) * factor + (digits_value(fraction) * factor) / pow_nat(
        10,
        fraction.len(),
    )
}

/// `x` saturated to the range of `i64`.
pub open spec fn clamp_i64(x: int) -> i64 {
    if x > i64::MAX {
        i64::MAX
    } else if x < i64::MIN {
        i64::MIN
    } else {
        x as i64
    }
}

/// The byte count that a literal stands for: its number times its unit
/// (`multiplier` to the power `power`), rounded toward zero and saturated to
/// the range of `i64`.
pub open spec fn literal_count(
    negative: bool,
    whole: Seq<u8>,
    fraction: Seq<u8>,
    multiplier: nat,
    power: nat,
) -> i64 {
    let m = scaled_magnitude(whole, fraction, pow_nat(multiplier, power));
    clamp_i64(
        if negative {
            -m
        } else {
            m as int
        },
    )
}

pub(crate) proof fn lemma_pow_grows(b: nat, e1: nat, e2: nat)
    requires
        b >= 1,
        e1 <= e2,
    ensures
        pow_nat(b, e1) <= pow_nat(b, e2),
    decreases e2,
{
    if e1 < e2 {
        let e = (e2 - 1) as nat;
        lemma_pow_grows(b, e1, e);
        lemma_pow_positive(b, e);
        let x = pow_nat(b, e);
        assert(x <= b * x) by (nonlinear_arith)
            requires
                b >= 1,
                x > 0,
        ;
    }
}

proof fn lemma_digits_prepend(d: u8, rest: Seq<u8>)
    ensures
        digits_value(seq![d] + rest) == d * pow_nat(10, rest.len()) + digits_value(rest),
    decreases rest.len(),
{
    let s = seq![d] + rest;
    if rest.len() == 0 {
        assert(s.drop_last() =~= Seq::<u8>::empty());
        assert(pow_nat(10, 0) == 1);
        assert(digits_value(s) == digits_value(Seq::<u8>::empty()) * 10 + d);
    } else {
        let r = rest.drop_last();
        assert(s.drop_last() =~= seq![d] + r);
        assert(s.last() == rest.last());
        lemma_digits_prepend(d, r);
        lemma_pow_step(10, r.len());
        assert(r.len() + 1 == rest.len());
        let p = pow_nat(10, r.len());
        let (dd, vr, l) = (d as int, digits_value(r) as int, rest.last() as int);
        assert((dd * p + vr) * 10 + l == dd * (p * 10) + (vr * 10 + l)) by (nonlinear_arith);
        assert(digits_value(rest) == digits_value(r) * 10 + rest.last());
        assert(digits_value(s) == digits_value(seq![d] + r) * 10 + rest.last());
    }
}

proof fn lemma_fraction_step(d: nat, v: nat, f: nat, k: nat)
    ensures
        ((d * pow_nat(10, k) + v) * f) / pow_nat(10, k + 1) == (d * f + (v * f) / pow_nat(
            10,
            k,
        )) / 10,
{
    let p = pow_nat(10, k);
    lemma_pow_positive(10, k);
    lemma_pow_step(10, k);
    let x = (d * p + v) * f;
    assert(x == v * f + (d * f) * p) by (nonlinear_arith)
        requires
            x == (d * p + v) * f,
    ;
    vstd::arithmetic::div_mod::lemma_div_denominator(x as int, p as int, 10);
    vstd::arithmetic::div_mod::lemma_hoist_over_denominator((v * f) as int, (d * f) as int, p);
}

/// Turns a parsed literal into a byte count: the number times the unit,
/// rounded toward zero and saturated to the range of `i64`. Also hands back
/// whether the unit was binary.
pub fn multiplier(input: &Literal) -> (r: (bool, i64))
    requires
        input.wf(),
    ensures
        r.0 == input.iec,
        r.1 == literal_count(
            input.negative,
            input.whole@,
            input.fraction@,
            input.multiplier as nat,
            input.power as nat,
        ),
{
    let base: u64 = input.multiplier;
    let mut factor: u64 = 1;
    let mut i: i8 = 0;
    proof {
        reveal_with_fuel(pow_nat, 7);
    }
    while i < input.power
        invariant
            input.wf(),
            base == input.multiplier,
            0 <= i <= input.power,
            factor == pow_nat(base as nat, i as nat),
            factor <= pow_nat(1024, i as nat),
            pow_nat(1024, 6) == 0x1000_0000_0000_0000nat,
        decreases input.power - i,
    {
        proof {
            lemma_pow_step(base as nat, i as nat);
            lemma_pow_step(1024, i as nat);
            lemma_pow_grows(1024, (i + 1) as nat, 6);
            let (x, y, b) = (factor as int, pow_nat(1024, i as nat) as int, base as int);
            assert(x * b <= y * 1024) by (nonlinear_arith)
                requires
                    x <= y,
                    b <= 1024,
                    x >= 0,
            ;
        }
        factor = factor * base;
        i = i + 1;
    }
    proof {
        lemma_pow_grows(1024, i as nat, 6);
        lemma_pow_positive(base as nat, i as nat);
    }
    let f: u128 = factor as u128;
    let ghost ff: nat = f as nat;
    // Whole part, saturated at 2^64: any larger whole part saturates the count.
    let cap: u128 = 0x1_0000_0000_0000_0000;
    let mut acc: u128 = 0;
    let mut j: usize = 0;
    while j < input.whole.len()
        invariant
            input.wf(),
            0 <= j <= input.whole@.len(),
            cap == 0x1_0000_0000_0000_0000u128,
            acc <= cap,
            acc == if digits_value(input.whole@.take(j as int)) < cap {
                digits_value(input.whole@.take(j as int))
            } else {
                cap as nat
            },
        decreases input.whole@.len() - j,
    {
        let d: u8 = input.whole[j];
        assert(input.whole@.take(j + 1).drop_last() =~= input.whole@.take(j as int));
        let next: u128 = acc * 10 + d as u128;
        acc = if next < cap {
            next
        } else {
            cap
        };
        j = j + 1;
    }
    assert(input.whole@.take(j as int) =~= input.whole@);
    // Fraction part, from the last digit to the first:
    // c == floor(fraction.skip(k) * factor / 10^(len - k)).
    let n: usize = input.fraction.len();
    let mut c: u128 = 0;
    let mut k: usize = n;
    assert(input.fraction@.skip(n as int) =~= Seq::<u8>::empty());
    assert(pow_nat(10, 0) == 1);
    assert(digits_value(input.fraction@.skip(n as int)) == 0);
    assert((0 * ff) / 1 == 0);
    while k > 0
        invariant
            input.wf(),
            n == input.fraction@.len(),
            0 <= k <= n,
            ff == f,
            1 <= f <= 0x1000_0000_0000_0000,
            c < f,
            c == (digits_value(input.fraction@.skip(k as int)) * ff) / pow_nat(
                10,
                (n - k) as nat,
            ),
        decreases k,
    {
        k = k - 1;
        let d: u8 = input.fraction[k];
        proof {
            let rest = input.fraction@.skip(k + 1);
            assert(input.fraction@.skip(k as int) =~= seq![d] + rest);
            lemma_digits_prepend(d, rest);
            lemma_fraction_step(d as nat, digits_value(rest), ff, rest.len());
            let (dd, cc, fi) = (d as int, c as int, f as int);
            assert(dd * fi + cc < 10 * fi) by (nonlinear_arith)
                requires
                    0 <= dd <= 9,
                    0 <= cc < fi,
            ;
            assert(dd * fi <= 9 * 0x1000_0000_0000_0000) by (nonlinear_arith)
                requires
                    dd <= 9,
                    fi <= 0x1000_0000_0000_0000,
                    dd >= 0,
            ;
        }
        c = ((d as u128) * f + c) / 10;
    }
    assert(input.fraction@.skip(0) =~= input.fraction@);
    proof {
        let (a, fi) = (acc as int, f as int);
        assert(a * fi <= cap * 0x1000_0000_0000_0000) by (nonlinear_arith)
            requires
                0 <= a <= cap,
                0 <= fi <= 0x1000_0000_0000_0000,
        ;
        assert(a * fi >= a) by (nonlinear_arith)
            requires
                0 <= a,
                fi >= 1,
        ;
        let w = digits_value(input.whole@) as int;
        assert(w * fi >= a * fi) by (nonlinear_arith)
            requires
                w >= a,
                fi >= 1,
        ;
    }
    let mag: u128 = acc * f + c;
    let count: i64 = if input.negative {
        if mag >= 0x8000_0000_0000_0000 {
            i64::MIN
        } else {
            -(mag as i64)
        }
    } else {
        if mag > 0x7fff_ffff_ffff_ffff {
            i64::MAX
        } else {
            mag as i64
        }
    };
    (input.iec, count)
}

} // verus!
