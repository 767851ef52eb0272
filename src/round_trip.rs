//! Reading back the canonical display text of a value: the text that
//! `ByteUnit::max` produces parses again to a value with the same text.
use vstd::prelude::*;

use crate::arithmetic::{
    digits_value, lemma_pow_positive, lemma_pow_step, literal_count, magnitude, pow_nat,
    round_half_even, scale_power, scaled_hundredths,
};
use crate::simplebyteunit::{
    decimal_digits, digit_char, from_text_outcome, tagged, ByteUnit, Error, Standard, MAX,
};
use crate::suffix::{
    all_digits, digit_values, dot_index, is_digit, is_space, number_parts, parse_spec,
    suffix_text, trim, trim_end, trim_start, unit_of,
};

verus! {

proof fn lemma_digit_char(d: nat)
    requires
        d < 10,
    ensures
        is_digit(digit_char(d)),
        (digit_char(d) as u32 - '0' as u32) as u8 == d,
{
}

proof fn lemma_decimal_digits(n: nat)
    ensures
        decimal_digits(n).len() >= 1,
        all_digits(decimal_digits(n)),
        digits_value(digit_values(decimal_digits(n))) == n,
    decreases n,
{
    if n < 10 {
        lemma_digit_char(n);
        let s = digit_values(decimal_digits(n));
        assert(s.drop_last() =~= Seq::<u8>::empty());
        assert(s.last() == n);
        assert(digits_value(s) == digits_value(s.drop_last()) * 10 + s.last() as nat);
    } else {
        lemma_decimal_digits(n / 10);
        lemma_digit_char(n % 10);
        let a = decimal_digits(n / 10);
        let s = decimal_digits(n);
        assert(s =~= a + seq![digit_char(n % 10)]);
        assert(digit_values(s).drop_last() =~= digit_values(a));
        assert(digit_values(s).last() == n % 10);
        assert(digits_value(digit_values(s)) == digits_value(digit_values(a)) * 10 + (n % 10));
        assert forall|i: int| 0 <= i < s.len() implies is_digit(#[trigger] s[i]) by {
            if i < a.len() {
                assert(s[i] == a[i]);
            }
        }
    }
}

proof fn lemma_dot_after_digits(d: Seq<char>, r: Seq<char>)
    requires
        all_digits(d),
    ensures
        dot_index(d + r) == d.len() + dot_index(r),
    decreases d.len(),
{
    if d.len() > 0 {
        assert((d + r)[0] == d[0]);
        assert(is_digit(d[0]));
        assert((d + r).drop_first() =~= d.drop_first() + r);
        lemma_dot_after_digits(d.drop_first(), r);
    } else {
        assert(d + r =~= r);
    }
}

/// The number part of a displayed value (everything before the space).
pub open spec fn shown_number(h: int, power: int) -> Seq<char> {
    let m = (if h < 0 {
        -h
    } else {
        h
    }) as nat;
    let sign = if h < 0 {
        seq!['-']
    } else {
        Seq::<char>::empty()
    };
    sign + (if power == 0 {
        decimal_digits(m / 100)
    } else {
        decimal_digits(m / 100) + seq!['.', digit_char((m % 100) / 10), digit_char(m % 10)]
    })
}

proof fn lemma_number_text(neg: bool, dd: Seq<char>, frac: Seq<char>, dotted: bool)
    requires
        dd.len() > 0,
        all_digits(dd),
        frac.len() == 2,
        all_digits(frac),
    ensures
        ({
            let sign = if neg {
                seq!['-']
            } else {
                Seq::<char>::empty()
            };
            let tail = if dotted {
                seq!['.'] + frac
            } else {
                Seq::<char>::empty()
            };
            let x = sign + (dd + tail);
            &&& x.len() > 0
            &&& is_digit(x.last())
            &&& trim(x + seq![' ']) == x
            &&& number_parts(x) == Some(
                (
                    neg,
                    dd,
                    if dotted {
                        frac
                    } else {
                        Seq::<char>::empty()
                    },
                ),
            )
        }),
{
    let sign = if neg {
        seq!['-']
    } else {
        Seq::<char>::empty()
    };
    let tail = if dotted {
        seq!['.'] + frac
    } else {
        Seq::<char>::empty()
    };
    let body = dd + tail;
    let x = sign + body;
    assert(is_digit(dd[0]));
    assert(body[0] == dd[0]);
    if neg {
        assert(x[0] == '-');
        assert(x.drop_first() =~= body);
    } else {
        assert(x =~= body);
    }
    assert(is_digit(x.last())) by {
        if dotted {
            assert(x.last() == frac[1]);
        } else {
            assert(x.last() == dd.last());
        }
    }
    let y = x + seq![' '];
    assert(y[0] == x[0]);
    assert(trim_start(y) == y);
    assert(y.drop_last() =~= x);
    assert(trim_end(y) == trim_end(x));
    lemma_dot_after_digits(dd, tail);
    assert(body.take(dd.len() as int) =~= dd);
    if dotted {
        assert(tail[0] == '.');
        assert(body.skip(dd.len() + 1int) =~= frac);
    }
}

proof fn lemma_shown_number(h: int, power: int)
    ensures
        ({
            let x = shown_number(h, power);
            let m = (if h < 0 {
                -h
            } else {
                h
            }) as nat;
            &&& x.len() > 0
            &&& is_digit(x.last())
            &&& trim(x + seq![' ']) == x
            &&& number_parts(x) == Some(
                (
                    h < 0,
                    decimal_digits(m / 100),
                    if power == 0 {
                        Seq::<char>::empty()
                    } else {
                        seq![digit_char((m % 100) / 10), digit_char(m % 10)]
                    },
                ),
            )
        }),
{
    let m = (if h < 0 {
        -h
    } else {
        h
    }) as nat;
    let dd = decimal_digits(m / 100);
    lemma_decimal_digits(m / 100);
    lemma_digit_char((m % 100) / 10);
    lemma_digit_char(m % 10);
    let frac = seq![digit_char((m % 100) / 10), digit_char(m % 10)];
    assert(all_digits(frac)) by {
        assert(frac[0] == digit_char((m % 100) / 10));
        assert(frac[1] == digit_char(m % 10));
    }
    lemma_number_text(h < 0, dd, frac, power != 0);
    assert(seq!['.'] + frac =~= seq!['.', digit_char((m % 100) / 10), digit_char(m % 10)]);
    assert(dd + Seq::<char>::empty() =~= dd);
}

/// Power index that a displayed suffix reads back as.
pub open spec fn read_power(p: int) -> int {
    if 1 <= p <= 6 {
        p
    } else {
        0
    }
}

proof fn lemma_read_unit(x: Seq<char>, iec: bool, p: int)
    requires
        x.len() > 0,
        is_digit(x.last()),
    ensures
        ({
            let u = suffix_text(iec, p);
            let t = x + seq![' '] + u;
            &&& unit_of(t) == Some((u.len(), read_power(p) as i8, iec && 1 <= p <= 6))
            &&& t.take(t.len() - u.len()) == x + seq![' ']
        }),
{
    let u = suffix_text(iec, p);
    let y = x + seq![' '];
    let t = y + u;
    assert(t =~= x + seq![' '] + u);
    let n = t.len() as int;
    assert(y[y.len() - 1] == ' ');
    assert(y[y.len() - 2] == x.last());
    assert(t.take(n - u.len()) =~= y);
    assert(t[n - 1] == u[u.len() - 1]);
    if u.len() == 3 {
        assert(t[n - 2] == u[1]);
        assert(t[n - 3] == u[0]);
    } else if u.len() == 2 {
        assert(t[n - 2] == u[0]);
        assert(t[n - 3] == y[y.len() - 1]);
    } else {
        assert(t[n - 2] == y[y.len() - 1]);
    }
}

proof fn lemma_power_stops(m: nat, b: nat, cap: int)
    requires
        b >= 2,
        scale_power(m, b, cap) < cap,
    ensures
        m < pow_nat(b, scale_power(m, b, cap) + 1),
    decreases cap,
{
    if m < b {
        assert(pow_nat(b, 0) == 1);
        assert(pow_nat(b, 1) == b * pow_nat(b, 0));
        assert(pow_nat(b, 1) == b);
    } else {
        let q = m / b;
        lemma_power_stops(q, b, cap - 1);
        let s1 = scale_power(q, b, cap - 1);
        assert(scale_power(m, b, cap) == s1 + 1);
        lemma_pow_step(b, s1 + 1);
        let x = pow_nat(b, s1 + 1);
        assert(pow_nat(b, s1 + 2) == x * b);
        vstd::arithmetic::div_mod::lemma_fundamental_div_mod(m as int, b as int);
        vstd::arithmetic::div_mod::lemma_mod_pos_bound(m as int, b as int);
        assert(b * q + b <= x * b) by (nonlinear_arith)
            requires
                q + 1 <= x,
                b >= 0,
        ;
    }
}

/// A count between `b^p` and `b^(p + 1)` (or above `b^p` at the cap) is
/// scaled to power `p`.
proof fn lemma_power_of_range(m: nat, b: nat, cap: int, p: nat)
    requires
        b >= 2,
        p <= cap,
        pow_nat(b, p) <= m,
        p == cap || m < pow_nat(b, p + 1),
    ensures
        scale_power(m, b, cap) == p,
    decreases p,
{
    lemma_pow_step(b, p);
    if p == 0 {
        assert(pow_nat(b, 0) == 1);
        assert(pow_nat(b, 1) == b * pow_nat(b, 0));
        let (x1, x0) = (pow_nat(b, 1), pow_nat(b, 0));
        assert(x1 == b) by (nonlinear_arith)
            requires
                x1 == b * x0,
                x0 == 1,
        ;
        if cap > 0 {
            assert(m < pow_nat(b, p + 1));
            assert(m < b);
        }
    } else {
        let p1 = (p - 1) as nat;
        lemma_pow_step(b, p1);
        assert(p1 + 1 == p);
        assert(pow_nat(b, p) == pow_nat(b, p1) * b);
        lemma_pow_positive(b, p1);
        let x = pow_nat(b, p1);
        assert(x * b >= b) by (nonlinear_arith)
            requires
                x >= 1,
                b >= 2,
        ;
        let q = m / b;
        vstd::arithmetic::div_mod::lemma_fundamental_div_mod(m as int, b as int);
        vstd::arithmetic::div_mod::lemma_mod_pos_bound(m as int, b as int);
        assert(x <= q) by (nonlinear_arith)
            requires
                x * b <= m,
                m == b * q + m % b,
                m % b < b,
                b >= 2,
        ;
        assert(m >= b);
        assert(scale_power(m, b, cap) == 1 + scale_power(q, b, cap - 1));
        if p < cap {
            assert(pow_nat(b, p + 1) == x * b * b);
            assert(q < x * b) by (nonlinear_arith)
                requires
                    m < x * b * b,
                    m == b * q + m % b,
                    m % b >= 0,
                    b >= 2,
            ;
        }
        lemma_power_of_range(q, b, cap - 1, p1);
    }
}

/// Rounding a hundredfold count that is just under `h * d` gives `h`.
proof fn lemma_round_near(n: nat, d: nat, h: nat)
    requires
        d >= 200,
        n <= h * d,
        h * d < n + 100,
    ensures
        round_half_even(n, d) == h,
{
    vstd::arithmetic::div_mod::lemma_fundamental_div_mod(n as int, d as int);
    vstd::arithmetic::div_mod::lemma_mod_pos_bound(n as int, d as int);
    if n == h * d {
        vstd::arithmetic::div_mod::lemma_div_multiples_vanish(h as int, d as int);
        vstd::arithmetic::div_mod::lemma_mod_multiples_basic(h as int, d as int);
        assert(h * d == d * h) by (nonlinear_arith);
    } else {
        let q = n / d;
        let r = n % d;
        assert(q == h - 1 && 2 * r > d) by (nonlinear_arith)
            requires
                n == d * q + r,
                0 <= r < d,
                n < h * d,
                h * d < n + 100,
                d >= 200,
        ;
    }
}

/// Moving a hundredfold count up toward `h * d`, without reaching it, keeps
/// its rounding at `h`.
proof fn lemma_round_between(n1: nat, n2: nat, d: nat, h: nat)
    requires
        d >= 1,
        round_half_even(n1, d) == h,
        n1 <= n2 < h * d,
    ensures
        round_half_even(n2, d) == h,
{
    vstd::arithmetic::div_mod::lemma_fundamental_div_mod(n1 as int, d as int);
    vstd::arithmetic::div_mod::lemma_mod_pos_bound(n1 as int, d as int);
    vstd::arithmetic::div_mod::lemma_fundamental_div_mod(n2 as int, d as int);
    vstd::arithmetic::div_mod::lemma_mod_pos_bound(n2 as int, d as int);
    let (q1, r1, q2, r2) = (n1 / d, n1 % d, n2 / d, n2 % d);
    assert(q1 + 1 == h) by (nonlinear_arith)
        requires
            n1 == d * q1 + r1,
            0 <= r1 < d,
            n1 < h * d,
            h == q1 || h == q1 + 1,
    ;
    assert(q2 == q1 && r2 >= r1) by (nonlinear_arith)
        requires
            n1 == d * q1 + r1,
            0 <= r1 < d,
            n2 == d * q2 + r2,
            0 <= r2 < d,
            n1 <= n2,
            n2 < h * d,
            h == q1 + 1,
    ;
}

proof fn lemma_power_capped(m: nat, b: nat, cap: int)
    requires
        cap >= 0,
    ensures
        scale_power(m, b, cap) <= cap,
    decreases cap,
{
    if cap > 0 && b != 0 && m >= b {
        lemma_power_capped(m / b, b, cap - 1);
    }
}

/// Reading back a scaled magnitude `h` (hundredths at power `p`) gives
/// `h * b^p / 100` rounded down, at most `limit`; that magnitude scales back
/// to `p` and `h` whenever `m` itself did not round up into the next power.
proof fn lemma_magnitude_reads_back(m: nat, b: nat, limit: nat)
    requires
        b == 1000 || b == 1024,
        1 <= m <= limit,
        scale_power(m, b, 6) >= 1,
        ({
            let p = scale_power(m, b, 6);
            p == 6 || round_half_even(m * 100, pow_nat(b, p)) < 100 * b
        }),
    ensures
        ({
            let p = scale_power(m, b, 6);
            let d = pow_nat(b, p);
            let h = round_half_even(m * 100, d);
            let big = (h * d) / 100;
            let m2 = if big > limit {
                limit
            } else {
                big
            };
            &&& m2 >= 1
            &&& scale_power(m2, b, 6) == p
            &&& round_half_even(m2 * 100, d) == h
        }),
{
    let p = scale_power(m, b, 6);
    let d = pow_nat(b, p);
    let h = round_half_even(m * 100, d);
    let big = (h * d) / 100;
    lemma_power_capped(m, b, 6);
    crate::arithmetic::lemma_power_fits(m, b, 6);
    crate::arithmetic::lemma_pow_grows(b, 1, p);
    assert(pow_nat(b, 0) == 1);
    let (x1, x0) = (pow_nat(b, 1), pow_nat(b, 0));
    assert(x1 == b) by (nonlinear_arith)
        requires
            x1 == b * x0,
            x0 == 1,
    ;
    assert(d >= 1000);
    if p < 6 {
        lemma_power_stops(m, b, 6);
        lemma_pow_step(b, p);
    }
    // h >= 100
    let q = (m * 100) / d;
    vstd::arithmetic::div_mod::lemma_div_is_ordered((100 * d) as int, (m * 100) as int, d as int);
    vstd::arithmetic::div_mod::lemma_div_multiples_vanish(100, d as int);
    assert(d * 100 == 100 * d);
    assert(q >= 100);
    assert(h >= q);
    // 100 * big <= h * d < 100 * big + 100
    vstd::arithmetic::div_mod::lemma_fundamental_div_mod((h * d) as int, 100);
    vstd::arithmetic::div_mod::lemma_mod_pos_bound((h * d) as int, 100);
    assert(h * d >= 100 * d) by (nonlinear_arith)
        requires
            h >= 100,
            d >= 0,
    ;
    assert(big >= d);
    if p < 6 {
        assert(h * d < 100 * b * d) by (nonlinear_arith)
            requires
                h < 100 * b,
                d > 0,
        ;
        assert(big < d * b);
        assert(pow_nat(b, p + 1) == d * b);
    }
    if big > limit {
        lemma_round_between(m * 100, limit * 100, d, h);
        lemma_power_of_range(limit, b, 6, p);
    } else {
        lemma_round_near(big * 100, d, h);
        lemma_power_of_range(big, b, 6, p);
    }
}

proof fn lemma_two_digits(a: u8, c: u8)
    ensures
        digits_value(seq![a, c]) == a * 10 + c,
{
    let s = seq![a, c];
    assert(s.drop_last() =~= seq![a]);
    assert(seq![a].drop_last() =~= Seq::<u8>::empty());
    assert(digits_value(seq![a]) == digits_value(Seq::<u8>::empty()) * 10 + a);
    assert(digits_value(seq![a]) == a);
    assert(s.last() == c);
    assert(digits_value(s) == digits_value(seq![a]) * 10 + c);
}

proof fn lemma_split_hundredths(h: nat, d: nat)
    ensures
        (h / 100) * d + ((h % 100) * d) / 100 == (h * d) / 100,
{
    let (x, j) = ((h % 100) * d, (h / 100) * d);
    vstd::arithmetic::div_mod::lemma_hoist_over_denominator(x as int, j as int, 100);
    vstd::arithmetic::div_mod::lemma_fundamental_div_mod(h as int, 100);
    assert(x + j * 100 == h * d) by (nonlinear_arith)
        requires
            x == (h % 100) * d,
            j == (h / 100) * d,
            h == 100 * (h / 100) + h % 100,
    ;
}

/// What the display text of `tagged(v, unit)` reads back as: the sign, the
/// digits before and after the point, the multiplier, power and convention.
pub open spec fn display_literal(v: i64, unit: Standard) -> (bool, Seq<u8>, Seq<u8>, u64, i8, bool) {
    let u = tagged(v, unit);
    let b = u.base();
    let m = magnitude(v);
    let p = scale_power(m, b, MAX as int);
    let h = round_half_even(m * 100, pow_nat(b, p));
    let frac = if p == 0 {
        Seq::<char>::empty()
    } else {
        seq![digit_char((h % 100) / 10), digit_char(h % 10)]
    };
    let binary = u.is_iec() && 1 <= p <= 6;
    (
        v < 0,
        digit_values(decimal_digits(h / 100)),
        digit_values(frac),
        if binary {
            1024u64
        } else {
            1000u64
        },
        read_power(p as int) as i8,
        binary,
    )
}

#[verifier::rlimit(60)]
proof fn lemma_parse_display(v: i64, unit: Standard)
    ensures
        parse_spec(tagged(v, unit).display_at(MAX as int)) == Ok::<
            (bool, Seq<u8>, Seq<u8>, u64, i8, bool),
            bool,
        >(display_literal(v, unit)),
{
    let u = tagged(v, unit);
    let iec = u.is_iec();
    let b = u.base();
    let m = magnitude(v);
    let p = scale_power(m, b, 6);
    let d = pow_nat(b, p);
    let hs = scaled_hundredths(v, b, p);
    let h = round_half_even(m * 100, d);
    let text = u.display_at(6);
    let x = shown_number(hs, p as int);
    let unit_text = suffix_text(iec, p as int);
    assert(text =~= x + seq![' '] + unit_text);
    crate::arithmetic::lemma_pow_positive(b, p);
    if v < 0 {
        crate::arithmetic::lemma_power_fits(m, b, 6);
        vstd::arithmetic::div_mod::lemma_div_is_ordered(d as int, (m * 100) as int, d as int);
        vstd::arithmetic::div_mod::lemma_div_by_self(d as int);
        assert(h >= 1);
    }
    assert((if hs < 0 {
        -hs
    } else {
        hs
    }) == h);
    assert(hs < 0 <==> v < 0);
    lemma_shown_number(hs, p as int);
    lemma_read_unit(x, iec, p as int);
}

#[verifier::rlimit(60)]
proof fn lemma_literal_redisplays(v: i64, unit: Standard)
    requires
        ({
            let b = tagged(v, unit).base();
            let m = magnitude(v);
            let p = scale_power(m, b, MAX as int);
            &&& (p == MAX || round_half_even(m * 100, pow_nat(b, p)) < 100 * b)
            &&& (p > 0 || m < 1000)
        }),
    ensures
        ({
            let x = display_literal(v, unit);
            let w = tagged(
                literal_count(x.0, x.1, x.2, x.3 as nat, x.4 as nat),
                if x.5 {
                    Standard::IEC
                } else {
                    Standard::SI
                },
            );
            w.display_at(MAX as int) == tagged(v, unit).display_at(MAX as int)
        }),
{
    let u = tagged(v, unit);
    let iec = u.is_iec();
    let b = u.base();
    let m = magnitude(v);
    let p = scale_power(m, b, 6);
    let d = pow_nat(b, p);
    let h = round_half_even(m * 100, d);
    let x = display_literal(v, unit);
    let count = literal_count(x.0, x.1, x.2, x.3 as nat, x.4 as nat);
    let w = tagged(count, if x.5 {
        Standard::IEC
    } else {
        Standard::SI
    });
    lemma_power_capped(m, b, 6);
    crate::arithmetic::lemma_pow_positive(b, p);
    lemma_decimal_digits(h / 100);
    if p == 0 {
        assert(d == 1);
        assert((m * 100) / 1 == m * 100);
        assert((m * 100) % 1 == 0);
        assert(h / 100 == m);
        assert(pow_nat(x.3 as nat, 0) == 1);
        assert(pow_nat(10, 0) == 1);
        assert(x.2 =~= Seq::<u8>::empty());
        assert(digits_value(x.2) == 0);
        assert(x.4 == 0);
        assert(pow_nat(x.3 as nat, x.4 as nat) == 1);
        assert(digits_value(x.1) == m);
        assert(pow_nat(10, x.2.len()) == 1);
        assert(crate::arithmetic::scaled_magnitude(x.1, x.2, 1) == m * 1 + (0 * 1) / 1);
        assert(m * 1 + (0nat * 1) / 1 == m) by (nonlinear_arith);
        assert(crate::arithmetic::scaled_magnitude(x.1, x.2, pow_nat(x.3 as nat, x.4 as nat))
            == m);
        assert(x.0 == (v < 0));
        assert(v < 0 ==> -m == v);
        assert(v >= 0 ==> m == v);
        assert(count == v);
        assert(scale_power(m, 1000, 6) == 0);
        assert(pow_nat(1000, 0) == 1);
    } else {
        let frac = seq![digit_char((h % 100) / 10), digit_char(h % 10)];
        assert(digit_values(frac) =~= seq![((h % 100) / 10) as u8, (h % 10) as u8]) by {
            lemma_digit_char((h % 100) / 10);
            lemma_digit_char(h % 10);
        }
        lemma_two_digits(((h % 100) / 10) as u8, (h % 10) as u8);
        assert(digits_value(x.2) == h % 100);
        assert(pow_nat(10, 2) == 100) by {
            reveal_with_fuel(pow_nat, 3);
        }
        lemma_split_hundredths(h, d);
        let big = (h * d) / 100;
        let limit: nat = if v < 0 {
            0x8000_0000_0000_0000
        } else {
            0x7fff_ffff_ffff_ffff
        };
        crate::arithmetic::lemma_power_fits(m, b, 6);
        lemma_magnitude_reads_back(m, b, limit);
        let m2 = if big > limit {
            limit
        } else {
            big
        };
        assert(magnitude(count) == m2);
        assert(count < 0 <==> v < 0);
    }
}

/// Reading back the canonical display text of a value gives a value with the
/// same display text (the count itself may differ, as the text is rounded).
///
/// Left out are the counts on which this does not hold: those whose scaled
/// value rounds up to a full step of the next power below exa (`999995`
/// bytes shows as `1000.00 kB`, which reads back as `1.00 MB`), and binary
/// counts of 1000 to 1023 bytes, shown in plain bytes, which read back as
/// decimal.
pub proof fn lemma_display_round_trip(v: i64, unit: Standard)
    requires
        ({
            let b = tagged(v, unit).base();
            let m = magnitude(v);
            let p = scale_power(m, b, MAX as int);
            &&& (p == MAX || round_half_even(m * 100, pow_nat(b, p)) < 100 * b)
            &&& (p > 0 || m < 1000)
        }),
    ensures
        forall|r: Result<ByteUnit, Error>|
            #[trigger] from_text_outcome(tagged(v, unit).display_at(MAX as int), r) ==> (r matches Ok(
                w,
            ) && w.display_at(MAX as int) == tagged(v, unit).display_at(MAX as int)),
{
    let text = tagged(v, unit).display_at(MAX as int);
    let x = display_literal(v, unit);
    lemma_parse_display(v, unit);
    lemma_literal_redisplays(v, unit);
    assert forall|r: Result<ByteUnit, Error>| #[trigger] from_text_outcome(text, r) implies (r matches Ok(
        w2,
    ) && w2.display_at(MAX as int) == text) by {
        if let Ok(w2) = r {
            let w = tagged(
                literal_count(x.0, x.1, x.2, x.3 as nat, x.4 as nat),
                if x.5 {
                    Standard::IEC
                } else {
                    Standard::SI
                },
            );
            assert(w2.count() == w.count());
            assert(w2.is_iec() == w.is_iec());
        }
    }
}

} // verus!
