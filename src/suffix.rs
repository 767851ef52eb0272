//! Unit suffixes: the text for a (convention, power) pair, and the parsing of
//! `"<number><suffix>"` input.
use vstd::prelude::*;

use crate::simplebyteunit::{ByteUnit, Error};

verus! {

/// A number and unit read from text, before it is turned into a byte count.
///
/// The number is `whole.fraction` in decimal digits (each digit 0 to 9),
/// negated when `negative` is set; the unit is `multiplier` raised to `power`.
pub struct Literal {
    pub negative: bool,
    pub whole: Vec<u8>,
    pub fraction: Vec<u8>,
    pub multiplier: u64,
    pub power: i8,
    pub iec: bool,
}

impl Literal {
    /// Digits are decimal, the multiplier is 1024 or 1000 and the power is a
    /// power index.
    pub open spec fn wf(&self) -> bool {
        &&& forall|i: int| 0 <= i < self.whole@.len() ==> self.whole@[i] < 10
        &&& forall|i: int| 0 <= i < self.fraction@.len() ==> self.fraction@[i] < 10
        &&& (self.multiplier == 1024 || self.multiplier == 1000)
        &&& 0 <= self.power <= 6
    }
}

/// Power index named by a unit letter, either case (`k` for kilo up to `e`
/// for exa), or zero for any other character.
pub open spec fn power_letter(c: char) -> i8 {
    if c == 'k' || c == 'K' {
        1
    } else if c == 'm' || c == 'M' {
        2
    } else if c == 'g' || c == 'G' {
        3
    } else if c == 't' || c == 'T' {
        4
    } else if c == 'p' || c == 'P' {
        5
    } else if c == 'e' || c == 'E' {
        6
    } else {
        0
    }
}

/// The unit at the end of `t`, matched without regard to case and longest
/// first: `<letter>ib` (binary), then `<letter>b` (decimal), then `b` alone
/// (decimal, power zero). Gives the suffix length, the power and whether the
/// unit is binary.
pub open spec fn unit_of(t: Seq<char>) -> Option<(nat, i8, bool)> {
    let n = t.len() as int;
    if n >= 1 && (t[n - 1] == 'b' || t[n - 1] == 'B') {
        if n >= 3 && (t[n - 2] == 'i' || t[n - 2] == 'I') && power_letter(t[n - 3]) > 0 {
            Some((3nat, power_letter(t[n - 3]), true))
        } else if n >= 2 && power_letter(t[n - 2]) > 0 {
            Some((2nat, power_letter(t[n - 2]), false))
        } else {
            Some((1nat, 0i8, false))
        }
    } else {
        None
    }
}

/// ASCII whitespace.
pub open spec fn is_space(c: char) -> bool {
    c == ' ' || c == '\t' || c == '\n' || c == '\r' || c == '\x0b' || c == '\x0c'
}

pub open spec fn trim_start(s: Seq<char>) -> Seq<char>
    decreases s.len(),
{
    if s.len() > 0 && is_space(s[0]) {
        trim_start(s.drop_first())
    } else {
        s
    }
}

pub open spec fn trim_end(s: Seq<char>) -> Seq<char>
    decreases s.len(),
{
    if s.len() > 0 && is_space(s.last()) {
        trim_end(s.drop_last())
    } else {
        s
    }
}

/// `s` without leading and trailing whitespace.
pub open spec fn trim(s: Seq<char>) -> Seq<char> {
    trim_end(trim_start(s))
}

pub open spec fn is_digit(c: char) -> bool {
    '0' <= c <= '9'
}

pub open spec fn all_digits(s: Seq<char>) -> bool {
    forall|i: int| 0 <= i < s.len() ==> is_digit(#[trigger] s[i])
}

/// Digit values of a string of decimal digits.
pub open spec fn digit_values(s: Seq<char>) -> Seq<u8> {
    s.map_values(|c: char| (c as u32 - '0' as u32) as u8)
}

/// Index of the first `.` in `s`, or its length when there is none.
pub open spec fn dot_index(s: Seq<char>) -> nat
    decreases s.len(),
{
    if s.len() == 0 || s[0] == '.' {
        0
    } else {
        1 + dot_index(s.drop_first())
    }
}

/// A decimal number: an optional sign, digits, and an optional `.` followed
/// by digits, with at least one digit in all. Gives whether it is negative,
/// the digits before the point and those after it.
pub open spec fn number_parts(t: Seq<char>) -> Option<(bool, Seq<char>, Seq<char>)> {
    let signed = t.len() > 0 && (t[0] == '+' || t[0] == '-');
    let body = if signed {
        t.drop_first()
    } else {
        t
    };
    let d = dot_index(body);
    let whole = body.take(d as int);
    let fraction = if d < body.len() {
        body.skip(d + 1int)
    } else {
        Seq::<char>::empty()
    };
    if all_digits(whole) && all_digits(fraction) && whole.len() + fraction.len() > 0 {
        Some((signed && t[0] == '-', whole, fraction))
    } else {
        None
    }
}

fn chars_of(s: &str) -> (r: Vec<char>)
    ensures
        r@ == s@,
{
    let mut v: Vec<char> = Vec::new();
    for c in it: s.chars()
        invariant
            v@ == it.seq().take(it.index() as int),
    {
        v.push(c);
    }
    proof {
        broadcast use vstd::string::axiom_spec_iter;

    }
    assert(v@ =~= s@);
    v
}

fn letter_power(c: char) -> (r: i8)
    ensures
        r == power_letter(c),
{
    match c {
        'k' | 'K' => 1,
        'm' | 'M' => 2,
        'g' | 'G' => 3,
        't' | 'T' => 4,
        'p' | 'P' => 5,
        'e' | 'E' => 6,
        _ => 0,
    }
}

fn space(c: char) -> (r: bool)
    ensures
        r == is_space(c),
{
    c == ' ' || c == '\t' || c == '\n' || c == '\r' || c == '\x0b' || c == '\x0c'
}

/// The suffix shown for power index `i` in binary (`iec`) or decimal units;
/// an index outside 1 to 6 shows plain bytes.
pub open spec fn suffix_text(iec: bool, i: int) -> Seq<char> {
    if iec {
        if i == 1 {
            seq!['K', 'i', 'B']
        } else if i == 2 {
            seq!['M', 'i', 'B']
        } else if i == 3 {
            seq!['G', 'i', 'B']
        } else if i == 4 {
            seq!['T', 'i', 'B']
        } else if i == 5 {
            seq!['P', 'i', 'B']
        } else if i == 6 {
            seq!['E', 'i', 'B']
        } else {
            seq!['B']
        }
    } else {
        if i == 1 {
            seq!['k', 'B']
        } else if i == 2 {
            seq!['M', 'B']
        } else if i == 3 {
            seq!['G', 'B']
        } else if i == 4 {
            seq!['T', 'B']
        } else if i == 5 {
            seq!['P', 'B']
        } else if i == 6 {
            seq!['E', 'B']
        } else {
            seq!['B']
        }
    }
}

/// The unit suffix for power index `i` in the convention of `unit`.
pub fn suffix(unit: &ByteUnit, i: i8) -> (r: &'static str)
    ensures
        r@ == suffix_text(unit.is_iec(), i as int),
{
    match unit {
        ByteUnit::IEC(_) => match i {
            1 => {
                proof { reveal_strlit("KiB"); }
                "KiB"
            },
            2 => {
                proof { reveal_strlit("MiB"); }
                "MiB"
            },
            3 => {
                proof { reveal_strlit("GiB"); }
                "GiB"
            },
            4 => {
                proof { reveal_strlit("TiB"); }
                "TiB"
            },
            5 => {
                proof { reveal_strlit("PiB"); }
                "PiB"
            },
            6 => {
                proof { reveal_strlit("EiB"); }
                "EiB"
            },
            _ => {
                proof { reveal_strlit("B"); }
                "B"
            },
        },
        ByteUnit::SI(_) => match i {
            1 => {
                proof { reveal_strlit("kB"); }
                "kB"
            },
            2 => {
                proof { reveal_strlit("MB"); }
                "MB"
            },
            3 => {
                proof { reveal_strlit("GB"); }
                "GB"
            },
            4 => {
                proof { reveal_strlit("TB"); }
                "TB"
            },
            5 => {
                proof { reveal_strlit("PB"); }
                "PB"
            },
            6 => {
                proof { reveal_strlit("EB"); }
                "EB"
            },
            _ => {
                proof { reveal_strlit("B"); }
                "B"
            },
        },
    }
}

/// What reading `t` gives: `Err(true)` when no unit suffix ends it,
/// `Err(false)` when the text before the suffix, trimmed, is not a number,
/// otherwise the literal's sign, digits, multiplier, power and convention.
pub open spec fn parse_spec(t: Seq<char>) -> Result<
    (bool, Seq<u8>, Seq<u8>, u64, i8, bool),
    bool,
> {
    match unit_of(t) {
        None => Err(true),
        Some(u) => match number_parts(trim(t.take(t.len() - u.0))) {
            None => Err(false),
            Some(n) => Ok(
                (n.0, digit_values(n.1), digit_values(n.2), if u.2 {
                    1024u64
                } else {
                    1000u64
                }, u.1, u.2),
            ),
        },
    }
}

/// Whether `r` is the outcome that reading `t` should give; errors carry `t`.
pub open spec fn parse_outcome(t: Seq<char>, r: Result<Literal, Error>) -> bool {
    match (parse_spec(t), r) {
        (Err(true), Err(Error::InvalidUnit(m))) => m@ == t,
        (Err(false), Err(Error::ErroneousInput(m))) => m@ == t,
        (Ok(x), Ok(lit)) => {
            &&& lit.wf()
            &&& x == (lit.negative, lit.whole@, lit.fraction@, lit.multiplier, lit.power, lit.iec)
        },
        _ => false,
    }
}

proof fn lemma_dot_index_bound(s: Seq<char>)
    ensures
        dot_index(s) <= s.len(),
    decreases s.len(),
{
    if s.len() > 0 && s[0] != '.' {
        lemma_dot_index_bound(s.drop_first());
    }
}

/// Finds the bounds of `t.take(end)` with surrounding whitespace removed.
fn trim_bounds(t: &Vec<char>, end: usize) -> (r: (usize, usize))
    requires
        end <= t@.len(),
    ensures
        r.0 <= r.1 <= end,
        t@.subrange(r.0 as int, r.1 as int) == trim(t@.take(end as int)),
{
    let ghost head = t@.take(end as int);
    assert(t@.subrange(0, end as int) =~= head);
    let mut a: usize = 0;
    while a < end && space(t[a])
        invariant
            a <= end <= t@.len(),
            head == t@.take(end as int),
            trim_start(head) == trim_start(t@.subrange(a as int, end as int)),
        decreases end - a,
    {
        assert(t@.subrange(a as int, end as int).drop_first() =~= t@.subrange(
            a + 1,
            end as int,
        ));
        a = a + 1;
    }
    let mut b: usize = end;
    assert(trim_start(head) == t@.subrange(a as int, end as int));
    while b > a && space(t[b - 1])
        invariant
            a <= b <= end <= t@.len(),
            trim(head) == trim_end(t@.subrange(a as int, b as int)),
        decreases b,
    {
        assert(t@.subrange(a as int, b as int).drop_last() =~= t@.subrange(a as int, b - 1));
        b = b - 1;
    }
    (a, b)
}

/// Reads the digits of `t[i..b]` up to the first `.`; `None` when another
/// character comes first. Gives the digit values and the index it stopped at.
fn read_whole(t: &Vec<char>, i: usize, b: usize) -> (r: Option<(Vec<u8>, usize)>)
    requires
        i <= b <= t@.len(),
    ensures
        ({
            let body = t@.subrange(i as int, b as int);
            let w = body.take(dot_index(body) as int);
            match r {
                None => !all_digits(w),
                Some((v, k)) => {
                    &&& all_digits(w)
                    &&& v@ == digit_values(w)
                    &&& k == i + dot_index(body)
                    &&& (k == b || t@[k as int] == '.')
                },
            }
        }),
{
    let ghost body = t@.subrange(i as int, b as int);
    let mut k: usize = i;
    let mut v: Vec<u8> = Vec::new();
    while k < b && t[k] != '.'
        invariant
            i <= k <= b <= t@.len(),
            body == t@.subrange(i as int, b as int),
            forall|j: int| i <= j < k ==> is_digit(#[trigger] t@[j]),
            v@ == digit_values(t@.subrange(i as int, k as int)),
            dot_index(body) == (k - i) + dot_index(t@.subrange(k as int, b as int)),
        decreases b - k,
    {
        let ghost rest = t@.subrange(k as int, b as int);
        assert(rest.drop_first() =~= t@.subrange(k + 1, b as int));
        assert(rest[0] == t@[k as int]);
        assert(dot_index(rest) == 1 + dot_index(rest.drop_first()));
        if !('0' <= t[k] && t[k] <= '9') {
            proof {
                let w = body.take(dot_index(body) as int);
                assert(dot_index(body) > k - i);
                assert(dot_index(body) <= body.len()) by {
                    lemma_dot_index_bound(body);
                }
                assert(body[k - i] == t@[k as int]);
                assert(w[k - i] == body[k - i]);
                assert(!is_digit(w[k - i]));
            }
            return None;
        }
        v.push((t[k] as u32 - '0' as u32) as u8);
        assert(digit_values(t@.subrange(i as int, k + 1)) =~= digit_values(
            t@.subrange(i as int, k as int),
        ).push((t@[k as int] as u32 - '0' as u32) as u8));
        k = k + 1;
    }
    let ghost w = body.take(dot_index(body) as int);
    assert(dot_index(t@.subrange(k as int, b as int)) == 0);
    assert(w =~= t@.subrange(i as int, k as int));
    Some((v, k))
}

/// Reads `t[i..b]` as decimal digits; `None` when another character occurs.
fn read_digits(t: &Vec<char>, i: usize, b: usize) -> (r: Option<Vec<u8>>)
    requires
        i <= b <= t@.len(),
    ensures
        match r {
            None => !all_digits(t@.subrange(i as int, b as int)),
            Some(v) => all_digits(t@.subrange(i as int, b as int)) && v@ == digit_values(
                t@.subrange(i as int, b as int),
            ),
        },
{
    let mut k: usize = i;
    let mut v: Vec<u8> = Vec::new();
    while k < b
        invariant
            i <= k <= b <= t@.len(),
            forall|j: int| i <= j < k ==> is_digit(#[trigger] t@[j]),
            v@ == digit_values(t@.subrange(i as int, k as int)),
        decreases b - k,
    {
        if !('0' <= t[k] && t[k] <= '9') {
            assert(t@.subrange(i as int, b as int)[k - i] == t@[k as int]);
            return None;
        }
        v.push((t[k] as u32 - '0' as u32) as u8);
        assert(digit_values(t@.subrange(i as int, k + 1)) =~= digit_values(
            t@.subrange(i as int, k as int),
        ).push((t@[k as int] as u32 - '0' as u32) as u8));
        k = k + 1;
    }
    Some(v)
}

/// Reads `t[a..b]` as a decimal number (see `number_parts`).
fn read_number(t: &Vec<char>, a: usize, b: usize) -> (r: Option<(bool, Vec<u8>, Vec<u8>)>)
    requires
        a <= b <= t@.len(),
    ensures
        match (number_parts(t@.subrange(a as int, b as int)), r) {
            (None, None) => true,
            (Some(p), Some(q)) => p.0 == q.0 && digit_values(p.1) == q.1@ && digit_values(p.2)
                == q.2@,
            _ => false,
        },
{
    let ghost num = t@.subrange(a as int, b as int);
    let mut i: usize = a;
    let mut negative: bool = false;
    if i < b && (t[i] == '+' || t[i] == '-') {
        negative = t[i] == '-';
        i = i + 1;
    }
    let ghost body = t@.subrange(i as int, b as int);
    assert(body =~= if num.len() > 0 && (num[0] == '+' || num[0] == '-') {
        num.drop_first()
    } else {
        num
    });
    let (whole, k) = match read_whole(t, i, b) {
        None => return None,
        Some(x) => x,
    };
    let ghost d = dot_index(body);
    let fraction: Vec<u8> = if k < b {
        assert(body.skip(d + 1int) =~= t@.subrange(k + 1, b as int));
        match read_digits(t, k + 1, b) {
            None => return None,
            Some(f) => f,
        }
    } else {
        assert(digit_values(Seq::<char>::empty()) =~= Seq::<u8>::empty());
        Vec::new()
    };
    if whole.len() == 0 && fraction.len() == 0 {
        return None;
    }
    Some((negative, whole, fraction))
}

/// Reads `"<number><suffix>"` text: the unit suffix is matched at the end
/// without regard to case, longest first; the text before it, trimmed of
/// whitespace, must be a decimal number.
pub fn parse(input: &str) -> (r: Result<Literal, Error>)
    ensures
        parse_outcome(input@, r),
{
    let t = chars_of(input);
    let n: usize = t.len();
    if n == 0 || !(t[n - 1] == 'b' || t[n - 1] == 'B') {
        return Err(Error::InvalidUnit(input.to_owned()));
    }
    let (ulen, power, iec): (usize, i8, bool) = if n >= 3 && (t[n - 2] == 'i' || t[n - 2] == 'I')
        && letter_power(t[n - 3]) > 0 {
        (3, letter_power(t[n - 3]), true)
    } else if n >= 2 && letter_power(t[n - 2]) > 0 {
        (2, letter_power(t[n - 2]), false)
    } else {
        (1, 0, false)
    };
    assert(unit_of(input@) == Some((ulen as nat, power, iec)));
    let (a, b) = trim_bounds(&t, n - ulen);
    match read_number(&t, a, b) {
        None => Err(Error::ErroneousInput(input.to_owned())),
        Some((negative, whole, fraction)) => {
            let multiplier: u64 = if iec {
                1024
            } else {
                1000
            };
            Ok(Literal { negative, whole, fraction, multiplier, power, iec })
        },
    }
}

} // verus!
