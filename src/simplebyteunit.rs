//! The byte-count type, its unit conventions, constants and operations.
use vstd::prelude::*;

use crate::arithmetic::{
    divisor, literal_count, magnitude, multiplier, scale_power, scaled_hundredths,
};
use crate::suffix::{parse, parse_spec, suffix, suffix_text};

verus! {

/// A unit convention, used to pick how a plain count is tagged.
#[derive(Clone, Copy, Debug, PartialEq, Eq, Structural)]
pub enum Standard {
    /// Binary units, powers of 1024 (KiB, MiB, ...).
    IEC,
    /// Decimal units, powers of 1000 (kB, MB, ...).
    SI,
}

/// Binary units, powers of 1024.
pub const IEC: Standard = Standard::IEC;

/// Decimal units, powers of 1000.
pub const SI: Standard = Standard::SI;

/// Power index of exa (EB, EiB).
pub const E: i8 = 6;

/// Power index of peta (PB, PiB).
pub const P: i8 = 5;

/// Power index of tera (TB, TiB).
pub const T: i8 = 4;

/// Power index of giga (GB, GiB).
pub const G: i8 = 3;

/// Power index of mega (MB, MiB).
pub const M: i8 = 2;

/// Power index of kilo (kB, KiB).
pub const K: i8 = 1;

/// Power index of plain bytes.
pub const B: i8 = 0;

/// The highest power index.
pub const MAX: i8 = E;

/// A byte count tagged with the convention it is displayed in. The tag is a
/// presentation attribute: comparisons look at the count alone.
#[derive(Clone, Copy, Debug)]
pub enum ByteUnit {
    IEC(i64),
    SI(i64),
}

/// Why text could not be read as a byte count. Each variant carries the
/// offending input text.
#[derive(Debug)]
pub enum Error {
    /// The text ends in none of the recognised unit suffixes.
    InvalidUnit(String),
    /// The text before the suffix is not a decimal number.
    ErroneousInput(String),
}

impl ByteUnit {
    /// The stored byte count.
    pub open spec fn count(&self) -> i64 {
        match self {
            ByteUnit::IEC(v) => *v,
            ByteUnit::SI(v) => *v,
        }
    }

    /// Whether the value is displayed in binary units.
    pub open spec fn is_iec(&self) -> bool {
        self is IEC
    }

    /// The scaling base of the value's convention.
    pub open spec fn base(&self) -> nat {
        if self.is_iec() {
            1024
        } else {
            1000
        }
    }
}

/// The value with count `v` in convention `unit`.
pub open spec fn tagged(v: i64, unit: Standard) -> ByteUnit {
    match unit {
        Standard::IEC => ByteUnit::IEC(v),
        Standard::SI => ByteUnit::SI(v),
    }
}

/// The character of decimal digit `d`.
pub open spec fn digit_char(d: nat) -> char {
    seq!['0', '1', '2', '3', '4', '5', '6', '7', '8', '9'][d as int]
}

/// Decimal digits of `n`, most significant first, without leading zeros.
pub open spec fn decimal_digits(n: nat) -> Seq<char>
    decreases n,
{
    if n < 10 {
        seq![digit_char(n)]
    } else {
        decimal_digits(n / 10) + seq![digit_char(n % 10)]
    }
}

/// Text of a scaled value `h` (in hundredths) at `power` with unit `unit`:
/// a sign when negative, the integer part, two decimals unless the power is
/// zero, a space and the unit.
pub open spec fn render(h: int, power: int, unit: Seq<char>) -> Seq<char> {
    let m = (if h < 0 {
        -h
    } else {
        h
    }) as nat;
    let sign = if h < 0 {
        seq!['-']
    } else {
        Seq::<char>::empty()
    };
    let number = if power == 0 {
        decimal_digits(m / 100)
    } else {
        decimal_digits(m / 100) + seq!['.', digit_char((m % 100) / 10), digit_char(m % 10)]
    };
    sign + number + seq![' '] + unit
}

impl ByteUnit {
    /// The text of this value scaled to at most power `cap`.
    pub open spec fn display_at(&self, cap: int) -> Seq<char> {
        let p = scale_power(magnitude(self.count()), self.base(), cap);
        render(scaled_hundredths(self.count(), self.base(), p), p as int, suffix_text(self.is_iec(), p as int))
    }
}

/// Whether `r` is what reading `t` as a byte count should give.
pub open spec fn from_text_outcome(t: Seq<char>, r: Result<ByteUnit, Error>) -> bool {
    match (parse_spec(t), r) {
        (Err(true), Err(Error::InvalidUnit(m))) => m@ == t,
        (Err(false), Err(Error::ErroneousInput(m))) => m@ == t,
        (Ok(x), Ok(u)) => {
            &&& u.is_iec() == x.5
            &&& u.count() == literal_count(x.0, x.1, x.2, x.3 as nat, x.4 as nat)
        },
        _ => false,
    }
}

fn digit_str(d: u128) -> (r: &'static str)
    requires
        d < 10,
    ensures
        r@ == seq![digit_char(d as nat)],
{
    proof {
        reveal_strlit("0");
        reveal_strlit("1");
        reveal_strlit("2");
        reveal_strlit("3");
        reveal_strlit("4");
        reveal_strlit("5");
        reveal_strlit("6");
        reveal_strlit("7");
        reveal_strlit("8");
        reveal_strlit("9");
    }
    match d {
        0 => "0",
        1 => "1",
        2 => "2",
        3 => "3",
        4 => "4",
        5 => "5",
        6 => "6",
        7 => "7",
        8 => "8",
        _ => "9",
    }
}

fn push_decimal(s: &mut String, n: u128)
    ensures
        final(s)@ == old(s)@ + decimal_digits(n as nat),
    decreases n,
{
    if n >= 10 {
        push_decimal(s, n / 10);
    }
    s.append(digit_str(n % 10));
    assert(final(s)@ =~= old(s)@ + decimal_digits(n as nat));
}

impl ByteUnit {
    fn value(&self) -> (r: (i64, u64))
        ensures
            r.0 == self.count(),
            r.1 == self.base(),
    {
        match self {
            ByteUnit::IEC(val) => (*val, 1024),
            ByteUnit::SI(val) => (*val, 1000),
        }
    }

    fn format(&self, arithmetic: (i8, i128)) -> (r: String)
        requires
            arithmetic.1 > -0x1_0000_0000_0000_0000_0000i128,
        ensures
            r@ == render(
                arithmetic.1 as int,
                arithmetic.0 as int,
                suffix_text(self.is_iec(), arithmetic.0 as int),
            ),
    {
        let power = arithmetic.0;
        let h = arithmetic.1;
        let mut s = String::new();
        let m: u128 = if h < 0 {
            s.append("-");
            (-h) as u128
        } else {
            h as u128
        };
        proof {
            reveal_strlit("-");
            reveal_strlit(".");
            reveal_strlit(" ");
        }
        push_decimal(&mut s, m / 100);
        if power != B {
            s.append(".");
            s.append(digit_str((m % 100) / 10));
            s.append(digit_str(m % 10));
        }
        s.append(" ");
        s.append(suffix(self, power));
        assert(s@ =~= render(h as int, power as int, suffix_text(self.is_iec(), power as int)));
        s
    }

    /// The stored byte count.
    pub fn val(&self) -> (r: i64)
        ensures
            r == self.count(),
    {
        match self {
            ByteUnit::IEC(val) => *val,
            ByteUnit::SI(val) => *val,
        }
    }

    /// The text of this value scaled to at most power `power_of`; at power
    /// zero the count is shown whole, otherwise with two decimals.
    pub fn pow(&self, power_of: i8) -> (r: String)
        ensures
            r@ == self.display_at(power_of as int),
    {
        let (bytes, base) = self.value();
        let scaled = divisor(bytes, base, power_of);
        proof {
            crate::arithmetic::lemma_scaled_bound(bytes, base as nat, scaled.0 as nat);
        }
        self.format(scaled)
    }

    /// The text of this value at the largest fitting power up to exa; this
    /// is its canonical display form.
    pub fn max(&self) -> (r: String)
        ensures
            r@ == self.display_at(MAX as int),
    {
        self.pow(MAX)
    }

    /// The text of this value scaled to at most kilo.
    pub fn k(&self) -> (r: String)
        ensures
            r@ == self.display_at(K as int),
    {
        self.pow(K)
    }

    /// The text of this value scaled to at most mega.
    pub fn m(&self) -> (r: String)
        ensures
            r@ == self.display_at(M as int),
    {
        self.pow(M)
    }

    /// The text of this value scaled to at most giga.
    pub fn g(&self) -> (r: String)
        ensures
            r@ == self.display_at(G as int),
    {
        self.pow(G)
    }

    /// The text of this value scaled to at most peta.
    pub fn p(&self) -> (r: String)
        ensures
            r@ == self.display_at(P as int),
    {
        self.pow(P)
    }

    /// The text of this value scaled to at most tera.
    pub fn t(&self) -> (r: String)
        ensures
            r@ == self.display_at(T as int),
    {
        self.pow(T)
    }

    /// The text of this value scaled to at most exa.
    pub fn e(&self) -> (r: String)
        ensures
            r@ == self.display_at(E as int),
    {
        self.pow(E)
    }

    /// Reads `"<number><suffix>"` text as a byte count: the number times the
    /// unit, rounded toward zero and saturated to the range of `i64`, tagged
    /// binary or decimal by the suffix.
    pub fn from_text(s: &str) -> (r: Result<ByteUnit, Error>)
        ensures
            from_text_outcome(s@, r),
    {
        match parse(s) {
            Err(e) => Err(e),
            Ok(lit) => {
                let (iec, count) = multiplier(&lit);
                if iec {
                    Ok(ByteUnit::IEC(count))
                } else {
                    Ok(ByteUnit::SI(count))
                }
            },
        }
    }
}

/// A value built from a count and a convention gives back that count and
/// carries that convention.
pub proof fn lemma_count_kept(v: i64, unit: Standard)
    ensures
        tagged(v, unit).count() == v,
        tagged(v, unit).is_iec() == (unit == Standard::IEC),
{
}

/// At power zero every value is shown as its whole count in plain bytes: an
/// optional minus sign, the decimal digits of its magnitude, no decimal point,
/// and the unit `B`.
pub proof fn lemma_bytes_form(u: ByteUnit)
    ensures
        u.display_at(B as int) == (if u.count() < 0 {
            seq!['-']
        } else {
            Seq::<char>::empty()
        }) + decimal_digits(magnitude(u.count())) + seq![' ', 'B'],
{
    let m = magnitude(u.count());
    assert(crate::arithmetic::pow_nat(u.base(), 0) == 1);
    assert((m * 100) / 1 == m * 100);
    assert((m * 100) % 1 == 0);
    assert((m * 100) / 100 == m);
    assert(u.display_at(B as int) =~= (if u.count() < 0 {
        seq!['-']
    } else {
        Seq::<char>::empty()
    }) + decimal_digits(magnitude(u.count())) + seq![' ', 'B']);
}

/// Tags a plain count with a unit convention. Counts of any width are
/// widened to the 64-bit count that `ByteUnit` holds.
pub trait ToByteUnit: Sized {
    /// The count as a mathematical integer.
    spec fn byte_count(self) -> int;

    fn to_byteunit(self, unit: Standard) -> (r: ByteUnit)
        ensures
            r.count() == self.byte_count(),
            r.is_iec() == (unit == Standard::IEC),
    ;
}

impl ToByteUnit for u32 {
    open spec fn byte_count(self) -> int {
        self as int
    }

    fn to_byteunit(self, unit: Standard) -> (r: ByteUnit) {
        ByteUnit::new(self as i64, unit)
    }
}

impl ToByteUnit for i32 {
    open spec fn byte_count(self) -> int {
        self as int
    }

    fn to_byteunit(self, unit: Standard) -> (r: ByteUnit) {
        ByteUnit::new(self as i64, unit)
    }
}

impl ToByteUnit for i64 {
    open spec fn byte_count(self) -> int {
        self as int
    }

    fn to_byteunit(self, unit: Standard) -> (r: ByteUnit) {
        ByteUnit::new(self, unit)
    }
}

impl ByteUnit {
    /// The value with count `value` in convention `unit`.
    pub fn new(value: i64, unit: Standard) -> (r: ByteUnit)
        ensures
            r == tagged(value, unit),
            r.count() == value,
            r.is_iec() == (unit == Standard::IEC),
    {
        match unit {
            Standard::IEC => ByteUnit::IEC(value),
            Standard::SI => ByteUnit::SI(value),
        }
    }

    /// The value with count `value` and the convention of `self`.
    pub open spec fn with_count(self, value: int) -> ByteUnit {
        match self {
            ByteUnit::IEC(_) => ByteUnit::IEC(value as i64),
            ByteUnit::SI(_) => ByteUnit::SI(value as i64),
        }
    }
}

/// Values are equal when their counts are, whatever their conventions.
impl PartialEq for ByteUnit {
    fn eq(&self, other: &ByteUnit) -> (r: bool) {
        self.val() == other.val()
    }
}

impl vstd::std_specs::cmp::PartialEqSpecImpl for ByteUnit {
    open spec fn obeys_eq_spec() -> bool {
        true
    }

    open spec fn eq_spec(&self, other: &ByteUnit) -> bool {
        self.count() == other.count()
    }
}

/// Values are ordered by their counts, whatever their conventions.
impl PartialOrd for ByteUnit {
    fn partial_cmp(&self, other: &ByteUnit) -> (r: Option<core::cmp::Ordering>) {
        let (a, b) = (self.val(), other.val());
        if a < b {
            Some(core::cmp::Ordering::Less)
        } else if a > b {
            Some(core::cmp::Ordering::Greater)
        } else {
            Some(core::cmp::Ordering::Equal)
        }
    }
}

impl vstd::std_specs::cmp::PartialOrdSpecImpl for ByteUnit {
    open spec fn obeys_partial_cmp_spec() -> bool {
        true
    }

    open spec fn partial_cmp_spec(&self, other: &ByteUnit) -> Option<core::cmp::Ordering> {
        if self.count() < other.count() {
            Some(core::cmp::Ordering::Less)
        } else if self.count() > other.count() {
            Some(core::cmp::Ordering::Greater)
        } else {
            Some(core::cmp::Ordering::Equal)
        }
    }
}

/// Adds the counts; the result keeps the convention of the left operand.
impl core::ops::Add for ByteUnit {
    type Output = ByteUnit;

    fn add(self, input: ByteUnit) -> (r: ByteUnit) {
        let v = self.val() + input.val();
        match self {
            ByteUnit::IEC(_) => ByteUnit::IEC(v),
            ByteUnit::SI(_) => ByteUnit::SI(v),
        }
    }
}

impl vstd::std_specs::ops::AddSpecImpl for ByteUnit {
    open spec fn obeys_add_spec() -> bool {
        true
    }

    open spec fn add_req(self, input: ByteUnit) -> bool {
        i64::MIN <= self.count() + input.count() <= i64::MAX
    }

    open spec fn add_spec(self, input: ByteUnit) -> ByteUnit {
        self.with_count(self.count() + input.count())
    }
}

/// Subtracts the counts; the result keeps the convention of the left operand.
impl core::ops::Sub for ByteUnit {
    type Output = ByteUnit;

    fn sub(self, input: ByteUnit) -> (r: ByteUnit) {
        let v = self.val() - input.val();
        match self {
            ByteUnit::IEC(_) => ByteUnit::IEC(v),
            ByteUnit::SI(_) => ByteUnit::SI(v),
        }
    }
}

impl vstd::std_specs::ops::SubSpecImpl for ByteUnit {
    open spec fn obeys_sub_spec() -> bool {
        true
    }

    open spec fn sub_req(self, input: ByteUnit) -> bool {
        i64::MIN <= self.count() - input.count() <= i64::MAX
    }

    open spec fn sub_spec(self, input: ByteUnit) -> ByteUnit {
        self.with_count(self.count() - input.count())
    }
}

/// Multiplies the counts; the result keeps the convention of the left
/// operand.
impl core::ops::Mul for ByteUnit {
    type Output = ByteUnit;

    fn mul(self, input: ByteUnit) -> (r: ByteUnit) {
        let v = self.val() * input.val();
        match self {
            ByteUnit::IEC(_) => ByteUnit::IEC(v),
            ByteUnit::SI(_) => ByteUnit::SI(v),
        }
    }
}

impl vstd::std_specs::ops::MulSpecImpl for ByteUnit {
    open spec fn obeys_mul_spec() -> bool {
        true
    }

    open spec fn mul_req(self, input: ByteUnit) -> bool {
        i64::MIN <= self.count() * input.count() <= i64::MAX
    }

    open spec fn mul_spec(self, input: ByteUnit) -> ByteUnit {
        self.with_count(self.count() * input.count())
    }
}

/// Divides the counts, rounding toward zero; the result keeps the convention
/// of the left operand.
impl core::ops::Div for ByteUnit {
    type Output = ByteUnit;

    fn div(self, input: ByteUnit) -> (r: ByteUnit) {
        let (a, b) = (self.val() as i128, input.val() as i128);
        let q: i128 = (if a < 0 {
            -a
        } else {
            a
        }) / (if b < 0 {
            -b
        } else {
            b
        });
        let v: i64 = if (a < 0) != (b < 0) {
            (-q) as i64
        } else {
            q as i64
        };
        match self {
            ByteUnit::IEC(_) => ByteUnit::IEC(v),
            ByteUnit::SI(_) => ByteUnit::SI(v),
        }
    }
}

impl vstd::std_specs::ops::DivSpecImpl for ByteUnit {
    open spec fn obeys_div_spec() -> bool {
        true
    }

    open spec fn div_req(self, input: ByteUnit) -> bool {
        input.count() != 0 && !(self.count() == i64::MIN && input.count() == -1)
    }

    open spec fn div_spec(self, input: ByteUnit) -> ByteUnit {
        self.with_count(truncated_div(self.count() as int, input.count() as int))
    }
}

/// Integer division rounding toward zero.
pub open spec fn truncated_div(a: int, b: int) -> int {
    let q = (if a < 0 {
        -a
    } else {
        a
    }) / (if b < 0 {
        -b
    } else {
        b
    });
    if (a < 0) != (b < 0) {
        -q
    } else {
        q
    }
}

/// Reads text as a byte count, exactly as `ByteUnit::from_text` does.
impl core::str::FromStr for ByteUnit {
    type Err = Error;

    fn from_str(s: &str) -> (r: Result<ByteUnit, Error>)
        ensures
            from_text_outcome(s@, r),
    {
        ByteUnit::from_text(s)
    }
}

} // verus!
