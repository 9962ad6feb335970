//! Exact decimal numbers: an integer mantissa and the number of digits that
//! follow the decimal point.
//!
//! The arithmetic, the rounding and the text forms are those of the
//! `rust_decimal` crate. A [`Decimal`] holds the two integers that make up such
//! a number, and every operation hands them to `rust_decimal` and takes the two
//! integers of the answer back.

use vstd::prelude::*;

verus! {

/// The largest number of digits after the decimal point.
pub const MAX_SCALE: u32 = 28;

/// The largest magnitude of a mantissa: `2^96 - 1`.
pub const MAX_MANTISSA: i128 = 0xFFFF_FFFF_FFFF_FFFF_FFFF_FFFF;

/// Whether `mantissa / 10^scale` is a number that a [`Decimal`] can hold.
pub open spec fn representable(mantissa: int, scale: nat) -> bool {
    -MAX_MANTISSA <= mantissa <= MAX_MANTISSA && scale <= MAX_SCALE
}

/// The number `mantissa / 10^scale`.
///
/// Two decimals are equal where their mantissas and their scales are: `1.0`
/// and `1.00` are the same number and different decimals.
#[derive(Clone, Copy, Debug, PartialEq, Eq, Structural)]
pub struct Decimal {
    mantissa: i128,
    scale: u32,
}

impl View for Decimal {
    type V = (int, nat);

    closed spec fn view(&self) -> (int, nat) {
        (self.mantissa as int, self.scale as nat)
    }
}

impl Decimal {
    #[verifier::type_invariant]
    spec fn in_range(self) -> bool {
        representable(self.mantissa as int, self.scale as nat)
    }

    /// The number `mantissa / 10^scale`, if a `Decimal` can hold it.
    pub fn new(mantissa: i128, scale: u32) -> (r: Option<Decimal>)
        ensures
            r is Some <==> representable(mantissa as int, scale as nat),
            r matches Some(d) ==> d@ == (mantissa as int, scale as nat),
    {
        if -MAX_MANTISSA <= mantissa && mantissa <= MAX_MANTISSA && scale <= MAX_SCALE {
            Some(Decimal { mantissa, scale })
        } else {
            None
        }
    }

    /// The integer that holds all digits of the number.
    pub fn mantissa(&self) -> (m: i128)
        ensures
            m == self@.0,
            representable(self@.0, self@.1),
    {
        proof {
            use_type_invariant(self);
        }
        self.mantissa
    }

    /// How many of the mantissa's digits follow the decimal point.
    pub fn scale(&self) -> (s: u32)
        ensures
            s == self@.1,
            representable(self@.0, self@.1),
    {
        proof {
            use_type_invariant(self);
        }
        self.scale
    }

    /// `self - other`, or `None` where the result overflows.
    pub fn checked_sub(self, other: Decimal) -> (r: Option<Decimal>)
        ensures
            view_of(r) == difference(self@, other@),
    {
        proof {
            use_type_invariant(self);
            use_type_invariant(other);
        }
        sub_of(self, other)
    }

    /// `self * other`, or `None` where the result overflows.
    pub fn checked_mul(self, other: Decimal) -> (r: Option<Decimal>)
        ensures
            view_of(r) == product(self@, other@),
    {
        proof {
            use_type_invariant(self);
            use_type_invariant(other);
        }
        mul_of(self, other)
    }

    /// `self / other`, or `None` where the result overflows or `other` is
    /// zero.
    pub fn checked_div(self, other: Decimal) -> (r: Option<Decimal>)
        ensures
            view_of(r) == quotient(self@, other@),
    {
        proof {
            use_type_invariant(self);
            use_type_invariant(other);
        }
        div_of(self, other)
    }

    /// The number with at most `places` digits behind the point, rounded half
    /// to even.
    pub fn round_dp(self, places: u32) -> (r: Decimal)
        ensures
            r@ == rounded(self@, places as nat),
    {
        proof {
            use_type_invariant(self);
        }
        rounding_of(self, places)
    }

    /// The same number without the zeros that end its fraction.
    pub fn normalize(self) -> (r: Decimal)
        ensures
            r@ == normalized(self@),
    {
        proof {
            use_type_invariant(self);
        }
        normal_of(self)
    }

    /// The number in digits.
    pub fn to_text(self) -> (r: String)
        ensures
            r@ == text(self@),
    {
        proof {
            use_type_invariant(self);
        }
        text_of(self)
    }
}

/// `10^n`.
pub open spec fn pow10(n: nat) -> nat
    decreases n,
{
    if n == 0 {
        1
    } else {
        10 * pow10((n - 1) as nat)
    }
}

/// The magnitude of an integer.
pub open spec fn magnitude(m: int) -> nat {
    if m < 0 {
        (-m) as nat
    } else {
        m as nat
    }
}

/// The views of an optional decimal.
pub open spec fn view_of(d: Option<Decimal>) -> Option<(int, nat)> {
    match d {
        Some(d) => Some(d@),
        None => None,
    }
}

/// What `rust_decimal` computes for `a - b`; `None` where it reports an overflow.
pub uninterp spec fn difference(a: (int, nat), b: (int, nat)) -> Option<(int, nat)>;

/// What `rust_decimal` computes for `a * b`; `None` where it reports an overflow.
pub uninterp spec fn product(a: (int, nat), b: (int, nat)) -> Option<(int, nat)>;

/// What `rust_decimal` computes for `a / b`; `None` where it reports an overflow
/// or a division by zero.
pub uninterp spec fn quotient(a: (int, nat), b: (int, nat)) -> Option<(int, nat)>;

/// `d` with at most `places` digits after the decimal point: what is cut off
/// rounds to the nearest, and a tie goes to the even neighbour.
pub open spec fn rounded(d: (int, nat), places: nat) -> (int, nat) {
    if d.1 <= places {
        d
    } else {
        let unit = pow10((d.1 - places) as nat);
        let kept = magnitude(d.0) / unit;
        let cut = magnitude(d.0) % unit;
        let up = 2 * cut > unit || (2 * cut == unit && kept % 2 == 1);
        let m = if up {
            kept + 1
        } else {
            kept
        };
        (
            if d.0 < 0 {
                -m
            } else {
                m as int
            },
            places,
        )
    }
}

/// `d` without the zeros that end its fraction; zero has no fraction at all.
pub open spec fn normalized(d: (int, nat)) -> (int, nat)
    decreases d.1,
{
    if d.0 == 0 {
        (0, 0)
    } else if d.1 > 0 && d.0 % 10 == 0 {
        normalized((d.0 / 10, (d.1 - 1) as nat))
    } else {
        d
    }
}

/// The character of a decimal digit.
pub open spec fn digit_char(d: int) -> char {
    seq!['0', '1', '2', '3', '4', '5', '6', '7', '8', '9'][d]
}

/// Whether `c` is one of `0` to `9`.
pub open spec fn is_digit(c: char) -> bool {
    '0' <= c <= '9'
}

/// The number that the digit `c` stands for.
pub open spec fn digit_value(c: char) -> nat {
    (c as int - '0' as int) as nat
}

/// The digits of `n`, without leading zeros; `0` is one digit.
pub open spec fn digits(n: nat) -> Seq<char>
    decreases n,
{
    if n < 10 {
        seq![digit_char(n as int)]
    } else {
        digits(n / 10).push(digit_char((n % 10) as int))
    }
}

/// The last `count` digits of `n`, with leading zeros.
pub open spec fn last_digits(n: nat, count: nat) -> Seq<char>
    decreases count,
{
    if count == 0 {
        Seq::empty()
    } else {
        last_digits(n / 10, (count - 1) as nat).push(digit_char((n % 10) as int))
    }
}

/// The text of a decimal: a `-` if it is negative, the digits of its whole
/// part, and, where the scale is not zero, a point and as many digits as the
/// scale says.
pub open spec fn text(d: (int, nat)) -> Seq<char> {
    let sign = if d.0 < 0 {
        seq!['-']
    } else {
        Seq::empty()
    };
    let whole = digits(magnitude(d.0) / pow10(d.1));
    if d.1 == 0 {
        sign + whole
    } else {
        sign + whole + seq!['.'] + last_digits(magnitude(d.0) % pow10(d.1), d.1)
    }
}

/// Where the run of digits that starts at `from` ends.
pub open spec fn digits_end(s: Seq<char>, from: int) -> int
    decreases s.len() - from,
{
    if 0 <= from < s.len() && is_digit(s[from]) {
        digits_end(s, from + 1)
    } else {
        from
    }
}

/// The number that a run of digits stands for.
pub open spec fn digits_value(s: Seq<char>) -> nat
    decreases s.len(),
{
    if s.len() == 0 {
        0
    } else {
        digits_value(s.drop_last()) * 10 + digit_value(s.last())
    }
}

/// Where the whole part of the number at `from` starts: behind its sign.
pub open spec fn whole_start(s: Seq<char>, from: int) -> int {
    if 0 <= from < s.len() && s[from] == '-' {
        from + 1
    } else {
        from
    }
}

/// Whether the number at `from` has a fraction: a point and a digit behind
/// its whole part.
pub open spec fn has_fraction(s: Seq<char>, from: int) -> bool {
    let point = digits_end(s, whole_start(s, from));
    point < s.len() && s[point] == '.' && digits_end(s, point + 1) > point + 1
}

/// Where the number that starts at `from` ends: an optional `-`, one or more
/// digits and, optionally, a point and one or more digits. `None` where no
/// digit stands at its start.
pub open spec fn number_end(s: Seq<char>, from: int) -> Option<int> {
    let point = digits_end(s, whole_start(s, from));
    if 0 <= from && point > whole_start(s, from) {
        if has_fraction(s, from) {
            Some(digits_end(s, point + 1))
        } else {
            Some(point)
        }
    } else {
        None
    }
}

/// Whether `t` is, from end to end, a number in the form of [`number_end`].
pub open spec fn is_number(t: Seq<char>) -> bool {
    number_end(t, 0) == Some(t.len() as int)
}

/// The decimal that the digits of the number `t` spell: all of them make up
/// the mantissa, and the scale counts those behind the point. `None` where
/// the mantissa or the scale is more than a decimal can hold.
pub open spec fn number_value(t: Seq<char>) -> Option<(int, nat)> {
    let start = whole_start(t, 0);
    let point = digits_end(t, start);
    let whole = t.subrange(start, point);
    let fraction = if point < t.len() {
        t.subrange(point + 1, t.len() as int)
    } else {
        Seq::empty()
    };
    let m = digits_value(whole + fraction);
    if m <= MAX_MANTISSA && fraction.len() <= MAX_SCALE {
        Some(
            (
                if start == 1 {
                    -(m as int)
                } else {
                    m as int
                },
                fraction.len(),
            ),
        )
    } else {
        None
    }
}

/// `a - b`, by `checked_sub` of `rust_decimal::Decimal`. Nothing is claimed of
/// the result but that it is that crate's answer for these two numbers, and
/// `None` where it reports an overflow. Both numbers are in range, so that
/// `from_i128_with_scale` takes them.
#[verifier::external_body]
fn sub_of(a: Decimal, b: Decimal) -> (r: Option<Decimal>)
    requires
        representable(a@.0, a@.1),
        representable(b@.0, b@.1),
    ensures
        view_of(r) == difference(a@, b@),
{
    let x = rust_decimal::Decimal::from_i128_with_scale(a.mantissa, a.scale);
    let y = rust_decimal::Decimal::from_i128_with_scale(b.mantissa, b.scale);
    match x.checked_sub(y) {
        Some(d) => Some(Decimal { mantissa: d.mantissa(), scale: d.scale() }),
        None => None,
    }
}

/// `a * b`, by `checked_mul` of `rust_decimal::Decimal`. Nothing is claimed of
/// the result but that it is that crate's answer for these two numbers, and
/// `None` where it reports an overflow.
#[verifier::external_body]
fn mul_of(a: Decimal, b: Decimal) -> (r: Option<Decimal>)
    requires
        representable(a@.0, a@.1),
        representable(b@.0, b@.1),
    ensures
        view_of(r) == product(a@, b@),
{
    let x = rust_decimal::Decimal::from_i128_with_scale(a.mantissa, a.scale);
    let y = rust_decimal::Decimal::from_i128_with_scale(b.mantissa, b.scale);
    match x.checked_mul(y) {
        Some(d) => Some(Decimal { mantissa: d.mantissa(), scale: d.scale() }),
        None => None,
    }
}

/// `a / b`, by `checked_div` of `rust_decimal::Decimal`. Nothing is claimed of
/// the result but that it is that crate's answer for these two numbers, and
/// `None` where it reports an overflow or a division by zero.
#[verifier::external_body]
fn div_of(a: Decimal, b: Decimal) -> (r: Option<Decimal>)
    requires
        representable(a@.0, a@.1),
        representable(b@.0, b@.1),
    ensures
        view_of(r) == quotient(a@, b@),
{
    let x = rust_decimal::Decimal::from_i128_with_scale(a.mantissa, a.scale);
    let y = rust_decimal::Decimal::from_i128_with_scale(b.mantissa, b.scale);
    match x.checked_div(y) {
        Some(d) => Some(Decimal { mantissa: d.mantissa(), scale: d.scale() }),
        None => None,
    }
}

/// `round_dp` of `rust_decimal::Decimal`. A number with no more than `places`
/// digits behind the point comes back as it is. Of any other the digits
/// behind that place are cut off, and the last digit that is kept goes up by
/// one where more than half a unit was cut off, or just half a unit behind an
/// odd digit. The result has the sign of the number, or is zero.
#[verifier::external_body]
fn rounding_of(a: Decimal, places: u32) -> (r: Decimal)
    requires
        representable(a@.0, a@.1),
    ensures
        r@ == rounded(a@, places as nat),
{
    let x = rust_decimal::Decimal::from_i128_with_scale(a.mantissa, a.scale);
    let d = x.round_dp(places);
    Decimal { mantissa: d.mantissa(), scale: d.scale() }
}

/// `normalize` of `rust_decimal::Decimal`: zero comes back with no digit
/// behind the point, and any other number without the zeros that end its
/// fraction.
#[verifier::external_body]
fn normal_of(a: Decimal) -> (r: Decimal)
    requires
        representable(a@.0, a@.1),
    ensures
        r@ == normalized(a@),
{
    let x = rust_decimal::Decimal::from_i128_with_scale(a.mantissa, a.scale);
    let d = x.normalize();
    Decimal { mantissa: d.mantissa(), scale: d.scale() }
}

/// `to_string` of `rust_decimal::Decimal`: a `-` for a number below zero, the
/// digits of the whole part, `0` where there is none, and for a scale above
/// zero a point and exactly as many digits as the scale says. There is no
/// exponent and no grouping.
#[verifier::external_body]
fn text_of(a: Decimal) -> (r: String)
    requires
        representable(a@.0, a@.1),
    ensures
        r@ == text(a@),
{
    let x = rust_decimal::Decimal::from_i128_with_scale(a.mantissa, a.scale);
    x.to_string()
}

/// What `rust_decimal` reads from a number whose digits no decimal holds one
/// for one: the number rounded to fewer places, or `None`.
pub uninterp spec fn rounded_number(t: Seq<char>) -> Option<(int, nat)>;

/// The decimal that is read from the number `t`: the one that its digits
/// spell, where a decimal can hold it, and else what `rust_decimal` makes of
/// it.
pub open spec fn number_read(t: Seq<char>) -> Option<(int, nat)> {
    match number_value(t) {
        Some(d) => Some(d),
        None => rounded_number(t),
    }
}

/// `from_str` of `rust_decimal::Decimal`, on a text that is a number from end
/// to end: an optional `-`, digits, and optionally a point and digits. Where
/// all digits fit a mantissa and those behind the point are no more than the
/// largest scale, the result is the decimal that they spell, with every digit
/// behind the point counted in the scale. Where they do not fit, nothing is
/// claimed of the result but that it is that crate's answer for this text.
#[verifier::external_body]
pub(crate) fn from_text(t: &str) -> (r: Option<Decimal>)
    requires
        is_number(t@),
    ensures
        number_value(t@) is Some ==> view_of(r) == number_value(t@),
        number_value(t@) is None ==> view_of(r) == rounded_number(t@),
{
    match <rust_decimal::Decimal as core::str::FromStr>::from_str(t) {
        Ok(d) => Some(Decimal { mantissa: d.mantissa(), scale: d.scale() }),
        Err(_) => None,
    }
}

} // verus!
