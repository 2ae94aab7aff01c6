//! Exact decimal numbers.
//!
//! A [`Dec`] is the pair (mantissa, scale) that `rust_decimal` keeps for a
//! number: it stands for `mantissa / 10^scale`.  Parsing, printing, ordering
//! and subtraction are done by `rust_decimal`; the functions here state what
//! those calls return over the pair.

use crate::error::OrderError;
use std::str::FromStr;
use vstd::arithmetic::power::{lemma_pow_adds, lemma_pow_positive, pow};
use vstd::prelude::*;

verus! {

/// Largest magnitude of a mantissa: 2^96 - 1.
pub const MAX_MANTISSA: i128 = 79_228_162_514_264_337_593_543_950_335;

/// Largest scale: a number has at most 28 digits behind the point.
pub const MAX_SCALE: u32 = 28;

/// The number `mantissa / 10^scale`.
///
/// `==` compares the representation: `5` and `5.0` are different values of
/// this type that stand for the same number.  Two numbers compare as their
/// [`Dec::units`] do.
#[derive(Clone, Copy, Debug, PartialEq, Eq, Structural)]
pub struct Dec {
    pub mantissa: i128,
    pub scale: u32,
}

/// The error that `rust_decimal` reports for a text it cannot read.
#[verifier::external_type_specification]
#[verifier::external_body]
pub struct ExDecimalError(rust_decimal::Error);

/// What `rust_decimal` reads from a text: the mantissa and the scale of the
/// number, or `None` where it reports an error.
pub uninterp spec fn decimal_from_str(text: Seq<char>) -> Option<(int, nat)>;

/// What `rust_decimal` returns for the difference of two numbers, each given
/// by mantissa and scale: the mantissa and the scale of the result.
pub uninterp spec fn decimal_sub(
    left_mantissa: int,
    left_scale: nat,
    right_mantissa: int,
    right_scale: nat,
) -> (int, nat);

/// 10^n.
pub open spec fn pow10(n: nat) -> int {
    pow(10, n)
}

/// The character of one decimal digit.
pub open spec fn digit_char(d: int) -> char {
    if d == 0 {
        '0'
    } else if d == 1 {
        '1'
    } else if d == 2 {
        '2'
    } else if d == 3 {
        '3'
    } else if d == 4 {
        '4'
    } else if d == 5 {
        '5'
    } else if d == 6 {
        '6'
    } else if d == 7 {
        '7'
    } else if d == 8 {
        '8'
    } else {
        '9'
    }
}

/// The decimal digits of `n`, most significant first; none for zero.
pub open spec fn digits(n: nat) -> Seq<char>
    decreases n,
{
    if n == 0 {
        Seq::empty()
    } else {
        digits(n / 10).push(digit_char((n % 10) as int))
    }
}

/// The text of the non-negative number `mantissa / 10^scale`: its digits
/// with exactly `scale` of them behind the point, a `0` before the point
/// where the number is below one, and no point where `scale` is zero.
pub open spec fn decimal_text(mantissa: nat, scale: nat) -> Seq<char> {
    let d = digits(mantissa);
    let padded = if d.len() < scale {
        Seq::new((scale - d.len()) as nat, |i: int| '0') + d
    } else {
        d
    };
    let split = padded.len() - scale;
    let whole = if split == 0 {
        seq!['0']
    } else {
        padded.subrange(0, split)
    };
    if scale == 0 {
        whole
    } else {
        whole + seq!['.'] + padded.subrange(split, padded.len() as int)
    }
}

impl Dec {
    /// The pair is one that `rust_decimal` can hold.
    pub open spec fn wf(self) -> bool {
        &&& -MAX_MANTISSA <= self.mantissa <= MAX_MANTISSA
        &&& self.scale <= MAX_SCALE
    }

    /// The number in units of 10^-28: an integer for every well-formed pair,
    /// so that two numbers compare as their units do.
    pub open spec fn units(self) -> int {
        self.mantissa * pow10((MAX_SCALE - self.scale) as nat)
    }

    /// The number is above zero.
    pub open spec fn positive(self) -> bool {
        self.units() > 0
    }

    /// The number can be written with `s` digits behind the point: at that
    /// scale its mantissa is still one that can be held.
    pub open spec fn fits_scale(self, s: nat) -> bool {
        &&& self.scale <= s <= MAX_SCALE
        &&& -MAX_MANTISSA <= self.mantissa * pow10((s - self.scale) as nat) <= MAX_MANTISSA
    }

    /// The larger of the two scales.
    pub open spec fn joint_scale(self, other: Dec) -> nat {
        if self.scale >= other.scale {
            self.scale as nat
        } else {
            other.scale as nat
        }
    }

    /// The mantissa of `self - other` at the larger of the two scales.
    pub open spec fn exact_diff_mantissa(self, other: Dec) -> int {
        let s = self.joint_scale(other);
        self.mantissa * pow10((s - self.scale) as nat) - other.mantissa * pow10(
            (s - other.scale) as nat,
        )
    }

    /// `self - other` can be held without rounding: both are above zero,
    /// `other` is not the larger, and the difference at the larger scale
    /// fits a mantissa.
    pub open spec fn sub_is_exact(self, other: Dec) -> bool {
        &&& self.mantissa > 0
        &&& other.mantissa > 0
        &&& 0 <= self.exact_diff_mantissa(other) <= MAX_MANTISSA
    }

    /// `self - other` without rounding, at the larger of the two scales.
    pub open spec fn exact_sub(self, other: Dec) -> Dec {
        Dec {
            mantissa: self.exact_diff_mantissa(other) as i128,
            scale: self.joint_scale(other) as u32,
        }
    }

    /// The difference that `rust_decimal` returns: the exact one where that
    /// can be held, and what the crate rounds it to where it cannot.
    pub open spec fn spec_sub(self, other: Dec) -> Dec {
        if self.sub_is_exact(other) {
            self.exact_sub(other)
        } else {
            let r = decimal_sub(
                self.mantissa as int,
                self.scale as nat,
                other.mantissa as int,
                other.scale as nat,
            );
            Dec { mantissa: r.0 as i128, scale: r.1 as u32 }
        }
    }

    /// The smaller of two numbers; the first where they are the same number.
    pub open spec fn spec_min(self, other: Dec) -> Dec {
        if other.units() < self.units() {
            other
        } else {
            self
        }
    }

    /// What a text reads as.
    pub open spec fn spec_parse(text: Seq<char>) -> Option<Dec> {
        match decimal_from_str(text) {
            Some(r) => Some(Dec { mantissa: r.0 as i128, scale: r.1 as u32 }),
            None => None,
        }
    }

    /// The text of a number that is not below zero.
    pub open spec fn spec_text(self) -> Seq<char> {
        decimal_text(self.mantissa as nat, self.scale as nat)
    }

    /// A number is above zero exactly when its mantissa is.
    pub proof fn lemma_positive(self)
        requires
            self.wf(),
        ensures
            self.positive() <==> self.mantissa > 0,
            self.units() == 0 <==> self.mantissa == 0,
    {
        let p = pow10((MAX_SCALE - self.scale) as nat);
        lemma_pow_positive(10, (MAX_SCALE - self.scale) as nat);
        let m = self.mantissa as int;
        assert(m > 0 ==> m * p > 0) by (nonlinear_arith)
            requires
                p > 0,
        ;
        assert(m < 0 ==> m * p < 0) by (nonlinear_arith)
            requires
                p > 0,
        ;
        assert(m == 0 ==> m * p == 0) by (nonlinear_arith);
    }

    /// The difference at the larger scale is the difference of the numbers.
    pub proof fn lemma_exact_diff(self, other: Dec)
        requires
            self.wf(),
            other.wf(),
        ensures
            self.exact_diff_mantissa(other) * pow10((MAX_SCALE - self.joint_scale(other)) as nat)
                == self.units() - other.units(),
    {
        let s = self.joint_scale(other);
        let top = (MAX_SCALE - s) as nat;
        let up_a = (s - self.scale) as nat;
        let up_b = (s - other.scale) as nat;
        lemma_pow_adds(10, up_a, top);
        lemma_pow_adds(10, up_b, top);
        let a = self.mantissa as int;
        let b = other.mantissa as int;
        let pa = pow10(up_a);
        let pb = pow10(up_b);
        let pt = pow10(top);
        assert((a * pa - b * pb) * pt == a * (pa * pt) - b * (pb * pt)) by (nonlinear_arith);
    }

    /// Where a subtraction is exact, the result is the difference of the
    /// two numbers.
    pub proof fn lemma_sub_exact(self, other: Dec)
        requires
            self.wf(),
            other.wf(),
            self.sub_is_exact(other),
        ensures
            self.spec_sub(other).wf(),
            self.spec_sub(other).units() == self.units() - other.units(),
    {
        self.lemma_exact_diff(other);
    }

    /// Two numbers that can both be written with `s` digits behind the
    /// point subtract exactly, and so can their difference be written.
    pub proof fn lemma_sub_at_scale(self, other: Dec, s: nat)
        requires
            self.wf(),
            other.wf(),
            self.fits_scale(s),
            other.fits_scale(s),
            0 < other.units() <= self.units(),
        ensures
            self.sub_is_exact(other),
            self.spec_sub(other).wf(),
            self.spec_sub(other).fits_scale(s),
            self.spec_sub(other).units() == self.units() - other.units(),
    {
        let j = self.joint_scale(other);
        let a = self.mantissa as int;
        let b = other.mantissa as int;
        let pa = pow10((j - self.scale) as nat);
        let pb = pow10((j - other.scale) as nat);
        let up = pow10((s - j) as nat);
        let top = pow10((MAX_SCALE - j) as nat);
        self.lemma_positive();
        other.lemma_positive();
        lemma_pow_positive(10, (j - self.scale) as nat);
        lemma_pow_positive(10, (j - other.scale) as nat);
        lemma_pow_positive(10, (s - j) as nat);
        lemma_pow_positive(10, (MAX_SCALE - j) as nat);
        lemma_pow_adds(10, (j - self.scale) as nat, (s - j) as nat);
        lemma_pow_adds(10, (j - other.scale) as nat, (s - j) as nat);
        lemma_pow_adds(10, (j - self.scale) as nat, (MAX_SCALE - j) as nat);
        lemma_pow_adds(10, (j - other.scale) as nat, (MAX_SCALE - j) as nat);
        let left = a * pa;
        let right = b * pb;
        assert(left * top == a * (pa * top)) by (nonlinear_arith)
            requires
                left == a * pa,
        ;
        assert(right * top == b * (pb * top)) by (nonlinear_arith)
            requires
                right == b * pb,
        ;
        assert(left * up == a * (pa * up)) by (nonlinear_arith)
            requires
                left == a * pa,
        ;
        assert(right * up == b * (pb * up)) by (nonlinear_arith)
            requires
                right == b * pb,
        ;
        assert(right <= left) by (nonlinear_arith)
            requires
                right * top <= left * top,
                top > 0,
        ;
        assert(left > 0 && right > 0) by (nonlinear_arith)
            requires
                a > 0,
                b > 0,
                pa > 0,
                pb > 0,
                left == a * pa,
                right == b * pb,
        ;
        assert(left <= left * up) by (nonlinear_arith)
            requires
                left > 0,
                up >= 1,
        ;
        assert((left - right) * up == left * up - right * up) by (nonlinear_arith);
        assert(0 <= (left - right) * up <= left * up) by (nonlinear_arith)
            requires
                0 < right <= left,
                up >= 1,
        ;
        assert(self.exact_diff_mantissa(other) == left - right);
        self.lemma_sub_exact(other);
    }

    /// A number above zero less itself is zero, exactly.
    pub proof fn lemma_sub_self(self)
        requires
            self.wf(),
            self.mantissa > 0,
        ensures
            self.sub_is_exact(self),
            self.spec_sub(self).mantissa == 0,
    {
    }

    /// Zero, with no digits behind the point.
    pub fn zero() -> (r: Dec)
        ensures
            r == (Dec { mantissa: 0, scale: 0 }),
            r.wf(),
            r.units() == 0,
    {
        let r = Dec { mantissa: 0, scale: 0 };
        proof {
            r.lemma_positive();
        }
        r
    }

    /// Reads a decimal number from a text.
    pub fn parse(text: &str) -> (r: Result<Dec, OrderError>)
        ensures
            match r {
                Ok(d) => d.wf() && Dec::spec_parse(text@) == Some(d),
                Err(e) => e == OrderError::InvalidDecimal && Dec::spec_parse(text@) is None,
            },
    {
        match decimal_parse(text) {
            Ok(d) => Ok(d),
            Err(_) => Err(OrderError::InvalidDecimal),
        }
    }

    /// Whether the number is above zero.
    pub fn is_positive(&self) -> (r: bool)
        requires
            self.wf(),
        ensures
            r == self.positive(),
            r == (self.mantissa > 0),
    {
        proof {
            self.lemma_positive();
        }
        let zero = Dec::zero();
        decimal_less(&zero, self)
    }
}

/// Calls `rust_decimal::Decimal::from_str` and hands on the mantissa and the
/// scale of what it returns.  Claims that the call depends on the text
/// alone, and that mantissa and scale are in the range that the crate
/// documents for every `Decimal`: below 2^96 in magnitude, and at most 28.
#[verifier::external_body]
pub(crate) fn decimal_parse(text: &str) -> (r: Result<Dec, rust_decimal::Error>)
    ensures
        match r {
            Ok(d) => d.wf() && decimal_from_str(text@) == Some(
                (d.mantissa as int, d.scale as nat),
            ),
            Err(_) => decimal_from_str(text@) is None,
        },
{
    match rust_decimal::Decimal::from_str(text) {
        Ok(d) => Ok(Dec { mantissa: d.mantissa(), scale: d.scale() }),
        Err(e) => Err(e),
    }
}

/// Calls `<` of `rust_decimal::Decimal`, which goes by the crate's
/// `cmp_impl`.  Claims that it orders two numbers by their value, whatever
/// their scales.
#[verifier::external_body]
pub(crate) fn decimal_less(a: &Dec, b: &Dec) -> (r: bool)
    requires
        a.wf(),
        b.wf(),
    ensures
        r == (a.units() < b.units()),
{
    let x = rust_decimal::Decimal::from_i128_with_scale(a.mantissa, a.scale);
    let y = rust_decimal::Decimal::from_i128_with_scale(b.mantissa, b.scale);
    x < y
}

/// Calls `rust_decimal::Decimal::min`.  Claims that it returns the second
/// number where that is the smaller one, and the first otherwise, each as it
/// was handed in.
#[verifier::external_body]
pub(crate) fn decimal_min(a: &Dec, b: &Dec) -> (r: Dec)
    requires
        a.wf(),
        b.wf(),
    ensures
        r == a.spec_min(*b),
{
    let x = rust_decimal::Decimal::from_i128_with_scale(a.mantissa, a.scale);
    let y = rust_decimal::Decimal::from_i128_with_scale(b.mantissa, b.scale);
    let m = x.min(y);
    Dec { mantissa: m.mantissa(), scale: m.scale() }
}

/// Calls `-` of `rust_decimal::Decimal`, which goes by the crate's
/// `sub_impl`, on two numbers above zero, the second not the larger.  Claims
/// that the call depends on the two numbers alone, that it does not overflow
/// on these, and that the result is the exact difference at the larger of
/// the two scales wherever that fits a mantissa.  Elsewhere the crate lowers
/// the scale and rounds, and nothing is claimed of the digits.
#[verifier::external_body]
pub(crate) fn decimal_minus(a: &Dec, b: &Dec) -> (r: Dec)
    requires
        a.wf(),
        b.wf(),
        0 < b.units() <= a.units(),
    ensures
        r.wf(),
        decimal_sub(a.mantissa as int, a.scale as nat, b.mantissa as int, b.scale as nat) == (
            r.mantissa as int,
            r.scale as nat,
        ),
        a.sub_is_exact(*b) ==> r == a.exact_sub(*b),
{
    let x = rust_decimal::Decimal::from_i128_with_scale(a.mantissa, a.scale);
    let y = rust_decimal::Decimal::from_i128_with_scale(b.mantissa, b.scale);
    let d = x - y;
    Dec { mantissa: d.mantissa(), scale: d.scale() }
}

/// Calls `to_string` of `rust_decimal::Decimal`, which goes by the crate's
/// `to_str_internal`, on a number that is not below zero.  Claims that the
/// text is the digits of the mantissa with the point `scale` places from the
/// right, and a zero before the point where no digit stands there.
#[verifier::external_body]
pub(crate) fn decimal_string(d: &Dec) -> (r: String)
    requires
        d.wf(),
        d.mantissa >= 0,
    ensures
        r@ == decimal_text(d.mantissa as nat, d.scale as nat),
{
    rust_decimal::Decimal::from_i128_with_scale(d.mantissa, d.scale).to_string()
}

} // verus!
