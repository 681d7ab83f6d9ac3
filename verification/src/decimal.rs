//! Exact decimal numbers held as a signed mantissa and a power-of-ten scale,
//! the plain form of `rust_decimal::Decimal` that the rest of the library
//! reasons about. Arithmetic and comparison are delegated to `rust_decimal`.

use vstd::prelude::*;

verus! {

/// Largest scale (number of fractional digits) a decimal can carry.
pub const MAX_SCALE: u32 = 28;

/// Largest mantissa magnitude: the mantissa lives in 96 bits.
pub const MAX_MANTISSA: i128 = 79228162514264337593543950335;

/// `10^n`.
pub open spec fn pow10(n: nat) -> int
    decreases n,
{
    if n == 0 {
        1
    } else {
        10 * pow10((n - 1) as nat)
    }
}

/// Whether an integer fits in the 96-bit mantissa of a decimal.
pub open spec fn fits96(x: int) -> bool {
    -MAX_MANTISSA <= x <= MAX_MANTISSA
}

/// A decimal number `mantissa * 10^(-scale)`.
#[derive(Debug, Clone, Copy)]
pub struct Decimal {
    pub mantissa: i128,
    pub scale: u32,
    /// Set only for `-0`, the zero that `rust_decimal` keeps apart from `0` by its
    /// sign bit (every other value carries its sign in the mantissa).
    pub negative_zero: bool,
}

impl Decimal {
    /// The range `rust_decimal` can represent (the sign of zero apart, a sign lives
    /// in the mantissa).
    pub open spec fn wf(self) -> bool {
        self.scale <= MAX_SCALE && fits96(self.mantissa as int) && (self.negative_zero ==> self.mantissa == 0)
    }

    /// Whether the sign bit is set: below zero, or `-0`.
    pub open spec fn is_negative(self) -> bool {
        self.mantissa < 0 || self.negative_zero
    }

    /// The value counted in units of `10^(-28)`, the finest step of any decimal.
    pub open spec fn units(self) -> int {
        self.mantissa * pow10((MAX_SCALE - self.scale) as nat)
    }

    /// The mantissa this value has when written with `s` fractional digits (`s >= scale`).
    pub open spec fn mantissa_at(self, s: nat) -> int {
        self.mantissa * pow10((s - self.scale) as nat)
    }

    /// Zero, with no fractional digits.
    pub fn zero() -> (r: Decimal)
        ensures
            r.wf(),
            r.mantissa == 0,
            r.scale == 0,
            !r.negative_zero,
    {
        Decimal { mantissa: 0, scale: 0, negative_zero: false }
    }

    /// `num * 10^(-scale)`; the scale must not exceed [`MAX_SCALE`].
    pub fn new(num: i64, scale: u32) -> (r: Decimal)
        requires
            scale <= MAX_SCALE,
        ensures
            r.wf(),
            r.mantissa == num,
            r.scale == scale,
            !r.negative_zero,
    {
        Decimal { mantissa: num as i128, scale, negative_zero: false }
    }

    /// `num * 10^(-scale)` for a mantissa of up to 96 bits and a scale of at most
    /// [`MAX_SCALE`].
    pub fn from_i128_with_scale(num: i128, scale: u32) -> (r: Decimal)
        requires
            scale <= MAX_SCALE,
            fits96(num as int),
        ensures
            r.wf(),
            r.mantissa == num,
            r.scale == scale,
            !r.negative_zero,
    {
        Decimal { mantissa: num, scale, negative_zero: false }
    }

    /// The signed mantissa.
    pub fn mantissa(&self) -> (r: i128)
        ensures
            r == self.mantissa,
    {
        self.mantissa
    }

    /// The number of fractional digits.
    pub fn scale(&self) -> (r: u32)
        ensures
            r == self.scale,
    {
        self.scale
    }

    /// Whether the sign bit is set: the value is below zero, or is `-0`.
    pub fn is_sign_negative(&self) -> (r: bool)
        ensures
            r == self.is_negative(),
    {
        self.mantissa < 0 || self.negative_zero
    }

    /// Sets the sign bit: the value keeps its magnitude, and a zero becomes `-0`
    /// or `0`.
    pub fn set_sign_negative(&mut self, negative: bool)
        requires
            old(self).wf(),
        ensures
            final(self).wf(),
            final(self).scale == old(self).scale,
            final(self).mantissa == (if negative == (old(self).mantissa < 0) || old(self).mantissa == 0 {
                old(self).mantissa as int
            } else {
                -old(self).mantissa
            }),
            final(self).negative_zero == (negative && old(self).mantissa == 0),
    {
        if self.mantissa != 0 && negative != (self.mantissa < 0) {
            self.mantissa = -self.mantissa;
        }
        self.negative_zero = negative && self.mantissa == 0;
    }

    /// Whether the value is zero.
    pub fn is_zero(&self) -> (r: bool)
        ensures
            r == (self.mantissa == 0),
    {
        self.mantissa == 0
    }

    /// Whether the value is in the range `rust_decimal` can represent.
    pub fn is_wf(&self) -> (r: bool)
        ensures
            r == self.wf(),
    {
        self.scale <= MAX_SCALE && -MAX_MANTISSA <= self.mantissa && self.mantissa <= MAX_MANTISSA && (
        !self.negative_zero || self.mantissa == 0)
    }

    /// What `==` means: equal values for representable decimals (`1.0 == 1`),
    /// equal fields otherwise.
    pub open spec fn same_value(&self, other: &Decimal) -> bool {
        if self.wf() && other.wf() {
            self.units() == other.units()
        } else {
            self.mantissa == other.mantissa && self.scale == other.scale && self.negative_zero
                == other.negative_zero
        }
    }
}

impl PartialEq for Decimal {
    fn eq(&self, other: &Decimal) -> (r: bool) {
        if self.is_wf() && other.is_wf() {
            value_eq(self, other)
        } else {
            self.mantissa == other.mantissa && self.scale == other.scale && self.negative_zero
                == other.negative_zero
        }
    }
}

impl vstd::std_specs::cmp::PartialEqSpecImpl for Decimal {
    open spec fn obeys_eq_spec() -> bool {
        true
    }

    open spec fn eq_spec(&self, other: &Decimal) -> bool {
        self.same_value(other)
    }
}

impl Eq for Decimal {
}

} // verus!

verus! {

/// The larger of two scales: the scale two decimals are aligned to.
pub open spec fn aligned_scale(a: Decimal, b: Decimal) -> nat {
    if a.scale >= b.scale {
        a.scale as nat
    } else {
        b.scale as nat
    }
}

/// Whether `a` and `b`, both written at their common scale, fit in 96 bits together with `c`
/// (the exact result written at that scale).
pub open spec fn aligned_fit(a: Decimal, b: Decimal, c: int) -> bool {
    let s = aligned_scale(a, b);
    fits96(a.mantissa_at(s)) && fits96(b.mantissa_at(s)) && fits96(c)
}

/// The decimal `rust_decimal` produces for `a + b` when no rounding is needed:
/// a zero operand yields the other operand unchanged, otherwise the exact sum
/// at the larger scale.
pub open spec fn sum_spec(a: Decimal, b: Decimal) -> Decimal {
    let s = aligned_scale(a, b);
    if a.mantissa == 0 {
        b
    } else if b.mantissa == 0 {
        a
    } else {
        Decimal { mantissa: (a.mantissa_at(s) + b.mantissa_at(s)) as i128, scale: s as u32, negative_zero: false }
    }
}

/// The decimal `rust_decimal` produces for `a - b` when no rounding is needed:
/// `0 - b` is `b` negated, `a - 0` is `a`, otherwise the exact difference at the
/// larger scale.
pub open spec fn difference_spec(a: Decimal, b: Decimal) -> Decimal {
    let s = aligned_scale(a, b);
    if a.mantissa == 0 {
        Decimal { mantissa: (-b.mantissa) as i128, scale: b.scale, negative_zero: b.negative_zero }
    } else if b.mantissa == 0 {
        a
    } else {
        Decimal { mantissa: (a.mantissa_at(s) - b.mantissa_at(s)) as i128, scale: s as u32, negative_zero: false }
    }
}

/// Whether `a + b` is computed by `rust_decimal` without rounding.
pub open spec fn sum_is_exact(a: Decimal, b: Decimal) -> bool {
    let s = aligned_scale(a, b);
    a.mantissa == 0 || b.mantissa == 0 || aligned_fit(a, b, a.mantissa_at(s) + b.mantissa_at(s))
}

/// Whether `a - b` is computed by `rust_decimal` without rounding.
pub open spec fn difference_is_exact(a: Decimal, b: Decimal) -> bool {
    let s = aligned_scale(a, b);
    a.mantissa == 0 || b.mantissa == 0 || aligned_fit(a, b, a.mantissa_at(s) - b.mantissa_at(s))
}

/// `rust_decimal`'s `PartialOrd::lt`: true when the first value is numerically
/// smaller than the second, whatever their scales.
#[verifier::external_body]
pub(crate) fn value_lt(a: &Decimal, b: &Decimal) -> (r: bool)
    requires
        a.wf(),
        b.wf(),
    ensures
        r == (a.units() < b.units()),
{
    rust_decimal::Decimal::from_i128_with_scale(a.mantissa, a.scale)
        < rust_decimal::Decimal::from_i128_with_scale(b.mantissa, b.scale)
}

/// `rust_decimal`'s `PartialOrd::le`: true when the first value is numerically
/// at most the second, whatever their scales.
#[verifier::external_body]
pub(crate) fn value_le(a: &Decimal, b: &Decimal) -> (r: bool)
    requires
        a.wf(),
        b.wf(),
    ensures
        r == (a.units() <= b.units()),
{
    rust_decimal::Decimal::from_i128_with_scale(a.mantissa, a.scale)
        <= rust_decimal::Decimal::from_i128_with_scale(b.mantissa, b.scale)
}

/// `rust_decimal`'s `PartialEq::eq`: true when the two values are numerically
/// equal (`1.0 == 1`).
#[verifier::external_body]
pub(crate) fn value_eq(a: &Decimal, b: &Decimal) -> (r: bool)
    requires
        a.wf(),
        b.wf(),
    ensures
        r == (a.units() == b.units()),
{
    rust_decimal::Decimal::from_i128_with_scale(a.mantissa, a.scale)
        == rust_decimal::Decimal::from_i128_with_scale(b.mantissa, b.scale)
}

/// `rust_decimal`'s `Add::add` (`a + b`). Within the range where no rounding is
/// needed the sum is exact: a zero operand gives back the other one, otherwise the
/// result carries the larger scale. The operator panics only on overflow, which
/// cannot happen in that range. Results outside that range (rounded to fewer
/// fractional digits) are not described, and the inputs are left out.
#[verifier::external_body]
pub(crate) fn exact_add(a: &Decimal, b: &Decimal) -> (r: Decimal)
    requires
        a.wf(),
        b.wf(),
        sum_is_exact(*a, *b),
    ensures
        r == sum_spec(*a, *b),
{
    let mut l = rust_decimal::Decimal::from_i128_with_scale(a.mantissa, a.scale);
    l.set_sign_negative(a.mantissa < 0 || a.negative_zero);
    let mut r = rust_decimal::Decimal::from_i128_with_scale(b.mantissa, b.scale);
    r.set_sign_negative(b.mantissa < 0 || b.negative_zero);
    let x = l + r;
    Decimal { mantissa: x.mantissa(), scale: x.scale(), negative_zero: x.is_zero() && x.is_sign_negative() }
}

/// `rust_decimal`'s `Sub::sub` (`a - b`). Within the range where no rounding is
/// needed the difference is exact: `a - 0` gives back `a`, `0 - b` gives `b`
/// negated, otherwise the result carries the larger scale. Results that need
/// rounding are not described, and those inputs are left out.
#[verifier::external_body]
pub(crate) fn exact_sub(a: &Decimal, b: &Decimal) -> (r: Decimal)
    requires
        a.wf(),
        b.wf(),
        difference_is_exact(*a, *b),
    ensures
        r == difference_spec(*a, *b),
{
    let mut l = rust_decimal::Decimal::from_i128_with_scale(a.mantissa, a.scale);
    l.set_sign_negative(a.mantissa < 0 || a.negative_zero);
    let mut r = rust_decimal::Decimal::from_i128_with_scale(b.mantissa, b.scale);
    r.set_sign_negative(b.mantissa < 0 || b.negative_zero);
    let x = l - r;
    Decimal { mantissa: x.mantissa(), scale: x.scale(), negative_zero: x.is_zero() && x.is_sign_negative() }
}

} // verus!

verus! {

/// `10^(a + b) == 10^a * 10^b`.
pub proof fn lemma_pow10_add(a: nat, b: nat)
    ensures
        pow10(a + b) == pow10(a) * pow10(b),
    decreases a,
{
    if a > 0 {
        lemma_pow10_add((a - 1) as nat, b);
        assert(pow10(a + b) == 10 * pow10((a - 1 + b) as nat));
        vstd::arithmetic::mul::lemma_mul_is_associative(10, pow10((a - 1) as nat), pow10(b));
    }
}

/// Powers of ten are positive.
pub proof fn lemma_pow10_pos(a: nat)
    ensures
        pow10(a) >= 1,
    decreases a,
{
    if a > 0 {
        lemma_pow10_pos((a - 1) as nat);
    }
}

/// Writing a decimal at a finer scale does not change its value.
pub proof fn lemma_mantissa_at_units(d: Decimal, s: nat)
    requires
        d.scale <= s <= MAX_SCALE,
    ensures
        d.mantissa_at(s) * pow10((MAX_SCALE - s) as nat) == d.units(),
{
    let x = (s - d.scale) as nat;
    let y = (MAX_SCALE - s) as nat;
    lemma_pow10_add(x, y);
    assert((x + y) as nat == (MAX_SCALE - d.scale) as nat);
    vstd::arithmetic::mul::lemma_mul_is_associative(d.mantissa as int, pow10(x), pow10(y));
}

/// An exact sum adds the values.
pub proof fn lemma_sum_units(a: Decimal, b: Decimal)
    requires
        a.wf(),
        b.wf(),
        sum_is_exact(a, b),
    ensures
        sum_spec(a, b).units() == a.units() + b.units(),
        sum_spec(a, b).wf(),
{
    let s = aligned_scale(a, b);
    if a.mantissa == 0 {
        assert(a.units() == 0);
    } else if b.mantissa == 0 {
        assert(b.units() == 0);
    } else {
        lemma_mantissa_at_units(a, s);
        lemma_mantissa_at_units(b, s);
        vstd::arithmetic::mul::lemma_mul_is_distributive_add_other_way(
            pow10((MAX_SCALE - s) as nat),
            a.mantissa_at(s),
            b.mantissa_at(s),
        );
    }
}

/// An exact difference subtracts the values.
pub proof fn lemma_difference_units(a: Decimal, b: Decimal)
    requires
        a.wf(),
        b.wf(),
        difference_is_exact(a, b),
    ensures
        difference_spec(a, b).units() == a.units() - b.units(),
        difference_spec(a, b).wf(),
{
    let s = aligned_scale(a, b);
    if a.mantissa == 0 {
        assert(a.units() == 0);
        vstd::arithmetic::mul::lemma_mul_unary_negation(
            b.mantissa as int,
            pow10((MAX_SCALE - b.scale) as nat),
        );
    } else if b.mantissa == 0 {
        assert(b.units() == 0);
    } else {
        lemma_mantissa_at_units(a, s);
        lemma_mantissa_at_units(b, s);
        vstd::arithmetic::mul::lemma_mul_is_distributive_sub_other_way(
            pow10((MAX_SCALE - s) as nat),
            a.mantissa_at(s),
            b.mantissa_at(s),
        );
    }
}

/// A zero-valued decimal has mantissa zero, and the other way round.
pub proof fn lemma_zero_units(d: Decimal)
    ensures
        (d.units() == 0) == (d.mantissa == 0),
        (d.units() > 0) == (d.mantissa > 0),
        (d.units() < 0) == (d.mantissa < 0),
{
    lemma_pow10_pos((MAX_SCALE - d.scale) as nat);
    let p = pow10((MAX_SCALE - d.scale) as nat);
    assert(d.units() == d.mantissa * p);
    if d.mantissa == 0 {
        vstd::arithmetic::mul::lemma_mul_basics(p);
    } else if d.mantissa > 0 {
        vstd::arithmetic::mul::lemma_mul_strictly_positive(d.mantissa as int, p);
    } else if d.mantissa < 0 {
        vstd::arithmetic::mul::lemma_mul_strictly_positive(-d.mantissa, p);
        vstd::arithmetic::mul::lemma_mul_unary_negation(d.mantissa as int, p);
    }
}

} // verus!

verus! {

/// Subtracting a smaller non-negative value written with no more fractional
/// digits is exact and keeps the scale of the larger one.
pub proof fn lemma_difference_within(a: Decimal, b: Decimal)
    requires
        a.wf(),
        b.wf(),
        b.scale <= a.scale,
        0 <= b.units() <= a.units(),
    ensures
        difference_is_exact(a, b),
        difference_spec(a, b).units() == a.units() - b.units(),
        difference_spec(a, b).wf(),
        b.mantissa != 0 ==> difference_spec(a, b).scale == a.scale,
        b.mantissa == 0 && a.mantissa != 0 ==> difference_spec(a, b) == a,
{
    lemma_zero_units(a);
    lemma_zero_units(b);
    let s = a.scale as nat;
    assert(aligned_scale(a, b) == s);
    assert(pow10(0) == 1);
    assert(a.mantissa_at(s) == a.mantissa);
    lemma_mantissa_at_units(a, s);
    lemma_mantissa_at_units(b, s);
    let p = pow10((MAX_SCALE - s) as nat);
    lemma_pow10_pos((MAX_SCALE - s) as nat);
    let bm = b.mantissa_at(s);
    if bm > a.mantissa {
        vstd::arithmetic::mul::lemma_mul_strict_inequality(a.mantissa as int, bm, p);
        vstd::arithmetic::mul::lemma_mul_is_commutative(a.mantissa as int, p);
        vstd::arithmetic::mul::lemma_mul_is_commutative(bm, p);
    }
    if bm < 0 {
        vstd::arithmetic::mul::lemma_mul_strict_inequality(bm, 0, p);
        vstd::arithmetic::mul::lemma_mul_basics(p);
        vstd::arithmetic::mul::lemma_mul_is_commutative(bm, p);
        vstd::arithmetic::mul::lemma_mul_is_commutative(0, p);
    }
    assert(0 <= bm <= a.mantissa);
    lemma_difference_units(a, b);
}

} // verus!

verus! {

/// What `rust_decimal`'s `checked_add` gives for two decimals.
pub uninterp spec fn decimal_checked_add(a: Decimal, b: Decimal) -> Option<Decimal>;

/// What `rust_decimal`'s `checked_div` gives for two decimals.
pub uninterp spec fn decimal_checked_div(a: Decimal, b: Decimal) -> Option<Decimal>;

/// What `rust_decimal`'s `rescale` leaves in a decimal asked to carry `scale`
/// fractional digits.
pub uninterp spec fn decimal_rescaled(d: Decimal, scale: u32) -> Decimal;

/// The text `rust_decimal` writes for a decimal (its `Display`).
pub uninterp spec fn decimal_text(d: Decimal) -> Seq<char>;

/// `rust_decimal::Decimal::checked_add`: `None` when the sum overflows, otherwise
/// the sum computed by the same routine as `+`, which within the range where no
/// rounding is needed is the exact sum that `sum_spec` describes.
#[verifier::external_body]
pub(crate) fn checked_add(a: &Decimal, b: &Decimal) -> (r: Option<Decimal>)
    requires
        a.wf(),
        b.wf(),
    ensures
        r == decimal_checked_add(*a, *b),
        sum_is_exact(*a, *b) ==> r == Some(sum_spec(*a, *b)),
        r matches Some(x) ==> x.wf(),
{
    let mut l = rust_decimal::Decimal::from_i128_with_scale(a.mantissa, a.scale);
    l.set_sign_negative(a.mantissa < 0 || a.negative_zero);
    let mut r = rust_decimal::Decimal::from_i128_with_scale(b.mantissa, b.scale);
    r.set_sign_negative(b.mantissa < 0 || b.negative_zero);
    let x = l.checked_add(r);
    match x {
        Some(v) => Some(Decimal { mantissa: v.mantissa(), scale: v.scale(), negative_zero: v.is_zero() && v.is_sign_negative() }),
        None => None,
    }
}

/// `rust_decimal::Decimal::checked_div`: `None` when the divisor is zero or the
/// quotient overflows, otherwise the (possibly rounded) quotient.
#[verifier::external_body]
pub(crate) fn checked_div(a: &Decimal, b: &Decimal) -> (r: Option<Decimal>)
    requires
        a.wf(),
        b.wf(),
    ensures
        r == decimal_checked_div(*a, *b),
        b.mantissa == 0 ==> r is None,
        r matches Some(x) ==> x.wf(),
{
    let mut l = rust_decimal::Decimal::from_i128_with_scale(a.mantissa, a.scale);
    l.set_sign_negative(a.mantissa < 0 || a.negative_zero);
    let mut r = rust_decimal::Decimal::from_i128_with_scale(b.mantissa, b.scale);
    r.set_sign_negative(b.mantissa < 0 || b.negative_zero);
    let x = l.checked_div(r);
    match x {
        Some(v) => Some(Decimal { mantissa: v.mantissa(), scale: v.scale(), negative_zero: v.is_zero() && v.is_sign_negative() }),
        None => None,
    }
}

/// `rust_decimal::Decimal::rescale` to a scale of at most 28: never fails, keeps
/// the sign and leaves a representable decimal. Growing the
/// scale keeps the value when it can be written exactly with that many digits in
/// 96 bits (the mantissa is padded with zeros); other outcomes (rounding to fewer
/// digits, or the largest reachable scale) are only named.
#[verifier::external_body]
pub(crate) fn rescaled(d: &Decimal, scale: u32) -> (r: Decimal)
    requires
        d.wf(),
        scale <= MAX_SCALE,
    ensures
        r == decimal_rescaled(*d, scale),
        r.wf(),
        !d.is_negative() ==> !r.is_negative(),
        d.scale <= scale <= MAX_SCALE && fits96(d.mantissa_at(scale as nat)) ==> r == (Decimal {
            mantissa: d.mantissa_at(scale as nat) as i128,
            scale,
            negative_zero: d.negative_zero,
        }),
{
    let mut x = rust_decimal::Decimal::from_i128_with_scale(d.mantissa, d.scale);
    x.set_sign_negative(d.mantissa < 0 || d.negative_zero);
    x.rescale(scale);
    Decimal { mantissa: x.mantissa(), scale: x.scale(), negative_zero: x.is_zero() && x.is_sign_negative() }
}

/// `rust_decimal`'s `Display`, through `to_string`.
#[verifier::external_body]
fn decimal_to_string(d: &Decimal) -> (r: String)
    requires
        d.wf(),
    ensures
        r@ == decimal_text(*d),
{
    let mut x = rust_decimal::Decimal::from_i128_with_scale(d.mantissa, d.scale);
    x.set_sign_negative(d.mantissa < 0 || d.negative_zero);
    x.to_string()
}

impl Decimal {
    /// The decimal written out as `rust_decimal` writes it (`"12.50"` keeps its
    /// scale).
    pub fn to_string(&self) -> (r: String)
        requires
            self.wf(),
        ensures
            r@ == decimal_text(*self),
    {
        decimal_to_string(self)
    }
}

} // verus!

verus! {

/// The exact product `rust_decimal` computes when no rounding is needed: zero
/// when a factor is zero, otherwise the product of the mantissas at the sum of
/// the scales.
pub open spec fn product_spec(a: Decimal, b: Decimal) -> Decimal {
    if a.mantissa == 0 || b.mantissa == 0 {
        Decimal { mantissa: 0, scale: 0, negative_zero: false }
    } else {
        Decimal { mantissa: (a.mantissa * b.mantissa) as i128, scale: (a.scale + b.scale) as u32, negative_zero: false }
    }
}

/// Whether `a * b` needs no rounding.
pub open spec fn product_is_exact(a: Decimal, b: Decimal) -> bool {
    a.mantissa == 0 || b.mantissa == 0 || (fits96(a.mantissa * b.mantissa) && a.scale + b.scale <= MAX_SCALE)
}

/// What `rust_decimal`'s `checked_mul` gives for two decimals.
pub uninterp spec fn decimal_checked_mul(a: Decimal, b: Decimal) -> Option<Decimal>;

/// What `rust_decimal`'s `round_dp` gives for a decimal and a number of digits.
pub uninterp spec fn decimal_round_dp(d: Decimal, dp: u32) -> Decimal;

/// `rust_decimal::Decimal::checked_mul`: `None` on overflow, otherwise the product
/// computed by the same routine as `*`; a zero factor gives zero, and within the
/// range where no rounding is needed the product is exact (see `product_spec`).
#[verifier::external_body]
pub(crate) fn checked_mul(a: &Decimal, b: &Decimal) -> (r: Option<Decimal>)
    requires
        a.wf(),
        b.wf(),
    ensures
        r == decimal_checked_mul(*a, *b),
        product_is_exact(*a, *b) ==> r == Some(product_spec(*a, *b)),
        r matches Some(x) ==> x.wf(),
{
    let mut l = rust_decimal::Decimal::from_i128_with_scale(a.mantissa, a.scale);
    l.set_sign_negative(a.mantissa < 0 || a.negative_zero);
    let mut r = rust_decimal::Decimal::from_i128_with_scale(b.mantissa, b.scale);
    r.set_sign_negative(b.mantissa < 0 || b.negative_zero);
    let x = l.checked_mul(r);
    match x {
        Some(v) => Some(Decimal { mantissa: v.mantissa(), scale: v.scale(), negative_zero: v.is_zero() && v.is_sign_negative() }),
        None => None,
    }
}

/// `rust_decimal::Decimal::round_dp` (banker's rounding): a value with at most
/// `dp` fractional digits is returned unchanged; otherwise the result carries
/// exactly `dp` of them.
#[verifier::external_body]
pub(crate) fn round_dp(d: &Decimal, dp: u32) -> (r: Decimal)
    requires
        d.wf(),
        dp <= MAX_SCALE,
    ensures
        r == decimal_round_dp(*d, dp),
        r.wf(),
        d.scale <= dp ==> r == *d,
        d.scale > dp ==> r.scale == dp,
{
    let mut v = rust_decimal::Decimal::from_i128_with_scale(d.mantissa, d.scale);
    v.set_sign_negative(d.mantissa < 0 || d.negative_zero);
    let x = v.round_dp(dp);
    Decimal { mantissa: x.mantissa(), scale: x.scale(), negative_zero: x.is_zero() && x.is_sign_negative() }
}

/// `10^n` for `n <= 28`.
pub fn pow10_exec(n: u32) -> (r: u128)
    requires
        n <= MAX_SCALE,
    ensures
        r == pow10(n as nat),
{
    let mut r: u128 = 1;
    let mut i: u32 = 0;
    while i < n
        invariant
            i <= n <= MAX_SCALE,
            r == pow10(i as nat),
        decreases n - i,
    {
        proof {
            lemma_pow10_le_28(i as nat);
        }
        r = r * 10;
        i = i + 1;
    }
    r
}

/// `10^28`, the factor between the finest and the coarsest scale.
#[verifier::spinoff_prover]
proof fn lemma_pow10_28()
    ensures
        pow10(28) == 10000000000000000000000000000,
{
    reveal_with_fuel(pow10, 29);
}

/// Powers of ten up to `10^28` are at most `10^28`.
#[verifier::spinoff_prover]
proof fn lemma_pow10_le_28(n: nat)
    requires
        n < 28,
    ensures
        pow10(n) * 10 <= 10000000000000000000000000000,
{
    let k = (27 - n) as nat;
    lemma_pow10_add(n + 1, k);
    assert((n + 1 + k) as nat == 28);
    lemma_pow10_pos(k);
    lemma_pow10_pos(n + 1);
    assert(pow10(n + 1) == 10 * pow10(n));
    lemma_pow10_28();
    let a = pow10(n + 1);
    let b = pow10(k);
    assert(a * b >= a) by (nonlinear_arith)
        requires
            a >= 1,
            b >= 1,
    ;
}

/// What `to_u64` gives (the `ToPrimitive` conversion of `rust_decimal`): nothing
/// for a negative value, otherwise the integer part when it fits in 64 bits.
pub open spec fn to_u64_spec(d: Decimal) -> Option<u64> {
    if d.mantissa < 0 {
        None
    } else if (d.mantissa as int) / pow10(d.scale as nat) <= u64::MAX {
        Some(((d.mantissa as int) / pow10(d.scale as nat)) as u64)
    } else {
        None
    }
}

impl Decimal {
    /// The integer part as `u64`: `None` for a negative value or an integer part
    /// that does not fit.
    pub fn to_u64(&self) -> (r: Option<u64>)
        requires
            self.wf(),
        ensures
            r == to_u64_spec(*self),
    {
        if self.mantissa < 0 {
            return None;
        }
        let p = pow10_exec(self.scale);
        proof {
            lemma_pow10_pos(self.scale as nat);
        }
        let q = (self.mantissa as u128) / p;
        if q <= u64::MAX as u128 {
            Some(q as u64)
        } else {
            None
        }
    }
}

} // verus!

verus! {

impl Decimal {
    /// `self + other`, or `None` when the sum overflows (`rust_decimal`'s
    /// `checked_add`); exact where no rounding is needed.
    pub fn checked_add(&self, other: &Decimal) -> (r: Option<Decimal>)
        requires
            self.wf(),
            other.wf(),
        ensures
            r == decimal_checked_add(*self, *other),
            sum_is_exact(*self, *other) ==> r == Some(sum_spec(*self, *other)),
    {
        checked_add(self, other)
    }
}

} // verus!

verus! {

/// `m * 10^k` when it fits in 96 bits.
fn scaled_mantissa(m: i128, k: u32) -> (r: Option<i128>)
    requires
        k <= MAX_SCALE,
        fits96(m as int),
    ensures
        r matches Some(v) ==> v == m * pow10(k as nat) && fits96(v as int),
        r is None ==> !fits96(m * pow10(k as nat)),
{
    let p = pow10_exec(k);
    proof {
        lemma_pow10_pos(k as nat);
        if k < 28 {
            lemma_pow10_le_28(k as nat);
        } else {
            lemma_pow10_28();
        }
    }
    match m.checked_mul(p as i128) {
        Some(v) => {
            if -MAX_MANTISSA <= v && v <= MAX_MANTISSA {
                Some(v)
            } else {
                None
            }
        },
        None => None,
    }
}

impl Decimal {
    /// Whether `self + other` needs no rounding (see `sum_is_exact`).
    pub fn sum_is_exact(&self, other: &Decimal) -> (r: bool)
        requires
            self.wf(),
            other.wf(),
        ensures
            r == sum_is_exact(*self, *other),
    {
        if self.mantissa == 0 || other.mantissa == 0 {
            return true;
        }
        let s = if self.scale >= other.scale {
            self.scale
        } else {
            other.scale
        };
        let a = scaled_mantissa(self.mantissa, s - self.scale);
        let b = scaled_mantissa(other.mantissa, s - other.scale);
        match (a, b) {
            (Some(x), Some(y)) => {
                let z = x + y;
                -MAX_MANTISSA <= z && z <= MAX_MANTISSA
            },
            _ => false,
        }
    }

    /// Whether `self * other` needs no rounding (see `product_is_exact`).
    pub fn product_is_exact(&self, other: &Decimal) -> (r: bool)
        requires
            self.wf(),
            other.wf(),
        ensures
            r == product_is_exact(*self, *other),
    {
        if self.mantissa == 0 || other.mantissa == 0 {
            return true;
        }
        if self.scale + other.scale > MAX_SCALE {
            return false;
        }
        match self.mantissa.checked_mul(other.mantissa) {
            Some(v) => -MAX_MANTISSA <= v && v <= MAX_MANTISSA,
            None => false,
        }
    }
}

} // verus!

verus! {

/// What `rust_decimal`'s `FromStr` gives for a text (`None` when it refuses it).
pub uninterp spec fn decimal_parsed(text: Seq<char>) -> Option<Decimal>;

/// `<rust_decimal::Decimal as FromStr>::from_str`, with the error dropped.
#[verifier::external_body]
pub(crate) fn parse_decimal(text: &str) -> (r: Option<Decimal>)
    ensures
        r == decimal_parsed(text@),
        r matches Some(d) ==> d.wf(),
{
    match <rust_decimal::Decimal as core::str::FromStr>::from_str(text) {
        Ok(v) => Some(Decimal { mantissa: v.mantissa(), scale: v.scale(), negative_zero: v.is_zero() && v.is_sign_negative() }),
        Err(_) => None,
    }
}

} // verus!
