//! Exact decimal numbers.
//!
//! A [`Decimal`] is a 96-bit integer mantissa and a power of ten between 0 and
//! 28 that divides it. Scale is kept, so `45000.10` and `45000.1` are two
//! different values that compare equal and render differently.
//!
//! The number a decimal stands for is modelled by [`units`]: how many times
//! 10^-28 it is. That is an integer, so order and equality of decimals are
//! order and equality of integers.

use std::cmp::Ordering;

use vstd::prelude::*;

verus! {

/// The largest power of ten a decimal can be divided by.
pub const MAX_SCALE: u32 = 28;

/// Mantissas lie strictly between this and its negation: 2^96.
pub const MANTISSA_LIMIT: i128 = 79_228_162_514_264_337_593_543_950_336;

/// Most characters a rendered decimal may have, its sign left out.
pub const RENDER_LIMIT: usize = 32;

/// Most fractional digits a fixed rendering may ask for.
pub const PRECISION_LIMIT: u32 = 65_535;

/// An exact decimal number. Equality and order are those of the numbers, so
/// `1.0` equals `1`.
#[derive(Clone, Copy, Debug)]
pub struct Decimal {
    mantissa: i128,
    scale: u32,
}

/// A decimal as its mantissa and its scale.
pub type Parts = (int, nat);

impl View for Decimal {
    type V = Parts;

    closed spec fn view(&self) -> Parts {
        (self.mantissa as int, self.scale as nat)
    }
}

/// Ten to the `n`.
pub open spec fn pow10(n: nat) -> nat
    decreases n,
{
    if n == 0 {
        1
    } else {
        10 * pow10((n - 1) as nat)
    }
}

/// The mantissas and scales that a decimal can have.
pub open spec fn representable(d: Parts) -> bool {
    &&& -MANTISSA_LIMIT < d.0 < MANTISSA_LIMIT
    &&& d.1 <= MAX_SCALE
}

/// The number that a decimal stands for, in units of 10^-28.
pub open spec fn units(d: Parts) -> int {
    d.0 * pow10((MAX_SCALE - d.1) as nat)
}

/// The views of an optional decimal.
pub open spec fn parts_of(d: Option<Decimal>) -> Option<Parts> {
    match d {
        Some(d) => Some(d@),
        None => None,
    }
}

/// Whether there is a decimal, and it stands for the given number.
pub open spec fn stands_for(d: Option<Decimal>, number: int) -> bool {
    match d {
        Some(d) => d.units() == number,
        None => false,
    }
}

/// The sum of two decimals, or `None` where it is too large to hold.
pub uninterp spec fn decimal_sum(a: (int, nat), b: (int, nat)) -> Option<(int, nat)>;

/// The difference of two decimals, or `None` where it is too large to hold.
pub uninterp spec fn decimal_difference(a: (int, nat), b: (int, nat)) -> Option<(int, nat)>;

/// The product of two decimals, or `None` where it is too large to hold.
pub uninterp spec fn decimal_product(a: (int, nat), b: (int, nat)) -> Option<(int, nat)>;

/// The quotient of two decimals, or `None` where the divisor is zero or the
/// quotient too large to hold.
pub uninterp spec fn decimal_quotient(a: (int, nat), b: (int, nat)) -> Option<(int, nat)>;

/// The decimal that a text in plain notation stands for, if it stands for one.
pub uninterp spec fn plain_parsed(text: Seq<char>) -> Option<(int, nat)>;

/// The decimal that a text in scientific notation stands for, if it stands
/// for one.
pub uninterp spec fn scientific_parsed(text: Seq<char>) -> Option<(int, nat)>;

/// The decimal that a text stands for, in plain notation or else scientific.
pub open spec fn parsed(text: Seq<char>) -> Option<Parts> {
    match plain_parsed(text) {
        Some(d) => Some(d),
        None => scientific_parsed(text),
    }
}

/// Whether a text that a decimal is rendered to stands for that decimal, scale
/// included.
pub open spec fn readable(text: Seq<char>) -> bool {
    forall|d: Parts|
        representable(d) && text == #[trigger] plain_text(d) ==> parsed(text) == Some(d)
}

/// `m / d` rounded to the nearest integer, a tie going to the even one.
pub open spec fn half_even(m: nat, d: nat) -> nat {
    let q = m / d;
    let r = m % d;
    if 2 * r > d || (2 * r == d && q % 2 == 1) {
        q + 1
    } else {
        q
    }
}

/// The size of an integer, its sign left out.
pub open spec fn magnitude(m: int) -> nat {
    if m < 0 {
        (-m) as nat
    } else {
        m as nat
    }
}

/// A decimal rounded to at most `dp` fractional digits, ties to even.
pub open spec fn rounded(d: Parts, dp: nat) -> Parts {
    if d.1 <= dp {
        d
    } else {
        let m = half_even(magnitude(d.0), pow10((d.1 - dp) as nat));
        (if d.0 < 0 { -(m as int) } else { m as int }, dp)
    }
}

/// The digit character for `n`, a number below ten.
pub open spec fn digit(n: nat) -> char {
    (('0' as nat) + n) as char
}

/// `n` in decimal digits, most significant first; zero has none.
pub open spec fn digits(n: nat) -> Seq<char>
    decreases n,
{
    if n == 0 {
        Seq::empty()
    } else {
        digits(n / 10).push(digit(n % 10))
    }
}

/// `n` zeros.
pub open spec fn zeros(n: nat) -> Seq<char> {
    Seq::new(n, |i: int| '0')
}

/// The digits of a decimal's mantissa, with as many leading zeros as its
/// fractional part needs.
pub open spec fn padded_digits(d: Parts) -> Seq<char> {
    let ds = digits(magnitude(d.0));
    if ds.len() < d.1 {
        zeros((d.1 - ds.len()) as nat) + ds
    } else {
        ds
    }
}

/// The digits before the point: at least one.
pub open spec fn whole_text(d: Parts) -> Seq<char> {
    let ds = padded_digits(d);
    if ds.len() == d.1 {
        seq!['0']
    } else {
        ds.take(ds.len() - d.1)
    }
}

/// Exactly `precision` digits after the point: those a decimal has, cut off or
/// filled up with zeros.
pub open spec fn fraction_text(d: Parts, precision: nat) -> Seq<char> {
    let ds = padded_digits(d);
    let fraction = ds.skip(ds.len() - d.1);
    if precision <= d.1 {
        fraction.take(precision as int)
    } else {
        fraction + zeros((precision - d.1) as nat)
    }
}

/// A decimal with exactly `precision` fractional digits.
pub open spec fn fixed_text(d: Parts, precision: nat) -> Seq<char> {
    let sign: Seq<char> = if d.0 < 0 {
        seq!['-']
    } else {
        Seq::empty()
    };
    let point: Seq<char> = if precision == 0 {
        Seq::empty()
    } else {
        seq!['.'] + fraction_text(d, precision)
    };
    sign + whole_text(d) + point
}

/// A decimal with exactly the fractional digits it has.
pub open spec fn plain_text(d: Parts) -> Seq<char> {
    fixed_text(d, d.1)
}

/// Whether a fixed rendering is short enough to be made.
pub open spec fn renderable(d: Parts, precision: nat) -> bool {
    &&& precision <= PRECISION_LIMIT
    &&& precision == 0 ==> whole_text(d).len() <= RENDER_LIMIT
    &&& precision > 0 ==> whole_text(d).len() + 1 + (if precision <= MAX_SCALE {
        precision
    } else {
        MAX_SCALE as nat
    }) <= RENDER_LIMIT
}

/// The whole number `n` as a decimal.
pub open spec fn whole(n: int) -> Parts {
    (n, 0)
}

/// The midpoint of two decimals: half their sum.
pub open spec fn midpoint(a: Parts, b: Parts) -> Option<Parts> {
    match decimal_sum(a, b) {
        Some(sum) => decimal_quotient(sum, whole(2)),
        None => None,
    }
}

/// Scale of every figure in basis points.
pub const BPS_SCALE: u32 = 4;

/// `numerator / denominator` in basis points, to four fractional digits.
pub open spec fn basis_points(numerator: Parts, denominator: Parts) -> Option<Parts> {
    match decimal_product(numerator, whole(10_000)) {
        Some(scaled) => match decimal_quotient(scaled, denominator) {
            Some(ratio) => Some(rounded(ratio, BPS_SCALE as nat)),
            None => None,
        },
        None => None,
    }
}

impl Decimal {
    #[verifier::type_invariant]
    closed spec fn holds(self) -> bool {
        representable(self@)
    }

    /// The number this decimal stands for, in units of 10^-28.
    pub open spec fn units(self) -> int {
        units(self@)
    }

    /// Zero, with no fractional digits.
    pub fn zero() -> (d: Decimal)
        ensures
            d@ == whole(0),
    {
        Decimal { mantissa: 0, scale: 0 }
    }

    /// A whole number.
    pub fn from_u64(n: u64) -> (d: Decimal)
        ensures
            d@ == whole(n as int),
    {
        Decimal { mantissa: n as i128, scale: 0 }
    }

    /// A mantissa divided by a power of ten, where a decimal can hold them.
    pub fn from_parts(mantissa: i128, scale: u32) -> (d: Option<Decimal>)
        ensures
            d is Some <==> representable((mantissa as int, scale as nat)),
            d matches Some(d) ==> d@ == (mantissa as int, scale as nat),
    {
        if -MANTISSA_LIMIT < mantissa && mantissa < MANTISSA_LIMIT && scale <= MAX_SCALE {
            Some(Decimal { mantissa, scale })
        } else {
            None
        }
    }

    /// The integer that the power of ten divides.
    pub fn mantissa(&self) -> (m: i128)
        ensures
            m == self@.0,
    {
        self.mantissa
    }

    /// How many fractional digits the decimal has.
    pub fn scale(&self) -> (s: u32)
        ensures
            s == self@.1,
    {
        self.scale
    }

    /// Whether the decimal is zero, at whatever scale.
    pub fn is_zero(&self) -> (b: bool)
        ensures
            b == (self@.0 == 0),
            b == (self.units() == 0),
    {
        proof {
            lemma_units_sign(self@);
        }
        self.mantissa == 0
    }

    /// The larger number; `self` where the two are equal.
    pub fn max(self, other: Decimal) -> (d: Decimal)
        ensures
            d == (if self.units() < other.units() {
                other
            } else {
                self
            }),
    {
        if self < other {
            other
        } else {
            self
        }
    }

    /// The smaller number; `self` where the two are equal.
    pub fn min(self, other: Decimal) -> (d: Decimal)
        ensures
            d == (if other.units() < self.units() {
                other
            } else {
                self
            }),
    {
        if self > other {
            other
        } else {
            self
        }
    }

    /// Parses plain or scientific notation.
    pub fn parse(text: &str) -> (d: Option<Decimal>)
        ensures
            parts_of(d) == parsed(text@),
            readable(text@),
    {
        match parse_plain(text) {
            Some(d) => Some(d),
            None => parse_scientific(text),
        }
    }

    /// The digits the decimal has, trailing zeros included.
    pub fn to_text(&self) -> (text: String)
        ensures
            text@ == plain_text(self@),
            representable(self@),
    {
        proof {
            use_type_invariant(self);
        }
        render_plain(self)
    }

    /// Whether the number is below zero.
    pub fn is_negative(&self) -> (b: bool)
        ensures
            b == (self@.0 < 0),
            b == (self.units() < 0),
    {
        proof {
            lemma_units_sign(self@);
        }
        self.mantissa < 0
    }
}

/// Orders two decimals by the numbers they stand for, through `Ord::cmp` of
/// `rust_decimal::Decimal`, which ignores scale.
#[verifier::external_body]
pub(crate) fn compare(a: &Decimal, b: &Decimal) -> (o: Ordering)
    ensures
        o == (if a.units() < b.units() {
            Ordering::Less
        } else if a.units() == b.units() {
            Ordering::Equal
        } else {
            Ordering::Greater
        }),
{
    let left = rust_decimal::Decimal::from_i128_with_scale(a.mantissa, a.scale);
    let right = rust_decimal::Decimal::from_i128_with_scale(b.mantissa, b.scale);
    left.cmp(&right)
}

/// Adds through `rust_decimal::Decimal::checked_add`. Where both operands can
/// be brought to the larger of their scales with a sum that still fits in 96
/// bits, the sum is the exact number; beyond that digits are rounded away, and
/// the name stands for how.
#[verifier::external_body]
pub(crate) fn checked_add(a: &Decimal, b: &Decimal) -> (r: Option<Decimal>)
    ensures
        parts_of(r) == decimal_sum(a@, b@),
        fits_at(a.units() + b.units(), max_scale(a@, b@)) ==> stands_for(
            r,
            a.units() + b.units(),
        ),
{
    let left = rust_decimal::Decimal::from_i128_with_scale(a.mantissa, a.scale);
    let right = rust_decimal::Decimal::from_i128_with_scale(b.mantissa, b.scale);
    let sum = left.checked_add(right)?;
    Some(Decimal { mantissa: sum.mantissa(), scale: sum.scale() })
}

/// Subtracts through `rust_decimal::Decimal::checked_sub`. Exact on the same
/// terms as [`checked_add`]; and rounded or not, a difference has the sign of
/// the exact one, because digits are rounded away only from a difference of 96
/// bits or more.
#[verifier::external_body]
pub(crate) fn checked_sub(a: &Decimal, b: &Decimal) -> (r: Option<Decimal>)
    ensures
        parts_of(r) == decimal_difference(a@, b@),
        fits_at(a.units() - b.units(), max_scale(a@, b@)) ==> stands_for(
            r,
            a.units() - b.units(),
        ),
        r matches Some(d) ==> (d@.0 < 0 <==> a.units() < b.units()),
        r matches Some(d) ==> (d@.0 == 0 <==> a.units() == b.units()),
{
    let left = rust_decimal::Decimal::from_i128_with_scale(a.mantissa, a.scale);
    let right = rust_decimal::Decimal::from_i128_with_scale(b.mantissa, b.scale);
    let difference = left.checked_sub(right)?;
    Some(Decimal { mantissa: difference.mantissa(), scale: difference.scale() })
}

/// Multiplies through `rust_decimal::Decimal::checked_mul`. A product whose
/// mantissa fits in 96 bits and whose scale is at most 28 is exact.
#[verifier::external_body]
pub(crate) fn checked_mul(a: &Decimal, b: &Decimal) -> (r: Option<Decimal>)
    ensures
        parts_of(r) == decimal_product(a@, b@),
        representable((a@.0 * b@.0, a@.1 + b@.1)) ==> stands_for(
            r,
            units((a@.0 * b@.0, a@.1 + b@.1)),
        ),
{
    let left = rust_decimal::Decimal::from_i128_with_scale(a.mantissa, a.scale);
    let right = rust_decimal::Decimal::from_i128_with_scale(b.mantissa, b.scale);
    let product = left.checked_mul(right)?;
    Some(Decimal { mantissa: product.mantissa(), scale: product.scale() })
}

/// Divides through `rust_decimal::Decimal::checked_div`, which gives nothing
/// for a zero divisor and zero for a zero dividend. How a quotient that does
/// not come out even is rounded is left to the name.
#[verifier::external_body]
pub(crate) fn checked_div(a: &Decimal, b: &Decimal) -> (r: Option<Decimal>)
    ensures
        parts_of(r) == decimal_quotient(a@, b@),
        b@.0 == 0 ==> r is None,
        b@.0 != 0 && a@.0 == 0 ==> parts_of(r) == Some(whole(0)),
{
    let left = rust_decimal::Decimal::from_i128_with_scale(a.mantissa, a.scale);
    let right = rust_decimal::Decimal::from_i128_with_scale(b.mantissa, b.scale);
    let quotient = left.checked_div(right)?;
    Some(Decimal { mantissa: quotient.mantissa(), scale: quotient.scale() })
}

/// Rounds through `rust_decimal::Decimal::round_dp`: a decimal with no more
/// than `dp` fractional digits is left alone, any other is rounded half to
/// even.
#[verifier::external_body]
pub(crate) fn round_dp(d: &Decimal, dp: u32) -> (r: Decimal)
    ensures
        r@ == rounded(d@, dp as nat),
{
    let r = rust_decimal::Decimal::from_i128_with_scale(d.mantissa, d.scale).round_dp(dp);
    Decimal { mantissa: r.mantissa(), scale: r.scale() }
}

/// Parses through `FromStr` of `rust_decimal::Decimal`. What texts it takes is
/// left to the name, but for one thing: the text that a decimal is rendered to
/// gives that decimal back, scale included.
#[verifier::external_body]
pub(crate) fn parse_plain(text: &str) -> (r: Option<Decimal>)
    ensures
        parts_of(r) == plain_parsed(text@),
        forall|d: Parts| representable(d) && text@ == #[trigger] plain_text(d) ==> parts_of(r) == Some(d),
{
    let d: rust_decimal::Decimal = text.parse().ok()?;
    Some(Decimal { mantissa: d.mantissa(), scale: d.scale() })
}

/// Parses through `rust_decimal::Decimal::from_scientific`.
#[verifier::external_body]
pub(crate) fn parse_scientific(text: &str) -> (r: Option<Decimal>)
    ensures
        parts_of(r) == scientific_parsed(text@),
{
    let d = rust_decimal::Decimal::from_scientific(text).ok()?;
    Some(Decimal { mantissa: d.mantissa(), scale: d.scale() })
}

/// Renders through `Display` of `rust_decimal::Decimal` without a precision:
/// the digits the decimal has, a point before the last `scale` of them.
#[verifier::external_body]
pub(crate) fn render_plain(d: &Decimal) -> (text: String)
    ensures
        text@ == plain_text(d@),
{
    rust_decimal::Decimal::from_i128_with_scale(d.mantissa, d.scale).to_string()
}

/// Renders through `Display` of `rust_decimal::Decimal` with a precision, which
/// cuts digits off or fills zeros up and never rounds. The rendering is made in
/// a buffer of 32 characters that holds at most 28 fractional digits, and a
/// precision is a 16-bit number.
#[verifier::external_body]
pub(crate) fn render_fixed(d: &Decimal, precision: u32) -> (text: String)
    requires
        renderable(d@, precision as nat),
    ensures
        text@ == fixed_text(d@, precision as nat),
{
    let d = rust_decimal::Decimal::from_i128_with_scale(d.mantissa, d.scale);
    format!("{:.*}", precision as usize, d)
}

impl PartialEq for Decimal {
    fn eq(&self, other: &Decimal) -> (b: bool) {
        match compare(self, other) {
            Ordering::Equal => true,
            _ => false,
        }
    }
}

impl vstd::std_specs::cmp::PartialEqSpecImpl for Decimal {
    open spec fn obeys_eq_spec() -> bool {
        true
    }

    open spec fn eq_spec(&self, other: &Decimal) -> bool {
        self.units() == other.units()
    }
}

impl Eq for Decimal {

}

impl PartialOrd for Decimal {
    fn partial_cmp(&self, other: &Decimal) -> (o: Option<Ordering>) {
        Some(compare(self, other))
    }
}

impl vstd::std_specs::cmp::PartialOrdSpecImpl for Decimal {
    open spec fn obeys_partial_cmp_spec() -> bool {
        true
    }

    open spec fn partial_cmp_spec(&self, other: &Decimal) -> Option<Ordering> {
        if self.units() < other.units() {
            Some(Ordering::Less)
        } else if self.units() == other.units() {
            Some(Ordering::Equal)
        } else {
            Some(Ordering::Greater)
        }
    }
}

/// The larger of two scales.
pub open spec fn max_scale(a: Parts, b: Parts) -> nat {
    if a.1 < b.1 {
        b.1
    } else {
        a.1
    }
}

/// Whether a number that is a whole multiple of 10^-scale has a mantissa of
/// fewer than 97 bits at that scale.
pub open spec fn fits_at(number: int, scale: nat) -> bool {
    -MANTISSA_LIMIT * pow10((MAX_SCALE - scale) as nat) < number < MANTISSA_LIMIT * pow10(
        (MAX_SCALE - scale) as nat,
    )
}

/// Powers of ten are positive.
pub proof fn lemma_pow10_positive(n: nat)
    ensures
        pow10(n) >= 1,
    decreases n,
{
    if n > 0 {
        lemma_pow10_positive((n - 1) as nat);
    }
}

/// A decimal's number has the sign of its mantissa.
pub proof fn lemma_units_sign(d: Parts)
    ensures
        units(d) == 0 <==> d.0 == 0,
        units(d) < 0 <==> d.0 < 0,
{
    let p = pow10((MAX_SCALE - d.1) as nat);
    lemma_pow10_positive((MAX_SCALE - d.1) as nat);
    assert(d.0 < 0 ==> d.0 * p < 0) by (nonlinear_arith)
        requires
            p >= 1,
    ;
    assert(d.0 > 0 ==> d.0 * p > 0) by (nonlinear_arith)
        requires
            p >= 1,
    ;
    assert(d.0 == 0 ==> d.0 * p == 0) by (nonlinear_arith);
}

/// The half sum, where it can be held.
pub(crate) fn checked_midpoint(a: &Decimal, b: &Decimal) -> (r: Option<Decimal>)
    ensures
        parts_of(r) == midpoint(a@, b@),
{
    match checked_add(a, b) {
        Some(sum) => checked_div(&sum, &Decimal::from_u64(2)),
        None => None,
    }
}

/// A ratio in basis points, where it can be held.
pub(crate) fn checked_bps(numerator: &Decimal, denominator: &Decimal) -> (r: Option<Decimal>)
    ensures
        parts_of(r) == basis_points(numerator@, denominator@),
{
    match checked_mul(numerator, &Decimal::from_u64(10_000)) {
        Some(scaled) => match checked_div(&scaled, denominator) {
            Some(ratio) => Some(round_dp(&ratio, BPS_SCALE)),
            None => None,
        },
        None => None,
    }
}

/// Whether two decimals have a sum that loses no digit.
pub open spec fn adds_exactly(a: Parts, b: Parts) -> bool {
    decimal_sum(a, b) matches Some(c) && units(c) == units(a) + units(b)
}

/// Whether two decimals have a difference that loses no digit.
pub open spec fn subtracts_exactly(a: Parts, b: Parts) -> bool {
    decimal_difference(a, b) matches Some(c) && units(c) == units(a) - units(b)
}

/// Whether two decimals have a product that loses no digit.
pub open spec fn multiplies_exactly(a: Parts, b: Parts) -> bool {
    decimal_product(a, b) matches Some(c) && units(c) * pow10(MAX_SCALE as nat) == units(a) * units(
        b,
    )
}

/// Whether two decimals have a quotient that loses no digit.
pub open spec fn divides_exactly(a: Parts, b: Parts) -> bool {
    decimal_quotient(a, b) matches Some(c) && units(c) * units(b) == units(a) * pow10(
        MAX_SCALE as nat,
    ) && c.1 <= MAX_SCALE
}

/// Whether a decimal is a ratio of two numbers, to a number of fractional digits: it
/// is off by at most half a unit of the last one.
pub open spec fn nearest_ratio(d: Parts, numerator: int, denominator: int, dp: nat) -> bool {
    exists|q: int|
        #![trigger q * denominator]
        q * denominator == numerator * pow10(MAX_SCALE as nat) && -pow10((MAX_SCALE - dp) as nat)
            <= 2 * (units(d) - q) <= pow10((MAX_SCALE - dp) as nat)
}

/// A quotient that is rounded is the ratio to as many digits.
pub proof fn lemma_rounded_quotient(a: Parts, b: Parts, dp: nat)
    requires
        divides_exactly(a, b),
        dp <= MAX_SCALE,
    ensures
        nearest_ratio(rounded(decimal_quotient(a, b)->0, dp), units(a), units(b), dp),
{
    let c = decimal_quotient(a, b)->0;
    law_rounding_goes_to_the_nearest(c, dp);
    lemma_pow10_positive((MAX_SCALE - dp) as nat);
    assert(units(c) * units(b) == units(a) * pow10(MAX_SCALE as nat));
}

/// A decimal that stands for a whole number.
pub proof fn lemma_units_of_whole(n: int)
    ensures
        units(whole(n)) == n * pow10(MAX_SCALE as nat),
{
}

/// Ten to a sum is the product of the powers.
pub proof fn lemma_pow10_adds(a: nat, b: nat)
    ensures
        pow10(a + b) == pow10(a) * pow10(b),
    decreases a,
{
    if a > 0 {
        lemma_pow10_adds((a - 1) as nat, b);
        let x = pow10((a - 1) as nat);
        let y = pow10(b);
        assert(10 * (x * y) == (10 * x) * y) by (nonlinear_arith);
        assert((a + b - 1) as nat == (a - 1) as nat + b);
    } else {
        assert(pow10(0) == 1);
    }
}

/// A midpoint lies half way: twice the midpoint is the sum, where no digit is lost.
pub proof fn law_a_midpoint_lies_half_way(a: Parts, b: Parts)
    requires
        adds_exactly(a, b),
        divides_exactly(decimal_sum(a, b)->0, whole(2)),
    ensures
        midpoint(a, b) matches Some(m) && 2 * units(m) == units(a) + units(b),
{
    let sum = decimal_sum(a, b)->0;
    let m = decimal_quotient(sum, whole(2))->0;
    let p = pow10(MAX_SCALE as nat);
    lemma_pow10_positive(MAX_SCALE as nat);
    lemma_units_of_whole(2);
    assert(2 * units(m) == units(sum)) by (nonlinear_arith)
        requires
            units(m) * (2 * p) == units(sum) * p,
            p >= 1,
    ;
}

/// Rounding goes to the nearest: what is lost is at most half a unit of the last
/// digit that is kept, and a number with no more digits is left as it is.
pub proof fn law_rounding_goes_to_the_nearest(d: Parts, dp: nat)
    requires
        d.1 <= MAX_SCALE,
    ensures
        d.1 <= dp ==> rounded(d, dp) == d,
        d.1 > dp ==> {
            let lost = 2 * (units(rounded(d, dp)) - units(d));
            let unit = pow10((MAX_SCALE - dp) as nat);
            &&& rounded(d, dp).1 == dp
            &&& -unit <= lost <= unit
        },
{
    if d.1 > dp {
        let step = pow10((d.1 - dp) as nat);
        let rest = pow10((MAX_SCALE - d.1) as nat);
        let unit = pow10((MAX_SCALE - dp) as nat);
        lemma_pow10_positive((d.1 - dp) as nat);
        lemma_pow10_positive((MAX_SCALE - d.1) as nat);
        lemma_pow10_adds((d.1 - dp) as nat, (MAX_SCALE - d.1) as nat);
        assert((d.1 - dp) as nat + (MAX_SCALE - d.1) as nat == (MAX_SCALE - dp) as nat);
        let m = magnitude(d.0);
        let q = half_even(m, step);
        vstd::arithmetic::div_mod::lemma_fundamental_div_mod(m as int, step as int);
        vstd::arithmetic::div_mod::lemma_mod_bound(m as int, step as int);
        let whole_part = m / step;
        let left = m % step;
        assert(step * (whole_part + 1) == step * whole_part + step) by (nonlinear_arith);
        let off = 2 * (q * step - m);
        assert(q * step == step * q) by (nonlinear_arith);
        assert(-step <= off <= step);
        assert(q * unit == (q * step) * rest) by (nonlinear_arith)
            requires
                unit == step * rest,
        ;
        let scaled = off * rest;
        assert(-(step * rest) <= scaled && scaled <= step * rest) by (nonlinear_arith)
            requires
                -step <= off <= step,
                rest >= 1,
                scaled == off * rest,
        ;
        assert(scaled == 2 * (q * unit - m * rest)) by (nonlinear_arith)
            requires
                scaled == off * rest,
                off == 2 * (q * step - m),
                q * unit == (q * step) * rest,
        ;
        assert((-(q as int)) * unit == -(q * unit)) by (nonlinear_arith);
        assert((-(m as int)) * rest == -(m * rest)) by (nonlinear_arith);
    }
}

/// A ratio in basis points is ten thousand times the ratio, to four fractional
/// digits, where multiplying and dividing lose none.
pub proof fn law_basis_points_are_ten_thousandths(a: Parts, b: Parts)
    requires
        multiplies_exactly(a, whole(10_000)),
        divides_exactly(decimal_product(a, whole(10_000))->0, b),
    ensures
        basis_points(a, b) matches Some(c) && nearest_ratio(c, 10_000 * units(a), units(b), 4),
{
    let p = pow10(MAX_SCALE as nat);
    let scaled = decimal_product(a, whole(10_000))->0;
    lemma_pow10_positive(MAX_SCALE as nat);
    lemma_units_of_whole(10_000);
    assert(units(scaled) == 10_000 * units(a)) by (nonlinear_arith)
        requires
            units(scaled) * p == units(a) * (10_000 * p),
            p >= 1,
    ;
    lemma_rounded_quotient(scaled, b, 4);
}

/// Both notations are read: a text stands for a decimal exactly where it does so in
/// one of them, and plain notation comes first.
pub proof fn law_both_notations_are_read(text: Seq<char>)
    ensures
        parsed(text) is Some <==> plain_parsed(text) is Some || scientific_parsed(text) is Some,
        plain_parsed(text) is Some ==> parsed(text) == plain_parsed(text),
        plain_parsed(text) is None ==> parsed(text) == scientific_parsed(text),
{
}

} // verus!
