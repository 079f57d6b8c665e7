//! Exact decimal price and quantity types.

use std::cmp::Ordering;
use std::str::FromStr;

use vstd::prelude::*;

use crate::decimal;
use crate::decimal::{Decimal, Parts};
use crate::text;

verus! {

/// Error parsing a price or quantity off the wire.
#[derive(Debug, PartialEq, Eq)]
pub enum ParseError {
    /// The text stands for no decimal number.
    NotDecimal(String),
    /// The number is below zero, and quantities are not.
    NegativeQty(Decimal),
}

impl Clone for ParseError {
    fn clone(&self) -> (e: ParseError)
        ensures
            e == *self,
    {
        match self {
            ParseError::NotDecimal(raw) => ParseError::NotDecimal(raw.clone()),
            ParseError::NegativeQty(d) => ParseError::NegativeQty(*d),
        }
    }
}

impl ParseError {
    /// What went wrong, in words.
    pub fn message(&self) -> (text: String)
        ensures
            text@ == parse_error_text(*self),
    {
        let mut out: Vec<char> = Vec::new();
        match self {
            ParseError::NotDecimal(raw) => {
                text::push_text(&mut out, "not a decimal number: ");
                text::push_text(&mut out, raw.as_str());
            },
            ParseError::NegativeQty(d) => {
                text::push_text(&mut out, "quantity may not be negative: ");
                text::push_text(&mut out, d.to_text().as_str());
            },
        }
        text::text_of(&out)
    }
}

/// What a parse error says.
pub open spec fn parse_error_text(e: ParseError) -> Seq<char> {
    match e {
        ParseError::NotDecimal(raw) => "not a decimal number: "@ + raw@,
        ParseError::NegativeQty(d) => "quantity may not be negative: "@ + decimal::plain_text(d@),
    }
}

/// A price level, represented exactly.
///
/// Levels are keyed by price, so prices that are equal on the wire must be
/// equal here; and a venue's checksum covers the digits it sent, so the scale
/// of a price survives. Equality and order are those of the numbers.
#[derive(Clone, Copy, Debug)]
pub struct Price(Decimal);

impl View for Price {
    type V = Parts;

    closed spec fn view(&self) -> Parts {
        self.0@
    }
}

impl Price {
    /// The number, in units of 10^-28.
    pub open spec fn units(self) -> int {
        decimal::units(self@)
    }

    pub fn from_decimal(d: Decimal) -> (p: Price)
        ensures
            p@ == d@,
    {
        Price(d)
    }

    pub fn as_decimal(&self) -> (d: Decimal)
        ensures
            d@ == self@,
    {
        self.0
    }

    /// Parses plain or scientific notation.
    pub fn from_text(s: &str) -> (r: Result<Price, ParseError>)
        ensures
            r is Ok <==> decimal::parsed(s@) is Some,
            r matches Ok(p) ==> Some(p@) == decimal::parsed(s@),
            r matches Err(e) ==> e matches ParseError::NotDecimal(raw) && raw@ == s@,
            decimal::readable(s@),
    {
        match Decimal::parse(s) {
            Some(d) => Ok(Price(d)),
            None => Err(ParseError::NotDecimal(s.to_owned())),
        }
    }

    /// The digits the venue sent, trailing zeros included.
    pub fn to_text(&self) -> (text: String)
        ensures
            text@ == decimal::plain_text(self@),
            decimal::representable(self@),
    {
        self.0.to_text()
    }

    /// Render with exactly `scale` digits after the point, cut off or filled
    /// up: the precision a venue's checksum is computed over is not always the
    /// one it transmits.
    pub fn to_fixed_string(&self, scale: u32) -> (text: String)
        requires
            decimal::renderable(self@, scale as nat),
        ensures
            text@ == decimal::fixed_text(self@, scale as nat),
    {
        decimal::render_fixed(&self.0, scale)
    }

    /// Whether this price is the lower one.
    pub fn below(&self, other: &Price) -> (b: bool)
        ensures
            b == (self.units() < other.units()),
    {
        self.0 < other.0
    }

    /// Whether the two are the same price.
    pub fn same(&self, other: &Price) -> (b: bool)
        ensures
            b == (self.units() == other.units()),
    {
        self.0 == other.0
    }
}

impl FromStr for Price {
    type Err = ParseError;

    fn from_str(s: &str) -> (r: Result<Self, ParseError>)
        ensures
            r is Ok <==> decimal::parsed(s@) is Some,
            r matches Ok(p) ==> Some(p@) == decimal::parsed(s@),
            r matches Err(e) ==> e matches ParseError::NotDecimal(raw) && raw@ == s@,
    {
        Price::from_text(s)
    }
}

impl PartialEq for Price {
    fn eq(&self, other: &Price) -> (b: bool) {
        self.0 == other.0
    }
}

impl vstd::std_specs::cmp::PartialEqSpecImpl for Price {
    open spec fn obeys_eq_spec() -> bool {
        true
    }

    open spec fn eq_spec(&self, other: &Price) -> bool {
        self.units() == other.units()
    }
}

impl Eq for Price {

}

impl PartialOrd for Price {
    fn partial_cmp(&self, other: &Price) -> (o: Option<Ordering>) {
        self.0.partial_cmp(&other.0)
    }
}

impl vstd::std_specs::cmp::PartialOrdSpecImpl for Price {
    open spec fn obeys_partial_cmp_spec() -> bool {
        true
    }

    open spec fn partial_cmp_spec(&self, other: &Price) -> Option<Ordering> {
        if self.units() < other.units() {
            Some(Ordering::Less)
        } else if self.units() == other.units() {
            Some(Ordering::Equal)
        } else {
            Some(Ordering::Greater)
        }
    }
}

/// A size at a price level. Never negative; zero is meaningful.
///
/// A zero quantity in a delta is a deletion, not an empty level.
#[derive(Clone, Copy, Debug)]
pub struct Qty(Decimal);

impl View for Qty {
    type V = Parts;

    closed spec fn view(&self) -> Parts {
        self.0@
    }
}

impl Qty {
    /// The number, in units of 10^-28.
    pub open spec fn units(self) -> int {
        decimal::units(self@)
    }

    /// Whether this quantity means "remove the level".
    pub open spec fn deletes(self) -> bool {
        self@.0 == 0
    }

    #[verifier::type_invariant]
    closed spec fn not_negative(self) -> bool {
        self@.0 >= 0
    }

    /// No quantity.
    pub fn zero() -> (q: Qty)
        ensures
            q@ == decimal::whole(0),
            q.deletes(),
    {
        Qty(Decimal::zero())
    }

    pub fn from_decimal(d: Decimal) -> (r: Result<Qty, ParseError>)
        ensures
            r is Ok <==> d@.0 >= 0,
            r matches Ok(q) ==> q@ == d@,
            r matches Err(e) ==> e == ParseError::NegativeQty(d),
    {
        if d.is_negative() {
            return Err(ParseError::NegativeQty(d));
        }
        Ok(Qty(d))
    }

    pub fn as_decimal(&self) -> (d: Decimal)
        ensures
            d@ == self@,
            d@.0 >= 0,
    {
        proof {
            use_type_invariant(self);
        }
        self.0
    }

    /// True when this quantity means "remove the level".
    pub fn is_delete(&self) -> (b: bool)
        ensures
            b == self.deletes(),
    {
        self.0.is_zero()
    }

    /// Parses plain or scientific notation.
    pub fn from_text(s: &str) -> (r: Result<Qty, ParseError>)
        ensures
            r is Ok <==> (decimal::parsed(s@) matches Some(d) && d.0 >= 0),
            r matches Ok(q) ==> Some(q@) == decimal::parsed(s@),
            r matches Err(ParseError::NotDecimal(raw)) ==> decimal::parsed(s@) is None && raw@ == s@,
            r matches Err(ParseError::NegativeQty(d)) ==> Some(d@) == decimal::parsed(s@),
            decimal::readable(s@),
    {
        match Decimal::parse(s) {
            Some(d) => Qty::from_decimal(d),
            None => Err(ParseError::NotDecimal(s.to_owned())),
        }
    }

    /// The digits the venue sent, trailing zeros included.
    pub fn to_text(&self) -> (text: String)
        ensures
            text@ == decimal::plain_text(self@),
            decimal::representable(self@),
            self@.0 >= 0,
    {
        proof {
            use_type_invariant(self);
        }
        self.0.to_text()
    }

    /// Render with exactly `scale` digits after the point, cut off or filled
    /// up.
    pub fn to_fixed_string(&self, scale: u32) -> (text: String)
        requires
            decimal::renderable(self@, scale as nat),
        ensures
            text@ == decimal::fixed_text(self@, scale as nat),
    {
        decimal::render_fixed(&self.0, scale)
    }
}

impl FromStr for Qty {
    type Err = ParseError;

    fn from_str(s: &str) -> (r: Result<Self, ParseError>)
        ensures
            r is Ok <==> (decimal::parsed(s@) matches Some(d) && d.0 >= 0),
            r matches Ok(q) ==> Some(q@) == decimal::parsed(s@),
            r matches Err(ParseError::NotDecimal(raw)) ==> decimal::parsed(s@) is None && raw@ == s@,
            r matches Err(ParseError::NegativeQty(d)) ==> Some(d@) == decimal::parsed(s@),
    {
        Qty::from_text(s)
    }
}

impl PartialEq for Qty {
    fn eq(&self, other: &Qty) -> (b: bool) {
        self.0 == other.0
    }
}

impl vstd::std_specs::cmp::PartialEqSpecImpl for Qty {
    open spec fn obeys_eq_spec() -> bool {
        true
    }

    open spec fn eq_spec(&self, other: &Qty) -> bool {
        self.units() == other.units()
    }
}

impl Eq for Qty {

}

impl PartialOrd for Qty {
    fn partial_cmp(&self, other: &Qty) -> (o: Option<Ordering>) {
        self.0.partial_cmp(&other.0)
    }
}

impl vstd::std_specs::cmp::PartialOrdSpecImpl for Qty {
    open spec fn obeys_partial_cmp_spec() -> bool {
        true
    }

    open spec fn partial_cmp_spec(&self, other: &Qty) -> Option<Ordering> {
        if self.units() < other.units() {
            Some(Ordering::Less)
        } else if self.units() == other.units() {
            Some(Ordering::Equal)
        } else {
            Some(Ordering::Greater)
        }
    }
}

/// A quantity deletes exactly where it is zero, at whatever scale it was sent.
pub proof fn law_only_nothing_deletes(q: Qty)
    ensures
        q.deletes() <==> q.units() == 0,
{
    decimal::lemma_units_sign(q@);
}

} // verus!
