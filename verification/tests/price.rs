#![allow(unused_mut)]

use market_aggregator::decimal::Decimal;
use market_aggregator::event::Level;
use market_aggregator::ladder::put_level;
use market_aggregator::price::{ParseError, Price, Qty};

#[test]
fn price_round_trips_exactly() {
    for raw in ["45000.10", "0.00000001", "123456.78901234", "1", "0.1"] {
        let p: Price = raw.parse().unwrap();
        assert_eq!(p.to_text(), raw, "lost digits round-tripping {raw}");
    }
}

#[test]
fn price_preserves_trailing_zeros() {
    let padded: Price = "45000.10".parse().unwrap();
    let bare: Price = "45000.1".parse().unwrap();

    assert_eq!(padded, bare, "should compare numerically equal");
    assert_eq!(padded.to_text(), "45000.10");
    assert_eq!(bare.to_text(), "45000.1");
    assert_eq!(padded.to_fixed_string(2), bare.to_fixed_string(2));
}

#[test]
fn equal_prices_are_one_level() {
    let mut book: Vec<Level> = Vec::new();
    put_level(
        &mut book,
        Level::new("45000.10".parse().unwrap(), "1".parse().unwrap()),
    );
    put_level(
        &mut book,
        Level::new("45000.1".parse().unwrap(), "2".parse().unwrap()),
    );
    assert_eq!(book.len(), 1, "same price occupied two levels");
}

#[test]
fn prices_order_numerically_not_lexically() {
    let mut prices: Vec<Price> = ["9.5", "10.1", "100", "9.45"]
        .iter()
        .map(|s| s.parse().unwrap())
        .collect();
    prices.sort_by(|a, b| a.partial_cmp(b).unwrap());
    let rendered: Vec<String> = prices.iter().map(|p| p.to_text()).collect();
    assert_eq!(rendered, ["9.45", "9.5", "10.1", "100"]);
}

#[test]
fn zero_qty_is_a_delete() {
    let q: Qty = "0".parse().unwrap();
    assert!(q.is_delete());
    let q: Qty = "0.00000000".parse().unwrap();
    assert!(q.is_delete(), "scaled zero is still a delete");
    let q: Qty = "0.00000001".parse().unwrap();
    assert!(!q.is_delete());
}

#[test]
fn negative_qty_is_rejected() {
    assert!("-1".parse::<Qty>().is_err());
    assert!("-0".parse::<Qty>().unwrap().is_delete());
}

#[test]
fn garbage_is_rejected_rather_than_defaulted() {
    for raw in ["", "null", "NaN", "Infinity", "abc"] {
        assert!(raw.parse::<Price>().is_err(), "{raw} parsed as a price");
    }
}

#[test]
fn a_refusal_says_what_was_wrong() {
    match Price::from_text("abc") {
        Err(e) => {
            assert_eq!(e, ParseError::NotDecimal("abc".to_owned()));
            assert_eq!(e.message(), "not a decimal number: abc");
        }
        Ok(p) => panic!("parsed {p:?}"),
    }
    match Qty::from_text("-1.5") {
        Err(e) => {
            assert_eq!(e, ParseError::NegativeQty(Decimal::parse("-1.5").unwrap()));
            assert_eq!(e.message(), "quantity may not be negative: -1.5");
        }
        Ok(q) => panic!("parsed {q:?}"),
    }
}

#[test]
fn fixed_strings_pad_and_cut() {
    let p: Price = "45000.1".parse().unwrap();
    assert_eq!(p.to_fixed_string(5), "45000.10000");
    let q: Qty = "0.123456785".parse().unwrap();
    assert_eq!(q.to_fixed_string(8), "0.12345678");
    assert_eq!(Qty::zero().to_fixed_string(2), "0.00");
}

#[test]
fn scientific_notation_is_read_too() {
    let p: Price = "1.5e3".parse().unwrap();
    assert_eq!(p, "1500".parse().unwrap());
}

#[test]
fn decimals_compare_by_value_across_scales() {
    let a = Decimal::parse("1.50").unwrap();
    let b = Decimal::parse("1.5").unwrap();
    let c = Decimal::parse("1.6").unwrap();
    assert_eq!(a, b);
    assert!(a < c && c > b);
    assert_eq!(a.max(c), c);
    assert_eq!(a.min(c), a);
    assert_eq!((a.mantissa(), a.scale()), (150, 2));
    assert_eq!(Decimal::from_parts(150, 2), Some(a));
    assert_eq!(Decimal::from_parts(1, 29), None);
}
