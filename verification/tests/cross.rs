#![allow(unused_mut)]

use market_aggregator::book::{BookState, DesyncReason, Integrity, TopOfBook};
use market_aggregator::cross::{
    consolidate, try_consolidate, CrossPolicy, Exclusion, ExclusionReason,
};
use market_aggregator::decimal::Decimal;
use market_aggregator::event::{Level, VenueId};
use market_aggregator::price::{Price, Qty};
use market_aggregator::time::{Clock, Duration, IngestTime, TestClock};

fn dec(s: &str) -> Decimal {
    Decimal::parse(s).unwrap()
}

fn at() -> IngestTime {
    TestClock::new().now()
}

fn level(price: &str) -> Level {
    Level::new(Price::from_text(price).unwrap(), Qty::from_text("1").unwrap())
}

/// A live two-sided book of the given age and integrity.
fn quote(bid: &str, ask: &str, age_ms: u64, integrity: Integrity) -> TopOfBook {
    TopOfBook {
        bid: Some(level(bid)),
        ask: Some(level(ask)),
        state: BookState::Live {
            integrity,
            since: at(),
            last_verified: None,
        },
        age: Some(Duration::from_millis(age_ms)),
    }
}

fn fresh(bid: &str, ask: &str) -> TopOfBook {
    quote(bid, ask, 10, Integrity::Verified)
}

fn desynced(bid: &str, ask: &str) -> TopOfBook {
    TopOfBook {
        state: BookState::Desynced {
            since: at(),
            reason: DesyncReason::SequenceGap {
                expected: 1,
                got: 9,
            },
        },
        ..fresh(bid, ask)
    }
}

#[test]
fn the_consolidated_touch_is_the_best_of_each_side_across_venues() {
    let out = consolidate(
        &[
            (VenueId::Coinbase, fresh("100", "102")),
            (VenueId::Kraken, fresh("101", "103")),
            (VenueId::Bitstamp, fresh("99", "101")),
        ],
        CrossPolicy::default(),
    );

    assert_eq!(out.bid.unwrap().venue, VenueId::Kraken);
    assert_eq!(out.bid.unwrap().price.to_text(), "101");
    assert_eq!(out.ask.unwrap().venue, VenueId::Bitstamp);
    assert_eq!(out.ask.unwrap().price.to_text(), "101");
    assert_eq!(out.venues_used, 3);
    assert!(out.excluded.is_empty());

    assert_eq!(out.spread, Some(Decimal::zero()));
    assert!(out.is_crossed());
    assert!(!out.is_single_venue());
}

#[test]
fn a_crossed_consolidation_reports_a_negative_spread() {
    let out = consolidate(
        &[
            (VenueId::Kraken, fresh("10010", "10020")),
            (VenueId::Coinbase, fresh("9990", "10000")),
        ],
        CrossPolicy::default(),
    );

    assert_eq!(out.spread, Some(dec("-10")));
    assert_eq!(out.spread_bps, Some(dec("-9.9950")));
    assert!(out.is_crossed());
    assert_eq!(out.bid.unwrap().venue, VenueId::Kraken);
    assert_eq!(out.ask.unwrap().venue, VenueId::Coinbase);
}

#[test]
fn an_untrusted_book_is_not_a_quote() {
    let out = consolidate(
        &[
            (VenueId::Coinbase, desynced("99999", "100000")),
            (VenueId::Kraken, fresh("100", "102")),
        ],
        CrossPolicy::default(),
    );

    assert_eq!(out.bid.unwrap().venue, VenueId::Kraken);
    assert!(
        !out.is_crossed(),
        "a desynced book manufactured an arbitrage"
    );
    assert_eq!(out.venues_used, 1);
    assert_eq!(
        out.excluded,
        vec![Exclusion {
            venue: VenueId::Coinbase,
            reason: ExclusionReason::Untrusted,
        }]
    );
}

#[test]
fn a_stalled_book_is_excluded_and_says_how_old_it_was() {
    let policy = CrossPolicy {
        max_age: Duration::from_secs(2),
    };
    let out = consolidate(
        &[
            (
                VenueId::Bitstamp,
                quote("99999", "100000", 5_000, Integrity::OrderOnly),
            ),
            (VenueId::Kraken, fresh("100", "102")),
        ],
        policy,
    );

    assert_eq!(out.venues_used, 1);
    assert!(!out.is_crossed());
    assert_eq!(
        out.excluded,
        vec![Exclusion {
            venue: VenueId::Bitstamp,
            reason: ExclusionReason::Stale {
                age: Duration::from_secs(5)
            },
        }]
    );
    assert_eq!(
        out.excluded[0].reason.describe(),
        "no update for 5000ms",
        "the exclusion must say how stale, or an operator cannot tell a \
         misconfigured guard from a dead feed"
    );
}

#[test]
fn the_integrity_floor_is_taken_over_the_legs_used_not_the_venues_present() {
    let out = consolidate(
        &[
            (
                VenueId::Kraken,
                quote("100", "105", 10, Integrity::Verified),
            ),
            (
                VenueId::Bitstamp,
                quote("98", "102", 10, Integrity::OrderOnly),
            ),
        ],
        CrossPolicy::default(),
    );

    assert_eq!(out.bid.unwrap().venue, VenueId::Kraken);
    assert_eq!(out.ask.unwrap().venue, VenueId::Bitstamp);
    assert_eq!(
        out.integrity_floor,
        Some(Integrity::OrderOnly),
        "a spread built on a book that cannot detect a lost message \
         claimed checksum-grade trust"
    );
}

#[test]
fn a_desynced_venue_does_not_weaken_a_floor_it_contributed_nothing_to() {
    let out = consolidate(
        &[
            (
                VenueId::Kraken,
                quote("100", "102", 10, Integrity::Verified),
            ),
            (
                VenueId::Coinbase,
                quote("99", "101", 10, Integrity::GapDetectable),
            ),
            (VenueId::Bitstamp, desynced("50", "150")),
        ],
        CrossPolicy::default(),
    );

    assert_eq!(out.integrity_floor, Some(Integrity::GapDetectable));
}

#[test]
fn the_older_leg_bounds_the_reading() {
    let out = consolidate(
        &[
            (
                VenueId::Kraken,
                quote("100", "105", 40, Integrity::Verified),
            ),
            (
                VenueId::Coinbase,
                quote("98", "102", 900, Integrity::GapDetectable),
            ),
        ],
        CrossPolicy::default(),
    );

    assert_eq!(out.oldest_leg_ms, Some(900));
}

#[test]
fn both_legs_from_one_venue_is_flagged_as_not_an_arbitrage() {
    let out = consolidate(
        &[
            (VenueId::Kraken, fresh("100", "101")),
            (VenueId::Coinbase, fresh("98", "103")),
        ],
        CrossPolicy::default(),
    );

    assert!(out.is_single_venue());
    assert_eq!(out.spread, Some(dec("1")));
    assert!(!out.is_crossed());
}

#[test]
fn no_participating_venue_gives_nothing_rather_than_zero() {
    let out = consolidate(
        &[
            (VenueId::Coinbase, desynced("100", "101")),
            (VenueId::Kraken, desynced("100", "101")),
        ],
        CrossPolicy::default(),
    );

    assert_eq!(out.bid, None);
    assert_eq!(out.ask, None);
    assert_eq!(out.spread, None);
    assert_eq!(out.spread_bps, None);
    assert_eq!(out.integrity_floor, None);
    assert!(!out.is_crossed(), "an absent spread read as a crossing");
    assert_eq!(out.excluded.len(), 2);
}

#[test]
fn a_one_sided_venue_still_contributes_the_side_it_has() {
    let one_sided = TopOfBook {
        ask: None,
        ..fresh("105", "0")
    };
    let out = consolidate(
        &[
            (VenueId::Coinbase, one_sided),
            (VenueId::Kraken, fresh("100", "102")),
        ],
        CrossPolicy::default(),
    );

    assert_eq!(out.bid.unwrap().venue, VenueId::Coinbase);
    assert_eq!(out.ask.unwrap().venue, VenueId::Kraken);
    assert_eq!(out.venues_used, 2);
}

#[test]
fn a_book_that_has_never_applied_anything_is_not_fresh() {
    let never = TopOfBook {
        age: None,
        ..fresh("99999", "100000")
    };
    let out = consolidate(
        &[
            (VenueId::Coinbase, never),
            (VenueId::Kraken, fresh("100", "102")),
        ],
        CrossPolicy::default(),
    );

    assert_eq!(out.venues_used, 1);
    assert_eq!(out.bid.unwrap().venue, VenueId::Kraken);
}

#[test]
fn ties_keep_the_first_venue_so_the_view_does_not_flap() {
    let out = consolidate(
        &[
            (VenueId::Bitstamp, fresh("100", "102")),
            (VenueId::Coinbase, fresh("100", "102")),
        ],
        CrossPolicy::default(),
    );
    assert_eq!(out.bid.unwrap().venue, VenueId::Bitstamp);
    assert_eq!(out.ask.unwrap().venue, VenueId::Bitstamp);
}

#[test]
fn reasons_for_staying_out_read_in_words() {
    assert_eq!(ExclusionReason::Untrusted.describe(), "book is not trusted");
    assert_eq!(ExclusionReason::NoQuote.describe(), "book holds no levels");
}

#[test]
fn the_total_form_of_consolidation_agrees_with_the_partial_one() {
    let quotes = [
        (VenueId::Kraken, fresh("10010", "10020")),
        (VenueId::Coinbase, fresh("9990", "10000")),
    ];
    assert_eq!(
        try_consolidate(&quotes, CrossPolicy::default()),
        Ok(consolidate(&quotes, CrossPolicy::default()))
    );
}

#[test]
fn a_spread_no_decimal_can_hold_is_an_overflow() {
    let quotes = [(
        VenueId::Fake,
        fresh("-79228162514264337593543950335", "79228162514264337593543950335"),
    )];
    assert!(try_consolidate(&quotes, CrossPolicy::default()).is_err());
}
