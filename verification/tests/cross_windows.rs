#![allow(unused_mut)]

use market_aggregator::book::Integrity;
use market_aggregator::cross_windows::{
    consolidate_windows, try_consolidate_windows, WindowExclusion, WindowExclusionReason,
    WindowLeg,
};
use market_aggregator::decimal::Decimal;
use market_aggregator::event::VenueId;
use market_aggregator::window::WindowReading;

fn dec(s: &str) -> Decimal {
    Decimal::parse(s).unwrap()
}

fn reading(span_ms: u64) -> WindowReading {
    WindowReading {
        trusted_ms: span_ms,
        ..WindowReading::empty(span_ms)
    }
}

fn sampled(
    span_ms: u64,
    trusted_ms: u64,
    integrity: Integrity,
    samples: u64,
    high: &str,
    low: &str,
    mean: &str,
) -> WindowReading {
    WindowReading {
        trusted_ms,
        samples,
        integrity_floor: Some(integrity),
        high: Some(dec(high)),
        low: Some(dec(low)),
        mean: Some(dec(mean)),
        ..reading(span_ms)
    }
}

#[test]
fn merges_only_order_free_statistics_with_floors_and_max_lag() {
    let a = [sampled(
        60_000,
        60_000,
        Integrity::Verified,
        100,
        "110",
        "90",
        "100",
    )];
    let b = [sampled(
        60_000,
        40_000,
        Integrity::OrderOnly,
        300,
        "120",
        "95",
        "104",
    )];
    let legs = [
        WindowLeg {
            venue: VenueId::Kraken,
            lag_ms: 0,
            windows: &a,
        },
        WindowLeg {
            venue: VenueId::Bitstamp,
            lag_ms: 700,
            windows: &b,
        },
    ];

    let out = consolidate_windows(&legs);
    assert_eq!(out.len(), 1);
    let w = &out[0];

    assert_eq!(w.venues_used, 2);
    assert_eq!(w.high, Some(dec("120")), "high is a max across venues");
    assert_eq!(w.low, Some(dec("90")), "low is a min across venues");
    assert_eq!(w.samples, 400);
    assert_eq!(w.mean, Some(dec("103")));
    assert_eq!(w.range_bps, Some(dec("2912.6214")));

    assert_eq!(w.trusted_ms_floor, 40_000);
    assert_eq!(w.integrity_floor, Some(Integrity::OrderOnly));
    assert_eq!(w.max_lag_ms, 700);
}

#[test]
fn a_venue_without_the_span_is_excluded_by_name_not_averaged_in() {
    let a = [sampled(
        60_000,
        60_000,
        Integrity::Verified,
        10,
        "110",
        "90",
        "100",
    )];
    let b = [sampled(
        10_000,
        10_000,
        Integrity::GapDetectable,
        10,
        "300",
        "200",
        "250",
    )];
    let legs = [
        WindowLeg {
            venue: VenueId::Kraken,
            lag_ms: 0,
            windows: &a,
        },
        WindowLeg {
            venue: VenueId::Coinbase,
            lag_ms: 0,
            windows: &b,
        },
    ];

    let out = consolidate_windows(&legs);
    assert_eq!(out.len(), 2, "both spans appear; neither absorbs the other");

    let ten = out.iter().find(|w| w.span_ms == 10_000).unwrap();
    assert_eq!(ten.venues_used, 1);
    assert_eq!(
        ten.excluded,
        vec![WindowExclusion {
            venue: VenueId::Kraken,
            reason: WindowExclusionReason::SpanNotPublished,
        }]
    );
    let sixty = out.iter().find(|w| w.span_ms == 60_000).unwrap();
    assert_eq!(
        sixty.high,
        Some(dec("110")),
        "the 10s window's prices leaked in"
    );
    assert_eq!(
        sixty.excluded[0].reason,
        WindowExclusionReason::SpanNotPublished
    );
}

#[test]
fn an_empty_window_is_excluded_and_cannot_drag_the_floor_to_zero() {
    let a = [sampled(
        60_000,
        60_000,
        Integrity::Verified,
        10,
        "110",
        "90",
        "100",
    )];
    let empty = [reading(60_000)];
    let legs = [
        WindowLeg {
            venue: VenueId::Kraken,
            lag_ms: 0,
            windows: &a,
        },
        WindowLeg {
            venue: VenueId::Bitstamp,
            lag_ms: 900,
            windows: &empty,
        },
    ];

    let out = consolidate_windows(&legs);
    let w = &out[0];
    assert_eq!(w.venues_used, 1);
    assert_eq!(w.trusted_ms_floor, 60_000);
    assert_eq!(
        w.max_lag_ms, 0,
        "an excluded venue's lag bounded a reading it contributed nothing to"
    );
    assert_eq!(
        w.excluded,
        vec![WindowExclusion {
            venue: VenueId::Bitstamp,
            reason: WindowExclusionReason::NoData,
        }]
    );
}

#[test]
fn a_trades_only_leg_counts_prints_without_touching_the_price_claims() {
    let a = [sampled(
        60_000,
        60_000,
        Integrity::Verified,
        10,
        "110",
        "90",
        "100",
    )];
    let trades_only = [WindowReading {
        trades: 5,
        volume: Some(dec("2")),
        vwap: Some(dec("101")),
        trusted_ms: 0,
        ..reading(60_000)
    }];
    let legs = [
        WindowLeg {
            venue: VenueId::Kraken,
            lag_ms: 0,
            windows: &a,
        },
        WindowLeg {
            venue: VenueId::Bitstamp,
            lag_ms: 0,
            windows: &trades_only,
        },
    ];

    let out = consolidate_windows(&legs);
    let w = &out[0];
    assert_eq!(w.venues_used, 2);
    assert_eq!(w.trades, 5);
    assert_eq!(w.volume, Some(dec("2")));
    assert_eq!(w.vwap, Some(dec("101")));
    assert_eq!(
        w.integrity_floor,
        Some(Integrity::Verified),
        "a leg that contributed no price weakened the price claim"
    );
    assert_eq!(
        w.trusted_ms_floor, 0,
        "but a used leg's coverage still floors the window — the venue \
         was contributing, and it was untrusted the whole time"
    );
    assert_eq!(w.high, Some(dec("110")));
}

#[test]
fn vwap_merges_volume_weighted_exactly() {
    let a = [WindowReading {
        trades: 4,
        volume: Some(dec("2")),
        vwap: Some(dec("100")),
        ..reading(60_000)
    }];
    let b = [WindowReading {
        trades: 1,
        volume: Some(dec("1")),
        vwap: Some(dec("106")),
        ..reading(60_000)
    }];
    let legs = [
        WindowLeg {
            venue: VenueId::Coinbase,
            lag_ms: 0,
            windows: &a,
        },
        WindowLeg {
            venue: VenueId::Kraken,
            lag_ms: 0,
            windows: &b,
        },
    ];

    let w = &consolidate_windows(&legs)[0];
    assert_eq!(w.trades, 5);
    assert_eq!(w.volume, Some(dec("3")));
    assert_eq!(w.vwap, Some(dec("102")));
    assert_eq!(w.samples, 0);
    assert_eq!(w.mean, None, "no book sampled anywhere; no mean invented");
}

#[test]
fn the_type_refuses_order_dependent_statistics_by_construction() {
    let rendered = format!("{:?}", consolidate_windows(&[]));
    assert!(!rendered.contains("first"));
    assert!(!rendered.contains("change_bps"));
}

#[test]
fn spans_come_out_shortest_first_and_once_each() {
    let a = [
        sampled(60_000, 60_000, Integrity::Verified, 1, "2", "1", "1"),
        sampled(10_000, 10_000, Integrity::Verified, 1, "2", "1", "1"),
    ];
    let b = [sampled(10_000, 10_000, Integrity::Verified, 1, "2", "1", "1")];
    let legs = [
        WindowLeg {
            venue: VenueId::Kraken,
            lag_ms: 0,
            windows: &a,
        },
        WindowLeg {
            venue: VenueId::Coinbase,
            lag_ms: 0,
            windows: &b,
        },
    ];
    let out = consolidate_windows(&legs);
    let spans: Vec<u64> = out.iter().map(|w| w.span_ms).collect();
    assert_eq!(spans, [10_000, 60_000]);
    assert_eq!(try_consolidate_windows(&legs), Ok(out));
}

#[test]
fn a_window_reason_reads_in_words() {
    assert_eq!(
        WindowExclusionReason::SpanNotPublished.describe(),
        "publishes no window of this span"
    );
    assert_eq!(
        WindowExclusionReason::NoData.describe(),
        "no samples or prints in this window"
    );
}
