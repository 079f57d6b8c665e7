#![allow(unused_mut)]

use market_aggregator::event::{EventKind, MarketEvent, Side, SkewObservation, Symbol, VenueId};
use market_aggregator::time::{Clock, Duration, SystemTime, TestClock};

fn event_with_venue_ts(venue_ts: Option<SystemTime>) -> MarketEvent {
    let mut clock = TestClock::new();
    MarketEvent {
        venue: VenueId::Fake,
        symbol: Symbol::new("BTC-USD"),
        venue_ts,
        ingest_ts: clock.now(),
        kind: EventKind::Heartbeat { counter: None },
    }
}

#[test]
fn skew_is_none_when_venue_omits_its_clock() {
    assert!(event_with_venue_ts(None).clock_skew().is_none());
}

#[test]
fn skew_reports_direction() {
    let ev = event_with_venue_ts(None);
    let local = ev.ingest_ts.wall();

    let ahead = MarketEvent {
        venue_ts: Some(local.checked_add(Duration::from_secs(2)).unwrap()),
        ..ev.clone()
    };
    assert_eq!(
        ahead.clock_skew(),
        Some(SkewObservation::VenueAhead(Duration::from_secs(2)))
    );

    let behind = MarketEvent {
        venue_ts: Some(local.checked_sub(Duration::from_secs(3)).unwrap()),
        ..ev
    };
    assert_eq!(
        behind.clock_skew(),
        Some(SkewObservation::VenueBehind(Duration::from_secs(3)))
    );
}

#[test]
fn symbols_compare_by_value_across_clones() {
    assert_eq!(Symbol::new("BTC-USD"), Symbol::new("BTC-USD"));
    assert_ne!(Symbol::new("BTC-USD"), Symbol::new("ETH-USD"));
}

#[test]
fn venue_and_side_names_read_back() {
    for v in [
        VenueId::Coinbase,
        VenueId::Kraken,
        VenueId::Bitstamp,
        VenueId::Fake,
    ] {
        assert_eq!(VenueId::from_name(v.as_str()), Some(v));
    }
    for s in [Side::Bid, Side::Ask] {
        assert_eq!(Side::from_name(s.as_str()), Some(s));
    }
    assert_eq!(VenueId::from_name("gemini"), None);
    assert_eq!(Side::from_name("buy"), None);
}
