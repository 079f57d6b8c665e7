#![allow(unused_mut)]

use market_aggregator::event::{Symbol, VenueId};
use market_aggregator::metrics::{deltas, Metrics, VenueCounters, VenueCountersSnapshot};
use market_aggregator::stream::StreamId;

#[test]
fn counters_start_at_zero_and_count_up() {
    let mut c = VenueCounters::default();
    assert_eq!(c.snapshot(), VenueCountersSnapshot::default());

    c.record_frame(120);
    c.record_frame(80);
    c.record_connect();
    c.record_drop();

    let s = c.snapshot();
    assert_eq!(s.frames, 2);
    assert_eq!(s.bytes, 200);
    assert_eq!(s.connects, 1);
    assert_eq!(s.dropped, 1);
}

#[test]
fn the_first_connection_is_not_a_reconnect() {
    let mut c = VenueCounters::default();
    assert_eq!(c.snapshot().reconnects(), 0, "never connected");
    c.record_connect();
    assert_eq!(c.snapshot().reconnects(), 0, "first connect is not a re-");
    c.record_connect();
    assert_eq!(c.snapshot().reconnects(), 1);
}

fn stream(venue: VenueId, symbol: &str) -> StreamId {
    StreamId::new(venue, Symbol::new(symbol))
}

#[test]
fn counters_are_shared_not_copied() {
    let mut metrics = Metrics::new(&[
        stream(VenueId::Coinbase, "BTC-USD"),
        stream(VenueId::Kraken, "BTC-USD"),
    ]);
    metrics
        .stream_mut(&stream(VenueId::Coinbase, "BTC-USD"))
        .expect("registered")
        .record_frame(10);

    assert_eq!(
        metrics
            .reading(&stream(VenueId::Coinbase, "BTC-USD"), &VenueCounters::default())
            .frames,
        1
    );
    assert_eq!(
        metrics
            .reading(&stream(VenueId::Kraken, "BTC-USD"), &VenueCounters::default())
            .frames,
        0
    );
    assert!(
        metrics
            .stream(&stream(VenueId::Bitstamp, "BTC-USD"))
            .is_none()
    );
}

#[test]
fn two_symbols_on_one_venue_do_not_share_counters() {
    let btc = stream(VenueId::Coinbase, "BTC-USD");
    let eth = stream(VenueId::Coinbase, "ETH-USD");
    let mut metrics = Metrics::new(&[btc.clone(), eth.clone()]);

    metrics.stream_mut(&btc).expect("registered").record_frame(10);
    metrics.stream_mut(&btc).expect("registered").record_frame(10);
    metrics
        .stream_mut(&eth)
        .expect("registered")
        .record_parse_error();

    let snapshot = metrics.snapshot();
    assert_eq!(snapshot.len(), 2);
    assert!(snapshot[0].0 == btc && snapshot[1].0 == eth);
    assert_eq!(snapshot[0].1.frames, 2);
    assert_eq!(snapshot[0].1.parse_errors, 0);
    assert_eq!(snapshot[1].1.frames, 0);
    assert_eq!(snapshot[1].1.parse_errors, 1);
}

#[test]
fn a_counter_going_backwards_counts_as_nothing() {
    let earlier = VenueCountersSnapshot {
        frames: 500,
        bytes: 1_000,
        ..Default::default()
    };
    let later = VenueCountersSnapshot {
        frames: 3,
        bytes: 4_000,
        dropped: 6,
        ..Default::default()
    };
    let d = deltas(earlier, later);
    assert_eq!((d.frames, d.bytes, d.dropped), (0, 3_000, 6));
}

#[test]
fn every_counter_has_its_own_place() {
    let mut c = VenueCounters::default();
    c.record_connect();
    c.record_disconnect();
    c.record_connect_failure();
    c.record_idle_timeout();
    c.record_rest_fetch();
    c.record_rest_failure();
    c.record_parse_error();
    c.record_heartbeat();
    c.record_desync();
    c.record_applied();
    assert_eq!(
        c.snapshot(),
        VenueCountersSnapshot {
            connects: 1,
            disconnects: 1,
            connect_failures: 1,
            idle_timeouts: 1,
            rest_fetches: 1,
            rest_failures: 1,
            parse_errors: 1,
            heartbeats: 1,
            desyncs: 1,
            applied: 1,
            ..VenueCountersSnapshot::default()
        }
    );
}

#[test]
fn a_stream_nobody_registered_reads_as_its_owner_counted() {
    let metrics = Metrics::new(&[]);
    let s = stream(VenueId::Kraken, "BTC-USD");
    let mut own = VenueCounters::default();
    assert_eq!(metrics.reading(&s, &own), VenueCountersSnapshot::default());
    own.record_frame(10);
    assert_eq!(metrics.reading(&s, &own).frames, 1);
    assert!(metrics.streams().is_empty());
}
