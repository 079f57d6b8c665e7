#![allow(unused_mut)]

use market_aggregator::event::{Symbol, VenueId};
use market_aggregator::resync::ResyncRequests;
use market_aggregator::stream::StreamId;

fn stream(venue: VenueId) -> StreamId {
    StreamId::new(venue, Symbol::new("BTC-USD"))
}

#[test]
fn a_request_wakes_a_waiting_ingest_task() {
    let mut requests = ResyncRequests::new(&[stream(VenueId::Coinbase)]);
    let mut signal = requests
        .subscribe(&stream(VenueId::Coinbase))
        .expect("registered");
    assert!(!signal.take(&requests));
    assert!(requests.request(&stream(VenueId::Coinbase)));
    assert!(
        signal.take(&requests),
        "the signal did not wake the waiter"
    );
}

#[test]
fn a_request_made_before_anyone_waits_is_not_lost() {
    let mut requests = ResyncRequests::new(&[stream(VenueId::Kraken)]);
    let mut signal = requests
        .subscribe(&stream(VenueId::Kraken))
        .expect("registered");
    requests.request(&stream(VenueId::Kraken));
    assert!(signal.take(&requests));
}

#[test]
fn repeated_requests_during_one_outage_coalesce() {
    let mut requests = ResyncRequests::new(&[stream(VenueId::Coinbase)]);
    let mut signal = requests
        .subscribe(&stream(VenueId::Coinbase))
        .expect("registered");
    for _ in 0..50 {
        requests.request(&stream(VenueId::Coinbase));
    }

    assert!(signal.take(&requests));
    assert!(
        !signal.take(&requests),
        "50 requests should have collapsed into one observation"
    );
    assert_eq!(requests.requested(&stream(VenueId::Coinbase)), 50);
}

#[test]
fn one_symbols_resync_does_not_reconnect_another() {
    let btc = StreamId::new(VenueId::Coinbase, Symbol::new("BTC-USD"));
    let eth = StreamId::new(VenueId::Coinbase, Symbol::new("ETH-USD"));
    let mut requests = ResyncRequests::new(&[btc.clone(), eth.clone()]);
    let mut eth_signal = requests.subscribe(&eth).expect("registered");

    requests.request(&btc);

    assert_eq!(requests.requested(&btc), 1);
    assert_eq!(requests.requested(&eth), 0);
    assert!(
        !eth_signal.take(&requests),
        "ETH-USD's ingest task was woken by BTC-USD's desync"
    );
}

#[test]
fn an_unregistered_venue_is_a_no_op_not_a_panic() {
    let mut requests = ResyncRequests::new(&[stream(VenueId::Coinbase)]);
    assert!(!requests.request(&stream(VenueId::Bitstamp)));
    assert!(requests.subscribe(&stream(VenueId::Bitstamp)).is_none());
}

#[test]
fn a_venue_with_no_listener_reports_that_nobody_heard() {
    let mut requests = ResyncRequests::new(&[stream(VenueId::Coinbase)]);
    assert!(
        !requests.request(&stream(VenueId::Coinbase)),
        "registered but unsubscribed should report no listener"
    );
}

#[test]
fn a_listener_that_left_is_not_counted() {
    let mut requests = ResyncRequests::new(&[stream(VenueId::Coinbase)]);
    let signal = requests.subscribe(&stream(VenueId::Coinbase)).unwrap();
    assert!(requests.request(&stream(VenueId::Coinbase)));
    requests.leave(signal);
    assert!(!requests.request(&stream(VenueId::Coinbase)));
}

#[test]
fn a_late_listener_hears_only_what_comes_after() {
    let mut requests = ResyncRequests::new(&[stream(VenueId::Coinbase)]);
    requests.request(&stream(VenueId::Coinbase));
    let mut signal = requests.subscribe(&stream(VenueId::Coinbase)).unwrap();
    assert!(!signal.take(&requests));
}
