#![allow(unused_mut)]

use market_aggregator::event::{Symbol, VenueId};
use market_aggregator::stream::{add_stream, contains_stream, StreamId};

fn id(venue: VenueId, symbol: &str) -> StreamId {
    StreamId::new(venue, Symbol::new(symbol))
}

#[test]
fn one_venue_two_symbols_are_two_streams() {
    assert_ne!(
        id(VenueId::Coinbase, "BTC-USD"),
        id(VenueId::Coinbase, "ETH-USD")
    );
    assert_ne!(
        id(VenueId::Coinbase, "BTC-USD"),
        id(VenueId::Kraken, "BTC-USD")
    );
    assert_eq!(
        id(VenueId::Coinbase, "BTC-USD"),
        id(VenueId::Coinbase, "BTC-USD")
    );
}

#[test]
fn streams_order_by_venue_then_symbol() {
    let mut set: Vec<StreamId> = Vec::new();
    for s in [
        id(VenueId::Kraken, "ETH-USD"),
        id(VenueId::Coinbase, "ETH-USD"),
        id(VenueId::Kraken, "BTC-USD"),
        id(VenueId::Coinbase, "BTC-USD"),
    ] {
        add_stream(&mut set, s);
    }

    let order: Vec<String> = set.iter().map(StreamId::key).collect();
    assert_eq!(
        order,
        [
            "coinbase:BTC-USD",
            "coinbase:ETH-USD",
            "kraken:BTC-USD",
            "kraken:ETH-USD"
        ]
    );
}

#[test]
fn adding_a_stream_twice_keeps_one() {
    let mut set: Vec<StreamId> = Vec::new();
    add_stream(&mut set, id(VenueId::Kraken, "ETH-USD"));
    add_stream(&mut set, id(VenueId::Kraken, "ETH-USD"));
    assert_eq!(set.len(), 1);
    assert!(contains_stream(&set, &id(VenueId::Kraken, "ETH-USD")));
    assert!(!contains_stream(&set, &id(VenueId::Coinbase, "ETH-USD")));
}
