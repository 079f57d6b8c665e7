#![allow(unused_mut)]

use market_aggregator::aggregator::{
    describe, Aggregator, BookStatus, Fed, FedMessage, Snapshot, VenueView,
};
use market_aggregator::book::{Book, DesyncReason, Integrity};
use market_aggregator::channel::ChannelMetrics;
use market_aggregator::event::{Level, Symbol, VenueId};
use market_aggregator::metrics::Metrics;
use market_aggregator::stream::StreamId;
use market_aggregator::time::{Clock, Duration, TestClock};

fn symbol() -> Symbol {
    Symbol::new("BTC-USD")
}

fn lv(price: &str, qty: &str) -> Level {
    Level::new(price.parse().unwrap(), qty.parse().unwrap())
}

fn stream(venue: VenueId) -> StreamId {
    StreamId::new(venue, symbol())
}

/// An aggregator, its counters, and a clock; books are built here, as a venue's
/// parser would.
struct Fixture {
    agg: Aggregator,
    metrics: Metrics,
    clock: TestClock,
}

fn aggregator(venues: &[VenueId]) -> Fixture {
    let clock = TestClock::new();
    let settings: Vec<(VenueId, Option<usize>)> = venues.iter().map(|v| (*v, None)).collect();
    let streams: Vec<StreamId> = venues.iter().map(|v| stream(*v)).collect();
    Fixture {
        agg: Aggregator::new(symbol(), &settings, clock.now()),
        metrics: Metrics::new(&streams),
        clock,
    }
}

impl Fixture {
    fn apply(&mut self, venue: VenueId, fed: Fed) {
        let at = self.clock.now();
        self.agg
            .apply(FedMessage::Frame { venue, at, fed }, &mut self.metrics);
    }

    fn end_session(&mut self, venue: VenueId) {
        let at = self.clock.now();
        self.agg
            .apply(FedMessage::SessionEnded { venue, at }, &mut self.metrics);
    }

    fn live(&mut self, venue: VenueId, bid: &str, ask: &str, integrity: Integrity) {
        let mut book = Book::new(venue, symbol());
        book.apply_snapshot(
            &[lv(bid, "1")],
            &[lv(ask, "2")],
            integrity,
            self.clock.now(),
        )
        .unwrap();
        self.apply(
            venue,
            Fed::Updated {
                book,
                heartbeats: 0,
            },
        );
    }

    fn snapshot(&mut self) -> Snapshot {
        let channel = ChannelMetrics {
            len: 0,
            capacity: 1,
            dropped: 0,
        };
        self.agg
            .try_snapshot(&self.metrics, channel, self.clock.now())
            .unwrap()
    }

    fn view(&mut self, venue: VenueId) -> VenueView {
        self.snapshot()
            .venues
            .into_iter()
            .find(|v| v.venue == venue)
            .expect("venue in snapshot")
    }
}

#[test]
fn a_fresh_aggregator_reports_no_data_rather_than_nothing() {
    let mut f = aggregator(&[VenueId::Coinbase, VenueId::Kraken, VenueId::Bitstamp]);
    let snap = f.snapshot();

    assert_eq!(snap.venues.len(), 3);
    assert_eq!(snap.weakest_integrity, None);
    for v in &snap.venues {
        assert_eq!(v.status, BookStatus::Uninitialized);
        assert!(v.integrity.is_none(), "an unsynced book claimed integrity");
        assert!(v.bid.is_none() && v.ask.is_none());
    }
}

#[test]
fn a_snapshot_frame_brings_a_book_live_with_its_integrity() {
    let mut f = aggregator(&[VenueId::Coinbase]);
    f.live(VenueId::Coinbase, "100", "101", Integrity::GapDetectable);

    let v = f.view(VenueId::Coinbase);
    assert_eq!(v.status, BookStatus::Live);
    assert_eq!(v.integrity, Some(Integrity::GapDetectable));
    assert_eq!(v.spread.as_deref(), Some("1"));
    assert_eq!(v.depth, (1, 1));
}

#[test]
fn prices_are_json_strings_not_numbers() {
    let mut f = aggregator(&[VenueId::Coinbase]);
    f.live(
        VenueId::Coinbase,
        "45000.10",
        "45000.20",
        Integrity::GapDetectable,
    );
    let v = f.view(VenueId::Coinbase);
    assert_eq!(
        v.bid.unwrap().price.to_text(),
        "45000.10",
        "price lost its trailing zero"
    );
    assert_eq!(v.spread.as_deref(), Some("0.10"));
}

#[test]
fn a_sequence_gap_desyncs_and_says_why_in_words() {
    let mut f = aggregator(&[VenueId::Coinbase]);
    f.live(VenueId::Coinbase, "100", "101", Integrity::GapDetectable);
    let mut book = Book::new(VenueId::Coinbase, symbol());
    book.mark_desynced(
        DesyncReason::SequenceGap {
            expected: 1,
            got: 7,
        },
        f.clock.now(),
    );
    f.apply(
        VenueId::Coinbase,
        Fed::Updated {
            book,
            heartbeats: 0,
        },
    );

    let v = f.view(VenueId::Coinbase);
    assert_eq!(v.status, BookStatus::Desynced);
    assert!(v.integrity.is_none(), "a desynced book still claimed trust");
    assert_eq!(
        v.desync_reason.as_deref(),
        Some("sequence gap: expected 1, got 7")
    );
    assert_eq!(v.counters.desyncs, 1);
}

#[test]
fn a_session_boundary_resets_the_venue_so_it_can_resync() {
    let mut f = aggregator(&[VenueId::Coinbase]);
    f.live(VenueId::Coinbase, "100", "101", Integrity::GapDetectable);
    assert_eq!(f.view(VenueId::Coinbase).status, BookStatus::Live);

    f.end_session(VenueId::Coinbase);
    assert_eq!(
        f.view(VenueId::Coinbase).status,
        BookStatus::Desynced,
        "a dead connection must make the book untrusted immediately"
    );

    f.live(VenueId::Coinbase, "200", "201", Integrity::GapDetectable);
    let v = f.view(VenueId::Coinbase);
    assert_eq!(v.status, BookStatus::Live, "the book never resynced");
    assert_eq!(v.bid.unwrap().price.to_text(), "200");
}

#[test]
fn time_in_desynced_accumulates_across_separate_outages() {
    let mut f = aggregator(&[VenueId::Coinbase]);
    f.live(VenueId::Coinbase, "100", "101", Integrity::GapDetectable);
    assert_eq!(f.view(VenueId::Coinbase).desynced_total_ms, 0);

    f.end_session(VenueId::Coinbase);
    f.clock.advance(Duration::from_secs(3));
    f.live(VenueId::Coinbase, "100", "101", Integrity::GapDetectable);

    let v = f.view(VenueId::Coinbase);
    assert_eq!(v.status, BookStatus::Live);
    assert_eq!(v.desynced_total_ms, 3_000);

    f.end_session(VenueId::Coinbase);
    f.clock.advance(Duration::from_secs(2));

    let v = f.view(VenueId::Coinbase);
    assert_eq!(v.status, BookStatus::Desynced);
    assert_eq!(
        v.desynced_total_ms, 5_000,
        "an in-progress desync must be included, or a book stuck forever \
         reports the same total as one that recovered"
    );
}

#[test]
fn the_weakest_integrity_is_what_a_combined_view_reports() {
    let mut f = aggregator(&[VenueId::Kraken, VenueId::Bitstamp]);
    f.live(VenueId::Kraken, "100", "101", Integrity::Verified);
    assert_eq!(f.snapshot().weakest_integrity, Some(Integrity::Verified));
    f.live(VenueId::Bitstamp, "100", "101", Integrity::OrderOnly);
    assert_eq!(f.snapshot().weakest_integrity, Some(Integrity::OrderOnly));
    f.end_session(VenueId::Bitstamp);
    assert_eq!(f.snapshot().weakest_integrity, Some(Integrity::Verified));
}

#[test]
fn an_unparseable_frame_is_counted_but_does_not_desync() {
    let mut f = aggregator(&[VenueId::Coinbase]);
    f.live(VenueId::Coinbase, "100", "101", Integrity::GapDetectable);
    f.apply(VenueId::Coinbase, Fed::Unparsed);

    let v = f.view(VenueId::Coinbase);
    assert_eq!(v.status, BookStatus::Live);
    assert_eq!(v.counters.parse_errors, 1);
}

#[test]
fn one_venues_bad_frame_does_not_disturb_another() {
    let mut f = aggregator(&[VenueId::Coinbase, VenueId::Kraken]);
    f.live(VenueId::Coinbase, "100", "101", Integrity::GapDetectable);
    f.apply(VenueId::Kraken, Fed::Unparsed);

    assert_eq!(f.view(VenueId::Coinbase).status, BookStatus::Live);
    assert_eq!(f.view(VenueId::Kraken).counters.parse_errors, 1);
    assert_eq!(f.view(VenueId::Coinbase).counters.parse_errors, 0);
}

#[test]
fn a_frame_for_an_untracked_venue_is_ignored_not_fatal() {
    let mut f = aggregator(&[VenueId::Coinbase]);
    f.live(VenueId::Kraken, "100", "101", Integrity::Verified);
    let snap = f.snapshot();
    assert_eq!(snap.venues.len(), 1);
    assert_eq!(snap.venues[0].status, BookStatus::Uninitialized);
}

#[test]
fn sequence_numbers_increase_so_a_lagged_client_can_measure_its_jump() {
    let mut f = aggregator(&[VenueId::Coinbase]);
    let a = f.snapshot().seq;
    let b = f.snapshot().seq;
    assert_eq!(b, a + 1);
}

#[test]
fn every_snapshot_names_the_clock_its_durations_use() {
    let mut f = aggregator(&[VenueId::Coinbase]);
    assert_eq!(f.snapshot().clock, "ingest_monotonic");
}

#[test]
fn reasons_read_in_words() {
    assert_eq!(describe(DesyncReason::ConnectionLost), "connection lost");
    assert_eq!(
        describe(DesyncReason::ChecksumMismatch {
            expected: 1,
            computed: 2
        }),
        "checksum mismatch: venue said 1, we computed 2"
    );
}

#[test]
fn a_venue_that_was_not_registered_counts_for_itself() {
    let mut f = aggregator(&[VenueId::Coinbase, VenueId::Kraken]);
    f.metrics = Metrics::new(&[stream(VenueId::Coinbase)]);
    f.apply(VenueId::Kraken, Fed::Unparsed);
    f.apply(VenueId::Kraken, Fed::Unparsed);
    f.apply(VenueId::Coinbase, Fed::Unparsed);

    assert_eq!(f.view(VenueId::Kraken).counters.parse_errors, 2);
    let again = f.view(VenueId::Kraken);
    assert_eq!(again.counters.parse_errors, 2);
    assert_eq!(again.previous.parse_errors, 2);
    assert_eq!(f.view(VenueId::Coinbase).counters.parse_errors, 1);
}

#[test]
fn a_snapshot_claims_what_its_books_do() {
    let mut f = aggregator(&[VenueId::Coinbase, VenueId::Kraken, VenueId::Bitstamp]);
    f.live(VenueId::Coinbase, "100", "101", Integrity::GapDetectable);
    f.live(VenueId::Kraken, "100", "101", Integrity::Verified);
    f.end_session(VenueId::Kraken);

    let first = f.snapshot();
    assert_eq!(first.venues.len(), 3);
    for v in &first.venues {
        assert_eq!(v.integrity.is_some(), v.status == BookStatus::Live);
        assert_eq!(v.desync_reason.is_some(), v.status == BookStatus::Desynced);
    }
    assert_eq!(first.weakest_integrity, Some(Integrity::GapDetectable));

    f.apply(VenueId::Coinbase, Fed::Unparsed);
    let second = f.snapshot();
    assert_eq!(second.seq, first.seq + 1);
    for (then, now) in first.venues.iter().zip(second.venues.iter()) {
        assert_eq!(now.venue, then.venue);
        assert_eq!(now.previous, then.counters);
    }
    assert_eq!(second.venues[0].counters.parse_errors, 1);
    assert_eq!(second.venues[0].previous.parse_errors, 0);
}

#[test]
fn a_copied_snapshot_shows_the_same() {
    let mut f = aggregator(&[VenueId::Coinbase]);
    f.live(VenueId::Coinbase, "100", "101", Integrity::GapDetectable);
    let snap = f.snapshot();
    assert_eq!(format!("{:?}", snap.clone()), format!("{snap:?}"));
    f.end_session(VenueId::Coinbase);
    let view = f.view(VenueId::Coinbase);
    assert_eq!(format!("{:?}", view.clone()), format!("{view:?}"));
    assert_eq!(view.desync_reason.as_deref(), Some("connection lost"));
}
