use market_aggregator::assign::NodeId;
use market_aggregator::audit::{AuditFinding, AuditOutcome, AuditPolicy, AuditTrail};
use market_aggregator::aws::ScopedBucket;
use market_aggregator::backoff::{EqualJitter, Jitter};
use market_aggregator::book::{Book, Integrity};
use market_aggregator::cross::{consolidate, CrossPolicy};
use market_aggregator::cross_windows::{consolidate_windows, WindowLeg};
use market_aggregator::decimal::Decimal;
use market_aggregator::decode::StoredEvent;
use market_aggregator::event::{EventKind, Level, MarketEvent, Side, Symbol, VenueId};
use market_aggregator::ingest::{IngestMessage, RawFrame};
use market_aggregator::lease::ClusterView;
use market_aggregator::metrics::Metrics;
use market_aggregator::price::{ParseError, Price};
use market_aggregator::registry::{DirRegistry, LeaseTable, MemoryRegistry};
use market_aggregator::resync::ResyncRequests;
use market_aggregator::store::LocalStore;
use market_aggregator::stream::StreamId;
use market_aggregator::tape::{frame_record, TapedFrame};
use market_aggregator::time::{Clock, Duration, IngestTime, TestClock};
use market_aggregator::window::{RollingWindows, WindowReading, WindowSpec};

fn now() -> IngestTime {
    TestClock::new().now()
}

fn lv(price: &str, qty: &str) -> Level {
    Level::new(price.parse().unwrap(), qty.parse().unwrap())
}

fn book() -> Book {
    let mut book = Book::new(VenueId::Kraken, Symbol::new("BTC-USD")).with_max_depth(5);
    book.apply_snapshot(
        &[lv("99", "1"), lv("98", "2")],
        &[lv("100", "3")],
        Integrity::Verified,
        now(),
    )
    .unwrap();
    book
}

/// Two values that show the same.
fn same<T: std::fmt::Debug>(a: &T, b: &T) {
    assert_eq!(format!("{a:?}"), format!("{b:?}"));
}

#[test]
fn a_copied_book_is_a_book_of_its_own() {
    let mut first = book();
    let copy = first.clone();
    same(&copy, &first);

    first
        .apply_snapshot(&[lv("97", "1")], &[lv("101", "1")], Integrity::Verified, now())
        .unwrap();
    assert_eq!(copy.depth(), (2, 1));
    assert_eq!(first.depth(), (1, 1));
}

#[test]
fn copied_windows_go_on_alike() {
    let mut clock = TestClock::new();
    let spec = WindowSpec::new(Duration::from_millis(250), &[Duration::from_secs(1)]);
    assert_eq!(spec.clone(), spec);
    let mut windows = RollingWindows::new(spec, clock.now());
    let top = book().top_of_book(clock.now());
    windows.observe(&top, clock.now());
    let mut copy = windows.clone();
    clock.advance(Duration::from_secs(1));
    assert_eq!(copy.read(clock.now()), windows.read(clock.now()));
}

#[test]
fn copied_audits_keep_their_findings() {
    let outcome = AuditOutcome::Mismatch {
        findings: vec![AuditFinding {
            side: Side::Bid,
            price: "99".parse().unwrap(),
            ours: None,
            theirs: Some("1".parse().unwrap()),
        }],
        compared: 7,
    };
    assert_eq!(outcome.clone(), outcome);
    assert_eq!(
        AuditOutcome::Inconclusive.clone(),
        AuditOutcome::Inconclusive
    );
    let matched = AuditOutcome::Match { compared: 3 };
    assert_eq!(matched.clone(), matched);

    let mut trail = AuditTrail::default();
    let policy = AuditPolicy {
        consecutive_before_desync: 3,
        ..AuditPolicy::default()
    };
    trail.observe(&outcome, policy);
    assert_eq!(trail.clone(), trail);
    assert_eq!(trail.clone().mismatches, 1);
}

#[test]
fn copied_consolidations_keep_who_was_left_out() {
    let crossed = consolidate(
        &[(VenueId::Kraken, book().top_of_book(now()))],
        CrossPolicy::default(),
    );
    assert_eq!(crossed.clone(), crossed);

    let windows = [WindowReading::empty(1_000)];
    let legs = [WindowLeg {
        venue: VenueId::Kraken,
        lag_ms: 4,
        windows: &windows,
    }];
    for merged in consolidate_windows(&legs) {
        assert_eq!(merged.clone(), merged);
    }
}

#[test]
fn copied_records_hold_the_same() {
    let stored = StoredEvent {
        stream: StreamId::new(VenueId::Kraken, Symbol::new("BTC-USD")),
        event: MarketEvent {
            venue: VenueId::Kraken,
            symbol: Symbol::new("BTC-USD"),
            venue_ts: None,
            ingest_ts: now(),
            kind: EventKind::Checksum { value: 5 },
        },
        elapsed: Duration::from_millis(3),
    };
    assert_eq!(stored.clone(), stored);

    let frame = RawFrame::new(VenueId::Kraken, b"{}".to_vec(), now());
    same(&frame.clone(), &frame);
    let taped = TapedFrame::from_record(&frame_record(&frame, now()).unwrap());
    assert_eq!(taped.clone(), taped);
    let message = IngestMessage::Frame(frame);
    same(&message.clone(), &message);

    let view = ClusterView {
        node: NodeId::new("a"),
        members: vec![NodeId::new("a"), NodeId::new("b")],
        owned: vec!["coinbase:BTC-USD".to_owned()],
        elsewhere: vec![],
        settling: false,
        stood_down: true,
        last_contact_ms: Some(4),
    };
    assert_eq!(view.clone(), view);
}

#[test]
fn copied_places_are_the_same_places() {
    let registry = DirRegistry::new("/var/cluster");
    assert_eq!(registry.clone().root, registry.root);
    let store = LocalStore::new("/var/archive");
    assert_eq!(store.clone().root, store.root);
    let bucket = ScopedBucket::scoped("my-bucket", "market-data/events").unwrap();
    same(&bucket.clone(), &bucket);
}

#[test]
fn a_copied_picker_goes_on_where_the_other_does() {
    let mut jitter = EqualJitter::seeded(0xBEEF);
    jitter.next_u64();
    let mut copy = jitter.clone();
    for _ in 0..5 {
        let ceiling = Duration::from_secs(2);
        assert_eq!(copy.sample(ceiling), jitter.sample(ceiling));
    }
}

#[test]
fn a_copied_refusal_says_the_same() {
    let not_decimal = "abc".parse::<Price>().unwrap_err();
    assert_eq!(not_decimal.clone(), not_decimal);
    let negative = ParseError::NegativeQty(Decimal::parse("-1").unwrap());
    assert_eq!(negative.clone().message(), negative.message());
}

#[test]
fn names_order_as_their_texts_do() {
    assert!(NodeId::new("a") < NodeId::new("b"));
    assert!(Symbol::new("BTC-USD") < Symbol::new("ETH-USD"));
    let btc = StreamId::new(VenueId::Coinbase, Symbol::new("BTC-USD"));
    let eth = StreamId::new(VenueId::Coinbase, Symbol::new("ETH-USD"));
    let kraken = StreamId::new(VenueId::Kraken, Symbol::new("BTC-USD"));
    let streams: std::collections::BTreeSet<StreamId> =
        [kraken.clone(), eth.clone(), btc.clone(), eth.clone()].into_iter().collect();
    assert_eq!(streams.into_iter().collect::<Vec<_>>(), [btc, eth, kraken]);
}

#[test]
fn defaults_hold_nothing() {
    let stream = StreamId::new(VenueId::Kraken, Symbol::new("BTC-USD"));
    assert!(Metrics::default().stream(&stream).is_none());
    assert!(ResyncRequests::default().subscribe(&stream).is_none());
    let table = LeaseTable::new();
    assert!(MemoryRegistry::default().members(&table).unwrap().is_empty());
}
