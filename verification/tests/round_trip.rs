#![allow(unused_mut)]

use std::collections::BTreeMap;

use market_aggregator::decode::{decode, decode_rows, ReadError, StoredEvent};
use market_aggregator::event::{EventKind, Level, MarketEvent, Side, Symbol, VenueId};
use market_aggregator::keys::into_prefix;
use market_aggregator::reader::{EventReader, ReadStep};
use market_aggregator::record::{flatten, rows_of, to_batch, Row};
use market_aggregator::store::{listing, StoreError};
use market_aggregator::time::{Duration, IngestTime, Instant, SystemTime};
use market_aggregator::writer::{
    AppendStep, EventWriter, FinishedFile, WriteError, WriterConfig,
};

fn lv(price: &str, qty: &str) -> Level {
    Level::new(price.parse().unwrap(), qty.parse().unwrap())
}

/// A base observation both clocks are advanced from.
///
/// Advancing *both* matters: `ingest_elapsed` is derived from the monotonic
/// reading, so a helper that only moved the wall clock would produce rows
/// spaced by however long the test itself took to run — which is exactly the
/// confusion `IngestTime` carrying two clocks exists to prevent.
fn base(unix_nanos: u64) -> IngestTime {
    IngestTime::new(
        Instant::from_nanos(5_000_000_000),
        SystemTime::from_unix_nanos(unix_nanos as i64),
    )
}

fn event(venue: VenueId, symbol: &str, kind: EventKind, ingest_ts: IngestTime) -> MarketEvent {
    MarketEvent {
        venue,
        symbol: Symbol::new(symbol),
        venue_ts: None,
        ingest_ts,
        kind,
    }
}

/// One of every kind, across two venues and two symbols.
fn sample() -> Vec<MarketEvent> {
    let origin = base(1_786_247_000_000_000_000);
    let t = |n: u64| origin.advanced_by(Duration::from_millis(n));

    vec![
        event(
            VenueId::Coinbase,
            "BTC-USD",
            EventKind::Snapshot {
                bids: vec![lv("64740.08", "0.41225831"), lv("64740.07", "0.18871297")],
                asks: vec![lv("64740.09", "0.18759049")],
            },
            t(0),
        ),
        event(
            VenueId::Coinbase,
            "BTC-USD",
            EventKind::Delta {
                bids: vec![lv("64740.08", "0")],
                asks: vec![],
            },
            t(1),
        ),
        event(
            VenueId::Kraken,
            "BTC-USD",
            EventKind::Delta {
                bids: vec![lv("0.00100000", "45000.10")],
                asks: vec![lv("64741.39000", "0.030")],
            },
            t(2),
        ),
        event(
            VenueId::Kraken,
            "BTC-USD",
            EventKind::Checksum { value: 994_251_236 },
            t(3),
        ),
        event(
            VenueId::Bitstamp,
            "ETH-USD",
            EventKind::Trade {
                price: "3210.55".parse().unwrap(),
                qty: "1.25".parse().unwrap(),
                taker_side: Some(Side::Ask),
            },
            t(4),
        ),
        event(
            VenueId::Coinbase,
            "BTC-USD",
            EventKind::Heartbeat { counter: Some(77) },
            t(5),
        ),
        event(
            VenueId::Kraken,
            "BTC-USD",
            EventKind::Heartbeat { counter: None },
            t(6),
        ),
        event(
            VenueId::Bitstamp,
            "ETH-USD",
            EventKind::Delta {
                bids: vec![],
                asks: vec![],
            },
            t(7),
        ),
    ]
}

/// Everything about an event that a round trip must preserve. The reconstructed
/// `ingest_ts.mono()` is deliberately excluded: an `Instant` has no meaning
/// across processes, which is the whole reason `elapsed` exists.
fn comparable(e: &MarketEvent) -> String {
    format!(
        "{} {} {:?} venue_ts={:?} wall={:?}",
        e.venue.as_str(),
        e.symbol.as_str(),
        e.kind,
        e.venue_ts,
        e.ingest_ts.wall()
    )
}

/// An archive in memory.
#[derive(Default)]
struct Archive {
    objects: BTreeMap<String, Vec<u8>>,
    refuses_writes: bool,
    refuses_listings: bool,
}

impl Archive {
    fn refused(key: &str) -> WriteError {
        WriteError::Store(StoreError::Rejected {
            key: key.to_owned(),
            message: "refused".to_owned(),
        })
    }

    fn put(&mut self, key: &str, bytes: Vec<u8>) -> Result<(), WriteError> {
        if self.refuses_writes {
            return Err(Archive::refused(key));
        }
        self.objects.insert(key.to_owned(), bytes);
        Ok(())
    }

    fn list(&self, prefix: &str) -> Result<Vec<String>, WriteError> {
        if self.refuses_listings {
            return Err(Archive::refused(prefix));
        }
        let found: Vec<String> = self.objects.keys().cloned().collect();
        Ok(listing(&found, prefix))
    }

    fn store(&mut self, writer: &mut EventWriter, file: FinishedFile) -> Result<(), WriteError> {
        let (rows, size) = (file.rows(), file.bytes().len() as u64);
        let key = file.key().to_owned();
        self.put(&key, file.into_bytes())?;
        writer.note_stored(rows, size);
        Ok(())
    }

    fn append(&mut self, writer: &mut EventWriter, event: &MarketEvent) -> Result<(), WriteError> {
        loop {
            assert!(writer.accepts(event));
            match writer.append_step(event)? {
                AppendStep::Store(file) => self.store(writer, file)?,
                AppendStep::List(dir) => {
                    let existing = self.list(&dir)?;
                    writer.note_listing(&dir, &existing);
                }
                AppendStep::Appended => return Ok(()),
            }
        }
    }

    fn close(&mut self, writer: &mut EventWriter) {
        while let Some(finished) = writer.close_step() {
            if let Ok(file) = finished {
                if self.store(writer, file).is_err() {
                    writer.note_failure();
                }
            }
        }
    }

    fn run(&mut self, writer: &mut EventWriter, events: &[MarketEvent]) {
        for event in events {
            if self.append(writer, event).is_err() {
                writer.note_failure();
            }
        }
        self.close(writer);
    }
}

/// Everything under some prefixes, merged.
fn read_back(store: &Archive, prefixes: &[&str]) -> Vec<StoredEvent> {
    let mut found: Vec<String> = Vec::new();
    for prefix in prefixes {
        let dir = format!("{}/", into_prefix(prefix));
        found.extend(store.list(&dir).unwrap());
    }
    let mut reader = EventReader::over(&found);
    let mut out = Vec::new();
    loop {
        match reader.next_step() {
            ReadStep::Fetch { cursor, key } => {
                let bytes = store.objects[&key].clone();
                reader.supply(cursor, decode(bytes, Instant::from_nanos(77))).unwrap();
            }
            ReadStep::Event(e) => out.push(e),
            ReadStep::Done => return out,
        }
    }
}

fn round_trip(events: &[MarketEvent], config: WriterConfig) -> Vec<StoredEvent> {
    let mut store = Archive::default();
    let mut writer = EventWriter::new("events").with_config(config);
    store.run(&mut writer, events);
    assert_eq!(writer.counters().write_failures(), 0);
    read_back(&store, &["events"])
}

#[test]
fn every_event_kind_survives_a_parquet_round_trip() {
    let original = sample();
    let read = round_trip(&original, WriterConfig::default());

    assert_eq!(
        read.len(),
        original.len(),
        "event count changed: wrote {}, read {}",
        original.len(),
        read.len()
    );

    for (i, (before, after)) in original.iter().zip(read.iter()).enumerate() {
        assert_eq!(
            comparable(before),
            comparable(&after.event),
            "event {i} changed through the round trip"
        );
    }
}

#[test]
fn exact_decimal_digits_survive_including_trailing_zeros() {
    let read = round_trip(&sample(), WriterConfig::default());

    let kraken_delta = read
        .iter()
        .find(|e| {
            e.event.venue == VenueId::Kraken && matches!(e.event.kind, EventKind::Delta { .. })
        })
        .expect("the kraken delta");

    let EventKind::Delta { bids, asks } = &kraken_delta.event.kind else {
        panic!("not a delta");
    };
    assert_eq!(bids[0].price.to_text(), "0.00100000");
    assert_eq!(bids[0].qty.to_text(), "45000.10");
    assert_eq!(asks[0].price.to_text(), "64741.39000");
    assert_eq!(asks[0].qty.to_text(), "0.030");
}

#[test]
fn an_event_split_across_row_groups_is_still_one_event() {
    let big: Vec<Level> = (0..500)
        .map(|i| {
            let price = format!("{}", 64_000 - i);
            Level::new(price.parse().unwrap(), "1.5".parse().unwrap())
        })
        .collect();

    let events = vec![event(
        VenueId::Coinbase,
        "BTC-USD",
        EventKind::Snapshot {
            bids: big.clone(),
            asks: big.iter().rev().copied().collect(),
        },
        base(1_786_247_000_000_000_000),
    )];

    let read = round_trip(
        &events,
        WriterConfig {
            row_group_rows: 64,
            ..WriterConfig::default()
        },
    );

    assert_eq!(read.len(), 1, "one snapshot became {} events", read.len());
    let EventKind::Snapshot { bids, asks } = &read[0].event.kind else {
        panic!("not a snapshot");
    };
    assert_eq!(bids.len(), 500, "levels were lost across a row group");
    assert_eq!(asks.len(), 500);
    assert_eq!(bids[0].price.to_text(), "64000");
    assert_eq!(bids[499].price.to_text(), "63501");
}

#[test]
fn level_order_within_a_side_is_preserved() {
    let events = vec![event(
        VenueId::Kraken,
        "BTC-USD",
        EventKind::Delta {
            bids: vec![lv("100", "1"), lv("102", "2"), lv("101", "3")],
            asks: vec![],
        },
        base(1_786_247_000_000_000_000),
    )];

    let read = round_trip(&events, WriterConfig::default());
    let EventKind::Delta { bids, .. } = &read[0].event.kind else {
        panic!("not a delta");
    };
    let prices: Vec<String> = bids.iter().map(|l| l.price.to_text()).collect();
    assert_eq!(
        prices,
        ["100", "102", "101"],
        "the venue's own ordering was rewritten"
    );
}

#[test]
fn the_elapsed_offsets_reproduce_the_original_spacing() {
    let read = round_trip(&sample(), WriterConfig::default());

    assert_eq!(
        read[0].elapsed,
        Duration::zero(),
        "the first event is the base"
    );
    for (i, e) in read.iter().enumerate() {
        assert_eq!(
            e.elapsed,
            Duration::from_millis(i as u64),
            "event {i} was not spaced as recorded"
        );
    }
}

#[test]
fn events_are_read_back_in_the_order_they_were_written() {
    let origin = base(1_786_244_400_000_000_000);
    let events: Vec<MarketEvent> = (0..6)
        .map(|i| {
            event(
                VenueId::Coinbase,
                "BTC-USD",
                EventKind::Heartbeat { counter: Some(i) },
                origin.advanced_by(Duration::from_secs(3600 * i)),
            )
        })
        .collect();

    let read = round_trip(&events, WriterConfig::default());
    assert_eq!(read.len(), 6);

    let counters: Vec<Option<u64>> = read
        .iter()
        .map(|e| match e.event.kind {
            EventKind::Heartbeat { counter } => counter,
            _ => panic!("not a heartbeat"),
        })
        .collect();
    assert_eq!(
        counters,
        (0..6).map(Some).collect::<Vec<_>>(),
        "six hourly files were read out of order"
    );
}

#[test]
fn the_stream_identity_survives_so_replay_can_route() {
    let read = round_trip(&sample(), WriterConfig::default());

    let keys: Vec<String> = read.iter().map(|e| e.stream.key()).collect();
    assert!(keys.contains(&"coinbase:BTC-USD".to_owned()));
    assert!(keys.contains(&"kraken:BTC-USD".to_owned()));
    assert!(keys.contains(&"bitstamp:ETH-USD".to_owned()));

    for e in &read {
        assert_eq!(e.stream.venue, e.event.venue);
        assert_eq!(e.stream.symbol, e.event.symbol);
    }
}

#[test]
fn the_checksum_survives_so_a_replayed_book_is_still_verified() {
    let read = round_trip(&sample(), WriterConfig::default());
    let checksum = read
        .iter()
        .find(|e| matches!(e.event.kind, EventKind::Checksum { .. }))
        .expect("the checksum event");

    assert!(matches!(
        checksum.event.kind,
        EventKind::Checksum { value: 994_251_236 }
    ));
}

#[test]
fn two_symbols_read_back_interleaved_rather_than_one_after_the_other() {
    let origin = base(1_786_247_000_000_000_000);
    let events: Vec<MarketEvent> = (0..20_u64)
        .map(|i| {
            event(
                VenueId::Coinbase,
                if i % 2 == 0 { "BTC-USD" } else { "ETH-USD" },
                EventKind::Heartbeat { counter: Some(i) },
                origin.advanced_by(Duration::from_millis(i * 50)),
            )
        })
        .collect();

    let read = round_trip(&events, WriterConfig::default());
    assert_eq!(read.len(), 20);

    let symbols: Vec<String> = read.iter().map(|e| e.event.symbol.as_str().to_owned()).collect();
    let expected: Vec<String> = events.iter().map(|e| e.symbol.as_str().to_owned()).collect();
    assert_eq!(
        symbols, expected,
        "the archive replayed grouped by symbol instead of in the order it was \
         written"
    );

    let counters: Vec<Option<u64>> = read
        .iter()
        .map(|e| match e.event.kind {
            EventKind::Heartbeat { counter } => counter,
            _ => panic!("not a heartbeat"),
        })
        .collect();
    assert_eq!(counters, (0..20).map(Some).collect::<Vec<_>>());
}

#[test]
fn elapsed_offsets_stay_monotonic_across_partitions() {
    let origin = base(1_786_247_000_000_000_000);
    let events: Vec<MarketEvent> = (0..12_u64)
        .map(|i| {
            event(
                VenueId::Kraken,
                ["BTC-USD", "ETH-USD", "SOL-USD"][(i % 3) as usize],
                EventKind::Heartbeat { counter: Some(i) },
                origin.advanced_by(Duration::from_millis(i * 100)),
            )
        })
        .collect();

    let read = round_trip(&events, WriterConfig::default());
    let offsets: Vec<Duration> = read.iter().map(|e| e.elapsed).collect();

    assert_eq!(offsets.len(), 12);
    assert!(
        offsets.windows(2).all(|w| w[0] <= w[1]),
        "elapsed went backwards across the merge: {offsets:?}"
    );
    assert_eq!(offsets[0], Duration::zero());
    assert_eq!(offsets[11], Duration::from_millis(1100));
}

#[test]
fn an_archive_written_before_symbol_partitioning_still_reads() {
    let mut store = Archive::default();
    let mut writer = EventWriter::new("staging");
    store.run(&mut writer, &sample());

    let staged = store.list("staging/").unwrap();
    assert!(!staged.is_empty());
    for (i, key) in staged.iter().enumerate() {
        let bytes = store.objects[key].clone();
        store
            .put(
                &format!("legacy/date=2026-08-09/hour=03/part-{i:05}.parquet"),
                bytes,
            )
            .unwrap();
    }

    let read = read_back(&store, &["legacy"]);

    assert_eq!(
        read.len(),
        sample().len(),
        "an archive in the older layout did not read back"
    );
    let symbols: std::collections::BTreeSet<String> =
        read.iter().map(|e| e.event.symbol.as_str().to_owned()).collect();
    assert!(symbols.contains("BTC-USD") && symbols.contains("ETH-USD"));
}

/// Archive two nodes' shares under their own prefixes, each written by its own
/// `EventWriter` so their `elapsed` origins are genuinely independent.
///
/// `later_by` is what makes this a cluster rather than two copies: node B's
/// session starts well after node A's, so its offsets restart from zero at a
/// point where node A is already far along.
fn two_node_archive(later_by: Duration) -> Archive {
    let mut store = Archive::default();
    let origin = base(1_786_247_000_000_000_000);

    for (prefix, symbol, offset) in [
        ("node-a/events", "BTC-USD", Duration::zero()),
        ("node-b/events", "ETH-USD", later_by),
    ] {
        let mut writer = EventWriter::new(prefix);
        let events: Vec<MarketEvent> = (0..4_u64)
            .map(|i| {
                event(
                    VenueId::Coinbase,
                    symbol,
                    EventKind::Heartbeat { counter: Some(i) },
                    origin.advanced_by(offset.saturating_add(Duration::from_millis(i * 100))),
                )
            })
            .collect();
        store.run(&mut writer, &events);
    }

    store
}

#[test]
fn an_hour_two_nodes_wrote_reads_back_as_one_session() {
    let store = two_node_archive(Duration::from_secs(1));

    let read = read_back(&store, &["node-a/events", "node-b/events"]);

    assert_eq!(read.len(), 8, "a node's share went missing from the union");

    let walls: Vec<SystemTime> = read.iter().map(|e| e.event.ingest_ts.wall()).collect();
    assert!(
        walls.windows(2).all(|w| w[0] <= w[1]),
        "the union replayed out of wall order: {walls:?}"
    );
    let symbols: Vec<String> = read.iter().map(|e| e.event.symbol.as_str().to_owned()).collect();
    assert_eq!(
        symbols,
        ["BTC-USD"; 4]
            .into_iter()
            .chain(["ETH-USD"; 4])
            .collect::<Vec<_>>()
    );

    let offsets: Vec<Duration> = read.iter().map(|e| e.elapsed).collect();
    assert!(
        offsets.windows(2).any(|w| w[0] > w[1]),
        "expected elapsed to restart across the node boundary, got {offsets:?}"
    );
}

#[test]
fn overlapping_prefixes_read_each_file_once() {
    let store = two_node_archive(Duration::from_secs(1));

    let read = read_back(&store, &["node-a/events", "node-a/events/symbol=BTC-USD", "node-a"]);

    assert_eq!(read.len(), 4, "an overlapping prefix replayed events twice");
}

/// A file of rows with one thing wrong.
fn rows() -> Vec<Row> {
    flatten(
        &event(
            VenueId::Coinbase,
            "BTC-USD",
            EventKind::Trade {
                price: "10".parse().unwrap(),
                qty: "1".parse().unwrap(),
                taker_side: Some(Side::Bid),
            },
            base(1_786_247_000_000_000_000),
        ),
        1,
        base(1_786_247_000_000_000_000),
    )
}

#[test]
fn bytes_that_are_no_file_are_refused() {
    let err = decode(vec![1, 2, 3], Instant::from_nanos(0)).unwrap_err();
    assert!(matches!(err, ReadError::Parquet(_)), "{err:?}");
}

#[test]
fn an_unknown_name_is_refused_with_its_row() {
    let mut bad = rows();
    bad[0].venue = "gemini".to_owned();
    match decode_rows(&bad, Instant::from_nanos(0)) {
        Err(ReadError::Unknown { row, field, value }) => {
            assert_eq!((row, field, value.as_str()), (0, "venue", "gemini"));
        }
        other => panic!("expected an unknown venue, got {other:?}"),
    }

    let mut bad = rows();
    bad[0].kind = "surprise".to_owned();
    assert!(matches!(
        decode_rows(&bad, Instant::from_nanos(0)),
        Err(ReadError::Unknown { field: "kind", .. })
    ));
}

#[test]
fn a_trade_without_a_price_is_incomplete() {
    let mut bad = rows();
    bad[0].price = None;
    match decode_rows(&bad, Instant::from_nanos(0)) {
        Err(ReadError::Incomplete { row, kind, field }) => {
            assert_eq!((row, kind.as_str(), field), (0, "trade", "price"));
        }
        other => panic!("expected an incomplete trade, got {other:?}"),
    }
}

#[test]
fn a_batch_gives_its_rows_back() {
    let was = rows();
    let batch = to_batch(&was).unwrap();
    let again = rows_of(&batch).unwrap();
    assert_eq!(format!("{was:?}"), format!("{again:?}"));
}

#[test]
fn the_venue_clock_survives() {
    let mut e = sample().remove(0);
    e.venue_ts = Some(SystemTime::from_unix_nanos(1_786_246_999_123_456_789));
    let read = round_trip(&[e.clone()], WriterConfig::default());
    assert_eq!(comparable(&e), comparable(&read[0].event));
}

/// Heartbeats at their moments, numbered from a first counter on.
fn beats(symbol: &str, first: u64, moments: &[u64]) -> Vec<MarketEvent> {
    let origin = base(1_786_247_000_000_000_000);
    moments
        .iter()
        .enumerate()
        .map(|(i, ms)| {
            event(
                VenueId::Coinbase,
                symbol,
                EventKind::Heartbeat {
                    counter: Some(first + i as u64),
                },
                origin.advanced_by(Duration::from_millis(*ms)),
            )
        })
        .collect()
}

fn counters(read: &[StoredEvent]) -> Vec<u64> {
    read.iter()
        .map(|e| match e.event.kind {
            EventKind::Heartbeat { counter: Some(n) } => n,
            ref other => panic!("a heartbeat became {other:?}"),
        })
        .collect()
}

#[test]
fn equally_stamped_events_come_back_in_partition_order() {
    let mut events = beats("ETH-USD", 1, &[3, 3]);
    events.extend(beats("BTC-USD", 10, &[3, 3]));
    events.extend(beats("ETH-USD", 3, &[3]));
    events.extend(beats("BTC-USD", 12, &[4]));

    let read = round_trip(&events, WriterConfig::default());
    assert_eq!(counters(&read), [10, 11, 1, 2, 3, 12]);
}

#[test]
fn each_runs_offsets_count_from_its_own_start() {
    let mut store = Archive::default();
    for (prefix, first, moments) in [
        ("events", 1, [0, 5]),
        ("events", 3, [100, 107]),
        ("elsewhere/node-b", 5, [103, 250]),
    ] {
        let mut writer = EventWriter::new(prefix);
        store.run(&mut writer, &beats("BTC-USD", first, &moments));
        assert_eq!(writer.counters().write_failures(), 0);
    }

    let read = read_back(&store, &["events", "elsewhere"]);
    assert_eq!(counters(&read), [1, 2, 3, 5, 4, 6]);
    let offsets: Vec<u128> = read.iter().map(|e| e.elapsed.as_millis()).collect();
    assert_eq!(offsets, [0, 5, 0, 0, 7, 147]);

    let half = read_back(&store, &["elsewhere"]);
    assert_eq!(counters(&half), [5, 6]);
}

#[test]
fn one_hours_directory_gives_just_that_hour() {
    let mut store = Archive::default();
    let mut writer = EventWriter::new("events");
    store.run(&mut writer, &beats("BTC-USD", 1, &[0, 1, 7_200_000, 7_200_005]));

    let keys: Vec<String> = store.objects.keys().cloned().collect();
    assert_eq!(keys.len(), 2, "{keys:?}");
    let (hour, _) = keys[1].rsplit_once('/').unwrap();
    let read = read_back(&store, &[hour]);
    assert_eq!(counters(&read), [3, 4]);
    assert_eq!(read[0].elapsed, Duration::from_secs(7_200));
}
