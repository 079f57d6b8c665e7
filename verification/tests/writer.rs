#![allow(unused_mut)]

use std::collections::BTreeMap;

use market_aggregator::calendar::{civil_from_days, date_hour};
use market_aggregator::counters::ArchiveCounters;
use market_aggregator::decode::decode;
use market_aggregator::event::{EventKind, Level, MarketEvent, Symbol, VenueId};
use market_aggregator::keys::{into_prefix, next_part, partition_name, partition_of};
use market_aggregator::kind;
use market_aggregator::price::{Price, Qty};
use market_aggregator::record::flatten;
use market_aggregator::store::{listing, StoreError};
use market_aggregator::time::{Duration, IngestTime, Instant, SystemTime};
use market_aggregator::writer::{
    finished, window_of, AppendStep, EventWriter, FinishedFile, WriteError, WriterConfig,
};

fn lv(price: &str, qty: &str) -> Level {
    Level::new(price.parse::<Price>().unwrap(), qty.parse::<Qty>().unwrap())
}

/// A wall-clock second; the monotonic clock stands still.
fn at(unix_secs: u64) -> IngestTime {
    IngestTime::new(Instant::from_nanos(1_000), unix_time(unix_secs))
}

fn unix_time(secs: u64) -> SystemTime {
    SystemTime::epoch()
        .checked_add(Duration::from_secs(secs))
        .unwrap()
}

/// An archive in memory.
#[derive(Default)]
struct Archive {
    objects: BTreeMap<String, Vec<u8>>,
    refuses_writes: bool,
    refuses_listings: bool,
}

impl Archive {
    fn refused(key: &str) -> WriteError {
        WriteError::Store(StoreError::Rejected {
            key: key.to_owned(),
            message: "refused".to_owned(),
        })
    }

    fn put(&mut self, key: &str, bytes: Vec<u8>) -> Result<(), WriteError> {
        if self.refuses_writes {
            return Err(Archive::refused(key));
        }
        self.objects.insert(key.to_owned(), bytes);
        Ok(())
    }

    fn list(&self, prefix: &str) -> Result<Vec<String>, WriteError> {
        if self.refuses_listings {
            return Err(Archive::refused(prefix));
        }
        let found: Vec<String> = self.objects.keys().cloned().collect();
        Ok(listing(&found, prefix))
    }

    fn store(&mut self, writer: &mut EventWriter, file: FinishedFile) -> Result<(), WriteError> {
        let (rows, size) = (file.rows(), file.bytes().len() as u64);
        let key = file.key().to_owned();
        self.put(&key, file.into_bytes())?;
        writer.note_stored(rows, size);
        Ok(())
    }

    fn append(&mut self, writer: &mut EventWriter, event: &MarketEvent) -> Result<(), WriteError> {
        loop {
            assert!(writer.accepts(event));
            match writer.append_step(event)? {
                AppendStep::Store(file) => self.store(writer, file)?,
                AppendStep::List(dir) => {
                    let existing = self.list(&dir)?;
                    writer.note_listing(&dir, &existing);
                }
                AppendStep::Appended => return Ok(()),
            }
        }
    }

    fn close(&mut self, writer: &mut EventWriter) {
        while let Some(finished) = writer.close_step() {
            if let Ok(file) = finished {
                if self.store(writer, file).is_err() {
                    writer.note_failure();
                }
            }
        }
    }

    fn run(&mut self, writer: &mut EventWriter, events: &[MarketEvent]) {
        for event in events {
            if self.append(writer, event).is_err() {
                writer.note_failure();
            }
        }
        self.close(writer);
    }
}

fn event(kind: EventKind, ingest_ts: IngestTime) -> MarketEvent {
    MarketEvent {
        venue: VenueId::Coinbase,
        symbol: Symbol::new("BTC-USD"),
        venue_ts: None,
        ingest_ts,
        kind,
    }
}

#[test]
fn a_snapshot_becomes_one_row_per_level_on_both_sides() {
    let rows = flatten(
        &event(
            EventKind::Snapshot {
                bids: vec![lv("100", "1"), lv("99", "2")],
                asks: vec![lv("101", "3")],
            },
            at(0),
        ),
        7,
        at(0),
    );

    assert_eq!(rows.len(), 3);
    assert!(rows.iter().all(|r| r.event_seq == 7), "rows must group");
    assert!(rows.iter().all(|r| r.kind == kind::SNAPSHOT));
    assert_eq!(rows[0].side, Some("bid".to_owned()));
    assert_eq!(rows[0].level_index, Some(0));
    assert_eq!(rows[1].level_index, Some(1));
    assert_eq!(rows[2].side, Some("ask".to_owned()));
    assert_eq!(rows[2].level_index, Some(0));
}

#[test]
fn prices_are_written_as_the_exact_digits_the_venue_sent() {
    let rows = flatten(
        &event(
            EventKind::Delta {
                bids: vec![lv("0.00100000", "45000.10")],
                asks: vec![],
            },
            at(0),
        ),
        1,
        at(0),
    );
    assert_eq!(rows[0].price.as_deref(), Some("0.00100000"));
    assert_eq!(rows[0].qty.as_deref(), Some("45000.10"));
}

#[test]
fn an_event_with_no_levels_still_produces_exactly_one_row() {
    for kind in [
        EventKind::Heartbeat { counter: Some(9) },
        EventKind::Checksum { value: 42 },
        EventKind::Delta {
            bids: vec![],
            asks: vec![],
        },
    ] {
        let rows = flatten(&event(kind.clone(), at(0)), 1, at(0));
        assert_eq!(rows.len(), 1, "{kind:?} produced {} rows", rows.len());
    }
}

#[test]
fn a_checksum_survives_into_the_record() {
    let rows = flatten(
        &event(EventKind::Checksum { value: 994_251_236 }, at(0)),
        1,
        at(0),
    );
    assert_eq!(rows[0].checksum, Some(994_251_236));
    assert_eq!(rows[0].kind, kind::CHECKSUM);
}

#[test]
fn utc_dates_and_hours_are_derived_correctly() {
    assert_eq!(date_hour(SystemTime::epoch()), ("1970-01-01".into(), 0));
    assert_eq!(
        date_hour(unix_time(1_786_247_231)),
        ("2026-08-09".into(), 3)
    );
    assert_eq!(
        date_hour(unix_time(1_709_164_800)),
        ("2024-02-29".into(), 0)
    );
}

#[test]
fn crossing_an_hour_boundary_rolls_the_file() {
    let mut store = Archive::default();
    let mut writer = EventWriter::new("events");

    let before = 1_786_247_999;
    let after = 1_786_248_000;
    store.append(&mut writer, &event(EventKind::Heartbeat { counter: None }, at(before))).unwrap();
    store.append(&mut writer, &event(EventKind::Heartbeat { counter: None }, at(after))).unwrap();
    store.close(&mut writer);

    let keys = store.list("events/").unwrap();
    assert_eq!(keys.len(), 2, "the hour boundary did not roll: {keys:?}");
    assert!(keys[0].contains("hour=03"), "{keys:?}");
    assert!(keys[1].contains("hour=04"), "{keys:?}");
    assert_eq!(writer.files_written(), 2);
}

#[test]
fn events_inside_one_hour_share_a_file() {
    let mut store = Archive::default();
    let mut writer = EventWriter::new("events");

    for i in 0..50 {
        store.append(&mut writer, &event(
            EventKind::Heartbeat { counter: Some(i) },
            at(1_786_247_000 + i),
        )).unwrap();
    }
    store.close(&mut writer);

    let keys = store.list("events/").unwrap();
    assert_eq!(keys.len(), 1, "one hour produced several files: {keys:?}");
    assert_eq!(writer.rows_written(), 50);
}

#[test]
fn a_long_quiet_hour_still_lands_parts_on_disk() {
    let mut store = Archive::default();
    let mut writer = EventWriter::new("events").with_config(WriterConfig {
        roll_every: Duration::from_secs(3600),
        max_open: Duration::from_secs(60),
        ..WriterConfig::default()
    });

    let origin = at(1_786_244_400);
    for i in 0..20_u64 {
        store.append(&mut writer, &MarketEvent {
            ingest_ts: origin.advanced_by(Duration::from_secs(i * 60)),
            ..event(EventKind::Heartbeat { counter: Some(i) }, origin)
        }).unwrap();
    }

    let keys = store.list("events/").unwrap();
    assert!(
        keys.len() >= 15,
        "twenty minutes at a one-minute bound produced only {} parts: {keys:?}",
        keys.len()
    );
    assert!(
        keys.iter().all(|k| k.contains("hour=")),
        "parts escaped their hour partition: {keys:?}"
    );
    let hours: std::collections::BTreeSet<&str> = keys
        .iter()
        .filter_map(|k| k.split("/part-").next())
        .collect();
    assert_eq!(
        hours.len(),
        1,
        "one hour was split across partitions: {keys:?}"
    );
}

#[test]
fn parts_within_an_hour_have_distinct_keys() {
    let mut store = Archive::default();
    let mut writer = EventWriter::new("events").with_config(WriterConfig {
        max_open: Duration::from_secs(1),
        ..WriterConfig::default()
    });

    let origin = at(1_786_247_000);
    for i in 0..5_u64 {
        store.append(&mut writer, &MarketEvent {
            ingest_ts: origin.advanced_by(Duration::from_secs(i * 2)),
            ..event(EventKind::Heartbeat { counter: Some(i) }, origin)
        }).unwrap();
    }
    store.close(&mut writer);

    let keys = store.list("events/").unwrap();
    let unique: std::collections::BTreeSet<_> = keys.iter().collect();
    assert_eq!(unique.len(), keys.len(), "part keys collided: {keys:?}");
    assert_eq!(writer.rows_written(), 5, "a part overwrote another");
}

#[test]
fn a_failed_final_upload_is_counted_not_silent() {
    let mut store = Archive {
        refuses_writes: true,
        ..Archive::default()
    };
    let mut writer = EventWriter::new("events").with_counters(ArchiveCounters::default());
    store.run(
        &mut writer,
        &[event(
            EventKind::Heartbeat { counter: None },
            at(1_786_247_000),
        )],
    );

    assert_eq!(
        writer.files_written(),
        0,
        "a rejected put counted as written"
    );
    assert_eq!(
        writer.counters().write_failures(),
        1,
        "the failure was not counted"
    );
}

#[test]
fn a_failed_mid_run_roll_is_counted_not_silent() {
    let mut store = Archive {
        refuses_writes: true,
        ..Archive::default()
    };
    let mut writer = EventWriter::new("events");
    store.run(
        &mut writer,
        &[
            event(EventKind::Heartbeat { counter: None }, at(1_786_247_000)),
            event(EventKind::Heartbeat { counter: None }, at(1_786_251_000)),
        ],
    );

    assert_eq!(writer.files_written(), 0);
    assert!(
        writer.counters().write_failures() >= 1,
        "a roll the store refused went uncounted"
    );
}

#[test]
fn nothing_is_written_until_there_is_something_to_write() {
    let mut store = Archive::default();
    let mut writer = EventWriter::new("events");
    store.close(&mut writer);

    assert!(
        store.list("events/").unwrap()
            .is_empty()
    );
    assert_eq!(writer.files_written(), 0);
}

#[test]
fn each_symbol_lands_in_its_own_partition() {
    let mut store = Archive::default();
    let mut writer = EventWriter::new("events");

    for (i, symbol) in ["BTC-USD", "ETH-USD", "BTC-USD"].into_iter().enumerate() {
        store.append(&mut writer, &MarketEvent {
            symbol: Symbol::new(symbol),
            ..event(
                EventKind::Heartbeat { counter: None },
                at(1_786_247_000 + i as u64),
            )
        }).unwrap();
    }
    store.close(&mut writer);

    let keys = store.list("events/").unwrap();
    assert_eq!(keys.len(), 2, "symbols shared a file: {keys:?}");
    assert!(
        keys.iter().any(|k| k.starts_with("events/symbol=BTC-USD/")),
        "{keys:?}"
    );
    assert!(
        keys.iter().any(|k| k.starts_with("events/symbol=ETH-USD/")),
        "{keys:?}"
    );
    assert!(
        keys.iter()
            .all(|k| k.contains("/date=") && k.contains("/hour=")),
        "the date and hour partitions were lost: {keys:?}"
    );
}

#[test]
fn one_symbols_hour_boundary_does_not_roll_another() {
    let mut store = Archive::default();
    let mut writer = EventWriter::new("events");

    let before = 1_786_247_999;
    let after = 1_786_248_000;
    for (symbol, secs) in [("BTC-USD", before), ("ETH-USD", before), ("BTC-USD", after)] {
        store.append(&mut writer, &MarketEvent {
            symbol: Symbol::new(symbol),
            ..event(EventKind::Heartbeat { counter: None }, at(secs))
        }).unwrap();
    }
    store.close(&mut writer);

    let keys = store.list("events/").unwrap();
    let btc: Vec<&String> = keys
        .iter()
        .filter(|k| k.contains("symbol=BTC-USD"))
        .collect();
    let eth: Vec<&String> = keys
        .iter()
        .filter(|k| k.contains("symbol=ETH-USD"))
        .collect();

    assert_eq!(btc.len(), 2, "BTC-USD did not roll at the hour: {btc:?}");
    assert!(
        btc[0].contains("hour=03") && btc[1].contains("hour=04"),
        "{btc:?}"
    );
    assert_eq!(
        eth.len(),
        1,
        "another symbol's hour boundary rolled ETH-USD: {eth:?}"
    );
}

#[test]
fn part_numbers_count_up_within_a_partition() {
    let mut store = Archive::default();
    let mut writer = EventWriter::new("events").with_config(WriterConfig {
        max_open: Duration::from_secs(1),
        ..WriterConfig::default()
    });

    let origin = at(1_786_247_000);
    for i in 0..6_u64 {
        store.append(&mut writer, &MarketEvent {
            symbol: Symbol::new(if i % 2 == 0 { "BTC-USD" } else { "ETH-USD" }),
            ingest_ts: origin.advanced_by(Duration::from_secs(i * 2)),
            ..event(EventKind::Heartbeat { counter: Some(i) }, origin)
        }).unwrap();
    }
    store.close(&mut writer);

    let keys = store.list("events/").unwrap();
    for symbol in ["BTC-USD", "ETH-USD"] {
        let parts: Vec<String> = keys
            .iter()
            .filter(|k| k.contains(symbol))
            .filter_map(|k| k.rsplit('/').next().map(str::to_owned))
            .collect();
        assert_eq!(
            parts,
            vec![
                "part-00000.parquet".to_owned(),
                "part-00001.parquet".to_owned(),
                "part-00002.parquet".to_owned(),
            ],
            "{symbol} part numbers are not contiguous"
        );
    }
}

#[test]
fn a_restart_in_the_same_hour_resumes_instead_of_overwriting() {
    let mut store = Archive::default();

    let mut first = EventWriter::new("events");
    store.append(&mut first, &event(
        EventKind::Heartbeat { counter: Some(1) },
        at(1_786_247_000),
    )).unwrap();
    store.close(&mut first);

    let mut second = EventWriter::new("events");
    store.append(&mut second, &event(
        EventKind::Heartbeat { counter: Some(2) },
        at(1_786_247_100),
    )).unwrap();
    store.close(&mut second);

    let keys = store.list("events/").unwrap();
    assert_eq!(
        keys.len(),
        2,
        "the second run overwrote the first's file: {keys:?}"
    );
    assert!(keys[0].ends_with("part-00000.parquet"), "{keys:?}");
    assert!(
        keys[1].ends_with("part-00001.parquet"),
        "the restart did not resume after the existing part: {keys:?}"
    );
    for key in &keys {
        let bytes = &store.objects[key];
        assert!(!bytes.is_empty(), "{key} is empty");
    }
}

#[test]
fn resume_ignores_keys_that_are_not_parts() {
    let mut store = Archive::default();
    let (date, hour) = date_hour(at(1_786_247_000).wall());
    let hour_dir = format!("events/symbol=BTC-USD/date={date}/hour={hour:02}");
    for stray in [
        format!("{hour_dir}/README.txt"),
        format!("{hour_dir}/part-abc.parquet"),
        format!("{hour_dir}/part-00003.parquet"),
    ] {
        store.put(&stray, vec![1]).unwrap();
    }

    let mut writer = EventWriter::new("events");
    store.append(&mut writer, &event(
        EventKind::Heartbeat { counter: None },
        at(1_786_247_000),
    )).unwrap();
    store.close(&mut writer);

    let keys = store.list("events/").unwrap();
    assert!(
        keys.iter().any(|k| k.ends_with("part-00004.parquet")),
        "resume did not continue past the highest parseable part: {keys:?}"
    );
    assert!(
        !keys.iter().any(|k| k.ends_with("part-00000.parquet")),
        "a stray key reset the numbering: {keys:?}"
    );
}

#[test]
fn a_failed_listing_fails_the_write_instead_of_guessing() {
    let mut store = Archive {
        refuses_listings: true,
        ..Archive::default()
    };
    let mut writer = EventWriter::new("events");
    store.run(
        &mut writer,
        &[event(
            EventKind::Heartbeat { counter: None },
            at(1_786_247_000),
        )],
    );

    assert_eq!(writer.files_written(), 0);
    assert_eq!(
        writer.counters().write_failures(),
        1,
        "the refused listing was not counted as a failed write"
    );
}

#[test]
fn next_part_resumes_after_the_highest_existing_number() {
    assert_eq!(next_part(&[]), 0);
    assert_eq!(next_part(&["events/x/part-00000.parquet".to_owned()]), 1);
    assert_eq!(
        next_part(&[
            "events/x/part-00002.parquet".to_owned(),
            "events/x/part-00000.parquet".to_owned(),
            "events/x/README.txt".to_owned(),
            "events/x/part-junk.parquet".to_owned(),
        ]),
        3
    );
}

#[test]
fn a_symbol_cannot_escape_the_prefix() {
    assert_eq!(partition_name("BTC-USD"), "BTC-USD");
    assert_eq!(partition_name("../../etc/passwd"), ".._.._etc_passwd");
    assert!(!partition_name("a/b").contains('/'));
    assert_eq!(partition_name(""), "unknown");
    assert_eq!(partition_name(".."), "unknown");
}

#[test]
fn the_elapsed_column_is_relative_to_the_first_event_not_the_writer() {
    let mut store = Archive::default();
    let mut writer = EventWriter::new("events");
    let first = at(1_786_247_000).advanced_by(Duration::from_secs(60));
    store
        .append(&mut writer, &event(EventKind::Heartbeat { counter: None }, first))
        .unwrap();
    store.close(&mut writer);

    let bytes = store.objects.values().next().unwrap().clone();
    let read = decode(bytes, Instant::from_nanos(0)).unwrap();
    assert_eq!(read[0].elapsed, Duration::zero());

    let rows = flatten(
        &event(EventKind::Heartbeat { counter: None }, first),
        1,
        first,
    );
    assert_eq!(rows[0].ingest_elapsed, 0);
}

#[test]
fn prefixes_lose_their_outer_slashes() {
    assert_eq!(into_prefix("/events/"), "events");
    assert_eq!(into_prefix("a/b"), "a/b");
    let mut store = Archive::default();
    let mut writer = EventWriter::new("/events/");
    store.run(
        &mut writer,
        &[event(
            EventKind::Heartbeat { counter: None },
            at(1_786_247_000),
        )],
    );
    let keys = store.list("").unwrap();
    assert_eq!(
        keys,
        ["events/symbol=BTC-USD/date=2026-08-09/hour=03/part-00000.parquet"]
    );
    assert_eq!(partition_of(&keys[0]), "events/symbol=BTC-USD");
}

#[test]
fn days_are_dated_across_centuries() {
    assert_eq!(civil_from_days(0), (1970, 1, 1));
    assert_eq!(civil_from_days(-1), (1969, 12, 31));
    assert_eq!(civil_from_days(11_016), (2000, 2, 29));
    assert_eq!(civil_from_days(-25_508), (1900, 3, 1));
}

#[test]
fn windows_follow_the_wall_clock() {
    let hour = Duration::from_secs(3600);
    assert_eq!(window_of(unix_time(3_599), hour), 0);
    assert_eq!(window_of(unix_time(3_600), hour), 1);
}

#[test]
fn what_the_parquet_writer_made_decides_the_file() {
    let file = finished("k".to_owned(), 3, Ok(vec![1, 2])).unwrap();
    assert_eq!((file.key(), file.rows()), ("k", 3));
    assert_eq!(file.bytes(), &[1, 2]);

    let failure = parquet::errors::ParquetError::General("full".to_owned());
    assert!(matches!(
        finished("k".to_owned(), 3, Err(failure)),
        Err(WriteError::Parquet(_))
    ));
}

#[test]
fn a_new_part_is_begun_without_fail() {
    let mut writer = EventWriter::new("events");
    let first = event(EventKind::Heartbeat { counter: None }, at(1_786_247_000));
    assert!(writer.accepts(&first));
    match writer.append_step(&first) {
        Ok(AppendStep::List(dir)) => writer.note_listing(&dir, &[]),
        other => panic!("expected a listing, got {other:?}"),
    }
    assert!(writer.accepts(&first));
    assert!(matches!(
        writer.append_step(&first),
        Ok(AppendStep::Appended)
    ));
    assert_eq!(writer.counters().open_files(), 1);
}

#[test]
fn a_finished_file_gives_its_events_back() {
    let mut writer = EventWriter::new("events");
    let first = event(EventKind::Heartbeat { counter: Some(1) }, at(1_786_247_000));
    match writer.append_step(&first) {
        Ok(AppendStep::List(dir)) => writer.note_listing(&dir, &[]),
        other => panic!("{other:?}"),
    }
    assert!(matches!(writer.append_step(&first), Ok(AppendStep::Appended)));
    let file = writer.close_step().unwrap().unwrap();
    assert_eq!(file.rows(), 1);
    let read = file.events(Instant::from_nanos(5)).unwrap();
    assert_eq!(read.len(), 1);
    assert_eq!(read[0].event.kind, first.kind);
    assert!(writer.close_step().is_none());
}
