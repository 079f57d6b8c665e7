#![allow(unused_mut)]

use market_aggregator::book::{BookState, DesyncReason, Integrity, TopOfBook};
use market_aggregator::decimal::Decimal;
use market_aggregator::event::Level;
use market_aggregator::price::{Price, Qty};
use market_aggregator::time::{Clock, Duration, IngestTime, TestClock};
use market_aggregator::window::{buckets_for, RollingWindows, WindowReading, WindowSpec};

fn dec(s: &str) -> Decimal {
    Decimal::parse(s).unwrap()
}

fn level(price: &str) -> Level {
    Level::new(Price::from_text(price).unwrap(), Qty::from_text("1").unwrap())
}

fn live(bid: &str, ask: &str, at: IngestTime) -> TopOfBook {
    TopOfBook {
        bid: Some(level(bid)),
        ask: Some(level(ask)),
        state: BookState::Live {
            integrity: Integrity::Verified,
            since: at,
            last_verified: None,
        },
        age: None,
    }
}

fn desynced(at: IngestTime) -> TopOfBook {
    TopOfBook {
        bid: None,
        ask: None,
        state: BookState::Desynced {
            since: at,
            reason: DesyncReason::ConnectionLost,
        },
        age: None,
    }
}

/// 250ms buckets, one 1s window: four buckets, and every test below can
/// name exact bucket boundaries.
fn windows(clock: &TestClock) -> RollingWindows {
    RollingWindows::new(
        WindowSpec::new(Duration::from_millis(250), &[Duration::from_secs(1)]),
        clock.now(),
    )
}

fn only(readings: Vec<WindowReading>) -> WindowReading {
    assert_eq!(readings.len(), 1);
    readings.into_iter().next().unwrap()
}

#[test]
fn trades_are_counted_summed_and_vwap_weighted() {
    let mut clock = TestClock::new();
    let mut w = windows(&clock);

    w.observe_trade(dec("100"), dec("2"), clock.now());
    w.observe_trade(dec("130"), dec("1"), clock.now());

    clock.advance(Duration::from_millis(500));
    let r = only(w.read(clock.now()));

    assert_eq!(r.trades, 2);
    assert_eq!(r.volume, Some(dec("3")));
    assert_eq!(r.vwap, Some(dec("110")));
}

#[test]
fn a_window_with_no_trades_has_no_volume_not_zero_volume() {
    let mut clock = TestClock::new();
    let mut w = windows(&clock);
    w.observe(&live("100", "101", clock.now()), clock.now());
    clock.advance(Duration::from_millis(500));

    let r = only(w.read(clock.now()));
    assert!(r.samples > 0, "the book sample must have landed");
    assert_eq!(r.trades, 0);
    assert_eq!(r.volume, None, "no prints is no data, not zero volume");
    assert_eq!(r.vwap, None);
}

#[test]
fn trades_expire_with_the_ring_like_everything_else() {
    let mut clock = TestClock::new();
    let mut w = windows(&clock);
    w.observe_trade(dec("100"), dec("1"), clock.now());

    clock.advance(Duration::from_secs(2));
    let r = only(w.read(clock.now()));
    assert_eq!(r.trades, 0, "a print outlived the window that held it");
    assert_eq!(r.volume, None);
}

#[test]
fn trades_during_untrusted_time_still_count_while_coverage_stays_low() {
    let mut clock = TestClock::new();
    let mut w = windows(&clock);
    w.observe(&desynced(clock.now()), clock.now());
    clock.advance(Duration::from_millis(250));
    w.observe_trade(dec("100"), dec("1"), clock.now());
    clock.advance(Duration::from_millis(750));

    let r = only(w.read(clock.now()));
    assert_eq!(r.trades, 1, "a desynced book still prints trades");
    assert_eq!(r.volume, Some(dec("1")));
    assert_eq!(r.trusted_ms, 0, "counting the print must not invent trust");
    assert_eq!(
        r.high, None,
        "no book-derived number without a trusted sample"
    );
}

#[test]
fn a_window_with_no_data_is_none_everywhere_not_zero() {
    let mut clock = TestClock::new();
    let mut w = windows(&clock);
    clock.advance(Duration::from_secs(2));

    let r = only(w.read(clock.now()));
    assert_eq!(r.samples, 0);
    assert_eq!(r.trusted_ms, 0, "an unstarted book reported coverage");
    assert_eq!(r.high, None);
    assert_eq!(r.low, None);
    assert_eq!(r.mean, None);
    assert_eq!(r.range_bps, None);
}

#[test]
fn high_and_low_come_from_every_update_not_the_tick() {
    let mut clock = TestClock::new();
    let mut w = windows(&clock);

    w.observe(&live("100", "102", clock.now()), clock.now());
    w.observe(&live("110", "112", clock.now()), clock.now());
    w.observe(&live("100", "102", clock.now()), clock.now());

    clock.advance(Duration::from_millis(300));
    let r = only(w.read(clock.now()));

    assert_eq!(r.samples, 3);
    assert_eq!(r.high, Some(dec("111")));
    assert_eq!(r.low, Some(dec("101")));
    assert_eq!(r.first, Some(dec("101")));
    assert_eq!(r.last, Some(dec("101")));
    assert_eq!(r.change_bps, Some(Decimal::zero()));
}

#[test]
fn change_is_signed_and_measured_end_to_end() {
    let mut clock = TestClock::new();
    let mut w = windows(&clock);

    w.observe(&live("999", "1001", clock.now()), clock.now());
    clock.advance(Duration::from_millis(300));
    w.observe(&live("989", "991", clock.now()), clock.now());
    clock.advance(Duration::from_millis(300));

    let r = only(w.read(clock.now()));
    assert_eq!(r.first, Some(dec("1000")));
    assert_eq!(r.last, Some(dec("990")));
    assert_eq!(r.change_bps, Some(dec("-100")));
    assert_eq!(r.range_bps, Some(dec("100.5025")));
}

#[test]
fn a_desynced_stretch_shows_up_as_missing_coverage() {
    let mut clock = TestClock::new();
    let mut w = windows(&clock);

    w.observe(&live("100", "102", clock.now()), clock.now());
    clock.advance(Duration::from_millis(500));
    w.observe(&desynced(clock.now()), clock.now());
    clock.advance(Duration::from_millis(500));

    let r = only(w.read(clock.now()));
    assert_eq!(r.span_ms, 1000);
    assert_eq!(
        r.trusted_ms, 500,
        "a window spanning a desync claimed full coverage"
    );
    assert!(r.is_partial());
    assert_eq!(r.samples, 1);
    assert_eq!(r.high, Some(dec("101")));
}

#[test]
fn a_quiet_but_trusted_book_is_fully_covered() {
    let mut clock = TestClock::new();
    let mut w = windows(&clock);

    w.observe(&live("100", "102", clock.now()), clock.now());
    clock.advance(Duration::from_millis(2000));

    let r = only(w.read(clock.now()));
    assert_eq!(r.trusted_ms, 1000);
    assert!(!r.is_partial());
    assert_eq!(r.samples, 0, "a sample survived past its window");
    assert_eq!(r.high, None);
}

#[test]
fn coverage_is_bounded_by_how_long_the_process_has_run() {
    let mut clock = TestClock::new();
    let mut w = windows(&clock);
    w.observe(&live("100", "102", clock.now()), clock.now());

    clock.advance(Duration::from_millis(500));
    let r = only(w.read(clock.now()));
    assert_eq!(r.span_ms, 1000);
    assert_eq!(
        r.trusted_ms, 500,
        "a young process claimed a full window of coverage"
    );
}

#[test]
fn samples_leave_the_window_when_it_slides_past_them() {
    let mut clock = TestClock::new();
    let mut w = windows(&clock);

    w.observe(&live("100", "102", clock.now()), clock.now());
    clock.advance(Duration::from_millis(500));
    w.observe(&live("200", "202", clock.now()), clock.now());
    clock.advance(Duration::from_millis(500));

    let r = only(w.read(clock.now()));
    assert_eq!(r.samples, 2);
    assert_eq!(r.low, Some(dec("101")));

    clock.advance(Duration::from_millis(500));
    let r = only(w.read(clock.now()));
    assert_eq!(r.samples, 1);
    assert_eq!(r.low, Some(dec("201")), "an expired sample still counted");
}

#[test]
fn the_integrity_floor_is_the_weakest_sample_in_the_window() {
    let mut clock = TestClock::new();
    let mut w = windows(&clock);

    let strong = live("100", "102", clock.now());
    let mut weak = live("100", "102", clock.now());
    weak.state = BookState::Live {
        integrity: Integrity::OrderOnly,
        since: clock.now(),
        last_verified: None,
    };

    w.observe(&strong, clock.now());
    clock.advance(Duration::from_millis(300));
    w.observe(&weak, clock.now());
    clock.advance(Duration::from_millis(300));

    let r = only(w.read(clock.now()));
    assert_eq!(
        r.integrity_floor,
        Some(Integrity::OrderOnly),
        "a window mixing guarantees reported the stronger one"
    );
}

#[test]
fn several_spans_share_one_sample_store() {
    let mut clock = TestClock::new();
    let mut w = RollingWindows::new(
        WindowSpec::new(
            Duration::from_millis(250),
            &[Duration::from_secs(1), Duration::from_secs(4)],
        ),
        clock.now(),
    );

    w.observe(&live("100", "102", clock.now()), clock.now());
    clock.advance(Duration::from_secs(2));
    w.observe(&live("200", "202", clock.now()), clock.now());
    clock.advance(Duration::from_millis(500));

    let readings = w.read(clock.now());
    assert_eq!(readings.len(), 2);

    assert_eq!(readings[0].span_ms, 1000);
    assert_eq!(readings[0].samples, 1);
    assert_eq!(readings[0].low, Some(dec("201")));

    assert_eq!(readings[1].span_ms, 4000);
    assert_eq!(readings[1].samples, 2);
    assert_eq!(readings[1].low, Some(dec("101")));
    assert_eq!(readings[1].high, Some(dec("201")));
}

#[test]
fn the_ring_holds_exactly_the_longest_window_plus_the_live_bucket() {
    let mut clock = TestClock::new();
    let w = RollingWindows::new(
        WindowSpec::new(Duration::from_millis(250), &[Duration::from_secs(1)]),
        clock.now(),
    );
    assert_eq!(w.buckets(), 5);
}

#[test]
fn a_span_shorter_than_the_resolution_is_rounded_up_and_says_so() {
    let mut clock = TestClock::new();
    let mut w = RollingWindows::new(
        WindowSpec::new(Duration::from_millis(250), &[Duration::from_millis(10)]),
        clock.now(),
    );
    clock.advance(Duration::from_secs(1));

    assert_eq!(only(w.read(clock.now())).span_ms, 250);
}

#[test]
fn a_stall_longer_than_the_ring_does_not_spin_or_lie() {
    let mut clock = TestClock::new();
    let mut w = windows(&clock);
    w.observe(&live("100", "102", clock.now()), clock.now());

    clock.advance(Duration::from_secs(3600));
    let r = only(w.read(clock.now()));

    assert_eq!(r.samples, 0);
    assert_eq!(
        r.trusted_ms, 1000,
        "an untracked stall was reported as a gap"
    );
}

#[test]
fn mean_spread_is_reported_in_basis_points_of_mid() {
    let mut clock = TestClock::new();
    let mut w = windows(&clock);

    w.observe(&live("999", "1001", clock.now()), clock.now());
    clock.advance(Duration::from_millis(250));
    w.observe(&live("999", "1001", clock.now()), clock.now());
    clock.advance(Duration::from_millis(250));

    assert_eq!(only(w.read(clock.now())).mean_spread_bps, Some(dec("20")));
}

#[test]
fn readings_serialise_prices_as_strings() {
    let mut clock = TestClock::new();
    let mut w = windows(&clock);
    w.observe(&live("45000.05", "45000.15", clock.now()), clock.now());
    clock.advance(Duration::from_millis(300));

    let high = only(w.read(clock.now())).high.unwrap();
    assert_eq!(
        high.to_text(),
        "45000.10",
        "a window price reached the wire as something other than an exact string"
    );
}

#[test]
fn the_default_spec_reads_three_spans() {
    let spec = WindowSpec::default();
    assert_eq!(spec.resolution, Duration::from_millis(250));
    assert_eq!(
        spec.spans,
        vec![
            Duration::from_secs(1),
            Duration::from_secs(10),
            Duration::from_secs(60)
        ]
    );
}

#[test]
fn a_span_is_rounded_up_to_whole_buckets() {
    let quarter = Duration::from_millis(250);
    assert_eq!(buckets_for(Duration::from_millis(1), quarter), 1);
    assert_eq!(buckets_for(Duration::from_millis(250), quarter), 1);
    assert_eq!(buckets_for(Duration::from_millis(251), quarter), 2);
}

#[test]
fn the_total_forms_agree_and_report_overflow() {
    let mut clock = TestClock::new();
    let mut a = windows(&clock);
    let mut b = windows(&clock);
    a.observe(&live("100", "102", clock.now()), clock.now());
    assert_eq!(
        b.try_observe(&live("100", "102", clock.now()), clock.now()),
        Ok(())
    );
    clock.advance(Duration::from_millis(300));
    assert_eq!(b.try_read(clock.now()), Ok(a.read(clock.now())));

    let top = dec("79228162514264337593543950335");
    let mut c = windows(&clock);
    assert!(c.try_observe_trade(top, top, clock.now()).is_err());
}

#[test]
fn a_readings_numbers_go_together() {
    let mut clock = TestClock::new();
    let mut w = RollingWindows::new(
        WindowSpec::new(Duration::from_millis(250), &[Duration::from_millis(900)]),
        clock.now(),
    );
    let idle = only(w.read(clock.now()));
    assert_eq!((idle.samples, idle.trades, idle.span_ms), (0, 0, 1000));
    assert!(idle.first.is_none() && idle.last.is_none() && idle.high.is_none());
    assert!(idle.low.is_none() && idle.mean.is_none() && idle.integrity_floor.is_none());
    assert!(idle.volume.is_none());

    for (bid, ask) in [("102", "104"), ("98", "100"), ("105", "107"), ("100", "102")] {
        let now = clock.now();
        w.observe(&live(bid, ask, now), now);
        clock.advance(Duration::from_millis(200));
    }
    clock.advance(Duration::from_millis(250));
    let r = only(w.read(clock.now()));
    assert_eq!(r.samples, 4);
    assert_eq!((r.first, r.last), (Some(dec("103")), Some(dec("101"))));
    assert_eq!((r.low, r.high), (Some(dec("99")), Some(dec("106"))));
    assert!(r.mean.is_some() && r.integrity_floor.is_some() && r.volume.is_none());
    assert!(r.trusted_ms <= r.span_ms);
}

#[test]
fn every_configured_window_adds_up() {
    let mut clock = TestClock::new();
    let spec = WindowSpec::new(
        Duration::from_millis(250),
        &[
            Duration::from_millis(10),
            Duration::from_millis(700),
            Duration::from_secs(1),
        ],
    );
    let mut w = RollingWindows::new(spec, clock.now());
    w.observe(&live("100", "102", clock.now()), clock.now());
    clock.advance(Duration::from_millis(600));
    w.observe(&desynced(clock.now()), clock.now());
    clock.advance(Duration::from_millis(1_000));

    let readings = w.read(clock.now());
    let spans: Vec<u64> = readings.iter().map(|r| r.span_ms).collect();
    assert_eq!(spans, [250, 750, 1_000]);
    let trusted: Vec<u64> = readings.iter().map(|r| r.trusted_ms).collect();
    assert_eq!(trusted, [0, 0, 100]);
    for r in &readings {
        assert!(r.trusted_ms <= r.span_ms);
        assert_eq!(r.mean.is_some(), r.samples > 0);
    }
}
