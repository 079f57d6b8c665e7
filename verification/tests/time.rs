#![allow(unused_mut)]

use market_aggregator::time::{Clock, Duration, IngestTime, Instant, SystemTime, TestClock};

#[test]
fn test_clock_moves_only_when_advanced() {
    let mut clock = TestClock::new();
    let t0 = clock.now();
    let t1 = clock.now();
    assert_eq!(t0.since(t1), Duration::zero(), "clock moved on its own");

    clock.advance(Duration::from_secs(30));
    let t2 = clock.now();
    assert_eq!(t2.since(t0), Duration::from_secs(30));
}

#[test]
fn both_clocks_advance_together() {
    let mut clock = TestClock::new();
    let t0 = clock.now();
    clock.advance(Duration::from_millis(1500));
    let t1 = clock.now();

    let mono_delta = t1.since(t0);
    let wall_delta = t1
        .wall()
        .duration_since(t0.wall())
        .expect("wall clock went backwards under a monotonic advance");

    assert_eq!(mono_delta, wall_delta);
}

#[test]
fn since_saturates_instead_of_panicking_on_reordering() {
    let mut clock = TestClock::new();
    let earlier = clock.now();
    clock.advance(Duration::from_secs(5));
    let later = clock.now();

    assert_eq!(earlier.since(later), Duration::zero());
    assert_eq!(later.since(earlier), Duration::from_secs(5));
}

#[test]
fn wall_nanos_round_trip() {
    for n in [0, 1, -1, 1_700_000_000_123_456_789, i64::MAX, -i64::MAX] {
        assert_eq!(SystemTime::from_unix_nanos(n).unix_nanos(), n);
    }
}

#[test]
fn an_offset_moves_both_clocks() {
    let base = IngestTime::new(Instant::from_nanos(7), SystemTime::from_unix_nanos(11));
    let later = base.advanced_by(Duration::from_nanos(5));
    assert_eq!(later.mono().as_nanos(), 12);
    assert_eq!(later.wall().unix_nanos(), 16);
    assert_eq!(later.since(base), Duration::from_nanos(5));
}

#[test]
fn durations_saturate_at_both_ends() {
    assert_eq!(
        Duration::longest().saturating_add(Duration::from_nanos(1)),
        Duration::longest()
    );
    assert_eq!(
        Duration::from_nanos(1).saturating_sub(Duration::from_nanos(2)),
        Duration::zero()
    );
    assert_eq!(Duration::longest().saturating_mul(2), Duration::longest());
    assert_eq!(Duration::from_millis(1500).as_secs(), 1);
    assert_eq!(Duration::longest().whole_nanos(), u64::MAX);
}
