#![allow(unused_mut)]

use market_aggregator::backoff::{Backoff, BackoffPolicy, EqualJitter, Jitter, NoJitter};
use market_aggregator::time::Duration;

fn policy() -> BackoffPolicy {
    BackoffPolicy {
        base: Duration::from_millis(100),
        cap: Duration::from_secs(2),
        min_stable: Duration::from_secs(30),
    }
}

fn schedule<J: Jitter>(backoff: &mut Backoff<J>, steps: usize) -> Vec<Duration> {
    (0..steps).map(|_| backoff.next_delay()).collect()
}

#[test]
fn delays_double_until_the_cap_then_flatten() {
    let mut b = Backoff::new(policy(), NoJitter);
    let ms: Vec<u128> = schedule(&mut b, 8)
        .iter()
        .map(Duration::as_millis)
        .collect();
    assert_eq!(ms, [100, 200, 400, 800, 1600, 2000, 2000, 2000]);
}

#[test]
fn a_long_outage_never_overflows_the_exponent() {
    let mut b = Backoff::new(policy(), NoJitter);
    for _ in 0..200 {
        let _ = b.next_delay();
    }
    assert_eq!(b.next_delay(), Duration::from_secs(2));
    assert_eq!(b.ceiling(), Duration::from_secs(2));
}

#[test]
fn a_stable_session_resets_the_schedule() {
    let mut b = Backoff::new(policy(), NoJitter);
    schedule(&mut b, 4);
    assert_eq!(b.attempt(), 4);

    assert!(b.note_session(Duration::from_secs(60)));
    assert_eq!(b.attempt(), 0);
    assert_eq!(b.next_delay(), Duration::from_millis(100));
}

#[test]
fn a_flapping_connection_keeps_escalating() {
    let mut b = Backoff::new(policy(), NoJitter);
    let mut delays = Vec::new();
    for _ in 0..4 {
        delays.push(b.next_delay());
        assert!(
            !b.note_session(Duration::from_millis(400)),
            "a 400ms session should not count as a recovery"
        );
    }
    let ms: Vec<u128> = delays.iter().map(Duration::as_millis).collect();
    assert_eq!(ms, [100, 200, 400, 800], "flapping flatlined the backoff");
}

#[test]
fn min_stable_is_inclusive_at_the_boundary() {
    let mut b = Backoff::new(policy(), NoJitter);
    b.next_delay();
    assert!(b.note_session(Duration::from_secs(30)));
}

#[test]
fn jitter_stays_in_the_upper_half_of_the_ceiling() {
    let mut b = Backoff::new(policy(), EqualJitter::seeded(0xDECAF));
    for _ in 0..40 {
        let ceiling = b.ceiling();
        let delay = b.next_delay();
        assert!(
            delay.as_nanos() >= ceiling.as_nanos() / 2 && delay <= ceiling,
            "delay {delay:?} escaped the upper half of {ceiling:?}"
        );
    }
}

#[test]
fn jitter_actually_varies() {
    let mut b = Backoff::new(policy(), EqualJitter::seeded(7));
    b.attempt = 5; // pinned at the cap, so the ceiling stops moving
    let samples: std::collections::HashSet<Duration> =
        (0..20).map(|_| b.jitter.sample(b.policy.cap)).collect();
    assert!(
        samples.len() > 15,
        "only {} distinct delays out of 20",
        samples.len()
    );
}

#[test]
fn different_seeds_diverge() {
    let ceiling = Duration::from_secs(2);
    let mut a = EqualJitter::seeded(1);
    let mut b = EqualJitter::seeded(2);
    let sa: Vec<Duration> = (0..10).map(|_| a.sample(ceiling)).collect();
    let sb: Vec<Duration> = (0..10).map(|_| b.sample(ceiling)).collect();
    assert_ne!(sa, sb, "two seeds produced an identical schedule");
}

#[test]
fn a_seed_reproduces_its_schedule() {
    let ceiling = Duration::from_secs(2);
    let run = || {
        let mut j = EqualJitter::seeded(0xA11CE);
        (0..10).map(|_| j.sample(ceiling)).collect::<Vec<_>>()
    };
    assert_eq!(run(), run());
}

#[test]
fn a_zero_width_ceiling_is_handled() {
    let mut j = EqualJitter::seeded(1);
    assert_eq!(j.sample(Duration::zero()), Duration::zero());
    assert_eq!(j.sample(Duration::from_nanos(1)), Duration::from_nanos(1));
}

#[test]
fn a_reset_starts_the_schedule_over() {
    let mut b = Backoff::new(policy(), NoJitter);
    schedule(&mut b, 3);
    b.reset();
    assert_eq!(b.attempt(), 0);
    assert_eq!(b.ceiling(), Duration::from_millis(100));
}

#[test]
fn the_generator_is_splitmix64() {
    let mut j = EqualJitter::seeded(0);
    assert_eq!(j.next_u64(), 0xE220_A839_7B1D_CDAF);
    assert_eq!(j.next_u64(), 0x6E78_9E6A_A1B9_65F4);
}

#[test]
fn a_live_schedule_is_seeded_from_the_process() {
    let mut live = Backoff::live();
    let ceiling = live.ceiling();
    assert!(live.next_delay() <= ceiling);
}

#[test]
fn a_tiny_base_still_reaches_the_cap() {
    let tiny = BackoffPolicy {
        base: Duration::from_nanos(1),
        cap: Duration::from_secs(60),
        min_stable: Duration::from_secs(30),
    };
    let mut b = Backoff::new(tiny, NoJitter);
    schedule(&mut b, 35);
    assert_eq!(b.ceiling(), Duration::from_nanos(1 << 35));
    schedule(&mut b, 5);
    assert_eq!(b.ceiling(), Duration::from_secs(60));
}

#[test]
fn a_base_of_nothing_never_waits() {
    let none = BackoffPolicy {
        base: Duration::zero(),
        cap: Duration::from_secs(60),
        min_stable: Duration::from_secs(30),
    };
    let mut b = Backoff::new(none, NoJitter);
    schedule(&mut b, 100);
    assert_eq!(b.ceiling(), Duration::zero());
}

#[test]
fn default_jitters_are_those_of_their_constructors() {
    let mut plain = NoJitter::default();
    assert_eq!(plain.sample(Duration::from_secs(1)), Duration::from_secs(1));

    let mut drawn = EqualJitter::default();
    let d = drawn.sample(Duration::from_secs(2));
    assert!(d.as_millis() >= 1000 && d.as_millis() <= 2000, "{d:?}");
}
