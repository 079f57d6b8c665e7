#![allow(unused_mut)]

use market_aggregator::assign::NodeId;
use market_aggregator::event::{Symbol, VenueId};
use market_aggregator::lease::{Coordinator, LeaseConfig, LeaseState, RoundTrip};
use market_aggregator::registry::{LeaseTable, MemoryRegistry};
use market_aggregator::stream::StreamId;
use market_aggregator::time::{Clock, Duration, TestClock};

/// The cluster's stream set: three venues over four symbols.
fn streams() -> Vec<StreamId> {
    let venues = [VenueId::Coinbase, VenueId::Kraken, VenueId::Bitstamp];
    ["BTC-USD", "ETH-USD", "SOL-USD", "XRP-USD"]
        .into_iter()
        .flat_map(|s| {
            let symbol = Symbol::new(s);
            venues
                .iter()
                .map(move |v| StreamId::new(*v, symbol.clone()))
        })
        .collect()
}

fn config() -> LeaseConfig {
    LeaseConfig {
        ttl: Duration::from_secs(15),
        renew: Duration::from_secs(3),
        guard: Duration::from_secs(2),
    }
}

/// One simulated process: a coordinator, its lease state, and its own handle
/// onto the shared registry so it can be partitioned independently.
struct Node {
    name: &'static str,
    registry: MemoryRegistry,
    coord: Coordinator,
    state: LeaseState,
}

impl Node {
    fn new(name: &'static str, shared: &MemoryRegistry, clock: &TestClock) -> Self {
        Self {
            name,
            registry: shared.handle(),
            coord: Coordinator::new(NodeId::new(name), config(), streams()),
            state: LeaseState::new(clock.now()),
        }
    }

    fn step(&mut self, table: &mut LeaseTable, clock: &TestClock) -> Vec<StreamId> {
        let now = clock.now();
        let round_trip = match self.registry.announce(table, &self.coord.lease(now)) {
            Err(_) => RoundTrip::NotAnnounced,
            Ok(()) => match self.registry.members(table) {
                Err(_) => RoundTrip::NotRead,
                Ok(leases) => RoundTrip::Complete(leases),
            },
        };
        self.coord.step(&mut self.state, now, &round_trip);
        self.state.owned().clone()
    }
}

/// Step every node once and fail if any two hold the same stream.
fn tick(nodes: &mut [&mut Node], table: &mut LeaseTable, clock: &TestClock, at: Duration) {
    let mut held: Vec<(&'static str, Vec<StreamId>)> = Vec::new();
    for node in nodes.iter_mut() {
        let owned = node.step(table, clock);
        held.push((node.name, owned));
    }

    for i in 0..held.len() {
        for j in (i + 1)..held.len() {
            let overlap: Vec<String> = held[i]
                .1
                .iter()
                .filter(|s| held[j].1.contains(s))
                .map(StreamId::key)
                .collect();
            assert!(
                overlap.is_empty(),
                "at t={:?}, {} and {} both held {overlap:?} — two connections to one \
                 venue subscription is the one thing this design exists to prevent",
                at,
                held[i].0,
                held[j].0,
            );
        }
    }
}

#[test]
fn one_node_owns_everything_but_only_after_it_settles() {
    let mut clock = TestClock::new();
    let shared = MemoryRegistry::new();
    let mut table = LeaseTable::new();
    let mut a = Node::new("a", &shared, &clock);

    let owned = a.step(&mut table, &clock);
    assert!(owned.is_empty(), "a node took streams before settling");

    for _ in 0..5 {
        clock.advance(Duration::from_secs(3));
        let owned = a.step(&mut table, &clock);
        assert!(
            owned.is_empty(),
            "a node took streams during its settling period"
        );
    }

    clock.advance(Duration::from_secs(3));
    assert_eq!(a.step(&mut table, &clock).len(), streams().len());
}

#[test]
fn a_joining_node_never_overlaps_the_incumbent() {
    let mut clock = TestClock::new();
    let shared = MemoryRegistry::new();
    let mut table = LeaseTable::new();
    let mut a = Node::new("a", &shared, &clock);
    let mut b = Node::new("b", &shared, &clock);

    let mut elapsed = Duration::zero();
    for _ in 0..8 {
        tick(&mut [&mut a], &mut table, &clock, elapsed);
        clock.advance(Duration::from_secs(3));
        elapsed = elapsed.saturating_add(Duration::from_secs(3));
    }
    assert_eq!(a.state.owned().len(), streams().len());

    for _ in 0..40 {
        tick(&mut [&mut a, &mut b], &mut table, &clock, elapsed);
        clock.advance(Duration::from_millis(500));
        elapsed = elapsed.saturating_add(Duration::from_millis(500));
    }

    let (a_owned, b_owned) = (a.state.owned(), b.state.owned());
    assert!(!b_owned.is_empty(), "the joining node never took any work");
    assert!(!a_owned.is_empty(), "the incumbent gave up everything");
    assert_eq!(
        a_owned.len() + b_owned.len(),
        streams().len(),
        "some stream ended up owned by nobody"
    );
}

#[test]
fn a_partitioned_node_stands_down_before_anyone_can_take_its_streams() {
    let mut clock = TestClock::new();
    let shared = MemoryRegistry::new();
    let mut table = LeaseTable::new();
    let mut a = Node::new("a", &shared, &clock);

    let mut elapsed = Duration::zero();

    for _ in 0..8 {
        tick(&mut [&mut a], &mut table, &clock, elapsed);
        clock.advance(Duration::from_secs(3));
        elapsed = elapsed.saturating_add(Duration::from_secs(3));
    }
    assert_eq!(
        a.state.owned().len(),
        streams().len(),
        "A should be running everything"
    );

    a.registry.set_offline(true);
    let mut b = Node::new("b", &shared, &clock);
    let partitioned_at = elapsed;

    let mut a_released_at = None;
    let mut b_acquired_at = None;

    for _ in 0..120 {
        tick(&mut [&mut a, &mut b], &mut table, &clock, elapsed);
        if a_released_at.is_none() && a.state.owned().is_empty() {
            a_released_at = Some(elapsed.saturating_sub(partitioned_at));
        }
        if b_acquired_at.is_none() && !b.state.owned().is_empty() {
            b_acquired_at = Some(elapsed.saturating_sub(partitioned_at));
        }
        clock.advance(Duration::from_millis(500));
        elapsed = elapsed.saturating_add(Duration::from_millis(500));
    }

    let released = a_released_at.expect("A never released its streams while partitioned");
    let acquired = b_acquired_at.expect("B never picked up the partitioned node's streams");

    assert!(
        released <= Duration::from_millis(13_500),
        "A held on for {released:?}; its lease could have been declared dead at 15s"
    );
    assert!(
        acquired > released,
        "B acquired at {acquired:?} but A did not release until {released:?}"
    );
    assert_eq!(
        b.state.owned().len(),
        streams().len(),
        "B should have ended up running the whole cluster"
    );
}

#[test]
fn a_node_that_regains_contact_serves_its_notice_again() {
    let mut clock = TestClock::new();
    let shared = MemoryRegistry::new();
    let mut table = LeaseTable::new();
    let mut a = Node::new("a", &shared, &clock);

    for _ in 0..8 {
        a.step(&mut table, &clock);
        clock.advance(Duration::from_secs(3));
    }
    assert!(!a.state.owned().is_empty());

    a.registry.set_offline(true);
    for _ in 0..6 {
        a.step(&mut table, &clock);
        clock.advance(Duration::from_secs(3));
    }
    assert!(a.state.owned().is_empty(), "A did not stand down");

    a.registry.set_offline(false);
    a.step(&mut table, &clock);
    assert!(
        a.state.owned().is_empty(),
        "A resumed the instant it regained contact, without re-serving its notice"
    );

    for _ in 0..7 {
        clock.advance(Duration::from_secs(3));
        a.step(&mut table, &clock);
    }
    assert_eq!(
        a.state.owned().len(),
        streams().len(),
        "A never resumed after re-settling"
    );
}

#[test]
fn a_clean_withdrawal_hands_over_faster_than_a_timeout() {
    let mut clock = TestClock::new();
    let shared = MemoryRegistry::new();
    let mut table = LeaseTable::new();
    let mut a = Node::new("a", &shared, &clock);
    let mut b = Node::new("b", &shared, &clock);

    let mut elapsed = Duration::zero();
    for _ in 0..14 {
        tick(&mut [&mut a, &mut b], &mut table, &clock, elapsed);
        clock.advance(Duration::from_secs(3));
        elapsed = elapsed.saturating_add(Duration::from_secs(3));
    }
    assert!(!a.state.owned().is_empty() && !b.state.owned().is_empty());

    a.registry.withdraw(&mut table, &NodeId::new("a")).unwrap();
    tick(&mut [&mut b], &mut table, &clock, elapsed);
    assert_eq!(
        b.state.owned().len(),
        streams().len(),
        "a clean withdrawal did not hand over immediately"
    );
}

#[test]
fn every_node_agrees_about_who_owns_what() {
    let mut clock = TestClock::new();
    let shared = MemoryRegistry::new();
    let mut table = LeaseTable::new();
    let mut a = Node::new("a", &shared, &clock);
    let mut b = Node::new("b", &shared, &clock);
    let mut c = Node::new("c", &shared, &clock);

    let mut elapsed = Duration::zero();
    for _ in 0..14 {
        tick(&mut [&mut a, &mut b, &mut c], &mut table, &clock, elapsed);
        clock.advance(Duration::from_secs(3));
        elapsed = elapsed.saturating_add(Duration::from_secs(3));
    }

    let mut union: Vec<StreamId> = Vec::new();
    for node in [&a, &b, &c] {
        for s in node.state.owned() {
            assert!(!union.contains(s), "{s:?} owned twice");
            union.push(s.clone());
        }
    }
    assert_eq!(union.len(), streams().len(), "a stream was owned by nobody");
    for node in [&a, &b, &c] {
        assert!(!node.state.owned().is_empty(), "{} idled", node.name);
    }
}

#[test]
fn a_pass_after_a_long_silence_holds_nothing() {
    let mut clock = TestClock::new();
    let shared = MemoryRegistry::new();
    let mut table = LeaseTable::new();
    let mut a = Node::new("a", &shared, &clock);

    a.step(&mut table, &clock);
    for _ in 0..6 {
        clock.advance(Duration::from_secs(3));
        a.step(&mut table, &clock);
    }
    assert_eq!(a.state.owned().len(), streams().len());

    clock.advance(Duration::from_secs(20));
    let owned = a.step(&mut table, &clock);
    assert!(owned.is_empty(), "its record had expired: it joins again");

    for _ in 0..5 {
        clock.advance(Duration::from_secs(3));
        assert!(a.step(&mut table, &clock).is_empty());
    }
    clock.advance(Duration::from_secs(3));
    assert_eq!(a.step(&mut table, &clock).len(), streams().len());
}

#[test]
fn silence_restarts_and_rejoining_never_overlap() {
    let mut clock = TestClock::new();
    let shared = MemoryRegistry::new();
    let mut table = LeaseTable::new();
    let mut a = Node::new("a", &shared, &clock);
    let mut b = Node::new("b", &shared, &clock);
    let mut elapsed = Duration::zero();

    for round in 0u32..120 {
        a.registry.set_offline((10..30).contains(&round));
        b.registry.set_offline((40..48).contains(&round));
        if round == 70 {
            b = Node::new("b", &shared, &clock);
        }
        tick(&mut [&mut a, &mut b], &mut table, &clock, elapsed);
        clock.advance(Duration::from_millis(1900));
        elapsed = elapsed.saturating_add(Duration::from_millis(1900));
    }
    assert_eq!(
        a.state.owned().len() + b.state.owned().len(),
        streams().len()
    );
}

#[test]
fn clocks_that_disagree_within_the_guard_never_overlap() {
    // B's clock shows a later time than A's by most of the guard, so that B calls
    // A's record stale that much too early.
    let mut of_a = TestClock::new();
    let mut of_b = TestClock::new();
    of_b.advance(Duration::from_millis(1_900));
    let shared = MemoryRegistry::new();
    let mut table = LeaseTable::new();
    let mut a = Node::new("a", &shared, &of_a);
    let mut b = Node::new("b", &shared, &of_b);

    let mut b_took_over = false;
    for half_seconds in 0..240 {
        if half_seconds == 100 {
            a.registry.set_offline(true);
        }
        let held_by_a = a.step(&mut table, &of_a);
        let held_by_b = b.step(&mut table, &of_b);
        assert!(
            held_by_a.iter().all(|s| !held_by_b.contains(s)),
            "both held a stream after {half_seconds} half seconds"
        );
        b_took_over = b_took_over || held_by_b.len() == streams().len();
        of_a.advance(Duration::from_millis(500));
        of_b.advance(Duration::from_millis(500));
    }
    assert!(b_took_over, "B never picked up the partitioned node's streams");
    assert!(a.state.owned().is_empty());
}
