#![allow(unused_mut)]

use market_aggregator::backoff::{Backoff, BackoffPolicy, NoJitter};
use market_aggregator::channel::{bounded, Channel};
use market_aggregator::event::VenueId;
use market_aggregator::ingest::{
    after_session, rest_asked, rest_failed, session_step, FrameSource, IngestMessage, LoopStep,
    SessionEnd, SessionEvent, SessionStep,
};
use market_aggregator::metrics::VenueCounters;
use market_aggregator::net::{Arrival, FakeNetwork, NetError, Session, SessionEnd as FakeEnd};
use market_aggregator::time::{Clock, Duration, TestClock};

/// One venue's ingest loop over a scripted network, with a clock of its own.
struct Harness {
    net: FakeNetwork,
    rest: bool,
    counters: VenueCounters,
    tx: Channel<IngestMessage>,
    backoff: Backoff<NoJitter>,
    clock: TestClock,
    venue: VenueId,
}

const IDLE: u64 = 15;

impl Harness {
    fn new(venue: VenueId, net: FakeNetwork, capacity: usize) -> Self {
        Harness {
            net,
            rest: venue == VenueId::Bitstamp,
            counters: VenueCounters::default(),
            tx: bounded(capacity),
            backoff: Backoff::new(
                BackoffPolicy {
                    base: Duration::from_millis(10),
                    cap: Duration::from_millis(100),
                    min_stable: Duration::from_secs(30),
                },
                NoJitter,
            ),
            clock: TestClock::new(),
            venue,
        }
    }

    fn step(&mut self, event: SessionEvent) -> Option<SessionEnd> {
        let at = self.clock.now();
        match session_step(&mut self.tx, &mut self.counters, self.venue, at, event) {
            SessionStep::Continue => None,
            SessionStep::End(end) => Some(end),
        }
    }

    /// One session, from the connection attempt to its end.
    fn session(&mut self) -> SessionEnd {
        let mut socket = match self.net.connect("wss://venue.test") {
            Ok(socket) => socket,
            Err(_) => return self.step(SessionEvent::ConnectFailed).unwrap(),
        };
        socket.send_text("subscribe");
        assert_eq!(socket.sent().len(), 1);
        if let Some(end) = self.step(SessionEvent::Subscribed) {
            return end;
        }
        if self.rest {
            rest_asked(&mut self.counters);
            match self.net.get("https://venue.test/book") {
                Ok(body) => {
                    if let Some(end) = self.step(SessionEvent::RestBody(body.into_bytes())) {
                        return end;
                    }
                }
                Err(_) => {
                    rest_failed(&mut self.counters, &mut self.backoff);
                }
            }
        }
        loop {
            let event = match socket.recv() {
                Arrival::Payload(bytes) => SessionEvent::Payload(bytes),
                Arrival::Closed => SessionEvent::PeerClosed,
                Arrival::Failed(_) => SessionEvent::SocketFailed,
                Arrival::Silence => {
                    self.clock.advance(Duration::from_secs(IDLE));
                    SessionEvent::IdleTimeout
                }
            };
            if let Some(end) = self.step(event) {
                return end;
            }
        }
    }

    /// Sessions until one is not to be retried, or so many have run.
    fn run(&mut self, sessions: usize) -> usize {
        for n in 1..=sessions {
            let began = self.clock.now();
            let end = self.session();
            let at = self.clock.now();
            let lasted = at.since(began);
            match after_session(
                &mut self.tx,
                &mut self.counters,
                &mut self.backoff,
                self.venue,
                end,
                lasted,
                at,
            ) {
                LoopStep::ReconnectAfter(delay) => self.clock.advance(delay),
                LoopStep::Finish => return n,
            }
        }
        sessions
    }

    /// The payloads that reached the channel.
    fn payloads(&mut self) -> Vec<String> {
        let mut out = Vec::new();
        while let Some(message) = self.tx.try_recv() {
            if let IngestMessage::Frame(frame) = message {
                out.push(String::from_utf8(frame.payload).unwrap());
            }
        }
        out
    }
}

fn serving(frames: &[&str], then: FakeEnd) -> Session {
    Session::Serve {
        frames: frames.iter().map(|s| (*s).to_owned()).collect(),
        then,
    }
}

#[test]
fn frames_reach_the_channel_and_are_counted() {
    let net = FakeNetwork::new(vec![serving(&["{\"a\":1}", "{\"a\":2}"], FakeEnd::Hang)]);
    let mut h = Harness::new(VenueId::Kraken, net, 64);
    assert_eq!(h.session(), SessionEnd::Idle);

    assert_eq!(h.payloads(), ["{\"a\":1}", "{\"a\":2}"]);
    let s = h.counters.snapshot();
    assert_eq!(s.frames, 2);
    assert_eq!(s.connects, 1);
    assert_eq!(s.bytes, 14);
}

#[test]
fn a_refused_connection_is_retried_and_counted_separately() {
    let net = FakeNetwork::new(vec![
        Session::Refuse,
        Session::Refuse,
        serving(&["{\"ok\":true}"], FakeEnd::Hang),
    ]);
    let mut h = Harness::new(VenueId::Kraken, net, 64);
    h.run(2);
    let s = h.counters.snapshot();
    assert_eq!(s.connect_failures, 2);
    assert_eq!(s.connects, 0);
    assert_eq!(s.disconnects, 0, "a refusal is not a disconnect");

    h.session();
    assert_eq!(h.payloads(), ["{\"ok\":true}"]);
    assert_eq!(h.counters.snapshot().connects, 1);
    assert_eq!(h.net.attempts().len(), 3);
}

#[test]
fn a_silent_socket_is_treated_as_dead() {
    let net = FakeNetwork::new(vec![
        serving(&["{\"first\":1}"], FakeEnd::Hang),
        serving(&["{\"second\":1}"], FakeEnd::Close),
    ]);
    let mut h = Harness::new(VenueId::Kraken, net, 64);
    h.run(2);

    assert_eq!(h.payloads(), ["{\"first\":1}", "{\"second\":1}"]);
    let s = h.counters.snapshot();
    assert_eq!(s.idle_timeouts, 1);
    assert_eq!(s.connects, 2);
    assert_eq!(s.reconnects(), 1);
}

#[test]
fn a_clean_close_reconnects_and_resubscribes() {
    let net = FakeNetwork::new(vec![
        serving(&["{\"a\":1}"], FakeEnd::Close),
        serving(&["{\"b\":1}"], FakeEnd::Hang),
    ]);
    let mut h = Harness::new(VenueId::Coinbase, net, 64);
    h.run(1);
    assert_eq!(h.counters.snapshot().disconnects, 1);
    h.session();

    assert_eq!(h.payloads(), ["{\"a\":1}", "{\"b\":1}"]);
    assert_eq!(h.net.attempts().len(), 2);
}

#[test]
fn a_socket_error_reconnects() {
    let net = FakeNetwork::new(vec![
        serving(&["{\"a\":1}"], FakeEnd::Error),
        serving(&["{\"b\":1}"], FakeEnd::Hang),
    ]);
    let mut h = Harness::new(VenueId::Kraken, net, 64);
    h.run(1);
    assert_eq!(h.counters.snapshot().disconnects, 1);
    h.session();
    assert_eq!(h.payloads(), ["{\"a\":1}", "{\"b\":1}"]);
}

#[test]
fn bitstamp_fetches_a_rest_snapshot_and_tags_it() {
    let body = r#"{"microtimestamp":"1700000000000000","bids":[["100","1"]],"asks":[["101","1"]]}"#;
    let net = FakeNetwork::new(vec![serving(
        &["{\"event\":\"bts:subscription_succeeded\"}"],
        FakeEnd::Hang,
    )])
    .with_rest_body(body);
    let mut h = Harness::new(VenueId::Bitstamp, net, 64);
    h.session();

    let mut saw_snapshot = false;
    while let Some(message) = h.tx.try_recv() {
        if let IngestMessage::Frame(frame) = message {
            if frame.source == FrameSource::RestSnapshot {
                assert_eq!(frame.payload, body.as_bytes());
                saw_snapshot = true;
            }
        }
    }
    assert!(saw_snapshot, "no REST snapshot frame was emitted");
    assert_eq!(h.counters.snapshot().rest_fetches, 1);
}

#[test]
fn a_failing_rest_fetch_retries_without_dropping_the_socket() {
    let net = FakeNetwork::new(vec![serving(&["{\"a\":1}"], FakeEnd::Hang)]);
    let mut h = Harness::new(VenueId::Bitstamp, net, 64);
    for attempt in 1..=3_u64 {
        rest_asked(&mut h.counters);
        let err = h.net.get("https://venue.test/book").unwrap_err();
        assert_eq!(err.message(), "http 503 from https://venue.test/book");
        let delay = rest_failed(&mut h.counters, &mut h.backoff);
        assert_eq!(delay, Duration::from_millis(10 << (attempt - 1)));
    }
    let s = h.counters.snapshot();
    assert_eq!((s.rest_fetches, s.rest_failures), (3, 3));
    assert_eq!((s.connects, s.disconnects), (0, 0));
}

#[test]
fn venues_without_rest_recovery_never_call_it() {
    let net = FakeNetwork::new(vec![serving(&["{\"a\":1}"], FakeEnd::Hang)]);
    let mut h = Harness::new(VenueId::Kraken, net, 64);
    h.session();
    assert_eq!(h.counters.snapshot().rest_fetches, 0);
}

#[test]
fn a_full_channel_drops_rather_than_blocking_ingest() {
    let frames: Vec<String> = (0..20).map(|i| format!("{{\"n\":{i}}}")).collect();
    let net = FakeNetwork::new(vec![Session::Serve {
        frames,
        then: FakeEnd::Hang,
    }]);
    let mut h = Harness::new(VenueId::Kraken, net, 2);
    h.session();

    let s = h.counters.snapshot();
    assert_eq!(s.frames, 20, "ingest stalled on a full channel");
    assert_eq!(s.dropped, 18, "capacity 2, so all but the last two go");
    assert_eq!(h.tx.metrics().len, 2);
}

#[test]
fn a_closed_channel_stops_the_task_rather_than_reconnecting_forever() {
    let net = FakeNetwork::new(vec![serving(&["{\"a\":1}", "{\"b\":2}"], FakeEnd::Hang)]);
    let mut h = Harness::new(VenueId::Kraken, net, 8);
    h.tx.close();
    assert_eq!(h.run(50), 1, "task kept running with nothing listening");
    assert_eq!(h.net.attempts().len(), 1, "it reconnected anyway");
}

#[test]
fn shutdown_stops_a_task_parked_on_a_silent_socket() {
    let net = FakeNetwork::new(vec![serving(&[], FakeEnd::Hang)]);
    let mut h = Harness::new(VenueId::Kraken, net, 8);
    assert_eq!(
        h.step(SessionEvent::StopRequested),
        Some(SessionEnd::Stopped)
    );
    assert!(!SessionEnd::Stopped.should_retry());
    let at = h.clock.now();
    assert!(matches!(
        after_session(
            &mut h.tx,
            &mut h.counters,
            &mut h.backoff,
            h.venue,
            SessionEnd::Stopped,
            Duration::zero(),
            at,
        ),
        LoopStep::Finish
    ));
}

#[test]
fn every_way_a_session_ends_is_retried_but_two() {
    for end in [
        SessionEnd::ConnectFailed,
        SessionEnd::Closed,
        SessionEnd::Errored,
        SessionEnd::Idle,
    ] {
        assert!(end.should_retry(), "{end:?}");
    }
    for end in [SessionEnd::Downstream, SessionEnd::Stopped] {
        assert!(!end.should_retry(), "{end:?}");
    }
}

#[test]
fn a_session_boundary_names_its_venue() {
    let net = FakeNetwork::new(vec![serving(&[], FakeEnd::Close)]);
    let mut h = Harness::new(VenueId::Kraken, net, 8);
    h.run(1);
    match h.tx.try_recv() {
        Some(m) => {
            assert_eq!(m.venue(), VenueId::Kraken);
            assert!(matches!(m, IngestMessage::SessionEnded { .. }));
        }
        None => panic!("no boundary was published"),
    }
}

#[test]
fn the_script_repeats_its_last_session() {
    let mut net = FakeNetwork::new(vec![serving(&["x"], FakeEnd::Close)]);
    for _ in 0..3 {
        assert!(net.connect("u").is_ok());
    }
    let mut refusing = FakeNetwork::new(vec![]);
    let err = refusing.connect("u").unwrap_err();
    assert_eq!(err.message(), "could not connect to u: scripted refusal");
    let socket = NetError::Socket("reset".to_owned());
    assert_eq!(socket.message(), "websocket error: reset");
    let http = NetError::Http {
        url: "u".to_owned(),
        source: "late".to_owned(),
    };
    assert_eq!(http.message(), "http request to u failed: late");
}
