#![allow(unused_mut)]

use market_aggregator::channel::{bounded, OfferOutcome};
use market_aggregator::event::VenueId;
use market_aggregator::ingest::{FrameSource, IngestMessage, RawFrame, SessionEnd};
use market_aggregator::tape::{
    frame_record, gap_before, record_of, replay_offer, replay_send, ReplayStats, TapeError,
    TapedFrame,
};
use market_aggregator::time::{
    Clock, Duration, IngestTime, Instant, SystemTime, TestClock,
};

fn frame(venue: VenueId, payload: &str, at: IngestTime) -> IngestMessage {
    IngestMessage::Frame(RawFrame::new(venue, payload.as_bytes().to_vec(), at))
}

#[test]
fn records_keep_venue_payload_and_elapsed() {
    let mut clock = TestClock::new();
    let start = clock.now();
    let r1 = record_of(
        &frame(VenueId::Coinbase, r#"{"type":"snapshot"}"#, clock.now()),
        start,
    )
    .unwrap();
    clock.advance(Duration::from_millis(10));
    let r2 = record_of(
        &frame(VenueId::Kraken, r#"{"type":"delta"}"#, clock.now()),
        start,
    )
    .unwrap();

    let f1 = TapedFrame::from_record(&r1);
    assert_eq!(f1.venue, VenueId::Coinbase);
    assert_eq!(f1.payload, br#"{"type":"snapshot"}"#);
    assert_eq!(f1.elapsed, Duration::zero());

    let f2 = TapedFrame::from_record(&r2);
    assert_eq!(f2.venue, VenueId::Kraken);
    assert_eq!(f2.payload, br#"{"type":"delta"}"#);
    assert_eq!(f2.elapsed, Duration::from_millis(10));
}

#[test]
fn write_frame_refuses_non_utf8_payloads_instead_of_corrupting_the_tape() {
    let at = TestClock::new().now();
    let bad = RawFrame::new(VenueId::Fake, vec![0xff, 0xfe], at);
    assert_eq!(frame_record(&bad, at).unwrap_err(), TapeError::NonUtf8Payload);
    let bad = IngestMessage::Frame(bad);
    assert_eq!(record_of(&bad, at).unwrap_err(), TapeError::NonUtf8Payload);
}

#[test]
fn replay_reconstructs_ingest_time_from_recorded_offsets() {
    let mut record_clock = TestClock::new();
    let start = record_clock.now();
    let mut tape = Vec::new();
    for _ in 0..3 {
        tape.push(record_of(&frame(VenueId::Coinbase, "{}", record_clock.now()), start).unwrap());
        record_clock.advance(Duration::from_millis(5));
    }

    let mut channel = bounded::<IngestMessage>(8);
    let replay_clock = TestClock::new();
    let mut stats = ReplayStats::default();
    let start = replay_clock.now();
    for record in &tape {
        let message = TapedFrame::from_record(record).into_message(start);
        assert!(matches!(
            replay_offer(&mut channel, &mut stats, message),
            OfferOutcome::Sent
        ));
    }

    assert_eq!(stats.frames_sent, 3);
    assert_eq!(stats.dropped, 0);

    let base = replay_clock.now();
    let mut received = Vec::new();
    while let Some(message) = channel.try_recv() {
        match message {
            IngestMessage::Frame(frame) => received.push(frame),
            IngestMessage::SessionEnded { .. } => panic!("no boundaries on this tape"),
        }
    }
    assert_eq!(received.len(), 3);
    for (i, f) in received.iter().enumerate() {
        assert_eq!(
            f.ingest_ts.since(base),
            Duration::from_millis(5 * i as u64),
            "frame {i} was not spaced according to the tape's recorded offsets"
        );
    }
}

#[test]
fn a_faithful_replay_waits_for_room_and_drops_nothing() {
    let at = TestClock::new().now();
    let mut channel = bounded::<IngestMessage>(2);
    let mut stats = ReplayStats::default();
    for _ in 0..2 {
        assert!(matches!(
            replay_offer(&mut channel, &mut stats, frame(VenueId::Kraken, "{}", at)),
            OfferOutcome::Sent
        ));
    }
    let waiting = frame(VenueId::Kraken, "late", at);
    let back = match replay_offer(&mut channel, &mut stats, waiting) {
        OfferOutcome::Full(back) => back,
        other => panic!("a full channel answered {other:?}"),
    };
    assert_eq!(stats.frames_sent, 2);
    assert!(channel.try_recv().is_some());
    assert!(matches!(
        replay_offer(&mut channel, &mut stats, back),
        OfferOutcome::Sent
    ));
    assert_eq!(stats.frames_sent, 3);
    assert_eq!(stats.dropped, 0);

    channel.close();
    assert!(matches!(
        replay_offer(&mut channel, &mut stats, frame(VenueId::Kraken, "{}", at)),
        OfferOutcome::Closed(_)
    ));
    assert_eq!(stats.frames_sent, 4);
}

#[test]
fn replay_into_a_full_channel_drops_oldest_and_reports_it() {
    let at = TestClock::new().now();
    let mut tx = bounded::<IngestMessage>(2);
    let mut stats = ReplayStats::default();
    for _ in 0..5 {
        let record = record_of(&frame(VenueId::Kraken, "{}", at), at).unwrap();
        let message = TapedFrame::from_record(&record).into_message(at);
        assert!(replay_send(&mut tx, &mut stats, message));
    }

    assert_eq!(stats.frames_sent, 5);
    assert_eq!(
        stats.dropped, 3,
        "5 sent into capacity 2 must drop exactly 3"
    );
    assert_eq!(
        stats.dropped,
        tx.metrics().dropped,
        "replay's own count must agree with the channel's own counter"
    );

    let mut left = 0;
    while tx.try_recv().is_some() {
        left += 1;
    }
    assert_eq!(left, 2);
}

#[test]
fn a_session_boundary_survives_the_tape() {
    let at = TestClock::new().now();
    let ended = IngestMessage::SessionEnded {
        venue: VenueId::Kraken,
        at,
        end: SessionEnd::Idle,
    };
    let record = record_of(&ended, at).unwrap();
    assert!(!record.kind.is_frame());
    assert_eq!(record.payload, "");
    match TapedFrame::from_record(&record).into_message(at) {
        IngestMessage::SessionEnded { venue, end, .. } => {
            assert_eq!(venue, VenueId::Kraken);
            assert_eq!(end, SessionEnd::Closed);
        }
        other => panic!("the boundary became {other:?}"),
    }
}

#[test]
fn a_rest_snapshot_keeps_its_source() {
    let at = TestClock::new().now();
    let body = IngestMessage::Frame(RawFrame::rest_snapshot(
        VenueId::Bitstamp,
        "é".as_bytes().to_vec(),
        at,
    ));
    let record = record_of(&body, at).unwrap();
    assert_eq!(record.payload, "é");
    match TapedFrame::from_record(&record).into_message(at) {
        IngestMessage::Frame(f) => {
            assert_eq!(f.source, FrameSource::RestSnapshot);
            assert_eq!(f.payload, "é".as_bytes());
        }
        other => panic!("the frame became {other:?}"),
    }
}

#[test]
fn gaps_do_not_go_backwards() {
    let (a, b) = (Duration::from_millis(5), Duration::from_millis(8));
    assert_eq!(gap_before(b, a), Duration::from_millis(3));
    assert_eq!(gap_before(a, b), Duration::zero());
}

#[test]
fn a_wall_clock_before_the_epoch_is_recorded_as_zero() {
    let at = IngestTime::new(Instant::from_nanos(0), SystemTime::from_unix_nanos(-5));
    let record = record_of(&frame(VenueId::Fake, "x", at), at).unwrap();
    assert_eq!(record.recorded_wall_unix_nanos, 0);
}
