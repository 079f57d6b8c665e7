//! What an ingest task decides between the moments it waits: how a session ends,
//! what is counted, and what goes downstream.
use vstd::prelude::*;

use crate::backoff::{Backoff, Jitter};
use crate::channel::{Channel, SendOutcome};
use crate::channel;
use crate::event::VenueId;
use crate::metrics::VenueCounters;
use crate::time::{Duration, IngestTime};

verus! {

/// Where a frame came from.
#[derive(Clone, Copy, Debug, PartialEq, Eq, Structural)]
pub enum FrameSource {
    /// A frame of the venue's feed.
    WebSocket,
    /// The body of a depth snapshot that was asked for.
    RestSnapshot,
}

/// Bytes a venue sent, before anything reads them.
#[derive(Debug)]
pub struct RawFrame {
    pub venue: VenueId,
    pub payload: Vec<u8>,
    pub ingest_ts: IngestTime,
    pub source: FrameSource,
}

impl Clone for RawFrame {
    fn clone(&self) -> (f: RawFrame)
        ensures
            f == (RawFrame { payload: f.payload, ..*self }),
            f.payload@ == self.payload@,
    {
        let payload = self.payload.clone();
        assert(payload@ =~= self.payload@);
        RawFrame { venue: self.venue, payload, ingest_ts: self.ingest_ts, source: self.source }
    }
}

impl RawFrame {
    /// A frame of the venue's feed.
    pub fn new(venue: VenueId, payload: Vec<u8>, ingest_ts: IngestTime) -> (f: RawFrame)
        ensures
            f.venue == venue,
            f.payload == payload,
            f.ingest_ts == ingest_ts,
            f.source == FrameSource::WebSocket,
    {
        RawFrame { venue, payload, ingest_ts, source: FrameSource::WebSocket }
    }

    /// The body of a depth snapshot.
    pub fn rest_snapshot(venue: VenueId, payload: Vec<u8>, ingest_ts: IngestTime) -> (f: RawFrame)
        ensures
            f.venue == venue,
            f.payload == payload,
            f.ingest_ts == ingest_ts,
            f.source == FrameSource::RestSnapshot,
    {
        RawFrame { venue, payload, ingest_ts, source: FrameSource::RestSnapshot }
    }
}

/// How a connection attempt ended.
#[derive(Clone, Copy, Debug, PartialEq, Eq, Structural)]
pub enum SessionEnd {
    /// Never opened.
    ConnectFailed,
    /// Peer closed cleanly.
    Closed,
    /// Socket error mid-stream.
    Errored,
    /// Open but silent past the venue's idle timeout.
    Idle,
    /// Nothing downstream is listening.
    Downstream,
    /// Asked to stop.
    Stopped,
}

impl SessionEnd {
    /// Whether the ingest loop should keep trying.
    pub fn should_retry(self) -> (b: bool)
        ensures
            b == retries(self),
    {
        match self {
            SessionEnd::Downstream => false,
            SessionEnd::Stopped => false,
            _ => true,
        }
    }
}

/// Whether a session that ended so is tried again: not where nothing is
/// listening, and not where a stop was asked for.
pub open spec fn retries(end: SessionEnd) -> bool {
    end != SessionEnd::Downstream && end != SessionEnd::Stopped
}

/// What an ingest task hands the aggregator. Session boundaries travel with the
/// frames, so that they land where they happened.
#[derive(Debug)]
pub enum IngestMessage {
    /// Bytes a venue sent.
    Frame(RawFrame),
    /// A connection ended.
    SessionEnded { venue: VenueId, at: IngestTime, end: SessionEnd },
}

impl Clone for IngestMessage {
    fn clone(&self) -> (m: IngestMessage)
        ensures
            match (*self, m) {
                (IngestMessage::Frame(f), IngestMessage::Frame(g)) => g == (RawFrame {
                    payload: g.payload,
                    ..f
                }) && g.payload@ == f.payload@,
                _ => self is SessionEnded && m == *self,
            },
    {
        match self {
            IngestMessage::Frame(frame) => IngestMessage::Frame(frame.clone()),
            IngestMessage::SessionEnded { venue, at, end } => IngestMessage::SessionEnded {
                venue: *venue,
                at: *at,
                end: *end,
            },
        }
    }
}

impl IngestMessage {
    /// The venue that a message is about.
    pub open spec fn about(self) -> VenueId {
        match self {
            IngestMessage::Frame(frame) => frame.venue,
            IngestMessage::SessionEnded { venue, .. } => venue,
        }
    }

    pub fn venue(&self) -> (v: VenueId)
        ensures
            v == self.about(),
    {
        match self {
            IngestMessage::Frame(frame) => frame.venue,
            IngestMessage::SessionEnded { venue, .. } => *venue,
        }
    }
}

/// What a socket or its surroundings report during a session.
#[derive(Debug)]
pub enum SessionEvent {
    /// The connection could not be opened.
    ConnectFailed,
    /// A subscription could not be sent.
    SubscribeFailed,
    /// Connected, and every subscription was sent.
    Subscribed,
    /// A stop was asked for.
    StopRequested,
    /// The depth snapshot that was asked for has come.
    RestBody(Vec<u8>),
    /// Nothing came within the venue's idle timeout.
    IdleTimeout,
    /// The peer closed cleanly.
    PeerClosed,
    /// The socket failed.
    SocketFailed,
    /// The venue sent bytes.
    Payload(Vec<u8>),
}

/// What an ingest task does after an event.
#[derive(Debug)]
pub enum SessionStep {
    /// Wait for the next event.
    Continue,
    /// The session is over.
    End(SessionEnd),
}

/// How an event ends a session, if it does by itself.
pub open spec fn ends_with(event: SessionEvent) -> Option<SessionEnd> {
    match event {
        SessionEvent::ConnectFailed => Some(SessionEnd::ConnectFailed),
        SessionEvent::SubscribeFailed => Some(SessionEnd::ConnectFailed),
        SessionEvent::StopRequested => Some(SessionEnd::Stopped),
        SessionEvent::IdleTimeout => Some(SessionEnd::Idle),
        SessionEvent::PeerClosed => Some(SessionEnd::Closed),
        SessionEvent::SocketFailed => Some(SessionEnd::Errored),
        _ => None,
    }
}

/// The frame that an event brings, if it brings one.
pub open spec fn brings(event: SessionEvent, venue: VenueId, at: IngestTime) -> Option<RawFrame> {
    match event {
        SessionEvent::Payload(payload) => Some(
            RawFrame { venue, payload, ingest_ts: at, source: FrameSource::WebSocket },
        ),
        SessionEvent::RestBody(payload) => Some(
            RawFrame { venue, payload, ingest_ts: at, source: FrameSource::RestSnapshot },
        ),
        _ => None,
    }
}

/// What is counted for an event before anything goes downstream. The ways a
/// connection dies are counted apart.
pub open spec fn counted(c: VenueCounters, event: SessionEvent) -> VenueCounters {
    match event {
        SessionEvent::ConnectFailed => VenueCounters {
            connect_failures: c.connect_failures.wrapping_add(1),
            ..c
        },
        SessionEvent::SubscribeFailed => VenueCounters {
            connect_failures: c.connect_failures.wrapping_add(1),
            ..c
        },
        SessionEvent::Subscribed => VenueCounters { connects: c.connects.wrapping_add(1), ..c },
        SessionEvent::IdleTimeout => VenueCounters {
            idle_timeouts: c.idle_timeouts.wrapping_add(1),
            ..c
        },
        SessionEvent::PeerClosed => VenueCounters {
            disconnects: c.disconnects.wrapping_add(1),
            ..c
        },
        SessionEvent::SocketFailed => VenueCounters {
            disconnects: c.disconnects.wrapping_add(1),
            ..c
        },
        SessionEvent::Payload(payload) => counted_frame(c, payload@.len()),
        SessionEvent::RestBody(payload) => counted_frame(c, payload@.len()),
        SessionEvent::StopRequested => c,
    }
}

/// Counters after a frame of so many bytes.
pub open spec fn counted_frame(c: VenueCounters, bytes: nat) -> VenueCounters {
    VenueCounters {
        frames: c.frames.wrapping_add(1),
        bytes: c.bytes.wrapping_add(bytes as u64),
        ..c
    }
}

/// Counters after a message was sent into a channel: one more drop where it
/// pushed another out.
pub open spec fn counted_drop(
    c: VenueCounters,
    tx: channel::ChannelView<IngestMessage>,
) -> VenueCounters {
    if !tx.closed && tx.is_full() {
        VenueCounters { dropped: c.dropped.wrapping_add(1), ..c }
    } else {
        c
    }
}

/// Hands a message downstream. Says whether anything is still listening there.
pub fn publish(
    tx: &mut Channel<IngestMessage>,
    counters: &mut VenueCounters,
    message: IngestMessage,
) -> (listening: bool)
    requires
        old(tx)@.wf(),
    ensures
        final(tx)@.wf(),
        final(tx)@ == channel::after_send(old(tx)@, message),
        *final(counters) == counted_drop(*old(counters), old(tx)@),
        listening == !old(tx)@.closed,
{
    match tx.send(message) {
        SendOutcome::Sent => true,
        SendOutcome::DroppedOldest(_) => {
            counters.record_drop();
            true
        },
        SendOutcome::Closed(_) => false,
    }
}

/// Counts a frame and hands it downstream. Never waits.
pub fn emit(
    tx: &mut Channel<IngestMessage>,
    counters: &mut VenueCounters,
    frame: RawFrame,
) -> (listening: bool)
    requires
        old(tx)@.wf(),
    ensures
        final(tx)@.wf(),
        final(tx)@ == channel::after_send(old(tx)@, IngestMessage::Frame(frame)),
        *final(counters) == counted_drop(
            counted_frame(*old(counters), frame.payload@.len()),
            old(tx)@,
        ),
        listening == !old(tx)@.closed,
{
    counters.record_frame(frame.payload.len());
    publish(tx, counters, IngestMessage::Frame(frame))
}

/// One turn of a session: counts what was reported, hands frames downstream, and
/// says how the session ends if it does. A depth snapshot that finds nobody
/// listening ends nothing by itself: the next frame will.
pub fn session_step(
    tx: &mut Channel<IngestMessage>,
    counters: &mut VenueCounters,
    venue: VenueId,
    at: IngestTime,
    event: SessionEvent,
) -> (step: SessionStep)
    requires
        old(tx)@.wf(),
    ensures
        final(tx)@.wf(),
        match brings(event, venue, at) {
            Some(frame) => {
                &&& final(tx)@ == channel::after_send(old(tx)@, IngestMessage::Frame(frame))
                &&& *final(counters) == counted_drop(counted(*old(counters), event), old(tx)@)
                &&& step == (if old(tx)@.closed && event is Payload {
                    SessionStep::End(SessionEnd::Downstream)
                } else {
                    SessionStep::Continue
                })
            },
            None => {
                &&& final(tx)@ == old(tx)@
                &&& *final(counters) == counted(*old(counters), event)
                &&& step == (match ends_with(event) {
                    Some(end) => SessionStep::End(end),
                    None => SessionStep::Continue,
                })
            },
        },
{
    match event {
        SessionEvent::ConnectFailed => {
            counters.record_connect_failure();
            SessionStep::End(SessionEnd::ConnectFailed)
        },
        SessionEvent::SubscribeFailed => {
            counters.record_connect_failure();
            SessionStep::End(SessionEnd::ConnectFailed)
        },
        SessionEvent::Subscribed => {
            counters.record_connect();
            SessionStep::Continue
        },
        SessionEvent::StopRequested => SessionStep::End(SessionEnd::Stopped),
        SessionEvent::RestBody(body) => {
            let _ = emit(tx, counters, RawFrame::rest_snapshot(venue, body, at));
            SessionStep::Continue
        },
        SessionEvent::IdleTimeout => {
            counters.record_idle_timeout();
            SessionStep::End(SessionEnd::Idle)
        },
        SessionEvent::PeerClosed => {
            counters.record_disconnect();
            SessionStep::End(SessionEnd::Closed)
        },
        SessionEvent::SocketFailed => {
            counters.record_disconnect();
            SessionStep::End(SessionEnd::Errored)
        },
        SessionEvent::Payload(payload) => {
            if emit(tx, counters, RawFrame::new(venue, payload, at)) {
                SessionStep::Continue
            } else {
                SessionStep::End(SessionEnd::Downstream)
            }
        },
    }
}

/// A depth snapshot is asked for.
pub fn rest_asked(counters: &mut VenueCounters)
    ensures
        *final(counters) == (VenueCounters {
            rest_fetches: old(counters).rest_fetches.wrapping_add(1),
            ..*old(counters)
        }),
{
    counters.record_rest_fetch();
}

/// A depth snapshot did not come: how long to wait before asking again. The
/// session goes on meanwhile.
pub fn rest_failed<J: Jitter>(counters: &mut VenueCounters, backoff: &mut Backoff<J>) -> (delay:
    Duration)
    requires
        old(backoff).jitter.accepts(old(backoff).next_ceiling()),
    ensures
        *final(counters) == (VenueCounters {
            rest_failures: old(counters).rest_failures.wrapping_add(1),
            ..*old(counters)
        }),
        delay@ <= old(backoff).next_ceiling(),
        old(backoff).jitter.may_pick(
            old(backoff).next_ceiling(),
            delay@,
            &final(backoff).jitter,
        ),
        final(backoff).policy == old(backoff).policy,
        final(backoff).attempt == (if old(backoff).attempt < u32::MAX {
            old(backoff).attempt + 1
        } else {
            u32::MAX as int
        }),
{
    counters.record_rest_failure();
    backoff.next_delay()
}

/// What the loop over sessions does next.
#[derive(Debug)]
pub enum LoopStep {
    /// Wait so long, then connect again.
    ReconnectAfter(Duration),
    /// Stop.
    Finish,
}

/// Between two sessions: the aggregator is told that the stream ended, before
/// any waiting, so that its book is distrusted for the whole of it; then the
/// schedule says how long to wait. A session that ended for good is not followed
/// by anything.
pub fn after_session<J: Jitter>(
    tx: &mut Channel<IngestMessage>,
    counters: &mut VenueCounters,
    backoff: &mut Backoff<J>,
    venue: VenueId,
    end: SessionEnd,
    lasted: Duration,
    at: IngestTime,
) -> (step: LoopStep)
    requires
        old(tx)@.wf(),
        old(backoff).jitter.accepts(
            crate::backoff::schedule(
                old(backoff).policy.base@,
                old(backoff).policy.cap@,
                attempt_after(*old(backoff), lasted@),
            ),
        ),
    ensures
        final(tx)@.wf(),
        final(backoff).policy == old(backoff).policy,
        match step {
            LoopStep::Finish => {
                &&& !retries(end)
                &&& final(tx)@ == old(tx)@
                &&& *final(counters) == *old(counters)
                &&& *final(backoff) == *old(backoff)
            },
            LoopStep::ReconnectAfter(delay) => {
                let attempt = attempt_after(*old(backoff), lasted@);
                let ceiling = crate::backoff::schedule(
                    old(backoff).policy.base@,
                    old(backoff).policy.cap@,
                    attempt,
                );
                &&& retries(end)
                &&& final(tx)@ == channel::after_send(
                    old(tx)@,
                    IngestMessage::SessionEnded { venue, at, end },
                )
                &&& *final(counters) == counted_drop(*old(counters), old(tx)@)
                &&& delay@ <= ceiling
                &&& old(backoff).jitter.may_pick(ceiling, delay@, &final(backoff).jitter)
                &&& final(backoff).attempt == (if attempt < u32::MAX {
                    attempt + 1
                } else {
                    u32::MAX as nat
                })
            },
        },
{
    if !end.should_retry() {
        return LoopStep::Finish;
    }
    let _ = publish(tx, counters, IngestMessage::SessionEnded { venue, at, end });
    let _ = backoff.note_session(lasted);
    LoopStep::ReconnectAfter(backoff.next_delay())
}

/// How many consecutive failures a session counts as: none where it lasted long
/// enough to be a recovery.
pub open spec fn attempt_after<J: Jitter>(b: Backoff<J>, lasted: nat) -> nat {
    if lasted >= b.policy.min_stable@ {
        0
    } else {
        b.attempt as nat
    }
}

/// A session goes on through what a venue sends and ends with anything that says
/// the stream is gone, each by the name of its cause. It is tried again unless a
/// stop was asked for.
pub proof fn law_a_session_ends_for_its_reason(event: SessionEvent)
    ensures
        ends_with(event) is None <==> event is Subscribed || event is RestBody || event is Payload,
        ends_with(event) == Some(SessionEnd::ConnectFailed) <==> event is ConnectFailed
            || event is SubscribeFailed,
        ends_with(event) == Some(SessionEnd::Idle) <==> event is IdleTimeout,
        ends_with(event) == Some(SessionEnd::Closed) <==> event is PeerClosed,
        ends_with(event) == Some(SessionEnd::Errored) <==> event is SocketFailed,
        ends_with(event) matches Some(end) ==> (retries(end) <==> !(event is StopRequested)),
{
}

/// What a venue sends goes on as it came: the bytes unchanged, under the venue's
/// name and the time of arrival, and marked by where it came from. Nothing else
/// brings a frame.
pub proof fn law_bytes_go_on_as_they_came(event: SessionEvent, venue: VenueId, at: IngestTime)
    ensures
        brings(event, venue, at) is Some <==> event is Payload || event is RestBody,
        brings(event, venue, at) matches Some(frame) ==> {
            &&& frame.venue == venue
            &&& frame.ingest_ts == at
            &&& event matches SessionEvent::Payload(bytes) ==> frame.payload == bytes
                && frame.source == FrameSource::WebSocket
            &&& event matches SessionEvent::RestBody(bytes) ==> frame.payload == bytes
                && frame.source == FrameSource::RestSnapshot
        },
{
}

/// Every event of a session counts once, in one place: what came as a frame with
/// its bytes, an opened connection as one, and each way a connection dies apart
/// from the others. A stop that was asked for counts as nothing. What the
/// aggregator counts is left alone.
pub proof fn law_every_event_counts_in_one_place(c: VenueCounters, event: SessionEvent)
    requires
        c.frames < u64::MAX,
        c.connects < u64::MAX,
        c.disconnects < u64::MAX,
        c.connect_failures < u64::MAX,
        c.idle_timeouts < u64::MAX,
    ensures
        ({
            let then = counted(c, event);
            &&& then.frames + then.connects + then.disconnects + then.connect_failures
                + then.idle_timeouts == c.frames + c.connects + c.disconnects
                + c.connect_failures + c.idle_timeouts + if event is StopRequested {
                0int
            } else {
                1
            }
            &&& then.frames != c.frames <==> event is Payload || event is RestBody
            &&& then.connects != c.connects <==> event is Subscribed
            &&& then.disconnects != c.disconnects <==> event is PeerClosed
                || event is SocketFailed
            &&& then.connect_failures != c.connect_failures <==> event is ConnectFailed
                || event is SubscribeFailed
            &&& then.idle_timeouts != c.idle_timeouts <==> event is IdleTimeout
            &&& event matches SessionEvent::Payload(bytes) ==> (c.bytes + bytes@.len() <= u64::MAX
                ==> then.bytes == c.bytes + bytes@.len())
            &&& event matches SessionEvent::RestBody(bytes) ==> (c.bytes + bytes@.len() <= u64::MAX
                ==> then.bytes == c.bytes + bytes@.len())
            &&& !(event is Payload) && !(event is RestBody) ==> then.bytes == c.bytes
            &&& then.dropped == c.dropped
            &&& then.rest_fetches == c.rest_fetches
            &&& then.rest_failures == c.rest_failures
            &&& then.parse_errors == c.parse_errors
            &&& then.heartbeats == c.heartbeats
            &&& then.desyncs == c.desyncs
            &&& then.applied == c.applied
        }),
{
}

/// A drop is counted exactly where sending pushes a message out of the queue.
pub proof fn law_a_drop_is_counted_where_one_is_lost(
    c: VenueCounters,
    tx: channel::ChannelView<IngestMessage>,
    message: IngestMessage,
)
    requires
        tx.wf(),
        c.dropped < u64::MAX,
    ensures
        ({
            let then = channel::after_send(tx, message);
            let lost = tx.queued.len() + (if tx.closed {
                0int
            } else {
                1
            }) - then.queued.len();
            counted_drop(c, tx) == (VenueCounters { dropped: (c.dropped + lost) as u64, ..c })
        }),
{
    channel::law_only_a_full_channel_loses_its_oldest(tx, message);
}

/// A session that lasted long enough starts the schedule over; a shorter one
/// leaves it where it was.
pub proof fn law_only_a_stable_session_resets<J: Jitter>(b: Backoff<J>, lasted: nat)
    ensures
        b.policy.min_stable@ <= lasted ==> attempt_after(b, lasted) == 0,
        lasted < b.policy.min_stable@ ==> attempt_after(b, lasted) == b.attempt,
{
}

} // verus!
