//! Raw frames as they are recorded and replayed.
//!
//! Time is kept as an offset from the tape's first frame: a monotonic reading
//! means nothing outside the process that took it. The wall clock is kept for a
//! reader of the file and for nothing else.
use vstd::prelude::*;
use vstd::utf8::{encode_utf8, valid_utf8};

use crate::channel;
use crate::channel::{Channel, OfferOutcome, SendOutcome};
use crate::event::VenueId;
use crate::ingest::{FrameSource, IngestMessage, RawFrame, SessionEnd};
use crate::text;
use crate::time;
use crate::time::{min_nat, minus_nat, Duration, IngestTime, SystemTime};

verus! {

/// `std::str::Utf8Error`.
#[verifier::external_type_specification]
#[verifier::external_body]
pub struct ExUtf8Error(std::str::Utf8Error);

/// `std::str::from_utf8`: the bytes as a text, exactly where they are valid
/// UTF-8.
pub assume_specification<'a>[ std::str::from_utf8 ](v: &'a [u8]) -> (r: Result<
    &'a str,
    std::str::Utf8Error,
>)
    ensures
        r is Ok <==> valid_utf8(v@),
        r matches Ok(s) ==> encode_utf8(s@) == v@,
;

/// What recording can fail with.
#[derive(Clone, Copy, Debug, PartialEq, Eq, Structural)]
pub enum TapeError {
    /// A frame's payload was no valid UTF-8, and a tape holds text.
    NonUtf8Payload,
}

/// Whether a record is bytes from a venue or a session boundary. Without the
/// boundaries a replayed reconnect would look like a gap.
#[derive(Clone, Copy, Debug, PartialEq, Eq, Structural)]
pub enum RecordKind {
    Frame,
    SessionEnded,
}

impl RecordKind {
    pub fn is_frame(&self) -> (b: bool)
        ensures
            b == (*self == RecordKind::Frame),
    {
        match self {
            RecordKind::Frame => true,
            RecordKind::SessionEnded => false,
        }
    }
}

/// One record of a tape.
#[derive(Debug)]
pub struct TapeRecord {
    pub venue: VenueId,
    /// Offset from the tape's first frame.
    pub elapsed_nanos: u64,
    /// Wall clock at recording time.
    pub recorded_wall_unix_nanos: u64,
    /// Empty for a session boundary.
    pub payload: String,
    pub source: FrameSource,
    pub kind: RecordKind,
}

/// Nanoseconds, or the largest number that fits.
pub open spec fn tape_nanos(n: nat) -> nat {
    min_nat(n, u64::MAX as nat)
}

/// Nanoseconds since the epoch, or the largest number that fits; zero before it.
pub open spec fn tape_wall(wall: int) -> nat {
    if wall < 0 {
        0
    } else {
        tape_nanos(wall as nat)
    }
}

/// Whether a record is that of a message, on a tape with that start.
pub open spec fn records(r: TapeRecord, m: IngestMessage, start: IngestTime) -> bool {
    match m {
        IngestMessage::Frame(frame) => {
            &&& r.venue == frame.venue
            &&& r.elapsed_nanos == tape_nanos(
                minus_nat(frame.ingest_ts.mono_nanos(), start.mono_nanos()),
            )
            &&& r.recorded_wall_unix_nanos == tape_wall(frame.ingest_ts.wall_nanos())
            &&& encode_utf8(r.payload@) == frame.payload@
            &&& r.source == frame.source
            &&& r.kind == RecordKind::Frame
        },
        IngestMessage::SessionEnded { venue, at, .. } => {
            &&& r.venue == venue
            &&& r.elapsed_nanos == tape_nanos(minus_nat(at.mono_nanos(), start.mono_nanos()))
            &&& r.recorded_wall_unix_nanos == tape_wall(at.wall_nanos())
            &&& r.payload@.len() == 0
            &&& r.source == FrameSource::WebSocket
            &&& r.kind == RecordKind::SessionEnded
        },
    }
}

/// Whether a message can be recorded.
pub open spec fn recordable(m: IngestMessage) -> bool {
    m matches IngestMessage::Frame(frame) ==> valid_utf8(frame.payload@)
}

/// Nanoseconds since the epoch, or the largest number that fits; zero before it.
fn wall_nanos(t: SystemTime) -> (n: u64)
    ensures
        n == tape_wall(t@),
{
    t.since_epoch().whole_nanos()
}

/// The record of a frame, on a tape with that start. A payload that is no text is
/// refused rather than altered.
pub fn frame_record(frame: &RawFrame, start: IngestTime) -> (r: Result<TapeRecord, TapeError>)
    ensures
        match r {
            Ok(record) => recordable(IngestMessage::Frame(*frame)) && records(
                record,
                IngestMessage::Frame(*frame),
                start,
            ),
            Err(e) => !recordable(IngestMessage::Frame(*frame)) && e == TapeError::NonUtf8Payload,
        },
{
    let payload = match std::str::from_utf8(frame.payload.as_slice()) {
        Ok(s) => s,
        Err(_) => {
            return Err(TapeError::NonUtf8Payload);
        },
    };
    Ok(
        TapeRecord {
            venue: frame.venue,
            elapsed_nanos: frame.ingest_ts.since(start).whole_nanos(),
            recorded_wall_unix_nanos: wall_nanos(frame.ingest_ts.wall()),
            payload: payload.to_owned(),
            source: frame.source,
            kind: RecordKind::Frame,
        },
    )
}

/// The record of a message, on a tape with that start: a frame's, or that of the
/// boundary where one connection ended and the next began.
pub fn record_of(message: &IngestMessage, start: IngestTime) -> (r: Result<TapeRecord, TapeError>)
    ensures
        match r {
            Ok(record) => recordable(*message) && records(record, *message, start),
            Err(e) => !recordable(*message) && e == TapeError::NonUtf8Payload,
        },
{
    match message {
        IngestMessage::Frame(frame) => frame_record(frame, start),
        IngestMessage::SessionEnded { venue, at, .. } => Ok(
            TapeRecord {
                venue: *venue,
                elapsed_nanos: at.since(start).whole_nanos(),
                recorded_wall_unix_nanos: wall_nanos(at.wall()),
                payload: String::new(),
                source: FrameSource::WebSocket,
                kind: RecordKind::SessionEnded,
            },
        ),
    }
}

/// One record read off a tape, before it is given a time in this process.
#[derive(Debug, PartialEq, Eq)]
pub struct TapedFrame {
    pub venue: VenueId,
    /// Empty for a session boundary.
    pub payload: Vec<u8>,
    /// Offset from the tape's first frame: replay orders and paces by this.
    pub elapsed: Duration,
    /// Wall clock at recording time.
    pub recorded_wall: SystemTime,
    pub source: FrameSource,
    /// Whether this is the boundary between two sessions.
    pub session_ended: bool,
}

impl Clone for TapedFrame {
    fn clone(&self) -> (f: TapedFrame)
        ensures
            f == (TapedFrame { payload: f.payload, ..*self }),
            f.payload@ == self.payload@,
    {
        let payload = self.payload.clone();
        assert(payload@ =~= self.payload@);
        TapedFrame {
            venue: self.venue,
            payload,
            elapsed: self.elapsed,
            recorded_wall: self.recorded_wall,
            source: self.source,
            session_ended: self.session_ended,
        }
    }
}

impl TapedFrame {
    /// A record as it was read.
    pub fn from_record(record: &TapeRecord) -> (t: TapedFrame)
        ensures
            t.venue == record.venue,
            t.payload@ == encode_utf8(record.payload@),
            t.elapsed@ == record.elapsed_nanos,
            t.recorded_wall@ == record.recorded_wall_unix_nanos,
            t.source == record.source,
            t.session_ended == (record.kind == RecordKind::SessionEnded),
    {
        let epoch = SystemTime::epoch();
        let recorded_wall = match epoch.checked_add(
            Duration::from_nanos(record.recorded_wall_unix_nanos),
        ) {
            Some(t) => t,
            None => epoch,
        };
        TapedFrame {
            venue: record.venue,
            payload: text::bytes_of(record.payload.as_str()),
            elapsed: Duration::from_nanos(record.elapsed_nanos),
            recorded_wall,
            source: record.source,
            session_ended: !record.kind.is_frame(),
        }
    }

    /// The message of this record in a replay that starts at a base: its time is
    /// the base and the recorded offset. A tape does not say why a session ended.
    pub fn into_message(self, base: IngestTime) -> (m: IngestMessage)
        ensures
            replays(self, m, base),
    {
        let at = base.advanced_by(self.elapsed);
        if self.session_ended {
            return IngestMessage::SessionEnded {
                venue: self.venue,
                at,
                end: SessionEnd::Closed,
            };
        }
        IngestMessage::Frame(
            match self.source {
                FrameSource::WebSocket => RawFrame::new(self.venue, self.payload, at),
                FrameSource::RestSnapshot => RawFrame::rest_snapshot(self.venue, self.payload, at),
            },
        )
    }
}

/// Whether a moment is a base and an offset.
pub open spec fn is_offset(at: IngestTime, base: IngestTime, elapsed: nat) -> bool {
    &&& at.mono_nanos() == time::advanced_mono(base.mono_nanos(), elapsed)
    &&& at.wall_nanos() == time::advanced_wall(base.wall_nanos(), elapsed)
}

/// Whether a message is that of a record in a replay that starts at a base.
pub open spec fn replays(t: TapedFrame, m: IngestMessage, base: IngestTime) -> bool {
    match m {
        IngestMessage::SessionEnded { venue, at, end } => {
            &&& t.session_ended
            &&& venue == t.venue
            &&& is_offset(at, base, t.elapsed@)
            &&& end == SessionEnd::Closed
        },
        IngestMessage::Frame(frame) => {
            &&& !t.session_ended
            &&& frame.venue == t.venue
            &&& frame.payload == t.payload
            &&& frame.source == t.source
            &&& is_offset(frame.ingest_ts, base, t.elapsed@)
        },
    }
}

/// Whether a record was read as it is.
pub open spec fn reads(t: TapedFrame, r: TapeRecord) -> bool {
    &&& t.venue == r.venue
    &&& t.payload@ == encode_utf8(r.payload@)
    &&& t.elapsed@ == r.elapsed_nanos
    &&& t.source == r.source
    &&& t.session_ended == (r.kind == RecordKind::SessionEnded)
}

/// What was recorded is what is replayed: a frame comes back with its venue, its
/// bytes and its source, a boundary as a boundary, each at the base and the
/// offset that it had on the tape.
pub proof fn law_a_recorded_message_is_replayed(
    m: IngestMessage,
    r: TapeRecord,
    t: TapedFrame,
    again: IngestMessage,
    start: IngestTime,
    base: IngestTime,
)
    requires
        records(r, m, start),
        reads(t, r),
        replays(t, again, base),
    ensures
        again.about() == m.about(),
        m is Frame <==> again is Frame,
        match (m, again) {
            (IngestMessage::Frame(was), IngestMessage::Frame(is)) => {
                &&& is.payload@ == was.payload@
                &&& is.source == was.source
                &&& is_offset(
                    is.ingest_ts,
                    base,
                    tape_nanos(minus_nat(was.ingest_ts.mono_nanos(), start.mono_nanos())),
                )
            },
            (
                IngestMessage::SessionEnded { at: was, .. },
                IngestMessage::SessionEnded { at: is, .. },
            ) => is_offset(
                is,
                base,
                tape_nanos(minus_nat(was.mono_nanos(), start.mono_nanos())),
            ),
            _ => false,
        },
{
}

/// Two replays of one tape keep its order and its spacing: whatever the base, two
/// records lie as far apart as on the tape, as long as the clock can show them.
pub proof fn law_replay_keeps_the_spacing(
    a: IngestTime,
    b: IngestTime,
    base: IngestTime,
    first: nat,
    second: nat,
)
    requires
        is_offset(a, base, first),
        is_offset(b, base, second),
        base.mono_nanos() + first <= time::READING_LIMIT,
        base.mono_nanos() + second <= time::READING_LIMIT,
    ensures
        b.mono_nanos() - a.mono_nanos() == second - first,
{
}

/// Outcome of a replay.
#[derive(Clone, Copy, Debug, PartialEq, Eq, Structural)]
pub struct ReplayStats {
    pub frames_sent: u64,
    /// Frames that replay pushed out of a full channel.
    pub dropped: u64,
}

impl Default for ReplayStats {
    fn default() -> (s: ReplayStats)
        ensures
            s.frames_sent == 0,
            s.dropped == 0,
    {
        ReplayStats { frames_sent: 0, dropped: 0 }
    }
}

/// How long the tape waited before a record, after the one before it.
pub fn gap_before(elapsed: Duration, previous: Duration) -> (d: Duration)
    ensures
        d@ == minus_nat(elapsed@, previous@),
{
    elapsed.saturating_sub(previous)
}

/// Sends a replayed message as a live venue would: the oldest gives way where the
/// consumer is behind, and is counted. Says whether anything is still listening.
pub fn replay_send(
    tx: &mut Channel<IngestMessage>,
    stats: &mut ReplayStats,
    message: IngestMessage,
) -> (listening: bool)
    requires
        old(tx)@.wf(),
        old(stats).frames_sent < u64::MAX,
        old(stats).dropped < u64::MAX,
    ensures
        final(tx)@.wf(),
        final(tx)@ == channel::after_send(old(tx)@, message),
        final(stats).frames_sent == old(stats).frames_sent + 1,
        final(stats).dropped == old(stats).dropped + if !old(tx)@.closed && old(tx)@.is_full() {
            1int
        } else {
            0
        },
        listening == !old(tx)@.closed,
{
    stats.frames_sent = stats.frames_sent + 1;
    match tx.send(message) {
        SendOutcome::Sent => true,
        SendOutcome::DroppedOldest(_) => {
            stats.dropped = stats.dropped + 1;
            true
        },
        SendOutcome::Closed(_) => false,
    }
}

/// Offers a replayed message to a consumer that is waited for: nothing gives way to
/// it. It counts as sent once it is settled, and is handed back where there is no
/// room yet.
pub fn replay_offer(
    tx: &mut Channel<IngestMessage>,
    stats: &mut ReplayStats,
    message: IngestMessage,
) -> (r: OfferOutcome<IngestMessage>)
    requires
        old(tx)@.wf(),
        old(stats).frames_sent < u64::MAX,
    ensures
        final(tx)@.wf(),
        final(stats).dropped == old(stats).dropped,
        final(stats).frames_sent == old(stats).frames_sent + if r is Full {
            0int
        } else {
            1
        },
        match r {
            OfferOutcome::Closed(back) => old(tx)@.closed && back == message && final(tx)@
                == old(tx)@,
            OfferOutcome::Full(back) => !old(tx)@.closed && old(tx)@.is_full() && back == message
                && final(tx)@ == old(tx)@,
            OfferOutcome::Sent => !old(tx)@.closed && !old(tx)@.is_full() && final(tx)@
                == channel::after_send(old(tx)@, message),
        },
{
    match tx.offer(message) {
        OfferOutcome::Full(back) => OfferOutcome::Full(back),
        settled => {
            stats.frames_sent = stats.frames_sent + 1;
            settled
        },
    }
}

/// A record keeps both clocks: its offset is the time since the tape began, to the
/// nanosecond, and the wall clock is what it showed, where they fit.
pub proof fn law_a_record_keeps_both_clocks(r: TapeRecord, m: IngestMessage, start: IngestTime)
    requires
        records(r, m, start),
    ensures
        ({
            let at = match m {
                IngestMessage::Frame(frame) => frame.ingest_ts,
                IngestMessage::SessionEnded { at, .. } => at,
            };
            &&& start.mono_nanos() <= at.mono_nanos() <= start.mono_nanos() + u64::MAX
                ==> start.mono_nanos() + r.elapsed_nanos == at.mono_nanos()
            &&& at.mono_nanos() < start.mono_nanos() ==> r.elapsed_nanos == 0
            &&& 0 <= at.wall_nanos() <= u64::MAX ==> r.recorded_wall_unix_nanos == at.wall_nanos()
            &&& at.wall_nanos() < 0 ==> r.recorded_wall_unix_nanos == 0
        }),
        r.kind == RecordKind::SessionEnded <==> m is SessionEnded,
        m is SessionEnded ==> r.payload@.len() == 0,
{
}

} // verus!
