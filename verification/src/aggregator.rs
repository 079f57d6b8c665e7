//! The owner of every book: what a frame does to a venue's account, and what is
//! published once per tick.
//!
//! Every duration here is measured on the monotonic clock. The wall clock
//! appears once per snapshot, for a reader to anchor to.
use vstd::prelude::*;

use crate::book;
use crate::book::{same_status, Book, BookState, DesyncReason, Integrity, Overflow};
use crate::channel::ChannelMetrics;
use crate::decimal;
use crate::event::{Level, Symbol, VenueId};
use crate::ingest::IngestMessage;
use crate::ladder;
use crate::lease;
use crate::metrics;
use crate::metrics::{Metrics, VenueCounters, VenueCountersSnapshot};
use crate::stream;
use crate::stream::StreamId;
use crate::text;
use crate::time::{min_nat, minus_nat, Duration, IngestTime, DURATION_LIMIT};

verus! {

/// How often a snapshot is published unless told otherwise, in milliseconds.
pub const DEFAULT_TICK_MS: u64 = 250;

/// How many snapshots are held for a slow subscriber.
pub const BROADCAST_CAPACITY: usize = 32;

/// The clock that every duration in a snapshot is measured on.
pub const INGEST_MONOTONIC: &'static str = "ingest_monotonic";

/// What a book is, in one word.
#[derive(Clone, Copy, Debug, PartialEq, Eq, Structural)]
pub enum BookStatus {
    /// No data. Different from bad data.
    Uninitialized,
    /// Data, trusted to the degree its integrity states.
    Live,
    /// Data that is not trusted.
    Desynced,
}

/// What a state is, in one word.
pub open spec fn status_of(s: BookState) -> BookStatus {
    match s {
        BookState::Uninitialized => BookStatus::Uninitialized,
        BookState::Live { .. } => BookStatus::Live,
        BookState::Desynced { .. } => BookStatus::Desynced,
    }
}

/// One venue's account.
#[derive(Debug)]
pub struct VenueState {
    pub venue: VenueId,
    pub book: Book,
    /// Counters of its own, for a stream that was not registered.
    pub own: VenueCounters,
    /// Counters as of the previous tick.
    pub previous: VenueCountersSnapshot,
    /// Time spent desynced, any desync in progress left out.
    pub desynced_total: Duration,
    /// Start of the desync in progress, if any.
    pub desynced_since: Option<IngestTime>,
    /// When the current status began.
    pub status_since: IngestTime,
}

/// The time spent desynced after a transition: an end adds what the desync in
/// progress took.
pub open spec fn total_after(
    total: nat,
    since: Option<IngestTime>,
    from: BookState,
    to: BookState,
    at: IngestTime,
) -> nat {
    match since {
        Some(s) => if from is Desynced && !(to is Desynced) {
            min_nat(total + minus_nat(at.mono_nanos(), s.mono_nanos()), DURATION_LIMIT as nat)
        } else {
            total
        },
        None => total,
    }
}

/// The start of the desync in progress after a transition. Another reason for
/// the same distrust does not start it anew.
pub open spec fn since_after(
    since: Option<IngestTime>,
    from: BookState,
    to: BookState,
    at: IngestTime,
) -> Option<IngestTime> {
    if !(from is Desynced) && to is Desynced {
        Some(at)
    } else if from is Desynced && !(to is Desynced) {
        None
    } else {
        since
    }
}

/// Counters after a transition: one more desync where trust was lost.
pub open spec fn counted_transition(
    c: VenueCounters,
    from: BookState,
    to: BookState,
) -> VenueCounters {
    if !(from is Desynced) && to is Desynced {
        VenueCounters { desyncs: c.desyncs.wrapping_add(1), ..c }
    } else {
        c
    }
}

impl VenueState {
    /// What the book is, in one word.
    pub fn status(&self) -> (s: BookStatus)
        ensures
            s == status_of(self.book.status()),
    {
        match self.book.state() {
            BookState::Uninitialized => BookStatus::Uninitialized,
            BookState::Live { .. } => BookStatus::Live,
            BookState::Desynced { .. } => BookStatus::Desynced,
        }
    }

    /// Folds a change of state into the account.
    pub fn note_transition(
        &mut self,
        counters: &mut VenueCounters,
        from: BookState,
        to: BookState,
        at: IngestTime,
    )
        ensures
            final(self).venue == old(self).venue,
            final(self).book == old(self).book,
            final(self).own == old(self).own,
            final(self).previous == old(self).previous,
            final(self).desynced_total@ == total_after(
                old(self).desynced_total@,
                old(self).desynced_since,
                from,
                to,
                at,
            ),
            final(self).desynced_since == since_after(old(self).desynced_since, from, to, at),
            final(self).status_since == at,
            *final(counters) == counted_transition(*old(counters), from, to),
    {
        let was_desynced = match from {
            BookState::Desynced { .. } => true,
            _ => false,
        };
        let is_desynced = match to {
            BookState::Desynced { .. } => true,
            _ => false,
        };
        if !was_desynced && is_desynced {
            self.desynced_since = Some(at);
            counters.record_desync();
        } else if was_desynced && !is_desynced {
            match self.desynced_since {
                Some(since) => {
                    self.desynced_total = self.desynced_total.saturating_add(at.since(since));
                },
                None => {},
            }
            self.desynced_since = None;
        }
        self.status_since = at;
    }

    /// The time spent desynced up to a moment.
    pub open spec fn desynced_up_to(self, now: IngestTime) -> nat {
        match self.desynced_since {
            Some(s) => min_nat(
                self.desynced_total@ + minus_nat(now.mono_nanos(), s.mono_nanos()),
                DURATION_LIMIT as nat,
            ),
            None => self.desynced_total@,
        }
    }

    /// The time spent desynced so far, a desync in progress included.
    pub fn desynced_total(&self, now: IngestTime) -> (d: Duration)
        ensures
            d@ == self.desynced_up_to(now),
    {
        match self.desynced_since {
            Some(since) => self.desynced_total.saturating_add(now.since(since)),
            None => self.desynced_total,
        }
    }
}

/// A desync that is still in progress when it is read counts as if it had ended
/// then: ending it at that moment adds just what was shown.
pub proof fn law_a_desync_in_progress_is_counted(
    s: VenueState,
    from: BookState,
    to: BookState,
    at: IngestTime,
)
    requires
        from is Desynced,
        !(to is Desynced),
        s.desynced_since is Some,
    ensures
        total_after(s.desynced_total@, s.desynced_since, from, to, at) == s.desynced_up_to(at),
        since_after(s.desynced_since, from, to, at) is None,
{
}

/// Why a book is not trusted, in words.
pub open spec fn reason_text(reason: DesyncReason) -> Seq<char> {
    match reason {
        DesyncReason::SequenceGap { expected, got } => "sequence gap: expected "@
            + text::number_text(expected as nat) + ", got "@ + text::number_text(got as nat),
        DesyncReason::ChecksumMismatch { expected, computed } => "checksum mismatch: venue said "@
            + text::number_text(expected as nat) + ", we computed "@ + text::number_text(
            computed as nat,
        ),
        DesyncReason::TimestampRegression { last_micros, got_micros } =>
            "timestamps went backwards: after "@ + text::number_text(last_micros as nat)
            + ", got "@ + text::number_text(got_micros as nat),
        DesyncReason::CrossedBook { best_bid, best_ask } => "crossed book: bid "@
            + decimal::plain_text(best_bid@) + " >= ask "@ + decimal::plain_text(best_ask@),
        DesyncReason::ConnectionLost => "connection lost"@,
        DesyncReason::AwaitingSnapshot => "awaiting a REST depth snapshot"@,
        DesyncReason::AuditMismatch { price, consecutive } => "depth audit mismatch at "@
            + decimal::plain_text(price@) + ", "@ + text::number_text(consecutive as nat)
            + " in a row"@,
        DesyncReason::SnapshotGap => "buffered deltas did not join onto the snapshot"@,
    }
}

/// Why a book is not trusted, in words, for a person deciding what to do.
pub fn describe(reason: DesyncReason) -> (r: String)
    ensures
        r@ == reason_text(reason),
{
    let mut out: Vec<char> = Vec::new();
    match reason {
        DesyncReason::SequenceGap { expected, got } => {
            text::push_text(&mut out, "sequence gap: expected ");
            text::push_all(&mut out, &text::number_chars(expected as u128));
            text::push_text(&mut out, ", got ");
            text::push_all(&mut out, &text::number_chars(got as u128));
        },
        DesyncReason::ChecksumMismatch { expected, computed } => {
            text::push_text(&mut out, "checksum mismatch: venue said ");
            text::push_all(&mut out, &text::number_chars(expected as u128));
            text::push_text(&mut out, ", we computed ");
            text::push_all(&mut out, &text::number_chars(computed as u128));
        },
        DesyncReason::TimestampRegression { last_micros, got_micros } => {
            text::push_text(&mut out, "timestamps went backwards: after ");
            text::push_all(&mut out, &text::number_chars(last_micros as u128));
            text::push_text(&mut out, ", got ");
            text::push_all(&mut out, &text::number_chars(got_micros as u128));
        },
        DesyncReason::CrossedBook { best_bid, best_ask } => {
            text::push_text(&mut out, "crossed book: bid ");
            text::push_text(&mut out, best_bid.to_text().as_str());
            text::push_text(&mut out, " >= ask ");
            text::push_text(&mut out, best_ask.to_text().as_str());
        },
        DesyncReason::ConnectionLost => {
            text::push_text(&mut out, "connection lost");
        },
        DesyncReason::AwaitingSnapshot => {
            text::push_text(&mut out, "awaiting a REST depth snapshot");
        },
        DesyncReason::AuditMismatch { price, consecutive } => {
            text::push_text(&mut out, "depth audit mismatch at ");
            text::push_text(&mut out, price.to_text().as_str());
            text::push_text(&mut out, ", ");
            text::push_all(&mut out, &text::number_chars(consecutive as u128));
            text::push_text(&mut out, " in a row");
        },
        DesyncReason::SnapshotGap => {
            text::push_text(&mut out, "buffered deltas did not join onto the snapshot");
        },
    }
    assert(out@ =~= reason_text(reason));
    text::text_of(&out)
}

/// What a venue's rules made of a frame.
#[derive(Debug)]
pub enum Fed {
    /// The venue's book after the frame, and how many of the frame's events were
    /// heartbeats.
    Updated { book: Book, heartbeats: u64 },
    /// The frame could not be parsed: nothing was learned from it.
    Unparsed,
}

/// One venue's view at snapshot time.
#[derive(Debug)]
pub struct VenueView {
    pub venue: VenueId,
    pub status: BookStatus,
    /// How strong the claim of a live book is; nothing for any other.
    pub integrity: Option<Integrity>,
    /// Why the book is not trusted, in words, when it is not.
    pub desync_reason: Option<String>,
    pub bid: Option<Level>,
    pub ask: Option<Level>,
    /// Exact, as text.
    pub spread: Option<String>,
    pub mid: Option<String>,
    /// Time since the last applied update.
    pub age_ms: Option<u64>,
    /// How long the book has held its current status.
    pub status_for_ms: u64,
    /// Time spent desynced since startup, any desync in progress included.
    pub desynced_total_ms: u64,
    /// Age of the last matching checksum.
    pub last_verified_ms: Option<u64>,
    /// Levels held, bids and asks.
    pub depth: (usize, usize),
    pub counters: VenueCountersSnapshot,
    /// Counters as of the previous tick, for rates over the tick.
    pub previous: VenueCountersSnapshot,
}

impl Clone for VenueView {
    fn clone(&self) -> (v: VenueView)
        ensures
            v == *self,
    {
        VenueView {
            venue: self.venue,
            status: self.status,
            integrity: self.integrity,
            desync_reason: self.desync_reason.clone(),
            bid: self.bid,
            ask: self.ask,
            spread: self.spread.clone(),
            mid: self.mid.clone(),
            age_ms: self.age_ms,
            status_for_ms: self.status_for_ms,
            desynced_total_ms: self.desynced_total_ms,
            last_verified_ms: self.last_verified_ms,
            depth: (self.depth.0, self.depth.1),
            counters: self.counters,
            previous: self.previous,
        }
    }
}

/// Whole milliseconds of nanoseconds, or the largest number that fits.
pub open spec fn ms(nanos: nat) -> nat {
    min_nat(nanos / 1_000_000, u64::MAX as nat)
}

/// A decimal's text, where there is a decimal.
pub open spec fn is_text_of(t: Option<String>, d: Option<decimal::Parts>) -> bool {
    match (t, d) {
        (Some(s), Some(p)) => s@ == decimal::plain_text(p),
        (None, None) => true,
        _ => false,
    }
}

/// The best bid's and the best ask's prices, where there are both.
pub open spec fn touch(b: Book) -> Option<(decimal::Parts, decimal::Parts)> {
    match (book::top_bid(b.bids()), book::top_ask(b.asks())) {
        (Some(bid), Some(ask)) => Some((bid.price@, ask.price@)),
        _ => None,
    }
}

/// The spread at the touch.
pub open spec fn spread_of(b: Book) -> Option<decimal::Parts> {
    match touch(b) {
        Some(t) => decimal::decimal_difference(t.1, t.0),
        None => None,
    }
}

/// The midpoint at the touch.
pub open spec fn mid_of(b: Book) -> Option<decimal::Parts> {
    match touch(b) {
        Some(t) => decimal::midpoint(t.1, t.0),
        None => None,
    }
}

/// Whether the spread and the midpoint at the touch can be held.
pub open spec fn priceable(b: Book) -> bool {
    touch(b) is Some ==> spread_of(b) is Some && mid_of(b) is Some
}

/// Whether a view shows a venue's account at a moment.
pub open spec fn shows(
    v: VenueView,
    s: VenueState,
    counters: VenueCountersSnapshot,
    now: IngestTime,
) -> bool {
    &&& v.venue == s.venue
    &&& v.status == status_of(s.book.status())
    &&& match s.book.status() {
        BookState::Live { integrity, last_verified, .. } => {
            &&& v.integrity == Some(integrity)
            &&& v.desync_reason is None
            &&& match last_verified {
                Some(at) => v.last_verified_ms == Some(
                    ms(minus_nat(now.mono_nanos(), at.mono_nanos())) as u64,
                ),
                None => v.last_verified_ms is None,
            }
        },
        BookState::Desynced { reason, .. } => {
            &&& v.integrity is None
            &&& v.desync_reason is Some && (v.desync_reason->0)@ == reason_text(reason)
            &&& v.last_verified_ms is None
        },
        BookState::Uninitialized => {
            &&& v.integrity is None
            &&& v.desync_reason is None
            &&& v.last_verified_ms is None
        },
    }
    &&& v.bid == book::top_bid(s.book.bids())
    &&& v.ask == book::top_ask(s.book.asks())
    &&& is_text_of(v.spread, spread_of(s.book))
    &&& is_text_of(v.mid, mid_of(s.book))
    &&& match s.book.updated_at() {
        Some(at) => v.age_ms == Some(
            ms(minus_nat(now.mono_nanos(), at.mono_nanos())) as u64,
        ),
        None => v.age_ms is None,
    }
    &&& v.status_for_ms == ms(minus_nat(now.mono_nanos(), s.status_since.mono_nanos()))
    &&& v.desynced_total_ms == ms(s.desynced_up_to(now))
    &&& v.depth.0 == s.book.bids().len()
    &&& v.depth.1 == s.book.asks().len()
    &&& v.counters == counters
    &&& v.previous == s.previous
}

/// One venue's view at a moment.
fn view_of(s: &VenueState, counters: VenueCountersSnapshot, now: IngestTime) -> (r: Result<
    VenueView,
    Overflow,
>)
    ensures
        match r {
            Ok(v) => priceable(s.book) && shows(v, *s, counters, now),
            Err(_) => !priceable(s.book),
        },
{
    let top = s.book.top_of_book(now);
    let (bids, asks) = s.book.depth();
    let spread = match top.try_spread() {
        Ok(Some(d)) => Some(d.to_text()),
        Ok(None) => None,
        Err(e) => {
            return Err(e);
        },
    };
    let mid = match top.try_mid() {
        Ok(Some(d)) => Some(d.to_text()),
        Ok(None) => None,
        Err(e) => {
            return Err(e);
        },
    };
    let (integrity, last_verified_ms, desync_reason) = match top.state {
        BookState::Live { integrity, last_verified, .. } => {
            let verified: Option<u64> = match last_verified {
                Some(at) => Some(now.since(at).whole_millis()),
                None => None,
            };
            (Some(integrity), verified, None)
        },
        BookState::Desynced { reason, .. } => (None, None, Some(describe(reason))),
        BookState::Uninitialized => (None, None, None),
    };
    let age_ms: Option<u64> = match top.age {
        Some(age) => Some(age.whole_millis()),
        None => None,
    };
    Ok(
        VenueView {
            venue: s.venue,
            status: s.status(),
            integrity,
            desync_reason,
            bid: top.bid,
            ask: top.ask,
            spread,
            mid,
            age_ms,
            status_for_ms: now.since(s.status_since).whole_millis(),
            desynced_total_ms: s.desynced_total(now).whole_millis(),
            last_verified_ms,
            depth: (bids, asks),
            counters,
            previous: s.previous,
        },
    )
}

/// Everything that is published, once per tick.
#[derive(Debug)]
pub struct Snapshot {
    pub symbol: String,
    /// Rises by one per snapshot, so that a reader who skipped some can say how
    /// many.
    pub seq: u64,
    /// Wall clock, for display only.
    pub wall_unix_ms: u64,
    /// Which clock every duration in this snapshot was measured on.
    pub clock: &'static str,
    /// The weakest integrity among live books, or nothing if none is live.
    pub weakest_integrity: Option<Integrity>,
    pub venues: Vec<VenueView>,
    pub channel: ChannelMetrics,
}

impl Clone for Snapshot {
    fn clone(&self) -> (s: Snapshot)
        ensures
            s == (Snapshot { venues: s.venues, ..*self }),
            s.venues@ == self.venues@,
    {
        let venues = self.venues.clone();
        assert(venues@ =~= self.venues@);
        Snapshot {
            symbol: self.symbol.clone(),
            seq: self.seq,
            wall_unix_ms: self.wall_unix_ms,
            clock: self.clock,
            weakest_integrity: self.weakest_integrity,
            venues,
            channel: self.channel,
        }
    }
}

/// The weakest integrity among live books.
pub open spec fn weakest(states: Seq<VenueState>) -> Option<Integrity>
    decreases states.len(),
{
    if states.len() == 0 {
        None
    } else {
        book::weaker_option(weakest(states.drop_last()), states.last().book.status().trust())
    }
}

/// Owns every book of one symbol; publishes snapshots.
#[derive(Debug)]
pub struct Aggregator {
    symbol: Symbol,
    venues: Vec<VenueState>,
    seq: u64,
}

/// What an aggregator is known by.
pub struct AggregatorView {
    pub symbol: Seq<char>,
    /// The venues' accounts, in the order of the venues.
    pub venues: Seq<VenueState>,
    /// How many snapshots were published.
    pub seq: u64,
}

impl View for Aggregator {
    type V = AggregatorView;

    closed spec fn view(&self) -> AggregatorView {
        AggregatorView { symbol: self.symbol@, venues: self.venues@, seq: self.seq }
    }
}

/// Whether a venue is tracked.
pub open spec fn tracks(states: Seq<VenueState>, venue: VenueId) -> bool {
    exists|i: int| 0 <= i < states.len() && (#[trigger] states[i]).venue == venue
}

/// Whether venues are in order, none twice.
pub open spec fn in_order(states: Seq<VenueState>) -> bool {
    forall|i: int, j: int|
        0 <= i < j < states.len() ==> (#[trigger] states[i]).venue.rank() < (
        #[trigger] states[j]).venue.rank()
}

/// The depth that venues' settings give a venue: that of the last setting for it.
pub open spec fn depth_for(settings: Seq<(VenueId, Option<usize>)>, venue: VenueId) -> Option<usize>
    decreases settings.len(),
{
    if settings.len() == 0 {
        None
    } else if settings.last().0 == venue {
        settings.last().1
    } else {
        depth_for(settings.drop_last(), venue)
    }
}

/// Whether settings name a venue.
pub open spec fn names(settings: Seq<(VenueId, Option<usize>)>, venue: VenueId) -> bool {
    exists|i: int| 0 <= i < settings.len() && (#[trigger] settings[i]).0 == venue
}

/// Whether a venue's account is at its start.
pub open spec fn fresh(s: VenueState, symbol: Seq<char>, depth: Option<usize>, now: IngestTime) -> bool {
    &&& s.book.for_venue() == s.venue
    &&& s.book.for_symbol()@ == symbol
    &&& s.book.bids().len() == 0
    &&& s.book.asks().len() == 0
    &&& s.book.status() == BookState::Uninitialized
    &&& s.book.updated_at() is None
    &&& s.book.depth_limit() == depth
    &&& s.own == metrics::zero_counters()
    &&& s.previous == metrics::shown(metrics::zero_counters())
    &&& s.desynced_total@ == 0
    &&& s.desynced_since is None
    &&& s.status_since == now
}

/// Whether a venue's account took a book in: a change of status is folded in, and
/// a checksum that matched again is none.
pub open spec fn took_in(s: VenueState, after: VenueState, book: Book, at: IngestTime) -> bool {
    let from = s.book.status();
    let to = book.status();
    &&& after.venue == s.venue
    &&& after.previous == s.previous
    &&& after.book == book
    &&& if same_status(from, to) {
        &&& after.desynced_total == s.desynced_total
        &&& after.desynced_since == s.desynced_since
        &&& after.status_since == s.status_since
    } else {
        &&& after.desynced_total@ == total_after(
            s.desynced_total@,
            s.desynced_since,
            from,
            to,
            at,
        )
        &&& after.desynced_since == since_after(s.desynced_since, from, to, at)
        &&& after.status_since == at
    }
}

/// Counters after a book was taken in.
pub open spec fn counted_book(c: VenueCounters, from: BookState, to: BookState) -> VenueCounters {
    if same_status(from, to) {
        c
    } else {
        counted_transition(c, from, to)
    }
}

/// Whether a book is another one that lost its connection.
pub open spec fn disconnected(b: Book, after: Book, at: IngestTime) -> bool {
    &&& after.for_venue() == b.for_venue()
    &&& after.for_symbol() == b.for_symbol()
    &&& after.bids() == b.bids()
    &&& after.asks() == b.asks()
    &&& after.updated_at() == b.updated_at()
    &&& after.depth_limit() == b.depth_limit()
    &&& after.status() == (BookState::Desynced { since: at, reason: DesyncReason::ConnectionLost })
}

/// A message for the aggregator, its frame already read by the venue's rules.
#[derive(Debug)]
pub enum FedMessage {
    /// What came of a frame that was received then.
    Frame { venue: VenueId, at: IngestTime, fed: Fed },
    /// A connection ended then.
    SessionEnded { venue: VenueId, at: IngestTime },
}

impl FedMessage {
    /// The venue that a message is about.
    pub open spec fn about(self) -> VenueId {
        match self {
            FedMessage::Frame { venue, .. } => venue,
            FedMessage::SessionEnded { venue, .. } => venue,
        }
    }
}

/// Whether a message did to a venue's account and counters what it should.
pub open spec fn applied(
    message: FedMessage,
    s: VenueState,
    after: VenueState,
    c: VenueCounters,
    counted: VenueCounters,
) -> bool {
    match message {
        FedMessage::Frame { at, fed: Fed::Updated { book, heartbeats }, .. } => {
            let processed = VenueCounters { applied: c.applied.wrapping_add(1), ..c };
            let moved = counted_book(processed, s.book.status(), book.status());
            &&& took_in(s, after, book, at)
            &&& counted == (VenueCounters {
                heartbeats: moved.heartbeats.wrapping_add(heartbeats),
                ..moved
            })
        },
        FedMessage::Frame { fed: Fed::Unparsed, .. } => {
            &&& after == (VenueState { own: after.own, ..s })
            &&& counted == (VenueCounters {
                applied: c.applied.wrapping_add(1),
                parse_errors: c.parse_errors.wrapping_add(1),
                ..c
            })
        },
        FedMessage::SessionEnded { at, .. } => {
            &&& disconnected(s.book, after.book, at)
            &&& took_in(s, after, after.book, at)
            &&& counted == counted_book(c, s.book.status(), after.book.status())
        },
    }
}

impl Aggregator {
    /// Every venue is tracked once, in order.
    pub open spec fn wf(self) -> bool {
        in_order(self@.venues)
    }

    /// An aggregator for one symbol, with the venues named and the depth each of
    /// their books may keep.
    pub fn new(symbol: Symbol, settings: &[(VenueId, Option<usize>)], now: IngestTime) -> (a:
        Aggregator)
        ensures
            a.wf(),
            a@.symbol == symbol@,
            a@.seq == 0,
            forall|v: VenueId| #[trigger] tracks(a@.venues, v) <==> names(settings@, v),
            forall|i: int|
                0 <= i < a@.venues.len() ==> fresh(
                    #[trigger] a@.venues[i],
                    symbol@,
                    depth_for(settings@, a@.venues[i].venue),
                    now,
                ),
    {
        let mut venues: Vec<VenueState> = Vec::new();
        let all: [VenueId; 4] = [
            VenueId::Coinbase,
            VenueId::Kraken,
            VenueId::Bitstamp,
            VenueId::Fake,
        ];
        let mut i: usize = 0;
        while i < 4
            invariant
                i <= 4,
                all@.len() == 4,
                forall|k: int| 0 <= k < 4 ==> (#[trigger] all@[k]).rank() == k,
                in_order(venues@),
                forall|k: int| 0 <= k < venues@.len() ==> (#[trigger] venues@[k]).venue.rank() < i,
                forall|v: VenueId|
                    #[trigger] tracks(venues@, v) <==> v.rank() < i && names(settings@, v),
                forall|k: int|
                    0 <= k < venues@.len() ==> fresh(
                        #[trigger] venues@[k],
                        symbol@,
                        depth_for(settings@, venues@[k].venue),
                        now,
                    ),
            decreases 4 - i,
        {
            let venue = all[i];
            let ghost before = venues@;
            let (named, depth) = setting_for(settings, venue);
            if named {
                let mut book = Book::new(venue, symbol.clone());
                if let Some(levels) = depth {
                    book = book.with_max_depth(levels);
                }
                venues.push(
                    VenueState {
                        venue,
                        book,
                        own: VenueCounters::default(),
                        previous: VenueCountersSnapshot::default(),
                        desynced_total: Duration::zero(),
                        desynced_since: None,
                        status_since: now,
                    },
                );
            }
            proof {
                assert forall|v: VenueId| #[trigger]
                    tracks(venues@, v) <==> v.rank() < i + 1 && names(settings@, v) by {
                    assert(tracks(before, v) <==> v.rank() < i && names(settings@, v));
                    if tracks(before, v) {
                        let k = choose|k: int|
                            0 <= k < before.len() && (#[trigger] before[k]).venue == v;
                        assert(venues@[k].venue == v);
                    }
                    if named && v == venue {
                        assert(venues@[before.len() as int].venue == v);
                    }
                    if tracks(venues@, v) {
                        let k = choose|k: int|
                            0 <= k < venues@.len() && (#[trigger] venues@[k]).venue == v;
                        if k < before.len() {
                            assert(before[k].venue == v);
                        }
                    }
                    assert(v.rank() == i ==> v == venue);
                }
            }
            i += 1;
        }
        assert forall|v: VenueId| #[trigger] tracks(venues@, v) <==> names(settings@, v) by {
            assert(v.rank() < 4);
        }
        Aggregator { symbol, venues, seq: 0 }
    }

    /// Where a venue's account stands.
    fn place(&self, venue: VenueId) -> (r: Option<usize>)
        ensures
            match r {
                Some(i) => i < self@.venues.len() && self@.venues[i as int].venue == venue,
                None => !tracks(self@.venues, venue),
            },
    {
        let mut i: usize = 0;
        while i < self.venues.len()
            invariant
                i <= self.venues@.len(),
                forall|k: int| 0 <= k < i ==> (#[trigger] self.venues@[k]).venue != venue,
            decreases self.venues@.len() - i,
        {
            if self.venues[i].venue == venue {
                return Some(i);
            }
            i += 1;
        }
        None
    }

    /// A venue's account, if it is tracked.
    pub fn venue(&self, venue: VenueId) -> (r: Option<&VenueState>)
        ensures
            match r {
                Some(s) => s.venue == venue && exists|i: int|
                    0 <= i < self@.venues.len() && *s == #[trigger] self@.venues[i],
                None => !tracks(self@.venues, venue),
            },
    {
        match self.place(venue) {
            Some(i) => {
                assert(self.venues@[i as int] == self@.venues[i as int]);
                Some(&self.venues[i])
            },
            None => None,
        }
    }

    /// Applies one message. What can go wrong with a frame is a property of that
    /// frame, recorded on its venue, and touches no other; a message for a venue
    /// that is not tracked touches nothing. A venue counts with its stream's
    /// counters, or with its own where the stream was not registered.
    pub fn apply(&mut self, message: FedMessage, m: &mut Metrics)
        requires
            old(self).wf(),
            old(m).wf(),
        ensures
            final(self).wf(),
            final(m).wf(),
            final(m).registered() == old(m).registered(),
            final(self)@.symbol == old(self)@.symbol,
            final(self)@.seq == old(self)@.seq,
            !tracks(old(self)@.venues, message.about()) ==> final(self)@.venues
                == old(self)@.venues && final(m).counts() == old(m).counts(),
            tracks(old(self)@.venues, message.about()) ==> exists|i: int|
                {
                    &&& 0 <= i < old(self)@.venues.len()
                    &&& (#[trigger] old(self)@.venues[i]).venue == message.about()
                    &&& final(self)@.venues == old(self)@.venues.update(i, final(self)@.venues[i])
                    &&& applied(
                        message,
                        old(self)@.venues[i],
                        final(self)@.venues[i],
                        counters_of(*old(m), old(self)@.venues[i], old(self)@.symbol),
                        counters_of(*final(m), final(self)@.venues[i], old(self)@.symbol),
                    )
                    &&& counts_only_for(
                        *old(m),
                        *final(m),
                        old(self)@.venues[i],
                        final(self)@.venues[i],
                        old(self)@.symbol,
                    )
                },
    {
        let venue = match &message {
            FedMessage::Frame { venue, .. } => *venue,
            FedMessage::SessionEnded { venue, .. } => *venue,
        };
        let i: usize = match self.place(venue) {
            Some(i) => i,
            None => {
                return;
            },
        };
        let ghost before = self@.venues;
        let ghost symbol = self@.symbol;
        let ghost measured = *m;
        assert(before[i as int].venue == message.about());
        assert(tracks(before, venue));
        let stream = StreamId::new(venue, self.symbol.clone());
        let state = &mut self.venues[i];
        let mut own = state.own;
        let ghost mut was = own;
        let ghost mut is = own;
        match m.stream_mut(&stream) {
            Some(counters) => {
                proof {
                    was = *counters;
                }
                state.take(message, counters);
                proof {
                    is = *counters;
                }
            },
            None => {
                state.take(message, &mut own);
                state.own = own;
            },
        }
        proof {
            let after = self@.venues;
            assert(after =~= before.update(i as int, after[i as int]));
            if stream::lists(measured.registered(), stream@) {
                let k = choose|k: int|
                    measured.at(k, stream@) && was == #[trigger] measured.counts()[k] && m.counts()
                        == measured.counts().update(k, is);
                let j = choose|j: int| measured.at(j, stream@);
                assert(m.at(k, stream@));
                let n = choose|n: int| m.at(n, stream@);
                measured.lemma_one_place(k, j, stream@);
                m.lemma_one_place(k, n, stream@);
            }
            assert(applied(
                message,
                before[i as int],
                after[i as int],
                counters_of(measured, before[i as int], symbol),
                counters_of(*m, after[i as int], symbol),
            ));
            assert(in_order(after)) by {
                assert forall|a: int, b: int| 0 <= a < b < after.len() implies (
                #[trigger] after[a]).venue.rank() < (#[trigger] after[b]).venue.rank() by {
                    assert(before[a].venue.rank() < before[b].venue.rank());
                }
            }
        }
    }
}

/// The counters that a venue counts with.
pub open spec fn counters_of(m: Metrics, s: VenueState, symbol: Seq<char>) -> VenueCounters {
    m.counted((s.venue, symbol), s.own)
}

/// Whether a venue counted, and nothing else did: with its stream's counters where
/// the stream was registered, with its own where it was not.
pub open spec fn counts_only_for(
    m: Metrics,
    after: Metrics,
    s: VenueState,
    then: VenueState,
    symbol: Seq<char>,
) -> bool {
    let stream = (s.venue, symbol);
    if stream::lists(m.registered(), stream) {
        &&& then.own == s.own
        &&& exists|k: int|
            m.at(k, stream) && after.counts() == m.counts().update(k, #[trigger] after.counts()[k])
    } else {
        after.counts() == m.counts()
    }
}

impl VenueState {
    /// Takes a message in.
    fn take(&mut self, message: FedMessage, counters: &mut VenueCounters)
        ensures
            applied(message, *old(self), *final(self), *old(counters), *final(counters)),
            final(self).own == old(self).own,
            final(self).venue == old(self).venue,
    {
        match message {
            FedMessage::Frame { venue: _, at, fed } => {
                counters.record_applied();
                match fed {
                    Fed::Updated { book, heartbeats } => {
                        let from = self.book.state();
                        let to = book.state();
                        self.book = book;
                        if !from.same_status(to) {
                            self.note_transition(counters, from, to, at);
                        }
                        counters.heartbeats = counters.heartbeats.wrapping_add(heartbeats);
                    },
                    Fed::Unparsed => {
                        counters.record_parse_error();
                    },
                }
            },
            FedMessage::SessionEnded { venue: _, at } => {
                let from = self.book.state();
                self.book.mark_desynced(DesyncReason::ConnectionLost, at);
                let to = self.book.state();
                if !from.same_status(to) {
                    self.note_transition(counters, from, to, at);
                }
            },
        }
    }
}

/// Whether every venue's spread and midpoint can be held.
pub open spec fn all_priceable(states: Seq<VenueState>) -> bool {
    forall|i: int| 0 <= i < states.len() ==> priceable((#[trigger] states[i]).book)
}

/// Whether a snapshot shows an aggregator at a moment: a view per venue, in
/// order, and the weakest integrity of them.
pub open spec fn publishes(
    snap: Snapshot,
    a: AggregatorView,
    m: Metrics,
    channel: ChannelMetrics,
    now: IngestTime,
) -> bool {
    &&& snap.symbol@ == a.symbol
    &&& snap.seq == a.seq + 1
    &&& snap.wall_unix_ms == lease::unix_ms(now.wall_nanos())
    &&& snap.clock@ == INGEST_MONOTONIC@
    &&& snap.weakest_integrity == weakest(a.venues)
    &&& snap.channel == channel
    &&& snap.venues@.len() == a.venues.len()
    &&& forall|i: int|
        0 <= i < a.venues.len() ==> shows(
            #[trigger] snap.venues@[i],
            a.venues[i],
            metrics::shown(counters_of(m, a.venues[i], a.symbol)),
            now,
        )
}

/// Whether an aggregator is one that has published: one snapshot more, and the
/// counters that it showed are the previous ones.
pub open spec fn published(a: AggregatorView, after: AggregatorView, m: Metrics) -> bool {
    &&& after.symbol == a.symbol
    &&& after.seq == a.seq + 1
    &&& after.venues.len() == a.venues.len()
    &&& forall|i: int|
        0 <= i < a.venues.len() ==> (#[trigger] after.venues[i]) == (VenueState {
            previous: metrics::shown(counters_of(m, a.venues[i], a.symbol)),
            ..a.venues[i]
        })
}

impl Aggregator {
    /// The views of all venues, or an error where a spread or a midpoint is too
    /// large to hold.
    fn views(&self, m: &Metrics, now: IngestTime) -> (r: Result<Vec<VenueView>, Overflow>)
        requires
            m.wf(),
        ensures
            match r {
                Ok(v) => {
                    &&& all_priceable(self@.venues)
                    &&& v@.len() == self@.venues.len()
                    &&& forall|i: int|
                        0 <= i < v@.len() ==> shows(
                            #[trigger] v@[i],
                            self@.venues[i],
                            metrics::shown(counters_of(*m, self@.venues[i], self@.symbol)),
                            now,
                        )
                },
                Err(_) => !all_priceable(self@.venues),
            },
    {
        let mut out: Vec<VenueView> = Vec::new();
        let mut i: usize = 0;
        while i < self.venues.len()
            invariant
                i <= self.venues@.len(),
                m.wf(),
                out@.len() == i,
                forall|k: int| 0 <= k < i ==> priceable((#[trigger] self@.venues[k]).book),
                forall|k: int|
                    0 <= k < i ==> shows(
                        #[trigger] out@[k],
                        self@.venues[k],
                        metrics::shown(counters_of(*m, self@.venues[k], self@.symbol)),
                        now,
                    ),
            decreases self.venues@.len() - i,
        {
            let stream = StreamId::new(self.venues[i].venue, self.symbol.clone());
            let counters = m.reading(&stream, &self.venues[i].own);
            assert(self@.venues[i as int] == self.venues@[i as int]);
            match view_of(&self.venues[i], counters, now) {
                Ok(v) => {
                    out.push(v);
                },
                Err(e) => {
                    return Err(e);
                },
            }
            i += 1;
        }
        Ok(out)
    }

    /// The weakest integrity among live books.
    fn weakest_integrity(&self) -> (r: Option<Integrity>)
        ensures
            r == weakest(self@.venues),
    {
        let mut r: Option<Integrity> = None;
        let mut i: usize = 0;
        assert(self@.venues.take(0) =~= Seq::empty());
        while i < self.venues.len()
            invariant
                i <= self.venues@.len(),
                r == weakest(self@.venues.take(i as int)),
            decreases self.venues@.len() - i,
        {
            assert(self@.venues.take(i + 1).drop_last() =~= self@.venues.take(i as int));
            assert(self@.venues.take(i + 1).last() == self.venues@[i as int]);
            r = book::weaker_of(r, self.venues[i].book.state().integrity());
            i += 1;
        }
        assert(self@.venues.take(self@.venues.len() as int) =~= self@.venues);
        r
    }

    /// [`Aggregator::snapshot`], or an error, and nothing published, where a
    /// spread or a midpoint is too large to hold.
    pub fn try_snapshot(&mut self, m: &Metrics, channel: ChannelMetrics, now: IngestTime) -> (r:
        Result<Snapshot, Overflow>)
        requires
            old(self).wf(),
            old(self)@.seq < u64::MAX,
            m.wf(),
        ensures
            final(self).wf(),
            match r {
                Ok(snap) => {
                    &&& all_priceable(old(self)@.venues)
                    &&& publishes(snap, old(self)@, *m, channel, now)
                    &&& published(old(self)@, final(self)@, *m)
                },
                Err(_) => {
                    &&& !all_priceable(old(self)@.venues)
                    &&& final(self)@ == old(self)@
                },
            },
    {
        let ghost before = self@;
        let venues = match self.views(m, now) {
            Ok(v) => v,
            Err(e) => {
                return Err(e);
            },
        };
        let weakest_integrity = self.weakest_integrity();
        self.seq = self.seq + 1;
        let mut i: usize = 0;
        while i < self.venues.len()
            invariant
                i <= self.venues@.len(),
                venues@.len() == self.venues@.len(),
                before.venues.len() == self.venues@.len(),
                before.symbol == self@.symbol,
                self.seq == before.seq + 1,
                forall|k: int|
                    0 <= k < venues@.len() ==> shows(
                        #[trigger] venues@[k],
                        before.venues[k],
                        metrics::shown(counters_of(*m, before.venues[k], before.symbol)),
                        now,
                    ),
                forall|k: int|
                    0 <= k < i ==> (#[trigger] self.venues@[k]) == (VenueState {
                        previous: metrics::shown(counters_of(*m, before.venues[k], before.symbol)),
                        ..before.venues[k]
                    }),
                forall|k: int|
                    i <= k < self.venues@.len() ==> #[trigger] self.venues@[k] == before.venues[k],
            decreases self.venues@.len() - i,
        {
            assert(shows(
                venues@[i as int],
                before.venues[i as int],
                metrics::shown(counters_of(*m, before.venues[i as int], before.symbol)),
                now,
            ));
            let shown = venues[i].counters;
            let state = &mut self.venues[i];
            state.previous = shown;
            i += 1;
        }
        proof {
            assert(in_order(self@.venues)) by {
                assert forall|a: int, b: int| 0 <= a < b < self@.venues.len() implies (
                #[trigger] self@.venues[a]).venue.rank() < (
                #[trigger] self@.venues[b]).venue.rank() by {
                    assert(before.venues[a].venue.rank() < before.venues[b].venue.rank());
                }
            }
        }
        Ok(
            Snapshot {
                symbol: self.symbol.as_str().to_owned(),
                seq: self.seq,
                wall_unix_ms: lease::unix_millis(now.wall()),
                clock: INGEST_MONOTONIC,
                weakest_integrity,
                venues,
                channel,
            },
        )
    }

    /// The snapshot for this tick.
    pub fn snapshot(&mut self, m: &Metrics, channel: ChannelMetrics, now: IngestTime) -> (snap:
        Snapshot)
        requires
            old(self).wf(),
            old(self)@.seq < u64::MAX,
            m.wf(),
            all_priceable(old(self)@.venues),
        ensures
            final(self).wf(),
            publishes(snap, old(self)@, *m, channel, now),
            published(old(self)@, final(self)@, *m),
    {
        self.try_snapshot(m, channel, now).unwrap()
    }
}

/// The weakest integrity is no stronger than that of any live book, and there is
/// one exactly where a book is live.
pub proof fn law_the_weakest_integrity_bounds_every_live_book(states: Seq<VenueState>, i: int)
    requires
        0 <= i < states.len(),
        states[i].book.status() is Live,
    ensures
        weakest(states) is Some,
        (weakest(states)->0).rank() <= (states[i].book.status().trust()->0).rank(),
    decreases states.len(),
{
    if i < states.len() - 1 {
        law_the_weakest_integrity_bounds_every_live_book(states.drop_last(), i);
        assert(states.drop_last()[i] == states[i]);
    }
}

/// No integrity is claimed where no book is live.
pub proof fn law_nothing_live_claims_nothing(states: Seq<VenueState>)
    requires
        forall|i: int| 0 <= i < states.len() ==> !((#[trigger] states[i]).book.status() is Live),
    ensures
        weakest(states) is None,
    decreases states.len(),
{
    if states.len() > 0 {
        assert forall|i: int| 0 <= i < states.drop_last().len() implies !((
        #[trigger] states.drop_last()[i]).book.status() is Live) by {
            assert(states.drop_last()[i] == states[i]);
        }
        law_nothing_live_claims_nothing(states.drop_last());
        assert(!(states[states.len() - 1].book.status() is Live));
    }
}

/// The weakest integrity is one that a live book has.
proof fn lemma_the_weakest_is_held(states: Seq<VenueState>) -> (i: int)
    requires
        weakest(states) is Some,
    ensures
        0 <= i < states.len(),
        states[i].book.status().trust() == weakest(states),
    decreases states.len(),
{
    let last = states.last().book.status().trust();
    if weakest(states) == last {
        states.len() - 1
    } else {
        lemma_the_weakest_is_held(states.drop_last())
    }
}

/// What every snapshot promises its readers: it is numbered one past the one before
/// it; it shows each tracked venue once, in order; an integrity is named exactly for
/// a live book and a reason exactly for a desynced one; and the weakest integrity is
/// the least of those named, missing only where no book is live.
pub proof fn law_a_snapshot_claims_what_its_books_do(
    snap: Snapshot,
    a: AggregatorView,
    after: AggregatorView,
    m: Metrics,
    channel: ChannelMetrics,
    now: IngestTime,
)
    requires
        publishes(snap, a, m, channel, now),
        published(a, after, m),
    ensures
        snap.seq == a.seq + 1,
        after.seq == snap.seq,
        snap.venues@.len() == a.venues.len(),
        forall|i: int|
            0 <= i < snap.venues@.len() ==> {
                let v = #[trigger] snap.venues@[i];
                &&& v.venue == a.venues[i].venue
                &&& v.integrity is Some <==> v.status == BookStatus::Live
                &&& v.desync_reason is Some <==> v.status == BookStatus::Desynced
            },
        snap.weakest_integrity is None <==> forall|i: int|
            0 <= i < snap.venues@.len() ==> (#[trigger] snap.venues@[i]).status
                != BookStatus::Live,
        snap.weakest_integrity matches Some(w) ==> {
            &&& exists|i: int|
                0 <= i < snap.venues@.len() && (#[trigger] snap.venues@[i]).integrity == Some(w)
            &&& forall|i: int|
                0 <= i < snap.venues@.len() && (#[trigger] snap.venues@[i]).integrity is Some
                    ==> w.rank() <= (snap.venues@[i].integrity->0).rank()
        },
{
    let views = snap.venues@;
    assert forall|i: int| 0 <= i < views.len() implies ({
        let v = #[trigger] views[i];
        &&& v.venue == a.venues[i].venue
        &&& v.integrity == a.venues[i].book.status().trust()
        &&& v.integrity is Some <==> v.status == BookStatus::Live
        &&& v.desync_reason is Some <==> v.status == BookStatus::Desynced
        &&& v.status == BookStatus::Live <==> a.venues[i].book.status() is Live
    }) by {
        assert(shows(
            views[i],
            a.venues[i],
            metrics::shown(counters_of(m, a.venues[i], a.symbol)),
            now,
        ));
    }
    assert forall|i: int|
        0 <= i < views.len() && (#[trigger] views[i]).integrity is Some implies (
    snap.weakest_integrity matches Some(w) && w.rank() <= (views[i].integrity->0).rank()) by {
        law_the_weakest_integrity_bounds_every_live_book(a.venues, i);
    }
    if snap.weakest_integrity is Some {
        let i = lemma_the_weakest_is_held(a.venues);
        assert(views[i].integrity == snap.weakest_integrity);
    }
}

/// Snapshots follow one another: the next is numbered one past the last, and the
/// counters that it shows as the previous ones are those that the last one showed.
/// Messages that came between them change neither.
pub proof fn law_snapshots_follow_one_another(
    first: Snapshot,
    second: Snapshot,
    a: AggregatorView,
    after: AggregatorView,
    then: AggregatorView,
    m: Metrics,
    n: Metrics,
    channel: ChannelMetrics,
    later: ChannelMetrics,
    now: IngestTime,
    next: IngestTime,
)
    requires
        publishes(first, a, m, channel, now),
        published(a, after, m),
        then.seq == after.seq,
        then.venues.len() == after.venues.len(),
        forall|i: int|
            0 <= i < then.venues.len() ==> (#[trigger] then.venues[i]).venue
                == after.venues[i].venue && then.venues[i].previous == after.venues[i].previous,
        publishes(second, then, n, later, next),
    ensures
        second.seq == first.seq + 1,
        second.venues@.len() == first.venues@.len(),
        forall|i: int|
            0 <= i < second.venues@.len() ==> (#[trigger] second.venues@[i]).venue
                == first.venues@[i].venue && second.venues@[i].previous
                == first.venues@[i].counters,
{
    assert forall|i: int| 0 <= i < second.venues@.len() implies (
    #[trigger] second.venues@[i]).venue == first.venues@[i].venue && second.venues@[i].previous
        == first.venues@[i].counters by {
        assert(shows(
            first.venues@[i],
            a.venues[i],
            metrics::shown(counters_of(m, a.venues[i], a.symbol)),
            now,
        ));
        assert(shows(
            second.venues@[i],
            then.venues[i],
            metrics::shown(counters_of(n, then.venues[i], then.symbol)),
            next,
        ));
        assert(after.venues[i].previous == first.venues@[i].counters);
    }
}

/// A message keeps what the next snapshot shows as previous: only a snapshot moves
/// those counters on.
pub proof fn law_messages_keep_the_previous_counters(
    message: FedMessage,
    s: VenueState,
    after: VenueState,
    c: VenueCounters,
    counted: VenueCounters,
)
    requires
        applied(message, s, after, c, counted),
    ensures
        after.venue == s.venue,
        after.previous == s.previous,
{
}

/// A connection that ended makes its venue's book untrusted at once: no integrity
/// is claimed for it from then on, whatever it was, though its levels stay.
pub proof fn law_a_lost_connection_is_distrusted(
    message: FedMessage,
    s: VenueState,
    after: VenueState,
    c: VenueCounters,
    counted: VenueCounters,
)
    requires
        message is SessionEnded,
        applied(message, s, after, c, counted),
    ensures
        status_of(after.book.status()) == BookStatus::Desynced,
        after.book.status().trust() is None,
        after.book.bids() == s.book.bids(),
        after.book.asks() == s.book.asks(),
        !(s.book.status() is Desynced) ==> counted.desyncs == c.desyncs.wrapping_add(1),
{
}

/// A frame that could not be parsed leaves the book as it was: nothing was
/// learned, which is different from learning something wrong.
pub proof fn law_an_unparsed_frame_changes_no_book(
    venue: VenueId,
    at: IngestTime,
    s: VenueState,
    after: VenueState,
    c: VenueCounters,
    counted: VenueCounters,
)
    requires
        applied(FedMessage::Frame { venue, at, fed: Fed::Unparsed }, s, after, c, counted),
    ensures
        after == (VenueState { own: after.own, ..s }),
        counted.desyncs == c.desyncs,
        counted.parse_errors == c.parse_errors.wrapping_add(1),
{
}

/// The depth that venues' settings give a venue, and whether they name it.
fn setting_for(settings: &[(VenueId, Option<usize>)], venue: VenueId) -> (r: (bool, Option<usize>))
    ensures
        r.0 == names(settings@, venue),
        r.1 == depth_for(settings@, venue),
{
    let mut named = false;
    let mut depth: Option<usize> = None;
    let mut i: usize = 0;
    assert(settings@.take(0) =~= Seq::empty());
    while i < settings.len()
        invariant
            i <= settings@.len(),
            named == names(settings@.take(i as int), venue),
            depth == depth_for(settings@.take(i as int), venue),
        decreases settings@.len() - i,
    {
        let ghost was = settings@.take(i as int);
        let ghost now = settings@.take(i + 1);
        assert(now.drop_last() =~= was);
        assert(now.last() == settings@[i as int]);
        proof {
            if names(was, venue) {
                let k = choose|k: int| 0 <= k < was.len() && (#[trigger] was[k]).0 == venue;
                assert(now[k].0 == venue);
            }
            if names(now, venue) {
                let k = choose|k: int| 0 <= k < now.len() && (#[trigger] now[k]).0 == venue;
                if k < i {
                    assert(was[k].0 == venue);
                }
            }
            assert(now[i as int] == settings@[i as int]);
        }
        if settings[i].0 == venue {
            named = true;
            depth = settings[i].1;
        }
        i += 1;
    }
    assert(settings@.take(settings@.len() as int) =~= settings@);
    (named, depth)
}

/// Whether a time in whole milliseconds is the time from one moment to another,
/// its last part dropped. It is nothing where the moments stand the other way
/// round.
pub open spec fn elapsed_ms(shown: u64, from: nat, to: nat) -> bool {
    if to <= from {
        shown == 0
    } else {
        shown < u64::MAX ==> shown * 1_000_000 <= to - from < (shown + 1) * 1_000_000
    }
}

/// What a view says of a book is what the book holds: its status is that of the
/// book, its touch is the highest bid and the lowest ask, its depth counts the
/// levels of each side, and its times run from the moments they are named after.
pub proof fn law_a_view_shows_its_book(
    v: VenueView,
    s: VenueState,
    counters: VenueCountersSnapshot,
    now: IngestTime,
)
    requires
        shows(v, s, counters, now),
        ladder::ascending(s.book.bids()),
        ladder::ascending(s.book.asks()),
    ensures
        v.status == BookStatus::Uninitialized <==> s.book.status() is Uninitialized,
        v.status == BookStatus::Live <==> s.book.status() is Live,
        v.status == BookStatus::Desynced <==> s.book.status() is Desynced,
        v.integrity == (match s.book.status() {
            BookState::Live { integrity, .. } => Some(integrity),
            _ => None,
        }),
        v.bid is Some <==> s.book.bids().len() > 0,
        v.ask is Some <==> s.book.asks().len() > 0,
        v.bid matches Some(best) ==> s.book.bids().contains(best) && forall|i: int|
            0 <= i < s.book.bids().len() ==> (#[trigger] s.book.bids()[i]).price.units()
                <= best.price.units(),
        v.ask matches Some(best) ==> s.book.asks().contains(best) && forall|i: int|
            0 <= i < s.book.asks().len() ==> (#[trigger] s.book.asks()[i]).price.units()
                >= best.price.units(),
        v.depth.0 == s.book.bids().len(),
        v.depth.1 == s.book.asks().len(),
        v.age_ms is Some <==> s.book.updated_at() is Some,
        v.age_ms matches Some(age) ==> elapsed_ms(
            age,
            (s.book.updated_at()->0).mono_nanos(),
            now.mono_nanos(),
        ),
        elapsed_ms(v.status_for_ms, s.status_since.mono_nanos(), now.mono_nanos()),
        s.book.status() matches BookState::Live { last_verified: Some(at), .. } ==> (
        v.last_verified_ms matches Some(age) && elapsed_ms(age, at.mono_nanos(), now.mono_nanos())),
        v.counters == counters,
        v.previous == s.previous,
{
    book::law_the_touch_is_the_best(s.book.bids(), s.book.asks());
}

/// The time shown as spent desynced is that of the desyncs that ended, and, where
/// one is in progress, the time since it began.
pub proof fn law_a_view_shows_the_time_desynced(
    v: VenueView,
    s: VenueState,
    counters: VenueCountersSnapshot,
    now: IngestTime,
)
    requires
        shows(v, s, counters, now),
        v.desynced_total_ms < u64::MAX,
    ensures
        s.desynced_since is None ==> v.desynced_total_ms * 1_000_000 <= s.desynced_total@ < (
        v.desynced_total_ms + 1) * 1_000_000,
        s.desynced_since matches Some(start) ==> {
            let spent = s.desynced_total@ + now.mono_nanos() - start.mono_nanos();
            start.mono_nanos() <= now.mono_nanos() && spent <= DURATION_LIMIT
                ==> v.desynced_total_ms * 1_000_000 <= spent < (v.desynced_total_ms + 1)
                * 1_000_000
        },
{
}

/// The spread that is shown is the best ask less the best bid, and the midpoint
/// lies half way between them, where no digit is lost. Neither is shown where a
/// side is empty.
pub proof fn law_a_view_prices_its_touch(
    v: VenueView,
    s: VenueState,
    counters: VenueCountersSnapshot,
    now: IngestTime,
)
    requires
        shows(v, s, counters, now),
        priceable(s.book),
    ensures
        v.spread is Some <==> v.bid is Some && v.ask is Some,
        v.mid is Some <==> v.bid is Some && v.ask is Some,
        v.bid is Some && v.ask is Some ==> {
            let bid = (v.bid->0).price@;
            let ask = (v.ask->0).price@;
            &&& decimal::subtracts_exactly(ask, bid) ==> exists|d: decimal::Parts|
                (v.spread->0)@ == #[trigger] decimal::plain_text(d) && decimal::units(d)
                    == decimal::units(ask) - decimal::units(bid)
            &&& decimal::adds_exactly(ask, bid) && decimal::divides_exactly(
                decimal::decimal_sum(ask, bid)->0,
                decimal::whole(2),
            ) ==> exists|d: decimal::Parts|
                (v.mid->0)@ == #[trigger] decimal::plain_text(d) && 2 * decimal::units(d)
                    == decimal::units(ask) + decimal::units(bid)
        },
{
    if v.bid is Some && v.ask is Some {
        let bid = (v.bid->0).price@;
        let ask = (v.ask->0).price@;
        assert((v.spread->0)@ == decimal::plain_text(spread_of(s.book)->0));
        assert((v.mid->0)@ == decimal::plain_text(mid_of(s.book)->0));
        if decimal::adds_exactly(ask, bid) && decimal::divides_exactly(
            decimal::decimal_sum(ask, bid)->0,
            decimal::whole(2),
        ) {
            decimal::law_a_midpoint_lies_half_way(ask, bid);
        }
    }
}

/// A desync is timed from its start to its end: it starts where trust is lost,
/// goes on while only the reason changes, and its whole length is added once,
/// where trust returns. Nothing else changes the time spent desynced.
pub proof fn law_a_desync_lasts_from_start_to_end(
    s: VenueState,
    after: VenueState,
    book: Book,
    at: IngestTime,
)
    requires
        took_in(s, after, book, at),
    ensures
        after.book == book,
        !(s.book.status() is Desynced) && book.status() is Desynced ==> after.desynced_since
            == Some(at) && after.desynced_total@ == s.desynced_total@,
        s.book.status() is Desynced && book.status() is Desynced ==> after.desynced_since
            == s.desynced_since && after.desynced_total@ == s.desynced_total@,
        !(s.book.status() is Desynced) && !(book.status() is Desynced) ==> after.desynced_since
            == s.desynced_since && after.desynced_total@ == s.desynced_total@,
        s.book.status() is Desynced && !(book.status() is Desynced) ==> {
            &&& after.desynced_since is None
            &&& s.desynced_since is None ==> after.desynced_total@ == s.desynced_total@
            &&& s.desynced_since matches Some(start) ==> (start.mono_nanos() <= at.mono_nanos()
                && s.desynced_total@ + at.mono_nanos() - start.mono_nanos() <= DURATION_LIMIT
                ==> after.desynced_total@ == s.desynced_total@ + at.mono_nanos()
                - start.mono_nanos())
        },
        status_of(s.book.status()) != status_of(book.status()) ==> after.status_since == at,
{
}

/// Every frame counts once, whatever came of it; its heartbeats count, a frame
/// that could not be parsed counts as that, and a desync counts where trust is
/// lost and nowhere else. The end of a session counts no frame. No message touches
/// what a connection counts.
pub proof fn law_a_message_counts_what_it_brought(
    message: FedMessage,
    s: VenueState,
    after: VenueState,
    c: VenueCounters,
    counted: VenueCounters,
)
    requires
        applied(message, s, after, c, counted),
    ensures
        counted.applied == (if message is Frame {
            c.applied.wrapping_add(1)
        } else {
            c.applied
        }),
        counted.heartbeats == (match message {
            FedMessage::Frame { fed: Fed::Updated { heartbeats, .. }, .. } =>
                c.heartbeats.wrapping_add(heartbeats),
            _ => c.heartbeats,
        }),
        counted.parse_errors == (match message {
            FedMessage::Frame { fed: Fed::Unparsed, .. } => c.parse_errors.wrapping_add(1),
            _ => c.parse_errors,
        }),
        counted.desyncs == (if !(s.book.status() is Desynced) && after.book.status() is Desynced {
            c.desyncs.wrapping_add(1)
        } else {
            c.desyncs
        }),
        counted.frames == c.frames,
        counted.bytes == c.bytes,
        counted.connects == c.connects,
        counted.disconnects == c.disconnects,
        counted.connect_failures == c.connect_failures,
        counted.idle_timeouts == c.idle_timeouts,
        counted.dropped == c.dropped,
        counted.rest_fetches == c.rest_fetches,
        counted.rest_failures == c.rest_failures,
{
}

/// A frame's book is taken in as the venue's rules made it, levels and status.
pub proof fn law_a_frame_brings_its_book(
    venue: VenueId,
    at: IngestTime,
    book: Book,
    heartbeats: u64,
    s: VenueState,
    after: VenueState,
    c: VenueCounters,
    counted: VenueCounters,
)
    requires
        applied(
            FedMessage::Frame { venue, at, fed: Fed::Updated { book, heartbeats } },
            s,
            after,
            c,
            counted,
        ),
    ensures
        after.book == book,
        after.venue == s.venue,
{
}

/// Of several settings for a venue the last one counts; without one, its book
/// keeps every level.
pub proof fn law_the_last_setting_counts(settings: Seq<(VenueId, Option<usize>)>, venue: VenueId)
    ensures
        forall|i: int|
            0 <= i < settings.len() && (#[trigger] settings[i]).0 == venue && (forall|j: int|
                i < j < settings.len() ==> (#[trigger] settings[j]).0 != venue) ==> depth_for(
                settings,
                venue,
            ) == settings[i].1,
        (forall|i: int| 0 <= i < settings.len() ==> (#[trigger] settings[i]).0 != venue)
            ==> depth_for(settings, venue) is None,
    decreases settings.len(),
{
    if settings.len() > 0 {
        let most = settings.drop_last();
        law_the_last_setting_counts(most, venue);
        assert(settings[settings.len() - 1] == settings.last());
        assert forall|i: int|
            0 <= i < settings.len() && (#[trigger] settings[i]).0 == venue && (forall|j: int|
                i < j < settings.len() ==> (#[trigger] settings[j]).0 != venue) implies depth_for(
            settings,
            venue,
        ) == settings[i].1 by {
            if i < settings.len() - 1 {
                assert(settings[settings.len() - 1].0 != venue);
                assert(most[i] == settings[i]);
                assert forall|j: int| i < j < most.len() implies (#[trigger] most[j]).0 != venue by {
                    assert(most[j] == settings[j]);
                }
            }
        }
        if forall|i: int| 0 <= i < settings.len() ==> (#[trigger] settings[i]).0 != venue {
            assert forall|i: int| 0 <= i < most.len() implies (#[trigger] most[i]).0 != venue by {
                assert(most[i] == settings[i]);
            }
            assert(settings[settings.len() - 1].0 != venue);
        }
    }
}

/// Whether a text holds no digit.
pub open spec fn wordy(s: Seq<char>) -> bool {
    forall|i: int| 0 <= i < s.len() ==> (#[trigger] s[i] < '0' || s[i] > '9')
}

/// Whether a text is words around two numbers, in their order.
pub open spec fn tells(s: Seq<char>, first: Seq<char>, second: Seq<char>) -> bool {
    exists|a: Seq<char>, b: Seq<char>, c: Seq<char>|
        wordy(a) && wordy(b) && wordy(c) && s == #[trigger] (a + first + b + second + c)
}

/// What is said of a desync gives its numbers, in order: what was expected before
/// what came, the bid before the ask, the price before the count.
pub proof fn law_a_reason_gives_its_numbers(reason: DesyncReason)
    ensures
        reason matches DesyncReason::SequenceGap { expected, got } ==> tells(
            reason_text(reason),
            text::number_text(expected as nat),
            text::number_text(got as nat),
        ),
        reason matches DesyncReason::ChecksumMismatch { expected, computed } ==> tells(
            reason_text(reason),
            text::number_text(expected as nat),
            text::number_text(computed as nat),
        ),
        reason matches DesyncReason::TimestampRegression { last_micros, got_micros } ==> tells(
            reason_text(reason),
            text::number_text(last_micros as nat),
            text::number_text(got_micros as nat),
        ),
        reason matches DesyncReason::CrossedBook { best_bid, best_ask } ==> tells(
            reason_text(reason),
            decimal::plain_text(best_bid@),
            decimal::plain_text(best_ask@),
        ),
        reason matches DesyncReason::AuditMismatch { price, consecutive } ==> tells(
            reason_text(reason),
            decimal::plain_text(price@),
            text::number_text(consecutive as nat),
        ),
{
    let none = Seq::<char>::empty();
    match reason {
        DesyncReason::SequenceGap { expected, got } => {
            reveal_strlit("sequence gap: expected ");
            reveal_strlit(", got ");
            let first = text::number_text(expected as nat);
            let second = text::number_text(got as nat);
            assert(reason_text(reason) =~= "sequence gap: expected "@ + first + ", got "@ + second
                + none);
        },
        DesyncReason::ChecksumMismatch { expected, computed } => {
            reveal_strlit("checksum mismatch: venue said ");
            reveal_strlit(", we computed ");
            let first = text::number_text(expected as nat);
            let second = text::number_text(computed as nat);
            assert(reason_text(reason) =~= "checksum mismatch: venue said "@ + first
                + ", we computed "@ + second + none);
        },
        DesyncReason::TimestampRegression { last_micros, got_micros } => {
            reveal_strlit("timestamps went backwards: after ");
            reveal_strlit(", got ");
            let first = text::number_text(last_micros as nat);
            let second = text::number_text(got_micros as nat);
            assert(reason_text(reason) =~= "timestamps went backwards: after "@ + first
                + ", got "@ + second + none);
        },
        DesyncReason::CrossedBook { best_bid, best_ask } => {
            reveal_strlit("crossed book: bid ");
            reveal_strlit(" >= ask ");
            let first = decimal::plain_text(best_bid@);
            let second = decimal::plain_text(best_ask@);
            assert(reason_text(reason) =~= "crossed book: bid "@ + first + " >= ask "@ + second
                + none);
        },
        DesyncReason::AuditMismatch { price, consecutive } => {
            reveal_strlit("depth audit mismatch at ");
            reveal_strlit(", ");
            reveal_strlit(" in a row");
            let first = decimal::plain_text(price@);
            let second = text::number_text(consecutive as nat);
            assert(reason_text(reason) =~= "depth audit mismatch at "@ + first + ", "@ + second
                + " in a row"@);
        },
        _ => {},
    }
}

} // verus!
