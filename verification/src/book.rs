//! The order book, and the trust level attached to it.
//!
//! A consumer can always distinguish three situations: no data
//! ([`BookState::Uninitialized`]), data that is not trusted
//! ([`BookState::Desynced`]), and data that is trusted to a stated degree
//! ([`BookState::Live`]).

use vstd::prelude::*;

use crate::decimal;
use crate::decimal::{Decimal, Parts};
use crate::event::{copy_levels, Level, Side, Symbol, VenueId};
use crate::ladder;
use crate::price::Price;
use crate::time;
use crate::time::{Duration, IngestTime};

verus! {

/// How strong a venue's "your book is correct" guarantee is, weakest first. A
/// view that combines venues takes the minimum and reports the truth about the
/// whole.
#[derive(Clone, Copy, Debug, PartialEq, Eq, PartialOrd, Ord, Hash, Structural)]
pub enum Integrity {
    /// Messages are known to arrive in order, not that they all arrive.
    OrderOnly,
    /// A dropped message is detected when the next one arrives.
    GapDetectable,
    /// The resulting book is checked against the venue's checksum.
    Verified,
}

impl Integrity {
    /// The strength, as a number.
    pub open spec fn rank(self) -> int {
        match self {
            Integrity::OrderOnly => 0,
            Integrity::GapDetectable => 1,
            Integrity::Verified => 2,
        }
    }

    /// Whether a gap in the stream would be noticed at all.
    pub fn detects_loss(&self) -> (b: bool)
        ensures
            b == (self.rank() > Integrity::OrderOnly.rank()),
    {
        match self {
            Integrity::OrderOnly => false,
            _ => true,
        }
    }

    /// The weaker of two guarantees.
    pub fn weaker(self, other: Integrity) -> (i: Integrity)
        ensures
            i == weaker(self, other),
    {
        match (self, other) {
            (Integrity::OrderOnly, _) => self,
            (_, Integrity::OrderOnly) => other,
            (Integrity::GapDetectable, _) => self,
            (_, _) => other,
        }
    }
}

/// The weaker of two guarantees.
pub open spec fn weaker(a: Integrity, b: Integrity) -> Integrity {
    if a.rank() <= b.rank() {
        a
    } else {
        b
    }
}

/// The weaker of two guarantees, where there are any.
pub open spec fn weaker_option(a: Option<Integrity>, b: Option<Integrity>) -> Option<Integrity> {
    match (a, b) {
        (Some(x), Some(y)) => Some(weaker(x, y)),
        (Some(x), None) => Some(x),
        (None, y) => y,
    }
}

/// The weaker of two guarantees, where there are any.
pub fn weaker_of(a: Option<Integrity>, b: Option<Integrity>) -> (i: Option<Integrity>)
    ensures
        i == weaker_option(a, b),
{
    match (a, b) {
        (Some(x), Some(y)) => Some(x.weaker(y)),
        (Some(x), None) => Some(x),
        (None, y) => y,
    }
}

/// Why a book stopped being trustworthy.
#[derive(Clone, Copy, Debug)]
pub enum DesyncReason {
    /// Sequence numbers skipped.
    SequenceGap { expected: u64, got: u64 },
    /// The book does not hash to what the venue says it should.
    ChecksumMismatch { expected: u32, computed: u32 },
    /// Timestamps went backwards: reordering that cannot be undone.
    TimestampRegression { last_micros: u64, got_micros: u64 },
    /// Best bid met or crossed best ask, which is impossible within a single
    /// venue's book and so proves misapplication.
    CrossedBook { best_bid: Price, best_ask: Price },
    /// Socket closed, or heartbeats stopped.
    ConnectionLost,
    /// Resync in progress: buffering deltas, waiting on a snapshot.
    AwaitingSnapshot,
    /// A periodic depth audit disagreed with the book, repeatedly.
    AuditMismatch { price: Price, consecutive: u32 },
    /// The buffered deltas did not join onto the snapshot cleanly.
    SnapshotGap,
}

/// Reasons that say the same thing; prices are the same where their numbers
/// are.
pub open spec fn same_reason(a: DesyncReason, b: DesyncReason) -> bool {
    match (a, b) {
        (
            DesyncReason::CrossedBook { best_bid: b1, best_ask: a1 },
            DesyncReason::CrossedBook { best_bid: b2, best_ask: a2 },
        ) => b1.units() == b2.units() && a1.units() == a2.units(),
        (
            DesyncReason::AuditMismatch { price: p1, consecutive: c1 },
            DesyncReason::AuditMismatch { price: p2, consecutive: c2 },
        ) => p1.units() == p2.units() && c1 == c2,
        _ => a == b,
    }
}

impl DesyncReason {
    /// Whether repairing this needs a new stream from the venue.
    ///
    /// Two reasons do not: a book that awaits a snapshot has one on the way,
    /// and a lost connection is already being replaced.
    pub fn needs_fresh_stream(&self) -> (b: bool)
        ensures
            b == !(*self is AwaitingSnapshot || *self is ConnectionLost),
    {
        match self {
            DesyncReason::AwaitingSnapshot => false,
            DesyncReason::ConnectionLost => false,
            _ => true,
        }
    }

    /// Whether the two say the same thing.
    pub fn same(&self, other: &DesyncReason) -> (b: bool)
        ensures
            b == same_reason(*self, *other),
    {
        match (self, other) {
            (
                DesyncReason::SequenceGap { expected: e1, got: g1 },
                DesyncReason::SequenceGap { expected: e2, got: g2 },
            ) => *e1 == *e2 && *g1 == *g2,
            (
                DesyncReason::ChecksumMismatch { expected: e1, computed: c1 },
                DesyncReason::ChecksumMismatch { expected: e2, computed: c2 },
            ) => *e1 == *e2 && *c1 == *c2,
            (
                DesyncReason::TimestampRegression { last_micros: l1, got_micros: g1 },
                DesyncReason::TimestampRegression { last_micros: l2, got_micros: g2 },
            ) => *l1 == *l2 && *g1 == *g2,
            (
                DesyncReason::CrossedBook { best_bid: b1, best_ask: a1 },
                DesyncReason::CrossedBook { best_bid: b2, best_ask: a2 },
            ) => b1.same(b2) && a1.same(a2),
            (DesyncReason::ConnectionLost, DesyncReason::ConnectionLost) => true,
            (DesyncReason::AwaitingSnapshot, DesyncReason::AwaitingSnapshot) => true,
            (
                DesyncReason::AuditMismatch { price: p1, consecutive: c1 },
                DesyncReason::AuditMismatch { price: p2, consecutive: c2 },
            ) => p1.same(p2) && *c1 == *c2,
            (DesyncReason::SnapshotGap, DesyncReason::SnapshotGap) => true,
            (_, _) => false,
        }
    }
}

impl PartialEq for DesyncReason {
    fn eq(&self, other: &DesyncReason) -> (b: bool) {
        self.same(other)
    }
}

impl vstd::std_specs::cmp::PartialEqSpecImpl for DesyncReason {
    open spec fn obeys_eq_spec() -> bool {
        true
    }

    open spec fn eq_spec(&self, other: &DesyncReason) -> bool {
        same_reason(*self, *other)
    }
}

impl Eq for DesyncReason {

}

/// Whether the book can be believed, and how much.
#[derive(Clone, Copy, Debug, PartialEq, Eq)]
pub enum BookState {
    /// Never synced. There is no data, which is different from bad data.
    Uninitialized,
    /// Synced, with the strength of that claim attached.
    Live {
        integrity: Integrity,
        /// When this run of being synced began.
        since: IngestTime,
        /// Last time the venue's own checksum matched. Only ever `Some` for
        /// [`Integrity::Verified`].
        last_verified: Option<IngestTime>,
    },
    /// Known bad, or mid-recovery.
    Desynced { since: IngestTime, reason: DesyncReason },
}

/// Whether two states describe the same status: bookkeeping that moves without
/// anything having happened is left out.
pub open spec fn same_status(a: BookState, b: BookState) -> bool {
    match (a, b) {
        (BookState::Uninitialized, BookState::Uninitialized) => true,
        (
            BookState::Live { integrity: i1, since: s1, last_verified: _ },
            BookState::Live { integrity: i2, since: s2, last_verified: _ },
        ) => i1 == i2 && s1 == s2,
        (
            BookState::Desynced { since: s1, reason: r1 },
            BookState::Desynced { since: s2, reason: r2 },
        ) => s1 == s2 && same_reason(r1, r2),
        _ => false,
    }
}

impl BookState {
    /// The trust level, or `None` if there is nothing to trust.
    pub open spec fn trust(self) -> Option<Integrity> {
        match self {
            BookState::Live { integrity, since: _, last_verified: _ } => Some(integrity),
            _ => None,
        }
    }

    /// The state without its payload.
    pub open spec fn kind(self) -> BookStateKind {
        match self {
            BookState::Uninitialized => BookStateKind::Uninitialized,
            BookState::Live { .. } => BookStateKind::Live,
            BookState::Desynced { .. } => BookStateKind::Desynced,
        }
    }

    /// The trust level, or `None` if there is nothing to trust.
    pub fn integrity(&self) -> (i: Option<Integrity>)
        ensures
            i == self.trust(),
    {
        match self {
            BookState::Live { integrity, .. } => Some(*integrity),
            _ => None,
        }
    }

    pub fn is_live(&self) -> (b: bool)
        ensures
            b == (*self is Live),
    {
        match self {
            BookState::Live { .. } => true,
            _ => false,
        }
    }

    /// Whether two readings describe the same status, ignoring when the
    /// checksum last matched, which advances several times a second while
    /// nothing about the book has changed.
    pub fn same_status(self, other: BookState) -> (b: bool)
        ensures
            b == same_status(self, other),
    {
        match (self, other) {
            (BookState::Uninitialized, BookState::Uninitialized) => true,
            (
                BookState::Live { integrity: i1, since: s1, .. },
                BookState::Live { integrity: i2, since: s2, .. },
            ) => i1 == i2 && s1 == s2,
            (
                BookState::Desynced { since: s1, reason: r1 },
                BookState::Desynced { since: s2, reason: r2 },
            ) => s1 == s2 && r1.same(&r2),
            (_, _) => false,
        }
    }
}

/// A checksum match changes no book's status.
pub proof fn law_verification_is_not_a_transition(
    integrity: Integrity,
    since: IngestTime,
    before: Option<IngestTime>,
    after: Option<IngestTime>,
)
    ensures
        same_status(
            (BookState::Live { integrity, since, last_verified: before }),
            (BookState::Live { integrity, since, last_verified: after }),
        ),
{
}

/// Sameness of status is an equivalence.
pub proof fn law_same_status_is_an_equivalence(a: BookState, b: BookState, c: BookState)
    ensures
        same_status(a, a),
        same_status(a, b) == same_status(b, a),
        same_status(a, b) && same_status(b, c) ==> same_status(a, c),
{
}

/// Operations that a caller got wrong, as opposed to data the venue got wrong.
#[derive(Clone, Copy, Debug, PartialEq, Eq, Structural)]
pub enum BookError {
    /// A delta cannot be applied to a book that is not live.
    NotLive(BookStateKind),
}

/// [`BookState`] without its payload, for error messages.
#[derive(Clone, Copy, Debug, PartialEq, Eq, Structural)]
pub enum BookStateKind {
    Uninitialized,
    Live,
    Desynced,
}

/// A decimal result that is too large to hold.
#[derive(Clone, Copy, Debug, PartialEq, Eq, Structural)]
pub struct Overflow;

/// Top of book, with its trust level welded on: there is no accessor that hands
/// out prices alone.
#[derive(Clone, Copy, Debug, PartialEq)]
pub struct TopOfBook {
    pub bid: Option<Level>,
    pub ask: Option<Level>,
    pub state: BookState,
    /// Time since the last applied update. `None` if nothing has ever applied.
    pub age: Option<Duration>,
}

impl TopOfBook {
    /// Both touch prices, bid first.
    pub open spec fn touch(self) -> Option<(Parts, Parts)> {
        match (self.bid, self.ask) {
            (Some(bid), Some(ask)) => Some((bid.price@, ask.price@)),
            _ => None,
        }
    }

    /// Spread, if both sides exist. Says nothing about whether to believe it;
    /// read [`TopOfBook::state`] for that.
    pub fn spread(&self) -> (spread: Option<Decimal>)
        requires
            self.touch() matches Some(t) ==> decimal::decimal_difference(t.1, t.0) is Some,
        ensures
            spread is Some <==> self.touch() is Some,
            self.touch() matches Some(t) ==> decimal::parts_of(spread)
                == decimal::decimal_difference(t.1, t.0),
    {
        match (self.bid, self.ask) {
            (Some(bid), Some(ask)) => decimal::checked_sub(
                &ask.price.as_decimal(),
                &bid.price.as_decimal(),
            ),
            _ => None,
        }
    }

    /// Mid price, if both sides exist.
    pub fn mid(&self) -> (mid: Option<Decimal>)
        requires
            self.touch() matches Some(t) ==> decimal::midpoint(t.1, t.0) is Some,
        ensures
            mid is Some <==> self.touch() is Some,
            self.touch() matches Some(t) ==> decimal::parts_of(mid) == decimal::midpoint(t.1, t.0),
    {
        match (self.bid, self.ask) {
            (Some(bid), Some(ask)) => decimal::checked_midpoint(
                &ask.price.as_decimal(),
                &bid.price.as_decimal(),
            ),
            _ => None,
        }
    }

    /// [`TopOfBook::spread`], or an error where it is too large to hold.
    pub fn try_spread(&self) -> (spread: Result<Option<Decimal>, Overflow>)
        ensures
            spread is Err <==> (self.touch() matches Some(t) && decimal::decimal_difference(t.1, t.0)
                is None),
            spread matches Ok(s) ==> (s is Some <==> self.touch() is Some),
            spread matches Ok(s) ==> (self.touch() matches Some(t) ==> decimal::parts_of(s)
                == decimal::decimal_difference(t.1, t.0)),
    {
        match (self.bid, self.ask) {
            (Some(bid), Some(ask)) => {
                if decimal::checked_sub(
                    &ask.price.as_decimal(),
                    &bid.price.as_decimal(),
                ).is_none() {
                    return Err(Overflow);
                }
            },
            _ => {},
        }
        Ok(self.spread())
    }

    /// [`TopOfBook::mid`], or an error where it is too large to hold.
    pub fn try_mid(&self) -> (mid: Result<Option<Decimal>, Overflow>)
        ensures
            mid is Err <==> (self.touch() matches Some(t) && decimal::midpoint(t.1, t.0) is None),
            mid matches Ok(m) ==> (m is Some <==> self.touch() is Some),
            mid matches Ok(m) ==> (self.touch() matches Some(t) ==> decimal::parts_of(m)
                == decimal::midpoint(t.1, t.0)),
    {
        match (self.bid, self.ask) {
            (Some(bid), Some(ask)) => {
                if decimal::checked_midpoint(
                    &ask.price.as_decimal(),
                    &bid.price.as_decimal(),
                ).is_none() {
                    return Err(Overflow);
                }
            },
            _ => {},
        }
        Ok(self.mid())
    }
}

/// The highest of ascending levels.
pub open spec fn top_bid(bids: Seq<Level>) -> Option<Level> {
    if bids.len() == 0 {
        None
    } else {
        Some(bids.last())
    }
}

/// The lowest of ascending levels.
pub open spec fn top_ask(asks: Seq<Level>) -> Option<Level> {
    if asks.len() == 0 {
        None
    } else {
        Some(asks[0])
    }
}

/// Whether the best bid is at or above the best ask.
pub open spec fn crossed(bids: Seq<Level>, asks: Seq<Level>) -> bool {
    bids.len() > 0 && asks.len() > 0 && bids.last().price.units() >= asks[0].price.units()
}

/// The desync that a crossed book amounts to.
pub open spec fn crossing(bids: Seq<Level>, asks: Seq<Level>) -> DesyncReason {
    DesyncReason::CrossedBook { best_bid: bids.last().price, best_ask: asks[0].price }
}

/// A side cut to a depth limit: bids keep the highest levels.
pub open spec fn pruned_bids(bids: Seq<Level>, max_depth: Option<usize>) -> Seq<Level> {
    match max_depth {
        Some(max) => ladder::highest(bids, max as nat),
        None => bids,
    }
}

/// A side cut to a depth limit: asks keep the lowest levels.
pub open spec fn pruned_asks(asks: Seq<Level>, max_depth: Option<usize>) -> Seq<Level> {
    match max_depth {
        Some(max) => ladder::lowest(asks, max as nat),
        None => asks,
    }
}

/// Whether a side is a map's levels, cut to a depth limit.
pub open spec fn bids_from(
    bids: Seq<Level>,
    levels: Map<int, Level>,
    max_depth: Option<usize>,
) -> bool {
    exists|all: Seq<Level>|
        ladder::ascending(all) && ladder::by_price(all) == levels && bids == #[trigger] pruned_bids(
            all,
            max_depth,
        )
}

/// Whether a side is a map's levels, cut to a depth limit.
pub open spec fn asks_from(
    asks: Seq<Level>,
    levels: Map<int, Level>,
    max_depth: Option<usize>,
) -> bool {
    exists|all: Seq<Level>|
        ladder::ascending(all) && ladder::by_price(all) == levels && asks == #[trigger] pruned_asks(
            all,
            max_depth,
        )
}

/// A single venue's order book for a single symbol.
#[derive(Debug)]
pub struct Book {
    venue: VenueId,
    symbol: Symbol,
    /// Ascending by price; best bid is the last entry.
    bids: Vec<Level>,
    /// Ascending by price; best ask is the first entry.
    asks: Vec<Level>,
    state: BookState,
    last_update: Option<IngestTime>,
    max_depth: Option<usize>,
}

impl Clone for Book {
    fn clone(&self) -> (b: Book)
        ensures
            b.for_venue() == self.for_venue(),
            b.for_symbol() == self.for_symbol(),
            b.bids() == self.bids(),
            b.asks() == self.asks(),
            b.status() == self.status(),
            b.updated_at() == self.updated_at(),
            b.depth_limit() == self.depth_limit(),
    {
        proof {
            use_type_invariant(self);
        }
        Book {
            venue: self.venue,
            symbol: self.symbol.clone(),
            bids: copy_levels(&self.bids),
            asks: copy_levels(&self.asks),
            state: self.state,
            last_update: self.last_update,
            max_depth: self.max_depth,
        }
    }
}

impl Book {
    pub closed spec fn for_venue(self) -> VenueId {
        self.venue
    }

    pub closed spec fn for_symbol(self) -> Symbol {
        self.symbol
    }

    /// The bids, ascending by price.
    pub closed spec fn bids(self) -> Seq<Level> {
        self.bids@
    }

    /// The asks, ascending by price.
    pub closed spec fn asks(self) -> Seq<Level> {
        self.asks@
    }

    pub closed spec fn status(self) -> BookState {
        self.state
    }

    /// When an update was last applied.
    pub closed spec fn updated_at(self) -> Option<IngestTime> {
        self.last_update
    }

    /// How many levels a side may keep.
    pub closed spec fn depth_limit(self) -> Option<usize> {
        self.max_depth
    }

    /// What holds of every book: one level per price, in order, and a live book
    /// is not crossed.
    #[verifier::type_invariant]
    closed spec fn sound(self) -> bool {
        &&& ladder::ascending(self.bids@)
        &&& ladder::ascending(self.asks@)
        &&& self.state is Live ==> !crossed(self.bids@, self.asks@)
    }

    pub fn new(venue: VenueId, symbol: Symbol) -> (b: Book)
        ensures
            b.for_venue() == venue,
            b.for_symbol() == symbol,
            b.bids() == Seq::<Level>::empty(),
            b.asks() == Seq::<Level>::empty(),
            b.status() == BookState::Uninitialized,
            b.updated_at() is None,
            b.depth_limit() is None,
    {
        Book {
            venue,
            symbol,
            bids: Vec::new(),
            asks: Vec::new(),
            state: BookState::Uninitialized,
            last_update: None,
            max_depth: None,
        }
    }

    /// Cap retained depth per side, from the next update on.
    ///
    /// A pruned book cannot be repaired by deltas alone: a delta that deletes a
    /// level near the boundary exposes one that is no longer known. It is only
    /// ever correct near the top.
    pub fn with_max_depth(self, depth: usize) -> (b: Book)
        ensures
            b.for_venue() == self.for_venue(),
            b.for_symbol() == self.for_symbol(),
            b.bids() == self.bids(),
            b.asks() == self.asks(),
            b.status() == self.status(),
            b.updated_at() == self.updated_at(),
            b.depth_limit() == Some(depth),
    {
        proof {
            use_type_invariant(&self);
        }
        Book {
            venue: self.venue,
            symbol: self.symbol,
            bids: self.bids,
            asks: self.asks,
            state: self.state,
            last_update: self.last_update,
            max_depth: Some(depth),
        }
    }

    pub fn venue(&self) -> (v: VenueId)
        ensures
            v == self.for_venue(),
    {
        self.venue
    }

    pub fn symbol(&self) -> (s: &Symbol)
        ensures
            *s == self.for_symbol(),
    {
        &self.symbol
    }

    pub fn state(&self) -> (s: BookState)
        ensures
            s == self.status(),
    {
        self.state
    }

    /// Number of levels currently held, per side.
    pub fn depth(&self) -> (d: (usize, usize))
        ensures
            d.0 == self.bids().len(),
            d.1 == self.asks().len(),
    {
        (self.bids.len(), self.asks.len())
    }

    /// Replace the book wholesale and declare it live at the given integrity.
    ///
    /// This is the end of every resync: the snapshot is the ground truth, so
    /// prior contents are discarded rather than merged. A snapshot that crosses
    /// itself leaves the book desynced.
    pub fn apply_snapshot(
        &mut self,
        bids: &[Level],
        asks: &[Level],
        integrity: Integrity,
        at: IngestTime,
    ) -> (r: Result<(), DesyncReason>)
        ensures
            final(self).for_venue() == old(self).for_venue(),
            final(self).for_symbol() == old(self).for_symbol(),
            final(self).depth_limit() == old(self).depth_limit(),
            final(self).updated_at() == Some(at),
            bids_from(final(self).bids(), ladder::listed(bids@), old(self).depth_limit()),
            asks_from(final(self).asks(), ladder::listed(asks@), old(self).depth_limit()),
            !crossed(final(self).bids(), final(self).asks()) ==> {
                &&& r is Ok
                &&& final(self).status() == (BookState::Live {
                    integrity,
                    since: at,
                    last_verified: None,
                })
            },
            crossed(final(self).bids(), final(self).asks()) ==> {
                &&& r == Err::<(), DesyncReason>(crossing(final(self).bids(), final(self).asks()))
                &&& final(self).status() == (BookState::Desynced {
                    since: at,
                    reason: crossing(final(self).bids(), final(self).asks()),
                })
            },
    {
        let new_bids = ladder::from_listing(bids);
        let new_asks = ladder::from_listing(asks);
        let live = BookState::Live { integrity, since: at, last_verified: None };
        self.replace(new_bids, new_asks, live, at)
    }

    /// Apply an incremental update. Zero quantity deletes the level.
    ///
    /// Refuses to apply to a book that is not live. A crossed book is a desync,
    /// not a caller error, so it changes state rather than being returned.
    pub fn apply_delta(&mut self, bids: &[Level], asks: &[Level], at: IngestTime) -> (r: Result<
        (),
        BookError,
    >)
        ensures
            r is Ok <==> old(self).status() is Live,
            r matches Err(e) ==> e == BookError::NotLive(old(self).status().kind()) && *final(self)
                == *old(self),
            r is Ok ==> {
                &&& final(self).for_venue() == old(self).for_venue()
                &&& final(self).for_symbol() == old(self).for_symbol()
                &&& final(self).depth_limit() == old(self).depth_limit()
                &&& final(self).updated_at() == Some(at)
                &&& bids_from(
                    final(self).bids(),
                    ladder::all_updated(ladder::by_price(old(self).bids()), bids@),
                    old(self).depth_limit(),
                )
                &&& asks_from(
                    final(self).asks(),
                    ladder::all_updated(ladder::by_price(old(self).asks()), asks@),
                    old(self).depth_limit(),
                )
                &&& final(self).status() == (if crossed(final(self).bids(), final(self).asks()) {
                    BookState::Desynced {
                        since: at,
                        reason: crossing(final(self).bids(), final(self).asks()),
                    }
                } else {
                    old(self).status()
                })
            },
            r is Ok && old(self).depth_limit() is None ==> forall|price: int| #[trigger]
                ladder::settled_at(old(self).bids(), bids@, final(self).bids(), price),
            r is Ok && old(self).depth_limit() is None ==> forall|price: int| #[trigger]
                ladder::settled_at(old(self).asks(), asks@, final(self).asks(), price),
    {
        if !self.state.is_live() {
            return Err(BookError::NotLive(self.state_kind()));
        }
        proof {
            use_type_invariant(&*self);
        }
        let mut new_bids: Vec<Level> = Vec::new();
        let mut new_asks: Vec<Level> = Vec::new();
        std::mem::swap(&mut new_bids, &mut self.bids);
        std::mem::swap(&mut new_asks, &mut self.asks);
        ladder::apply_levels(&mut new_bids, bids);
        ladder::apply_levels(&mut new_asks, asks);
        let state = self.state;
        let _ = self.replace(new_bids, new_asks, state, at);
        proof {
            if old(self).depth_limit() is None {
                let was = *old(self);
                let now = *self;
                assert forall|price: int| #[trigger]
                    ladder::settled_at(was.bids(), bids@, now.bids(), price) by {
                    law_a_delta_is_applied_whole(
                        was.bids(),
                        was.asks(),
                        bids@,
                        asks@,
                        now.bids(),
                        now.asks(),
                        price,
                    );
                }
                assert forall|price: int| #[trigger]
                    ladder::settled_at(was.asks(), asks@, now.asks(), price) by {
                    law_a_delta_is_applied_whole(
                        was.bids(),
                        was.asks(),
                        bids@,
                        asks@,
                        now.bids(),
                        now.asks(),
                        price,
                    );
                }
            }
        }
        Ok(())
    }

    /// Installs new contents under a live state: cut to the depth limit, and
    /// desynced instead if they turn out crossed. Within one venue's book a
    /// crossing is impossible in reality, so observing it proves that something
    /// was misapplied.
    fn replace(
        &mut self,
        bids: Vec<Level>,
        asks: Vec<Level>,
        live: BookState,
        at: IngestTime,
    ) -> (r: Result<(), DesyncReason>)
        requires
            ladder::ascending(bids@),
            ladder::ascending(asks@),
            live is Live,
        ensures
            final(self).for_venue() == old(self).for_venue(),
            final(self).for_symbol() == old(self).for_symbol(),
            final(self).depth_limit() == old(self).depth_limit(),
            final(self).updated_at() == Some(at),
            final(self).bids() == pruned_bids(bids@, old(self).depth_limit()),
            final(self).asks() == pruned_asks(asks@, old(self).depth_limit()),
            r is Ok <==> !crossed(final(self).bids(), final(self).asks()),
            r is Ok ==> final(self).status() == live,
            r matches Err(reason) ==> reason == crossing(final(self).bids(), final(self).asks())
                && final(self).status() == (BookState::Desynced { since: at, reason }),
    {
        proof {
            use_type_invariant(&*self);
        }
        let mut bids = bids;
        let mut asks = asks;
        match self.max_depth {
            Some(max) => {
                ladder::keep_highest(&mut bids, max);
                ladder::keep_lowest(&mut asks, max);
            },
            None => {},
        }
        let found = crossing_of(&bids, &asks);
        let state = match found {
            Some(reason) => BookState::Desynced { since: at, reason },
            None => live,
        };
        self.bids = Vec::new();
        self.asks = Vec::new();
        self.state = state;
        self.bids = bids;
        self.asks = asks;
        self.last_update = Some(at);
        match found {
            Some(reason) => Err(reason),
            None => Ok(()),
        }
    }

    /// Record that the venue's checksum matched. Ignored unless the book is
    /// live and verified: a venue that publishes no checksum can never earn the
    /// claim.
    pub fn mark_verified(&mut self, at: IngestTime)
        ensures
            final(self).for_venue() == old(self).for_venue(),
            final(self).for_symbol() == old(self).for_symbol(),
            final(self).bids() == old(self).bids(),
            final(self).asks() == old(self).asks(),
            final(self).updated_at() == old(self).updated_at(),
            final(self).depth_limit() == old(self).depth_limit(),
            final(self).status() == (match old(self).status() {
                BookState::Live { integrity: Integrity::Verified, since, last_verified: _ } => {
                    BookState::Live {
                        integrity: Integrity::Verified,
                        since,
                        last_verified: Some(at),
                    }
                },
                other => other,
            }),
    {
        proof {
            use_type_invariant(&*self);
        }
        match self.state {
            BookState::Live { integrity: Integrity::Verified, since, .. } => {
                self.state = BookState::Live {
                    integrity: Integrity::Verified,
                    since,
                    last_verified: Some(at),
                };
            },
            _ => {},
        }
    }

    /// Declare the book untrustworthy. Contents are retained for debugging but
    /// will not be served as live.
    pub fn mark_desynced(&mut self, reason: DesyncReason, at: IngestTime)
        ensures
            final(self).for_venue() == old(self).for_venue(),
            final(self).for_symbol() == old(self).for_symbol(),
            final(self).bids() == old(self).bids(),
            final(self).asks() == old(self).asks(),
            final(self).updated_at() == old(self).updated_at(),
            final(self).depth_limit() == old(self).depth_limit(),
            final(self).status() == (BookState::Desynced { since: at, reason }),
    {
        proof {
            use_type_invariant(&*self);
        }
        self.state = BookState::Desynced { since: at, reason };
    }

    /// Top of book with trust and age attached. A live book's touch is never
    /// crossed.
    pub fn top_of_book(&self, now: IngestTime) -> (top: TopOfBook)
        ensures
            top.bid == top_bid(self.bids()),
            top.ask == top_ask(self.asks()),
            top.state == self.status(),
            top.age is Some <==> self.updated_at() is Some,
            top.age matches Some(age) ==> age@ == time::minus_nat(
                now.mono_nanos(),
                self.updated_at()->0.mono_nanos(),
            ),
            top.state is Live && top.bid is Some && top.ask is Some ==> top.bid->0.price.units()
                < top.ask->0.price.units(),
    {
        proof {
            use_type_invariant(self);
        }
        let age = match self.last_update {
            Some(last) => Some(now.since(last)),
            None => None,
        };
        TopOfBook { bid: self.best(Side::Bid), ask: self.best(Side::Ask), state: self.state, age }
    }

    /// Best level on a side, ignoring trust.
    pub fn best(&self, side: Side) -> (l: Option<Level>)
        ensures
            l == (match side {
                Side::Bid => top_bid(self.bids()),
                Side::Ask => top_ask(self.asks()),
            }),
    {
        match side {
            Side::Bid => {
                let n: usize = self.bids.len();
                if n == 0 {
                    None
                } else {
                    Some(self.bids[n - 1])
                }
            },
            Side::Ask => if self.asks.len() == 0 {
                None
            } else {
                Some(self.asks[0])
            },
        }
    }

    /// The `n` best levels on a side, best first. A venue's checksum is
    /// computed over the levels in exactly this order.
    pub fn top_levels(&self, side: Side, n: usize) -> (levels: Vec<Level>)
        ensures
            levels@ == best_first(
                match side {
                    Side::Bid => self.bids(),
                    Side::Ask => self.asks(),
                },
                side,
                n as nat,
            ),
            best_to_worst(levels@, side),
    {
        proof {
            use_type_invariant(self);
        }
        let mut out: Vec<Level> = Vec::new();
        let held: &Vec<Level> = match side {
            Side::Bid => &self.bids,
            Side::Ask => &self.asks,
        };
        let count: usize = if n < held.len() {
            n
        } else {
            held.len()
        };
        let mut i: usize = 0;
        while i < count
            invariant
                i <= count <= held@.len(),
                out@.len() == i,
                forall|k: int|
                    0 <= k < i ==> #[trigger] out@[k] == (match side {
                        Side::Bid => held@[held@.len() - 1 - k],
                        Side::Ask => held@[k],
                    }),
            decreases count - i,
        {
            match side {
                Side::Bid => out.push(held[held.len() - 1 - i]),
                Side::Ask => out.push(held[i]),
            }
            i += 1;
        }
        assert(out@ =~= best_first(held@, side, n as nat));
        proof {
            law_top_levels_are_the_best(held@, side, n as nat);
        }
        out
    }

    fn state_kind(&self) -> (k: BookStateKind)
        ensures
            k == self.status().kind(),
    {
        match self.state {
            BookState::Uninitialized => BookStateKind::Uninitialized,
            BookState::Live { .. } => BookStateKind::Live,
            BookState::Desynced { .. } => BookStateKind::Desynced,
        }
    }
}

/// Up to `n` of a side's ascending levels, best first.
pub open spec fn best_first(levels: Seq<Level>, side: Side, n: nat) -> Seq<Level> {
    let count = if n < levels.len() {
        n
    } else {
        levels.len()
    };
    Seq::new(
        count,
        |k: int|
            match side {
                Side::Bid => levels[levels.len() - 1 - k],
                Side::Ask => levels[k],
            },
    )
}

/// Whether levels go from the best price of a side to the worst, none twice.
pub open spec fn best_to_worst(levels: Seq<Level>, side: Side) -> bool {
    forall|i: int, j: int|
        0 <= i < j < levels.len() ==> match side {
            Side::Bid => (#[trigger] levels[i]).price.units() > (
            #[trigger] levels[j]).price.units(),
            Side::Ask => levels[i].price.units() < levels[j].price.units(),
        }
}

/// The best levels of a side are what they are said to be: as many as are asked
/// for or held, from the best to the worst, and the same ones, in the same order,
/// that a longer list begins with. The first of them is the best of the side, and
/// a list of all holds every level, and nothing else.
pub proof fn law_top_levels_are_the_best(levels: Seq<Level>, side: Side, n: nat)
    requires
        ladder::ascending(levels),
    ensures
        best_first(levels, side, n).len() == (if n < levels.len() {
            n
        } else {
            levels.len()
        }),
        best_to_worst(best_first(levels, side, n), side),
        forall|m: nat|
            n <= m ==> best_first(levels, side, n) == (#[trigger] best_first(levels, side, m)).take(
                best_first(levels, side, n).len() as int,
            ),
        n > 0 && levels.len() > 0 ==> Some(best_first(levels, side, n)[0]) == (match side {
            Side::Bid => top_bid(levels),
            Side::Ask => top_ask(levels),
        }),
        n >= levels.len() ==> forall|l: Level|
            #[trigger] best_first(levels, side, n).contains(l) <==> levels.contains(l),
{
    let best = best_first(levels, side, n);
    assert forall|m: nat| n <= m implies best == (#[trigger] best_first(levels, side, m)).take(
        best.len() as int,
    ) by {
        assert(best =~= best_first(levels, side, m).take(best.len() as int));
    }
    if n >= levels.len() {
        assert forall|l: Level| #[trigger] best.contains(l) <==> levels.contains(l) by {
            if levels.contains(l) {
                let i = choose|i: int| 0 <= i < levels.len() && levels[i] == l;
                match side {
                    Side::Bid => assert(best[levels.len() - 1 - i] == l),
                    Side::Ask => assert(best[i] == l),
                }
            }
        }
    }
}

/// The desync that ascending sides amount to, if they are crossed.
fn crossing_of(bids: &Vec<Level>, asks: &Vec<Level>) -> (r: Option<DesyncReason>)
    ensures
        r is Some <==> crossed(bids@, asks@),
        r matches Some(reason) ==> reason == crossing(bids@, asks@),
{
    let n: usize = bids.len();
    if n == 0 || asks.len() == 0 {
        return None;
    }
    let bid = bids[n - 1].price;
    let ask = asks[0].price;
    if bid.below(&ask) {
        None
    } else {
        Some(DesyncReason::CrossedBook { best_bid: bid, best_ask: ask })
    }
}

/// A pruned side holds the same best levels as the whole side, as far as it is
/// kept.
pub proof fn law_pruning_keeps_the_best(bids: Seq<Level>, asks: Seq<Level>, max: usize, n: nat)
    requires
        n <= max,
    ensures
        best_first(pruned_bids(bids, Some(max)), Side::Bid, n) == best_first(bids, Side::Bid, n),
        best_first(pruned_asks(asks, Some(max)), Side::Ask, n) == best_first(asks, Side::Ask, n),
{
    assert(best_first(pruned_bids(bids, Some(max)), Side::Bid, n) =~= best_first(
        bids,
        Side::Bid,
        n,
    ));
    assert(best_first(pruned_asks(asks, Some(max)), Side::Ask, n) =~= best_first(
        asks,
        Side::Ask,
        n,
    ));
}

/// What a snapshot leaves does not depend on what was there before: two books
/// with one depth limit hold the same levels after the same listing.
pub proof fn law_snapshot_replaces(
    a: Seq<Level>,
    b: Seq<Level>,
    listing: Seq<Level>,
    max_depth: Option<usize>,
)
    requires
        bids_from(a, ladder::listed(listing), max_depth),
        bids_from(b, ladder::listed(listing), max_depth),
    ensures
        a == b,
{
    let x = choose|all: Seq<Level>|
        ladder::ascending(all) && ladder::by_price(all) == ladder::listed(listing) && a
            == #[trigger] pruned_bids(all, max_depth);
    let y = choose|all: Seq<Level>|
        ladder::ascending(all) && ladder::by_price(all) == ladder::listed(listing) && b
            == #[trigger] pruned_bids(all, max_depth);
    ladder::law_ladder_is_its_map(x, y);
}

/// Guarantees are ranked, and the weaker of two is one of them and no stronger than
/// either, whichever comes first.
pub proof fn law_the_weaker_is_no_stronger(a: Integrity, b: Integrity)
    ensures
        Integrity::OrderOnly.rank() < Integrity::GapDetectable.rank(),
        Integrity::GapDetectable.rank() < Integrity::Verified.rank(),
        a.rank() == b.rank() ==> a == b,
        weaker(a, b) == a || weaker(a, b) == b,
        weaker(a, b).rank() <= a.rank(),
        weaker(a, b).rank() <= b.rank(),
        weaker(a, b) == weaker(b, a),
{
}

/// Where there is a guarantee, there is a weaker of two: no stronger than either
/// that is there, and one of them.
pub proof fn law_a_missing_guarantee_claims_nothing(a: Option<Integrity>, b: Option<Integrity>)
    ensures
        weaker_option(a, b) is Some <==> a is Some || b is Some,
        weaker_option(a, b) == a || weaker_option(a, b) == b,
        a is Some ==> (weaker_option(a, b)->0).rank() <= (a->0).rank(),
        b is Some ==> (weaker_option(a, b)->0).rank() <= (b->0).rank(),
{
}

/// A book is crossed exactly where some bid is at or above some ask; and the reason
/// then names a bid that no bid is above and an ask that no ask is below.
pub proof fn law_a_crossing_is_a_bid_at_or_above_an_ask(bids: Seq<Level>, asks: Seq<Level>)
    requires
        ladder::ascending(bids),
        ladder::ascending(asks),
    ensures
        crossed(bids, asks) <==> exists|i: int, j: int|
            0 <= i < bids.len() && 0 <= j < asks.len() && (#[trigger] bids[i]).price.units() >= (
            #[trigger] asks[j]).price.units(),
        crossed(bids, asks) ==> {
            &&& crossing(bids, asks) matches DesyncReason::CrossedBook { best_bid, best_ask }
            &&& best_bid.units() >= best_ask.units()
            &&& exists|i: int| 0 <= i < bids.len() && (#[trigger] bids[i]).price == best_bid
            &&& exists|j: int| 0 <= j < asks.len() && (#[trigger] asks[j]).price == best_ask
            &&& forall|i: int|
                0 <= i < bids.len() ==> (#[trigger] bids[i]).price.units() <= best_bid.units()
            &&& forall|j: int|
                0 <= j < asks.len() ==> (#[trigger] asks[j]).price.units() >= best_ask.units()
        },
{
    assert forall|i: int| 0 <= i < bids.len() implies (#[trigger] bids[i]).price.units()
        <= bids.last().price.units() by {
        if i < bids.len() - 1 {
            assert(bids[i].price.units() < bids[bids.len() - 1].price.units());
        }
    }
    assert forall|j: int| 0 <= j < asks.len() implies (#[trigger] asks[j]).price.units()
        >= asks[0].price.units() by {
        if j > 0 {
            assert(asks[0].price.units() < asks[j].price.units());
        }
    }
    if crossed(bids, asks) {
        let n = bids.len() - 1;
        assert(bids[n].price.units() >= asks[0].price.units());
        assert(bids[n].price == bids.last().price);
    }
}

/// The touch is the best of the book: no bid is above the best bid, no ask below
/// the best ask, and there is one wherever the side holds a level.
pub proof fn law_the_touch_is_the_best(bids: Seq<Level>, asks: Seq<Level>)
    requires
        ladder::ascending(bids),
        ladder::ascending(asks),
    ensures
        top_bid(bids) is Some <==> bids.len() > 0,
        top_ask(asks) is Some <==> asks.len() > 0,
        top_bid(bids) matches Some(best) ==> bids.contains(best) && forall|i: int|
            0 <= i < bids.len() ==> (#[trigger] bids[i]).price.units() <= best.price.units(),
        top_ask(asks) matches Some(best) ==> asks.contains(best) && forall|i: int|
            0 <= i < asks.len() ==> (#[trigger] asks[i]).price.units() >= best.price.units(),
{
    assert forall|i: int| 0 <= i < bids.len() implies (#[trigger] bids[i]).price.units()
        <= bids.last().price.units() by {
        if i < bids.len() - 1 {
            assert(bids[i].price.units() < bids[bids.len() - 1].price.units());
        }
    }
    assert forall|i: int| 0 <= i < asks.len() implies (#[trigger] asks[i]).price.units()
        >= asks[0].price.units() by {
        if i > 0 {
            assert(asks[0].price.units() < asks[i].price.units());
        }
    }
    if bids.len() > 0 {
        assert(bids[bids.len() - 1] == bids.last());
    }
}

/// A delta is applied whole, on both sides: at every price the last update of that
/// side that names it decides, and a price that none names holds what it held. So
/// it is of a book without a depth limit.
pub proof fn law_a_delta_is_applied_whole(
    bids: Seq<Level>,
    asks: Seq<Level>,
    bid_updates: Seq<Level>,
    ask_updates: Seq<Level>,
    new_bids: Seq<Level>,
    new_asks: Seq<Level>,
    at: int,
)
    requires
        ladder::ascending(bids),
        ladder::ascending(asks),
        bids_from(new_bids, ladder::all_updated(ladder::by_price(bids), bid_updates), None),
        asks_from(new_asks, ladder::all_updated(ladder::by_price(asks), ask_updates), None),
    ensures
        ladder::unnamed(bid_updates, at) ==> forall|l: Level|
            l.price.units() == at ==> (#[trigger] new_bids.contains(l) <==> bids.contains(l)),
        ladder::unnamed(ask_updates, at) ==> forall|l: Level|
            l.price.units() == at ==> (#[trigger] new_asks.contains(l) <==> asks.contains(l)),
        forall|i: int| #[trigger]
            ladder::decides(bid_updates, at, i) ==> if bid_updates[i].qty.units() == 0 {
                !ladder::holds_price(new_bids, at)
            } else {
                ladder::holds_quantity(new_bids, at, bid_updates[i].qty)
            },
        forall|i: int| #[trigger]
            ladder::decides(ask_updates, at, i) ==> if ask_updates[i].qty.units() == 0 {
                !ladder::holds_price(new_asks, at)
            } else {
                ladder::holds_quantity(new_asks, at, ask_updates[i].qty)
            },
{
    ladder::law_the_last_update_decides(bids, bid_updates, new_bids, at);
    ladder::law_the_last_update_decides(asks, ask_updates, new_asks, at);
    assert forall|i: int| #[trigger]
        ladder::decides(bid_updates, at, i) implies bid_updates[i].qty.deletes() == (
    bid_updates[i].qty.units() == 0) by {
        crate::price::law_only_nothing_deletes(bid_updates[i].qty);
    }
    assert forall|i: int| #[trigger]
        ladder::decides(ask_updates, at, i) implies ask_updates[i].qty.deletes() == (
    ask_updates[i].qty.units() == 0) by {
        crate::price::law_only_nothing_deletes(ask_updates[i].qty);
    }
}

/// A snapshot is taken whole, on both sides: a price is held exactly where a level
/// of some quantity lists it, with the quantity of the last such level. So it is of
/// a book without a depth limit.
pub proof fn law_a_snapshot_is_taken_whole(
    bid_listing: Seq<Level>,
    ask_listing: Seq<Level>,
    bids: Seq<Level>,
    asks: Seq<Level>,
    at: int,
)
    requires
        bids_from(bids, ladder::listed(bid_listing), None),
        asks_from(asks, ladder::listed(ask_listing), None),
    ensures
        ladder::holds_price(bids, at) <==> exists|j: int|
            0 <= j < bid_listing.len() && (#[trigger] bid_listing[j]).price.units() == at
                && !bid_listing[j].qty.deletes(),
        ladder::holds_price(asks, at) <==> exists|j: int|
            0 <= j < ask_listing.len() && (#[trigger] ask_listing[j]).price.units() == at
                && !ask_listing[j].qty.deletes(),
        forall|i: int| #[trigger]
            ladder::stands_last(bid_listing, at, i) ==> ladder::holds_quantity(
                bids,
                at,
                bid_listing[i].qty,
            ),
        forall|i: int| #[trigger]
            ladder::stands_last(ask_listing, at, i) ==> ladder::holds_quantity(
                asks,
                at,
                ask_listing[i].qty,
            ),
{
    ladder::law_a_listing_is_taken_whole(bid_listing, bids, at);
    ladder::law_a_listing_is_taken_whole(ask_listing, asks, at);
}

/// A depth limit drops the worst levels and no others: a side keeps as many levels
/// as it may, each as it was, and whatever it drops is worse than all it keeps.
pub proof fn law_a_depth_limit_drops_the_worst(
    levels: Map<int, Level>,
    whole_bids: Seq<Level>,
    whole_asks: Seq<Level>,
    ask_levels: Map<int, Level>,
    bids: Seq<Level>,
    asks: Seq<Level>,
    max: usize,
    l: Level,
)
    requires
        bids_from(whole_bids, levels, None),
        bids_from(bids, levels, Some(max)),
        asks_from(whole_asks, ask_levels, None),
        asks_from(asks, ask_levels, Some(max)),
    ensures
        bids.len() == (if whole_bids.len() < max {
            whole_bids.len()
        } else {
            max as nat
        }),
        asks.len() == (if whole_asks.len() < max {
            whole_asks.len()
        } else {
            max as nat
        }),
        bids.contains(l) ==> whole_bids.contains(l),
        asks.contains(l) ==> whole_asks.contains(l),
        whole_bids.contains(l) && !bids.contains(l) ==> forall|i: int|
            0 <= i < bids.len() ==> l.price.units() < (#[trigger] bids[i]).price.units(),
        whole_asks.contains(l) && !asks.contains(l) ==> forall|i: int|
            0 <= i < asks.len() ==> l.price.units() > (#[trigger] asks[i]).price.units(),
{
    let b = choose|all: Seq<Level>|
        ladder::ascending(all) && ladder::by_price(all) == levels && bids == #[trigger] pruned_bids(
            all,
            Some(max),
        );
    let a = choose|all: Seq<Level>|
        ladder::ascending(all) && ladder::by_price(all) == ask_levels && asks
            == #[trigger] pruned_asks(all, Some(max));
    ladder::law_ladder_is_its_map(b, whole_bids);
    ladder::law_ladder_is_its_map(a, whole_asks);
    let cut = whole_bids.len() - bids.len();
    assert forall|i: int| 0 <= i < bids.len() implies #[trigger] bids[i] == whole_bids[cut + i] by {}
    if bids.contains(l) {
        let i = choose|i: int| 0 <= i < bids.len() && bids[i] == l;
        assert(whole_bids[cut + i] == l);
    }
    if whole_bids.contains(l) && !bids.contains(l) {
        let k = choose|k: int| 0 <= k < whole_bids.len() && whole_bids[k] == l;
        if k >= cut {
            assert(bids[k - cut] == l);
        }
        assert forall|i: int| 0 <= i < bids.len() implies l.price.units() < (
        #[trigger] bids[i]).price.units() by {
            assert(whole_bids[k].price.units() < whole_bids[cut + i].price.units());
        }
    }
    assert forall|i: int| 0 <= i < asks.len() implies #[trigger] asks[i] == whole_asks[i] by {}
    if asks.contains(l) {
        let i = choose|i: int| 0 <= i < asks.len() && asks[i] == l;
        assert(whole_asks[i] == l);
    }
    if whole_asks.contains(l) && !asks.contains(l) {
        let k = choose|k: int| 0 <= k < whole_asks.len() && whole_asks[k] == l;
        if k < asks.len() {
            assert(asks[k] == l);
        }
        assert forall|i: int| 0 <= i < asks.len() implies l.price.units() > (
        #[trigger] asks[i]).price.units() by {
            assert(whole_asks[i].price.units() < whole_asks[k].price.units());
        }
    }
}

/// A transition is seen: states that count as one have one kind, one claim of trust,
/// one beginning and, where trust was lost, one kind of reason.
pub proof fn law_a_transition_is_seen(a: BookState, b: BookState)
    requires
        same_status(a, b),
    ensures
        a.kind() == b.kind(),
        a.trust() == b.trust(),
        a is Live <==> a.trust() is Some,
        match (a, b) {
            (BookState::Live { since: s, .. }, BookState::Live { since: t, .. }) => s == t,
            (
                BookState::Desynced { since: s, reason: q },
                BookState::Desynced { since: t, reason: r },
            ) => {
                &&& s == t
                &&& same_reason(q, r)
                &&& q is CrossedBook <==> r is CrossedBook
                &&& q is AuditMismatch <==> r is AuditMismatch
                &&& !(q is CrossedBook) && !(q is AuditMismatch) ==> q == r
            },
            (BookState::Uninitialized, BookState::Uninitialized) => true,
            _ => false,
        },
{
}

} // verus!
