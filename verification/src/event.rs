//! The single normalised event type.
//!
//! Everything venue-specific is resolved before an event is made. Nothing
//! downstream knows which venue an event came from except by reading
//! [`MarketEvent::venue`].

use vstd::prelude::*;

use crate::price::{Price, Qty};
use crate::text;
use crate::time::{Duration, IngestTime, SystemTime};

verus! {

/// The venues this build knows how to speak to.
#[derive(Clone, Copy, Debug, PartialEq, Eq, PartialOrd, Ord, Hash, Structural)]
pub enum VenueId {
    Coinbase,
    Kraken,
    Bitstamp,
    /// Scripted venue, for replay and for tests.
    Fake,
}

impl VenueId {
    /// The venue's name.
    pub open spec fn name(self) -> Seq<char> {
        match self {
            VenueId::Coinbase => "coinbase"@,
            VenueId::Kraken => "kraken"@,
            VenueId::Bitstamp => "bitstamp"@,
            VenueId::Fake => "fake"@,
        }
    }

    /// The venue's place in the order of declaration.
    pub open spec fn rank(self) -> int {
        match self {
            VenueId::Coinbase => 0,
            VenueId::Kraken => 1,
            VenueId::Bitstamp => 2,
            VenueId::Fake => 3,
        }
    }

    pub fn as_str(&self) -> (s: &'static str)
        ensures
            s@ == self.name(),
    {
        match self {
            VenueId::Coinbase => "coinbase",
            VenueId::Kraken => "kraken",
            VenueId::Bitstamp => "bitstamp",
            VenueId::Fake => "fake",
        }
    }

    /// Whether this venue is declared before another.
    pub fn before(&self, other: &VenueId) -> (b: bool)
        ensures
            b == (self.rank() < other.rank()),
    {
        match (self, other) {
            (_, VenueId::Coinbase) => false,
            (VenueId::Coinbase, _) => true,
            (_, VenueId::Kraken) => false,
            (VenueId::Kraken, _) => true,
            (VenueId::Bitstamp, VenueId::Fake) => true,
            (_, _) => false,
        }
    }

    /// The venue with the given name.
    pub fn from_name(raw: &str) -> (v: Option<VenueId>)
        ensures
            v == venue_named(raw@),
            v matches Some(v) ==> v.name() == raw@,
            v is None ==> forall|w: VenueId| w.name() != raw@,
    {
        if text::same_text(raw, "coinbase") {
            Some(VenueId::Coinbase)
        } else if text::same_text(raw, "kraken") {
            Some(VenueId::Kraken)
        } else if text::same_text(raw, "bitstamp") {
            Some(VenueId::Bitstamp)
        } else if text::same_text(raw, "fake") {
            Some(VenueId::Fake)
        } else {
            None
        }
    }
}

/// The venue with the given name.
pub open spec fn venue_named(raw: Seq<char>) -> Option<VenueId> {
    if raw == VenueId::Coinbase.name() {
        Some(VenueId::Coinbase)
    } else if raw == VenueId::Kraken.name() {
        Some(VenueId::Kraken)
    } else if raw == VenueId::Bitstamp.name() {
        Some(VenueId::Bitstamp)
    } else if raw == VenueId::Fake.name() {
        Some(VenueId::Fake)
    } else {
        None
    }
}

/// Venues with the same name are the same venue.
pub proof fn law_venue_names_are_distinct(a: VenueId, b: VenueId)
    requires
        a.name() == b.name(),
    ensures
        a == b,
{
    reveal_strlit("coinbase");
    reveal_strlit("kraken");
    reveal_strlit("bitstamp");
    reveal_strlit("fake");
    assert("coinbase"@.len() == 8 && "kraken"@.len() == 6 && "bitstamp"@.len() == 8
        && "fake"@.len() == 4);
    assert("coinbase"@[0] == 'c' && "bitstamp"@[0] == 'b');
}

/// A normalised instrument identifier, e.g. `BTC-USD`.
#[derive(Debug, PartialOrd, Ord, Hash)]
pub struct Symbol {
    name: String,
}

impl View for Symbol {
    type V = Seq<char>;

    closed spec fn view(&self) -> Seq<char> {
        self.name@
    }
}

impl Symbol {
    pub fn new(s: &str) -> (r: Symbol)
        ensures
            r@ == s@,
    {
        Symbol { name: s.to_owned() }
    }

    pub fn as_str(&self) -> (s: &str)
        ensures
            s@ == self@,
    {
        self.name.as_str()
    }
}

impl Clone for Symbol {
    fn clone(&self) -> (r: Symbol)
        ensures
            r == *self,
    {
        Symbol { name: self.name.clone() }
    }
}

impl PartialEq for Symbol {
    fn eq(&self, other: &Symbol) -> (b: bool) {
        self.name == other.name
    }
}

impl vstd::std_specs::cmp::PartialEqSpecImpl for Symbol {
    open spec fn obeys_eq_spec() -> bool {
        true
    }

    open spec fn eq_spec(&self, other: &Symbol) -> bool {
        self@ == other@
    }
}

impl Eq for Symbol {

}

/// A side of a book.
#[derive(Clone, Copy, Debug, PartialEq, Eq, Hash, Structural)]
pub enum Side {
    Bid,
    Ask,
}

impl Side {
    /// The side's name.
    pub open spec fn name(self) -> Seq<char> {
        match self {
            Side::Bid => "bid"@,
            Side::Ask => "ask"@,
        }
    }

    pub fn as_str(&self) -> (s: &'static str)
        ensures
            s@ == self.name(),
    {
        match self {
            Side::Bid => "bid",
            Side::Ask => "ask",
        }
    }

    /// The side with the given name.
    pub fn from_name(raw: &str) -> (s: Option<Side>)
        ensures
            s == side_named(raw@),
            s matches Some(s) ==> s.name() == raw@,
            s is None ==> forall|t: Side| t.name() != raw@,
    {
        if text::same_text(raw, "bid") {
            Some(Side::Bid)
        } else if text::same_text(raw, "ask") {
            Some(Side::Ask)
        } else {
            None
        }
    }
}

/// The side with the given name.
pub open spec fn side_named(raw: Seq<char>) -> Option<Side> {
    if raw == Side::Bid.name() {
        Some(Side::Bid)
    } else if raw == Side::Ask.name() {
        Some(Side::Ask)
    } else {
        None
    }
}

/// Sides with the same name are the same side.
pub proof fn law_side_names_are_distinct(a: Side, b: Side)
    requires
        a.name() == b.name(),
    ensures
        a == b,
{
    reveal_strlit("bid");
    reveal_strlit("ask");
    assert("bid"@[0] == 'b' && "ask"@[0] == 'a');
}

/// One price level in a snapshot or delta.
#[derive(Clone, Copy, Debug, PartialEq, Eq)]
pub struct Level {
    pub price: Price,
    /// Zero means delete this level. See [`Qty::is_delete`].
    pub qty: Qty,
}

impl Level {
    pub fn new(price: Price, qty: Qty) -> (l: Level)
        ensures
            l.price == price,
            l.qty == qty,
    {
        Level { price, qty }
    }
}

/// What actually happened.
#[derive(Debug, PartialEq, Eq)]
pub enum EventKind {
    /// Replace the book wholesale. Ends a resync.
    Snapshot { bids: Vec<Level>, asks: Vec<Level> },
    /// Incremental change. Zero quantity deletes.
    Delta { bids: Vec<Level>, asks: Vec<Level> },
    Trade {
        price: Price,
        qty: Qty,
        /// Which side took liquidity; `None` where the venue does not say.
        taker_side: Option<Side>,
    },
    /// The venue's own claim about the state of the book, if it makes one.
    Checksum { value: u32 },
    /// Liveness only. Carries no book content, but its absence is meaningful.
    Heartbeat { counter: Option<u64> },
}

/// Copies a list of levels.
pub fn copy_levels(levels: &[Level]) -> (r: Vec<Level>)
    ensures
        r@ == levels@,
{
    let mut out: Vec<Level> = Vec::new();
    let mut i: usize = 0;
    while i < levels.len()
        invariant
            i <= levels@.len(),
            out@ == levels@.take(i as int),
        decreases levels@.len() - i,
    {
        out.push(levels[i]);
        i += 1;
        assert(out@ =~= levels@.take(i as int));
    }
    assert(levels@.take(levels@.len() as int) =~= levels@);
    out
}

/// Two kinds that hold the same levels and values.
pub open spec fn same_kind(a: EventKind, b: EventKind) -> bool {
    match (a, b) {
        (
            EventKind::Snapshot { bids: b1, asks: a1 },
            EventKind::Snapshot { bids: b2, asks: a2 },
        ) => b1@ == b2@ && a1@ == a2@,
        (
            EventKind::Delta { bids: b1, asks: a1 },
            EventKind::Delta { bids: b2, asks: a2 },
        ) => b1@ == b2@ && a1@ == a2@,
        (
            EventKind::Trade { price: p1, qty: q1, taker_side: t1 },
            EventKind::Trade { price: p2, qty: q2, taker_side: t2 },
        ) => p1 == p2 && q1 == q2 && t1 == t2,
        (EventKind::Checksum { value: v1 }, EventKind::Checksum { value: v2 }) => v1 == v2,
        (EventKind::Heartbeat { counter: c1 }, EventKind::Heartbeat { counter: c2 }) => c1 == c2,
        _ => false,
    }
}

impl Clone for EventKind {
    fn clone(&self) -> (r: EventKind)
        ensures
            same_kind(r, *self),
    {
        match self {
            EventKind::Snapshot { bids, asks } => EventKind::Snapshot {
                bids: copy_levels(bids),
                asks: copy_levels(asks),
            },
            EventKind::Delta { bids, asks } => EventKind::Delta {
                bids: copy_levels(bids),
                asks: copy_levels(asks),
            },
            EventKind::Trade { price, qty, taker_side } => EventKind::Trade {
                price: *price,
                qty: *qty,
                taker_side: *taker_side,
            },
            EventKind::Checksum { value } => EventKind::Checksum { value: *value },
            EventKind::Heartbeat { counter } => EventKind::Heartbeat { counter: *counter },
        }
    }
}

/// A normalised event, stamped with both clocks.
#[derive(Debug, PartialEq)]
pub struct MarketEvent {
    pub venue: VenueId,
    pub symbol: Symbol,
    /// The venue's own timestamp, as sent. Never used for windowing or
    /// ordering; kept so that clock skew can be measured.
    pub venue_ts: Option<SystemTime>,
    /// When it was received. This is the clock every window uses.
    pub ingest_ts: IngestTime,
    pub kind: EventKind,
}

impl Clone for MarketEvent {
    fn clone(&self) -> (r: MarketEvent)
        ensures
            r.venue == self.venue,
            r.symbol == self.symbol,
            r.venue_ts == self.venue_ts,
            r.ingest_ts == self.ingest_ts,
            same_kind(r.kind, self.kind),
    {
        MarketEvent {
            venue: self.venue,
            symbol: self.symbol.clone(),
            venue_ts: self.venue_ts,
            ingest_ts: self.ingest_ts,
            kind: self.kind.clone(),
        }
    }
}

impl MarketEvent {
    /// How far ahead or behind the venue's clock ran relative to ours at
    /// ingest. Reported, never used to reorder anything.
    pub fn clock_skew(&self) -> (skew: Option<SkewObservation>)
        ensures
            match (self.venue_ts, skew) {
                (None, None) => true,
                (Some(t), Some(SkewObservation::VenueAhead(d))) => {
                    d@ == t@ - self.ingest_ts.wall_nanos()
                },
                (Some(t), Some(SkewObservation::VenueBehind(d))) => {
                    d@ > 0 && d@ == self.ingest_ts.wall_nanos() - t@
                },
                _ => false,
            },
    {
        match self.venue_ts {
            None => None,
            Some(venue_ts) => match venue_ts.duration_since(self.ingest_ts.wall()) {
                Ok(ahead) => Some(SkewObservation::VenueAhead(ahead)),
                Err(behind) => Some(SkewObservation::VenueBehind(behind)),
            },
        }
    }
}

/// Which way a venue's clock was off, and by how much.
#[derive(Clone, Copy, Debug, PartialEq, Eq)]
pub enum SkewObservation {
    VenueAhead(Duration),
    VenueBehind(Duration),
}

} // verus!
