//! Archived events put together again from their rows.
//!
//! Consecutive rows with one `event_seq` are one event. An event may begin in
//! one batch and end in a later one.
use vstd::prelude::*;

use crate::columnar;
use crate::columnar::{BatchView, Cell, FileReader, FileView};
use crate::decimal;
use crate::decimal::{Decimal, Parts};
use crate::event::{
    law_side_names_are_distinct, law_venue_names_are_distinct, side_named, venue_named, EventKind,
    Level, MarketEvent, Side, Symbol, VenueId,
};
use crate::kind;
use crate::price::{Price, Qty};
use crate::record;
use crate::record::{or_empty, EventView, KindView, Row, RowView};
use crate::schema;
use crate::stream::StreamId;
use crate::text;
use crate::time::{clamped_nanos, minus_nat, Duration, IngestTime, Instant, SystemTime};

verus! {

/// Why a file cannot be read.
#[derive(Debug)]
pub enum ReadError {
    /// The bytes are no Parquet file.
    Parquet(parquet::errors::ParquetError),
    /// Reading the file broke off.
    Arrow(arrow::error::ArrowError),
    /// A column was missing or had an unexpected type.
    Column { column: &'static str },
    /// A row carried an unknown value.
    Unknown { row: usize, field: &'static str, value: String },
    /// A row lacked what its kind of event needs.
    Incomplete { row: usize, kind: String, field: &'static str },
}

/// Why a file cannot be read, by its characters.
pub enum Fault {
    Parquet,
    Arrow,
    Column { column: Seq<char> },
    Unknown { row: nat, field: Seq<char>, value: Seq<char> },
    Incomplete { row: nat, kind: Seq<char>, field: Seq<char> },
}

impl View for ReadError {
    type V = Fault;

    open spec fn view(&self) -> Fault {
        match self {
            ReadError::Parquet(_) => Fault::Parquet,
            ReadError::Arrow(_) => Fault::Arrow,
            ReadError::Column { column } => Fault::Column { column: column@ },
            ReadError::Unknown { row, field, value } => Fault::Unknown {
                row: *row as nat,
                field: field@,
                value: value@,
            },
            ReadError::Incomplete { row, kind, field } => Fault::Incomplete {
                row: *row as nat,
                kind: kind@,
                field: field@,
            },
        }
    }
}

/// One event read back, and the offset that orders it.
#[derive(Debug, PartialEq)]
pub struct StoredEvent {
    pub stream: StreamId,
    pub event: MarketEvent,
    /// Monotonic offset from the writer's first event. Replay paces by this and
    /// not by the wall clock.
    pub elapsed: Duration,
}

impl Clone for StoredEvent {
    fn clone(&self) -> (s: StoredEvent)
        ensures
            s@ == self@,
    {
        StoredEvent {
            stream: self.stream.clone(),
            event: self.event.clone(),
            elapsed: self.elapsed,
        }
    }
}

/// What a stored event holds.
pub struct StoredView {
    pub stream: (VenueId, Seq<char>),
    pub event: EventView,
    pub elapsed: nat,
}

impl View for StoredEvent {
    type V = StoredView;

    open spec fn view(&self) -> StoredView {
        StoredView {
            stream: self.stream@,
            event: record::event_view(self.event),
            elapsed: self.elapsed@,
        }
    }
}

/// Stored events, by what they hold.
pub open spec fn stored_views(events: Seq<StoredEvent>) -> Seq<StoredView> {
    events.map_values(|e: StoredEvent| e@)
}

/// An event of which rows may still follow.
pub struct PendingView {
    pub seq: i64,
    pub event: StoredView,
    pub bids: Seq<(Parts, Parts)>,
    pub asks: Seq<(Parts, Parts)>,
}

/// How far reading has come: the event in progress, and the finished ones.
pub struct ReadingView {
    pub open: Option<PendingView>,
    pub out: Seq<StoredView>,
}

/// Nothing read yet.
pub open spec fn nothing_read() -> ReadingView {
    ReadingView { open: None, out: Seq::empty() }
}

/// The event that a finished one is: its levels are those of its rows.
pub open spec fn finished(p: PendingView) -> StoredView {
    let kind = match p.event.event.kind {
        KindView::Snapshot { .. } => KindView::Snapshot { bids: p.bids, asks: p.asks },
        KindView::Delta { .. } => KindView::Delta { bids: p.bids, asks: p.asks },
        other => other,
    };
    StoredView { event: EventView { kind, ..p.event.event }, ..p.event }
}

/// A new sequence number ends the event in progress.
pub open spec fn ended_by(s: ReadingView, seq: i64) -> ReadingView {
    match s.open {
        Some(p) => if p.seq == seq {
            s
        } else {
            ReadingView { open: None, out: s.out.push(finished(p)) }
        },
        None => s,
    }
}

/// All events, the one in progress taken as finished.
pub open spec fn all_events(s: ReadingView) -> Seq<StoredView> {
    match s.open {
        Some(p) => s.out.push(finished(p)),
        None => s.out,
    }
}

/// The size of a count, its sign left out.
pub open spec fn size(n: i64) -> nat {
    if n < 0 {
        (-(n as int)) as nat
    } else {
        n as nat
    }
}

/// The price that a row holds, if its text stands for one.
pub open spec fn price_of(row: RowView) -> Option<Parts> {
    decimal::parsed(or_empty(row.price))
}

/// The quantity that a row holds, if its text stands for one not below zero.
pub open spec fn qty_of(row: RowView) -> Option<Parts> {
    match decimal::parsed(or_empty(row.qty)) {
        Some(d) => if d.0 >= 0 {
            Some(d)
        } else {
            None
        },
        None => None,
    }
}

/// What the first row of an event says of its kind. The levels come with the
/// rows, and what a trade is comes with its row.
pub open spec fn first_kind(row: RowView, at: nat) -> Result<KindView, Fault> {
    if row.kind == kind::SNAPSHOT@ {
        Ok(KindView::Snapshot { bids: Seq::empty(), asks: Seq::empty() })
    } else if row.kind == kind::DELTA@ {
        Ok(KindView::Delta { bids: Seq::empty(), asks: Seq::empty() })
    } else if row.kind == kind::CHECKSUM@ {
        match row.checksum {
            Some(value) => Ok(KindView::Checksum { value }),
            None => Err(
                Fault::Incomplete { row: at, kind: kind::CHECKSUM@, field: "checksum"@ },
            ),
        }
    } else if row.kind == kind::HEARTBEAT@ {
        Ok(
            KindView::Heartbeat {
                counter: match row.heartbeat_counter {
                    Some(c) => Some(size(c) as u64),
                    None => None,
                },
            },
        )
    } else if row.kind == kind::TRADE@ {
        Ok(
            KindView::Trade {
                price: decimal::whole(0),
                qty: decimal::whole(0),
                taker_side: None,
            },
        )
    } else {
        Err(Fault::Unknown { row: at, field: "kind"@, value: row.kind })
    }
}

/// The event that a row begins.
pub open spec fn begun(row: RowView, at: nat, now: nat) -> Result<PendingView, Fault> {
    match venue_named(row.venue) {
        None => Err(Fault::Unknown { row: at, field: "venue"@, value: row.venue }),
        Some(venue) => match first_kind(row, at) {
            Err(f) => Err(f),
            Ok(kind) => {
                let event = EventView {
                    venue,
                    symbol: row.symbol,
                    venue_ts: match row.venue_ts {
                        Some(t) => Some(t as int),
                        None => None,
                    },
                    mono: now,
                    wall: row.ingest_wall as int,
                    kind,
                };
                Ok(
                    PendingView {
                        seq: row.event_seq,
                        event: StoredView {
                            stream: (venue, row.symbol),
                            event,
                            elapsed: size(row.ingest_elapsed),
                        },
                        bids: Seq::empty(),
                        asks: Seq::empty(),
                    },
                )
            },
        },
    }
}

/// The event that a row belongs to: the one in progress, or one that it begins.
pub open spec fn belongs_to(open: Option<PendingView>, row: RowView, at: nat, now: nat) -> Result<
    PendingView,
    Fault,
> {
    match open {
        Some(p) => Ok(p),
        None => begun(row, at, now),
    }
}

/// What a row's text in a field is, where it stands for nothing known.
pub open spec fn unknown(at: nat, field: Seq<char>, value: Seq<char>) -> Fault {
    Fault::Unknown { row: at, field, value }
}

/// The event in progress after the row of a trade.
pub open spec fn with_trade(p: PendingView, row: RowView, at: nat) -> Result<PendingView, Fault> {
    if row.price is None {
        Err(Fault::Incomplete { row: at, kind: kind::TRADE@, field: "price"@ })
    } else if row.qty is None {
        Err(Fault::Incomplete { row: at, kind: kind::TRADE@, field: "qty"@ })
    } else if price_of(row) is None {
        Err(unknown(at, "price"@, or_empty(row.price)))
    } else if qty_of(row) is None {
        Err(unknown(at, "qty"@, or_empty(row.qty)))
    } else if row.taker_side is Some && side_named(row.taker_side->0) is None {
        Err(unknown(at, "side"@, row.taker_side->0))
    } else {
        let kind = KindView::Trade {
            price: price_of(row)->0,
            qty: qty_of(row)->0,
            taker_side: match row.taker_side {
                Some(name) => side_named(name),
                None => None,
            },
        };
        Ok(
            PendingView {
                event: StoredView { event: EventView { kind, ..p.event.event }, ..p.event },
                ..p
            },
        )
    }
}

/// The event in progress after the row of a level.
pub open spec fn with_level(p: PendingView, row: RowView, at: nat) -> Result<PendingView, Fault> {
    if price_of(row) is None {
        Err(unknown(at, "price"@, or_empty(row.price)))
    } else if qty_of(row) is None {
        Err(unknown(at, "qty"@, or_empty(row.qty)))
    } else {
        let level = (price_of(row)->0, qty_of(row)->0);
        match side_named(or_empty(row.side)) {
            None => Err(unknown(at, "side"@, or_empty(row.side))),
            Some(Side::Bid) => Ok(PendingView { bids: p.bids.push(level), ..p }),
            Some(Side::Ask) => Ok(PendingView { asks: p.asks.push(level), ..p }),
        }
    }
}

/// The event in progress after one of its rows. A row without a side carries no
/// level.
pub open spec fn with_row(p: PendingView, row: RowView, at: nat) -> Result<PendingView, Fault> {
    if row.kind == kind::TRADE@ {
        with_trade(p, row, at)
    } else if row.side is None {
        Ok(p)
    } else {
        with_level(p, row, at)
    }
}

/// How far reading has come after a row, which stands at a place in its batch.
pub open spec fn read_row(s: ReadingView, row: RowView, at: nat, now: nat) -> Result<
    ReadingView,
    Fault,
> {
    let t = ended_by(s, row.event_seq);
    match belongs_to(t.open, row, at, now) {
        Err(f) => Err(f),
        Ok(p) => match with_row(p, row, at) {
            Err(f) => Err(f),
            Ok(q) => Ok(ReadingView { open: Some(q), out: t.out }),
        },
    }
}

/// How far reading has come after the first rows of a batch.
pub open spec fn read_rows(s: ReadingView, rows: Seq<RowView>, n: nat, now: nat) -> Result<
    ReadingView,
    Fault,
>
    decreases n,
{
    if n == 0 {
        Ok(s)
    } else {
        match read_rows(s, rows, (n - 1) as nat, now) {
            Err(f) => Err(f),
            Ok(t) => read_row(t, rows[n - 1], (n - 1) as nat, now),
        }
    }
}

/// How far reading has come after the first batches of a file.
pub open spec fn read_batches(batches: Seq<BatchView>, n: nat, now: nat) -> Result<
    ReadingView,
    Fault,
>
    decreases n,
{
    if n == 0 {
        Ok(nothing_read())
    } else {
        match read_batches(batches, (n - 1) as nat, now) {
            Err(f) => Err(f),
            Ok(s) => {
                let batch = batches[n - 1];
                match record::missing_column(batch.types) {
                    Some(column) => Err(Fault::Column { column }),
                    None => read_rows(
                        s,
                        record::rows_from(batch.rows),
                        batch.rows.len(),
                        now,
                    ),
                }
            },
        }
    }
}

/// The events of a file, or why it cannot be read.
pub open spec fn decoded(file: Option<FileView>, now: nat) -> Result<Seq<StoredView>, Fault> {
    match file {
        None => Err(Fault::Parquet),
        Some(f) => match read_batches(f.batches, f.batches.len(), now) {
            Err(e) => Err(e),
            Ok(s) => if f.breaks {
                Err(Fault::Arrow)
            } else {
                Ok(all_events(s))
            },
        },
    }
}

/// An event of which rows may still follow.
struct Pending {
    seq: i64,
    event: StoredEvent,
    bids: Vec<Level>,
    asks: Vec<Level>,
}

impl View for Pending {
    type V = PendingView;

    closed spec fn view(&self) -> PendingView {
        PendingView {
            seq: self.seq,
            event: self.event@,
            bids: record::level_parts(self.bids@),
            asks: record::level_parts(self.asks@),
        }
    }
}

/// How far reading has come.
struct Reading {
    open: Option<Pending>,
    out: Vec<StoredEvent>,
}

impl View for Reading {
    type V = ReadingView;

    closed spec fn view(&self) -> ReadingView {
        ReadingView {
            open: match self.open {
                Some(p) => Some(p@),
                None => None,
            },
            out: stored_views(self.out@),
        }
    }
}

/// The event that a finished one is.
fn finish(p: Pending) -> (e: StoredEvent)
    ensures
        e@ == finished(p@),
{
    let StoredEvent { stream, event, elapsed } = p.event;
    let MarketEvent { venue, symbol, venue_ts, ingest_ts, kind } = event;
    let kind = match kind {
        EventKind::Snapshot { .. } => EventKind::Snapshot { bids: p.bids, asks: p.asks },
        EventKind::Delta { .. } => EventKind::Delta { bids: p.bids, asks: p.asks },
        other => other,
    };
    StoredEvent {
        stream,
        event: MarketEvent { venue, symbol, venue_ts, ingest_ts, kind },
        elapsed,
    }
}

/// The numbers that a row's texts stand for.
struct Numbers {
    price: Option<Price>,
    qty: Option<Qty>,
}

impl Numbers {
    /// Whether these are the numbers of a row.
    spec fn of(self, row: RowView) -> bool {
        &&& price_of(row) == match self.price {
            Some(p) => Some(p@),
            None => None,
        }
        &&& qty_of(row) == match self.qty {
            Some(q) => Some(q@),
            None => None,
        }
    }
}

/// Whether a row's texts are read as they were written.
pub open spec fn legible(row: RowView) -> bool {
    decimal::readable(or_empty(row.price)) && decimal::readable(or_empty(row.qty))
}

/// A text, or an empty one for a null.
fn or_nothing(t: &Option<String>) -> (r: &str)
    ensures
        r@ == or_empty(columnar::maybe_text(*t)),
{
    match t {
        Some(s) => s.as_str(),
        None => {
            proof {
                reveal_strlit("");
            }
            assert(""@ =~= Seq::<char>::empty());
            ""
        },
    }
}

/// The numbers that a row's texts stand for.
fn numbers_of(row: &Row) -> (n: Numbers)
    ensures
        n.of(row@),
        legible(row@),
{
    let price = match Price::from_text(or_nothing(&row.price)) {
        Ok(p) => Some(p),
        Err(_) => None,
    };
    let qty = match Qty::from_text(or_nothing(&row.qty)) {
        Ok(q) => Some(q),
        Err(_) => None,
    };
    Numbers { price, qty }
}

/// The size of a count, its sign left out.
fn size_of(n: i64) -> (r: u64)
    ensures
        r == size(n),
{
    if n >= 0 {
        n as u64
    } else if n == i64::MIN {
        9_223_372_036_854_775_808
    } else {
        (-n) as u64
    }
}

/// What the first row of an event says of its kind.
fn empty_kind(row: &Row, at: usize) -> (r: Result<EventKind, ReadError>)
    ensures
        match r {
            Ok(k) => first_kind(row@, at as nat) == Ok::<KindView, Fault>(record::kind_view(k)),
            Err(e) => first_kind(row@, at as nat) == Err::<KindView, Fault>(e@),
        },
{
    proof {
        kind::law_kind_names_are_distinct();
    }
    let name = row.kind.as_str();
    if text::same_text(name, kind::SNAPSHOT) {
        let bids: Vec<Level> = Vec::new();
        let asks: Vec<Level> = Vec::new();
        assert(record::level_parts(bids@) =~= Seq::empty());
        assert(record::level_parts(asks@) =~= Seq::empty());
        Ok(EventKind::Snapshot { bids, asks })
    } else if text::same_text(name, kind::DELTA) {
        let bids: Vec<Level> = Vec::new();
        let asks: Vec<Level> = Vec::new();
        assert(record::level_parts(bids@) =~= Seq::empty());
        assert(record::level_parts(asks@) =~= Seq::empty());
        Ok(EventKind::Delta { bids, asks })
    } else if text::same_text(name, kind::CHECKSUM) {
        match row.checksum {
            Some(value) => Ok(EventKind::Checksum { value }),
            None => Err(
                ReadError::Incomplete {
                    row: at,
                    kind: kind::CHECKSUM.to_owned(),
                    field: "checksum",
                },
            ),
        }
    } else if text::same_text(name, kind::HEARTBEAT) {
        Ok(
            EventKind::Heartbeat {
                counter: match row.heartbeat_counter {
                    Some(c) => Some(size_of(c)),
                    None => None,
                },
            },
        )
    } else if text::same_text(name, kind::TRADE) {
        let zero = Decimal::zero();
        Ok(EventKind::Trade {
            price: Price::from_decimal(zero),
            qty: Qty::zero(),
            taker_side: None,
        })
    } else {
        Err(ReadError::Unknown { row: at, field: "kind", value: row.kind.as_str().to_owned() })
    }
}

/// A row's text in a field stands for nothing known.
fn unknown_value(at: usize, field: &'static str, value: &str) -> (e: ReadError)
    ensures
        e@ == unknown(at as nat, field@, value@),
{
    ReadError::Unknown { row: at, field, value: value.to_owned() }
}

/// The event that a row begins.
fn begin(row: &Row, at: usize, now: Instant) -> (r: Result<Pending, ReadError>)
    ensures
        match r {
            Ok(p) => begun(row@, at as nat, now@) == Ok::<PendingView, Fault>(p@),
            Err(e) => begun(row@, at as nat, now@) == Err::<PendingView, Fault>(e@),
        },
{
    let venue = match VenueId::from_name(row.venue.as_str()) {
        Some(v) => v,
        None => {
            return Err(unknown_value(at, "venue", row.venue.as_str()));
        },
    };
    let kind = match empty_kind(row, at) {
        Ok(k) => k,
        Err(e) => {
            return Err(e);
        },
    };
    let symbol = Symbol::new(row.symbol.as_str());
    let event = MarketEvent {
        venue,
        symbol: symbol.clone(),
        venue_ts: match row.venue_ts {
            Some(t) => Some(SystemTime::from_unix_nanos(t)),
            None => None,
        },
        ingest_ts: IngestTime::new(now, SystemTime::from_unix_nanos(row.ingest_wall)),
        kind,
    };
    let p = Pending {
        seq: row.event_seq,
        event: StoredEvent {
            stream: StreamId::new(venue, symbol),
            event,
            elapsed: Duration::from_nanos(size_of(row.ingest_elapsed)),
        },
        bids: Vec::new(),
        asks: Vec::new(),
    };
    assert(p@.bids =~= Seq::empty());
    assert(p@.asks =~= Seq::empty());
    Ok(p)
}

/// The event in progress after the row of a trade.
fn add_trade(p: Pending, row: &Row, numbers: &Numbers, at: usize) -> (r: Result<
    Pending,
    ReadError,
>)
    requires
        numbers.of(row@),
    ensures
        match r {
            Ok(q) => with_trade(p@, row@, at as nat) == Ok::<PendingView, Fault>(q@),
            Err(e) => with_trade(p@, row@, at as nat) == Err::<PendingView, Fault>(e@),
        },
{
    if row.price.is_none() {
        return Err(
            ReadError::Incomplete { row: at, kind: kind::TRADE.to_owned(), field: "price" },
        );
    }
    if row.qty.is_none() {
        return Err(ReadError::Incomplete { row: at, kind: kind::TRADE.to_owned(), field: "qty" });
    }
    let price = match numbers.price {
        Some(v) => v,
        None => {
            return Err(unknown_value(at, "price", or_nothing(&row.price)));
        },
    };
    let qty = match numbers.qty {
        Some(v) => v,
        None => {
            return Err(unknown_value(at, "qty", or_nothing(&row.qty)));
        },
    };
    let taker_side = match &row.taker_side {
        Some(name) => match Side::from_name(name.as_str()) {
            Some(side) => Some(side),
            None => {
                return Err(unknown_value(at, "side", name.as_str()));
            },
        },
        None => None,
    };
    let Pending { seq, event: stored, bids, asks } = p;
    let StoredEvent { stream, event, elapsed } = stored;
    let MarketEvent { venue, symbol, venue_ts, ingest_ts, kind: _ } = event;
    let kind = EventKind::Trade { price, qty, taker_side };
    let event = MarketEvent { venue, symbol, venue_ts, ingest_ts, kind };
    Ok(Pending { seq, event: StoredEvent { stream, event, elapsed }, bids, asks })
}

/// The event in progress after the row of a level.
fn add_level(p: Pending, row: &Row, numbers: &Numbers, at: usize) -> (r: Result<
    Pending,
    ReadError,
>)
    requires
        numbers.of(row@),
        row.side is Some,
    ensures
        match r {
            Ok(q) => with_level(p@, row@, at as nat) == Ok::<PendingView, Fault>(q@),
            Err(e) => with_level(p@, row@, at as nat) == Err::<PendingView, Fault>(e@),
        },
{
    let price = match numbers.price {
        Some(v) => v,
        None => {
            return Err(unknown_value(at, "price", or_nothing(&row.price)));
        },
    };
    let qty = match numbers.qty {
        Some(v) => v,
        None => {
            return Err(unknown_value(at, "qty", or_nothing(&row.qty)));
        },
    };
    let name = or_nothing(&row.side);
    let level = Level::new(price, qty);
    let mut p = p;
    let ghost before = p;
    match Side::from_name(name) {
        None => {
            return Err(unknown_value(at, "side", name));
        },
        Some(Side::Bid) => {
            p.bids.push(level);
            assert(p@.bids =~= before@.bids.push((price@, qty@)));
        },
        Some(Side::Ask) => {
            p.asks.push(level);
            assert(p@.asks =~= before@.asks.push((price@, qty@)));
        },
    }
    Ok(p)
}

impl Reading {
    /// Takes one row in.
    fn take_row(&mut self, row: &Row, numbers: &Numbers, at: usize, now: Instant) -> (r: Result<
        (),
        ReadError,
    >)
        requires
            numbers.of(row@),
        ensures
            match r {
                Ok(()) => read_row(old(self)@, row@, at as nat, now@) == Ok::<ReadingView, Fault>(
                    final(self)@,
                ),
                Err(e) => read_row(old(self)@, row@, at as nat, now@) == Err::<ReadingView, Fault>(
                    e@,
                ),
            },
    {
        let mut open = self.open.take();
        let ends = match &open {
            Some(p) => p.seq != row.event_seq,
            None => false,
        };
        if ends {
            let ghost before = self.out@;
            if let Some(p) = open {
                self.out.push(finish(p));
                assert(stored_views(self.out@) =~= stored_views(before).push(
                    finished(old(self)@.open->0),
                ));
            }
            open = None;
        }
        let p = match open {
            Some(p) => p,
            None => match begin(row, at, now) {
                Ok(p) => p,
                Err(e) => {
                    return Err(e);
                },
            },
        };
        let r = if text::same_text(row.kind.as_str(), kind::TRADE) {
            add_trade(p, row, numbers, at)
        } else if row.side.is_none() {
            Ok(p)
        } else {
            add_level(p, row, numbers, at)
        };
        match r {
            Ok(q) => {
                self.open = Some(q);
                Ok(())
            },
            Err(e) => Err(e),
        }
    }
}

/// The rows of one batch, and the numbers in them.
struct Loaded {
    rows: Vec<Row>,
    numbers: Vec<Numbers>,
}

impl Loaded {
    /// Whether these are the rows of a batch, with their numbers.
    spec fn of(self, batch: BatchView) -> bool {
        &&& record::missing_column(batch.types) is None
        &&& record::row_views(self.rows@) == record::rows_from(batch.rows)
        &&& self.numbers@.len() == self.rows@.len()
        &&& forall|i: int|
            0 <= i < self.rows@.len() ==> (#[trigger] self.numbers@[i]).of(self.rows@[i]@)
        &&& forall|i: int| 0 <= i < self.rows@.len() ==> legible((#[trigger] self.rows@[i])@)
    }
}

/// How loading a file ended.
enum Ending {
    /// With its last batch.
    Whole,
    /// At a batch without a column.
    Missing(&'static str),
    /// With an error after its last batch.
    Broken(arrow::error::ArrowError),
}

impl Ending {
    /// Whether loading a file ended like this after a number of batches.
    spec fn after(self, n: int, f: FileView) -> bool {
        match self {
            Ending::Whole => n == f.batches.len() && !f.breaks,
            Ending::Broken(_) => n == f.batches.len() && f.breaks,
            Ending::Missing(column) => n < f.batches.len() && record::missing_column(
                f.batches[n].types,
            ) == Some(column@),
        }
    }
}

/// Loads the rows of a file, up to the first batch that lacks a column.
fn load(file: FileReader, Ghost(f): Ghost<FileView>) -> (r: (Vec<Loaded>, Ending))
    requires
        columnar::sound_reader(file),
        columnar::unread_batches(file) == f.batches,
        columnar::breaks_off(file) == f.breaks,
    ensures
        r.0@.len() <= f.batches.len(),
        forall|k: int| 0 <= k < r.0@.len() ==> (#[trigger] r.0@[k]).of(f.batches[k]),
        r.1.after(r.0@.len() as int, f),
{
    let mut file = file;
    let mut loaded: Vec<Loaded> = Vec::new();
    assert(f.batches.skip(0) =~= f.batches);
    loop
        invariant
            loaded@.len() <= f.batches.len(),
            columnar::sound_reader(file),
            columnar::unread_batches(file) == f.batches.skip(loaded@.len() as int),
            columnar::breaks_off(file) == f.breaks,
            forall|k: int| 0 <= k < loaded@.len() ==> (#[trigger] loaded@[k]).of(f.batches[k]),
        decreases f.batches.len() - loaded@.len(),
    {
        let batch = match columnar::next_batch(&mut file) {
            Some(Ok(batch)) => batch,
            Some(Err(e)) => {
                return (loaded, Ending::Broken(e));
            },
            None => {
                return (loaded, Ending::Whole);
            },
        };
        let ghost n = loaded@.len() as int;
        assert(batch.contents() == f.batches[n]);
        let rows = match record::rows_of(&batch) {
            Ok(rows) => rows,
            Err(column) => {
                return (loaded, Ending::Missing(column));
            },
        };
        let numbers = all_numbers(&rows);
        loaded.push(Loaded { rows, numbers });
        assert(f.batches.skip(n).drop_first() =~= f.batches.skip(n + 1));
    }
}

/// The numbers of every row.
fn all_numbers(rows: &[Row]) -> (v: Vec<Numbers>)
    ensures
        v@.len() == rows@.len(),
        forall|i: int| 0 <= i < rows@.len() ==> (#[trigger] v@[i]).of(rows@[i]@),
        forall|i: int| 0 <= i < rows@.len() ==> legible((#[trigger] rows@[i])@),
{
    let mut out: Vec<Numbers> = Vec::new();
    let mut i: usize = 0;
    while i < rows.len()
        invariant
            i <= rows@.len(),
            out@.len() == i,
            forall|k: int| 0 <= k < i ==> (#[trigger] out@[k]).of(rows@[k]@),
            forall|k: int| 0 <= k < i ==> legible((#[trigger] rows@[k])@),
        decreases rows@.len() - i,
    {
        out.push(numbers_of(&rows[i]));
        i += 1;
    }
    out
}

/// A fault in a row is the fault of all rows after it.
proof fn lemma_faults_stay_in_rows(s: ReadingView, rows: Seq<RowView>, k: nat, n: nat, now: nat)
    requires
        k <= n,
        read_rows(s, rows, k, now) is Err,
    ensures
        read_rows(s, rows, n, now) == read_rows(s, rows, k, now),
    decreases n,
{
    if k < n {
        lemma_faults_stay_in_rows(s, rows, k, (n - 1) as nat, now);
    }
}

/// A fault in a batch is the fault of all batches after it.
proof fn lemma_faults_stay(batches: Seq<BatchView>, k: nat, n: nat, now: nat)
    requires
        k <= n,
        read_batches(batches, k, now) is Err,
    ensures
        read_batches(batches, n, now) == read_batches(batches, k, now),
    decreases n,
{
    if k < n {
        lemma_faults_stay(batches, k, (n - 1) as nat, now);
    }
}

impl Reading {
    /// Takes the rows of one batch in.
    fn take_rows(&mut self, rows: &[Row], numbers: &[Numbers], now: Instant) -> (r: Result<
        (),
        ReadError,
    >)
        requires
            numbers@.len() == rows@.len(),
            forall|i: int| 0 <= i < rows@.len() ==> (#[trigger] numbers@[i]).of(rows@[i]@),
        ensures
            match r {
                Ok(()) => read_rows(
                    old(self)@,
                    record::row_views(rows@),
                    rows@.len(),
                    now@,
                ) == Ok::<ReadingView, Fault>(final(self)@),
                Err(e) => read_rows(
                    old(self)@,
                    record::row_views(rows@),
                    rows@.len(),
                    now@,
                ) == Err::<ReadingView, Fault>(e@),
            },
    {
        let ghost start = self@;
        let ghost views = record::row_views(rows@);
        let mut i: usize = 0;
        while i < rows.len()
            invariant
                i <= rows@.len(),
                start == old(self)@,
                views == record::row_views(rows@),
                numbers@.len() == rows@.len(),
                forall|k: int| 0 <= k < rows@.len() ==> (#[trigger] numbers@[k]).of(rows@[k]@),
                read_rows(start, views, i as nat, now@) == Ok::<ReadingView, Fault>(self@),
            decreases rows@.len() - i,
        {
            assert(numbers@[i as int].of(rows@[i as int]@));
            match self.take_row(&rows[i], &numbers[i], i, now) {
                Ok(()) => {},
                Err(e) => {
                    proof {
                        lemma_faults_stay_in_rows(
                            start,
                            views,
                            (i + 1) as nat,
                            views.len(),
                            now@,
                        );
                    }
                    return Err(e);
                },
            }
            i += 1;
        }
        Ok(())
    }

    /// All events, the one in progress taken as finished.
    fn into_events(self) -> (events: Vec<StoredEvent>)
        ensures
            stored_views(events@) == all_events(self@),
    {
        let ghost last = self@;
        let Reading { open, out } = self;
        let mut out = out;
        let ghost before = out@;
        if let Some(p) = open {
            out.push(finish(p));
            assert(stored_views(out@) =~= stored_views(before).push(finished(last.open->0)));
        }
        out
    }
}

/// Puts events together again from the rows of one batch.
pub fn decode_rows(rows: &[Row], now: Instant) -> (r: Result<Vec<StoredEvent>, ReadError>)
    ensures
        match r {
            Ok(events) => {
                let s = read_rows(nothing_read(), record::row_views(rows@), rows@.len(), now@);
                s is Ok && stored_views(events@) == all_events(s->Ok_0)
            },
            Err(e) => read_rows(nothing_read(), record::row_views(rows@), rows@.len(), now@)
                == Err::<ReadingView, Fault>(e@),
        },
        forall|entries: Seq<(EventView, i64)>, base: nat|
            record::row_views(rows@) == #[trigger] archive_rows(entries, base) && archivable(
                entries,
            ) ==> r is Ok && stored_views((r->Ok_0)@) == all_stored_as(entries, base, now@),
{
    let numbers = all_numbers(rows);
    proof {
        let views = record::row_views(rows@);
        assert forall|entries: Seq<(EventView, i64)>, base: nat|
            views == #[trigger] archive_rows(entries, base) && archivable(entries) implies ({
            let s = read_rows(nothing_read(), views, rows@.len(), now@);
            s is Ok && all_events(s->Ok_0) == all_stored_as(entries, base, now@)
        }) by {
            let t = lemma_archive_reads_back(entries, base, now@);
            lemma_rows_advance(nothing_read(), views, rows@.len(), now@);
            assert(views.take(views.len() as int) =~= views);
        }
    }
    let mut reading = Reading { open: None, out: Vec::new() };
    assert(reading@.out =~= Seq::empty());
    match reading.take_rows(rows, &numbers, now) {
        Ok(()) => Ok(reading.into_events()),
        Err(e) => Err(e),
    }
}

/// Whether a file's bytes were decoded into events: where they hold an archive,
/// into its events.
pub open spec fn decodes_to(bytes: Seq<u8>, now: nat, events: Seq<StoredView>) -> bool {
    &&& decoded(columnar::file_contents(bytes), now) == Ok::<Seq<StoredView>, Fault>(events)
    &&& forall|entries: Seq<(EventView, i64)>, base: nat|
        #![trigger holds_archive(columnar::file_contents(bytes), entries, base)]
        holds_archive(columnar::file_contents(bytes), entries, base) && archivable(entries)
            ==> events == all_stored_as(entries, base, now)
}

/// Decodes one Parquet file into events. The events' monotonic readings are
/// those of the clock now: the one they were stamped with means nothing in this
/// process. Bytes that the Parquet reader panics on are left out.
pub fn decode(bytes: Vec<u8>, now: Instant) -> (r: Result<Vec<StoredEvent>, ReadError>)
    requires
        columnar::sound_bytes(bytes@),
    ensures
        match r {
            Ok(events) => decodes_to(bytes@, now@, stored_views(events@)),
            Err(e) => decoded(columnar::file_contents(bytes@), now@) == Err::<
                Seq<StoredView>,
                Fault,
            >(e@),
        },
        forall|entries: Seq<(EventView, i64)>, base: nat|
            #![trigger holds_archive(columnar::file_contents(bytes@), entries, base)]
            holds_archive(columnar::file_contents(bytes@), entries, base) && archivable(entries)
                ==> r is Ok,
{
    let ghost contents = columnar::file_contents(bytes@);
    let file = match columnar::open_file(bytes) {
        Ok(file) => file,
        Err(e) => {
            return Err(ReadError::Parquet(e));
        },
    };
    let ghost f = contents->0;
    let (loaded, ending) = load(file, Ghost(f));
    proof {
        assert forall|entries: Seq<(EventView, i64)>, base: nat|
            #![trigger holds_archive(contents, entries, base)]
            holds_archive(contents, entries, base) && archivable(entries) implies decoded(
            contents,
            now@,
        ) == Ok::<Seq<StoredView>, Fault>(all_stored_as(entries, base, now@)) by {
            record::lemma_schema_lacks_nothing();
            lemma_loaded_archive(loaded@, f, entries, base, now@);
        }
    }
    let mut reading = Reading { open: None, out: Vec::new() };
    assert(reading@.out =~= Seq::empty());
    let mut i: usize = 0;
    while i < loaded.len()
        invariant
            i <= loaded@.len(),
            loaded@.len() <= f.batches.len(),
            contents == Some(f),
            contents == columnar::file_contents(bytes@),
            forall|entries: Seq<(EventView, i64)>, base: nat|
                #![trigger holds_archive(contents, entries, base)]
                holds_archive(contents, entries, base) && archivable(entries) ==> decoded(
                    contents,
                    now@,
                ) == Ok::<Seq<StoredView>, Fault>(all_stored_as(entries, base, now@)),
            forall|k: int| 0 <= k < loaded@.len() ==> (#[trigger] loaded@[k]).of(f.batches[k]),
            read_batches(f.batches, i as nat, now@) == Ok::<ReadingView, Fault>(reading@),
        decreases loaded@.len() - i,
    {
        assert(loaded@[i as int].of(f.batches[i as int]));
        assert(record::row_views(loaded@[i as int].rows@).len() == loaded@[i as int].rows@.len());
        match reading.take_rows(&loaded[i].rows, &loaded[i].numbers, now) {
            Ok(()) => {},
            Err(e) => {
                proof {
                    lemma_faults_stay(f.batches, (i + 1) as nat, f.batches.len(), now@);
                }
                return Err(e);
            },
        }
        i += 1;
    }
    match ending {
        Ending::Whole => {},
        Ending::Broken(e) => {
            return Err(ReadError::Arrow(e));
        },
        Ending::Missing(column) => {
            proof {
                lemma_faults_stay(f.batches, (i + 1) as nat, f.batches.len(), now@);
            }
            return Err(ReadError::Column { column });
        },
    }
    Ok(reading.into_events())
}

/// What an event is read back as: its clocks as the columns hold them, its
/// monotonic reading that of the reader's clock.
pub open spec fn stored_as(e: EventView, base: nat, now: nat) -> StoredView {
    StoredView {
        stream: (e.venue, e.symbol),
        event: EventView {
            venue: e.venue,
            symbol: e.symbol,
            venue_ts: match e.venue_ts {
                Some(t) => Some(clamped_nanos(t)),
                None => None,
            },
            mono: now,
            wall: clamped_nanos(e.wall),
            kind: match e.kind {
                KindView::Heartbeat { counter: Some(c) } => KindView::Heartbeat {
                    counter: Some(record::column_count(c as nat) as u64),
                },
                other => other,
            },
        },
        elapsed: record::column_count(minus_nat(e.mono, base)) as nat,
    }
}

/// The rows of events, each under its sequence number.
pub open spec fn archive_rows(entries: Seq<(EventView, i64)>, base: nat) -> Seq<RowView>
    decreases entries.len(),
{
    if entries.len() == 0 {
        Seq::empty()
    } else {
        archive_rows(entries.drop_last(), base) + record::flat_rows(
            entries.last().0,
            entries.last().1,
            base,
        )
    }
}

/// Whether events can be told apart in an archive: sequence numbers rise, and
/// decimals are as they can be.
pub open spec fn archivable(entries: Seq<(EventView, i64)>) -> bool {
    &&& forall|i: int, j: int|
        0 <= i < j < entries.len() ==> (#[trigger] entries[i]).1 < (#[trigger] entries[j]).1
    &&& forall|i: int|
        0 <= i < entries.len() ==> record::proper_kind((#[trigger] entries[i]).0.kind)
}

/// What events are read back as.
pub open spec fn all_stored_as(entries: Seq<(EventView, i64)>, base: nat, now: nat) -> Seq<
    StoredView,
> {
    Seq::new(entries.len(), |i: int| stored_as(entries[i].0, base, now))
}

/// All rows are legible.
pub open spec fn all_legible(rows: Seq<RowView>) -> bool {
    forall|i: int| 0 <= i < rows.len() ==> legible(#[trigger] rows[i])
}

/// How far reading has come after rows, wherever they stand; nothing where one
/// is at fault.
pub open spec fn advance(s: ReadingView, rows: Seq<RowView>, now: nat) -> Option<ReadingView>
    decreases rows.len(),
{
    if rows.len() == 0 {
        Some(s)
    } else {
        match advance(s, rows.drop_last(), now) {
            Some(t) => match read_row(t, rows.last(), 0, now) {
                Ok(u) => Some(u),
                Err(_) => None,
            },
            None => None,
        }
    }
}

/// Where a row stands matters to what is said of a fault and to nothing else.
proof fn lemma_place(s: ReadingView, row: RowView, at: nat, now: nat)
    ensures
        read_row(s, row, at, now) is Ok <==> read_row(s, row, 0, now) is Ok,
        read_row(s, row, at, now) is Ok ==> read_row(s, row, at, now) == read_row(s, row, 0, now),
{
}

/// Reading the rows of a batch is advancing over them.
proof fn lemma_rows_advance(s: ReadingView, rows: Seq<RowView>, n: nat, now: nat)
    requires
        n <= rows.len(),
    ensures
        advance(s, rows.take(n as int), now) == match read_rows(s, rows, n, now) {
            Ok(t) => Some(t),
            Err(_) => None,
        },
    decreases n,
{
    if n > 0 {
        lemma_rows_advance(s, rows, (n - 1) as nat, now);
        assert(rows.take(n as int).drop_last() =~= rows.take(n - 1));
        if let Ok(t) = read_rows(s, rows, (n - 1) as nat, now) {
            lemma_place(t, rows[n - 1], (n - 1) as nat, now);
        }
    }
}

/// Advancing over rows and then over more is advancing over all of them.
proof fn lemma_advance_on(s: ReadingView, a: Seq<RowView>, b: Seq<RowView>, now: nat)
    ensures
        advance(s, a + b, now) == match advance(s, a, now) {
            Some(t) => advance(t, b, now),
            None => None,
        },
    decreases b.len(),
{
    if b.len() == 0 {
        assert(a + b =~= a);
    } else {
        assert((a + b).drop_last() =~= a + b.drop_last());
        lemma_advance_on(s, a, b.drop_last(), now);
    }
}

/// Reading the batches of a file with the schema's columns is advancing over
/// its rows.
proof fn lemma_batches_advance(batches: Seq<BatchView>, n: nat, now: nat)
    requires
        n <= batches.len(),
        forall|i: int|
            0 <= i < batches.len() ==> (#[trigger] batches[i]).types == schema::types(),
    ensures
        advance(
            nothing_read(),
            record::rows_from(columnar::table_of(batches.take(n as int))),
            now,
        ) == match read_batches(batches, n, now) {
            Ok(t) => Some(t),
            Err(_) => None,
        },
    decreases n,
{
    if n > 0 {
        lemma_batches_advance(batches, (n - 1) as nat, now);
        let upto = batches.take(n as int);
        let batch = batches[n - 1];
        assert(upto.drop_last() =~= batches.take(n - 1));
        record::lemma_schema_lacks_nothing();
        assert(batches[n - 1].types == schema::types());
        let before = record::rows_from(columnar::table_of(batches.take(n - 1)));
        let rows = record::rows_from(batch.rows);
        assert(record::rows_from(columnar::table_of(upto)) =~= before + rows);
        lemma_advance_on(nothing_read(), before, rows, now);
        if let Ok(s) = read_batches(batches, (n - 1) as nat, now) {
            lemma_rows_advance(s, rows, rows.len(), now);
            assert(rows.take(rows.len() as int) =~= rows);
        }
    } else {
        assert(columnar::table_of(batches.take(0)) =~= Seq::empty());
        assert(record::rows_from(columnar::table_of(batches.take(0))) =~= Seq::empty());
    }
}

/// The decimals of a level are read as they were written.
proof fn lemma_level_reads_back(row: RowView, level: (Parts, Parts))
    requires
        legible(row),
        record::proper_level(level),
        row.price == Some(decimal::plain_text(level.0)),
        row.qty == Some(decimal::plain_text(level.1)),
    ensures
        price_of(row) == Some(level.0),
        qty_of(row) == Some(level.1),
{
}

/// The rows of one event's levels bring the levels back, bids and asks apart, in
/// order.
proof fn lemma_levels_read_back(
    s: ReadingView,
    bare: RowView,
    bids: Seq<(Parts, Parts)>,
    asks: Seq<(Parts, Parts)>,
    k: int,
    now: nat,
)
    requires
        s.open is None || (s.open->0).seq != bare.event_seq,
        begun(bare, 0, now) is Ok,
        bare.kind != kind::TRADE@,
        record::proper_levels(bids),
        record::proper_levels(asks),
        all_legible(
            record::side_rows(bare, Side::Bid, bids) + record::side_rows(bare, Side::Ask, asks),
        ),
        1 <= k <= bids.len() + asks.len(),
    ensures
        advance(
            s,
            (record::side_rows(bare, Side::Bid, bids) + record::side_rows(
                bare,
                Side::Ask,
                asks,
            )).take(k),
            now,
        ) == Some(
            ReadingView {
                open: Some(
                    PendingView {
                        bids: if k <= bids.len() {
                            bids.take(k)
                        } else {
                            bids
                        },
                        asks: if k <= bids.len() {
                            Seq::empty()
                        } else {
                            asks.take(k - bids.len())
                        },
                        ..begun(bare, 0, now)->Ok_0
                    },
                ),
                out: ended_by(s, bare.event_seq).out,
            },
        ),
    decreases k,
{
    let rows = record::side_rows(bare, Side::Bid, bids) + record::side_rows(
        bare,
        Side::Ask,
        asks,
    );
    let row = rows[k - 1];
    let is_bid = k <= bids.len();
    let side = if is_bid {
        Side::Bid
    } else {
        Side::Ask
    };
    let level = if is_bid {
        bids[k - 1]
    } else {
        asks[k - 1 - bids.len()]
    };
    assert(legible(row));
    lemma_level_reads_back(row, level);
    assert(side_named(side.name()) == Some(side)) by {
        if side_named(side.name()) is Some {
            law_side_names_are_distinct(side_named(side.name())->0, side);
        }
    }
    assert(begun(row, 0, now) == begun(bare, 0, now));
    assert(rows.take(k).drop_last() =~= rows.take(k - 1));
    if k == 1 {
        assert(rows.take(0) =~= Seq::empty());
        assert(advance(s, rows.take(0), now) == Some(s));
        if is_bid {
            assert(Seq::empty().push(level) =~= bids.take(1));
        } else {
            assert(bids =~= Seq::empty());
            assert(Seq::empty().push(level) =~= asks.take(1));
        }
    } else {
        lemma_levels_read_back(s, bare, bids, asks, k - 1, now);
        if is_bid {
            assert(bids.take(k - 1).push(level) =~= bids.take(k));
        } else if k - 1 == bids.len() {
            assert(bids.take(k - 1) =~= bids);
            assert(Seq::empty().push(level) =~= asks.take(1));
        } else {
            assert(asks.take(k - 1 - bids.len()).push(level) =~= asks.take(k - bids.len()));
        }
    }
}

/// The rows of an event with levels bring all of them back.
proof fn lemma_book_event_reads_back(
    s: ReadingView,
    bare: RowView,
    bids: Seq<(Parts, Parts)>,
    asks: Seq<(Parts, Parts)>,
    now: nat,
)
    requires
        s.open is None || (s.open->0).seq != bare.event_seq,
        begun(bare, 0, now) is Ok,
        bare.kind != kind::TRADE@,
        bare.side is None,
        record::proper_levels(bids),
        record::proper_levels(asks),
        all_legible(record::level_rows(bare, bids, asks)),
    ensures
        advance(s, record::level_rows(bare, bids, asks), now) == Some(
            ReadingView {
                open: Some(PendingView { bids, asks, ..begun(bare, 0, now)->Ok_0 }),
                out: ended_by(s, bare.event_seq).out,
            },
        ),
{
    let rows = record::level_rows(bare, bids, asks);
    if bids.len() == 0 && asks.len() == 0 {
        lemma_one_row(s, bare, now);
        assert(bids =~= Seq::empty());
        assert(asks =~= Seq::empty());
    } else {
        lemma_levels_read_back(s, bare, bids, asks, rows.len() as int, now);
        assert(rows.take(rows.len() as int) =~= rows);
        assert(bids.take(bids.len() as int) =~= bids);
        assert(asks.take(asks.len() as int) =~= asks);
        assert(asks.len() == 0 ==> asks =~= Seq::empty());
    }
}

/// The rows of one event bring it back, and end the event before it.
proof fn lemma_event_reads_back(
    s: ReadingView,
    e: EventView,
    seq: i64,
    base: nat,
    now: nat,
) -> (p: PendingView)
    requires
        s.open is None || (s.open->0).seq != seq,
        record::proper_kind(e.kind),
        all_legible(record::flat_rows(e, seq, base)),
    ensures
        advance(s, record::flat_rows(e, seq, base), now) == Some(
            ReadingView { open: Some(p), out: all_events(s) },
        ),
        p.seq == seq,
        finished(p) == stored_as(e, base, now),
{
    let rows = record::flat_rows(e, seq, base);
    assert(venue_named(e.venue.name()) == Some(e.venue)) by {
        law_venue_names_are_distinct(venue_named(e.venue.name())->0, e.venue);
    }
    kind::law_kind_names_are_distinct();
    assert(all_events(s) == ended_by(s, seq).out);
    match e.kind {
        KindView::Snapshot { bids, asks } => {
            let bare = record::bare_row(e, seq, base, kind::SNAPSHOT@);
            lemma_book_event_reads_back(s, bare, bids, asks, now);
            PendingView { bids, asks, ..begun(bare, 0, now)->Ok_0 }
        },
        KindView::Delta { bids, asks } => {
            let bare = record::bare_row(e, seq, base, kind::DELTA@);
            lemma_book_event_reads_back(s, bare, bids, asks, now);
            PendingView { bids, asks, ..begun(bare, 0, now)->Ok_0 }
        },
        KindView::Trade { price, qty, taker_side } => {
            let row = rows[0];
            assert(legible(row));
            lemma_level_reads_back(row, (price, qty));
            if let Some(side) = taker_side {
                law_side_names_are_distinct(side_named(side.name())->0, side);
            }
            lemma_one_row(s, row, now);
            with_row(begun(row, 0, now)->Ok_0, row, 0)->Ok_0
        },
        _ => {
            let row = rows[0];
            lemma_one_row(s, row, now);
            begun(row, 0, now)->Ok_0
        },
    }
}

/// Advancing over a single row is reading it.
proof fn lemma_one_row(s: ReadingView, row: RowView, now: nat)
    ensures
        advance(s, seq![row], now) == match read_row(s, row, 0, now) {
            Ok(t) => Some(t),
            Err(_) => None,
        },
{
    assert(seq![row].drop_last() =~= Seq::empty());
    assert(advance(s, seq![row].drop_last(), now) == Some(s));
}

/// The rows of events bring all of them back, in order.
proof fn lemma_archive_reads_back(entries: Seq<(EventView, i64)>, base: nat, now: nat) -> (t:
    ReadingView)
    requires
        archivable(entries),
        all_legible(archive_rows(entries, base)),
    ensures
        advance(nothing_read(), archive_rows(entries, base), now) == Some(t),
        all_events(t) == all_stored_as(entries, base, now),
        t.open is Some ==> entries.len() > 0 && (t.open->0).seq == entries.last().1,
    decreases entries.len(),
{
    if entries.len() == 0 {
        assert(all_stored_as(entries, base, now) =~= Seq::empty());
        nothing_read()
    } else {
        let rest = entries.drop_last();
        let last = entries.last();
        let before = archive_rows(rest, base);
        let rows = record::flat_rows(last.0, last.1, base);
        let all = archive_rows(entries, base);
        assert(all == before + rows);
        assert(archivable(rest)) by {
            assert forall|i: int, j: int| 0 <= i < j < rest.len() implies (#[trigger] rest[i]).1 < (
            #[trigger] rest[j]).1 by {
                assert(entries[i].1 < entries[j].1);
            }
            assert forall|i: int| 0 <= i < rest.len() implies record::proper_kind(
                (#[trigger] rest[i]).0.kind,
            ) by {
                assert(rest[i] == entries[i]);
            }
        }
        assert(all_legible(before)) by {
            assert forall|i: int| 0 <= i < before.len() implies legible(#[trigger] before[i]) by {
                assert(all[i] == before[i]);
            }
        }
        assert(all_legible(rows)) by {
            assert forall|i: int| 0 <= i < rows.len() implies legible(#[trigger] rows[i]) by {
                assert(all[before.len() + i] == rows[i]);
            }
        }
        let s = lemma_archive_reads_back(rest, base, now);
        if s.open is Some {
            assert(entries[rest.len() - 1].1 < entries[rest.len() as int].1);
        }
        assert(entries[entries.len() - 1] == last);
        let p = lemma_event_reads_back(s, last.0, last.1, base, now);
        lemma_advance_on(nothing_read(), before, rows, now);
        let t = ReadingView { open: Some(p), out: all_events(s) };
        assert(all_stored_as(entries, base, now) =~= all_stored_as(rest, base, now).push(
            stored_as(last.0, base, now),
        ));
        t
    }
}

/// Whether a file holds events as the archive keeps them: it reads to its end,
/// every batch has the schema's columns, and its rows are those of the events.
pub open spec fn holds_archive(
    file: Option<FileView>,
    entries: Seq<(EventView, i64)>,
    base: nat,
) -> bool {
    match file {
        Some(f) => {
            &&& !f.breaks
            &&& forall|i: int|
                0 <= i < f.batches.len() ==> (#[trigger] f.batches[i]).types == schema::types()
            &&& record::hold_rows(columnar::table_of(f.batches), archive_rows(entries, base))
        },
        None => false,
    }
}

/// A file that holds events is read back as those events, whatever batches it
/// is read in.
pub proof fn law_an_archive_reads_back(
    f: FileView,
    entries: Seq<(EventView, i64)>,
    base: nat,
    now: nat,
)
    requires
        holds_archive(Some(f), entries, base),
        archivable(entries),
        all_legible(archive_rows(entries, base)),
    ensures
        decoded(Some(f), now) == Ok::<Seq<StoredView>, Fault>(all_stored_as(entries, base, now)),
{
    let t = lemma_archive_reads_back(entries, base, now);
    let stored = columnar::table_of(f.batches);
    let rows = archive_rows(entries, base);
    assert(record::rows_from(stored) =~= rows) by {
        assert forall|i: int| 0 <= i < rows.len() implies record::rows_from(stored)[i]
            == rows[i] by {
            record::law_a_stored_row_reads_back(stored[i], rows[i]);
        }
    }
    lemma_batches_advance(f.batches, f.batches.len(), now);
    assert(f.batches.take(f.batches.len() as int) =~= f.batches);
}

/// What fits the columns survives: an event whose clocks and counter fit is
/// read back as it was, digit for digit, but for its monotonic reading, which
/// is kept as the offset from the base.
pub proof fn law_what_fits_survives(e: EventView, base: nat, now: nat)
    requires
        -i64::MAX <= e.wall <= i64::MAX,
        e.venue_ts matches Some(t) ==> -i64::MAX <= t <= i64::MAX,
        e.kind matches KindView::Heartbeat { counter: Some(c) } ==> c <= i64::MAX,
        base <= e.mono <= base + i64::MAX,
    ensures
        stored_as(e, base, now).event == (EventView { mono: now, ..e }),
        stored_as(e, base, now).stream == (e.venue, e.symbol),
        stored_as(e, base, now).elapsed == e.mono - base,
{
}

/// The rows of a file that was loaded are legible.
proof fn lemma_loaded_is_legible(loaded: Seq<Loaded>, batches: Seq<BatchView>)
    requires
        loaded.len() == batches.len(),
        forall|k: int| 0 <= k < loaded.len() ==> (#[trigger] loaded[k]).of(batches[k]),
    ensures
        all_legible(record::rows_from(columnar::table_of(batches))),
    decreases batches.len(),
{
    let all = record::rows_from(columnar::table_of(batches));
    if batches.len() > 0 {
        let n = batches.len() - 1;
        let rest = batches.drop_last();
        assert forall|k: int| 0 <= k < n implies (#[trigger] loaded.drop_last()[k]).of(rest[k]) by {
            assert(loaded[k].of(batches[k]));
        }
        lemma_loaded_is_legible(loaded.drop_last(), rest);
        let before = record::rows_from(columnar::table_of(rest));
        let rows = record::rows_from(batches[n].rows);
        assert(loaded[n].of(batches[n]));
        assert(all =~= before + rows);
        assert forall|i: int| 0 <= i < all.len() implies legible(#[trigger] all[i]) by {
            if i < before.len() {
                assert(all[i] == before[i]);
            } else {
                let k = i - before.len();
                assert(all[i] == rows[k]);
                assert(record::row_views(loaded[n].rows@)[k] == loaded[n].rows@[k]@);
                assert(legible(loaded[n].rows@[k]@));
            }
        }
    }
}

/// A file that was loaded to its end and holds events is read back as those
/// events.
proof fn lemma_loaded_archive(
    loaded: Seq<Loaded>,
    f: FileView,
    entries: Seq<(EventView, i64)>,
    base: nat,
    now: nat,
)
    requires
        loaded.len() == f.batches.len(),
        forall|k: int| 0 <= k < loaded.len() ==> (#[trigger] loaded[k]).of(f.batches[k]),
        holds_archive(Some(f), entries, base),
        archivable(entries),
    ensures
        decoded(Some(f), now) == Ok::<Seq<StoredView>, Fault>(all_stored_as(entries, base, now)),
{
    let stored = columnar::table_of(f.batches);
    let rows = archive_rows(entries, base);
    lemma_loaded_is_legible(loaded, f.batches);
    assert(record::rows_from(stored) =~= rows) by {
        assert forall|i: int| 0 <= i < rows.len() implies record::rows_from(stored)[i]
            == rows[i] by {
            record::law_a_stored_row_reads_back(stored[i], rows[i]);
        }
    }
    law_an_archive_reads_back(f, entries, base, now);
}

} // verus!
