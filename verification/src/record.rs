//! Archived events as rows, one row per level, and back from columns.
use vstd::prelude::*;

use crate::columnar;
use crate::columnar::{maybe_text, Batch, Cell, Column, ColumnType};
use crate::decimal;
use crate::decimal::Parts;
use crate::event::{EventKind, Level, MarketEvent, Side, VenueId};
use crate::kind;
use crate::schema;
use crate::text;
use crate::time::{clamped_nanos, minus_nat, IngestTime};

verus! {

/// What an event says.
pub enum KindView {
    Snapshot { bids: Seq<(Parts, Parts)>, asks: Seq<(Parts, Parts)> },
    Delta { bids: Seq<(Parts, Parts)>, asks: Seq<(Parts, Parts)> },
    Trade { price: Parts, qty: Parts, taker_side: Option<Side> },
    Checksum { value: u32 },
    Heartbeat { counter: Option<u64> },
}

/// What an event holds: prices and quantities digit for digit, clocks in
/// nanoseconds.
pub struct EventView {
    pub venue: VenueId,
    pub symbol: Seq<char>,
    pub venue_ts: Option<int>,
    pub mono: nat,
    pub wall: int,
    pub kind: KindView,
}

/// Levels, digit for digit.
pub open spec fn level_parts(levels: Seq<Level>) -> Seq<(Parts, Parts)> {
    levels.map_values(|l: Level| (l.price@, l.qty@))
}

/// What an event's kind holds.
pub open spec fn kind_view(k: EventKind) -> KindView {
    match k {
        EventKind::Snapshot { bids, asks } => KindView::Snapshot {
            bids: level_parts(bids@),
            asks: level_parts(asks@),
        },
        EventKind::Delta { bids, asks } => KindView::Delta {
            bids: level_parts(bids@),
            asks: level_parts(asks@),
        },
        EventKind::Trade { price, qty, taker_side } => KindView::Trade {
            price: price@,
            qty: qty@,
            taker_side,
        },
        EventKind::Checksum { value } => KindView::Checksum { value },
        EventKind::Heartbeat { counter } => KindView::Heartbeat { counter },
    }
}

/// What an event holds.
pub open spec fn event_view(e: MarketEvent) -> EventView {
    EventView {
        venue: e.venue,
        symbol: e.symbol@,
        venue_ts: match e.venue_ts {
            Some(t) => Some(t@),
            None => None,
        },
        mono: e.ingest_ts.mono_nanos(),
        wall: e.ingest_ts.wall_nanos(),
        kind: kind_view(e.kind),
    }
}

/// One archived row.
#[derive(Debug)]
pub struct Row {
    pub event_seq: i64,
    pub venue: String,
    pub symbol: String,
    pub kind: String,
    pub ingest_wall: i64,
    pub ingest_elapsed: i64,
    pub venue_ts: Option<i64>,
    pub side: Option<String>,
    pub price: Option<String>,
    pub qty: Option<String>,
    pub level_index: Option<i32>,
    pub checksum: Option<u32>,
    pub heartbeat_counter: Option<i64>,
    pub taker_side: Option<String>,
}

/// One archived row, by its characters.
pub struct RowView {
    pub event_seq: i64,
    pub venue: Seq<char>,
    pub symbol: Seq<char>,
    pub kind: Seq<char>,
    pub ingest_wall: i64,
    pub ingest_elapsed: i64,
    pub venue_ts: Option<i64>,
    pub side: Option<Seq<char>>,
    pub price: Option<Seq<char>>,
    pub qty: Option<Seq<char>>,
    pub level_index: Option<i32>,
    pub checksum: Option<u32>,
    pub heartbeat_counter: Option<i64>,
    pub taker_side: Option<Seq<char>>,
}

impl View for Row {
    type V = RowView;

    open spec fn view(&self) -> RowView {
        RowView {
            event_seq: self.event_seq,
            venue: self.venue@,
            symbol: self.symbol@,
            kind: self.kind@,
            ingest_wall: self.ingest_wall,
            ingest_elapsed: self.ingest_elapsed,
            venue_ts: self.venue_ts,
            side: maybe_text(self.side),
            price: maybe_text(self.price),
            qty: maybe_text(self.qty),
            level_index: self.level_index,
            checksum: self.checksum,
            heartbeat_counter: self.heartbeat_counter,
            taker_side: maybe_text(self.taker_side),
        }
    }
}

/// Rows, by their characters.
pub open spec fn row_views(rows: Seq<Row>) -> Seq<RowView> {
    rows.map_values(|r: Row| r@)
}

/// A number of nanoseconds or a count as a signed 64-bit column holds it.
pub open spec fn column_count(n: nat) -> i64 {
    if n > i64::MAX {
        i64::MAX
    } else {
        n as i64
    }
}

/// What every row of an event has in common.
pub open spec fn bare_row(e: EventView, event_seq: i64, base: nat, kind: Seq<char>) -> RowView {
    RowView {
        event_seq,
        venue: e.venue.name(),
        symbol: e.symbol,
        kind,
        ingest_wall: clamped_nanos(e.wall) as i64,
        ingest_elapsed: column_count(minus_nat(e.mono, base)),
        venue_ts: match e.venue_ts {
            Some(t) => Some(clamped_nanos(t) as i64),
            None => None,
        },
        side: None,
        price: None,
        qty: None,
        level_index: None,
        checksum: None,
        heartbeat_counter: None,
        taker_side: None,
    }
}

/// The row of one level.
pub open spec fn level_row(
    bare: RowView,
    side: Side,
    level: (Parts, Parts),
    index: int,
) -> RowView {
    RowView {
        side: Some(side.name()),
        price: Some(decimal::plain_text(level.0)),
        qty: Some(decimal::plain_text(level.1)),
        level_index: Some(
            if index > i32::MAX {
                i32::MAX
            } else {
                index as i32
            },
        ),
        ..bare
    }
}

/// The rows of the levels of one side, in the order the venue listed them.
pub open spec fn side_rows(
    bare: RowView,
    side: Side,
    levels: Seq<(Parts, Parts)>,
) -> Seq<RowView> {
    Seq::new(levels.len(), |i: int| level_row(bare, side, levels[i], i))
}

/// The rows of an event with levels: one per level, bids before asks; a single
/// one without a level where there is none.
pub open spec fn level_rows(
    bare: RowView,
    bids: Seq<(Parts, Parts)>,
    asks: Seq<(Parts, Parts)>,
) -> Seq<RowView> {
    if bids.len() == 0 && asks.len() == 0 {
        seq![bare]
    } else {
        side_rows(bare, Side::Bid, bids) + side_rows(bare, Side::Ask, asks)
    }
}

/// The rows an event is archived as.
pub open spec fn flat_rows(e: EventView, event_seq: i64, base: nat) -> Seq<RowView> {
    match e.kind {
        KindView::Snapshot { bids, asks } => level_rows(
            bare_row(e, event_seq, base, kind::SNAPSHOT@),
            bids,
            asks,
        ),
        KindView::Delta { bids, asks } => level_rows(
            bare_row(e, event_seq, base, kind::DELTA@),
            bids,
            asks,
        ),
        KindView::Trade { price, qty, taker_side } => seq![
            RowView {
                price: Some(decimal::plain_text(price)),
                qty: Some(decimal::plain_text(qty)),
                taker_side: match taker_side {
                    Some(s) => Some(s.name()),
                    None => None,
                },
                ..bare_row(e, event_seq, base, kind::TRADE@)
            },
        ],
        KindView::Checksum { value } => seq![
            RowView {
                checksum: Some(value),
                ..bare_row(e, event_seq, base, kind::CHECKSUM@)
            },
        ],
        KindView::Heartbeat { counter } => seq![
            RowView {
                heartbeat_counter: match counter {
                    Some(c) => Some(column_count(c as nat)),
                    None => None,
                },
                ..bare_row(e, event_seq, base, kind::HEARTBEAT@)
            },
        ],
    }
}

/// A level with decimals as they can be: the quantity not below zero.
pub open spec fn proper_level(l: (Parts, Parts)) -> bool {
    decimal::representable(l.0) && decimal::representable(l.1) && (l.1).0 >= 0
}

/// Levels with decimals as they can be.
pub open spec fn proper_levels(levels: Seq<(Parts, Parts)>) -> bool {
    forall|i: int| 0 <= i < levels.len() ==> proper_level(#[trigger] levels[i])
}

/// An event's decimals are as they can be.
pub open spec fn proper_kind(k: KindView) -> bool {
    match k {
        KindView::Snapshot { bids, asks } => proper_levels(bids) && proper_levels(asks),
        KindView::Delta { bids, asks } => proper_levels(bids) && proper_levels(asks),
        KindView::Trade { price, qty, .. } => proper_level((price, qty)),
        _ => true,
    }
}

/// A count as a signed 64-bit column holds it.
fn clamp_i64(n: u128) -> (r: i64)
    ensures
        r == column_count(n as nat),
{
    if n > 9_223_372_036_854_775_807 {
        i64::MAX
    } else {
        n as i64
    }
}

/// What every row of an event has in common.
fn template(event: &MarketEvent, event_seq: i64, base: IngestTime, kind_name: &str) -> (r: Row)
    ensures
        r@ == bare_row(event_view(*event), event_seq, base.mono_nanos(), kind_name@),
{
    Row {
        event_seq,
        venue: event.venue.as_str().to_owned(),
        symbol: event.symbol.as_str().to_owned(),
        kind: kind_name.to_owned(),
        ingest_wall: event.ingest_ts.wall().unix_nanos(),
        ingest_elapsed: clamp_i64(event.ingest_ts.since(base).as_nanos()),
        venue_ts: match event.venue_ts {
            Some(t) => Some(t.unix_nanos()),
            None => None,
        },
        side: None,
        price: None,
        qty: None,
        level_index: None,
        checksum: None,
        heartbeat_counter: None,
        taker_side: None,
    }
}

/// Adds the rows of the levels of one side.
fn push_side(
    rows: &mut Vec<Row>,
    event: &MarketEvent,
    event_seq: i64,
    base: IngestTime,
    kind_name: &str,
    side: Side,
    levels: &[Level],
)
    ensures
        row_views(final(rows)@) == row_views(old(rows)@) + side_rows(
            bare_row(event_view(*event), event_seq, base.mono_nanos(), kind_name@),
            side,
            level_parts(levels@),
        ),
        proper_levels(level_parts(levels@)),
{
    let ghost bare = bare_row(event_view(*event), event_seq, base.mono_nanos(), kind_name@);
    let ghost parts = level_parts(levels@);
    let ghost start = row_views(rows@);
    let mut i: usize = 0;
    assert(start + side_rows(bare, side, parts).take(0) =~= start);
    while i < levels.len()
        invariant
            i <= levels@.len(),
            parts == level_parts(levels@),
            bare == bare_row(event_view(*event), event_seq, base.mono_nanos(), kind_name@),
            row_views(rows@) == start + side_rows(bare, side, parts).take(i as int),
            forall|k: int| 0 <= k < i ==> proper_level(#[trigger] parts[k]),
        decreases levels@.len() - i,
    {
        let ghost before = rows@;
        let level = levels[i];
        let index: i32 = if i > 2_147_483_647 {
            i32::MAX
        } else {
            i as i32
        };
        let mut row = template(event, event_seq, base, kind_name);
        row.side = Some(side.as_str().to_owned());
        row.price = Some(level.price.to_text());
        row.qty = Some(level.qty.to_text());
        row.level_index = Some(index);
        assert(row@ == level_row(bare, side, parts[i as int], i as int));
        rows.push(row);
        i += 1;
        assert(row_views(rows@) =~= row_views(before).push(
            level_row(bare, side, parts[i - 1], i - 1),
        ));
        assert(start + side_rows(bare, side, parts).take(i as int) =~= (start + side_rows(
            bare,
            side,
            parts,
        ).take(i - 1)).push(level_row(bare, side, parts[i - 1], i - 1)));
    }
    assert(side_rows(bare, side, parts).take(levels@.len() as int) =~= side_rows(
        bare,
        side,
        parts,
    ));
}

/// The rows of an event with levels.
fn flatten_levels(
    event: &MarketEvent,
    event_seq: i64,
    base: IngestTime,
    kind_name: &str,
    bids: &[Level],
    asks: &[Level],
) -> (rows: Vec<Row>)
    ensures
        row_views(rows@) == level_rows(
            bare_row(event_view(*event), event_seq, base.mono_nanos(), kind_name@),
            level_parts(bids@),
            level_parts(asks@),
        ),
        proper_levels(level_parts(bids@)),
        proper_levels(level_parts(asks@)),
{
    let ghost bare = bare_row(event_view(*event), event_seq, base.mono_nanos(), kind_name@);
    let mut rows: Vec<Row> = Vec::new();
    push_side(&mut rows, event, event_seq, base, kind_name, Side::Bid, bids);
    push_side(&mut rows, event, event_seq, base, kind_name, Side::Ask, asks);
    assert(row_views(rows@) =~= side_rows(bare, Side::Bid, level_parts(bids@)) + side_rows(
        bare,
        Side::Ask,
        level_parts(asks@),
    ));
    assert(row_views(rows@).len() == rows@.len());
    if rows.len() == 0 {
        rows.push(template(event, event_seq, base, kind_name));
        assert(row_views(rows@) =~= seq![bare]);
    }
    rows
}

/// One event to one or more rows. Every event yields at least one, so that a
/// heartbeat cannot vanish from the record.
pub fn flatten(event: &MarketEvent, event_seq: i64, base: IngestTime) -> (rows: Vec<Row>)
    ensures
        row_views(rows@) == flat_rows(event_view(*event), event_seq, base.mono_nanos()),
        rows@.len() > 0,
        proper_kind(event_view(*event).kind),
{
    match &event.kind {
        EventKind::Snapshot { bids, asks } => {
            let rows = flatten_levels(event, event_seq, base, kind::SNAPSHOT, bids, asks);
            assert(row_views(rows@).len() == rows@.len());
            rows
        },
        EventKind::Delta { bids, asks } => {
            let rows = flatten_levels(event, event_seq, base, kind::DELTA, bids, asks);
            assert(row_views(rows@).len() == rows@.len());
            rows
        },
        EventKind::Trade { price, qty, taker_side } => {
            let mut row = template(event, event_seq, base, kind::TRADE);
            row.price = Some(price.to_text());
            row.qty = Some(qty.to_text());
            row.taker_side = match taker_side {
                Some(s) => Some(s.as_str().to_owned()),
                None => None,
            };
            let rows = vec![row];
            assert(row_views(rows@) =~= flat_rows(
                event_view(*event),
                event_seq,
                base.mono_nanos(),
            ));
            rows
        },
        EventKind::Checksum { value } => {
            let mut row = template(event, event_seq, base, kind::CHECKSUM);
            row.checksum = Some(*value);
            let rows = vec![row];
            assert(row_views(rows@) =~= flat_rows(
                event_view(*event),
                event_seq,
                base.mono_nanos(),
            ));
            rows
        },
        EventKind::Heartbeat { counter } => {
            let mut row = template(event, event_seq, base, kind::HEARTBEAT);
            row.heartbeat_counter = match counter {
                Some(c) => Some(clamp_i64(*c as u128)),
                None => None,
            };
            let rows = vec![row];
            assert(row_views(rows@) =~= flat_rows(
                event_view(*event),
                event_seq,
                base.mono_nanos(),
            ));
            rows
        },
    }
}

/// What a row holds in each column of the schema.
pub open spec fn row_cell(r: RowView, column: int) -> Cell {
    if column == 0 {
        Cell::Int64(Some(r.event_seq))
    } else if column == 1 {
        Cell::Utf8(Some(r.venue))
    } else if column == 2 {
        Cell::Utf8(Some(r.symbol))
    } else if column == 3 {
        Cell::Utf8(Some(r.kind))
    } else if column == 4 {
        Cell::Int64(Some(r.ingest_wall))
    } else if column == 5 {
        Cell::Int64(Some(r.ingest_elapsed))
    } else if column == 6 {
        Cell::Int64(r.venue_ts)
    } else if column == 7 {
        Cell::Utf8(r.side)
    } else if column == 8 {
        Cell::Utf8(r.price)
    } else if column == 9 {
        Cell::Utf8(r.qty)
    } else if column == 10 {
        Cell::Int32(r.level_index)
    } else if column == 11 {
        Cell::UInt32(r.checksum)
    } else if column == 12 {
        Cell::Int64(r.heartbeat_counter)
    } else {
        Cell::Utf8(r.taker_side)
    }
}

/// Whether a stored row holds a row: under each column's name what the row has
/// there.
pub open spec fn holds_row(stored: Map<Seq<char>, Cell>, r: RowView) -> bool {
    forall|j: int|
        0 <= j < schema::columns().len() ==> stored[(#[trigger] schema::columns()[j]).name]
            == row_cell(r, j)
}

/// Whether stored rows hold rows, in order.
pub open spec fn hold_rows(stored: Seq<Map<Seq<char>, Cell>>, rows: Seq<RowView>) -> bool {
    &&& stored.len() == rows.len()
    &&& forall|i: int| 0 <= i < rows.len() ==> holds_row(#[trigger] stored[i], rows[i])
}

/// Where in the schema a name stands.
pub open spec fn column_named(name: Seq<char>) -> int {
    choose|j: int| 0 <= j < schema::columns().len() && (#[trigger] schema::columns()[j]).name == name
}

/// A row as it is stored: under each column's name what the row has there.
pub open spec fn stored_row(r: RowView) -> Map<Seq<char>, Cell> {
    Map::new(
        |name: Seq<char>| columnar::names_column(schema::columns(), name),
        |name: Seq<char>| row_cell(r, column_named(name)),
    )
}

/// Rows as they are stored.
pub open spec fn stored_rows(rows: Seq<RowView>) -> Seq<Map<Seq<char>, Cell>> {
    rows.map_values(|r: RowView| stored_row(r))
}

/// A stored row holds what the row has.
pub proof fn lemma_stored_rows_hold(rows: Seq<RowView>)
    ensures
        hold_rows(stored_rows(rows), rows),
{
    schema::law_column_names_are_distinct();
    assert forall|i: int| 0 <= i < rows.len() implies holds_row(
        #[trigger] stored_rows(rows)[i],
        rows[i],
    ) by {
        assert forall|j: int| 0 <= j < schema::columns().len() implies stored_rows(rows)[i][(
        #[trigger] schema::columns()[j]).name] == row_cell(rows[i], j) by {
            let name = schema::columns()[j].name;
            assert(columnar::names_column(schema::columns(), name));
            let k = column_named(name);
            assert(schema::columns()[k].name == name);
            if k < j {
                assert(schema::columns()[k].name != schema::columns()[j].name);
            } else if j < k {
                assert(schema::columns()[j].name != schema::columns()[k].name);
            }
        }
    }
}

/// What rows hold in a column of the schema.
pub open spec fn column_cells(rows: Seq<RowView>, column: int) -> Seq<Cell> {
    Seq::new(rows.len(), |i: int| row_cell(rows[i], column))
}

/// How many bytes the texts of rows have in a column of the schema.
pub open spec fn column_bytes(rows: Seq<RowView>, column: int) -> nat {
    columnar::bytes_in(column_cells(rows, column))
}

/// Whether rows can be in one batch: no column's texts pass the limit.
pub open spec fn fits(rows: Seq<RowView>) -> bool {
    forall|column: int|
        0 <= column < schema::columns().len() ==> #[trigger] column_bytes(rows, column)
            <= columnar::TEXT_LIMIT
}

/// Whether a file of rows can be read: no column's texts pass the reader's limit
/// in as many rows as are read at a time.
pub open spec fn readable(rows: Seq<RowView>) -> bool {
    forall|column: int, i: int, j: int|
        0 <= column < schema::columns().len() && 0 <= i <= j <= rows.len() && j - i
            <= columnar::READ_ROWS ==> #[trigger] column_bytes(rows.subrange(i, j), column)
            <= columnar::READ_LIMIT
}

/// What is readable as rows is readable as stored.
pub proof fn lemma_readable_as_stored(rows: Seq<RowView>)
    requires
        readable(rows),
    ensures
        columnar::readable(schema::columns(), stored_rows(rows)),
{
    let stored = stored_rows(rows);
    lemma_stored_rows_hold(rows);
    assert forall|k: int, i: int, j: int|
        0 <= k < schema::columns().len() && 0 <= i <= j <= stored.len() && j - i
            <= columnar::READ_ROWS implies columnar::bytes_in(
        columnar::column_of(#[trigger] stored.subrange(i, j), (#[trigger] schema::columns()[k]).name),
    ) <= columnar::READ_LIMIT by {
        let some = rows.subrange(i, j);
        assert(column_bytes(some, k) <= columnar::READ_LIMIT);
        let cells = columnar::column_of(stored.subrange(i, j), schema::columns()[k].name);
        assert forall|n: int| 0 <= n < cells.len() implies cells[n] == column_cells(some, k)[n] by {
            assert(holds_row(stored[i + n], rows[i + n]));
        }
        assert(cells =~= column_cells(some, k));
    }
}

/// Rows one after another have the bytes of both.
pub proof fn lemma_bytes_of_both(a: Seq<RowView>, b: Seq<RowView>, column: int)
    ensures
        column_bytes(a + b, column) == column_bytes(a, column) + column_bytes(b, column),
{
    assert(column_cells(a + b, column) =~= column_cells(a, column) + column_cells(b, column));
    columnar::lemma_bytes_of_both(column_cells(a, column), column_cells(b, column));
}

/// How many bytes a text has; none where there is no text.
fn text_bytes(t: &Option<String>) -> (n: usize)
    ensures
        n == columnar::cell_bytes(Cell::Utf8(maybe_text(*t))),
{
    match t {
        Some(s) => s.as_str().as_bytes().len(),
        None => 0,
    }
}

/// How many bytes a row's text in a column of the schema has.
fn cell_bytes(row: &Row, column: usize) -> (n: usize)
    requires
        column < 14,
    ensures
        n == columnar::cell_bytes(row_cell(row@, column as int)),
{
    if column == 1 {
        row.venue.as_str().as_bytes().len()
    } else if column == 2 {
        row.symbol.as_str().as_bytes().len()
    } else if column == 3 {
        row.kind.as_str().as_bytes().len()
    } else if column == 7 {
        text_bytes(&row.side)
    } else if column == 8 {
        text_bytes(&row.price)
    } else if column == 9 {
        text_bytes(&row.qty)
    } else if column == 13 {
        text_bytes(&row.taker_side)
    } else {
        0
    }
}

/// How many bytes the texts of rows have in a column, where they do not pass a
/// limit.
fn bytes_within(rows: &[Row], column: usize, limit: usize) -> (r: Option<usize>)
    requires
        column < 14,
    ensures
        match r {
            Some(n) => n == column_bytes(row_views(rows@), column as int) && n <= limit,
            None => column_bytes(row_views(rows@), column as int) > limit,
        },
{
    let ghost views = row_views(rows@);
    let ghost cells = column_cells(views, column as int);
    let mut total: u128 = 0;
    let mut i: usize = 0;
    assert(cells.take(0) =~= Seq::<Cell>::empty());
    while i < rows.len()
        invariant
            i <= rows@.len(),
            column < 14,
            views == row_views(rows@),
            cells == column_cells(views, column as int),
            total == columnar::bytes_in(cells.take(i as int)),
            total <= limit,
        decreases rows@.len() - i,
    {
        total = total + cell_bytes(&rows[i], column) as u128;
        i += 1;
        proof {
            assert(cells.take(i as int).drop_last() =~= cells.take(i - 1));
            assert(cells.take(i as int).last() == row_cell(rows@[i - 1]@, column as int));
        }
        if total > limit as u128 {
            proof {
                columnar::lemma_bytes_of_both(cells.take(i as int), cells.skip(i as int));
                assert(cells.take(i as int) + cells.skip(i as int) =~= cells);
            }
            return None;
        }
    }
    assert(cells.take(cells.len() as int) =~= cells);
    Some(total as usize)
}

/// Whether numbers are those of the bytes that rows have in each column.
pub open spec fn weighs(weights: Seq<usize>, rows: Seq<RowView>) -> bool {
    &&& weights.len() == schema::columns().len()
    &&& forall|column: int|
        0 <= column < weights.len() ==> #[trigger] weights[column] == column_bytes(rows, column)
}

/// No bytes in any column.
pub(crate) fn no_weights() -> (w: Vec<usize>)
    ensures
        weighs(w@, Seq::empty()),
{
    let w: Vec<usize> = vec![0, 0, 0, 0, 0, 0, 0, 0, 0, 0, 0, 0, 0, 0];
    assert forall|column: int| 0 <= column < w@.len() implies #[trigger] w@[column]
        == column_bytes(Seq::empty(), column) by {
        assert(column_cells(Seq::empty(), column) =~= Seq::empty());
    }
    w
}

/// The bytes in each column once rows are added to others, where they still fit
/// in one batch.
pub(crate) fn weights_with(weights: &Vec<usize>, rows: &[Row], Ghost(before): Ghost<Seq<RowView>>) -> (r:
    Option<Vec<usize>>)
    requires
        weighs(weights@, before),
        fits(before),
    ensures
        r is Some <==> fits(before + row_views(rows@)),
        r matches Some(w) ==> weighs(w@, before + row_views(rows@)),
{
    let ghost views = row_views(rows@);
    let mut out: Vec<usize> = Vec::new();
    let mut column: usize = 0;
    while column < 14
        invariant
            column <= 14,
            weighs(weights@, before),
            fits(before),
            views == row_views(rows@),
            out@.len() == column,
            forall|c: int|
                0 <= c < column ==> #[trigger] out@[c] == column_bytes(before + views, c) && out@[c]
                    <= columnar::TEXT_LIMIT,
        decreases 14 - column,
    {
        proof {
            assert(column_bytes(before, column as int) <= columnar::TEXT_LIMIT);
            lemma_bytes_of_both(before, views, column as int);
        }
        let had: usize = weights[column];
        match bytes_within(rows, column, columnar::TEXT_LIMIT - had) {
            Some(n) => {
                out.push(had + n);
            },
            None => {
                assert(column_bytes(before + views, column as int) > columnar::TEXT_LIMIT);
                return None;
            },
        }
        column += 1;
    }
    assert forall|c: int| 0 <= c < schema::columns().len() implies #[trigger] column_bytes(
        before + views,
        c,
    ) <= columnar::TEXT_LIMIT by {
        assert(out@[c] == column_bytes(before + views, c));
    }
    Some(out)
}

/// Copies a text or the lack of one.
fn copy_text(t: &Option<String>) -> (r: Option<String>)
    ensures
        maybe_text(r) == maybe_text(*t),
{
    match t {
        Some(s) => Some(s.as_str().to_owned()),
        None => None,
    }
}

/// The columns of a number of rows.
struct RowColumns {
    event_seq: Vec<Option<i64>>,
    ingest_wall: Vec<Option<i64>>,
    ingest_elapsed: Vec<Option<i64>>,
    venue_ts: Vec<Option<i64>>,
    level_index: Vec<Option<i32>>,
    checksum: Vec<Option<u32>>,
    heartbeat: Vec<Option<i64>>,
    venue: Vec<Option<String>>,
    symbol: Vec<Option<String>>,
    kind_names: Vec<Option<String>>,
    side: Vec<Option<String>>,
    price: Vec<Option<String>>,
    qty: Vec<Option<String>>,
    taker: Vec<Option<String>>,
}

impl RowColumns {
    /// Whether the columns hold the first rows of a list.
    spec fn hold(self, rows: Seq<Row>, n: int) -> bool {
        &&& self.event_seq@.len() == n
        &&& self.ingest_wall@.len() == n
        &&& self.ingest_elapsed@.len() == n
        &&& self.venue_ts@.len() == n
        &&& self.level_index@.len() == n
        &&& self.checksum@.len() == n
        &&& self.heartbeat@.len() == n
        &&& self.venue@.len() == n
        &&& self.symbol@.len() == n
        &&& self.kind_names@.len() == n
        &&& self.side@.len() == n
        &&& self.price@.len() == n
        &&& self.qty@.len() == n
        &&& self.taker@.len() == n
        &&& forall|k: int| 0 <= k < n ==> #[trigger] self.event_seq@[k] == Some(rows[k].event_seq)
        &&& forall|k: int| 0 <= k < n ==> #[trigger] self.ingest_wall@[k] == Some(rows[k].ingest_wall)
        &&& forall|k: int| 0 <= k < n ==> #[trigger] self.ingest_elapsed@[k] == Some(rows[k].ingest_elapsed)
        &&& forall|k: int| 0 <= k < n ==> #[trigger] self.venue_ts@[k] == rows[k].venue_ts
        &&& forall|k: int| 0 <= k < n ==> #[trigger] self.level_index@[k] == rows[k].level_index
        &&& forall|k: int| 0 <= k < n ==> #[trigger] self.checksum@[k] == rows[k].checksum
        &&& forall|k: int| 0 <= k < n ==> #[trigger] self.heartbeat@[k] == rows[k].heartbeat_counter
        &&& forall|k: int| 0 <= k < n ==> maybe_text(#[trigger] self.venue@[k]) == Some(rows[k].venue@)
        &&& forall|k: int| 0 <= k < n ==> maybe_text(#[trigger] self.symbol@[k]) == Some(rows[k].symbol@)
        &&& forall|k: int| 0 <= k < n ==> maybe_text(#[trigger] self.kind_names@[k]) == Some(rows[k].kind@)
        &&& forall|k: int| 0 <= k < n ==> maybe_text(#[trigger] self.side@[k]) == maybe_text(rows[k].side)
        &&& forall|k: int| 0 <= k < n ==> maybe_text(#[trigger] self.price@[k]) == maybe_text(rows[k].price)
        &&& forall|k: int| 0 <= k < n ==> maybe_text(#[trigger] self.qty@[k]) == maybe_text(rows[k].qty)
        &&& forall|k: int| 0 <= k < n ==> maybe_text(#[trigger] self.taker@[k]) == maybe_text(rows[k].taker_side)
    }

    fn new() -> (c: RowColumns)
        ensures
            c.hold(Seq::empty(), 0),
    {
        RowColumns {
            event_seq: Vec::new(),
            ingest_wall: Vec::new(),
            ingest_elapsed: Vec::new(),
            venue_ts: Vec::new(),
            level_index: Vec::new(),
            checksum: Vec::new(),
            heartbeat: Vec::new(),
            venue: Vec::new(),
            symbol: Vec::new(),
            kind_names: Vec::new(),
            side: Vec::new(),
            price: Vec::new(),
            qty: Vec::new(),
            taker: Vec::new(),
        }
    }

    /// Adds one row.
    fn push(&mut self, row: &Row, Ghost(rows): Ghost<Seq<Row>>)
        requires
            old(self).hold(rows, rows.len() as int),
        ensures
            final(self).hold(rows.push(*row), rows.len() as int + 1),
    {
        self.event_seq.push(Some(row.event_seq));
        self.ingest_wall.push(Some(row.ingest_wall));
        self.ingest_elapsed.push(Some(row.ingest_elapsed));
        self.venue_ts.push(row.venue_ts);
        self.level_index.push(row.level_index);
        self.checksum.push(row.checksum);
        self.heartbeat.push(row.heartbeat_counter);
        self.venue.push(Some(row.venue.as_str().to_owned()));
        self.symbol.push(Some(row.symbol.as_str().to_owned()));
        self.kind_names.push(Some(row.kind.as_str().to_owned()));
        self.side.push(copy_text(&row.side));
        self.price.push(copy_text(&row.price));
        self.qty.push(copy_text(&row.qty));
        self.taker.push(copy_text(&row.taker_side));
    }

    /// The columns in the order of the schema.
    fn into_values(self) -> (v: Vec<Column>)
        ensures
            in_schema_order(self, v@),
    {
        vec![
            Column::Int64(self.event_seq),
            Column::Utf8(self.venue),
            Column::Utf8(self.symbol),
            Column::Utf8(self.kind_names),
            Column::Int64(self.ingest_wall),
            Column::Int64(self.ingest_elapsed),
            Column::Int64(self.venue_ts),
            Column::Utf8(self.side),
            Column::Utf8(self.price),
            Column::Utf8(self.qty),
            Column::Int32(self.level_index),
            Column::UInt32(self.checksum),
            Column::Int64(self.heartbeat),
            Column::Utf8(self.taker),
        ]
    }
}

/// Rows as a batch with the schema's columns. In no column may their texts pass
/// the limit.
pub fn to_batch(rows: &[Row]) -> (r: Result<Batch, arrow::error::ArrowError>)
    requires
        fits(row_views(rows@)),
    ensures
        r is Ok,
        r matches Ok(b) ==> columnar::batch_columns(b) == schema::columns(),
        r matches Ok(b) ==> columnar::batch_types(b) == schema::types() && columnar::batch_rows(b)
            == stored_rows(row_views(rows@)),
{
    let ghost views = row_views(rows@);
    let mut columns = RowColumns::new();
    let mut i: usize = 0;
    assert(rows@.take(0) =~= Seq::<Row>::empty());
    while i < rows.len()
        invariant
            i <= rows@.len(),
            views == row_views(rows@),
            columns.hold(rows@.take(i as int), i as int),
        decreases rows@.len() - i,
    {
        columns.push(&rows[i], Ghost(rows@.take(i as int)));
        i += 1;
        proof {
            assert(rows@.take(i as int) =~= rows@.take(i - 1).push(rows@[i - 1]));
        }
    }
    assert(rows@.take(rows@.len() as int) =~= rows@);
    let specs = schema::event_schema();
    let schema = columnar::schema_of(&specs);
    let ghost held = columns;
    let values = columns.into_values();
    let ghost values_made = values@;
    proof {
        assert(columnar::schema_columns(*schema) =~= schema::columns());
        schema::law_column_names_are_distinct();
        lemma_values_fit(held, rows@, values@);
    }
    let made = columnar::batch_of(schema, values);
    proof {
        if made is Ok {
            let stored = columnar::batch_rows(made->Ok_0);
            lemma_stored_rows_hold(views);
            assert forall|k: int| 0 <= k < views.len() implies #[trigger] stored[k]
                == stored_rows(views)[k] by {
                let held_row = stored_rows(views)[k];
                assert forall|name: Seq<char>| held_row.contains_key(
                    name,
                ) implies #[trigger] stored[k][name] == held_row[name] by {
                    let j = column_named(name);
                    assert(columnar::names_column(schema::columns(), name));
                    assert(schema::columns()[j].name == name);
                    lemma_cell(held, rows@, values_made, k, j);
                    assert(holds_row(held_row, views[k]));
                }
                assert(stored[k] =~= held_row);
            }
            assert(stored =~= stored_rows(views));
        }
    }
    made
}

/// The columns of rows hold what the rows hold.
proof fn lemma_cell(columns: RowColumns, rows: Seq<Row>, values: Seq<Column>, i: int, j: int)
    requires
        columns.hold(rows, rows.len() as int),
        in_schema_order(columns, values),
        0 <= i < rows.len(),
        0 <= j < 14,
    ensures
        values[j].rows() == rows.len(),
        values[j].cell(i) == row_cell(rows[i]@, j),
        Some(values[j].column_type()) == schema::columns()[j].column_type,
{
}

/// The columns of rows fit the schema.
proof fn lemma_values_fit(columns: RowColumns, rows: Seq<Row>, values: Seq<Column>)
    requires
        columns.hold(rows, rows.len() as int),
        fits(row_views(rows)),
        in_schema_order(columns, values),
    ensures
        columnar::values_fit(schema::columns(), values),
        forall|j: int| 0 <= j < values.len() ==> (#[trigger] values[j]).within_limit(),
{
    assert forall|j: int| 0 <= j < values.len() implies (#[trigger] values[j]).rows()
        == values[0].rows() && Some(values[j].column_type()) == schema::columns()[j].column_type
        && values[j].within_limit() by {
        let views = row_views(rows);
        assert forall|i: int| 0 <= i < rows.len() implies values[j].cells()[i] == column_cells(
            views,
            j,
        )[i] by {
            lemma_cell(columns, rows, values, i, j);
        }
        assert(values[j].cells() =~= column_cells(views, j));
        assert(column_bytes(views, j) <= columnar::TEXT_LIMIT);
    }
    assert forall|i: int, j: int|
        0 <= j < values.len() && 0 <= i < values[j].rows()
            && !schema::columns()[j].nullable implies !(#[trigger] values[j].cell(i)).is_null() by {
        lemma_cell(columns, rows, values, i, j);
        assert(j < 6);
    }
}

/// Whether values are a table's columns in the order of the schema.
spec fn in_schema_order(columns: RowColumns, values: Seq<Column>) -> bool {
    &&& values.len() == 14
    &&& values[0] == Column::Int64(columns.event_seq)
    &&& values[1] == Column::Utf8(columns.venue)
    &&& values[2] == Column::Utf8(columns.symbol)
    &&& values[3] == Column::Utf8(columns.kind_names)
    &&& values[4] == Column::Int64(columns.ingest_wall)
    &&& values[5] == Column::Int64(columns.ingest_elapsed)
    &&& values[6] == Column::Int64(columns.venue_ts)
    &&& values[7] == Column::Utf8(columns.side)
    &&& values[8] == Column::Utf8(columns.price)
    &&& values[9] == Column::Utf8(columns.qty)
    &&& values[10] == Column::Int32(columns.level_index)
    &&& values[11] == Column::UInt32(columns.checksum)
    &&& values[12] == Column::Int64(columns.heartbeat)
    &&& values[13] == Column::Utf8(columns.taker)
}

/// Whether a table lacks a column of that name and type.
pub open spec fn lacks(
    types: Map<Seq<char>, ColumnType>,
    name: Seq<char>,
    column_type: ColumnType,
) -> bool {
    !(types.contains_key(name) && types[name] == column_type)
}

/// The first column that a table lacks, in the order in which they are read.
pub open spec fn missing_column(types: Map<Seq<char>, ColumnType>) -> Option<Seq<char>> {
    if lacks(types, schema::EVENT_SEQ@, ColumnType::Int64) {
        Some(schema::EVENT_SEQ@)
    } else if lacks(types, schema::VENUE@, ColumnType::Utf8) {
        Some(schema::VENUE@)
    } else if lacks(types, schema::SYMBOL@, ColumnType::Utf8) {
        Some(schema::SYMBOL@)
    } else if lacks(types, schema::KIND@, ColumnType::Utf8) {
        Some(schema::KIND@)
    } else if lacks(types, schema::INGEST_WALL@, ColumnType::Int64) {
        Some(schema::INGEST_WALL@)
    } else if lacks(types, schema::INGEST_ELAPSED@, ColumnType::Int64) {
        Some(schema::INGEST_ELAPSED@)
    } else if lacks(types, schema::VENUE_TS@, ColumnType::Int64) {
        Some(schema::VENUE_TS@)
    } else if lacks(types, schema::SIDE@, ColumnType::Utf8) {
        Some(schema::SIDE@)
    } else if lacks(types, schema::PRICE@, ColumnType::Utf8) {
        Some(schema::PRICE@)
    } else if lacks(types, schema::QTY@, ColumnType::Utf8) {
        Some(schema::QTY@)
    } else if lacks(types, schema::CHECKSUM@, ColumnType::UInt32) {
        Some(schema::CHECKSUM@)
    } else if lacks(types, schema::HEARTBEAT_COUNTER@, ColumnType::Int64) {
        Some(schema::HEARTBEAT_COUNTER@)
    } else if lacks(types, schema::TAKER_SIDE@, ColumnType::Utf8) {
        Some(schema::TAKER_SIDE@)
    } else if lacks(types, schema::LEVEL_INDEX@, ColumnType::Int32) {
        Some(schema::LEVEL_INDEX@)
    } else {
        None
    }
}

/// An integer as a column holds it, or nothing.
pub open spec fn int64_of(c: Cell) -> Option<i64> {
    match c {
        Cell::Int64(v) => v,
        _ => None,
    }
}

/// A text as a column holds it, or nothing.
pub open spec fn utf8_of(c: Cell) -> Option<Seq<char>> {
    match c {
        Cell::Utf8(v) => v,
        _ => None,
    }
}

/// An integer, or zero for a null.
pub open spec fn or_zero(v: Option<i64>) -> i64 {
    match v {
        Some(n) => n,
        None => 0,
    }
}

/// A text, or an empty one for a null.
pub open spec fn or_empty(v: Option<Seq<char>>) -> Seq<char> {
    match v {
        Some(t) => t,
        None => Seq::empty(),
    }
}

/// The row that a stored row is read as. A null in a column that identifies the
/// event reads as zero or as an empty text.
pub open spec fn row_from(stored: Map<Seq<char>, Cell>) -> RowView {
    RowView {
        event_seq: or_zero(int64_of(stored[schema::EVENT_SEQ@])),
        venue: or_empty(utf8_of(stored[schema::VENUE@])),
        symbol: or_empty(utf8_of(stored[schema::SYMBOL@])),
        kind: or_empty(utf8_of(stored[schema::KIND@])),
        ingest_wall: or_zero(int64_of(stored[schema::INGEST_WALL@])),
        ingest_elapsed: or_zero(int64_of(stored[schema::INGEST_ELAPSED@])),
        venue_ts: int64_of(stored[schema::VENUE_TS@]),
        side: utf8_of(stored[schema::SIDE@]),
        price: utf8_of(stored[schema::PRICE@]),
        qty: utf8_of(stored[schema::QTY@]),
        level_index: match stored[schema::LEVEL_INDEX@] {
            Cell::Int32(v) => v,
            _ => None,
        },
        checksum: match stored[schema::CHECKSUM@] {
            Cell::UInt32(v) => v,
            _ => None,
        },
        heartbeat_counter: int64_of(stored[schema::HEARTBEAT_COUNTER@]),
        taker_side: utf8_of(stored[schema::TAKER_SIDE@]),
    }
}

/// The rows that stored rows are read as.
pub open spec fn rows_from(stored: Seq<Map<Seq<char>, Cell>>) -> Seq<RowView> {
    stored.map_values(|m: Map<Seq<char>, Cell>| row_from(m))
}

/// A row that was stored is read as it was.
pub proof fn law_a_stored_row_reads_back(stored: Map<Seq<char>, Cell>, r: RowView)
    requires
        holds_row(stored, r),
    ensures
        row_from(stored) == r,
{
    let all = schema::columns();
    assert(stored[all[0].name] == row_cell(r, 0));
    assert(stored[all[1].name] == row_cell(r, 1));
    assert(stored[all[2].name] == row_cell(r, 2));
    assert(stored[all[3].name] == row_cell(r, 3));
    assert(stored[all[4].name] == row_cell(r, 4));
    assert(stored[all[5].name] == row_cell(r, 5));
    assert(stored[all[6].name] == row_cell(r, 6));
    assert(stored[all[7].name] == row_cell(r, 7));
    assert(stored[all[8].name] == row_cell(r, 8));
    assert(stored[all[9].name] == row_cell(r, 9));
    assert(stored[all[10].name] == row_cell(r, 10));
    assert(stored[all[11].name] == row_cell(r, 11));
    assert(stored[all[12].name] == row_cell(r, 12));
    assert(stored[all[13].name] == row_cell(r, 13));
}

/// A table with the schema's columns lacks none.
pub proof fn lemma_schema_lacks_nothing()
    ensures
        missing_column(schema::types()) is None,
{
    schema::lemma_types(0);
    schema::lemma_types(1);
    schema::lemma_types(2);
    schema::lemma_types(3);
    schema::lemma_types(4);
    schema::lemma_types(5);
    schema::lemma_types(6);
    schema::lemma_types(7);
    schema::lemma_types(8);
    schema::lemma_types(9);
    schema::lemma_types(10);
    schema::lemma_types(11);
    schema::lemma_types(12);
    schema::lemma_types(13);
}

/// A text, or an empty one for a null.
fn text_or_empty(t: &Option<String>) -> (r: String)
    ensures
        r@ == or_empty(maybe_text(*t)),
{
    match t {
        Some(s) => s.as_str().to_owned(),
        None => text::text_of(&[]),
    }
}

/// An integer, or zero for a null.
fn int_or_zero(v: Option<i64>) -> (r: i64)
    ensures
        r == or_zero(v),
{
    match v {
        Some(n) => n,
        None => 0,
    }
}

/// The rows of a batch, or the name of the first column that it lacks.
pub fn rows_of(batch: &Batch) -> (r: Result<Vec<Row>, &'static str>)
    ensures
        match r {
            Ok(rows) => missing_column(columnar::batch_types(*batch)) is None && row_views(rows@)
                == rows_from(columnar::batch_rows(*batch)),
            Err(name) => missing_column(columnar::batch_types(*batch)) == Some(name@),
        },
{
    let event_seq = match columnar::int64_column(batch, schema::EVENT_SEQ) {
        Some(v) => v,
        None => {
            return Err(schema::EVENT_SEQ);
        },
    };
    let venue = match columnar::utf8_column(batch, schema::VENUE) {
        Some(v) => v,
        None => {
            return Err(schema::VENUE);
        },
    };
    let symbol = match columnar::utf8_column(batch, schema::SYMBOL) {
        Some(v) => v,
        None => {
            return Err(schema::SYMBOL);
        },
    };
    let kind_names = match columnar::utf8_column(batch, schema::KIND) {
        Some(v) => v,
        None => {
            return Err(schema::KIND);
        },
    };
    let ingest_wall = match columnar::int64_column(batch, schema::INGEST_WALL) {
        Some(v) => v,
        None => {
            return Err(schema::INGEST_WALL);
        },
    };
    let ingest_elapsed = match columnar::int64_column(batch, schema::INGEST_ELAPSED) {
        Some(v) => v,
        None => {
            return Err(schema::INGEST_ELAPSED);
        },
    };
    let venue_ts = match columnar::int64_column(batch, schema::VENUE_TS) {
        Some(v) => v,
        None => {
            return Err(schema::VENUE_TS);
        },
    };
    let side = match columnar::utf8_column(batch, schema::SIDE) {
        Some(v) => v,
        None => {
            return Err(schema::SIDE);
        },
    };
    let price = match columnar::utf8_column(batch, schema::PRICE) {
        Some(v) => v,
        None => {
            return Err(schema::PRICE);
        },
    };
    let qty = match columnar::utf8_column(batch, schema::QTY) {
        Some(v) => v,
        None => {
            return Err(schema::QTY);
        },
    };
    let checksum = match columnar::uint32_column(batch, schema::CHECKSUM) {
        Some(v) => v,
        None => {
            return Err(schema::CHECKSUM);
        },
    };
    let heartbeat = match columnar::int64_column(batch, schema::HEARTBEAT_COUNTER) {
        Some(v) => v,
        None => {
            return Err(schema::HEARTBEAT_COUNTER);
        },
    };
    let taker = match columnar::utf8_column(batch, schema::TAKER_SIDE) {
        Some(v) => v,
        None => {
            return Err(schema::TAKER_SIDE);
        },
    };
    let level_index = match columnar::int32_column(batch, schema::LEVEL_INDEX) {
        Some(v) => v,
        None => {
            return Err(schema::LEVEL_INDEX);
        },
    };
    let ghost stored = columnar::batch_rows(*batch);
    let count: usize = columnar::row_count(batch);
    let mut rows: Vec<Row> = Vec::new();
    let mut i: usize = 0;
    while i < count
        invariant
            i <= count,
            count == stored.len(),
            stored == columnar::batch_rows(*batch),
            row_views(rows@) == rows_from(stored.take(i as int)),
            event_seq@.len() == count,
            forall|k: int|
                0 <= k < count ==> (#[trigger] stored[k])[schema::EVENT_SEQ@] == Cell::Int64(event_seq@[k]),
            venue@.len() == count,
            forall|k: int|
                0 <= k < count ==> (#[trigger] stored[k])[schema::VENUE@] == Cell::Utf8(maybe_text(venue@[k])),
            symbol@.len() == count,
            forall|k: int|
                0 <= k < count ==> (#[trigger] stored[k])[schema::SYMBOL@] == Cell::Utf8(maybe_text(symbol@[k])),
            kind_names@.len() == count,
            forall|k: int|
                0 <= k < count ==> (#[trigger] stored[k])[schema::KIND@] == Cell::Utf8(maybe_text(kind_names@[k])),
            ingest_wall@.len() == count,
            forall|k: int|
                0 <= k < count ==> (#[trigger] stored[k])[schema::INGEST_WALL@] == Cell::Int64(ingest_wall@[k]),
            ingest_elapsed@.len() == count,
            forall|k: int|
                0 <= k < count ==> (#[trigger] stored[k])[schema::INGEST_ELAPSED@] == Cell::Int64(ingest_elapsed@[k]),
            venue_ts@.len() == count,
            forall|k: int|
                0 <= k < count ==> (#[trigger] stored[k])[schema::VENUE_TS@] == Cell::Int64(venue_ts@[k]),
            side@.len() == count,
            forall|k: int|
                0 <= k < count ==> (#[trigger] stored[k])[schema::SIDE@] == Cell::Utf8(maybe_text(side@[k])),
            price@.len() == count,
            forall|k: int|
                0 <= k < count ==> (#[trigger] stored[k])[schema::PRICE@] == Cell::Utf8(maybe_text(price@[k])),
            qty@.len() == count,
            forall|k: int|
                0 <= k < count ==> (#[trigger] stored[k])[schema::QTY@] == Cell::Utf8(maybe_text(qty@[k])),
            checksum@.len() == count,
            forall|k: int|
                0 <= k < count ==> (#[trigger] stored[k])[schema::CHECKSUM@] == Cell::UInt32(checksum@[k]),
            heartbeat@.len() == count,
            forall|k: int|
                0 <= k < count ==> (#[trigger] stored[k])[schema::HEARTBEAT_COUNTER@] == Cell::Int64(heartbeat@[k]),
            taker@.len() == count,
            forall|k: int|
                0 <= k < count ==> (#[trigger] stored[k])[schema::TAKER_SIDE@] == Cell::Utf8(maybe_text(taker@[k])),
            level_index@.len() == count,
            forall|k: int|
                0 <= k < count ==> (#[trigger] stored[k])[schema::LEVEL_INDEX@] == Cell::Int32(level_index@[k]),
        decreases count - i,
    {
        let ghost before = rows@;
        let row = Row {
            event_seq: int_or_zero(event_seq[i]),
            venue: text_or_empty(&venue[i]),
            symbol: text_or_empty(&symbol[i]),
            kind: text_or_empty(&kind_names[i]),
            ingest_wall: int_or_zero(ingest_wall[i]),
            ingest_elapsed: int_or_zero(ingest_elapsed[i]),
            venue_ts: venue_ts[i],
            side: copy_text(&side[i]),
            price: copy_text(&price[i]),
            qty: copy_text(&qty[i]),
            level_index: level_index[i],
            checksum: checksum[i],
            heartbeat_counter: heartbeat[i],
            taker_side: copy_text(&taker[i]),
        };
        assert(row@ == row_from(stored[i as int]));
        rows.push(row);
        i += 1;
        assert(row_views(rows@) =~= row_views(before).push(row_from(stored[i - 1])));
        assert(rows_from(stored.take(i as int)) =~= rows_from(stored.take(i - 1)).push(
            row_from(stored[i - 1]),
        ));
    }
    assert(stored.take(stored.len() as int) =~= stored);
    Ok(rows)
}

/// Whether a row is that of a level: its side, its digits, and its place among the
/// levels of its side.
pub open spec fn is_level_row(row: RowView, side: Side, level: (Parts, Parts), place: int) -> bool {
    &&& row.side == Some(side.name())
    &&& row.price == Some(decimal::plain_text(level.0))
    &&& row.qty == Some(decimal::plain_text(level.1))
    &&& row.level_index matches Some(index) && (place <= i32::MAX ==> index == place) && (place
        > i32::MAX ==> index == i32::MAX)
}

/// Every level of an event is one row, in order, bids before asks; an event without
/// levels is one row all the same. Each row names the event by its number.
pub proof fn law_every_level_is_one_row(e: EventView, event_seq: i64, base: nat)
    requires
        e.kind is Snapshot || e.kind is Delta,
    ensures
        ({
            let (bids, asks) = match e.kind {
                KindView::Snapshot { bids, asks } => (bids, asks),
                KindView::Delta { bids, asks } => (bids, asks),
                _ => (Seq::empty(), Seq::empty()),
            };
            let rows = flat_rows(e, event_seq, base);
            let n = bids.len() + asks.len();
            &&& rows.len() == if n == 0 {
                1
            } else {
                n
            }
            &&& forall|i: int| 0 <= i < rows.len() ==> (#[trigger] rows[i]).event_seq == event_seq
            &&& forall|i: int|
                0 <= i < bids.len() ==> is_level_row(#[trigger] rows[i], Side::Bid, bids[i], i)
            &&& forall|i: int|
                bids.len() <= i < n ==> is_level_row(
                    #[trigger] rows[i],
                    Side::Ask,
                    asks[i - bids.len()],
                    i - bids.len(),
                )
            &&& n == 0 ==> rows[0].side is None && rows[0].price is None
        }),
{
}

/// What a row says of its event: who sent it, when it came by both clocks, and what
/// the venue's own clock said. Readings that fit their columns are kept exactly.
pub proof fn law_a_row_names_its_event(e: EventView, event_seq: i64, base: nat, i: int)
    requires
        0 <= i < flat_rows(e, event_seq, base).len(),
        -i64::MAX <= e.wall <= i64::MAX,
        e.venue_ts matches Some(t) ==> -i64::MAX <= t <= i64::MAX,
        base <= e.mono <= base + i64::MAX,
    ensures
        ({
            let row = flat_rows(e, event_seq, base)[i];
            &&& row.event_seq == event_seq
            &&& row.venue == e.venue.name()
            &&& row.symbol == e.symbol
            &&& row.ingest_wall == e.wall
            &&& base + row.ingest_elapsed == e.mono
            &&& row.venue_ts is Some <==> e.venue_ts is Some
            &&& e.venue_ts matches Some(t) ==> row.venue_ts->0 == t
        }),
{
}

} // verus!
