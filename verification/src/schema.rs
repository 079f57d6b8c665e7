//! The columns of an archived event, one row per level.
use vstd::prelude::*;

use crate::columnar;
use crate::columnar::{ColumnSpec, ColumnType, ColumnView};
use crate::text;

verus! {

/// Groups the rows of one event. Rises by one per event, across files.
pub const EVENT_SEQ: &'static str = "event_seq";

pub const VENUE: &'static str = "venue";

pub const SYMBOL: &'static str = "symbol";

/// `snapshot`, `delta`, `trade`, `checksum` or `heartbeat`.
pub const KIND: &'static str = "kind";

/// Wall clock at ingest. For display and joins, never for order.
pub const INGEST_WALL: &'static str = "ingest_wall_unix_nanos";

/// Monotonic nanoseconds since the writer's first event. The column to order
/// and to pace by.
pub const INGEST_ELAPSED: &'static str = "ingest_elapsed_nanos";

/// The venue's own timestamp. Measured, never trusted.
pub const VENUE_TS: &'static str = "venue_ts_unix_nanos";

/// `bid` or `ask`; null for an event without levels.
pub const SIDE: &'static str = "side";

/// Exact decimal digits as the venue sent them.
pub const PRICE: &'static str = "price";

pub const QTY: &'static str = "qty";

/// Position within its side, in the order the venue listed it.
pub const LEVEL_INDEX: &'static str = "level_index";

/// The venue's own checksum of its book.
pub const CHECKSUM: &'static str = "checksum";

pub const HEARTBEAT_COUNTER: &'static str = "heartbeat_counter";

/// Which side took liquidity on a trade, where the venue says.
pub const TAKER_SIDE: &'static str = "taker_side";

/// One column.
pub open spec fn column(name: Seq<char>, column_type: ColumnType, nullable: bool) -> ColumnView {
    ColumnView { name, column_type: Some(column_type), nullable }
}

/// The columns of every file, in order. What identifies an event is never null.
pub open spec fn columns() -> Seq<ColumnView> {
    seq![
        column(EVENT_SEQ@, ColumnType::Int64, false),
        column(VENUE@, ColumnType::Utf8, false),
        column(SYMBOL@, ColumnType::Utf8, false),
        column(KIND@, ColumnType::Utf8, false),
        column(INGEST_WALL@, ColumnType::Int64, false),
        column(INGEST_ELAPSED@, ColumnType::Int64, false),
        column(VENUE_TS@, ColumnType::Int64, true),
        column(SIDE@, ColumnType::Utf8, true),
        column(PRICE@, ColumnType::Utf8, true),
        column(QTY@, ColumnType::Utf8, true),
        column(LEVEL_INDEX@, ColumnType::Int32, true),
        column(CHECKSUM@, ColumnType::UInt32, true),
        column(HEARTBEAT_COUNTER@, ColumnType::Int64, true),
        column(TAKER_SIDE@, ColumnType::Utf8, true),
    ]
}

/// The columns of every file, in order.
pub fn event_schema() -> (v: Vec<ColumnSpec>)
    ensures
        v@.len() == columns().len(),
        forall|i: int| 0 <= i < v@.len() ==> (#[trigger] v@[i])@ == columns()[i],
{
    let int64 = ColumnType::Int64;
    let utf8 = ColumnType::Utf8;
    vec![
        ColumnSpec { name: EVENT_SEQ, column_type: int64, nullable: false },
        ColumnSpec { name: VENUE, column_type: utf8, nullable: false },
        ColumnSpec { name: SYMBOL, column_type: utf8, nullable: false },
        ColumnSpec { name: KIND, column_type: utf8, nullable: false },
        ColumnSpec { name: INGEST_WALL, column_type: int64, nullable: false },
        ColumnSpec { name: INGEST_ELAPSED, column_type: int64, nullable: false },
        ColumnSpec { name: VENUE_TS, column_type: int64, nullable: true },
        ColumnSpec { name: SIDE, column_type: utf8, nullable: true },
        ColumnSpec { name: PRICE, column_type: utf8, nullable: true },
        ColumnSpec { name: QTY, column_type: utf8, nullable: true },
        ColumnSpec { name: LEVEL_INDEX, column_type: ColumnType::Int32, nullable: true },
        ColumnSpec { name: CHECKSUM, column_type: ColumnType::UInt32, nullable: true },
        ColumnSpec { name: HEARTBEAT_COUNTER, column_type: int64, nullable: true },
        ColumnSpec { name: TAKER_SIDE, column_type: utf8, nullable: true },
    ]
}

/// The column of that name, if there is one.
pub fn field_with_name(name: &str) -> (r: Option<ColumnSpec>)
    ensures
        r matches Some(c) ==> c@.name == name@ && columns().contains(c@),
        r is None ==> forall|i: int| 0 <= i < columns().len() ==> #[trigger] columns()[i].name
            != name@,
{
    let all = event_schema();
    let mut i: usize = 0;
    while i < all.len()
        invariant
            i <= all@.len(),
            all@.len() == columns().len(),
            forall|k: int| 0 <= k < all@.len() ==> (#[trigger] all@[k])@ == columns()[k],
            forall|k: int| 0 <= k < i ==> #[trigger] columns()[k].name != name@,
        decreases all@.len() - i,
    {
        assert(all@[i as int]@ == columns()[i as int]);
        if text::same_text(all[i].name, name) {
            return Some(all[i]);
        }
        i += 1;
    }
    None
}

/// No two columns have one name.
pub proof fn law_column_names_are_distinct()
    ensures
        columnar::distinct_names(columns()),
{
    reveal_strlit("event_seq");
    reveal_strlit("venue");
    reveal_strlit("symbol");
    reveal_strlit("kind");
    reveal_strlit("ingest_wall_unix_nanos");
    reveal_strlit("ingest_elapsed_nanos");
    reveal_strlit("venue_ts_unix_nanos");
    reveal_strlit("side");
    reveal_strlit("price");
    reveal_strlit("qty");
    reveal_strlit("level_index");
    reveal_strlit("checksum");
    reveal_strlit("heartbeat_counter");
    reveal_strlit("taker_side");
    let all = columns();
    assert(all[0].name.len() == 9);
    assert(all[1].name.len() == 5);
    assert(all[2].name.len() == 6);
    assert(all[3].name.len() == 4);
    assert(all[4].name.len() == 22);
    assert(all[5].name.len() == 20);
    assert(all[6].name.len() == 19);
    assert(all[7].name.len() == 4);
    assert(all[8].name.len() == 5);
    assert(all[9].name.len() == 3);
    assert(all[10].name.len() == 11);
    assert(all[11].name.len() == 8);
    assert(all[12].name.len() == 17);
    assert(all[13].name.len() == 10);
    assert(all[1].name[0] != all[8].name[0]);
    assert(all[3].name[0] != all[7].name[0]);
    assert forall|i: int, j: int| 0 <= i < j < all.len() implies #[trigger] all[i].name
        != #[trigger] all[j].name by {
        if all[i].name.len() == all[j].name.len() {
            assert((i == 1 && j == 8) || (i == 3 && j == 7));
        }
    }
}

/// The types of the columns, by name.
pub open spec fn types() -> Map<Seq<char>, ColumnType> {
    columnar::types_of(columns())
}

/// Every column has its type under its name.
pub proof fn lemma_types(i: int)
    requires
        0 <= i < columns().len(),
    ensures
        types().contains_key(columns()[i].name),
        Some(types()[columns()[i].name]) == columns()[i].column_type,
{
    law_column_names_are_distinct();
    lemma_types_of(columns(), i);
}

/// Where names are distinct, each has the type of its column.
pub proof fn lemma_types_of(all: Seq<ColumnView>, i: int)
    requires
        columnar::distinct_names(all),
        0 <= i < all.len(),
        all[i].column_type is Some,
    ensures
        columnar::types_of(all).contains_key(all[i].name),
        Some(columnar::types_of(all)[all[i].name]) == all[i].column_type,
    decreases all.len(),
{
    if i < all.len() - 1 {
        let rest = all.drop_last();
        assert(rest[i] == all[i]);
        assert(columnar::distinct_names(rest)) by {
            assert forall|a: int, b: int| 0 <= a < b < rest.len() implies #[trigger] rest[a].name
                != #[trigger] rest[b].name by {
                assert(all[a].name != all[b].name);
            }
        }
        lemma_types_of(rest, i);
        assert(all[i].name != all[all.len() - 1].name);
    }
}

} // verus!
