#![allow(unused_mut)]

use market_aggregator::columnar::ColumnType;
use market_aggregator::schema::{
    event_schema, field_with_name, EVENT_SEQ, INGEST_ELAPSED, INGEST_WALL, KIND, PRICE, QTY, SYMBOL,
    VENUE, VENUE_TS,
};

#[test]
fn nothing_that_identifies_an_event_is_nullable() {
    for name in [EVENT_SEQ, VENUE, SYMBOL, KIND, INGEST_WALL, INGEST_ELAPSED] {
        let field = field_with_name(name).expect(name);
        assert!(!field.nullable, "{name} is nullable");
    }
}

#[test]
fn the_venue_clock_is_nullable_and_the_ingest_clock_is_not() {
    assert!(
        field_with_name(VENUE_TS).unwrap().nullable
    );
    assert!(
        !field_with_name(INGEST_WALL).unwrap().nullable
    );
}

#[test]
fn prices_are_strings_not_floats_or_fixed_scale_decimals() {
    for name in [PRICE, QTY] {
        assert_eq!(
            field_with_name(name).unwrap().column_type,
            ColumnType::Utf8,
            "{name} is not an exact-digit string"
        );
    }
}

#[test]
fn both_ingest_clocks_are_present_and_named_for_what_they_are() {
    assert!(INGEST_WALL.contains("wall"));
    assert!(INGEST_ELAPSED.contains("elapsed"));
    assert!(field_with_name(INGEST_WALL).is_some());
    assert!(field_with_name(INGEST_ELAPSED).is_some());
}

#[test]
fn the_schema_has_one_column_per_name() {
    let columns = event_schema();
    assert_eq!(columns.len(), 14);
    for c in &columns {
        assert_eq!(columns.iter().filter(|d| d.name == c.name).count(), 1);
        assert_eq!(field_with_name(c.name).unwrap().column_type, c.column_type);
    }
    assert!(field_with_name("no such column").is_none());
}
