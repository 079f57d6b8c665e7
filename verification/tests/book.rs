#![allow(unused_mut)]

use market_aggregator::book::{Book, BookError, BookState, BookStateKind, DesyncReason, Integrity};
use market_aggregator::decimal::Decimal;
use market_aggregator::event::{Level, Side, Symbol, VenueId};
use market_aggregator::time::{Clock, Duration, TestClock};

fn lv(price: &str, qty: &str) -> Level {
    Level::new(price.parse().unwrap(), qty.parse().unwrap())
}

fn book() -> (Book, TestClock) {
    (
        Book::new(VenueId::Fake, Symbol::new("BTC-USD")),
        TestClock::new(),
    )
}

fn synced() -> (Book, TestClock) {
    let (mut b, mut clock) = book();
    b.apply_snapshot(
        &[lv("100", "1"), lv("99", "2")],
        &[lv("101", "1"), lv("102", "3")],
        Integrity::GapDetectable,
        clock.now(),
    )
    .unwrap();
    (b, clock)
}

#[test]
fn fresh_book_reports_no_data_not_bad_data() {
    let (b, mut clock) = book();
    let top = b.top_of_book(clock.now());
    assert_eq!(top.state, BookState::Uninitialized);
    assert!(top.bid.is_none() && top.ask.is_none());
    assert!(top.age.is_none(), "never-updated book has no age");
}

#[test]
fn snapshot_establishes_best_levels() {
    let (b, mut clock) = synced();
    let top = b.top_of_book(clock.now());
    assert_eq!(top.bid, Some(lv("100", "1")));
    assert_eq!(top.ask, Some(lv("101", "1")));
    assert_eq!(top.spread(), Decimal::parse("1"));
    assert_eq!(top.state.integrity(), Some(Integrity::GapDetectable));
}

#[test]
fn snapshot_replaces_rather_than_merges() {
    let (mut b, mut clock) = synced();
    b.apply_snapshot(
        &[lv("50", "1")],
        &[lv("51", "1")],
        Integrity::Verified,
        clock.now(),
    )
    .unwrap();
    assert_eq!(b.depth(), (1, 1), "old levels survived a snapshot");
    assert_eq!(b.best(Side::Bid), Some(lv("50", "1")));
}

#[test]
fn zero_quantity_deletes_the_level() {
    let (mut b, mut clock) = synced();
    b.apply_delta(&[lv("100", "0")], &[], clock.now()).unwrap();
    assert_eq!(
        b.best(Side::Bid),
        Some(lv("99", "2")),
        "deleting the best bid should expose the next one"
    );
}

#[test]
fn delta_updates_quantity_in_place() {
    let (mut b, mut clock) = synced();
    b.apply_delta(&[lv("100", "7")], &[], clock.now()).unwrap();
    assert_eq!(b.best(Side::Bid), Some(lv("100", "7")));
    assert_eq!(b.depth(), (2, 2), "in-place update changed the level count");
}

#[test]
fn desynced_book_refuses_deltas() {
    let (mut b, mut clock) = synced();
    b.mark_desynced(DesyncReason::ConnectionLost, clock.now());

    let err = b
        .apply_delta(&[lv("100", "5")], &[], clock.now())
        .unwrap_err();
    assert_eq!(err, BookError::NotLive(BookStateKind::Desynced));
}

#[test]
fn uninitialized_book_refuses_deltas() {
    let (mut b, mut clock) = book();
    let err = b
        .apply_delta(&[lv("100", "5")], &[], clock.now())
        .unwrap_err();
    assert_eq!(err, BookError::NotLive(BookStateKind::Uninitialized));
}

#[test]
fn crossed_book_desyncs_itself() {
    let (mut b, mut clock) = synced();
    b.apply_delta(&[lv("105", "1")], &[], clock.now()).unwrap();

    match b.state() {
        BookState::Desynced {
            reason: DesyncReason::CrossedBook { best_bid, best_ask },
            ..
        } => {
            assert_eq!(best_bid, "105".parse().unwrap());
            assert_eq!(best_ask, "101".parse().unwrap());
        }
        other => panic!("expected CrossedBook desync, got {other:?}"),
    }
}

#[test]
fn touching_book_is_crossed_too() {
    let (mut b, mut clock) = synced();
    b.apply_delta(&[lv("101", "1")], &[], clock.now()).unwrap();
    assert!(matches!(
        b.state(),
        BookState::Desynced {
            reason: DesyncReason::CrossedBook { .. },
            ..
        }
    ));
}

#[test]
fn only_checksum_venues_can_claim_verification() {
    let (mut b, mut clock) = synced(); // GapDetectable
    b.mark_verified(clock.now());
    match b.state() {
        BookState::Live { last_verified, .. } => assert!(
            last_verified.is_none(),
            "a venue with no checksum claimed verification"
        ),
        other => panic!("expected Live, got {other:?}"),
    }
}

#[test]
fn verified_venue_records_when_it_was_last_checked() {
    let (mut b, mut clock) = book();
    b.apply_snapshot(
        &[lv("100", "1")],
        &[lv("101", "1")],
        Integrity::Verified,
        clock.now(),
    )
    .unwrap();
    clock.advance(Duration::from_secs(5));
    b.mark_verified(clock.now());

    match b.state() {
        BookState::Live {
            last_verified: Some(at),
            since,
            ..
        } => {
            assert_eq!(at.since(since), Duration::from_secs(5));
        }
        other => panic!("expected a verified Live book, got {other:?}"),
    }
}

#[test]
fn integrity_is_ordered_weakest_first() {
    assert!(Integrity::OrderOnly < Integrity::GapDetectable);
    assert!(Integrity::GapDetectable < Integrity::Verified);

    let combined = [Integrity::Verified, Integrity::OrderOnly]
        .into_iter()
        .min()
        .unwrap();
    assert_eq!(combined, Integrity::OrderOnly);

    assert!(!Integrity::OrderOnly.detects_loss());
    assert!(Integrity::GapDetectable.detects_loss());
}

#[test]
fn age_measures_time_since_last_update_not_since_sync() {
    let (mut b, mut clock) = synced();
    clock.advance(Duration::from_secs(10));
    assert_eq!(
        b.top_of_book(clock.now()).age,
        Some(Duration::from_secs(10))
    );

    b.apply_delta(&[lv("100", "3")], &[], clock.now()).unwrap();
    assert_eq!(b.top_of_book(clock.now()).age, Some(Duration::zero()));
}

#[test]
fn top_levels_are_ordered_best_first() {
    let (mut b, mut clock) = book();
    b.apply_snapshot(
        &[lv("97", "1"), lv("99", "1"), lv("98", "1")],
        &[lv("103", "1"), lv("101", "1"), lv("102", "1")],
        Integrity::Verified,
        clock.now(),
    )
    .unwrap();

    let bids: Vec<String> = b
        .top_levels(Side::Bid, 10)
        .iter()
        .map(|l| l.price.to_text())
        .collect();
    assert_eq!(bids, ["99", "98", "97"], "bids must descend from best");

    let asks: Vec<String> = b
        .top_levels(Side::Ask, 10)
        .iter()
        .map(|l| l.price.to_text())
        .collect();
    assert_eq!(asks, ["101", "102", "103"], "asks must ascend from best");
}

#[test]
fn pruning_discards_the_worst_levels_on_each_side() {
    let mut b = Book::new(VenueId::Fake, Symbol::new("BTC-USD")).with_max_depth(2);
    let mut clock = TestClock::new();
    b.apply_snapshot(
        &[lv("97", "1"), lv("99", "1"), lv("98", "1")],
        &[lv("103", "1"), lv("101", "1"), lv("102", "1")],
        Integrity::Verified,
        clock.now(),
    )
    .unwrap();

    assert_eq!(b.depth(), (2, 2));
    assert_eq!(b.best(Side::Bid), Some(lv("99", "1")));
    assert_eq!(b.best(Side::Ask), Some(lv("101", "1")));
    assert_eq!(
        b.top_levels(Side::Bid, 10).last().unwrap().price,
        "98".parse().unwrap()
    );
}

#[test]
fn the_mid_lies_halfway() {
    let (b, mut clock) = synced();
    let top = b.top_of_book(clock.now());
    assert_eq!(top.mid(), Decimal::parse("100.5"));
    assert_eq!(top.try_mid(), Ok(top.mid()));
    assert_eq!(top.try_spread(), Ok(top.spread()));
}

#[test]
fn a_spread_off_the_end_of_the_range_is_an_overflow() {
    let top = "79228162514264337593543950335";
    let (mut b, mut clock) = book();
    b.apply_snapshot(
        &[lv("-79228162514264337593543950335", "1")],
        &[lv(top, "1")],
        Integrity::OrderOnly,
        clock.now(),
    )
    .unwrap();
    assert!(b.top_of_book(clock.now()).try_spread().is_err());
}

#[test]
fn a_refused_delta_changes_nothing() {
    let (mut b, mut clock) = synced();
    b.mark_desynced(DesyncReason::ConnectionLost, clock.now());
    let before = b.top_of_book(clock.now());
    assert!(b.apply_delta(&[lv("100", "5")], &[], clock.now()).is_err());
    assert_eq!(b.top_of_book(clock.now()), before);
    assert_eq!(b.best(Side::Bid), Some(lv("100", "1")));
}

#[test]
fn a_crossed_snapshot_is_refused_with_both_prices() {
    let (mut b, mut clock) = book();
    match b.apply_snapshot(
        &[lv("102", "1")],
        &[lv("101", "1")],
        Integrity::Verified,
        clock.now(),
    ) {
        Err(DesyncReason::CrossedBook { best_bid, best_ask }) => {
            assert_eq!(best_bid, "102".parse().unwrap());
            assert_eq!(best_ask, "101".parse().unwrap());
        }
        other => panic!("expected a crossing, got {other:?}"),
    }
    assert!(!b.state().is_live());
}

#[test]
fn a_checksum_that_matches_is_no_transition() {
    let (mut b, mut clock) = book();
    b.apply_snapshot(
        &[lv("100", "1")],
        &[lv("101", "1")],
        Integrity::Verified,
        clock.now(),
    )
    .unwrap();
    let was = b.state();
    clock.advance(Duration::from_secs(9));
    b.mark_verified(clock.now());
    assert!(was.same_status(b.state()));
    assert_ne!(was, b.state());
    b.mark_desynced(DesyncReason::AwaitingSnapshot, clock.now());
    assert!(!was.same_status(b.state()));
}

#[test]
fn only_some_reasons_need_a_new_connection() {
    assert!(DesyncReason::SequenceGap { expected: 1, got: 3 }.needs_fresh_stream());
    assert!(!DesyncReason::ConnectionLost.needs_fresh_stream());
}

#[test]
fn a_shorter_list_of_levels_begins_a_longer_one() {
    let (mut b, mut clock) = book();
    b.apply_snapshot(
        &[lv("97", "1"), lv("99", "2"), lv("98", "3")],
        &[lv("103", "1"), lv("101", "2")],
        Integrity::Verified,
        clock.now(),
    )
    .unwrap();
    for side in [Side::Bid, Side::Ask] {
        let all = b.top_levels(side, usize::MAX);
        for n in 0..5 {
            let some = b.top_levels(side, n);
            assert_eq!(some.len(), n.min(all.len()));
            assert_eq!(some, all[..some.len()]);
        }
        assert_eq!(all.first().copied(), b.best(side));
    }
    assert_eq!(b.top_levels(Side::Bid, usize::MAX).len(), 3);
    assert_eq!(b.top_levels(Side::Ask, usize::MAX).len(), 2);
}
