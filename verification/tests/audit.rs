#![allow(unused_mut)]

use market_aggregator::audit::{
    audit, guard_edge, try_audit, AuditFinding, AuditOutcome, AuditPolicy, AuditTrail,
};
use market_aggregator::book::{Book, DesyncReason, Integrity};
use market_aggregator::event::{Level, Side, Symbol, VenueId};
use market_aggregator::price::Price;
use market_aggregator::time::{Clock, TestClock};

fn lv(price: &str, qty: &str) -> Level {
    Level::new(price.parse().unwrap(), qty.parse().unwrap())
}

/// A book with `n` levels a side, one unit apart, centred on 1000/1001.
///
/// One unit is 10 bps of 1000, so with `guard_bps = 20` the first two
/// levels a side fall inside the guard and the rest are compared. Chosen so
/// the arithmetic is legible rather than realistic: a real book is far
/// denser, which is the whole reason the guard is a distance and not a
/// level count.
fn ladder(n: usize) -> (Vec<Level>, Vec<Level>) {
    let bids = (0..n)
        .map(|i| lv(&format!("{}", 1000 - i as i64), "1"))
        .collect();
    let asks = (0..n)
        .map(|i| lv(&format!("{}", 1001 + i as i64), "1"))
        .collect();
    (bids, asks)
}

fn book_of(bids: &[Level], asks: &[Level]) -> Book {
    let mut b = Book::new(VenueId::Fake, Symbol::new("BTC-USD"));
    b.apply_snapshot(bids, asks, Integrity::OrderOnly, TestClock::new().now())
        .unwrap();
    b
}

/// 20 bps of a 1000 book is 2 units, so levels 1000 and 999 (and 1001,
/// 1002) sit inside the guard and everything further out is compared.
fn policy() -> AuditPolicy {
    AuditPolicy {
        guard_bps: 20,
        max_levels: 8,
        consecutive_before_desync: 2,
    }
}

#[test]
fn an_identical_book_matches() {
    let (bids, asks) = ladder(10);
    let book = book_of(&bids, &asks);
    let outcome = audit(&book, &bids, &asks, policy());
    assert!(
        matches!(outcome, AuditOutcome::Match { .. }),
        "got {outcome:?}"
    );
    assert!(outcome.compared() > 0, "nothing was actually compared");
}

#[test]
fn a_wrong_quantity_outside_the_guard_is_caught() {
    let (bids, asks) = ladder(10);
    let book = book_of(&bids, &asks);

    let mut theirs = bids.clone();
    theirs[4] = lv("996", "7");

    match audit(&book, &theirs, &asks, policy()) {
        AuditOutcome::Mismatch { findings, .. } => {
            assert_eq!(findings.len(), 1, "{findings:?}");
            assert_eq!(findings[0].side, Side::Bid);
            assert_eq!(findings[0].price, "996".parse().unwrap());
            assert_eq!(findings[0].ours, Some("1".parse().unwrap()));
            assert_eq!(findings[0].theirs, Some("7".parse().unwrap()));
        }
        other => panic!("expected a mismatch, got {other:?}"),
    }
}

#[test]
fn disagreement_inside_the_guard_band_is_deliberately_ignored() {
    let (bids, asks) = ladder(10);
    let book = book_of(&bids, &asks);

    let mut theirs = bids.clone();
    theirs[0] = lv("1000", "99");
    theirs[1] = lv("999", "99");

    assert!(
        matches!(
            audit(&book, &theirs, &asks, policy()),
            AuditOutcome::Match { .. }
        ),
        "the guard band did not absorb a near-touch difference"
    );
}

#[test]
fn the_guard_is_a_price_distance_not_a_level_count() {
    let dense_bids: Vec<Level> = (0..200)
        .map(|i| lv(&format!("{:.2}", 1000.0 - f64::from(i) * 0.01), "1"))
        .collect();
    let dense_asks: Vec<Level> = (0..200)
        .map(|i| lv(&format!("{:.2}", 1000.01 + f64::from(i) * 0.01), "1"))
        .collect();
    let book = book_of(&dense_bids, &dense_asks);

    let policy = AuditPolicy {
        guard_bps: 10,
        max_levels: 500,
        consecutive_before_desync: 2,
    };

    let mut near = dense_bids.clone();
    near[50] = lv(&format!("{:.2}", 1000.0 - 0.50), "99");
    assert!(
        !audit(&book, &near, &dense_asks, policy).is_mismatch(),
        "a difference 5 bps out was flagged despite a 10 bps guard"
    );

    let mut far = dense_bids.clone();
    far[150] = lv(&format!("{:.2}", 1000.0 - 1.50), "99");
    match audit(&book, &far, &dense_asks, policy) {
        AuditOutcome::Mismatch { findings, .. } => {
            assert_eq!(findings[0].price, "998.50".parse().unwrap());
        }
        other => panic!("a difference 15 bps out went unnoticed: {other:?}"),
    }
}

#[test]
fn the_guard_edge_is_anchored_on_our_own_touch() {
    let edge = guard_edge("1000".parse().unwrap(), Side::Bid, 10);
    assert_eq!(edge, "999".parse().unwrap());
    let edge = guard_edge("1000".parse().unwrap(), Side::Ask, 10);
    assert_eq!(edge, "1001".parse().unwrap());
}

#[test]
fn a_level_we_hold_that_the_venue_does_not_is_a_mismatch() {
    let (bids, asks) = ladder(10);
    let book = book_of(&bids, &asks);

    let theirs: Vec<Level> = bids
        .iter()
        .copied()
        .filter(|l| l.price != "996".parse().unwrap())
        .collect();

    match audit(&book, &theirs, &asks, policy()) {
        AuditOutcome::Mismatch { findings, .. } => {
            assert_eq!(findings[0].price, "996".parse().unwrap());
            assert!(findings[0].ours.is_some());
            assert!(
                findings[0].theirs.is_none(),
                "we should hold a phantom level"
            );
        }
        other => panic!("expected a mismatch, got {other:?}"),
    }
}

#[test]
fn comparison_is_by_price_so_one_extra_level_is_one_finding() {
    let (bids, asks) = ladder(10);
    let book = book_of(&bids, &asks);

    let mut theirs = bids.clone();
    theirs.insert(4, lv("996.5", "2"));

    let outcome = audit(&book, &theirs, &asks, policy());
    assert!(outcome.is_mismatch());

    let edge = guard_edge("1000".parse().unwrap(), Side::Bid, 20);
    let ours: Vec<Level> = book
        .top_levels(Side::Bid, usize::MAX)
        .into_iter()
        .filter(|l| l.price <= edge)
        .collect();
    let t: Vec<Level> = theirs.iter().copied().filter(|l| l.price <= edge).collect();
    let lo = {
        let (a, b) = (ours[ours.len() - 1].price, t[t.len() - 1].price);
        if a < b { b } else { a }
    };
    let hi = {
        let (a, b) = (ours[0].price, t[0].price);
        if a < b { a } else { b }
    };
    let mut prices: Vec<Price> = Vec::new();
    for l in ours.iter().chain(t.iter()) {
        if lo <= l.price && l.price <= hi && !prices.contains(&l.price) {
            prices.push(l.price);
        }
    }
    let held = |side: &[Level], p: &Price| side.iter().find(|l| l.price == *p).map(|l| l.qty);
    let disagreements = prices
        .iter()
        .filter(|p| held(&ours, p) != held(&t, p))
        .count();
    assert_eq!(
        disagreements, 1,
        "an inserted level misaligned the comparison"
    );
}

#[test]
fn a_book_too_shallow_to_reach_past_the_guard_is_inconclusive() {
    let (bids, asks) = ladder(2);
    let book = book_of(&bids, &asks);
    assert_eq!(
        audit(&book, &bids, &asks, policy()),
        AuditOutcome::Inconclusive
    );
}

#[test]
fn a_shallower_venue_response_compares_only_the_overlap() {
    let (bids, asks) = ladder(10);
    let book = book_of(&bids, &asks);

    let short_bids: Vec<Level> = bids.iter().copied().take(6).collect();
    let short_asks: Vec<Level> = asks.iter().copied().take(6).collect();

    let outcome = audit(&book, &short_bids, &short_asks, policy());
    assert!(
        matches!(outcome, AuditOutcome::Match { .. }),
        "a shallower response read as a disagreement: {outcome:?}"
    );
}

fn mismatch_at(prices: &[&str]) -> AuditOutcome {
    AuditOutcome::Mismatch {
        findings: prices
            .iter()
            .map(|p| AuditFinding {
                side: Side::Bid,
                price: p.parse().unwrap(),
                ours: Some("1".parse().unwrap()),
                theirs: Some("7".parse().unwrap()),
            })
            .collect(),
        compared: 400,
    }
}

#[test]
fn the_same_price_wrong_twice_running_is_what_desyncs_a_book() {
    let mut trail = AuditTrail::default();
    assert_eq!(
        trail.observe(&mismatch_at(&["996"]), policy()),
        None,
        "acted on a single observation"
    );
    match trail.observe(&mismatch_at(&["996", "997"]), policy()) {
        Some(DesyncReason::AuditMismatch { price, consecutive }) => {
            assert_eq!(price, "996".parse().unwrap());
            assert_eq!(consecutive, 2);
        }
        other => panic!("persistent drift at one price went unreported: {other:?}"),
    }
}

#[test]
fn disagreements_that_move_around_never_desync_anything() {
    let mut trail = AuditTrail::default();
    for prices in [
        &["996"][..],
        &["1002"][..],
        &["994", "993"][..],
        &["1010"][..],
        &["991"][..],
        &["1004"][..],
    ] {
        assert_eq!(
            trail.observe(&mismatch_at(prices), policy()),
            None,
            "churn at {prices:?} was mistaken for drift"
        );
    }
    assert_eq!(trail.mismatches, 6, "every finding is still counted");
    assert_eq!(
        trail.suspect_prices().len(),
        1,
        "only the newest observation should be retained"
    );
}

#[test]
fn one_persistent_price_is_found_underneath_moving_noise() {
    let mut trail = AuditTrail::default();
    assert_eq!(
        trail.observe(&mismatch_at(&["996", "1002"]), policy()),
        None
    );
    match trail.observe(&mismatch_at(&["996", "1011"]), policy()) {
        Some(DesyncReason::AuditMismatch { price, .. }) => {
            assert_eq!(price, "996".parse().unwrap(), "the wrong price was blamed");
        }
        other => panic!("a persistent price hidden under churn was missed: {other:?}"),
    }
}

#[test]
fn a_clean_audit_clears_the_streak() {
    let mut trail = AuditTrail::default();
    assert_eq!(trail.observe(&mismatch_at(&["996"]), policy()), None);
    assert_eq!(
        trail.observe(&AuditOutcome::Match { compared: 400 }, policy()),
        None
    );
    assert_eq!(trail.consecutive(), 0);
    assert_eq!(trail.suspect_prices().len(), 0);
    assert_eq!(
        trail.observe(&mismatch_at(&["996"]), policy()),
        None,
        "a clean audit in between must break the chain"
    );
    assert_eq!(trail.audits, 3);
    assert_eq!(trail.mismatches, 2);
}

#[test]
fn an_inconclusive_audit_does_not_launder_a_streak() {
    let mut trail = AuditTrail::default();
    assert_eq!(trail.observe(&mismatch_at(&["1005"]), policy()), None);
    assert_eq!(trail.observe(&AuditOutcome::Inconclusive, policy()), None);
    assert!(
        trail.observe(&mismatch_at(&["1005"]), policy()).is_some(),
        "an inconclusive reading cleared evidence it had no bearing on"
    );
    assert_eq!(
        trail.mismatches, 2,
        "an inconclusive audit must not count as a mismatch"
    );
}

#[test]
fn a_reconnect_forgets_the_evidence() {
    let mut trail = AuditTrail::default();
    trail.observe(&mismatch_at(&["996"]), policy());
    trail.reset();
    assert_eq!(trail.consecutive(), 0);
    assert_eq!(
        trail.observe(&mismatch_at(&["996"]), policy()),
        None,
        "a fresh book was desynced by its predecessor's evidence"
    );
}

#[test]
fn the_total_form_agrees_with_the_partial_one() {
    let (bids, asks) = ladder(10);
    let book = book_of(&bids, &asks);
    let mut theirs = bids.clone();
    theirs[4] = lv("996", "7");
    assert_eq!(
        try_audit(&book, &theirs, &asks, policy()),
        Ok(audit(&book, &theirs, &asks, policy()))
    );
}

#[test]
fn a_price_off_the_end_of_the_range_is_an_overflow_not_a_panic() {
    let top = "79228162514264337593543950335";
    let bids = vec![lv("1", "1")];
    let asks = vec![lv(top, "1")];
    let book = book_of(&bids, &asks);
    assert!(try_audit(&book, &bids, &asks, policy()).is_err());
}
