//! Checking a built book against a snapshot the venue served.
//!
//! A fetched snapshot describes the venue's book at one instant and is compared
//! with a book that has moved on since, so a naive comparison would disagree
//! almost every time. Two properties make the check sound anyway. Levels within
//! a guard band of the touch, counted in basis points of price and not in
//! levels, are left out: that is where the fetch races the stream. And a book
//! is distrusted only when the same price is wrong in audit after audit: noise
//! moves, damage does not.

use vstd::prelude::*;

use crate::book;
use crate::book::{Book, DesyncReason, Overflow};
use crate::decimal;
use crate::decimal::{Decimal, Parts};
use crate::event::{Level, Side};
use crate::ladder;
use crate::price::{Price, Qty};

verus! {

/// How strict an audit is, and how much evidence it needs before it acts.
#[derive(Clone, Copy, Debug, PartialEq, Eq, Structural)]
pub struct AuditPolicy {
    /// Ignore levels within this many basis points of the touch.
    pub guard_bps: u32,
    /// Cap on levels compared per side, counted from the guard outwards.
    pub max_levels: usize,
    /// How many audits in a row must find the same price wrong before the book
    /// is declared untrustworthy. `1` acts on a single finding, which is not
    /// evidence.
    pub consecutive_before_desync: u32,
}

impl Default for AuditPolicy {
    fn default() -> (p: AuditPolicy)
        ensures
            p.guard_bps == 10,
            p.max_levels == 500,
            p.consecutive_before_desync == 2,
    {
        AuditPolicy { guard_bps: 10, max_levels: 500, consecutive_before_desync: 2 }
    }
}

/// One concrete disagreement, named precisely enough to debug from a log line.
#[derive(Clone, Copy, Debug, PartialEq, Eq)]
pub struct AuditFinding {
    pub side: Side,
    pub price: Price,
    /// What the book holds at that price, if anything.
    pub ours: Option<Qty>,
    /// What the venue's snapshot holds, if anything.
    pub theirs: Option<Qty>,
}

/// How many disagreeing prices one audit will carry forward.
pub const MAX_FINDINGS: usize = 64;

/// What one comparison concluded.
#[derive(Debug, PartialEq, Eq)]
pub enum AuditOutcome {
    /// Nothing comparable, which is evidence of nothing.
    Inconclusive,
    /// Every compared level agreed.
    Match { compared: usize },
    /// Some levels disagreed: all of them, up to [`MAX_FINDINGS`].
    Mismatch { findings: Vec<AuditFinding>, compared: usize },
}

impl Clone for AuditOutcome {
    fn clone(&self) -> (o: AuditOutcome)
        ensures
            match (*self, o) {
                (AuditOutcome::Inconclusive, AuditOutcome::Inconclusive) => true,
                (AuditOutcome::Match { compared: a }, AuditOutcome::Match { compared: b }) => a
                    == b,
                (
                    AuditOutcome::Mismatch { findings: f, compared: a },
                    AuditOutcome::Mismatch { findings: g, compared: b },
                ) => f@ == g@ && a == b,
                _ => false,
            },
    {
        match self {
            AuditOutcome::Inconclusive => AuditOutcome::Inconclusive,
            AuditOutcome::Match { compared } => AuditOutcome::Match { compared: *compared },
            AuditOutcome::Mismatch { findings, compared } => {
                let copies = findings.clone();
                assert(copies@ =~= findings@);
                AuditOutcome::Mismatch { findings: copies, compared: *compared }
            },
        }
    }
}

impl AuditOutcome {
    /// The disagreements carried.
    pub open spec fn findings(self) -> Seq<AuditFinding> {
        match self {
            AuditOutcome::Mismatch { findings, compared: _ } => findings@,
            _ => Seq::empty(),
        }
    }

    /// Whether a disagreement at the price is carried.
    pub open spec fn blames(self, at: int) -> bool {
        exists|i: int|
            0 <= i < self.findings().len() && #[trigger] self.findings()[i].price.units() == at
    }

    pub fn is_mismatch(&self) -> (b: bool)
        ensures
            b == (*self is Mismatch),
    {
        match self {
            AuditOutcome::Mismatch { .. } => true,
            _ => false,
        }
    }

    /// How many levels the comparison actually looked at.
    pub fn compared(&self) -> (n: usize)
        ensures
            n == (match *self {
                AuditOutcome::Inconclusive => 0,
                AuditOutcome::Match { compared } => compared,
                AuditOutcome::Mismatch { findings: _, compared } => compared,
            }),
    {
        match self {
            AuditOutcome::Inconclusive => 0,
            AuditOutcome::Match { compared } => *compared,
            AuditOutcome::Mismatch { compared, .. } => *compared,
        }
    }

    /// The disagreeing prices, ascending, each once.
    fn prices(&self) -> (prices: Vec<Price>)
        ensures
            rising(prices@),
            forall|at: int| has_price(prices@, at) <==> self.blames(at),
    {
        let mut out: Vec<Price> = Vec::new();
        match self {
            AuditOutcome::Mismatch { findings, .. } => {
                let mut i: usize = 0;
                while i < findings.len()
                    invariant
                        i <= findings@.len(),
                        rising(out@),
                        forall|at: int|
                            #[trigger] has_price(out@, at) <==> exists|k: int|
                                0 <= k < i && #[trigger] findings@[k].price.units() == at,
                    decreases findings@.len() - i,
                {
                    let price = findings[i].price;
                    let ghost before = out@;
                    add_price(&mut out, price);
                    assert forall|at: int| #[trigger] has_price(out@, at) <==> exists|k: int|
                        0 <= k < i + 1 && #[trigger] findings@[k].price.units() == at by {
                        if has_price(out@, at) {
                            if has_price(before, at) {
                                let k = choose|k: int|
                                    0 <= k < i && #[trigger] findings@[k].price.units() == at;
                                assert(0 <= k < i + 1 && findings@[k].price.units() == at);
                            } else {
                                assert(findings@[i as int].price.units() == at);
                            }
                        }
                        if exists|k: int|
                            0 <= k < i + 1 && #[trigger] findings@[k].price.units() == at {
                            let k = choose|k: int|
                                0 <= k < i + 1 && #[trigger] findings@[k].price.units() == at;
                            if k < i {
                                assert(has_price(before, at));
                            }
                        }
                    }
                    i += 1;
                }
                assert(self.findings() == findings@);
            },
            _ => {},
        }
        out
    }
}

/// Whether prices strictly increase.
pub open spec fn rising(s: Seq<Price>) -> bool {
    forall|i: int, j: int| 0 <= i < j < s.len() ==> #[trigger] s[i].units() < #[trigger] s[j].units()
}

/// Whether some price has the number.
pub open spec fn has_price(s: Seq<Price>, at: int) -> bool {
    exists|i: int| 0 <= i < s.len() && #[trigger] s[i].units() == at
}

/// Adds a price to rising prices, unless it is there.
fn add_price(prices: &mut Vec<Price>, price: Price)
    requires
        rising(old(prices)@),
    ensures
        rising(final(prices)@),
        forall|at: int|
            #[trigger] has_price(final(prices)@, at) <==> has_price(old(prices)@, at) || at
                == price.units(),
{
    let ghost before = prices@;
    let mut i: usize = 0;
    while i < prices.len() && prices[i].below(&price)
        invariant
            i <= prices@.len(),
            prices@ == before,
            forall|k: int| 0 <= k < i ==> (#[trigger] prices@[k]).units() < price.units(),
        decreases prices@.len() - i,
    {
        i += 1;
    }
    if i < prices.len() && prices[i].same(&price) {
        assert(has_price(before, price.units())) by {
            assert(before[i as int].units() == price.units());
        }
    } else {
        prices.insert(i, price);
        proof {
            let after = prices@;
            assert(after == before.insert(i as int, price));
            assert forall|a: int, b: int| 0 <= a < b < after.len() implies #[trigger] after[a].units()
                < #[trigger] after[b].units() by {
                let pa = if a < i { a } else { a - 1 };
                let pb = if b < i { b } else { b - 1 };
                if a == i {
                    assert(after[b] == before[pb]);
                    if i < pb {
                        assert(before[i as int].units() < before[pb].units());
                    }
                } else if b == i {
                    assert(after[a] == before[a]);
                } else {
                    assert(before[pa].units() < before[pb].units());
                }
            }
            assert forall|at: int| #[trigger] has_price(after, at) <==> has_price(before, at) || at
                == price.units() by {
                if has_price(after, at) {
                    let k = choose|k: int| 0 <= k < after.len() && #[trigger] after[k].units() == at;
                    if k != i {
                        let p = if k < i { k } else { k - 1 };
                        assert(after[k] == before[p]);
                        assert(before[p].units() == at);
                    }
                }
                if has_price(before, at) {
                    let p = choose|k: int| 0 <= k < before.len() && #[trigger] before[k].units()
                        == at;
                    let k = if p < i { p } else { p + 1 };
                    assert(after[k] == before[p]);
                    assert(after[k].units() == at);
                }
                if at == price.units() {
                    assert(after[i as int].units() == at);
                }
            }
        }
    }
}

/// Whether rising prices hold the number.
fn contains_price(prices: &Vec<Price>, price: &Price) -> (b: bool)
    ensures
        b == has_price(prices@, price.units()),
{
    let mut i: usize = 0;
    while i < prices.len()
        invariant
            i <= prices@.len(),
            forall|k: int| 0 <= k < i ==> (#[trigger] prices@[k]).units() != price.units(),
        decreases prices@.len() - i,
    {
        if prices[i].same(price) {
            assert(prices@[i as int].units() == price.units());
            return true;
        }
        i += 1;
    }
    false
}

/// How far the guard band reaches from a best price.
pub open spec fn guard_width(best: Parts, guard_bps: u32) -> Option<Parts> {
    match decimal::decimal_product(best, decimal::whole(guard_bps as int)) {
        Some(scaled) => decimal::decimal_quotient(scaled, decimal::whole(10_000)),
        None => None,
    }
}

/// The price at which the guard band ends, on one side.
pub open spec fn guard_end(best: Parts, side: Side, guard_bps: u32) -> Option<Parts> {
    match guard_width(best, guard_bps) {
        Some(width) => match side {
            Side::Bid => decimal::decimal_difference(best, width),
            Side::Ask => decimal::decimal_sum(best, width),
        },
        None => None,
    }
}

/// The price at which the guard band ends, on one side, where it can be held.
/// Anchored on the book's own best level, so that both windows are cut at the
/// same price.
fn checked_guard_edge(best: Price, side: Side, guard_bps: u32) -> (edge: Option<Price>)
    ensures
        edge is Some <==> guard_end(best@, side, guard_bps) is Some,
        edge matches Some(p) ==> Some(p@) == guard_end(best@, side, guard_bps),
{
    let best = best.as_decimal();
    let scaled = match decimal::checked_mul(&best, &Decimal::from_u64(guard_bps as u64)) {
        Some(scaled) => scaled,
        None => return None,
    };
    let width = match decimal::checked_div(&scaled, &Decimal::from_u64(10_000)) {
        Some(width) => width,
        None => return None,
    };
    let edge = match side {
        Side::Bid => decimal::checked_sub(&best, &width),
        Side::Ask => decimal::checked_add(&best, &width),
    };
    match edge {
        Some(edge) => Some(Price::from_decimal(edge)),
        None => None,
    }
}

/// The price at which the guard band ends, on one side.
pub fn guard_edge(best: Price, side: Side, guard_bps: u32) -> (edge: Price)
    requires
        guard_end(best@, side, guard_bps) is Some,
    ensures
        Some(edge@) == guard_end(best@, side, guard_bps),
{
    match checked_guard_edge(best, side, guard_bps) {
        Some(edge) => edge,
        None => best,
    }
}

/// [`guard_edge`], or an error where it is too large to hold.
pub fn try_guard_edge(best: Price, side: Side, guard_bps: u32) -> (edge: Result<Price, Overflow>)
    ensures
        edge is Ok <==> guard_end(best@, side, guard_bps) is Some,
        edge matches Ok(p) ==> Some(p@) == guard_end(best@, side, guard_bps),
{
    if checked_guard_edge(best, side, guard_bps).is_none() {
        return Err(Overflow);
    }
    Ok(guard_edge(best, side, guard_bps))
}

/// Whether a price is at or past the end of the guard band.
pub open spec fn past(side: Side, at: int, edge: int) -> bool {
    match side {
        Side::Bid => at <= edge,
        Side::Ask => at >= edge,
    }
}

/// The levels at or past the end of the guard band, in order.
pub open spec fn past_edge(levels: Seq<Level>, side: Side, edge: int) -> Seq<Level>
    decreases levels.len(),
{
    if levels.len() == 0 {
        Seq::empty()
    } else if past(side, levels.last().price.units(), edge) {
        past_edge(levels.drop_last(), side, edge).push(levels.last())
    } else {
        past_edge(levels.drop_last(), side, edge)
    }
}

/// The levels of some quantity, in order.
pub open spec fn standing(levels: Seq<Level>) -> Seq<Level>
    decreases levels.len(),
{
    if levels.len() == 0 {
        Seq::empty()
    } else if levels.last().qty.deletes() {
        standing(levels.drop_last())
    } else {
        standing(levels.drop_last()).push(levels.last())
    }
}

/// Whether one level is strictly better than another.
pub open spec fn better(side: Side, a: Level, b: Level) -> bool {
    match side {
        Side::Bid => a.price.units() > b.price.units(),
        Side::Ask => a.price.units() < b.price.units(),
    }
}

/// A level put into ranked levels, behind those it is not better than.
pub open spec fn ranked_with(levels: Seq<Level>, side: Side, l: Level) -> Seq<Level>
    decreases levels.len(),
{
    if levels.len() == 0 || !better(side, l, levels.last()) {
        levels.push(l)
    } else {
        ranked_with(levels.drop_last(), side, l).push(levels.last())
    }
}

/// The levels best first; levels of one price keep their order.
pub open spec fn ranked(levels: Seq<Level>, side: Side) -> Seq<Level>
    decreases levels.len(),
{
    if levels.len() == 0 {
        Seq::empty()
    } else {
        ranked_with(ranked(levels.drop_last(), side), side, levels.last())
    }
}

/// The first `n` items, or all.
pub open spec fn first_n<A>(s: Seq<A>, n: nat) -> Seq<A> {
    if s.len() <= n {
        s
    } else {
        s.take(n as int)
    }
}

/// Levels by price, the last of one price standing.
pub open spec fn window(levels: Seq<Level>) -> Map<int, Level>
    decreases levels.len(),
{
    if levels.len() == 0 {
        Map::empty()
    } else {
        window(levels.drop_last()).insert(levels.last().price.units(), levels.last())
    }
}

/// What a book's side contributes to a comparison.
pub open spec fn our_window(held: Seq<Level>, side: Side, edge: int, max: nat) -> Map<int, Level> {
    window(first_n(past_edge(book::best_first(held, side, held.len()), side, edge), max))
}

/// What a venue's listing contributes to a comparison.
pub open spec fn their_window(listing: Seq<Level>, side: Side, edge: int, max: nat) -> Map<
    int,
    Level,
> {
    window(first_n(past_edge(ranked(standing(listing), side), side, edge), max))
}

/// One price, and what each of two windows holds there.
#[derive(Clone, Copy, Debug)]
pub struct Comparison {
    pub price: Price,
    pub ours: Option<Qty>,
    pub theirs: Option<Qty>,
}

/// The quantity held at a price.
pub open spec fn qty_at(m: Map<int, Level>, at: int) -> Option<Qty> {
    if m.contains_key(at) {
        Some(m[at].qty)
    } else {
        None
    }
}

/// Whether the comparisons are of every price between `lo` and `hi` that either
/// window holds, ascending.
pub open spec fn compares(
    pairs: Seq<Comparison>,
    ours: Map<int, Level>,
    theirs: Map<int, Level>,
    lo: int,
    hi: int,
) -> bool {
    &&& forall|i: int, j: int|
        0 <= i < j < pairs.len() ==> #[trigger] pairs[i].price.units()
            < #[trigger] pairs[j].price.units()
    &&& forall|i: int| 0 <= i < pairs.len() ==> compares_at(#[trigger] pairs[i], ours, theirs, lo, hi)
    &&& forall|at: int|
        lo <= at <= hi && (ours.contains_key(at) || theirs.contains_key(at))
            ==> #[trigger] compared_at(pairs, at)
}

/// Whether a comparison says what the windows hold at its price.
pub open spec fn compares_at(
    pair: Comparison,
    ours: Map<int, Level>,
    theirs: Map<int, Level>,
    lo: int,
    hi: int,
) -> bool {
    let at = pair.price.units();
    &&& lo <= at <= hi
    &&& ours.contains_key(at) || theirs.contains_key(at)
    &&& pair.ours == qty_at(ours, at)
    &&& pair.theirs == qty_at(theirs, at)
    &&& pair.price == (if theirs.contains_key(at) {
        theirs[at].price
    } else {
        ours[at].price
    })
}

/// Whether some comparison is of the price.
pub open spec fn compared_at(pairs: Seq<Comparison>, at: int) -> bool {
    exists|i: int| 0 <= i < pairs.len() && #[trigger] pairs[i].price.units() == at
}

/// Whether two held quantities are different.
pub open spec fn differs(pair: Comparison) -> bool {
    match (pair.ours, pair.theirs) {
        (Some(a), Some(b)) => a.units() != b.units(),
        (None, None) => false,
        _ => true,
    }
}

/// The comparisons that disagree, in order.
pub open spec fn found(pairs: Seq<Comparison>, side: Side) -> Seq<AuditFinding>
    decreases pairs.len(),
{
    if pairs.len() == 0 {
        Seq::empty()
    } else if differs(pairs.last()) {
        let p = pairs.last();
        found(pairs.drop_last(), side).push(
            AuditFinding { side, price: p.price, ours: p.ours, theirs: p.theirs },
        )
    } else {
        found(pairs.drop_last(), side)
    }
}

/// The lower end of what two ladders both cover.
pub open spec fn overlap_low(ours: Seq<Level>, theirs: Seq<Level>) -> int {
    if ours[0].price.units() < theirs[0].price.units() {
        theirs[0].price.units()
    } else {
        ours[0].price.units()
    }
}

/// The upper end of what two ladders both cover.
pub open spec fn overlap_high(ours: Seq<Level>, theirs: Seq<Level>) -> int {
    if ours.last().price.units() < theirs.last().price.units() {
        ours.last().price.units()
    } else {
        theirs.last().price.units()
    }
}

/// Whether the comparisons are those of two windows over the prices both
/// cover; none where a window is empty.
pub open spec fn compares_windows(
    pairs: Seq<Comparison>,
    ours: Map<int, Level>,
    theirs: Map<int, Level>,
) -> bool {
    let o = ladder::ladder_of(ours);
    let t = ladder::ladder_of(theirs);
    if o.len() == 0 || t.len() == 0 {
        pairs.len() == 0
    } else {
        compares(pairs, ours, theirs, overlap_low(o, t), overlap_high(o, t))
    }
}

/// The best of a side's ascending levels.
pub open spec fn best_of(held: Seq<Level>, side: Side) -> Option<Level> {
    match side {
        Side::Bid => book::top_bid(held),
        Side::Ask => book::top_ask(held),
    }
}

/// Whether the comparisons are those of a book's side with a venue's listing:
/// none where the book has nothing to anchor the guard on.
pub open spec fn compares_side(
    pairs: Seq<Comparison>,
    held: Seq<Level>,
    side: Side,
    listing: Seq<Level>,
    policy: AuditPolicy,
) -> bool {
    match best_of(held, side) {
        None => pairs.len() == 0,
        Some(best) => {
            let edge = decimal::units(guard_end(best.price@, side, policy.guard_bps)->0);
            compares_windows(
                pairs,
                our_window(held, side, edge, policy.max_levels as nat),
                their_window(listing, side, edge, policy.max_levels as nat),
            )
        },
    }
}

/// Whether a side's guard edge can be held.
pub open spec fn guard_fits(held: Seq<Level>, side: Side, policy: AuditPolicy) -> bool {
    best_of(held, side) matches Some(best) ==> guard_end(best.price@, side, policy.guard_bps)
        is Some
}

/// What an audit of two sides' comparisons concludes.
pub open spec fn concludes(
    outcome: AuditOutcome,
    bids: Seq<Comparison>,
    asks: Seq<Comparison>,
) -> bool {
    let findings = first_n(
        found(bids, Side::Bid) + found(asks, Side::Ask),
        MAX_FINDINGS as nat,
    );
    let compared = bids.len() + asks.len();
    match outcome {
        AuditOutcome::Mismatch { findings: f, compared: n } => findings.len() > 0 && f@ == findings
            && n == compared,
        AuditOutcome::Inconclusive => findings.len() == 0 && compared == 0,
        AuditOutcome::Match { compared: n } => findings.len() == 0 && compared > 0 && n == compared,
    }
}

/// Whether an outcome is that of auditing the two sides of a book.
pub open spec fn audited(
    outcome: AuditOutcome,
    bids: Seq<Level>,
    asks: Seq<Level>,
    snapshot_bids: Seq<Level>,
    snapshot_asks: Seq<Level>,
    policy: AuditPolicy,
) -> bool {
    exists|b: Seq<Comparison>, a: Seq<Comparison>| #[trigger]
        concludes(outcome, b, a) && compares_side(b, bids, Side::Bid, snapshot_bids, policy)
            && compares_side(a, asks, Side::Ask, snapshot_asks, policy)
}

/// Levels of some quantity at or past the guard, ranked, capped and keyed by
/// price.
fn window_of(levels: &Vec<Level>, side: Side, edge: &Price, max: usize) -> (w: Vec<Level>)
    ensures
        ladder::ascending(w@),
        ladder::by_price(w@) == window(
            first_n(past_edge(levels@, side, edge.units()), max as nat),
        ),
{
    let mut kept: Vec<Level> = Vec::new();
    let mut i: usize = 0;
    while i < levels.len()
        invariant
            i <= levels@.len(),
            kept@ == past_edge(levels@.take(i as int), side, edge.units()),
        decreases levels@.len() - i,
    {
        let level = levels[i];
        let outside = match side {
            Side::Bid => !edge.below(&level.price),
            Side::Ask => !level.price.below(edge),
        };
        if outside {
            kept.push(level);
        }
        i += 1;
        assert(levels@.take(i as int).drop_last() =~= levels@.take(i - 1));
    }
    assert(levels@.take(levels@.len() as int) =~= levels@);
    let ghost all = kept@;
    kept.truncate(max);
    assert(kept@ =~= first_n(all, max as nat));
    let mut w: Vec<Level> = Vec::new();
    assert(ladder::by_price(w@) =~= Map::empty());
    let mut k: usize = 0;
    while k < kept.len()
        invariant
            k <= kept@.len(),
            ladder::ascending(w@),
            ladder::by_price(w@) == window(kept@.take(k as int)),
        decreases kept@.len() - k,
    {
        ladder::put_level(&mut w, kept[k]);
        k += 1;
        assert(kept@.take(k as int).drop_last() =~= kept@.take(k - 1));
    }
    assert(kept@.take(kept@.len() as int) =~= kept@);
    w
}

/// Where a level goes among ranked levels.
proof fn lemma_ranked_with(levels: Seq<Level>, side: Side, l: Level, i: int)
    requires
        0 <= i <= levels.len(),
        forall|k: int| i <= k < levels.len() ==> better(side, l, #[trigger] levels[k]),
        i > 0 ==> !better(side, l, levels[i - 1]),
    ensures
        ranked_with(levels, side, l) == levels.insert(i, l),
    decreases levels.len(),
{
    if i == levels.len() {
        assert(levels.insert(i, l) =~= levels.push(l));
    } else {
        assert(better(side, l, levels[levels.len() - 1]));
        lemma_ranked_with(levels.drop_last(), side, l, i);
        assert(levels.drop_last().insert(i, l).push(levels.last()) =~= levels.insert(i, l));
    }
}

/// Whether one level is strictly better than another.
fn is_better(side: Side, a: &Level, b: &Level) -> (yes: bool)
    ensures
        yes == better(side, *a, *b),
{
    match side {
        Side::Bid => b.price.below(&a.price),
        Side::Ask => a.price.below(&b.price),
    }
}

/// The levels of some quantity, best first.
fn ranked_listing(levels: &[Level], side: Side) -> (out: Vec<Level>)
    ensures
        out@ == ranked(standing(levels@), side),
{
    let mut out: Vec<Level> = Vec::new();
    let mut i: usize = 0;
    while i < levels.len()
        invariant
            i <= levels@.len(),
            out@ == ranked(standing(levels@.take(i as int)), side),
        decreases levels@.len() - i,
    {
        let level = levels[i];
        let ghost seen = levels@.take(i as int);
        assert(levels@.take(i + 1).drop_last() =~= seen);
        if !level.qty.is_delete() {
            let mut k: usize = out.len();
            while k > 0 && is_better(side, &level, &out[k - 1])
                invariant
                    k <= out@.len(),
                    forall|m: int| k <= m < out@.len() ==> better(side, level, #[trigger] out@[m]),
                decreases k,
            {
                k -= 1;
            }
            proof {
                lemma_ranked_with(out@, side, level, k as int);
                assert(standing(levels@.take(i + 1)).drop_last() =~= standing(seen));
            }
            out.insert(k, level);
        }
        i += 1;
    }
    assert(levels@.take(levels@.len() as int) =~= levels@);
    out
}

/// Compares two ladders over the prices both cover.
fn compare_windows(ours: &Vec<Level>, theirs: &Vec<Level>) -> (pairs: Vec<Comparison>)
    requires
        ladder::ascending(ours@),
        ladder::ascending(theirs@),
    ensures
        compares_windows(pairs@, ladder::by_price(ours@), ladder::by_price(theirs@)),
{
    proof {
        ladder::lemma_ladder_of(ours@);
        ladder::lemma_ladder_of(theirs@);
        ladder::lemma_by_price(ours@);
        ladder::lemma_by_price(theirs@);
    }
    let mut pairs: Vec<Comparison> = Vec::new();
    let n: usize = ours.len();
    let m: usize = theirs.len();
    if n == 0 || m == 0 {
        return pairs;
    }
    let lo = if ours[0].price.below(&theirs[0].price) {
        theirs[0].price
    } else {
        ours[0].price
    };
    let hi = if ours[n - 1].price.below(&theirs[m - 1].price) {
        ours[n - 1].price
    } else {
        theirs[m - 1].price
    };
    let ghost om = ladder::by_price(ours@);
    let ghost tm = ladder::by_price(theirs@);
    let mut i: usize = 0;
    let mut j: usize = 0;
    while i < n || j < m
        invariant
            n == ours@.len(),
            m == theirs@.len(),
            i <= n,
            j <= m,
            om == ladder::by_price(ours@),
            tm == ladder::by_price(theirs@),
            ladder::ascending(ours@),
            ladder::ascending(theirs@),
            forall|k: int|
                0 <= k < ours@.len() ==> om.contains_key((#[trigger] ours@[k]).price.units())
                    && om[ours@[k].price.units()] == ours@[k],
            forall|k: int|
                0 <= k < theirs@.len() ==> tm.contains_key((#[trigger] theirs@[k]).price.units())
                    && tm[theirs@[k].price.units()] == theirs@[k],
            forall|at: int| #[trigger]
                om.contains_key(at) ==> 0 <= ladder::place_of(ours@, at) < ours@.len()
                    && ours@[ladder::place_of(ours@, at)].price.units() == at,
            forall|at: int| #[trigger]
                tm.contains_key(at) ==> 0 <= ladder::place_of(theirs@, at) < theirs@.len()
                    && theirs@[ladder::place_of(theirs@, at)].price.units() == at,
            // What was compared is below what is left.
            forall|a: int, k: int|
                0 <= a < pairs@.len() && i <= k < n ==> #[trigger] pairs@[a].price.units()
                    < #[trigger] ours@[k].price.units(),
            forall|a: int, k: int|
                0 <= a < pairs@.len() && j <= k < m ==> #[trigger] pairs@[a].price.units()
                    < #[trigger] theirs@[k].price.units(),
            // What is past on one side is below what is left on the other.
            forall|a: int, k: int|
                0 <= a < i && j <= k < m ==> #[trigger] ours@[a].price.units()
                    < #[trigger] theirs@[k].price.units(),
            forall|a: int, k: int|
                0 <= a < j && i <= k < n ==> #[trigger] theirs@[a].price.units()
                    < #[trigger] ours@[k].price.units(),
            forall|a: int, b: int|
                0 <= a < b < pairs@.len() ==> #[trigger] pairs@[a].price.units()
                    < #[trigger] pairs@[b].price.units(),
            forall|a: int|
                0 <= a < pairs@.len() ==> compares_at(
                    #[trigger] pairs@[a],
                    om,
                    tm,
                    lo.units(),
                    hi.units(),
                ),
            forall|k: int|
                0 <= k < i && lo.units() <= (#[trigger] ours@[k]).price.units() <= hi.units()
                    ==> compared_at(pairs@, ours@[k].price.units()),
            forall|k: int|
                0 <= k < j && lo.units() <= (#[trigger] theirs@[k]).price.units() <= hi.units()
                    ==> compared_at(pairs@, theirs@[k].price.units()),
        decreases (n - i) + (m - j),
    {
        let ghost done = pairs@;
        let ghost i0 = i as int;
        let ghost j0 = j as int;
        let take_ours = j >= m || (i < n && !theirs[j].price.below(&ours[i].price));
        let take_theirs = i >= n || (j < m && !ours[i].price.below(&theirs[j].price));
        let pair = if take_ours && take_theirs {
            Comparison {
                price: theirs[j].price,
                ours: Some(ours[i].qty),
                theirs: Some(theirs[j].qty),
            }
        } else if take_ours {
            Comparison { price: ours[i].price, ours: Some(ours[i].qty), theirs: None }
        } else {
            Comparison { price: theirs[j].price, ours: None, theirs: Some(theirs[j].qty) }
        };
        let ghost at = pair.price.units();
        proof {
            if take_ours {
                assert(ours@[i0].price.units() == at);
                assert(om.contains_key(at) && om[at] == ours@[i0]);
            }
            if take_theirs {
                assert(theirs@[j0].price.units() == at);
                assert(tm.contains_key(at) && tm[at] == theirs@[j0]);
            }
            if !take_ours {
                assert(!om.contains_key(at)) by {
                    if om.contains_key(at) {
                        let k = ladder::place_of(ours@, at);
                        if k < i0 {
                            assert(ours@[k].price.units() < theirs@[j0].price.units());
                        } else if k > i0 {
                            assert(ours@[i0].price.units() < ours@[k].price.units());
                        }
                    }
                }
            }
            if !take_theirs {
                assert(!tm.contains_key(at)) by {
                    if tm.contains_key(at) {
                        let k = ladder::place_of(theirs@, at);
                        if k < j0 {
                            assert(theirs@[k].price.units() < ours@[i0].price.units());
                        } else if k > j0 {
                            assert(theirs@[j0].price.units() < theirs@[k].price.units());
                        }
                    }
                }
            }
            assert forall|k: int| i0 <= k < n && !(take_ours && k == i0) implies at
                < #[trigger] ours@[k].price.units() by {
                if i0 < k {
                    assert(ours@[i0].price.units() < ours@[k].price.units());
                }
            }
            assert forall|k: int| j0 <= k < m && !(take_theirs && k == j0) implies at
                < #[trigger] theirs@[k].price.units() by {
                if j0 < k {
                    assert(theirs@[j0].price.units() < theirs@[k].price.units());
                }
            }
            assert forall|a: int| 0 <= a < done.len() implies #[trigger] done[a].price.units()
                < at by {
                if take_ours {
                    assert(done[a].price.units() < ours@[i0].price.units());
                } else {
                    assert(done[a].price.units() < theirs@[j0].price.units());
                }
            }
        }
        if !pair.price.below(&lo) && !hi.below(&pair.price) {
            pairs.push(pair);
            assert(pairs@[done.len() as int].price.units() == at);
            assert(compared_at(pairs@, at));
        }
        if take_ours {
            i += 1;
        }
        if take_theirs {
            j += 1;
        }
        proof {
            assert forall|u: int| compared_at(done, u) implies compared_at(pairs@, u) by {
                let k = choose|k: int| 0 <= k < done.len() && #[trigger] done[k].price.units() == u;
                assert(pairs@[k].price.units() == u);
            }
            assert forall|k: int|
                0 <= k < i && lo.units() <= (#[trigger] ours@[k]).price.units()
                    <= hi.units() implies compared_at(pairs@, ours@[k].price.units()) by {
                if k < i0 {
                    assert(compared_at(done, ours@[k].price.units()));
                }
            }
            assert forall|k: int|
                0 <= k < j && lo.units() <= (#[trigger] theirs@[k]).price.units()
                    <= hi.units() implies compared_at(pairs@, theirs@[k].price.units()) by {
                if k < j0 {
                    assert(compared_at(done, theirs@[k].price.units()));
                }
            }
        }
    }
    assert forall|at: int|
        lo.units() <= at <= hi.units() && (om.contains_key(at) || tm.contains_key(
            at,
        )) implies #[trigger] compared_at(pairs@, at) by {
        if om.contains_key(at) {
            let k = ladder::place_of(ours@, at);
            assert(ours@[k].price.units() == at);
        } else {
            let k = ladder::place_of(theirs@, at);
            assert(theirs@[k].price.units() == at);
        }
    }
    pairs
}

/// Compares one side of a book with a venue's listing, if the guard edge can be
/// held.
fn compare_side(
    book: &Book,
    side: Side,
    listing: &[Level],
    policy: AuditPolicy,
) -> (pairs: Vec<Comparison>)
    requires
        guard_fits(held_side(*book, side), side, policy),
    ensures
        compares_side(pairs@, held_side(*book, side), side, listing@, policy),
{
    let best = match book.best(side) {
        Some(best) => best,
        None => return Vec::new(),
    };
    let edge = guard_edge(best.price, side, policy.guard_bps);
    let depth = book.depth();
    let count: usize = match side {
        Side::Bid => depth.0,
        Side::Ask => depth.1,
    };
    let levels = book.top_levels(side, count);
    let ours = window_of(&levels, side, &edge, policy.max_levels);
    let ranked_levels = ranked_listing(listing, side);
    let theirs = window_of(&ranked_levels, side, &edge, policy.max_levels);
    compare_windows(&ours, &theirs)
}

/// A book's levels on one side, ascending.
pub open spec fn held_side(book: Book, side: Side) -> Seq<Level> {
    match side {
        Side::Bid => book.bids(),
        Side::Ask => book.asks(),
    }
}

/// Appends the disagreements among comparisons.
fn collect_findings(findings: &mut Vec<AuditFinding>, pairs: &Vec<Comparison>, side: Side)
    ensures
        final(findings)@ == old(findings)@ + found(pairs@, side),
{
    let ghost before = findings@;
    let mut i: usize = 0;
    while i < pairs.len()
        invariant
            i <= pairs@.len(),
            findings@ == before + found(pairs@.take(i as int), side),
        decreases pairs@.len() - i,
    {
        let p = pairs[i];
        let different = match (p.ours, p.theirs) {
            (Some(a), Some(b)) => a != b,
            (None, None) => false,
            (_, _) => true,
        };
        if different {
            findings.push(
                AuditFinding { side, price: p.price, ours: p.ours, theirs: p.theirs },
            );
        }
        i += 1;
        assert(pairs@.take(i as int).drop_last() =~= pairs@.take(i - 1));
        assert(findings@ =~= before + found(pairs@.take(i as int), side));
    }
    assert(pairs@.take(pairs@.len() as int) =~= pairs@);
}

/// Compare a book against a venue-served snapshot under `policy`.
///
/// Comparison is by price, not by index: indexing would misalign the two
/// windows the moment one side holds a level the other does not.
pub fn audit(
    book: &Book,
    snapshot_bids: &[Level],
    snapshot_asks: &[Level],
    policy: AuditPolicy,
) -> (outcome: AuditOutcome)
    requires
        guard_fits(book.bids(), Side::Bid, policy),
        guard_fits(book.asks(), Side::Ask, policy),
    ensures
        audited(outcome, book.bids(), book.asks(), snapshot_bids@, snapshot_asks@, policy),
{
    let bids = compare_side(book, Side::Bid, snapshot_bids, policy);
    let asks = compare_side(book, Side::Ask, snapshot_asks, policy);
    let mut findings: Vec<AuditFinding> = Vec::new();
    collect_findings(&mut findings, &bids, Side::Bid);
    collect_findings(&mut findings, &asks, Side::Ask);
    proof {
        assert(findings@ =~= found(bids@, Side::Bid) + found(asks@, Side::Ask));
    }
    let ghost all = findings@;
    findings.truncate(MAX_FINDINGS);
    assert(findings@ =~= first_n(all, MAX_FINDINGS as nat));
    let ghost b = bids@;
    let ghost a = asks@;
    let mut every = bids;
    let mut rest = asks;
    every.append(&mut rest);
    let compared: usize = every.len();
    let outcome = if findings.len() > 0 {
        AuditOutcome::Mismatch { findings, compared }
    } else if compared == 0 {
        AuditOutcome::Inconclusive
    } else {
        AuditOutcome::Match { compared }
    };
    assert(concludes(outcome, b, a));
    outcome
}

/// [`audit`], or an error where a guard edge is too large to hold.
pub fn try_audit(
    book: &Book,
    snapshot_bids: &[Level],
    snapshot_asks: &[Level],
    policy: AuditPolicy,
) -> (outcome: Result<AuditOutcome, Overflow>)
    ensures
        outcome is Ok <==> guard_fits(book.bids(), Side::Bid, policy) && guard_fits(
            book.asks(),
            Side::Ask,
            policy,
        ),
        outcome matches Ok(o) ==> audited(
            o,
            book.bids(),
            book.asks(),
            snapshot_bids@,
            snapshot_asks@,
            policy,
        ),
{
    match book.best(Side::Bid) {
        Some(best) => {
            if checked_guard_edge(best.price, Side::Bid, policy.guard_bps).is_none() {
                return Err(Overflow);
            }
        },
        None => {},
    }
    match book.best(Side::Ask) {
        Some(best) => {
            if checked_guard_edge(best.price, Side::Ask, policy.guard_bps).is_none() {
                return Err(Overflow);
            }
        },
        None => {},
    }
    Ok(audit(book, snapshot_bids, snapshot_asks, policy))
}

/// Tracks consecutive findings so a single race cannot desync a book.
#[derive(Debug, PartialEq, Eq)]
pub struct AuditTrail {
    consecutive: u32,
    /// Prices that have disagreed on every audit of the current streak,
    /// ascending.
    suspect: Vec<Price>,
    /// Lifetime totals.
    pub audits: u64,
    pub mismatches: u64,
}

impl Clone for AuditTrail {
    fn clone(&self) -> (t: AuditTrail)
        ensures
            t.streak() == self.streak(),
            t.suspects() == self.suspects(),
            t.audits_seen() == self.audits_seen(),
            t.mismatches_seen() == self.mismatches_seen(),
    {
        let suspect = self.suspect.clone();
        assert(suspect@ =~= self.suspect@);
        AuditTrail {
            consecutive: self.consecutive,
            suspect,
            audits: self.audits,
            mismatches: self.mismatches,
        }
    }
}

impl Default for AuditTrail {
    fn default() -> (t: AuditTrail)
        ensures
            t.streak() == 0,
            t.suspects() == Seq::<Price>::empty(),
            t.audits_seen() == 0,
            t.mismatches_seen() == 0,
            t.wf(),
    {
        AuditTrail { consecutive: 0, suspect: Vec::new(), audits: 0, mismatches: 0 }
    }
}

impl AuditTrail {
    /// How many audits in a row have disagreed about one of the suspects.
    pub closed spec fn streak(self) -> nat {
        self.consecutive as nat
    }

    /// The prices wrong on every audit of the streak.
    pub closed spec fn suspects(self) -> Seq<Price> {
        self.suspect@
    }

    /// How many outcomes have been folded in.
    pub closed spec fn audits_seen(self) -> nat {
        self.audits as nat
    }

    /// How many of them were mismatches.
    pub closed spec fn mismatches_seen(self) -> nat {
        self.mismatches as nat
    }

    /// Suspects are ascending, each once.
    pub open spec fn wf(self) -> bool {
        rising(self.suspects())
    }

    /// Fold in one outcome, returning a desync reason if the evidence is now
    /// strong enough to distrust the book.
    ///
    /// An inconclusive audit neither resets the streak nor extends it: it is
    /// not a clean bill of health, and it is no evidence against the book. A
    /// mismatch extends the streak by the prices that were already suspect; if
    /// none was, it starts a new streak with its own prices.
    pub fn observe(&mut self, outcome: &AuditOutcome, policy: AuditPolicy) -> (r: Option<
        DesyncReason,
    >)
        requires
            old(self).wf(),
            old(self).audits_seen() < u64::MAX,
            old(self).mismatches_seen() < u64::MAX,
            old(self).streak() < u32::MAX,
        ensures
            observed(*old(self), *outcome, policy, *final(self), r),
    {
        self.audits = self.audits + 1;
        match outcome {
            AuditOutcome::Inconclusive => None,
            AuditOutcome::Match { .. } => {
                self.consecutive = 0;
                self.suspect = Vec::new();
                None
            },
            AuditOutcome::Mismatch { .. } => {
                self.mismatches = self.mismatches + 1;
                let now = outcome.prices();
                let ghost then = self.suspect@;
                let survivors = retained(&self.suspect, &now);
                proof {
                    if survivors@.len() > 0 {
                        assert(survivors@[0].units() == survivors@[0].units());
                        assert(has_price(survivors@, survivors@[0].units()));
                    }
                    assert(self.consecutive > 0 && survivors@.len() > 0 <==> extends(
                        *old(self),
                        *outcome,
                    )) by {
                        if extends(*old(self), *outcome) {
                            let at = choose|at: int| #[trigger]
                                has_price(then, at) && outcome.blames(at);
                            assert(has_price(survivors@, at));
                        }
                        if survivors@.len() > 0 {
                            assert(has_price(then, survivors@[0].units()));
                        }
                    }
                }
                if self.consecutive > 0 && survivors.len() > 0 {
                    self.suspect = survivors;
                    self.consecutive = self.consecutive + 1;
                } else {
                    self.suspect = now;
                    self.consecutive = 1;
                }
                if self.suspect.len() > 0 && self.consecutive >= policy.consecutive_before_desync {
                    Some(
                        DesyncReason::AuditMismatch {
                            price: self.suspect[0],
                            consecutive: self.consecutive,
                        },
                    )
                } else {
                    None
                }
            },
        }
    }

    /// Forget the streak. Called on reconnect: the book that disagreed no
    /// longer exists, so the evidence against it does not carry over.
    pub fn reset(&mut self)
        ensures
            final(self).wf(),
            final(self).streak() == 0,
            final(self).suspects().len() == 0,
            final(self).audits_seen() == old(self).audits_seen(),
            final(self).mismatches_seen() == old(self).mismatches_seen(),
    {
        self.consecutive = 0;
        self.suspect = Vec::new();
    }

    /// Prices currently wrong on every audit of the streak, ascending.
    pub fn suspect_prices(&self) -> (prices: Vec<Price>)
        ensures
            prices@ == self.suspects(),
    {
        let mut out: Vec<Price> = Vec::new();
        let mut i: usize = 0;
        while i < self.suspect.len()
            invariant
                i <= self.suspect@.len(),
                out@ == self.suspect@.take(i as int),
            decreases self.suspect@.len() - i,
        {
            out.push(self.suspect[i]);
            i += 1;
            assert(out@ =~= self.suspect@.take(i as int));
        }
        assert(self.suspect@.take(self.suspect@.len() as int) =~= self.suspect@);
        out
    }

    pub fn consecutive(&self) -> (n: u32)
        ensures
            n == self.streak(),
    {
        self.consecutive
    }
}

/// What folding in an outcome makes of a trail, and what it concludes.
pub open spec fn observed(
    before: AuditTrail,
    outcome: AuditOutcome,
    policy: AuditPolicy,
    after: AuditTrail,
    concluded: Option<DesyncReason>,
) -> bool {
    &&& after.wf()
    &&& after.audits_seen() == before.audits_seen() + 1
    &&& after.mismatches_seen() == before.mismatches_seen() + (if outcome is Mismatch {
        1nat
    } else {
        0
    })
    &&& outcome is Inconclusive ==> {
        &&& concluded is None
        &&& after.streak() == before.streak()
        &&& after.suspects() == before.suspects()
    }
    &&& outcome is Match ==> {
        &&& concluded is None
        &&& after.streak() == 0
        &&& after.suspects().len() == 0
    }
    &&& outcome is Mismatch ==> {
        &&& after.streak() == (if extends(before, outcome) {
            before.streak() + 1
        } else {
            1
        })
        &&& forall|at: int| #[trigger]
            has_price(after.suspects(), at) <==> outcome.blames(at) && (extends(before, outcome)
                ==> has_price(before.suspects(), at))
        &&& concluded is Some <==> after.suspects().len() > 0 && after.streak()
            >= policy.consecutive_before_desync
        &&& concluded matches Some(reason) ==> reason == (DesyncReason::AuditMismatch {
            price: after.suspects()[0],
            consecutive: after.streak() as u32,
        })
    }
}

/// A price that is wrong in two audits running, the first of a streak, desyncs
/// the book under a policy that asks for two.
pub proof fn law_same_price_twice_desyncs(
    fresh: AuditTrail,
    first: AuditOutcome,
    once: AuditTrail,
    r1: Option<DesyncReason>,
    second: AuditOutcome,
    twice: AuditTrail,
    r2: Option<DesyncReason>,
    policy: AuditPolicy,
    at: int,
)
    requires
        fresh.streak() == 0,
        policy.consecutive_before_desync == 2,
        observed(fresh, first, policy, once, r1),
        observed(once, second, policy, twice, r2),
        first is Mismatch && first.blames(at),
        second is Mismatch && second.blames(at),
    ensures
        r1 is None,
        r2 matches Some(DesyncReason::AuditMismatch { price, consecutive }) && consecutive == 2
            && first.blames(price.units()) && second.blames(price.units()),
{
    assert(has_price(once.suspects(), at));
    assert(extends(once, second));
    assert(has_price(twice.suspects(), at));
    let blamed = twice.suspects()[0];
    assert(twice.suspects()[0].units() == blamed.units());
    assert(has_price(twice.suspects(), blamed.units()));
    assert(has_price(once.suspects(), blamed.units()));
}

/// Disagreements that move around never desync anything, under a policy that
/// asks for more than one.
pub proof fn law_moving_disagreements_never_desync(
    before: AuditTrail,
    outcome: AuditOutcome,
    after: AuditTrail,
    concluded: Option<DesyncReason>,
    policy: AuditPolicy,
)
    requires
        policy.consecutive_before_desync >= 2,
        observed(before, outcome, policy, after, concluded),
        forall|at: int| #[trigger] has_price(before.suspects(), at) ==> !outcome.blames(at),
    ensures
        concluded is None,
{
}

/// An inconclusive audit launders nothing: what desyncs a book after a
/// mismatch desyncs it with inconclusive audits in between.
pub proof fn law_inconclusive_keeps_the_evidence(
    before: AuditTrail,
    between: AuditTrail,
    none: Option<DesyncReason>,
    outcome: AuditOutcome,
    policy: AuditPolicy,
)
    requires
        observed(before, AuditOutcome::Inconclusive, policy, between, none),
    ensures
        none is None,
        extends(before, outcome) == extends(between, outcome),
        between.streak() == before.streak(),
{
}

/// Whether a mismatch repeats a price that the streak already suspects.
pub open spec fn extends(trail: AuditTrail, outcome: AuditOutcome) -> bool {
    trail.streak() > 0 && exists|at: int| #[trigger]
        has_price(trail.suspects(), at) && outcome.blames(at)
}

/// The prices that are also among others.
fn retained(prices: &Vec<Price>, others: &Vec<Price>) -> (kept: Vec<Price>)
    requires
        rising(prices@),
    ensures
        rising(kept@),
        forall|at: int|
            #[trigger] has_price(kept@, at) <==> has_price(prices@, at) && has_price(others@, at),
{
    let mut kept: Vec<Price> = Vec::new();
    let mut i: usize = 0;
    while i < prices.len()
        invariant
            i <= prices@.len(),
            rising(prices@),
            rising(kept@),
            forall|a: int, k: int|
                0 <= a < kept@.len() && i <= k < prices@.len() ==> #[trigger] kept@[a].units()
                    < #[trigger] prices@[k].units(),
            forall|a: int|
                0 <= a < kept@.len() ==> has_price(prices@, (#[trigger] kept@[a]).units())
                    && has_price(others@, kept@[a].units()),
            forall|k: int|
                0 <= k < i && has_price(others@, (#[trigger] prices@[k]).units()) ==> has_price(
                    kept@,
                    prices@[k].units(),
                ),
        decreases prices@.len() - i,
    {
        let price = prices[i];
        let ghost before = kept@;
        assert(has_price(prices@, prices@[i as int].units()));
        if contains_price(others, &price) {
            kept.push(price);
            assert(kept@[before.len() as int].units() == price.units());
            assert(has_price(kept@, price.units()));
        }
        proof {
            assert forall|at: int| has_price(before, at) implies has_price(kept@, at) by {
                let k = choose|k: int| 0 <= k < before.len() && #[trigger] before[k].units() == at;
                assert(kept@[k].units() == at);
            }
            assert forall|a: int, k: int|
                0 <= a < kept@.len() && i + 1 <= k < prices@.len() implies #[trigger] kept@[a].units()
                < #[trigger] prices@[k].units() by {
                assert(prices@[i as int].units() < prices@[k].units());
            }
        }
        i += 1;
    }
    assert forall|at: int| #[trigger] has_price(kept@, at) <==> has_price(prices@, at) && has_price(
        others@,
        at,
    ) by {
        if has_price(kept@, at) {
            let a = choose|a: int| 0 <= a < kept@.len() && #[trigger] kept@[a].units() == at;
            assert(has_price(prices@, kept@[a].units()));
        }
        if has_price(prices@, at) && has_price(others@, at) {
            let k = choose|k: int| 0 <= k < prices@.len() && #[trigger] prices@[k].units() == at;
            assert(has_price(kept@, prices@[k].units()));
        }
    }
    kept
}

/// Where the guard band ends: a number of basis points below the best bid, or above
/// the best ask, where no digit is lost.
pub proof fn law_the_guard_reaches_its_basis_points(best: Parts, guard_bps: u32)
    requires
        decimal::multiplies_exactly(best, decimal::whole(guard_bps as int)),
        decimal::divides_exactly(
            decimal::decimal_product(best, decimal::whole(guard_bps as int))->0,
            decimal::whole(10_000),
        ),
    ensures
        guard_width(best, guard_bps) matches Some(width) && {
            &&& 10_000 * decimal::units(width) == guard_bps * decimal::units(best)
            &&& decimal::subtracts_exactly(best, width) ==> (guard_end(best, Side::Bid, guard_bps)
                matches Some(edge) && decimal::units(edge) == decimal::units(best)
                - decimal::units(width))
            &&& decimal::adds_exactly(best, width) ==> (guard_end(best, Side::Ask, guard_bps)
                matches Some(edge) && decimal::units(edge) == decimal::units(best)
                + decimal::units(width))
        },
{
    let p = decimal::pow10(decimal::MAX_SCALE as nat);
    let n = guard_bps as int;
    let scaled = decimal::decimal_product(best, decimal::whole(n))->0;
    let width = decimal::decimal_quotient(scaled, decimal::whole(10_000))->0;
    decimal::lemma_pow10_positive(decimal::MAX_SCALE as nat);
    decimal::lemma_units_of_whole(n);
    decimal::lemma_units_of_whole(10_000);
    let (u, s, w) = (decimal::units(best), decimal::units(scaled), decimal::units(width));
    assert(s == n * u) by (nonlinear_arith)
        requires
            s * p == u * (n * p),
            p >= 1,
    ;
    assert(10_000 * w == s) by (nonlinear_arith)
        requires
            w * (10_000 * p) == s * p,
            p >= 1,
    ;
}

/// Whether a window holds levels on both sides of a price, or the price itself.
pub open spec fn reaches(m: Map<int, Level>, at: int) -> bool {
    &&& exists|p: int| #[trigger] m.contains_key(p) && p <= at
    &&& exists|p: int| #[trigger] m.contains_key(p) && p >= at
}

/// Whether a price can be compared: both windows reach it, and one holds it.
pub open spec fn comparable(ours: Map<int, Level>, theirs: Map<int, Level>, at: int) -> bool {
    &&& reaches(ours, at)
    &&& reaches(theirs, at)
    &&& ours.contains_key(at) || theirs.contains_key(at)
}

/// Whether both windows hold the same quantity at a price.
pub open spec fn agrees(ours: Map<int, Level>, theirs: Map<int, Level>, at: int) -> bool {
    ours.contains_key(at) && theirs.contains_key(at) && ours[at].qty.units()
        == theirs[at].qty.units()
}

/// The prices that can be compared.
pub open spec fn comparable_prices(ours: Map<int, Level>, theirs: Map<int, Level>) -> Set<int> {
    Set::new(|at: int| comparable(ours, theirs, at))
}

/// The two windows of a side: empty where the book has nothing to anchor the guard
/// on.
pub open spec fn side_windows(
    held: Seq<Level>,
    side: Side,
    listing: Seq<Level>,
    policy: AuditPolicy,
) -> (Map<int, Level>, Map<int, Level>) {
    match best_of(held, side) {
        None => (Map::empty(), Map::empty()),
        Some(best) => {
            let edge = decimal::units(guard_end(best.price@, side, policy.guard_bps)->0);
            (
                our_window(held, side, edge, policy.max_levels as nat),
                their_window(listing, side, edge, policy.max_levels as nat),
            )
        },
    }
}

/// The levels of a window make a ladder.
proof fn lemma_window_ladder(levels: Seq<Level>) -> (s: Seq<Level>)
    ensures
        ladder::ascending(s),
        ladder::by_price(s) == window(levels),
    decreases levels.len(),
{
    if levels.len() == 0 {
        let s = Seq::<Level>::empty();
        assert(ladder::by_price(s) =~= window(levels));
        s
    } else {
        let t = lemma_window_ladder(levels.drop_last());
        ladder::lemma_put(t, levels.last())
    }
}

/// Comparisons of two windows are of exactly the prices that can be compared, each
/// once.
proof fn lemma_compared_prices(
    pairs: Seq<Comparison>,
    a: Seq<Level>,
    b: Seq<Level>,
)
    requires
        compares_windows(pairs, window(a), window(b)),
    ensures
        forall|at: int| #[trigger]
            comparable(window(a), window(b), at) <==> compared_at(pairs, at),
        forall|i: int|
            0 <= i < pairs.len() ==> {
                let at = (#[trigger] pairs[i]).price.units();
                &&& pairs[i].ours == qty_at(window(a), at)
                &&& pairs[i].theirs == qty_at(window(b), at)
                &&& differs(pairs[i]) <==> !agrees(window(a), window(b), at)
            },
        comparable_prices(window(a), window(b)).finite(),
        comparable_prices(window(a), window(b)).len() == pairs.len(),
{
    let (o, t) = (window(a), window(b));
    let os = lemma_window_ladder(a);
    let ts = lemma_window_ladder(b);
    ladder::lemma_ladder_of(os);
    ladder::lemma_ladder_of(ts);
    ladder::lemma_by_price(os);
    ladder::lemma_by_price(ts);
    if os.len() > 0 && ts.len() > 0 {
        let lo = overlap_low(os, ts);
        let hi = overlap_high(os, ts);
        assert forall|at: int| #[trigger] reaches(o, at) <==> os[0].price.units() <= at
            <= os.last().price.units() by {
            lemma_reaches(os, at);
        }
        assert forall|at: int| #[trigger] reaches(t, at) <==> ts[0].price.units() <= at
            <= ts.last().price.units() by {
            lemma_reaches(ts, at);
        }
        assert forall|at: int| #[trigger] comparable(o, t, at) <==> compared_at(pairs, at) by {
            if compared_at(pairs, at) {
                let i = choose|i: int| 0 <= i < pairs.len() && #[trigger] pairs[i].price.units()
                    == at;
                assert(compares_at(pairs[i], o, t, lo, hi));
            }
        }
        assert forall|i: int| 0 <= i < pairs.len() implies ({
            let at = (#[trigger] pairs[i]).price.units();
            &&& pairs[i].ours == qty_at(o, at)
            &&& pairs[i].theirs == qty_at(t, at)
            &&& differs(pairs[i]) <==> !agrees(o, t, at)
        }) by {
            assert(compares_at(pairs[i], o, t, lo, hi));
        }
    } else {
        assert forall|at: int| !(#[trigger] comparable(o, t, at)) by {
            if comparable(o, t, at) {
                let p = choose|p: int| #[trigger] o.contains_key(p) && p <= at;
                let q = choose|q: int| #[trigger] t.contains_key(q) && q <= at;
                assert(0 <= ladder::place_of(os, p) < os.len());
                assert(0 <= ladder::place_of(ts, q) < ts.len());
            }
        }
    }
    let prices = pairs.map_values(|p: Comparison| p.price.units());
    assert(prices.no_duplicates()) by {
        assert forall|i: int, j: int|
            0 <= i < prices.len() && 0 <= j < prices.len() && i != j implies prices[i]
            != prices[j] by {
            if i < j {
                assert(pairs[i].price.units() < pairs[j].price.units());
            } else {
                assert(pairs[j].price.units() < pairs[i].price.units());
            }
        }
    }
    prices.unique_seq_to_set();
    assert(comparable_prices(o, t) =~= prices.to_set()) by {
        assert forall|at: int| comparable_prices(o, t).contains(at) <==> prices.to_set().contains(
            at,
        ) by {
            if compared_at(pairs, at) {
                let i = choose|i: int| 0 <= i < pairs.len() && #[trigger] pairs[i].price.units()
                    == at;
                assert(prices[i] == at);
            }
            if prices.to_set().contains(at) {
                let i = choose|i: int| 0 <= i < prices.len() && prices[i] == at;
                assert(pairs[i].price.units() == at);
            }
            assert(comparable(o, t, at) <==> compared_at(pairs, at));
        }
    }
}

/// A ladder reaches from its lowest level to its highest.
proof fn lemma_reaches(s: Seq<Level>, at: int)
    requires
        ladder::ascending(s),
        s.len() > 0,
    ensures
        reaches(ladder::by_price(s), at) <==> s[0].price.units() <= at <= s.last().price.units(),
{
    let m = ladder::by_price(s);
    ladder::lemma_by_price(s);
    let n = s.len() - 1;
    assert(m.contains_key(s[0].price.units()) && m.contains_key(s[n].price.units()));
    assert forall|p: int| #[trigger] m.contains_key(p) implies s[0].price.units() <= p
        <= s[n].price.units() by {
        let k = ladder::place_of(s, p);
        if 0 < k {
            assert(s[0].price.units() < s[k].price.units());
        }
        if k < n {
            assert(s[k].price.units() < s[n].price.units());
        }
    }
}

/// The findings of comparisons are those that differ, and no others.
proof fn lemma_found(pairs: Seq<Comparison>, side: Side)
    ensures
        forall|i: int|
            0 <= i < pairs.len() && differs(#[trigger] pairs[i]) ==> found(pairs, side).contains(
                AuditFinding {
                    side,
                    price: pairs[i].price,
                    ours: pairs[i].ours,
                    theirs: pairs[i].theirs,
                },
            ),
        forall|k: int|
            0 <= k < found(pairs, side).len() ==> exists|i: int|
                0 <= i < pairs.len() && differs(#[trigger] pairs[i]) && #[trigger] found(
                    pairs,
                    side,
                )[k] == (AuditFinding {
                    side,
                    price: pairs[i].price,
                    ours: pairs[i].ours,
                    theirs: pairs[i].theirs,
                }),
    decreases pairs.len(),
{
    if pairs.len() > 0 {
        let fewer = pairs.drop_last();
        let n = pairs.len() - 1;
        let all = found(pairs, side);
        let before = found(fewer, side);
        lemma_found(fewer, side);
        assert forall|i: int|
            0 <= i < pairs.len() && differs(#[trigger] pairs[i]) implies all.contains(
            AuditFinding {
                side,
                price: pairs[i].price,
                ours: pairs[i].ours,
                theirs: pairs[i].theirs,
            },
        ) by {
            let f = AuditFinding {
                side,
                price: pairs[i].price,
                ours: pairs[i].ours,
                theirs: pairs[i].theirs,
            };
            if i < n {
                assert(fewer[i] == pairs[i]);
                assert(before.contains(f));
                let k = choose|k: int| 0 <= k < before.len() && before[k] == f;
                assert(all[k] == f);
            } else {
                assert(all[before.len() as int] == f);
            }
        }
        assert forall|k: int| 0 <= k < all.len() implies exists|i: int|
            0 <= i < pairs.len() && differs(#[trigger] pairs[i]) && #[trigger] all[k] == (
            AuditFinding {
                side,
                price: pairs[i].price,
                ours: pairs[i].ours,
                theirs: pairs[i].theirs,
            }) by {
            if k < before.len() {
                assert(all[k] == before[k]);
                let i = choose|i: int|
                    0 <= i < fewer.len() && differs(#[trigger] fewer[i]) && before[k] == (
                    AuditFinding {
                        side,
                        price: fewer[i].price,
                        ours: fewer[i].ours,
                        theirs: fewer[i].theirs,
                    });
                assert(pairs[i] == fewer[i]);
            } else {
                assert(differs(pairs[n]));
            }
        }
    }
}

/// Whether a finding says what two windows hold at a price where they disagree.
pub open spec fn finds(f: AuditFinding, windows: (Map<int, Level>, Map<int, Level>)) -> bool {
    let at = f.price.units();
    &&& comparable(windows.0, windows.1, at)
    &&& !agrees(windows.0, windows.1, at)
    &&& f.ours == qty_at(windows.0, at)
    &&& f.theirs == qty_at(windows.1, at)
}

/// Whether some finding is of a side and a price.
pub open spec fn blamed(findings: Seq<AuditFinding>, side: Side, at: int) -> bool {
    exists|k: int|
        0 <= k < findings.len() && (#[trigger] findings[k]).side == side
            && findings[k].price.units() == at
}

/// Of comparisons of one side, what was found is what differs.
proof fn lemma_side_findings(
    pairs: Seq<Comparison>,
    held: Seq<Level>,
    side: Side,
    listing: Seq<Level>,
    policy: AuditPolicy,
)
    requires
        compares_side(pairs, held, side, listing, policy),
    ensures
        ({
            let w = side_windows(held, side, listing, policy);
            &&& comparable_prices(w.0, w.1).finite()
            &&& comparable_prices(w.0, w.1).len() == pairs.len()
            &&& forall|k: int|
                0 <= k < found(pairs, side).len() ==> (#[trigger] found(pairs, side)[k]).side
                    == side && finds(found(pairs, side)[k], w)
            &&& forall|at: int| #[trigger]
                comparable(w.0, w.1, at) && !agrees(w.0, w.1, at) ==> blamed(
                    found(pairs, side),
                    side,
                    at,
                )
        }),
{
    let w = side_windows(held, side, listing, policy);
    let all = found(pairs, side);
    let a;
    let b;
    match best_of(held, side) {
        None => {
            a = Seq::<Level>::empty();
            b = Seq::<Level>::empty();
            let e = Seq::<Level>::empty();
            assert(ladder::by_price(e) =~= Map::empty());
            ladder::lemma_ladder_of(e);
        },
        Some(best) => {
            let edge = decimal::units(guard_end(best.price@, side, policy.guard_bps)->0);
            let max = policy.max_levels as nat;
            a = first_n(past_edge(book::best_first(held, side, held.len()), side, edge), max);
            b = first_n(past_edge(ranked(standing(listing), side), side, edge), max);
        },
    }
    assert(w.0 == window(a) && w.1 == window(b));
    assert(compares_windows(pairs, window(a), window(b)));
    lemma_compared_prices(pairs, a, b);
    lemma_found(pairs, side);
    assert forall|k: int| 0 <= k < all.len() implies (#[trigger] all[k]).side == side && finds(
        all[k],
        w,
    ) by {
        let i = choose|i: int|
            0 <= i < pairs.len() && differs(#[trigger] pairs[i]) && all[k] == (AuditFinding {
                side,
                price: pairs[i].price,
                ours: pairs[i].ours,
                theirs: pairs[i].theirs,
            });
        assert(compared_at(pairs, pairs[i].price.units()));
        assert(comparable(w.0, w.1, pairs[i].price.units()));
    }
    assert forall|at: int| #[trigger] comparable(w.0, w.1, at) && !agrees(
        w.0,
        w.1,
        at,
    ) implies blamed(all, side, at) by {
        let i = choose|i: int| 0 <= i < pairs.len() && #[trigger] pairs[i].price.units() == at;
        let f = AuditFinding {
            side,
            price: pairs[i].price,
            ours: pairs[i].ours,
            theirs: pairs[i].theirs,
        };
        assert(all.contains(f));
        let k = choose|k: int| 0 <= k < all.len() && all[k] == f;
        assert(all[k].side == side && all[k].price.units() == at);
    }
}

/// An audit blames exactly what differs, on both sides. Prices that both windows
/// reach are compared. Where the windows of either side hold different quantities at
/// one, or only one of them holds it, the outcome is a mismatch, and as long as
/// there is room that price is among the findings, with its side; every finding is
/// such a price; a match means that every price compared on either side agrees; and
/// an audit that could compare nothing is inconclusive.
pub proof fn law_an_audit_blames_exactly_what_differs(
    outcome: AuditOutcome,
    bids: Seq<Level>,
    asks: Seq<Level>,
    snapshot_bids: Seq<Level>,
    snapshot_asks: Seq<Level>,
    policy: AuditPolicy,
    at: int,
)
    requires
        audited(outcome, bids, asks, snapshot_bids, snapshot_asks, policy),
    ensures
        ({
            let b = side_windows(bids, Side::Bid, snapshot_bids, policy);
            let a = side_windows(asks, Side::Ask, snapshot_asks, policy);
            let bid_off = comparable(b.0, b.1, at) && !agrees(b.0, b.1, at);
            let ask_off = comparable(a.0, a.1, at) && !agrees(a.0, a.1, at);
            let n = comparable_prices(b.0, b.1).len() + comparable_prices(a.0, a.1).len();
            &&& bid_off || ask_off ==> outcome is Mismatch
            &&& outcome.findings().len() <= MAX_FINDINGS
            &&& outcome is Mismatch ==> outcome.findings().len() > 0
            &&& outcome.findings().len() < MAX_FINDINGS && bid_off ==> blamed(
                outcome.findings(),
                Side::Bid,
                at,
            )
            &&& outcome.findings().len() < MAX_FINDINGS && ask_off ==> blamed(
                outcome.findings(),
                Side::Ask,
                at,
            )
            &&& forall|k: int|
                0 <= k < outcome.findings().len() ==> finds(
                    #[trigger] outcome.findings()[k],
                    match outcome.findings()[k].side {
                        Side::Bid => b,
                        Side::Ask => a,
                    },
                )
            &&& outcome is Inconclusive <==> n == 0
            &&& match outcome {
                AuditOutcome::Inconclusive => true,
                AuditOutcome::Match { compared } => compared == n,
                AuditOutcome::Mismatch { findings: _, compared } => compared == n,
            }
        }),
{
    let (b, a) = choose|b: Seq<Comparison>, a: Seq<Comparison>| #[trigger]
        concludes(outcome, b, a) && compares_side(b, bids, Side::Bid, snapshot_bids, policy)
            && compares_side(a, asks, Side::Ask, snapshot_asks, policy);
    let bw = side_windows(bids, Side::Bid, snapshot_bids, policy);
    let aw = side_windows(asks, Side::Ask, snapshot_asks, policy);
    lemma_side_findings(b, bids, Side::Bid, snapshot_bids, policy);
    lemma_side_findings(a, asks, Side::Ask, snapshot_asks, policy);
    let fb = found(b, Side::Bid);
    let fa = found(a, Side::Ask);
    let all = fb + fa;
    let findings = outcome.findings();
    if comparable(bw.0, bw.1, at) && !agrees(bw.0, bw.1, at) {
        assert(blamed(fb, Side::Bid, at));
        let k = choose|k: int|
            0 <= k < fb.len() && (#[trigger] fb[k]).side == Side::Bid && fb[k].price.units() == at;
        assert(all[k] == fb[k]);
        if findings.len() < MAX_FINDINGS {
            assert(findings[k] == fb[k]);
        }
    }
    if comparable(aw.0, aw.1, at) && !agrees(aw.0, aw.1, at) {
        assert(blamed(fa, Side::Ask, at));
        let k = choose|k: int|
            0 <= k < fa.len() && (#[trigger] fa[k]).side == Side::Ask && fa[k].price.units() == at;
        assert(all[fb.len() + k] == fa[k]);
        if findings.len() < MAX_FINDINGS {
            assert(findings[fb.len() + k] == fa[k]);
        }
    }
    assert forall|k: int| 0 <= k < findings.len() implies finds(
        #[trigger] findings[k],
        match findings[k].side {
            Side::Bid => bw,
            Side::Ask => aw,
        },
    ) by {
        assert(findings[k] == all[k]);
        if k < fb.len() {
            assert(all[k] == fb[k]);
        } else {
            assert(all[k] == fa[k - fb.len()]);
        }
    }
    if b.len() + a.len() == 0 {
        assert(fb.len() == 0 && fa.len() == 0);
    }
}

/// What is past the guard among levels that go from best to worst is the end of them.
proof fn lemma_past_is_the_end(levels: Seq<Level>, side: Side, edge: int, c: int)
    requires
        0 <= c <= levels.len(),
        forall|k: int| 0 <= k < c ==> !past(side, (#[trigger] levels[k]).price.units(), edge),
        forall|k: int|
            c <= k < levels.len() ==> past(side, (#[trigger] levels[k]).price.units(), edge),
    ensures
        past_edge(levels, side, edge) == levels.skip(c),
    decreases levels.len(),
{
    if levels.len() > 0 {
        let fewer = levels.drop_last();
        let n = levels.len() - 1;
        assert(levels[n] == levels.last());
        if c == levels.len() {
            lemma_past_is_the_end(fewer, side, edge, c - 1);
            assert(fewer.skip(c - 1) =~= levels.skip(c));
        } else {
            lemma_past_is_the_end(fewer, side, edge, c);
            assert(fewer.skip(c).push(levels.last()) =~= levels.skip(c));
        }
    } else {
        assert(levels.skip(c) =~= levels);
    }
}

/// The first level past the guard, among levels that go from best to worst.
proof fn lemma_first_past(levels: Seq<Level>, side: Side, edge: int) -> (c: int)
    requires
        forall|i: int, j: int|
            0 <= i < j < levels.len() ==> !better(
                side,
                #[trigger] levels[j],
                #[trigger] levels[i],
            ),
    ensures
        0 <= c <= levels.len(),
        forall|k: int| 0 <= k < c ==> !past(side, (#[trigger] levels[k]).price.units(), edge),
        forall|k: int|
            c <= k < levels.len() ==> past(side, (#[trigger] levels[k]).price.units(), edge),
    decreases levels.len(),
{
    if levels.len() == 0 {
        0
    } else {
        let n = levels.len() - 1;
        let fewer = levels.drop_last();
        assert forall|i: int, j: int| 0 <= i < j < fewer.len() implies !better(
            side,
            #[trigger] fewer[j],
            #[trigger] fewer[i],
        ) by {
            assert(!better(side, levels[j], levels[i]));
        }
        let c = lemma_first_past(fewer, side, edge);
        assert forall|k: int| 0 <= k < n implies #[trigger] levels[k] == fewer[k] by {}
        if past(side, levels[n].price.units(), edge) {
            c
        } else {
            assert(c == n) by {
                if c < n {
                    assert(past(side, fewer[c].price.units(), edge));
                    assert(!better(side, levels[n], levels[c]));
                }
            }
            n + 1
        }
    }
}

/// A window holds a price where some level has it, and the last such level.
proof fn lemma_window_holds(levels: Seq<Level>, at: int)
    ensures
        window(levels).contains_key(at) <==> exists|k: int|
            0 <= k < levels.len() && (#[trigger] levels[k]).price.units() == at,
        window(levels).contains_key(at) ==> exists|k: int|
            0 <= k < levels.len() && #[trigger] levels[k] == window(levels)[at]
                && levels[k].price.units() == at && ladder::unnamed(levels.skip(k + 1), at),
    decreases levels.len(),
{
    if levels.len() > 0 {
        let fewer = levels.drop_last();
        let n = levels.len() - 1;
        lemma_window_holds(fewer, at);
        assert forall|k: int| 0 <= k < n implies #[trigger] levels[k] == fewer[k] by {}
        if levels[n].price.units() == at {
            assert(ladder::unnamed(levels.skip(n + 1), at));
            assert(levels[n] == window(levels)[at]);
        } else if window(levels).contains_key(at) {
            let k = choose|k: int|
                0 <= k < fewer.len() && #[trigger] fewer[k] == window(fewer)[at]
                    && fewer[k].price.units() == at && ladder::unnamed(fewer.skip(k + 1), at);
            assert(levels[k] == window(levels)[at]);
            assert(ladder::unnamed(levels.skip(k + 1), at)) by {
                let rest = levels.skip(k + 1);
                assert forall|j: int| 0 <= j < rest.len() implies (
                #[trigger] rest[j]).price.units() != at by {
                    if k + 1 + j < n {
                        assert(fewer.skip(k + 1)[j] == rest[j]);
                    } else {
                        assert(rest[j] == levels[n]);
                    }
                }
            }
        }
    }
}

/// What a book's side contributes: a level at or past the guard, as long as fewer
/// such levels than the policy allows are better. The level that would be one too
/// many better lies that many places towards the touch, so it is missing or inside
/// the guard.
pub proof fn law_our_window_is_the_near_levels_past_the_guard(
    held: Seq<Level>,
    side: Side,
    edge: int,
    max: nat,
    i: int,
)
    requires
        ladder::ascending(held),
        0 <= i < held.len(),
    ensures
        ({
            let at = held[i].price.units();
            let m = our_window(held, side, edge, max);
            let near = match side {
                Side::Bid => i + max >= held.len() || held[i + max].price.units() > edge,
                Side::Ask => i - max < 0 || held[i - max].price.units() < edge,
            };
            let outside = match side {
                Side::Bid => at <= edge,
                Side::Ask => at >= edge,
            };
            &&& m.contains_key(at) <==> outside && near && max > 0
            &&& m.contains_key(at) ==> m[at] == held[i]
            &&& forall|p: int| #[trigger] m.contains_key(p) ==> ladder::holds_price(held, p)
        }),
{
    let levels = book::best_first(held, side, held.len());
    let at = held[i].price.units();
    let n = held.len();
    assert forall|k: int| 0 <= k < n implies #[trigger] levels[k] == (match side {
        Side::Bid => held[n - 1 - k],
        Side::Ask => held[k],
    }) by {}
    assert forall|a: int, b: int| 0 <= a < b < levels.len() implies better(
        side,
        #[trigger] levels[a],
        #[trigger] levels[b],
    ) && !better(side, levels[b], levels[a]) by {
        match side {
            Side::Bid => assert(held[n - 1 - b].price.units() < held[n - 1 - a].price.units()),
            Side::Ask => assert(held[a].price.units() < held[b].price.units()),
        }
    }
    let c = lemma_first_past(levels, side, edge);
    lemma_past_is_the_end(levels, side, edge, c);
    let kept = first_n(levels.skip(c), max);
    assert forall|k: int| 0 <= k < kept.len() implies #[trigger] kept[k] == levels[c + k] by {}
    lemma_window_holds(kept, at);
    let place = match side {
        Side::Bid => n - 1 - i,
        Side::Ask => i,
    };
    assert(levels[place] == held[i]);
    if c <= place && place < c + max {
        assert(kept[place - c] == held[i]);
    }
    if window(kept).contains_key(at) {
        let k = choose|k: int|
            0 <= k < kept.len() && #[trigger] kept[k] == window(kept)[at] && kept[k].price.units()
                == at && ladder::unnamed(kept.skip(k + 1), at);
        assert(c + k == place) by {
            assert(levels[c + k].price.units() == at);
            if c + k < place {
                assert(better(side, levels[c + k], levels[place]));
            } else if place < c + k {
                assert(better(side, levels[place], levels[c + k]));
            }
        }
    }
    if place - max >= 0 {
        assert(levels[place - max] == (match side {
            Side::Bid => held[i + max],
            Side::Ask => held[i - max],
        }));
    }
    assert forall|p: int| #[trigger]
        our_window(held, side, edge, max).contains_key(p) implies ladder::holds_price(held, p) by {
        lemma_window_holds(kept, p);
        let k = choose|k: int| 0 <= k < kept.len() && (#[trigger] kept[k]).price.units() == p;
        match side {
            Side::Bid => assert(held[n - 1 - (c + k)].price.units() == p),
            Side::Ask => assert(held[c + k].price.units() == p),
        }
    }
}

/// How many of some levels stand at or past the guard and are better than a price.
pub open spec fn ahead(levels: Seq<Level>, side: Side, edge: int, at: int) -> nat
    decreases levels.len(),
{
    if levels.len() == 0 {
        0
    } else {
        let l = levels.last();
        let u = l.price.units();
        let counts = !l.qty.deletes() && match side {
            Side::Bid => at < u <= edge,
            Side::Ask => edge <= u < at,
        };
        ahead(levels.drop_last(), side, edge, at) + (if counts {
            1nat
        } else {
            0
        })
    }
}

/// Ranking changes no counts, keeps the levels, and sorts them.
proof fn lemma_ranked_with_keeps(levels: Seq<Level>, side: Side, l: Level, edge: int, at: int)
    requires
        forall|i: int, j: int|
            0 <= i < j < levels.len() ==> !better(
                side,
                #[trigger] levels[j],
                #[trigger] levels[i],
            ),
    ensures
        ({
            let out = ranked_with(levels, side, l);
            &&& forall|i: int, j: int|
                0 <= i < j < out.len() ==> !better(side, #[trigger] out[j], #[trigger] out[i])
            &&& out.len() == levels.len() + 1
            &&& forall|x: Level| #[trigger] out.contains(x) <==> levels.contains(x) || x == l
            &&& ahead(out, side, edge, at) == ahead(levels.push(l), side, edge, at)
            &&& l.price.units() == at ==> exists|k: int|
                0 <= k < out.len() && #[trigger] out[k] == l && ladder::unnamed(out.skip(k + 1), at)
            &&& l.price.units() != at ==> forall|x: Level|
                last_at(levels, at, x) <==> #[trigger] last_at(out, at, x)
        }),
    decreases levels.len(),
{
    let out = ranked_with(levels, side, l);
    assert(levels.push(l).drop_last() =~= levels);
    if levels.len() == 0 || !better(side, l, levels.last()) {
        assert forall|i: int, j: int| 0 <= i < j < out.len() implies !better(
            side,
            #[trigger] out[j],
            #[trigger] out[i],
        ) by {
            if j == levels.len() && i < levels.len() - 1 {
                assert(!better(side, levels[levels.len() - 1], levels[i]));
            }
        }
        assert forall|x: Level| #[trigger] out.contains(x) <==> levels.contains(x) || x == l by {
            if levels.contains(x) {
                let i = choose|i: int| 0 <= i < levels.len() && levels[i] == x;
                assert(out[i] == x);
            }
            if x == l {
                assert(out[levels.len() as int] == l);
            }
            if out.contains(x) && x != l {
                let i = choose|i: int| 0 <= i < out.len() && out[i] == x;
                assert(levels[i] == x);
            }
        }
        if l.price.units() == at {
            let k = levels.len() as int;
            assert(out[k] == l);
            assert(ladder::unnamed(out.skip(k + 1), at));
        } else {
            assert forall|x: Level| last_at(levels, at, x) <==> #[trigger] last_at(out, at, x) by {
                lemma_last_at_push(levels, at, x, l);
            }
        }
    } else {
        let fewer = levels.drop_last();
        let w = levels.last();
        assert forall|i: int, j: int| 0 <= i < j < fewer.len() implies !better(
            side,
            #[trigger] fewer[j],
            #[trigger] fewer[i],
        ) by {
            assert(!better(side, levels[j], levels[i]));
        }
        lemma_ranked_with_keeps(fewer, side, l, edge, at);
        let inner = ranked_with(fewer, side, l);
        assert(out == inner.push(w));
        assert(out.drop_last() =~= inner);
        assert forall|i: int, j: int| 0 <= i < j < out.len() implies !better(
            side,
            #[trigger] out[j],
            #[trigger] out[i],
        ) by {
            if j < inner.len() {
                assert(!better(side, inner[j], inner[i]));
            } else {
                assert(inner.contains(inner[i]));
                if inner[i] != l {
                    let k = choose|k: int| 0 <= k < fewer.len() && fewer[k] == inner[i];
                    assert(!better(side, levels[levels.len() - 1], levels[k]));
                }
            }
        }
        assert forall|x: Level| #[trigger] out.contains(x) <==> levels.contains(x) || x == l by {
            assert(inner.contains(x) <==> fewer.contains(x) || x == l);
            if levels.contains(x) {
                let i = choose|i: int| 0 <= i < levels.len() && levels[i] == x;
                if i < fewer.len() {
                    assert(fewer[i] == x);
                    let k = choose|k: int| 0 <= k < inner.len() && inner[k] == x;
                    assert(out[k] == x);
                } else {
                    assert(out[inner.len() as int] == x);
                }
            }
            if x == l {
                let k = choose|k: int| 0 <= k < inner.len() && inner[k] == x;
                assert(out[k] == x);
            }
            if out.contains(x) {
                let k = choose|k: int| 0 <= k < out.len() && out[k] == x;
                if k < inner.len() {
                    assert(inner[k] == x);
                    if x != l {
                        let i = choose|i: int| 0 <= i < fewer.len() && fewer[i] == x;
                        assert(levels[i] == x);
                    }
                } else {
                    assert(levels[levels.len() - 1] == x);
                }
            }
        }
        assert(fewer.push(l).drop_last() =~= fewer);
        assert(fewer.push(l).last() == l && levels.push(l).last() == l && out.last() == w);
        assert(ahead(inner, side, edge, at) == ahead(fewer.push(l), side, edge, at));
        assert(ahead(levels, side, edge, at) >= ahead(fewer, side, edge, at));
        assert(ahead(out, side, edge, at) == ahead(levels.push(l), side, edge, at));
        if l.price.units() == at {
            let k = choose|k: int|
                0 <= k < inner.len() && #[trigger] inner[k] == l && ladder::unnamed(
                    inner.skip(k + 1),
                    at,
                );
            assert(out[k] == l);
            assert(ladder::unnamed(out.skip(k + 1), at)) by {
                let rest = out.skip(k + 1);
                assert forall|j: int| 0 <= j < rest.len() implies (
                #[trigger] rest[j]).price.units() != at by {
                    if k + 1 + j < inner.len() {
                        assert(inner.skip(k + 1)[j] == rest[j]);
                    } else {
                        assert(rest[j] == w);
                    }
                }
            }
        } else {
            assert forall|x: Level| last_at(levels, at, x) <==> #[trigger] last_at(out, at, x) by {
                assert(last_at(fewer, at, x) <==> last_at(inner, at, x));
                lemma_last_at_push(inner, at, x, w);
                lemma_last_at_push(fewer, at, x, w);
                assert(fewer.push(w) =~= levels);
            }
        }
    }
}

/// Whether a level is the last of some at a price.
pub open spec fn last_at(levels: Seq<Level>, at: int, x: Level) -> bool {
    exists|k: int|
        0 <= k < levels.len() && #[trigger] levels[k] == x && x.price.units() == at
            && ladder::unnamed(levels.skip(k + 1), at)
}

proof fn lemma_last_at_push(levels: Seq<Level>, at: int, x: Level, l: Level)
    ensures
        last_at(levels.push(l), at, x) <==> (if l.price.units() == at {
            x == l
        } else {
            last_at(levels, at, x)
        }),
{
    let out = levels.push(l);
    let n = levels.len() as int;
    assert(out[n] == l);
    if last_at(out, at, x) {
        let k = choose|k: int|
            0 <= k < out.len() && #[trigger] out[k] == x && x.price.units() == at
                && ladder::unnamed(out.skip(k + 1), at);
        if k < n {
            assert(out.skip(k + 1)[n - k - 1] == l);
            assert(levels[k] == x);
            assert(ladder::unnamed(levels.skip(k + 1), at)) by {
                let rest = levels.skip(k + 1);
                assert forall|j: int| 0 <= j < rest.len() implies (
                #[trigger] rest[j]).price.units() != at by {
                    assert(out.skip(k + 1)[j] == rest[j]);
                }
            }
        }
    }
    if l.price.units() == at {
        assert(ladder::unnamed(out.skip(n + 1), at));
        assert(last_at(out, at, l));
    } else if last_at(levels, at, x) {
        let k = choose|k: int|
            0 <= k < levels.len() && #[trigger] levels[k] == x && x.price.units() == at
                && ladder::unnamed(levels.skip(k + 1), at);
        assert(out[k] == x);
        assert(ladder::unnamed(out.skip(k + 1), at)) by {
            let rest = out.skip(k + 1);
            assert forall|j: int| 0 <= j < rest.len() implies (#[trigger] rest[j]).price.units()
                != at by {
                if k + 1 + j < n {
                    assert(levels.skip(k + 1)[j] == rest[j]);
                } else {
                    assert(rest[j] == l);
                }
            }
        }
    }
}

/// What ranking the standing levels of a listing keeps.
proof fn lemma_ranked(listing: Seq<Level>, side: Side, edge: int, at: int)
    ensures
        ({
            let out = ranked(standing(listing), side);
            &&& forall|i: int, j: int|
                0 <= i < j < out.len() ==> !better(side, #[trigger] out[j], #[trigger] out[i])
            &&& out.len() <= listing.len()
            &&& forall|x: Level| #[trigger]
                out.contains(x) <==> listing.contains(x) && !x.qty.deletes()
            &&& ahead(out, side, edge, at) == ahead(listing, side, edge, at)
            &&& forall|x: Level| #[trigger] last_at(out, at, x) <==> last_at(standing(listing), at, x)
        }),
    decreases listing.len(),
{
    let out = ranked(standing(listing), side);
    if listing.len() > 0 {
        let fewer = listing.drop_last();
        let l = listing.last();
        lemma_ranked(fewer, side, edge, at);
        let inner = ranked(standing(fewer), side);
        assert forall|x: Level| #[trigger] listing.contains(x) <==> fewer.contains(x) || x == l by {
            if listing.contains(x) {
                let i = choose|i: int| 0 <= i < listing.len() && listing[i] == x;
                if i < fewer.len() {
                    assert(fewer[i] == x);
                }
            }
            if fewer.contains(x) {
                let i = choose|i: int| 0 <= i < fewer.len() && fewer[i] == x;
                assert(listing[i] == x);
            }
            if x == l {
                assert(listing[listing.len() - 1] == l);
            }
        }
        if !l.qty.deletes() {
            assert(standing(listing).drop_last() =~= standing(fewer));
            assert(standing(listing).last() == l);
            lemma_ranked_with_keeps(inner, side, l, edge, at);
            assert(inner.push(l).drop_last() =~= inner);
            assert forall|x: Level| #[trigger] last_at(out, at, x) <==> last_at(
                standing(listing),
                at,
                x,
            ) by {
                lemma_last_at_push(standing(fewer), at, x, l);
                if l.price.units() == at {
                    lemma_last_at_unique(out, at, x, l);
                } else {
                    assert(last_at(inner, at, x) <==> last_at(out, at, x));
                }
            }
        }
    }
}

/// There is one last level at a price.
proof fn lemma_last_at_unique(levels: Seq<Level>, at: int, x: Level, y: Level)
    requires
        last_at(levels, at, y),
    ensures
        last_at(levels, at, x) <==> x == y,
{
    if last_at(levels, at, x) {
        let i = choose|k: int|
            0 <= k < levels.len() && #[trigger] levels[k] == x && x.price.units() == at
                && ladder::unnamed(levels.skip(k + 1), at);
        let j = choose|k: int|
            0 <= k < levels.len() && #[trigger] levels[k] == y && y.price.units() == at
                && ladder::unnamed(levels.skip(k + 1), at);
        if i < j {
            assert(levels.skip(i + 1)[j - i - 1] == y);
        } else if j < i {
            assert(levels.skip(j + 1)[i - j - 1] == x);
        }
    }
}

/// Among levels from best to worst, as many are ahead of a price as stand before
/// the first that has it, counting from the first past the guard.
proof fn lemma_ahead_is_the_place(levels: Seq<Level>, side: Side, edge: int, c: int, k: int)
    requires
        0 <= c <= k < levels.len(),
        forall|i: int, j: int|
            0 <= i < j < levels.len() ==> !better(
                side,
                #[trigger] levels[j],
                #[trigger] levels[i],
            ),
        forall|i: int| 0 <= i < c ==> !past(side, (#[trigger] levels[i]).price.units(), edge),
        forall|i: int|
            c <= i < levels.len() ==> past(side, (#[trigger] levels[i]).price.units(), edge),
        forall|i: int| 0 <= i < levels.len() ==> !(#[trigger] levels[i]).qty.deletes(),
        forall|i: int|
            c <= i < k ==> (#[trigger] levels[i]).price.units() != levels[k].price.units(),
    ensures
        ahead(levels, side, edge, levels[k].price.units()) == k - c,
{
    let at = levels[k].price.units();
    assert forall|i: int| 0 <= i < levels.len() implies ((match side {
        Side::Bid => at < (#[trigger] levels[i]).price.units() <= edge,
        Side::Ask => edge <= levels[i].price.units() < at,
    }) <==> c <= i < k) by {
        if i < k {
            assert(!better(side, levels[k], levels[i]));
        } else if k < i {
            assert(!better(side, levels[i], levels[k]));
        }
    }
    lemma_ahead_counts(levels, side, edge, at, c, k, levels.len() as int);
    assert(levels.take(levels.len() as int) =~= levels);
}

proof fn lemma_ahead_counts(
    levels: Seq<Level>,
    side: Side,
    edge: int,
    at: int,
    c: int,
    k: int,
    n: int,
)
    requires
        0 <= n <= levels.len(),
        0 <= c <= k,
        forall|i: int| 0 <= i < levels.len() ==> !(#[trigger] levels[i]).qty.deletes(),
        forall|i: int|
            0 <= i < levels.len() ==> ((match side {
                Side::Bid => at < (#[trigger] levels[i]).price.units() <= edge,
                Side::Ask => edge <= levels[i].price.units() < at,
            }) <==> c <= i < k),
    ensures
        ahead(levels.take(n), side, edge, at) == (if n <= c {
            0
        } else if n <= k {
            n - c
        } else {
            k - c
        }),
    decreases n,
{
    if n > 0 {
        lemma_ahead_counts(levels, side, edge, at, c, k, n - 1);
        assert(levels.take(n).drop_last() =~= levels.take(n - 1));
        assert(levels.take(n).last() == levels[n - 1]);
    }
}

/// What a venue's listing contributes, in whatever order it comes: a price at or past
/// the guard that some level of some quantity lists, as long as fewer such levels
/// than the policy allows are better. It is held with a level that lists it: where
/// the listing is no longer than the policy allows, with the last one.
pub proof fn law_their_window_is_the_near_levels_past_the_guard(
    listing: Seq<Level>,
    side: Side,
    edge: int,
    max: nat,
    at: int,
)
    ensures
        ({
            let m = their_window(listing, side, edge, max);
            let outside = match side {
                Side::Bid => at <= edge,
                Side::Ask => at >= edge,
            };
            let listed = exists|j: int|
                0 <= j < listing.len() && (#[trigger] listing[j]).price.units() == at
                    && !listing[j].qty.deletes();
            &&& m.contains_key(at) <==> outside && listed && ahead(listing, side, edge, at) < max
            &&& m.contains_key(at) ==> m[at].price.units() == at && !m[at].qty.deletes()
                && listing.contains(m[at])
            &&& m.contains_key(at) && listing.len() <= max ==> forall|j: int| #[trigger]
                ladder::stands_last(listing, at, j) ==> m[at] == listing[j]
        }),
{
    let levels = ranked(standing(listing), side);
    lemma_ranked(listing, side, edge, at);
    let c = lemma_first_past(levels, side, edge);
    lemma_past_is_the_end(levels, side, edge, c);
    let kept = first_n(levels.skip(c), max);
    let m = window(kept);
    lemma_window_holds(kept, at);
    assert forall|k: int| 0 <= k < kept.len() implies #[trigger] kept[k] == levels[c + k] by {}
    assert forall|i: int| 0 <= i < levels.len() implies !(#[trigger] levels[i]).qty.deletes() by {
        assert(levels.contains(levels[i]));
    }
    if exists|j: int|
        0 <= j < listing.len() && (#[trigger] listing[j]).price.units() == at
            && !listing[j].qty.deletes() {
        let j = choose|j: int|
            0 <= j < listing.len() && (#[trigger] listing[j]).price.units() == at
                && !listing[j].qty.deletes();
        assert(listing.contains(listing[j]));
        assert(levels.contains(listing[j]));
        let p = choose|p: int| 0 <= p < levels.len() && levels[p] == listing[j];
        if past(side, at, edge) {
            let k = lemma_first_at(levels, at, c, p);
            lemma_ahead_is_the_place(levels, side, edge, c, k);
            if k - c < max {
                assert(kept[k - c].price.units() == at);
            } else {
                assert forall|q: int| 0 <= q < kept.len() implies (
                #[trigger] kept[q]).price.units() != at by {
                    assert(levels[c + q].price.units() != at);
                }
            }
        } else {
            assert forall|q: int| 0 <= q < kept.len() implies (#[trigger] kept[q]).price.units()
                != at by {
                assert(past(side, levels[c + q].price.units(), edge));
            }
        }
    }
    if m.contains_key(at) {
        let q = choose|q: int|
            0 <= q < kept.len() && #[trigger] kept[q] == m[at] && kept[q].price.units() == at
                && ladder::unnamed(kept.skip(q + 1), at);
        assert(levels.contains(levels[c + q]));
        assert(listing.contains(m[at]));
        let j = choose|j: int| 0 <= j < listing.len() && listing[j] == m[at];
        assert(listing[j].price.units() == at && !listing[j].qty.deletes());
        if listing.len() <= max {
            assert(levels[c + q] == m[at]);
            assert(ladder::unnamed(levels.skip(c + q + 1), at)) by {
                let rest = levels.skip(c + q + 1);
                assert forall|i: int| 0 <= i < rest.len() implies (
                #[trigger] rest[i]).price.units() != at by {
                    assert(kept.skip(q + 1)[i] == rest[i]);
                }
            }
            assert(last_at(levels, at, m[at]));
            assert(last_at(standing(listing), at, m[at]));
            assert forall|j: int| #[trigger] ladder::stands_last(
                listing,
                at,
                j,
            ) implies m[at] == listing[j] by {
                lemma_standing_last(listing, at, j);
                lemma_last_at_unique(standing(listing), at, m[at], listing[j]);
            }
        }
    }
}

/// The first level at a price, from a place on.
proof fn lemma_first_at(levels: Seq<Level>, at: int, c: int, p: int) -> (k: int)
    requires
        0 <= c <= p < levels.len(),
        levels[p].price.units() == at,
    ensures
        c <= k <= p,
        levels[k].price.units() == at,
        forall|i: int| c <= i < k ==> (#[trigger] levels[i]).price.units() != at,
    decreases p - c,
{
    if levels[c].price.units() == at {
        c
    } else {
        lemma_first_at(levels, at, c + 1, p)
    }
}

/// The last level that stands at a price is the last of the standing ones.
proof fn lemma_standing_last(listing: Seq<Level>, at: int, j: int)
    requires
        ladder::stands_last(listing, at, j),
    ensures
        last_at(standing(listing), at, listing[j]),
    decreases listing.len(),
{
    let fewer = listing.drop_last();
    let n = listing.len() - 1;
    if !listing[n].qty.deletes() {
        lemma_last_at_push(standing(fewer), at, listing[j], listing[n]);
    }
    if j < n {
        assert(listing[n].price.units() != at || listing[n].qty.deletes());
        assert(ladder::stands_last(fewer, at, j)) by {
            assert forall|k: int| j < k < fewer.len() implies (
            #[trigger] fewer[k]).price.units() != at || fewer[k].qty.deletes() by {
                assert(fewer[k] == listing[k]);
            }
        }
        lemma_standing_last(fewer, at, j);
    }
}

/// Evidence accumulates: a price that is wrong in audit after audit lengthens the
/// streak by one each time, and the book is distrusted from the audit on that makes
/// it as long as the policy asks, and not before.
pub proof fn law_evidence_accumulates(
    trails: Seq<AuditTrail>,
    outcomes: Seq<AuditOutcome>,
    concluded: Seq<Option<DesyncReason>>,
    policy: AuditPolicy,
    at: int,
    n: nat,
)
    requires
        trails.len() == outcomes.len() + 1,
        concluded.len() == outcomes.len(),
        trails[0].streak() == 0,
        forall|i: int|
            0 <= i < outcomes.len() ==> observed(
                trails[i],
                #[trigger] outcomes[i],
                policy,
                trails[i + 1],
                concluded[i],
            ) && outcomes[i] is Mismatch && outcomes[i].blames(at),
        n <= outcomes.len(),
    ensures
        trails[n as int].streak() == n,
        n > 0 ==> has_price(trails[n as int].suspects(), at),
        n > 0 ==> (concluded[n - 1] is Some <==> n >= policy.consecutive_before_desync),
        n > 0 ==> (concluded[n - 1] matches Some(reason) ==> reason matches DesyncReason::AuditMismatch {
            price,
            consecutive,
        } && outcomes[n - 1].blames(price.units()) && consecutive == n as u32),
    decreases n,
{
    if n > 0 {
        law_evidence_accumulates(trails, outcomes, concluded, policy, at, (n - 1) as nat);
        let before = trails[n - 1];
        let after = trails[n as int];
        let outcome = outcomes[n - 1];
        assert(observed(before, outcome, policy, after, concluded[n - 1]));
        if n > 1 {
            assert(has_price(before.suspects(), at) && outcome.blames(at));
            assert(extends(before, outcome));
        } else {
            assert(!extends(before, outcome));
        }
        assert(has_price(after.suspects(), at));
        let first = after.suspects()[0];
        assert(after.suspects()[0].units() == first.units());
        assert(has_price(after.suspects(), first.units()));
    }
}

/// A clean audit clears the evidence: the next mismatch starts a streak of its own.
pub proof fn law_a_match_clears_the_evidence(
    before: AuditTrail,
    clean: AuditTrail,
    none: Option<DesyncReason>,
    outcome: AuditOutcome,
    after: AuditTrail,
    concluded: Option<DesyncReason>,
    policy: AuditPolicy,
    compared: usize,
)
    requires
        observed(before, AuditOutcome::Match { compared }, policy, clean, none),
        observed(clean, outcome, policy, after, concluded),
        outcome is Mismatch,
    ensures
        none is None,
        clean.streak() == 0,
        after.streak() == 1,
        policy.consecutive_before_desync >= 2 ==> concluded is None,
{
}

} // verus!
