//! The consolidated touch across venues, and the arbitrage it appears to show.
//!
//! Take the highest bid and the lowest ask across every venue tracking one
//! symbol. Three rules keep the result from being noise. Only trusted books
//! participate: a desynced book still holds its last contents, and they are not
//! a quote. A book older than [`CrossPolicy::max_age`] does not participate. And
//! every derived number states the weakest guarantee behind it, over the legs
//! actually used.

use vstd::prelude::*;

use crate::book;
use crate::book::{BookState, Integrity, Overflow, TopOfBook};
use crate::decimal;
use crate::decimal::{Decimal, Parts};
use crate::event::{Level, VenueId};
use crate::price::{Price, Qty};
use crate::text;
use crate::time;
use crate::time::Duration;

verus! {

/// Which books are allowed to be a leg of the consolidated touch.
#[derive(Clone, Copy, Debug, PartialEq, Eq)]
pub struct CrossPolicy {
    /// A book whose last applied update is older than this does not
    /// participate.
    pub max_age: Duration,
}

impl Default for CrossPolicy {
    fn default() -> (p: CrossPolicy)
        ensures
            p.max_age@ == 2 * time::NANOS_PER_SEC,
    {
        CrossPolicy { max_age: Duration::from_secs(2) }
    }
}

/// One side of the consolidated touch, and where it came from.
#[derive(Clone, Copy, Debug, PartialEq, Eq)]
pub struct CrossLeg {
    pub venue: VenueId,
    pub price: Price,
    pub qty: Qty,
    /// Age of the book this leg came from.
    pub age_ms: u64,
    /// What this venue's protocol can prove about the book behind this leg.
    pub integrity: Integrity,
}

/// Why a venue is not part of the consolidated touch.
#[derive(Clone, Copy, Debug, PartialEq, Eq)]
pub enum ExclusionReason {
    /// Not live. Its contents are retained for debugging and are not a quote.
    Untrusted,
    /// Live, but nothing has been applied for too long.
    Stale { age: Duration },
    /// Live and fresh, but holds no levels on either side.
    NoQuote,
}

impl ExclusionReason {
    /// The reason, in words.
    pub open spec fn words(self) -> Seq<char> {
        match self {
            ExclusionReason::Untrusted => "book is not trusted"@,
            ExclusionReason::Stale { age } => "no update for "@ + text::number_text(
                age@ / 1_000_000,
            ) + "ms"@,
            ExclusionReason::NoQuote => "book holds no levels"@,
        }
    }

    /// The reason, in words.
    pub fn describe(&self) -> (s: String)
        ensures
            s@ == self.words(),
    {
        let mut out: Vec<char> = Vec::new();
        match self {
            ExclusionReason::Untrusted => text::push_text(&mut out, "book is not trusted"),
            ExclusionReason::Stale { age } => {
                text::push_text(&mut out, "no update for ");
                let millis = text::number_chars(age.as_millis());
                text::push_all(&mut out, &millis);
                text::push_text(&mut out, "ms");
            },
            ExclusionReason::NoQuote => text::push_text(&mut out, "book holds no levels"),
        }
        assert(out@ =~= self.words());
        text::text_of(&out)
    }
}

/// A venue that was configured for this symbol and did not contribute.
#[derive(Clone, Copy, Debug, PartialEq, Eq)]
pub struct Exclusion {
    pub venue: VenueId,
    pub reason: ExclusionReason,
}

/// The consolidated touch across venues for one symbol.
#[derive(Debug, PartialEq, Eq)]
pub struct CrossVenue {
    /// Highest bid across participating venues.
    pub bid: Option<CrossLeg>,
    /// Lowest ask across participating venues.
    pub ask: Option<CrossLeg>,
    /// `ask - bid`. Signed: negative means the books are crossed.
    pub spread: Option<Decimal>,
    /// The same, in basis points of the consolidated mid.
    pub spread_bps: Option<Decimal>,
    pub mid: Option<Decimal>,
    /// Weakest guarantee among the legs used. `None` when no leg was used.
    pub integrity_floor: Option<Integrity>,
    /// Age of the older of the two legs.
    pub oldest_leg_ms: Option<u64>,
    /// Venues that contributed at least one side.
    pub venues_used: usize,
    /// Everyone who did not, and why.
    pub excluded: Vec<Exclusion>,
}

impl Clone for CrossVenue {
    fn clone(&self) -> (c: CrossVenue)
        ensures
            c == (CrossVenue { excluded: c.excluded, ..*self }),
            c.excluded@ == self.excluded@,
    {
        let excluded = self.excluded.clone();
        assert(excluded@ =~= self.excluded@);
        CrossVenue {
            bid: self.bid,
            ask: self.ask,
            spread: self.spread,
            spread_bps: self.spread_bps,
            mid: self.mid,
            integrity_floor: self.integrity_floor,
            oldest_leg_ms: self.oldest_leg_ms,
            venues_used: self.venues_used,
            excluded,
        }
    }
}

impl CrossVenue {
    /// True when the highest bid is at or above the lowest ask: a bid equal to
    /// an ask is a crossing of zero width.
    pub fn is_crossed(&self) -> (b: bool)
        ensures
            b == (self.spread matches Some(s) && s.units() <= 0),
    {
        match self.spread {
            Some(s) => {
                proof {
                    decimal::lemma_units_sign(s@);
                }
                s.is_zero() || s.is_negative()
            },
            None => false,
        }
    }

    /// True when both legs came from the same venue. Then this is that venue's
    /// own spread, and cannot show an arbitrage.
    pub fn is_single_venue(&self) -> (b: bool)
        ensures
            b == (self.bid is Some && self.ask is Some && self.bid->0.venue == self.ask->0.venue),
    {
        match (self.bid, self.ask) {
            (Some(bid), Some(ask)) => bid.venue == ask.venue,
            _ => false,
        }
    }
}

/// How old a book is; one that has never applied anything is older than
/// anything.
pub open spec fn age_of(top: TopOfBook) -> Duration {
    match top.age {
        Some(age) => age,
        None => Duration::longest_span(),
    }
}

/// Why a book does not participate, if it does not.
pub open spec fn exclusion(top: TopOfBook, policy: CrossPolicy) -> Option<ExclusionReason> {
    if top.state !is Live {
        Some(ExclusionReason::Untrusted)
    } else if age_of(top)@ > policy.max_age@ {
        Some(ExclusionReason::Stale { age: age_of(top) })
    } else if top.bid is None && top.ask is None {
        Some(ExclusionReason::NoQuote)
    } else {
        None
    }
}

/// Who does not participate, and why, in the order given.
pub open spec fn exclusions(quotes: Seq<(VenueId, TopOfBook)>, policy: CrossPolicy) -> Seq<
    Exclusion,
>
    decreases quotes.len(),
{
    if quotes.len() == 0 {
        Seq::empty()
    } else {
        let rest = exclusions(quotes.drop_last(), policy);
        match exclusion(quotes.last().1, policy) {
            Some(reason) => rest.push(Exclusion { venue: quotes.last().0, reason }),
            None => rest,
        }
    }
}

/// How many participate.
pub open spec fn participants(quotes: Seq<(VenueId, TopOfBook)>, policy: CrossPolicy) -> nat
    decreases quotes.len(),
{
    if quotes.len() == 0 {
        0
    } else {
        participants(quotes.drop_last(), policy) + (if exclusion(quotes.last().1, policy) is None {
            1nat
        } else {
            0
        })
    }
}

/// A level as a leg.
pub open spec fn leg_of(venue: VenueId, top: TopOfBook, l: Level) -> CrossLeg {
    CrossLeg {
        venue,
        price: l.price,
        qty: l.qty,
        age_ms: time::min_nat(age_of(top)@ / 1_000_000, u64::MAX as nat) as u64,
        integrity: top.state.trust()->0,
    }
}

/// The bid a quote offers, if it participates and has one.
pub open spec fn offered_bid(quote: (VenueId, TopOfBook), policy: CrossPolicy) -> Option<CrossLeg> {
    if exclusion(quote.1, policy) is None && quote.1.bid is Some {
        Some(leg_of(quote.0, quote.1, quote.1.bid->0))
    } else {
        None
    }
}

/// The ask a quote offers, if it participates and has one.
pub open spec fn offered_ask(quote: (VenueId, TopOfBook), policy: CrossPolicy) -> Option<CrossLeg> {
    if exclusion(quote.1, policy) is None && quote.1.ask is Some {
        Some(leg_of(quote.0, quote.1, quote.1.ask->0))
    } else {
        None
    }
}

/// The highest bid offered, the first of equals.
pub open spec fn best_bid(quotes: Seq<(VenueId, TopOfBook)>, policy: CrossPolicy) -> Option<
    CrossLeg,
>
    decreases quotes.len(),
{
    if quotes.len() == 0 {
        None
    } else {
        let rest = best_bid(quotes.drop_last(), policy);
        match (rest, offered_bid(quotes.last(), policy)) {
            (Some(held), Some(leg)) => if leg.price.units() > held.price.units() {
                Some(leg)
            } else {
                Some(held)
            },
            (None, leg) => leg,
            (held, None) => held,
        }
    }
}

/// The lowest ask offered, the first of equals.
pub open spec fn best_ask(quotes: Seq<(VenueId, TopOfBook)>, policy: CrossPolicy) -> Option<
    CrossLeg,
>
    decreases quotes.len(),
{
    if quotes.len() == 0 {
        None
    } else {
        let rest = best_ask(quotes.drop_last(), policy);
        match (rest, offered_ask(quotes.last(), policy)) {
            (Some(held), Some(leg)) => if leg.price.units() < held.price.units() {
                Some(leg)
            } else {
                Some(held)
            },
            (None, leg) => leg,
            (held, None) => held,
        }
    }
}

/// The spread in basis points of the mid; none where the mid is zero.
pub open spec fn touch_bps(spread: Parts, mid: Parts) -> Option<Parts> {
    if mid.0 == 0 {
        None
    } else {
        decimal::basis_points(spread, mid)
    }
}

/// Whether every number derived from a touch can be held.
pub open spec fn touch_fits(bid: Parts, ask: Parts) -> bool {
    match (decimal::decimal_difference(ask, bid), decimal::midpoint(ask, bid)) {
        (Some(spread), Some(mid)) => mid.0 != 0 ==> decimal::basis_points(spread, mid) is Some,
        _ => false,
    }
}

/// Whether the numbers derived from the best of each side can be held.
pub open spec fn consolidation_fits(
    quotes: Seq<(VenueId, TopOfBook)>,
    policy: CrossPolicy,
) -> bool {
    match (best_bid(quotes, policy), best_ask(quotes, policy)) {
        (Some(bid), Some(ask)) => touch_fits(bid.price@, ask.price@),
        _ => true,
    }
}

/// Whether a result is the consolidated touch of the quotes.
pub open spec fn consolidates(
    out: CrossVenue,
    quotes: Seq<(VenueId, TopOfBook)>,
    policy: CrossPolicy,
) -> bool {
    &&& out.bid == best_bid(quotes, policy)
    &&& out.ask == best_ask(quotes, policy)
    &&& out.venues_used == participants(quotes, policy)
    &&& out.excluded@ == exclusions(quotes, policy)
    &&& match (out.bid, out.ask) {
        (Some(bid), Some(ask)) => {
            let spread = decimal::decimal_difference(ask.price@, bid.price@);
            let mid = decimal::midpoint(ask.price@, bid.price@);
            &&& decimal::parts_of(out.spread) == spread
            &&& decimal::parts_of(out.mid) == mid
            &&& decimal::parts_of(out.spread_bps) == touch_bps(spread->0, mid->0)
            &&& out.integrity_floor == Some(book::weaker(bid.integrity, ask.integrity))
            &&& out.oldest_leg_ms == Some(
                if bid.age_ms < ask.age_ms {
                    ask.age_ms
                } else {
                    bid.age_ms
                },
            )
        },
        (bid, ask) => {
            let leg = if bid is Some {
                bid
            } else {
                ask
            };
            &&& out.spread is None
            &&& out.mid is None
            &&& out.spread_bps is None
            &&& out.integrity_floor == (match leg {
                Some(l) => Some(l.integrity),
                None => None,
            })
            &&& out.oldest_leg_ms == (match leg {
                Some(l) => Some(l.age_ms),
                None => None,
            })
        },
    }
}

/// The legs, the exclusions and the count, before anything is derived.
fn survey(quotes: &[(VenueId, TopOfBook)], policy: CrossPolicy) -> (r: (
    Option<CrossLeg>,
    Option<CrossLeg>,
    Vec<Exclusion>,
    usize,
))
    ensures
        r.0 == best_bid(quotes@, policy),
        r.1 == best_ask(quotes@, policy),
        r.2@ == exclusions(quotes@, policy),
        r.3 == participants(quotes@, policy),
{
    let mut bid: Option<CrossLeg> = None;
    let mut ask: Option<CrossLeg> = None;
    let mut excluded: Vec<Exclusion> = Vec::new();
    let mut used: usize = 0;
    let mut i: usize = 0;
    while i < quotes.len()
        invariant
            i <= quotes@.len(),
            used <= i,
            bid == best_bid(quotes@.take(i as int), policy),
            ask == best_ask(quotes@.take(i as int), policy),
            excluded@ == exclusions(quotes@.take(i as int), policy),
            used == participants(quotes@.take(i as int), policy),
        decreases quotes@.len() - i,
    {
        let venue = quotes[i].0;
        let top = quotes[i].1;
        assert(quotes@.take(i + 1).drop_last() =~= quotes@.take(i as int));
        assert(quotes@.take(i + 1).last() == (venue, top));
        i += 1;
        // Trust first. A desynced book still holds its last contents, and those
        // contents are exactly what an unguarded maximum would find.
        let integrity = match top.state {
            BookState::Live { integrity, .. } => integrity,
            _ => {
                excluded.push(Exclusion { venue, reason: ExclusionReason::Untrusted });
                continue;
            },
        };
        let age = match top.age {
            Some(age) => age,
            None => Duration::longest(),
        };
        if policy.max_age.shorter_than(&age) {
            excluded.push(Exclusion { venue, reason: ExclusionReason::Stale { age } });
            continue;
        }
        if top.bid.is_none() && top.ask.is_none() {
            excluded.push(Exclusion { venue, reason: ExclusionReason::NoQuote });
            continue;
        }
        used += 1;
        let age_ms: u64 = age.whole_millis();
        match top.bid {
            Some(level) => {
                let leg = CrossLeg {
                    venue,
                    price: level.price,
                    qty: level.qty,
                    age_ms,
                    integrity,
                };
                // Strictly greater, so ties keep the venue seen first.
                let better = match bid {
                    Some(held) => held.price.below(&leg.price),
                    None => true,
                };
                if better {
                    bid = Some(leg);
                }
            },
            None => {},
        }
        match top.ask {
            Some(level) => {
                let leg = CrossLeg {
                    venue,
                    price: level.price,
                    qty: level.qty,
                    age_ms,
                    integrity,
                };
                let better = match ask {
                    Some(held) => leg.price.below(&held.price),
                    None => true,
                };
                if better {
                    ask = Some(leg);
                }
            },
            None => {},
        }
    }
    assert(quotes@.take(quotes@.len() as int) =~= quotes@);
    (bid, ask, excluded, used)
}

/// Spread, mid and spread in basis points of a touch, where all can be held.
fn checked_touch(bid: &Price, ask: &Price) -> (r: Option<(Decimal, Decimal, Option<Decimal>)>)
    ensures
        r is Some <==> touch_fits(bid@, ask@),
        r matches Some((spread, mid, bps)) ==> {
            &&& Some(spread@) == decimal::decimal_difference(ask@, bid@)
            &&& Some(mid@) == decimal::midpoint(ask@, bid@)
            &&& decimal::parts_of(bps) == touch_bps(spread@, mid@)
            &&& spread@.0 < 0 <==> ask.units() < bid.units()
            &&& spread@.0 == 0 <==> ask.units() == bid.units()
        },
{
    let bid = bid.as_decimal();
    let ask = ask.as_decimal();
    let spread = match decimal::checked_sub(&ask, &bid) {
        Some(spread) => spread,
        None => return None,
    };
    let mid = match decimal::checked_midpoint(&ask, &bid) {
        Some(mid) => mid,
        None => return None,
    };
    if mid.is_zero() {
        return Some((spread, mid, None));
    }
    match decimal::checked_bps(&spread, &mid) {
        Some(bps) => Some((spread, mid, Some(bps))),
        None => None,
    }
}

/// Build the consolidated touch from one `(venue, top of book)` pair per venue
/// tracking a symbol.
pub fn consolidate(quotes: &[(VenueId, TopOfBook)], policy: CrossPolicy) -> (out: CrossVenue)
    requires
        consolidation_fits(quotes@, policy),
    ensures
        consolidates(out, quotes@, policy),
        // Crossed means that the highest bid is at or above the lowest ask.
        out.spread matches Some(s) ==> (s.units() <= 0 <==> out.bid->0.price.units()
            >= out.ask->0.price.units()),
{
    let (bid, ask, excluded, venues_used) = survey(quotes, policy);
    match (bid, ask) {
        (Some(b), Some(a)) => {
            let derived = checked_touch(&b.price, &a.price);
            let (spread, mid, spread_bps) = derived.unwrap();
            proof {
                decimal::lemma_units_sign(spread@);
            }
            let oldest: u64 = if b.age_ms < a.age_ms {
                a.age_ms
            } else {
                b.age_ms
            };
            CrossVenue {
                bid,
                ask,
                spread: Some(spread),
                spread_bps,
                mid: Some(mid),
                integrity_floor: Some(b.integrity.weaker(a.integrity)),
                oldest_leg_ms: Some(oldest),
                venues_used,
                excluded,
            }
        },
        // One-sided: there is no spread to report, but the leg that exists is
        // still published.
        (_, _) => {
            let leg = match bid {
                Some(b) => Some(b),
                None => ask,
            };
            let (integrity_floor, oldest_leg_ms) = match leg {
                Some(l) => (Some(l.integrity), Some(l.age_ms)),
                None => (None, None),
            };
            CrossVenue {
                bid,
                ask,
                spread: None,
                spread_bps: None,
                mid: None,
                integrity_floor,
                oldest_leg_ms,
                venues_used,
                excluded,
            }
        },
    }
}

/// [`consolidate`], or an error where a derived number is too large to hold.
pub fn try_consolidate(quotes: &[(VenueId, TopOfBook)], policy: CrossPolicy) -> (out: Result<
    CrossVenue,
    Overflow,
>)
    ensures
        out is Ok <==> consolidation_fits(quotes@, policy),
        out matches Ok(o) ==> consolidates(o, quotes@, policy),
        out matches Ok(o) ==> (o.spread matches Some(s) ==> (s.units() <= 0
            <==> o.bid->0.price.units() >= o.ask->0.price.units())),
{
    let (bid, ask, _, _) = survey(quotes, policy);
    match (bid, ask) {
        (Some(b), Some(a)) => {
            if checked_touch(&b.price, &a.price).is_none() {
                return Err(Overflow);
            }
        },
        (_, _) => {},
    }
    Ok(consolidate(quotes, policy))
}

/// Every venue is accounted for: it participates or is named as excluded.
pub proof fn law_every_venue_is_accounted_for(
    quotes: Seq<(VenueId, TopOfBook)>,
    policy: CrossPolicy,
)
    ensures
        participants(quotes, policy) + exclusions(quotes, policy).len() == quotes.len(),
    decreases quotes.len(),
{
    if quotes.len() > 0 {
        law_every_venue_is_accounted_for(quotes.drop_last(), policy);
    }
}

/// No participating venue bids higher than the consolidated bid.
pub proof fn law_best_bid_is_the_highest(
    quotes: Seq<(VenueId, TopOfBook)>,
    policy: CrossPolicy,
    i: int,
)
    requires
        0 <= i < quotes.len(),
        offered_bid(quotes[i], policy) is Some,
    ensures
        best_bid(quotes, policy) is Some,
        best_bid(quotes, policy)->0.price.units() >= offered_bid(quotes[i], policy)->0.price.units(),
    decreases quotes.len(),
{
    if i < quotes.len() - 1 {
        law_best_bid_is_the_highest(quotes.drop_last(), policy, i);
        assert(quotes.drop_last()[i] == quotes[i]);
    } else {
        assert(quotes.last() == quotes[i]);
    }
}

/// No participating venue asks lower than the consolidated ask.
pub proof fn law_best_ask_is_the_lowest(
    quotes: Seq<(VenueId, TopOfBook)>,
    policy: CrossPolicy,
    i: int,
)
    requires
        0 <= i < quotes.len(),
        offered_ask(quotes[i], policy) is Some,
    ensures
        best_ask(quotes, policy) is Some,
        best_ask(quotes, policy)->0.price.units() <= offered_ask(quotes[i], policy)->0.price.units(),
    decreases quotes.len(),
{
    if i < quotes.len() - 1 {
        law_best_ask_is_the_lowest(quotes.drop_last(), policy, i);
        assert(quotes.drop_last()[i] == quotes[i]);
    } else {
        assert(quotes.last() == quotes[i]);
    }
}

/// A book that is not live, or is stale, has no influence: taking it out
/// changes neither leg.
pub proof fn law_excluded_books_have_no_influence(
    quotes: Seq<(VenueId, TopOfBook)>,
    policy: CrossPolicy,
    i: int,
)
    requires
        0 <= i < quotes.len(),
        exclusion(quotes[i].1, policy) is Some,
    ensures
        best_bid(quotes.remove(i), policy) == best_bid(quotes, policy),
        best_ask(quotes.remove(i), policy) == best_ask(quotes, policy),
        participants(quotes.remove(i), policy) == participants(quotes, policy),
    decreases quotes.len(),
{
    if i == quotes.len() - 1 {
        assert(quotes.remove(i) =~= quotes.drop_last());
    } else {
        let rest = quotes.drop_last();
        law_excluded_books_have_no_influence(rest, policy, i);
        assert(quotes.remove(i).drop_last() =~= rest.remove(i));
        assert(quotes.remove(i).last() == quotes.last());
    }
}

/// Who takes part: a live book that was updated within the allowed age and quotes at
/// least one side. Every other is left out for the first of these that fails; one
/// that never applied anything has no age to be young enough.
pub proof fn law_only_live_fresh_quotes_take_part(top: TopOfBook, policy: CrossPolicy)
    requires
        policy.max_age@ < Duration::longest_span()@,
    ensures
        exclusion(top, policy) is None <==> {
            &&& top.state is Live
            &&& top.age matches Some(age) && age@ <= policy.max_age@
            &&& top.bid is Some || top.ask is Some
        },
        exclusion(top, policy) == Some(ExclusionReason::Untrusted) <==> !(top.state is Live),
        exclusion(top, policy) matches Some(ExclusionReason::Stale { age }) ==> {
            &&& top.state is Live
            &&& age@ > policy.max_age@
            &&& top.age matches Some(a) ==> a == age
        },
        exclusion(top, policy) == Some(ExclusionReason::NoQuote) ==> top.state is Live
            && top.bid is None && top.ask is None,
{
}

/// Whoever is left out is named once, with the reason; and nobody else is named.
pub proof fn law_the_left_out_are_named(quotes: Seq<(VenueId, TopOfBook)>, policy: CrossPolicy)
    ensures
        forall|i: int|
            0 <= i < quotes.len() && exclusion((#[trigger] quotes[i]).1, policy) is Some
                ==> exclusions(quotes, policy).contains(
                Exclusion { venue: quotes[i].0, reason: exclusion(quotes[i].1, policy)->0 },
            ),
        forall|k: int|
            0 <= k < exclusions(quotes, policy).len() ==> exists|i: int|
                0 <= i < quotes.len() && Some((#[trigger] exclusions(quotes, policy)[k]).reason)
                    == exclusion((#[trigger] quotes[i]).1, policy) && quotes[i].0 == exclusions(
                    quotes,
                    policy,
                )[k].venue,
    decreases quotes.len(),
{
    if quotes.len() > 0 {
        let fewer = quotes.drop_last();
        let n = quotes.len() - 1;
        let all = exclusions(quotes, policy);
        let before = exclusions(fewer, policy);
        law_the_left_out_are_named(fewer, policy);
        assert forall|i: int|
            0 <= i < quotes.len() && exclusion(
                (#[trigger] quotes[i]).1,
                policy,
            ) is Some implies all.contains(
            Exclusion { venue: quotes[i].0, reason: exclusion(quotes[i].1, policy)->0 },
        ) by {
            let e = Exclusion { venue: quotes[i].0, reason: exclusion(quotes[i].1, policy)->0 };
            if i < n {
                assert(fewer[i] == quotes[i]);
                let k = choose|k: int| 0 <= k < before.len() && before[k] == e;
                assert(all[k] == e);
            } else {
                assert(all[before.len() as int] == e);
            }
        }
        assert forall|k: int| 0 <= k < all.len() implies exists|i: int|
            0 <= i < quotes.len() && Some((#[trigger] all[k]).reason) == exclusion(
                (#[trigger] quotes[i]).1,
                policy,
            ) && quotes[i].0 == all[k].venue by {
            if k < before.len() {
                assert(all[k] == before[k]);
                let i = choose|i: int|
                    0 <= i < fewer.len() && Some(before[k].reason) == exclusion(
                        (#[trigger] fewer[i]).1,
                        policy,
                    ) && fewer[i].0 == before[k].venue;
                assert(quotes[i] == fewer[i]);
            } else {
                assert(quotes[n].0 == all[k].venue);
            }
        }
    }
}

/// Whether a leg is the level that a quote shows, with that quote's age and trust.
pub open spec fn shown_by(leg: CrossLeg, quote: (VenueId, TopOfBook), level: Option<Level>) -> bool {
    &&& leg.venue == quote.0
    &&& level matches Some(l) && leg.price == l.price && leg.qty == l.qty
    &&& quote.1.state.trust() == Some(leg.integrity)
    &&& quote.1.age matches Some(age) ==> leg.age_ms == time::min_nat(
        age@ / 1_000_000,
        u64::MAX as nat,
    )
}

/// The bid is one that a venue taking part shows, with the quantity, age and trust of
/// that venue's own book; and of equal bids the first.
pub proof fn law_the_bid_is_a_venues_own(
    quotes: Seq<(VenueId, TopOfBook)>,
    policy: CrossPolicy,
)
    requires
        best_bid(quotes, policy) is Some,
    ensures
        exists|i: int|
            0 <= i < quotes.len() && exclusion((#[trigger] quotes[i]).1, policy) is None
                && shown_by(best_bid(quotes, policy)->0, quotes[i], quotes[i].1.bid) && forall|
                j: int,
            |
                0 <= j < i && exclusion((#[trigger] quotes[j]).1, policy) is None ==> (
                quotes[j].1.bid matches Some(l) ==> l.price.units() < best_bid(
                    quotes,
                    policy,
                )->0.price.units()),
    decreases quotes.len(),
{
    let fewer = quotes.drop_last();
    let n = quotes.len() - 1;
    let best = best_bid(quotes, policy)->0;
    if best_bid(fewer, policy) == Some(best) {
        law_the_bid_is_a_venues_own(fewer, policy);
        let i = choose|i: int|
            0 <= i < fewer.len() && exclusion((#[trigger] fewer[i]).1, policy) is None && shown_by(
                best,
                fewer[i],
                fewer[i].1.bid,
            ) && forall|j: int|
                0 <= j < i && exclusion((#[trigger] fewer[j]).1, policy) is None ==> (
                fewer[j].1.bid matches Some(l) ==> l.price.units() < best.price.units());
        assert(quotes[i] == fewer[i]);
        assert forall|j: int|
            0 <= j < i && exclusion((#[trigger] quotes[j]).1, policy) is None implies (
        quotes[j].1.bid matches Some(l) ==> l.price.units() < best.price.units()) by {
            assert(fewer[j] == quotes[j]);
        }
    } else {
        assert(offered_bid(quotes[n], policy) == Some(best));
        assert(shown_by(best, quotes[n], quotes[n].1.bid));
        assert forall|j: int|
            0 <= j < n && exclusion((#[trigger] quotes[j]).1, policy) is None implies (
        quotes[j].1.bid matches Some(l) ==> l.price.units() < best.price.units()) by {
            if quotes[j].1.bid is Some {
                assert(fewer[j] == quotes[j]);
                law_best_bid_is_the_highest(fewer, policy, j);
            }
        }
    }
}

/// The ask is one that a venue taking part shows, with the quantity, age and trust of
/// that venue's own book; and of equal asks the first.
pub proof fn law_the_ask_is_a_venues_own(
    quotes: Seq<(VenueId, TopOfBook)>,
    policy: CrossPolicy,
)
    requires
        best_ask(quotes, policy) is Some,
    ensures
        exists|i: int|
            0 <= i < quotes.len() && exclusion((#[trigger] quotes[i]).1, policy) is None
                && shown_by(best_ask(quotes, policy)->0, quotes[i], quotes[i].1.ask) && forall|
                j: int,
            |
                0 <= j < i && exclusion((#[trigger] quotes[j]).1, policy) is None ==> (
                quotes[j].1.ask matches Some(l) ==> l.price.units() > best_ask(
                    quotes,
                    policy,
                )->0.price.units()),
    decreases quotes.len(),
{
    let fewer = quotes.drop_last();
    let n = quotes.len() - 1;
    let best = best_ask(quotes, policy)->0;
    if best_ask(fewer, policy) == Some(best) {
        law_the_ask_is_a_venues_own(fewer, policy);
        let i = choose|i: int|
            0 <= i < fewer.len() && exclusion((#[trigger] fewer[i]).1, policy) is None && shown_by(
                best,
                fewer[i],
                fewer[i].1.ask,
            ) && forall|j: int|
                0 <= j < i && exclusion((#[trigger] fewer[j]).1, policy) is None ==> (
                fewer[j].1.ask matches Some(l) ==> l.price.units() > best.price.units());
        assert(quotes[i] == fewer[i]);
        assert forall|j: int|
            0 <= j < i && exclusion((#[trigger] quotes[j]).1, policy) is None implies (
        quotes[j].1.ask matches Some(l) ==> l.price.units() > best.price.units()) by {
            assert(fewer[j] == quotes[j]);
        }
    } else {
        assert(offered_ask(quotes[n], policy) == Some(best));
        assert(shown_by(best, quotes[n], quotes[n].1.ask));
        assert forall|j: int|
            0 <= j < n && exclusion((#[trigger] quotes[j]).1, policy) is None implies (
        quotes[j].1.ask matches Some(l) ==> l.price.units() > best.price.units()) by {
            if quotes[j].1.ask is Some {
                assert(fewer[j] == quotes[j]);
                law_best_ask_is_the_lowest(fewer, policy, j);
            }
        }
    }
}

/// The consolidated touch is the best of what takes part: every venue that takes part
/// bids no more than the bid and asks no less than the ask, and there is a leg where
/// any of them quotes that side.
pub proof fn law_no_venue_beats_the_consolidated_touch(
    out: CrossVenue,
    quotes: Seq<(VenueId, TopOfBook)>,
    policy: CrossPolicy,
    i: int,
)
    requires
        consolidates(out, quotes, policy),
        0 <= i < quotes.len(),
        exclusion(quotes[i].1, policy) is None,
    ensures
        quotes[i].1.bid matches Some(l) ==> (out.bid matches Some(leg) && l.price.units()
            <= leg.price.units()),
        quotes[i].1.ask matches Some(l) ==> (out.ask matches Some(leg) && l.price.units()
            >= leg.price.units()),
        out.venues_used >= 1,
{
    if quotes[i].1.bid is Some {
        law_best_bid_is_the_highest(quotes, policy, i);
    }
    if quotes[i].1.ask is Some {
        law_best_ask_is_the_lowest(quotes, policy, i);
    }
    lemma_a_participant_counts(quotes, policy, i);
}

proof fn lemma_a_participant_counts(
    quotes: Seq<(VenueId, TopOfBook)>,
    policy: CrossPolicy,
    i: int,
)
    requires
        0 <= i < quotes.len(),
        exclusion(quotes[i].1, policy) is None,
    ensures
        participants(quotes, policy) >= 1,
    decreases quotes.len(),
{
    if i < quotes.len() - 1 {
        lemma_a_participant_counts(quotes.drop_last(), policy, i);
    }
}

/// What is derived from the legs is no better than they are: the integrity floor is
/// one of theirs and no stronger than either, the age is one of theirs and no younger
/// than either; with one leg both are that leg's, and with none there is neither.
/// There is a spread, and a mid, exactly where there are both legs.
pub proof fn law_the_touch_is_as_weak_as_its_weakest_leg(
    out: CrossVenue,
    quotes: Seq<(VenueId, TopOfBook)>,
    policy: CrossPolicy,
)
    requires
        consolidates(out, quotes, policy),
        consolidation_fits(quotes, policy),
    ensures
        out.integrity_floor is Some <==> out.bid is Some || out.ask is Some,
        out.oldest_leg_ms is Some <==> out.bid is Some || out.ask is Some,
        out.bid matches Some(bid) ==> (out.integrity_floor->0).rank() <= bid.integrity.rank()
            && out.oldest_leg_ms->0 >= bid.age_ms,
        out.ask matches Some(ask) ==> (out.integrity_floor->0).rank() <= ask.integrity.rank()
            && out.oldest_leg_ms->0 >= ask.age_ms,
        out.integrity_floor matches Some(floor) ==> {
            ||| out.bid matches Some(bid) && floor == bid.integrity
            ||| out.ask matches Some(ask) && floor == ask.integrity
        },
        out.oldest_leg_ms matches Some(age) ==> {
            ||| out.bid matches Some(bid) && age == bid.age_ms
            ||| out.ask matches Some(ask) && age == ask.age_ms
        },
        out.spread is Some <==> out.bid is Some && out.ask is Some,
        out.mid is Some <==> out.bid is Some && out.ask is Some,
        out.spread_bps is Some ==> out.spread is Some,
{
}

/// The spread is the ask less the bid, the mid lies half way between them, and the
/// spread in basis points is its share of the mid, where no digit is lost on the way.
pub proof fn law_the_spread_is_ask_less_bid(
    out: CrossVenue,
    quotes: Seq<(VenueId, TopOfBook)>,
    policy: CrossPolicy,
)
    requires
        consolidates(out, quotes, policy),
        out.bid is Some,
        out.ask is Some,
    ensures
        ({
            let bid = (out.bid->0).price;
            let ask = (out.ask->0).price;
            &&& decimal::subtracts_exactly(ask@, bid@) ==> (out.spread matches Some(s) && s.units()
                == ask.units() - bid.units())
            &&& decimal::adds_exactly(ask@, bid@) && decimal::divides_exactly(
                decimal::decimal_sum(ask@, bid@)->0,
                decimal::whole(2),
            ) ==> (out.mid matches Some(m) && 2 * m.units() == ask.units() + bid.units())
            &&& out.spread is Some && out.mid is Some && (out.mid->0).units() != 0
                && decimal::multiplies_exactly((out.spread->0)@, decimal::whole(10_000))
                && decimal::divides_exactly(
                decimal::decimal_product((out.spread->0)@, decimal::whole(10_000))->0,
                (out.mid->0)@,
            ) ==> (out.spread_bps matches Some(b) && decimal::nearest_ratio(
                b@,
                10_000 * (out.spread->0).units(),
                (out.mid->0).units(),
                4,
            ))
        }),
{
    let bid = (out.bid->0).price;
    let ask = (out.ask->0).price;
    if decimal::adds_exactly(ask@, bid@) && decimal::divides_exactly(
        decimal::decimal_sum(ask@, bid@)->0,
        decimal::whole(2),
    ) {
        decimal::law_a_midpoint_lies_half_way(ask@, bid@);
    }
    if out.spread is Some && out.mid is Some {
        decimal::lemma_units_sign((out.mid->0)@);
        if decimal::multiplies_exactly((out.spread->0)@, decimal::whole(10_000))
            && decimal::divides_exactly(
            decimal::decimal_product((out.spread->0)@, decimal::whole(10_000))->0,
            (out.mid->0)@,
        ) {
            decimal::law_basis_points_are_ten_thousandths((out.spread->0)@, (out.mid->0)@);
        }
    }
}

} // verus!
