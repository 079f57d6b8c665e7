//! Consolidated windows across the venues of one symbol.
//!
//! Only what has no order is merged: extremes, sums and weighted means. "First
//! across venues" would mean ordering samples of two machines against each
//! other, and there is no clock on which both are ordered, so the first and the
//! last mid are absent from the type. Coverage merges as a floor; delivery lag
//! is published beside it and never folded into it.

use vstd::prelude::*;

use crate::book;
use crate::book::{Integrity, Overflow};
use crate::decimal;
use crate::decimal::{Decimal, Parts};
use crate::event::VenueId;
use crate::time;
use crate::window;
use crate::window::{ReadingView, WindowReading};

verus! {

/// One venue's windows, as delivered, and how stale the delivery was.
#[derive(Clone, Copy, Debug)]
pub struct WindowLeg<'a> {
    pub venue: VenueId,
    /// Delivery lag: zero on the node itself.
    pub lag_ms: u64,
    pub windows: &'a [WindowReading],
}

/// Why a venue is not part of one consolidated window.
#[derive(Clone, Copy, Debug, PartialEq, Eq, Structural)]
pub enum WindowExclusionReason {
    /// The venue publishes no window of this span.
    SpanNotPublished,
    /// The window holds neither a book sample nor a print.
    NoData,
}

impl WindowExclusionReason {
    /// The reason, in words.
    pub open spec fn words(self) -> Seq<char> {
        match self {
            WindowExclusionReason::SpanNotPublished => "publishes no window of this span"@,
            WindowExclusionReason::NoData => "no samples or prints in this window"@,
        }
    }

    /// The reason, in words.
    pub fn describe(&self) -> (s: &'static str)
        ensures
            s@ == self.words(),
    {
        match self {
            WindowExclusionReason::SpanNotPublished => "publishes no window of this span",
            WindowExclusionReason::NoData => "no samples or prints in this window",
        }
    }
}

/// A venue that did not contribute to one consolidated window, and why.
#[derive(Clone, Copy, Debug, PartialEq, Eq, Structural)]
pub struct WindowExclusion {
    pub venue: VenueId,
    pub reason: WindowExclusionReason,
}

/// One consolidated window over every venue tracking a symbol.
#[derive(Debug, PartialEq, Eq)]
pub struct CrossWindowReading {
    pub span_ms: u64,
    /// The least-watched contributor's coverage. Read this first.
    pub trusted_ms_floor: u64,
    /// Weakest guarantee among the legs whose book samples contributed.
    pub integrity_floor: Option<Integrity>,
    /// The stalest contributing delivery.
    pub max_lag_ms: u64,
    pub venues_used: usize,
    pub samples: u64,
    pub high: Option<Decimal>,
    pub low: Option<Decimal>,
    /// Sample-weighted across venues.
    pub mean: Option<Decimal>,
    /// Recomputed from the merged extremes over the merged mean.
    pub range_bps: Option<Decimal>,
    pub trades: u64,
    /// Total quantity printed across venues. `None` when no venue printed.
    pub volume: Option<Decimal>,
    /// Volume-weighted across venues.
    pub vwap: Option<Decimal>,
    pub excluded: Vec<WindowExclusion>,
}

impl Clone for CrossWindowReading {
    fn clone(&self) -> (r: CrossWindowReading)
        ensures
            r == (CrossWindowReading { excluded: r.excluded, ..*self }),
            r.excluded@ == self.excluded@,
    {
        let excluded = self.excluded.clone();
        assert(excluded@ =~= self.excluded@);
        CrossWindowReading {
            span_ms: self.span_ms,
            trusted_ms_floor: self.trusted_ms_floor,
            integrity_floor: self.integrity_floor,
            max_lag_ms: self.max_lag_ms,
            venues_used: self.venues_used,
            samples: self.samples,
            high: self.high,
            low: self.low,
            mean: self.mean,
            range_bps: self.range_bps,
            trades: self.trades,
            volume: self.volume,
            vwap: self.vwap,
            excluded,
        }
    }
}

/// A consolidated reading, its decimals as mantissa and scale.
pub struct CrossReadingView {
    pub span_ms: nat,
    pub trusted_ms_floor: nat,
    pub integrity_floor: Option<Integrity>,
    pub max_lag_ms: nat,
    pub venues_used: nat,
    pub samples: nat,
    pub high: Option<Parts>,
    pub low: Option<Parts>,
    pub mean: Option<Parts>,
    pub range_bps: Option<Parts>,
    pub trades: nat,
    pub volume: Option<Parts>,
    pub vwap: Option<Parts>,
    pub excluded: Seq<WindowExclusion>,
}

impl View for CrossWindowReading {
    type V = CrossReadingView;

    open spec fn view(&self) -> CrossReadingView {
        CrossReadingView {
            span_ms: self.span_ms as nat,
            trusted_ms_floor: self.trusted_ms_floor as nat,
            integrity_floor: self.integrity_floor,
            max_lag_ms: self.max_lag_ms as nat,
            venues_used: self.venues_used as nat,
            samples: self.samples as nat,
            high: decimal::parts_of(self.high),
            low: decimal::parts_of(self.low),
            mean: decimal::parts_of(self.mean),
            range_bps: decimal::parts_of(self.range_bps),
            trades: self.trades as nat,
            volume: decimal::parts_of(self.volume),
            vwap: decimal::parts_of(self.vwap),
            excluded: self.excluded@,
        }
    }
}

/// The first window of the span, if one is published.
pub open spec fn published(windows: Seq<WindowReading>, span_ms: u64) -> Option<ReadingView>
    decreases windows.len(),
{
    if windows.len() == 0 {
        None
    } else {
        match published(windows.drop_last(), span_ms) {
            Some(w) => Some(w),
            None => if windows.last().span_ms == span_ms {
                Some(windows.last()@)
            } else {
                None
            },
        }
    }
}

/// Why a leg does not contribute to a span, if it does not.
pub open spec fn exclusion(leg: WindowLeg, span_ms: u64) -> Option<WindowExclusionReason> {
    match published(leg.windows@, span_ms) {
        None => Some(WindowExclusionReason::SpanNotPublished),
        Some(w) => if w.samples == 0 && w.trades == 0 {
            Some(WindowExclusionReason::NoData)
        } else {
            None
        },
    }
}

/// What has been merged over some legs.
pub struct Merged {
    pub floor: Option<nat>,
    pub integrity: Option<Integrity>,
    pub max_lag: nat,
    pub used: nat,
    pub samples: nat,
    pub high: Option<Parts>,
    pub low: Option<Parts>,
    pub weighted_means: Parts,
    pub trades: nat,
    pub volume: Parts,
    pub weighted_vwaps: Parts,
    pub excluded: Seq<WindowExclusion>,
}

/// Nothing merged.
pub open spec fn nothing_merged() -> Merged {
    Merged {
        floor: None,
        integrity: None,
        max_lag: 0,
        used: 0,
        samples: 0,
        high: None,
        low: None,
        weighted_means: decimal::whole(0),
        trades: 0,
        volume: decimal::whole(0),
        weighted_vwaps: decimal::whole(0),
        excluded: Seq::empty(),
    }
}

/// `sum + factor * weight`, where it can be held.
pub open spec fn weighted(sum: Parts, factor: Parts, weight: Parts) -> Option<Parts> {
    match decimal::decimal_product(factor, weight) {
        Some(product) => decimal::decimal_sum(sum, product),
        None => None,
    }
}

/// The sum of weighted means with one more leg's.
pub open spec fn means_with(m: Merged, w: ReadingView) -> Option<Parts> {
    if w.samples > 0 && w.mean is Some {
        weighted(m.weighted_means, w.mean->0, decimal::whole(w.samples as int))
    } else {
        Some(m.weighted_means)
    }
}

/// The volume with one more leg's.
pub open spec fn volume_with(m: Merged, w: ReadingView) -> Option<Parts> {
    if w.volume is Some && w.vwap is Some {
        decimal::decimal_sum(m.volume, w.volume->0)
    } else {
        Some(m.volume)
    }
}

/// The sum of weighted volume-weighted prices with one more leg's.
pub open spec fn vwaps_with(m: Merged, w: ReadingView) -> Option<Parts> {
    if w.volume is Some && w.vwap is Some {
        weighted(m.weighted_vwaps, w.vwap->0, w.volume->0)
    } else {
        Some(m.weighted_vwaps)
    }
}

/// A contributing window merged in, where the sums can be held. Prices, and the
/// guarantee behind them, come only from legs that sampled a book.
pub open spec fn merged_with(m: Merged, w: ReadingView, lag_ms: nat) -> Option<Merged> {
    match (means_with(m, w), volume_with(m, w), vwaps_with(m, w)) {
        (Some(weighted_means), Some(volume), Some(weighted_vwaps)) => {
            let sampled = w.samples > 0;
            if m.samples + w.samples > u64::MAX || m.trades + w.trades > u64::MAX {
                None
            } else {
                Some(
                    Merged {
                        floor: Some(
                            match m.floor {
                                Some(f) => time::min_nat(f, w.trusted_ms),
                                None => w.trusted_ms,
                            },
                        ),
                        integrity: if sampled {
                            book::weaker_option(m.integrity, w.integrity_floor)
                        } else {
                            m.integrity
                        },
                        max_lag: time::max_nat(m.max_lag, lag_ms),
                        used: m.used + 1,
                        samples: m.samples + w.samples,
                        high: if sampled {
                            window::max_option(m.high, w.high)
                        } else {
                            m.high
                        },
                        low: if sampled {
                            window::min_option(m.low, w.low)
                        } else {
                            m.low
                        },
                        weighted_means,
                        trades: m.trades + w.trades,
                        volume,
                        weighted_vwaps,
                        excluded: m.excluded,
                    },
                )
            }
        },
        _ => None,
    }
}

/// What the legs merge to over one span, where the sums can be held.
pub open spec fn merged(legs: Seq<WindowLeg>, span_ms: u64) -> Option<Merged>
    decreases legs.len(),
{
    if legs.len() == 0 {
        Some(nothing_merged())
    } else {
        let leg = legs.last();
        match merged(legs.drop_last(), span_ms) {
            Some(m) => match exclusion(leg, span_ms) {
                Some(reason) => Some(
                    Merged {
                        excluded: m.excluded.push(WindowExclusion { venue: leg.venue, reason }),
                        ..m
                    },
                ),
                None => merged_with(m, published(leg.windows@, span_ms)->0, leg.lag_ms as nat),
            },
            None => None,
        }
    }
}

/// The mean of all samples.
pub open spec fn mean_of(m: Merged) -> Option<Option<Parts>> {
    window::present_if(
        m.samples > 0,
        window::mid_ratio(m.weighted_means, decimal::whole(m.samples as int)),
    )
}

/// The range between the extremes, against the mean.
pub open spec fn range_of(m: Merged, mean: Option<Parts>) -> Option<Option<Parts>> {
    window::present_if(
        m.samples > 0 && m.high is Some && m.low is Some && mean is Some && (mean->0).0 != 0,
        window::difference_bps(m.high->0, m.low->0, mean->0),
    )
}

/// The price per quantity printed.
pub open spec fn vwap_of(m: Merged) -> Option<Option<Parts>> {
    window::present_if(
        m.trades > 0 && m.volume.0 != 0,
        window::mid_ratio(m.weighted_vwaps, m.volume),
    )
}

/// The reading of what was merged, where it can be held.
pub open spec fn merged_reading(span_ms: nat, m: Merged) -> Option<CrossReadingView> {
    match (mean_of(m), vwap_of(m)) {
        (Some(mean), Some(vwap)) => match range_of(m, mean) {
            Some(range_bps) => Some(
                CrossReadingView {
                    span_ms,
                    trusted_ms_floor: match m.floor {
                        Some(f) => f,
                        None => 0,
                    },
                    integrity_floor: m.integrity,
                    max_lag_ms: m.max_lag,
                    venues_used: m.used,
                    samples: m.samples,
                    high: m.high,
                    low: m.low,
                    mean,
                    range_bps,
                    trades: m.trades,
                    volume: if m.trades > 0 {
                        Some(m.volume)
                    } else {
                        None
                    },
                    vwap,
                    excluded: m.excluded,
                },
            ),
            None => None,
        },
        _ => None,
    }
}

/// The consolidated reading of one span, where it can be held.
pub open spec fn consolidated(legs: Seq<WindowLeg>, span_ms: u64) -> Option<CrossReadingView> {
    match merged(legs, span_ms) {
        Some(m) => merged_reading(span_ms as nat, m),
        None => None,
    }
}

/// Whether some leg publishes a window of the span.
pub open spec fn has_span(legs: Seq<WindowLeg>, span_ms: u64) -> bool {
    exists|i: int, j: int|
        0 <= i < legs.len() && 0 <= j < legs[i].windows@.len()
            && #[trigger] legs[i].windows@[j].span_ms == span_ms
}

/// Whether every consolidated reading can be held.
pub open spec fn consolidation_fits(legs: Seq<WindowLeg>) -> bool {
    forall|span_ms: u64|
        has_span(legs, span_ms) ==> #[trigger] consolidated(legs, span_ms) is Some
}

/// Whether some readings are those of every published span, ascending.
pub open spec fn consolidates(out: Seq<CrossWindowReading>, legs: Seq<WindowLeg>) -> bool {
    &&& forall|i: int, j: int|
        0 <= i < j < out.len() ==> #[trigger] out[i].span_ms < #[trigger] out[j].span_ms
    &&& forall|i: int|
        0 <= i < out.len() ==> has_span(legs, (#[trigger] out[i]).span_ms) && Some(out[i]@)
            == consolidated(legs, out[i].span_ms)
    &&& forall|span_ms: u64| #[trigger]
        has_span(legs, span_ms) ==> exists|i: int|
            0 <= i < out.len() && #[trigger] out[i].span_ms == span_ms
}

/// The first window of the span.
fn find_window(windows: &[WindowReading], span_ms: u64) -> (w: Option<WindowReading>)
    ensures
        w is Some <==> published(windows@, span_ms) is Some,
        w matches Some(w) ==> Some(w@) == published(windows@, span_ms),
{
    let mut i: usize = 0;
    while i < windows.len()
        invariant
            i <= windows@.len(),
            published(windows@.take(i as int), span_ms) is None,
        decreases windows@.len() - i,
    {
        assert(windows@.take(i + 1).drop_last() =~= windows@.take(i as int));
        if windows[i].span_ms == span_ms {
            proof {
                lemma_published_stays(windows@, span_ms, i + 1, windows@.len() as int);
                assert(windows@.take(windows@.len() as int) =~= windows@);
            }
            return Some(windows[i]);
        }
        i += 1;
    }
    assert(windows@.take(windows@.len() as int) =~= windows@);
    None
}

/// The first window of a span stays the first as more windows follow.
proof fn lemma_published_stays(windows: Seq<WindowReading>, span_ms: u64, i: int, n: int)
    requires
        0 <= i <= n <= windows.len(),
        published(windows.take(i), span_ms) is Some,
    ensures
        published(windows.take(n), span_ms) == published(windows.take(i), span_ms),
    decreases n - i,
{
    if i < n {
        lemma_published_stays(windows, span_ms, i, n - 1);
        assert(windows.take(n).drop_last() =~= windows.take(n - 1));
    }
}

/// `sum + factor * weight`, where it can be held.
fn add_weighted(sum: &Decimal, factor: &Decimal, weight: &Decimal) -> (r: Option<Decimal>)
    ensures
        decimal::parts_of(r) == weighted(sum@, factor@, weight@),
{
    match decimal::checked_mul(factor, weight) {
        Some(product) => decimal::checked_add(sum, &product),
        None => None,
    }
}

/// Sums that cannot be held stay that way.
proof fn lemma_merged_stays_none(legs: Seq<WindowLeg>, span_ms: u64, i: int, n: int)
    requires
        0 <= i <= n <= legs.len(),
        merged(legs.take(i), span_ms) is None,
    ensures
        merged(legs.take(n), span_ms) is None,
    decreases n - i,
{
    if i < n {
        lemma_merged_stays_none(legs, span_ms, i, n - 1);
        assert(legs.take(n).drop_last() =~= legs.take(n - 1));
    }
}

/// One span's consolidated reading, where it can be held.
fn consolidate_span(span_ms: u64, legs: &[WindowLeg<'_>]) -> (r: Option<CrossWindowReading>)
    ensures
        r is Some <==> consolidated(legs@, span_ms) is Some,
        r matches Some(out) ==> out.span_ms == span_ms && Some(out@) == consolidated(
            legs@,
            span_ms,
        ),
{
    let mut out = CrossWindowReading {
        span_ms,
        trusted_ms_floor: 0,
        integrity_floor: None,
        max_lag_ms: 0,
        venues_used: 0,
        samples: 0,
        high: None,
        low: None,
        mean: None,
        range_bps: None,
        trades: 0,
        volume: None,
        vwap: None,
        excluded: Vec::new(),
    };
    let mut floor: Option<u64> = None;
    let mut means = Decimal::zero();
    let mut vwaps = Decimal::zero();
    let mut volume = Decimal::zero();
    let ghost mut m: Merged = nothing_merged();
    let mut i: usize = 0;
    assert(legs@.take(0) =~= Seq::empty());
    while i < legs.len()
        invariant
            i <= legs@.len(),
            out.venues_used <= i,
            out.span_ms == span_ms,
            out.trusted_ms_floor == 0,
            out.mean is None,
            out.range_bps is None,
            out.volume is None,
            out.vwap is None,
            merged(legs@.take(i as int), span_ms) == Some(m),
            m.floor == (match floor {
                Some(f) => Some(f as nat),
                None => None,
            }),
            m.integrity == out.integrity_floor,
            m.max_lag == out.max_lag_ms,
            m.used == out.venues_used,
            m.samples == out.samples,
            m.high == decimal::parts_of(out.high),
            m.low == decimal::parts_of(out.low),
            m.weighted_means == means@,
            m.trades == out.trades,
            m.volume == volume@,
            m.weighted_vwaps == vwaps@,
            m.excluded == out.excluded@,
        decreases legs@.len() - i,
    {
        let leg = legs[i];
        let ghost before = m;
        proof {
            assert(legs@.take(i + 1).drop_last() =~= legs@.take(i as int));
            assert(legs@.take(legs@.len() as int) =~= legs@);
            assert(legs@.take(i + 1).last() == leg);
            if merged(legs@.take(i + 1), span_ms) is None {
                lemma_merged_stays_none(legs@, span_ms, i + 1, legs@.len() as int);
            } else {
                m = merged(legs@.take(i + 1), span_ms)->0;
            }
        }
        i += 1;
        let w = match find_window(leg.windows, span_ms) {
            Some(w) => w,
            None => {
                out.excluded.push(
                    WindowExclusion {
                        venue: leg.venue,
                        reason: WindowExclusionReason::SpanNotPublished,
                    },
                );
                continue;
            },
        };
        if w.samples == 0 && w.trades == 0 {
            out.excluded.push(
                WindowExclusion { venue: leg.venue, reason: WindowExclusionReason::NoData },
            );
            continue;
        }
        let samples = match out.samples.checked_add(w.samples) {
            Some(sum) => sum,
            None => return None,
        };
        let trades = match out.trades.checked_add(w.trades) {
            Some(sum) => sum,
            None => return None,
        };
        if w.samples > 0 {
            out.integrity_floor = book::weaker_of(out.integrity_floor, w.integrity_floor);
            out.high = window::max_opt(out.high, w.high);
            out.low = window::min_opt(out.low, w.low);
            match w.mean {
                Some(mean) => {
                    means = match add_weighted(&means, &mean, &Decimal::from_u64(w.samples)) {
                        Some(sum) => sum,
                        None => return None,
                    };
                },
                None => {},
            }
        }
        match (w.volume, w.vwap) {
            (Some(leg_volume), Some(leg_vwap)) => {
                volume = match decimal::checked_add(&volume, &leg_volume) {
                    Some(sum) => sum,
                    None => return None,
                };
                vwaps = match add_weighted(&vwaps, &leg_vwap, &leg_volume) {
                    Some(sum) => sum,
                    None => return None,
                };
            },
            (_, _) => {},
        }
        out.venues_used += 1;
        out.samples = samples;
        out.trades = trades;
        floor = match floor {
            Some(f) => if f < w.trusted_ms {
                Some(f)
            } else {
                Some(w.trusted_ms)
            },
            None => Some(w.trusted_ms),
        };
        if out.max_lag_ms < leg.lag_ms {
            out.max_lag_ms = leg.lag_ms;
        }
    }
    assert(legs@.take(legs@.len() as int) =~= legs@);
    out.trusted_ms_floor = match floor {
        Some(f) => f,
        None => 0,
    };
    if out.samples > 0 {
        let mean = match window::checked_mid_ratio(&means, &Decimal::from_u64(out.samples)) {
            Some(mean) => mean,
            None => return None,
        };
        out.mean = Some(mean);
        match (out.high, out.low) {
            (Some(high), Some(low)) => {
                if !mean.is_zero() {
                    match window::checked_difference_bps(&high, &low, &mean) {
                        Some(bps) => {
                            out.range_bps = Some(bps);
                        },
                        None => return None,
                    }
                }
            },
            (_, _) => {},
        }
    }
    if out.trades > 0 {
        out.volume = Some(volume);
        if !volume.is_zero() {
            match window::checked_mid_ratio(&vwaps, &volume) {
                Some(vwap) => {
                    out.vwap = Some(vwap);
                },
                None => return None,
            }
        }
    }
    Some(out)
}

/// Whether a number is among others.
pub open spec fn among(s: Seq<u64>, n: u64) -> bool {
    exists|i: int| 0 <= i < s.len() && #[trigger] s[i] == n
}

/// Whether numbers strictly increase.
pub open spec fn increasing(s: Seq<u64>) -> bool {
    forall|i: int, j: int| 0 <= i < j < s.len() ==> #[trigger] s[i] < #[trigger] s[j]
}

/// Adds a number to increasing ones, unless it is there.
fn add_span(spans: &mut Vec<u64>, n: u64)
    requires
        increasing(old(spans)@),
    ensures
        increasing(final(spans)@),
        forall|k: u64| #[trigger] among(final(spans)@, k) <==> among(old(spans)@, k) || k == n,
{
    let ghost before = spans@;
    let mut i: usize = 0;
    while i < spans.len() && spans[i] < n
        invariant
            i <= spans@.len(),
            spans@ == before,
            forall|k: int| 0 <= k < i ==> #[trigger] spans@[k] < n,
        decreases spans@.len() - i,
    {
        i += 1;
    }
    if i < spans.len() && spans[i] == n {
        assert(before[i as int] == n);
    } else {
        spans.insert(i, n);
        proof {
            let after = spans@;
            assert forall|a: int, b: int| 0 <= a < b < after.len() implies #[trigger] after[a]
                < #[trigger] after[b] by {
                let pa = if a < i { a } else { a - 1 };
                let pb = if b < i { b } else { b - 1 };
                if a == i {
                    if i < pb {
                        assert(before[i as int] < before[pb]);
                    }
                } else if b != i {
                    assert(before[pa] < before[pb]);
                }
            }
            assert forall|k: u64| #[trigger] among(after, k) <==> among(before, k) || k == n by {
                if among(after, k) {
                    let a = choose|a: int| 0 <= a < after.len() && #[trigger] after[a] == k;
                    if a != i {
                        assert(before[if a < i { a } else { a - 1 }] == k);
                    }
                }
                if among(before, k) {
                    let p = choose|p: int| 0 <= p < before.len() && #[trigger] before[p] == k;
                    assert(after[if p < i { p } else { p + 1 }] == k);
                }
                if k == n {
                    assert(after[i as int] == n);
                }
            }
        }
    }
}

/// Every span any leg publishes, ascending.
fn all_spans(legs: &[WindowLeg<'_>]) -> (spans: Vec<u64>)
    ensures
        increasing(spans@),
        forall|n: u64| #[trigger] among(spans@, n) <==> has_span(legs@, n),
{
    let mut spans: Vec<u64> = Vec::new();
    let mut i: usize = 0;
    while i < legs.len()
        invariant
            i <= legs@.len(),
            increasing(spans@),
            forall|n: u64| #[trigger] among(spans@, n) ==> has_span(legs@, n),
            forall|a: int, b: int|
                0 <= a < i && 0 <= b < legs@[a].windows@.len() ==> among(
                    spans@,
                    #[trigger] legs@[a].windows@[b].span_ms,
                ),
        decreases legs@.len() - i,
    {
        let windows = legs[i].windows;
        let mut j: usize = 0;
        while j < windows.len()
            invariant
                i < legs@.len(),
                windows@ == legs@[i as int].windows@,
                j <= windows@.len(),
                increasing(spans@),
                forall|n: u64| #[trigger] among(spans@, n) ==> has_span(legs@, n),
                forall|a: int, b: int|
                    0 <= a < i && 0 <= b < legs@[a].windows@.len() ==> among(
                        spans@,
                        #[trigger] legs@[a].windows@[b].span_ms,
                    ),
                forall|b: int|
                    0 <= b < j ==> among(spans@, #[trigger] legs@[i as int].windows@[b].span_ms),
            decreases windows@.len() - j,
        {
            assert(has_span(legs@, legs@[i as int].windows@[j as int].span_ms));
            add_span(&mut spans, windows[j].span_ms);
            j += 1;
        }
        i += 1;
    }
    assert forall|n: u64| has_span(legs@, n) implies #[trigger] among(spans@, n) by {
        let (a, b) = choose|a: int, b: int|
            0 <= a < legs@.len() && 0 <= b < legs@[a].windows@.len()
                && #[trigger] legs@[a].windows@[b].span_ms == n;
        assert(among(spans@, legs@[a].windows@[b].span_ms));
    }
    spans
}

/// Consolidate every span any leg publishes, in ascending span order: the legs
/// may disagree about the list, so no single leg's order is authoritative.
pub fn consolidate_windows(legs: &[WindowLeg<'_>]) -> (out: Vec<CrossWindowReading>)
    requires
        consolidation_fits(legs@),
    ensures
        consolidates(out@, legs@),
{
    let spans = all_spans(legs);
    let mut out: Vec<CrossWindowReading> = Vec::new();
    let mut i: usize = 0;
    while i < spans.len()
        invariant
            i <= spans@.len(),
            out@.len() == i,
            increasing(spans@),
            forall|n: u64| #[trigger] among(spans@, n) <==> has_span(legs@, n),
            consolidation_fits(legs@),
            forall|k: int|
                0 <= k < i ==> (#[trigger] out@[k]).span_ms == spans@[k] && Some(out@[k]@)
                    == consolidated(legs@, spans@[k]),
        decreases spans@.len() - i,
    {
        assert(among(spans@, spans@[i as int]));
        assert(consolidated(legs@, spans@[i as int]) is Some);
        let reading = consolidate_span(spans[i], legs).unwrap();
        out.push(reading);
        i += 1;
    }
    proof {
        assert forall|k: int| 0 <= k < out@.len() implies has_span(
            legs@,
            (#[trigger] out@[k]).span_ms,
        ) by {
            assert(among(spans@, spans@[k]));
        }
        assert forall|n: u64| #[trigger] has_span(legs@, n) implies exists|k: int|
            0 <= k < out@.len() && #[trigger] out@[k].span_ms == n by {
            assert(among(spans@, n));
            let k = choose|k: int| 0 <= k < spans@.len() && #[trigger] spans@[k] == n;
            assert(out@[k].span_ms == n);
        }
    }
    out
}

/// [`consolidate_windows`], or an error where a reading is too large to hold.
pub fn try_consolidate_windows(legs: &[WindowLeg<'_>]) -> (out: Result<
    Vec<CrossWindowReading>,
    Overflow,
>)
    ensures
        out is Ok <==> consolidation_fits(legs@),
        out matches Ok(o) ==> consolidates(o@, legs@),
{
    let spans = all_spans(legs);
    let mut i: usize = 0;
    while i < spans.len()
        invariant
            i <= spans@.len(),
            forall|n: u64| #[trigger] among(spans@, n) <==> has_span(legs@, n),
            forall|k: int| 0 <= k < i ==> consolidated(legs@, #[trigger] spans@[k]) is Some,
        decreases spans@.len() - i,
    {
        if consolidate_span(spans[i], legs).is_none() {
            assert(among(spans@, spans@[i as int]));
            assert(consolidated(legs@, spans@[i as int]) is None);
            return Err(Overflow);
        }
        i += 1;
    }
    assert forall|n: u64| has_span(legs@, n) implies #[trigger] consolidated(legs@, n) is Some by {
        assert(among(spans@, n));
        let k = choose|k: int| 0 <= k < spans@.len() && #[trigger] spans@[k] == n;
        assert(consolidated(legs@, spans@[k]) is Some);
    }
    Ok(consolidate_windows(legs))
}

/// Whether a leg contributes to a span.
pub open spec fn contributes(leg: WindowLeg, span_ms: u64) -> bool {
    exclusion(leg, span_ms) is None
}

/// Every venue is accounted for: it contributes or is named as excluded.
pub proof fn law_every_leg_is_accounted_for(legs: Seq<WindowLeg>, span_ms: u64)
    ensures
        merged(legs, span_ms) matches Some(m) ==> m.used + m.excluded.len() == legs.len(),
    decreases legs.len(),
{
    if legs.len() > 0 {
        law_every_leg_is_accounted_for(legs.drop_last(), span_ms);
    }
}

/// Coverage is a floor and lag a ceiling over the contributing legs.
pub proof fn law_coverage_floor_and_lag_ceiling(legs: Seq<WindowLeg>, span_ms: u64, i: int)
    requires
        0 <= i < legs.len(),
        contributes(legs[i], span_ms),
        merged(legs, span_ms) is Some,
    ensures
        ({
            let m = merged(legs, span_ms)->0;
            &&& m.floor matches Some(f) && f <= published(legs[i].windows@, span_ms)->0.trusted_ms
            &&& legs[i].lag_ms <= m.max_lag
        }),
    decreases legs.len(),
{
    if i < legs.len() - 1 {
        law_coverage_floor_and_lag_ceiling(legs.drop_last(), span_ms, i);
    }
}

/// The merged guarantee is no stronger than that of any leg that sampled a book.
pub proof fn law_integrity_is_the_weakest(legs: Seq<WindowLeg>, span_ms: u64, i: int)
    requires
        0 <= i < legs.len(),
        contributes(legs[i], span_ms),
        published(legs[i].windows@, span_ms)->0.samples > 0,
        published(legs[i].windows@, span_ms)->0.integrity_floor is Some,
        merged(legs, span_ms) is Some,
    ensures
        merged(legs, span_ms)->0.integrity matches Some(floor) && floor.rank() <= (published(
            legs[i].windows@,
            span_ms,
        )->0.integrity_floor->0).rank(),
    decreases legs.len(),
{
    if i < legs.len() - 1 {
        law_integrity_is_the_weakest(legs.drop_last(), span_ms, i);
    }
}

/// A venue that does not contribute changes no number, only the list of those
/// left out.
pub proof fn law_excluded_legs_have_no_influence(legs: Seq<WindowLeg>, span_ms: u64, leg: WindowLeg)
    requires
        !contributes(leg, span_ms),
    ensures
        merged(legs, span_ms) is Some <==> merged(legs.push(leg), span_ms) is Some,
        merged(legs, span_ms) matches Some(m) ==> merged(legs.push(leg), span_ms) == Some(
            Merged {
                excluded: m.excluded.push(
                    WindowExclusion { venue: leg.venue, reason: exclusion(leg, span_ms)->0 },
                ),
                ..m
            },
        ),
{
    assert(legs.push(leg).drop_last() =~= legs);
}

/// A venue's window of a span is the first of that span that it publishes.
pub proof fn law_a_published_window_is_the_first_of_its_span(
    windows: Seq<WindowReading>,
    span_ms: u64,
)
    ensures
        published(windows, span_ms) is Some <==> exists|j: int|
            0 <= j < windows.len() && (#[trigger] windows[j]).span_ms == span_ms,
        published(windows, span_ms) matches Some(w) ==> exists|j: int|
            0 <= j < windows.len() && (#[trigger] windows[j]).span_ms == span_ms && windows[j]@ == w
                && forall|k: int| 0 <= k < j ==> (#[trigger] windows[k]).span_ms != span_ms,
    decreases windows.len(),
{
    if windows.len() > 0 {
        let fewer = windows.drop_last();
        let n = windows.len() - 1;
        law_a_published_window_is_the_first_of_its_span(fewer, span_ms);
        assert forall|j: int| 0 <= j < n implies #[trigger] windows[j] == fewer[j] by {}
        if published(fewer, span_ms) is Some {
            let w = published(fewer, span_ms)->0;
            let j = choose|j: int|
                0 <= j < fewer.len() && (#[trigger] fewer[j]).span_ms == span_ms && fewer[j]@ == w
                    && forall|k: int| 0 <= k < j ==> (#[trigger] fewer[k]).span_ms != span_ms;
            assert(windows[j]@ == w);
            assert forall|k: int| 0 <= k < j implies (#[trigger] windows[k]).span_ms != span_ms by {
                assert(fewer[k].span_ms != span_ms);
            }
        } else {
            assert forall|k: int| 0 <= k < n implies (#[trigger] windows[k]).span_ms != span_ms by {
                assert(fewer[k].span_ms != span_ms);
            }
            if windows[n].span_ms == span_ms {
                assert(windows[n]@ == published(windows, span_ms)->0);
            }
        }
    }
}

/// A leg contributes exactly where it publishes the span and saw a sample or a print
/// in it; it is left out for want of the one or of the other.
pub proof fn law_a_leg_contributes_what_it_saw(leg: WindowLeg, span_ms: u64)
    ensures
        contributes(leg, span_ms) <==> (published(leg.windows@, span_ms) matches Some(w) && (
        w.samples > 0 || w.trades > 0)),
        exclusion(leg, span_ms) == Some(WindowExclusionReason::SpanNotPublished) <==> published(
            leg.windows@,
            span_ms,
        ) is None,
{
}

/// What a leg adds to prices: its window, where it contributes and sampled a book.
pub open spec fn sampled(leg: WindowLeg, span_ms: u64) -> Option<ReadingView> {
    match published(leg.windows@, span_ms) {
        Some(w) => if w.samples > 0 {
            Some(w)
        } else {
            None
        },
        None => None,
    }
}

/// The extremes of what was merged bound those of every leg that sampled a book, and
/// are those of such legs.
proof fn lemma_merged_extremes(legs: Seq<WindowLeg>, span_ms: u64, i: int)
    requires
        merged(legs, span_ms) is Some,
        0 <= i < legs.len(),
    ensures
        ({
            let m = merged(legs, span_ms)->0;
            &&& sampled(legs[i], span_ms) matches Some(w) ==> {
                &&& w.high matches Some(h) ==> (m.high matches Some(x) && decimal::units(h)
                    <= decimal::units(x))
                &&& w.low matches Some(l) ==> (m.low matches Some(x) && decimal::units(l)
                    >= decimal::units(x))
            }
        }),
    decreases legs.len(),
{
    if i < legs.len() - 1 {
        lemma_merged_extremes(legs.drop_last(), span_ms, i);
        assert(legs.drop_last()[i] == legs[i]);
    } else {
        assert(legs.last() == legs[i]);
    }
}

proof fn lemma_merged_extremes_are_held(legs: Seq<WindowLeg>, span_ms: u64)
    requires
        merged(legs, span_ms) is Some,
    ensures
        ({
            let m = merged(legs, span_ms)->0;
            &&& m.high is Some ==> exists|i: int|
                0 <= i < legs.len() && (sampled(#[trigger] legs[i], span_ms) matches Some(w)
                    && w.high == m.high)
            &&& m.low is Some ==> exists|i: int|
                0 <= i < legs.len() && (sampled(#[trigger] legs[i], span_ms) matches Some(w)
                    && w.low == m.low)
            &&& m.integrity is Some ==> exists|i: int|
                0 <= i < legs.len() && (sampled(#[trigger] legs[i], span_ms) matches Some(w)
                    && w.integrity_floor == m.integrity)
            &&& m.floor matches Some(f) ==> exists|i: int|
                0 <= i < legs.len() && contributes(#[trigger] legs[i], span_ms) && published(
                    legs[i].windows@,
                    span_ms,
                )->0.trusted_ms == f
            &&& m.used > 0 ==> exists|i: int|
                0 <= i < legs.len() && contributes(#[trigger] legs[i], span_ms) && legs[i].lag_ms
                    == m.max_lag
            &&& m.used == 0 <==> m.floor is None
            &&& m.used == 0 ==> m.max_lag == 0
        }),
    decreases legs.len(),
{
    if legs.len() > 0 {
        let fewer = legs.drop_last();
        let n = legs.len() - 1;
        let m = merged(legs, span_ms)->0;
        let before = merged(fewer, span_ms)->0;
        lemma_merged_extremes_are_held(fewer, span_ms);
        assert forall|i: int| 0 <= i < n implies #[trigger] legs[i] == fewer[i] by {}
        assert(legs[n] == legs.last());
        if m.high is Some && m.high == before.high {
            let i = choose|i: int|
                0 <= i < fewer.len() && (sampled(#[trigger] fewer[i], span_ms) matches Some(w)
                    && w.high == before.high);
            assert(sampled(legs[i], span_ms) == sampled(fewer[i], span_ms));
        } else if m.high is Some {
            assert(sampled(legs[n], span_ms) matches Some(w) && w.high == m.high);
        }
        if m.low is Some && m.low == before.low {
            let i = choose|i: int|
                0 <= i < fewer.len() && (sampled(#[trigger] fewer[i], span_ms) matches Some(w)
                    && w.low == before.low);
            assert(sampled(legs[i], span_ms) == sampled(fewer[i], span_ms));
        } else if m.low is Some {
            assert(sampled(legs[n], span_ms) matches Some(w) && w.low == m.low);
        }
        if m.integrity is Some && m.integrity == before.integrity {
            let i = choose|i: int|
                0 <= i < fewer.len() && (sampled(#[trigger] fewer[i], span_ms) matches Some(w)
                    && w.integrity_floor == before.integrity);
            assert(sampled(legs[i], span_ms) == sampled(fewer[i], span_ms));
        } else if m.integrity is Some {
            assert(sampled(legs[n], span_ms) matches Some(w) && w.integrity_floor == m.integrity);
        }
        if contributes(legs[n], span_ms) {
            if before.floor is Some && m.floor == before.floor {
                let i = choose|i: int|
                    0 <= i < fewer.len() && contributes(#[trigger] fewer[i], span_ms) && published(
                        fewer[i].windows@,
                        span_ms,
                    )->0.trusted_ms == before.floor->0;
                assert(contributes(legs[i], span_ms));
            } else {
                assert(published(legs[n].windows@, span_ms)->0.trusted_ms == m.floor->0);
            }
            if before.used > 0 && m.max_lag == before.max_lag {
                let i = choose|i: int|
                    0 <= i < fewer.len() && contributes(#[trigger] fewer[i], span_ms)
                        && fewer[i].lag_ms == before.max_lag;
                assert(contributes(legs[i], span_ms));
            } else {
                assert(legs[n].lag_ms == m.max_lag);
            }
        } else {
            if m.floor is Some {
                let i = choose|i: int|
                    0 <= i < fewer.len() && contributes(#[trigger] fewer[i], span_ms) && published(
                        fewer[i].windows@,
                        span_ms,
                    )->0.trusted_ms == before.floor->0;
                assert(contributes(legs[i], span_ms));
            }
            if m.used > 0 {
                let i = choose|i: int|
                    0 <= i < fewer.len() && contributes(#[trigger] fewer[i], span_ms)
                        && fewer[i].lag_ms == before.max_lag;
                assert(contributes(legs[i], span_ms));
            }
        }
    }
}

/// The consolidated extremes are extremes: the high is at least that of every leg that
/// sampled a book, the low at most, and each is that of one of them.
pub proof fn law_the_extremes_are_across_venues(
    legs: Seq<WindowLeg>,
    span_ms: u64,
    r: CrossReadingView,
    i: int,
)
    requires
        consolidated(legs, span_ms) == Some(r),
        0 <= i < legs.len(),
    ensures
        sampled(legs[i], span_ms) matches Some(w) ==> {
            &&& w.high matches Some(h) ==> (r.high matches Some(x) && decimal::units(h)
                <= decimal::units(x))
            &&& w.low matches Some(l) ==> (r.low matches Some(x) && decimal::units(l)
                >= decimal::units(x))
        },
        r.high is Some ==> exists|k: int|
            0 <= k < legs.len() && (sampled(#[trigger] legs[k], span_ms) matches Some(w) && w.high
                == r.high),
        r.low is Some ==> exists|k: int|
            0 <= k < legs.len() && (sampled(#[trigger] legs[k], span_ms) matches Some(w) && w.low
                == r.low),
{
    lemma_merged_extremes(legs, span_ms, i);
    lemma_merged_extremes_are_held(legs, span_ms);
}

/// The extremes do not depend on the order of the legs, or on a leg being given twice.
pub proof fn law_the_extremes_ignore_the_order(
    legs: Seq<WindowLeg>,
    others: Seq<WindowLeg>,
    span_ms: u64,
    a: CrossReadingView,
    b: CrossReadingView,
)
    requires
        consolidated(legs, span_ms) == Some(a),
        consolidated(others, span_ms) == Some(b),
        forall|leg: WindowLeg| #[trigger] legs.contains(leg) <==> others.contains(leg),
    ensures
        a.high is Some <==> b.high is Some,
        a.low is Some <==> b.low is Some,
        a.high is Some ==> decimal::units(a.high->0) == decimal::units(b.high->0),
        a.low is Some ==> decimal::units(a.low->0) == decimal::units(b.low->0),
{
    lemma_extremes_bound(legs, others, span_ms, a, b);
    lemma_extremes_bound(others, legs, span_ms, b, a);
}

proof fn lemma_extremes_bound(
    legs: Seq<WindowLeg>,
    others: Seq<WindowLeg>,
    span_ms: u64,
    a: CrossReadingView,
    b: CrossReadingView,
)
    requires
        consolidated(legs, span_ms) == Some(a),
        consolidated(others, span_ms) == Some(b),
        forall|leg: WindowLeg| #[trigger] legs.contains(leg) <==> others.contains(leg),
    ensures
        a.high matches Some(h) ==> (b.high matches Some(x) && decimal::units(h) <= decimal::units(x)),
        a.low matches Some(l) ==> (b.low matches Some(x) && decimal::units(l) >= decimal::units(x)),
{
    lemma_merged_extremes_are_held(legs, span_ms);
    if a.high is Some {
        let i = choose|i: int|
            0 <= i < legs.len() && (sampled(#[trigger] legs[i], span_ms) matches Some(w) && w.high
                == a.high);
        assert(legs.contains(legs[i]));
        let j = choose|j: int| 0 <= j < others.len() && others[j] == legs[i];
        lemma_merged_extremes(others, span_ms, j);
    }
    if a.low is Some {
        let i = choose|i: int|
            0 <= i < legs.len() && (sampled(#[trigger] legs[i], span_ms) matches Some(w) && w.low
                == a.low);
        assert(legs.contains(legs[i]));
        let j = choose|j: int| 0 <= j < others.len() && others[j] == legs[i];
        lemma_merged_extremes(others, span_ms, j);
    }
}

/// Floors and ceilings are reached: the coverage is that of the least-watched leg that
/// contributes, the lag that of the stalest, and the guarantee that of the weakest leg
/// that sampled a book; without a leg there is no coverage and no lag.
pub proof fn law_floors_and_ceilings_are_reached(
    legs: Seq<WindowLeg>,
    span_ms: u64,
    r: CrossReadingView,
    i: int,
)
    requires
        consolidated(legs, span_ms) == Some(r),
        0 <= i < legs.len(),
    ensures
        r.span_ms == span_ms,
        r.venues_used + r.excluded.len() == legs.len(),
        contributes(legs[i], span_ms) ==> {
            &&& r.trusted_ms_floor <= published(legs[i].windows@, span_ms)->0.trusted_ms
            &&& legs[i].lag_ms <= r.max_lag_ms
            &&& r.venues_used > 0
        },
        sampled(legs[i], span_ms) matches Some(w) ==> (w.integrity_floor matches Some(x) ==> (
        r.integrity_floor matches Some(floor) && floor.rank() <= x.rank())),
        r.venues_used > 0 ==> exists|k: int|
            0 <= k < legs.len() && contributes(#[trigger] legs[k], span_ms) && published(
                legs[k].windows@,
                span_ms,
            )->0.trusted_ms == r.trusted_ms_floor,
        r.venues_used > 0 ==> exists|k: int|
            0 <= k < legs.len() && contributes(#[trigger] legs[k], span_ms) && legs[k].lag_ms
                == r.max_lag_ms,
        r.venues_used == 0 ==> r.trusted_ms_floor == 0 && r.max_lag_ms == 0,
        r.integrity_floor is Some ==> exists|k: int|
            0 <= k < legs.len() && (sampled(#[trigger] legs[k], span_ms) matches Some(w)
                && w.integrity_floor == r.integrity_floor),
{
    lemma_merged_extremes_are_held(legs, span_ms);
    law_every_leg_is_accounted_for(legs, span_ms);
    if contributes(legs[i], span_ms) {
        law_coverage_floor_and_lag_ceiling(legs, span_ms, i);
    }
    if sampled(legs[i], span_ms) is Some && (sampled(legs[i], span_ms)->0).integrity_floor is Some {
        law_integrity_is_the_weakest(legs, span_ms, i);
    }
}

/// Without legs nothing is merged: no sample, no print, no number.
pub proof fn law_no_legs_merge_to_nothing(span_ms: u64)
    ensures
        merged(Seq::empty(), span_ms) matches Some(m) && {
            &&& m.samples == 0 && m.trades == 0 && m.used == 0
            &&& m.high is None && m.low is None && m.integrity is None && m.floor is None
            &&& decimal::units(m.volume) == 0
            &&& decimal::units(m.weighted_means) == 0
            &&& decimal::units(m.weighted_vwaps) == 0
            &&& m.excluded.len() == 0
        },
{
}

/// One leg more adds what it saw and nothing else: its samples and prints are counted,
/// its mean counts once per sample, its quantity is added to the volume, and its
/// volume-weighted price counts once per quantity; where no digit is lost, to the last
/// digit.
pub proof fn law_one_leg_more_adds_what_it_saw(
    legs: Seq<WindowLeg>,
    leg: WindowLeg,
    span_ms: u64,
    m: Merged,
    n: Merged,
)
    requires
        merged(legs, span_ms) == Some(m),
        merged(legs.push(leg), span_ms) == Some(n),
        contributes(leg, span_ms),
    ensures
        ({
            let w = published(leg.windows@, span_ms)->0;
            let p = decimal::pow10(decimal::MAX_SCALE as nat);
            &&& n.samples == m.samples + w.samples
            &&& n.trades == m.trades + w.trades
            &&& n.used == m.used + 1
            &&& n.excluded == m.excluded
            &&& w.samples > 0 && w.mean is Some && decimal::multiplies_exactly(
                w.mean->0,
                decimal::whole(w.samples as int),
            ) && decimal::adds_exactly(
                m.weighted_means,
                decimal::decimal_product(w.mean->0, decimal::whole(w.samples as int))->0,
            ) ==> decimal::units(n.weighted_means) == decimal::units(m.weighted_means)
                + decimal::units(w.mean->0) * w.samples
            &&& w.samples == 0 || w.mean is None ==> n.weighted_means == m.weighted_means
            &&& w.volume is Some && w.vwap is Some && decimal::adds_exactly(m.volume, w.volume->0)
                ==> decimal::units(n.volume) == decimal::units(m.volume) + decimal::units(
                w.volume->0,
            )
            &&& w.volume is Some && w.vwap is Some && decimal::multiplies_exactly(
                w.vwap->0,
                w.volume->0,
            ) && decimal::adds_exactly(
                m.weighted_vwaps,
                decimal::decimal_product(w.vwap->0, w.volume->0)->0,
            ) ==> decimal::units(n.weighted_vwaps) * p == decimal::units(m.weighted_vwaps) * p
                + decimal::units(w.vwap->0) * decimal::units(w.volume->0)
            &&& w.volume is None || w.vwap is None ==> n.volume == m.volume && n.weighted_vwaps
                == m.weighted_vwaps
        }),
{
    assert(legs.push(leg).drop_last() =~= legs);
    let w = published(leg.windows@, span_ms)->0;
    let p = decimal::pow10(decimal::MAX_SCALE as nat);
    decimal::lemma_pow10_positive(decimal::MAX_SCALE as nat);
    decimal::lemma_units_of_whole(w.samples as int);
    if w.samples > 0 && w.mean is Some && decimal::multiplies_exactly(
        w.mean->0,
        decimal::whole(w.samples as int),
    ) {
        let x = decimal::units(decimal::decimal_product(w.mean->0, decimal::whole(w.samples as int))->0);
        let u = decimal::units(w.mean->0);
        let k = w.samples as int;
        assert(x == u * k) by (nonlinear_arith)
            requires
                x * p == u * (k * p),
                p >= 1,
        ;
    }
    if w.volume is Some && w.vwap is Some {
        let x = decimal::units(decimal::decimal_product(w.vwap->0, w.volume->0)->0);
        let y = decimal::units(m.weighted_vwaps);
        assert((y + x) * p == y * p + x * p) by (nonlinear_arith);
    }
}

/// What was merged is read as it is: the counts and extremes as they are, the volume
/// where anything was printed, the mean as the weighted means over the samples and the
/// volume-weighted price as the weighted prices over the volume, to eight digits, and
/// the range between the extremes as its share of the mean, in basis points.
pub proof fn law_a_merged_reading_divides_by_its_weights(
    legs: Seq<WindowLeg>,
    span_ms: u64,
    m: Merged,
    r: CrossReadingView,
)
    requires
        merged(legs, span_ms) == Some(m),
        consolidated(legs, span_ms) == Some(r),
    ensures
        r.samples == m.samples,
        r.trades == m.trades,
        r.volume is Some <==> m.trades > 0,
        r.volume matches Some(v) ==> v == m.volume,
        r.mean is Some <==> m.samples > 0,
        r.vwap is Some <==> m.trades > 0 && decimal::units(m.volume) != 0,
        r.mean is Some && decimal::divides_exactly(
            m.weighted_means,
            decimal::whole(m.samples as int),
        ) ==> decimal::nearest_ratio(
            r.mean->0,
            decimal::units(m.weighted_means),
            decimal::units(decimal::whole(m.samples as int)),
            8,
        ),
        r.vwap is Some && decimal::divides_exactly(m.weighted_vwaps, m.volume)
            ==> decimal::nearest_ratio(
            r.vwap->0,
            decimal::units(m.weighted_vwaps),
            decimal::units(m.volume),
            8,
        ),
        r.range_bps is Some ==> r.high is Some && r.low is Some && r.mean is Some,
        r.range_bps is Some && decimal::subtracts_exactly(r.high->0, r.low->0)
            && decimal::multiplies_exactly(
            decimal::decimal_difference(r.high->0, r.low->0)->0,
            decimal::whole(10_000),
        ) && decimal::divides_exactly(
            decimal::decimal_product(
                decimal::decimal_difference(r.high->0, r.low->0)->0,
                decimal::whole(10_000),
            )->0,
            r.mean->0,
        ) ==> decimal::nearest_ratio(
            r.range_bps->0,
            10_000 * (decimal::units(r.high->0) - decimal::units(r.low->0)),
            decimal::units(r.mean->0),
            4,
        ),
{
    decimal::lemma_units_sign(m.volume);
    if m.samples > 0 && decimal::divides_exactly(
        m.weighted_means,
        decimal::whole(m.samples as int),
    ) {
        decimal::lemma_rounded_quotient(m.weighted_means, decimal::whole(m.samples as int), 8);
    }
    if r.vwap is Some && decimal::divides_exactly(m.weighted_vwaps, m.volume) {
        decimal::lemma_rounded_quotient(m.weighted_vwaps, m.volume, 8);
    }
    if r.range_bps is Some {
        let d = decimal::decimal_difference(r.high->0, r.low->0)->0;
        if decimal::multiplies_exactly(d, decimal::whole(10_000)) && decimal::divides_exactly(
            decimal::decimal_product(d, decimal::whole(10_000))->0,
            r.mean->0,
        ) {
            decimal::law_basis_points_are_ten_thousandths(d, r.mean->0);
        }
    }
}

/// Every span that a venue publishes is consolidated, once, and no other is; the
/// consolidated windows go from the shortest span to the longest.
pub proof fn law_every_published_span_is_consolidated(
    out: Seq<CrossWindowReading>,
    legs: Seq<WindowLeg>,
)
    requires
        consolidates(out, legs),
    ensures
        forall|i: int, j: int|
            0 <= i < legs.len() && 0 <= j < legs[i].windows@.len() ==> exists|k: int|
                0 <= k < out.len() && (#[trigger] out[k]).span_ms == (
                #[trigger] legs[i].windows@[j]).span_ms,
        forall|k: int|
            0 <= k < out.len() ==> exists|i: int, j: int|
                0 <= i < legs.len() && 0 <= j < legs[i].windows@.len() && (
                #[trigger] legs[i].windows@[j]).span_ms == (#[trigger] out[k]).span_ms,
        forall|k: int, l: int|
            0 <= k < l < out.len() ==> (#[trigger] out[k]).span_ms < (#[trigger] out[l]).span_ms,
{
    assert forall|i: int, j: int|
        0 <= i < legs.len() && 0 <= j < legs[i].windows@.len() implies exists|k: int|
        0 <= k < out.len() && (#[trigger] out[k]).span_ms == (
        #[trigger] legs[i].windows@[j]).span_ms by {
        assert(has_span(legs, legs[i].windows@[j].span_ms));
    }
    assert forall|k: int| 0 <= k < out.len() implies exists|i: int, j: int|
        0 <= i < legs.len() && 0 <= j < legs[i].windows@.len() && (
        #[trigger] legs[i].windows@[j]).span_ms == (#[trigger] out[k]).span_ms by {
        assert(has_span(legs, out[k].span_ms));
    }
}

} // verus!
