//! Rolling indicators over configurable windows.
//!
//! A "60-second high" claims to be the highest mid over the last sixty seconds.
//! If the book spent twenty of them desynced, the number covers forty. So every
//! [`WindowReading`] says how much of its span the book was trusted for, and the
//! weakest [`Integrity`] that its samples were taken under.
//!
//! There is one ring of fixed-width buckets per stream, sized to the longest
//! configured span; a window is a suffix of that ring. A reading covers whole
//! buckets only: the one in progress is left out. Every duration is monotonic.

use vstd::prelude::*;

use crate::book;
use crate::book::{BookState, Integrity, Overflow, TopOfBook};
use crate::decimal;
use crate::decimal::{Decimal, Parts};
use crate::time;
use crate::time::{Duration, IngestTime};

verus! {

/// Scale for a mean mid and a volume-weighted price: wider than any venue's
/// tick, so that averaging does not round the answer back onto the tick grid.
pub const MID_SCALE: u32 = 8;

/// Bucket width when none is given, in milliseconds.
pub const DEFAULT_RESOLUTION_MS: u64 = 250;

/// Which windows to compute, and how finely.
#[derive(Debug, PartialEq, Eq)]
pub struct WindowSpec {
    /// Bucket width. Every reported span is a whole multiple of this, and every
    /// reading lags by at most this much.
    pub resolution: Duration,
    /// Window lengths to publish, in the order they should be published.
    pub spans: Vec<Duration>,
}

impl Clone for WindowSpec {
    fn clone(&self) -> (s: WindowSpec)
        ensures
            s.resolution == self.resolution,
            s.spans@ == self.spans@,
    {
        let spans = self.spans.clone();
        assert(spans@ =~= self.spans@);
        WindowSpec { resolution: self.resolution, spans }
    }
}

impl Default for WindowSpec {
    fn default() -> (s: WindowSpec)
        ensures
            s.resolution@ == 250_000_000,
            s.spans@.len() == 3,
            s.spans@[0]@ == time::NANOS_PER_SEC,
            s.spans@[1]@ == 10 * time::NANOS_PER_SEC,
            s.spans@[2]@ == 60 * time::NANOS_PER_SEC,
    {
        let mut spans: Vec<Duration> = Vec::new();
        spans.push(Duration::from_secs(1));
        spans.push(Duration::from_secs(10));
        spans.push(Duration::from_secs(60));
        WindowSpec::new(Duration::from_millis(DEFAULT_RESOLUTION_MS), &spans)
    }
}

impl WindowSpec {
    /// Build from arbitrary spans, normalising the two ways this can be
    /// nonsense: a resolution under a millisecond becomes one, and a span
    /// shorter than one bucket becomes one bucket.
    pub fn new(resolution: Duration, spans: &[Duration]) -> (s: WindowSpec)
        ensures
            s.resolution@ == time::max_nat(resolution@, 1_000_000),
            s.spans@.len() == spans@.len(),
            forall|i: int|
                0 <= i < spans@.len() ==> (#[trigger] s.spans@[i])@ == time::max_nat(
                    spans@[i]@,
                    s.resolution@,
                ),
    {
        let resolution = resolution.longer(Duration::from_millis(1));
        let mut out: Vec<Duration> = Vec::new();
        let mut i: usize = 0;
        while i < spans.len()
            invariant
                i <= spans@.len(),
                out@.len() == i,
                forall|k: int|
                    0 <= k < i ==> (#[trigger] out@[k])@ == time::max_nat(spans@[k]@, resolution@),
            decreases spans@.len() - i,
        {
            out.push(spans[i].longer(resolution));
            i += 1;
        }
        WindowSpec { resolution, spans: out }
    }

    /// The longest configured span, which sizes the ring.
    fn longest(&self) -> (d: Duration)
        ensures
            d@ == longest_of(self.spans@),
    {
        let mut best = Duration::zero();
        let mut i: usize = 0;
        while i < self.spans.len()
            invariant
                i <= self.spans@.len(),
                best@ == longest_of(self.spans@.take(i as int)),
            decreases self.spans@.len() - i,
        {
            best = best.longer(self.spans[i]);
            i += 1;
            assert(self.spans@.take(i as int).drop_last() =~= self.spans@.take(i - 1));
        }
        assert(self.spans@.take(self.spans@.len() as int) =~= self.spans@);
        best
    }
}

/// The longest of some spans; nothing where there are none.
pub open spec fn longest_of(spans: Seq<Duration>) -> nat
    decreases spans.len(),
{
    if spans.len() == 0 {
        0
    } else {
        time::max_nat(longest_of(spans.drop_last()), spans.last()@)
    }
}

/// One window's indicators, as of the last completed bucket.
///
/// The book-derived fields (`first` through `mean_spread_bps`) are `None` when
/// no trusted two-sided sample landed in the window, the trade-derived ones when
/// no print did.
#[derive(Clone, Copy, Debug, PartialEq, Eq)]
pub struct WindowReading {
    /// The window actually examined: the configured span rounded up to a whole
    /// number of buckets.
    pub span_ms: u64,
    /// How much of `span_ms` the book was live for. Read this first.
    pub trusted_ms: u64,
    /// Book updates that produced a two-sided mid inside the window.
    pub samples: u64,
    /// Weakest guarantee any sample in the window was taken under.
    pub integrity_floor: Option<Integrity>,
    /// Mid at the start of the window, and at the end.
    pub first: Option<Decimal>,
    pub last: Option<Decimal>,
    pub high: Option<Decimal>,
    pub low: Option<Decimal>,
    /// Mean of every sampled mid, each sample counting once.
    pub mean: Option<Decimal>,
    /// `(last - first) / first`, in basis points. Negative is down.
    pub change_bps: Option<Decimal>,
    /// `(high - low) / mean`, in basis points.
    pub range_bps: Option<Decimal>,
    /// Mean quoted spread over the window, in basis points of mid.
    pub mean_spread_bps: Option<Decimal>,
    /// Prints observed in the window, whatever the book's state.
    pub trades: u64,
    /// Total quantity printed in the window.
    pub volume: Option<Decimal>,
    /// Volume-weighted average price of the window's prints.
    pub vwap: Option<Decimal>,
}

/// A reading, its decimals as mantissa and scale.
pub struct ReadingView {
    pub span_ms: nat,
    pub trusted_ms: nat,
    pub samples: nat,
    pub integrity_floor: Option<Integrity>,
    pub first: Option<Parts>,
    pub last: Option<Parts>,
    pub high: Option<Parts>,
    pub low: Option<Parts>,
    pub mean: Option<Parts>,
    pub change_bps: Option<Parts>,
    pub range_bps: Option<Parts>,
    pub mean_spread_bps: Option<Parts>,
    pub trades: nat,
    pub volume: Option<Parts>,
    pub vwap: Option<Parts>,
}

impl View for WindowReading {
    type V = ReadingView;

    open spec fn view(&self) -> ReadingView {
        ReadingView {
            span_ms: self.span_ms as nat,
            trusted_ms: self.trusted_ms as nat,
            samples: self.samples as nat,
            integrity_floor: self.integrity_floor,
            first: decimal::parts_of(self.first),
            last: decimal::parts_of(self.last),
            high: decimal::parts_of(self.high),
            low: decimal::parts_of(self.low),
            mean: decimal::parts_of(self.mean),
            change_bps: decimal::parts_of(self.change_bps),
            range_bps: decimal::parts_of(self.range_bps),
            mean_spread_bps: decimal::parts_of(self.mean_spread_bps),
            trades: self.trades as nat,
            volume: decimal::parts_of(self.volume),
            vwap: decimal::parts_of(self.vwap),
        }
    }
}

/// The reading of a window in which nothing happened.
pub open spec fn empty_reading(span_ms: nat) -> ReadingView {
    ReadingView {
        span_ms,
        trusted_ms: 0,
        samples: 0,
        integrity_floor: None,
        first: None,
        last: None,
        high: None,
        low: None,
        mean: None,
        change_bps: None,
        range_bps: None,
        mean_spread_bps: None,
        trades: 0,
        volume: None,
        vwap: None,
    }
}

impl WindowReading {
    /// An empty window of the given span.
    pub fn empty(span_ms: u64) -> (r: WindowReading)
        ensures
            r@ == empty_reading(span_ms as nat),
    {
        WindowReading {
            span_ms,
            trusted_ms: 0,
            samples: 0,
            integrity_floor: None,
            first: None,
            last: None,
            high: None,
            low: None,
            mean: None,
            change_bps: None,
            range_bps: None,
            mean_spread_bps: None,
            trades: 0,
            volume: None,
            vwap: None,
        }
    }

    /// True when the window covers less time than its label claims.
    pub fn is_partial(&self) -> (b: bool)
        ensures
            b == (self.trusted_ms < self.span_ms),
    {
        self.trusted_ms < self.span_ms
    }
}

/// One resolution's worth of samples, aggregated. The index is the absolute
/// bucket number, so that a stale slot can be recognised.
#[derive(Clone, Copy, Debug)]
pub struct Bucket {
    pub index: Option<u64>,
    pub samples: u64,
    pub sum_mid: Decimal,
    pub sum_spread: Decimal,
    pub first: Option<Decimal>,
    pub last: Option<Decimal>,
    pub high: Option<Decimal>,
    pub low: Option<Decimal>,
    pub integrity: Option<Integrity>,
    pub trades: u64,
    pub sum_qty: Decimal,
    pub sum_price_qty: Decimal,
    /// Time inside this bucket during which the book was not live.
    pub untrusted: Duration,
}

/// A bucket, its decimals as mantissa and scale.
pub struct BucketView {
    pub index: Option<u64>,
    pub samples: nat,
    pub sum_mid: Parts,
    pub sum_spread: Parts,
    pub first: Option<Parts>,
    pub last: Option<Parts>,
    pub high: Option<Parts>,
    pub low: Option<Parts>,
    pub integrity: Option<Integrity>,
    pub trades: nat,
    pub sum_qty: Parts,
    pub sum_price_qty: Parts,
    pub untrusted: nat,
}

impl View for Bucket {
    type V = BucketView;

    open spec fn view(&self) -> BucketView {
        BucketView {
            index: self.index,
            samples: self.samples as nat,
            sum_mid: self.sum_mid@,
            sum_spread: self.sum_spread@,
            first: decimal::parts_of(self.first),
            last: decimal::parts_of(self.last),
            high: decimal::parts_of(self.high),
            low: decimal::parts_of(self.low),
            integrity: self.integrity,
            trades: self.trades as nat,
            sum_qty: self.sum_qty@,
            sum_price_qty: self.sum_price_qty@,
            untrusted: self.untrusted@,
        }
    }
}

/// A bucket in which nothing has happened.
pub open spec fn fresh_bucket(index: Option<u64>) -> BucketView {
    BucketView {
        index,
        samples: 0,
        sum_mid: decimal::whole(0),
        sum_spread: decimal::whole(0),
        first: None,
        last: None,
        high: None,
        low: None,
        integrity: None,
        trades: 0,
        sum_qty: decimal::whole(0),
        sum_price_qty: decimal::whole(0),
        untrusted: 0,
    }
}

/// Whether numbers drawn from samples go together: without a sample there are
/// none of them, with one there are all, and the first and the last lie between
/// the extremes.
pub open spec fn go_together(
    samples: nat,
    integrity: Option<Integrity>,
    first: Option<Parts>,
    last: Option<Parts>,
    high: Option<Parts>,
    low: Option<Parts>,
) -> bool {
    if samples == 0 {
        integrity is None && first is None && last is None && high is None && low is None
    } else {
        &&& integrity is Some && first is Some && last is Some && high is Some && low is Some
        &&& decimal::units(low->0) <= decimal::units(first->0) <= decimal::units(high->0)
        &&& decimal::units(low->0) <= decimal::units(last->0) <= decimal::units(high->0)
    }
}

/// Whether a bucket's numbers go together.
pub open spec fn coherent_bucket(b: BucketView) -> bool {
    go_together(b.samples, b.integrity, b.first, b.last, b.high, b.low)
}

/// Whether every bucket's numbers go together.
pub open spec fn coherent_ring(ring: Seq<BucketView>) -> bool {
    forall|i: int| 0 <= i < ring.len() ==> coherent_bucket(#[trigger] ring[i])
}

/// Whether a reading's numbers go together: those drawn from samples are there
/// exactly where there is a sample, those drawn from prints exactly where there is
/// a print, and the first and the last mid lie between the extremes.
pub open spec fn coherent_reading(r: ReadingView) -> bool {
    &&& go_together(r.samples, r.integrity_floor, r.first, r.last, r.high, r.low)
    &&& r.mean is Some <==> r.samples > 0
    &&& r.volume is Some <==> r.trades > 0
}

/// The larger of two numbers where there are two, the first of equals.
pub open spec fn higher(held: Option<Parts>, d: Parts) -> Parts {
    match held {
        Some(h) => if decimal::units(h) < decimal::units(d) {
            d
        } else {
            h
        },
        None => d,
    }
}

/// The smaller of two numbers where there are two, the first of equals.
pub open spec fn lower(held: Option<Parts>, d: Parts) -> Parts {
    match held {
        Some(l) => if decimal::units(d) < decimal::units(l) {
            d
        } else {
            l
        },
        None => d,
    }
}

/// A bucket with one more book sample, where its sums can be held.
pub open spec fn recorded(b: BucketView, mid: Parts, spread: Parts, integrity: Integrity) -> Option<
    BucketView,
> {
    match (
        decimal::decimal_sum(b.sum_mid, mid),
        decimal::decimal_sum(b.sum_spread, spread),
    ) {
        (Some(sum_mid), Some(sum_spread)) => if b.samples < u64::MAX {
            Some(
                BucketView {
                    samples: b.samples + 1,
                    sum_mid,
                    sum_spread,
                    first: if b.first is Some {
                        b.first
                    } else {
                        Some(mid)
                    },
                    last: Some(mid),
                    high: Some(higher(b.high, mid)),
                    low: Some(lower(b.low, mid)),
                    integrity: book::weaker_option(b.integrity, Some(integrity)),
                    ..b
                },
            )
        } else {
            None
        },
        _ => None,
    }
}

/// A bucket with one more print, where its sums can be held.
pub open spec fn traded(b: BucketView, price: Parts, qty: Parts) -> Option<BucketView> {
    match decimal::decimal_product(price, qty) {
        Some(value) => match (
            decimal::decimal_sum(b.sum_qty, qty),
            decimal::decimal_sum(b.sum_price_qty, value),
        ) {
            (Some(sum_qty), Some(sum_price_qty)) => if b.trades < u64::MAX {
                Some(BucketView { trades: b.trades + 1, sum_qty, sum_price_qty, ..b })
            } else {
                None
            },
            _ => None,
        },
        None => None,
    }
}

impl Bucket {
    fn fresh(index: Option<u64>) -> (b: Bucket)
        ensures
            b@ == fresh_bucket(index),
    {
        Bucket {
            index,
            samples: 0,
            sum_mid: Decimal::zero(),
            sum_spread: Decimal::zero(),
            first: None,
            last: None,
            high: None,
            low: None,
            integrity: None,
            trades: 0,
            sum_qty: Decimal::zero(),
            sum_price_qty: Decimal::zero(),
            untrusted: Duration::zero(),
        }
    }

    fn recorded(&self, mid: Decimal, spread: Decimal, integrity: Integrity) -> (r: Option<Bucket>)
        ensures
            r is Some <==> recorded(self@, mid@, spread@, integrity) is Some,
            r matches Some(b) ==> Some(b@) == recorded(self@, mid@, spread@, integrity),
    {
        let sum_mid = match decimal::checked_add(&self.sum_mid, &mid) {
            Some(sum) => sum,
            None => return None,
        };
        let sum_spread = match decimal::checked_add(&self.sum_spread, &spread) {
            Some(sum) => sum,
            None => return None,
        };
        if self.samples == u64::MAX {
            return None;
        }
        let first = match self.first {
            Some(f) => Some(f),
            None => Some(mid),
        };
        let high = match self.high {
            Some(h) => Some(h.max(mid)),
            None => Some(mid),
        };
        let low = match self.low {
            Some(l) => Some(l.min(mid)),
            None => Some(mid),
        };
        Some(
            Bucket {
                index: self.index,
                samples: self.samples + 1,
                sum_mid,
                sum_spread,
                first,
                last: Some(mid),
                high,
                low,
                integrity: book::weaker_of(self.integrity, Some(integrity)),
                trades: self.trades,
                sum_qty: self.sum_qty,
                sum_price_qty: self.sum_price_qty,
                untrusted: self.untrusted,
            },
        )
    }

    fn traded(&self, price: Decimal, qty: Decimal) -> (r: Option<Bucket>)
        ensures
            r is Some <==> traded(self@, price@, qty@) is Some,
            r matches Some(b) ==> Some(b@) == traded(self@, price@, qty@),
    {
        let value = match decimal::checked_mul(&price, &qty) {
            Some(value) => value,
            None => return None,
        };
        let sum_qty = match decimal::checked_add(&self.sum_qty, &qty) {
            Some(sum) => sum,
            None => return None,
        };
        let sum_price_qty = match decimal::checked_add(&self.sum_price_qty, &value) {
            Some(sum) => sum,
            None => return None,
        };
        if self.trades == u64::MAX {
            return None;
        }
        let mut b = *self;
        b.trades = self.trades + 1;
        b.sum_qty = sum_qty;
        b.sum_price_qty = sum_price_qty;
        Some(b)
    }
}

/// Buckets needed to cover a span, rounding up.
pub open spec fn buckets_needed(span: nat, resolution: nat) -> nat {
    let r = time::max_nat(resolution, 1);
    time::min_nat((span + r - 1) as nat / r, u64::MAX as nat)
}

/// The number of the bucket that a moment falls in, counted from the origin.
pub open spec fn bucket_number(origin: nat, resolution: nat, at: nat) -> nat {
    time::min_nat(
        time::minus_nat(at, origin) / time::max_nat(resolution, 1),
        u64::MAX as nat,
    )
}

/// When a bucket starts. A start that the clock cannot show is the origin, and
/// one past the 64-bit range of nanoseconds is the end of that range.
pub open spec fn bucket_start(origin: nat, resolution: nat, index: nat) -> nat {
    time::advanced_mono(origin, time::min_nat(index * resolution, u64::MAX as nat))
}

/// The slot of a bucket in a ring.
pub open spec fn slot_of(ring: Seq<BucketView>, index: nat) -> int {
    (index % ring.len()) as int
}

/// The bucket held for an index, if the ring holds one.
pub open spec fn bucket_at(ring: Seq<BucketView>, index: nat) -> Option<BucketView> {
    let b = ring[slot_of(ring, index)];
    if b.index == Some(index as u64) {
        Some(b)
    } else {
        None
    }
}

/// The bucket for an index, new if the slot holds another one.
pub open spec fn open_bucket(ring: Seq<BucketView>, index: nat) -> BucketView {
    match bucket_at(ring, index) {
        Some(b) => b,
        None => fresh_bucket(Some(index as u64)),
    }
}

/// The ring with a bucket put into its slot.
pub open spec fn with_bucket(ring: Seq<BucketView>, index: nat, b: BucketView) -> Seq<BucketView> {
    ring.update(slot_of(ring, index), b)
}

/// The ring with some untrusted time put to a bucket's account; no time at all
/// still opens the bucket.
pub open spec fn with_untrusted(ring: Seq<BucketView>, index: nat, nanos: nat) -> Seq<BucketView> {
    let b = open_bucket(ring, index);
    with_bucket(
        ring,
        index,
        BucketView {
            untrusted: time::min_nat(b.untrusted + nanos, time::DURATION_LIMIT as nat),
            ..b
        },
    )
}

/// The end of the part of an interval that lies in one bucket.
pub open spec fn slice_end(origin: nat, resolution: nat, cursor: nat, now: nat) -> nat {
    time::min_nat(
        bucket_start(
            origin,
            resolution,
            time::min_nat(bucket_number(origin, resolution, cursor) + 1, u64::MAX as nat),
        ),
        now,
    )
}

/// The ring after the interval from `cursor` to `now` has been put to the
/// account of the buckets it covers, slice by slice: each is opened, and charged
/// with its slice unless the book was trusted.
pub open spec fn charged(
    ring: Seq<BucketView>,
    origin: nat,
    resolution: nat,
    trusted: bool,
    cursor: nat,
    now: nat,
) -> Seq<BucketView>
    decreases now - cursor,
{
    if cursor >= now {
        ring
    } else {
        let end = slice_end(origin, resolution, cursor, now);
        let elapsed = if trusted {
            0
        } else {
            time::minus_nat(end, cursor)
        };
        let next = with_untrusted(ring, bucket_number(origin, resolution, cursor), elapsed);
        if end <= cursor {
            next
        } else {
            charged(next, origin, resolution, trusted, end, now)
        }
    }
}

/// Where accounting resumes: where it stopped, or, after a stall longer than the
/// whole ring, at the oldest bucket that can still be read.
pub open spec fn resume_at(
    len: nat,
    origin: nat,
    resolution: nat,
    charged_to: nat,
    now: nat,
) -> nat {
    let end = bucket_number(origin, resolution, now);
    if time::minus_nat(end, bucket_number(origin, resolution, charged_to)) >= len {
        bucket_start(origin, resolution, time::minus_nat(end, len) + 1)
    } else {
        charged_to
    }
}

/// The ring after time has moved on to `now`.
pub open spec fn charged_ring(
    ring: Seq<BucketView>,
    origin: nat,
    resolution: nat,
    trusted: bool,
    charged_to: nat,
    now: nat,
) -> Seq<BucketView> {
    if now <= charged_to {
        ring
    } else {
        charged(
            ring,
            origin,
            resolution,
            trusted,
            resume_at(ring.len(), origin, resolution, charged_to, now),
            now,
        )
    }
}

/// What has been added up over some buckets.
pub struct Totals {
    pub trusted_ms: nat,
    pub trades: nat,
    pub samples: nat,
    pub sum_mid: Parts,
    pub sum_spread: Parts,
    pub sum_qty: Parts,
    pub sum_price_qty: Parts,
    pub first: Option<Parts>,
    pub last: Option<Parts>,
    pub high: Option<Parts>,
    pub low: Option<Parts>,
    pub integrity: Option<Integrity>,
}

/// Nothing added up.
pub open spec fn no_totals() -> Totals {
    Totals {
        trusted_ms: 0,
        trades: 0,
        samples: 0,
        sum_mid: decimal::whole(0),
        sum_spread: decimal::whole(0),
        sum_qty: decimal::whole(0),
        sum_price_qty: decimal::whole(0),
        first: None,
        last: None,
        high: None,
        low: None,
        integrity: None,
    }
}

/// The larger of two numbers where there are two, the second of equals.
pub open spec fn max_option(a: Option<Parts>, b: Option<Parts>) -> Option<Parts> {
    match (a, b) {
        (Some(x), Some(y)) => if decimal::units(y) < decimal::units(x) {
            Some(x)
        } else {
            Some(y)
        },
        (Some(x), None) => Some(x),
        (None, y) => y,
    }
}

/// The smaller of two numbers where there are two, the first of equals.
pub open spec fn min_option(a: Option<Parts>, b: Option<Parts>) -> Option<Parts> {
    match (a, b) {
        (Some(x), Some(y)) => if decimal::units(y) < decimal::units(x) {
            Some(y)
        } else {
            Some(x)
        },
        (Some(x), None) => Some(x),
        (None, y) => y,
    }
}

/// The larger of two numbers where there are two, the second of equals.
pub(crate) fn max_opt(a: Option<Decimal>, b: Option<Decimal>) -> (r: Option<Decimal>)
    ensures
        decimal::parts_of(r) == max_option(decimal::parts_of(a), decimal::parts_of(b)),
{
    match (a, b) {
        (Some(x), Some(y)) => Some(y.max(x)),
        (Some(x), None) => Some(x),
        (None, y) => y,
    }
}

/// The smaller of two numbers where there are two, the first of equals.
pub(crate) fn min_opt(a: Option<Decimal>, b: Option<Decimal>) -> (r: Option<Decimal>)
    ensures
        decimal::parts_of(r) == min_option(decimal::parts_of(a), decimal::parts_of(b)),
{
    match (a, b) {
        (Some(x), Some(y)) => Some(x.min(y)),
        (Some(x), None) => Some(x),
        (None, y) => y,
    }
}

/// How long a bucket was trusted for, in milliseconds.
pub open spec fn covered_ms(b: BucketView, resolution: nat) -> nat {
    time::min_nat(time::minus_nat(resolution, b.untrusted) / 1_000_000, u64::MAX as nat)
}

/// Totals with one more bucket, where they can be held.
pub open spec fn totals_with(t: Totals, b: BucketView, resolution: nat) -> Option<Totals> {
    match (
        decimal::decimal_sum(t.sum_qty, b.sum_qty),
        decimal::decimal_sum(t.sum_price_qty, b.sum_price_qty),
    ) {
        (Some(sum_qty), Some(sum_price_qty)) => {
            let u = Totals {
                trusted_ms: t.trusted_ms + covered_ms(b, resolution),
                trades: t.trades + b.trades,
                sum_qty,
                sum_price_qty,
                ..t
            };
            if u.trusted_ms > u64::MAX || u.trades > u64::MAX {
                None
            } else if b.samples == 0 {
                Some(u)
            } else {
                match (
                    decimal::decimal_sum(t.sum_mid, b.sum_mid),
                    decimal::decimal_sum(t.sum_spread, b.sum_spread),
                ) {
                    (Some(sum_mid), Some(sum_spread)) => if t.samples + b.samples > u64::MAX {
                        None
                    } else {
                        Some(
                            Totals {
                                samples: t.samples + b.samples,
                                sum_mid,
                                sum_spread,
                                first: if t.first is Some {
                                    t.first
                                } else {
                                    b.first
                                },
                                last: if b.last is Some {
                                    b.last
                                } else {
                                    t.last
                                },
                                high: max_option(t.high, b.high),
                                low: min_option(t.low, b.low),
                                integrity: book::weaker_option(t.integrity, b.integrity),
                                ..u
                            },
                        )
                    },
                    _ => None,
                }
            }
        },
        _ => None,
    }
}

/// What adds up over `n` consecutive bucket numbers; those that never existed
/// contribute nothing, least of all coverage.
pub open spec fn totals(ring: Seq<BucketView>, resolution: nat, oldest: nat, n: nat) -> Option<
    Totals,
>
    decreases n,
{
    if n == 0 {
        Some(no_totals())
    } else {
        match totals(ring, resolution, oldest, (n - 1) as nat) {
            Some(t) => match bucket_at(ring, (oldest + n - 1) as nat) {
                Some(b) => totals_with(t, b, resolution),
                None => Some(t),
            },
            None => None,
        }
    }
}

/// A quotient rounded to the scale of a mid.
pub open spec fn mid_ratio(a: Parts, b: Parts) -> Option<Parts> {
    match decimal::decimal_quotient(a, b) {
        Some(q) => Some(decimal::rounded(q, MID_SCALE as nat)),
        None => None,
    }
}

/// `a - b` in basis points of `c`.
pub open spec fn difference_bps(a: Parts, b: Parts, c: Parts) -> Option<Parts> {
    match decimal::decimal_difference(a, b) {
        Some(d) => decimal::basis_points(d, c),
        None => None,
    }
}

/// An indicator that is present under a condition, where it can be held.
pub open spec fn present_if(condition: bool, value: Option<Parts>) -> Option<Option<Parts>> {
    if !condition {
        Some(None)
    } else {
        match value {
            Some(v) => Some(Some(v)),
            None => None,
        }
    }
}

/// The price per quantity printed.
pub open spec fn vwap_of(t: Totals) -> Option<Option<Parts>> {
    present_if(t.trades > 0 && t.sum_qty.0 != 0, mid_ratio(t.sum_price_qty, t.sum_qty))
}

/// The mean of the sampled mids.
pub open spec fn mean_of(t: Totals) -> Option<Option<Parts>> {
    present_if(t.samples > 0, mid_ratio(t.sum_mid, decimal::whole(t.samples as int)))
}

/// The move from the first mid to the last.
pub open spec fn change_of(t: Totals) -> Option<Option<Parts>> {
    present_if(
        t.samples > 0 && t.first is Some && t.last is Some && (t.first->0).0 != 0,
        difference_bps(t.last->0, t.first->0, t.first->0),
    )
}

/// The range between the extremes, against the mean.
pub open spec fn range_of(t: Totals, mean: Option<Parts>) -> Option<Option<Parts>> {
    present_if(
        t.samples > 0 && t.high is Some && t.low is Some && mean is Some && (mean->0).0 != 0,
        difference_bps(t.high->0, t.low->0, mean->0),
    )
}

/// The mean spread, against the mean mid.
pub open spec fn spread_of(t: Totals) -> Option<Option<Parts>> {
    present_if(
        t.samples > 0 && t.sum_mid.0 != 0,
        decimal::basis_points(t.sum_spread, t.sum_mid),
    )
}

/// The indicators of some totals, where they can be held.
pub open spec fn indicators(span_ms: nat, t: Totals) -> Option<ReadingView> {
    match (vwap_of(t), mean_of(t)) {
        (Some(vwap), Some(mean)) => match (change_of(t), range_of(t, mean), spread_of(t)) {
            (Some(change_bps), Some(range_bps), Some(mean_spread_bps)) => Some(
                ReadingView {
                    span_ms,
                    trusted_ms: t.trusted_ms,
                    samples: t.samples,
                    integrity_floor: t.integrity,
                    first: t.first,
                    last: t.last,
                    high: t.high,
                    low: t.low,
                    mean,
                    change_bps,
                    range_bps,
                    mean_spread_bps,
                    trades: t.trades,
                    volume: if t.trades > 0 {
                        Some(t.sum_qty)
                    } else {
                        None
                    },
                    vwap,
                },
            ),
            _ => None,
        },
        _ => None,
    }
}

/// The span that is examined for a configured one, in milliseconds.
pub open spec fn examined_ms(span: nat, resolution: nat) -> nat {
    let k = buckets_needed(span, resolution);
    time::min_nat(
        time::min_nat(
            resolution * time::min_nat(k, u32::MAX as nat),
            time::DURATION_LIMIT as nat,
        ) / 1_000_000,
        u64::MAX as nat,
    )
}

/// The oldest of the buckets that a window examines when bucket `end` is in
/// progress.
pub open spec fn oldest_examined(span: nat, resolution: nat, end: nat) -> nat {
    let k = buckets_needed(span, resolution);
    time::minus_nat((end - 1) as nat, time::minus_nat(k, 1))
}

/// One window's reading: the completed buckets right before the one in
/// progress. Before any bucket has completed there is nothing to read.
pub open spec fn span_reading(
    ring: Seq<BucketView>,
    resolution: nat,
    span: nat,
    end: nat,
) -> Option<ReadingView> {
    if end == 0 {
        Some(empty_reading(examined_ms(span, resolution)))
    } else {
        let oldest = oldest_examined(span, resolution, end);
        match totals(ring, resolution, oldest, (end - oldest) as nat) {
            Some(t) => indicators(examined_ms(span, resolution), t),
            None => None,
        }
    }
}

/// Every configured window over one stream, backed by a single bucket ring.
#[derive(Debug)]
pub struct RollingWindows {
    spec: WindowSpec,
    buckets: Vec<Bucket>,
    /// Bucket zero starts here.
    origin: IngestTime,
    /// Time up to which trust has been accounted. Everything after it is
    /// charged at the current trust state on the next call.
    charged_to: IngestTime,
    /// Whether the book was live as of `charged_to`.
    trusted: bool,
}

impl Clone for RollingWindows {
    fn clone(&self) -> (w: RollingWindows)
        ensures
            w.ring() == self.ring(),
            w.resolution() == self.resolution(),
            w.spans() == self.spans(),
            w.origin_nanos() == self.origin_nanos(),
            w.charged_nanos() == self.charged_nanos(),
            w.trusting() == self.trusting(),
    {
        proof {
            use_type_invariant(self);
        }
        let buckets = self.buckets.clone();
        assert(buckets@ =~= self.buckets@);
        RollingWindows {
            spec: self.spec.clone(),
            buckets,
            origin: self.origin,
            charged_to: self.charged_to,
            trusted: self.trusted,
        }
    }
}

/// The views of some buckets.
pub open spec fn bucket_views(buckets: Seq<Bucket>) -> Seq<BucketView> {
    Seq::new(buckets.len(), |i: int| buckets[i]@)
}

impl RollingWindows {
    /// The buckets.
    pub closed spec fn ring(self) -> Seq<BucketView> {
        bucket_views(self.buckets@)
    }

    /// The bucket width, in nanoseconds.
    pub closed spec fn resolution(self) -> nat {
        self.spec.resolution@
    }

    /// The configured spans.
    pub closed spec fn spans(self) -> Seq<Duration> {
        self.spec.spans@
    }

    /// When bucket zero starts, on the monotonic clock.
    pub closed spec fn origin_nanos(self) -> nat {
        self.origin.mono_nanos()
    }

    /// How far trust has been accounted, on the monotonic clock.
    pub closed spec fn charged_nanos(self) -> nat {
        self.charged_to.mono_nanos()
    }

    /// Whether the time that passes now counts as trusted.
    pub closed spec fn trusting(self) -> bool {
        self.trusted
    }

    /// There is at least one bucket, and the numbers of each go together.
    #[verifier::type_invariant]
    closed spec fn sound(self) -> bool {
        self.buckets@.len() > 0 && coherent_ring(self.ring())
    }

    /// The ring after time has moved on to `at`.
    pub open spec fn ring_at(self, at: IngestTime) -> Seq<BucketView> {
        charged_ring(
            self.ring(),
            self.origin_nanos(),
            self.resolution(),
            self.trusting(),
            self.charged_nanos(),
            at.mono_nanos(),
        )
    }

    /// How far trust has been accounted after time has moved on to `at`.
    pub open spec fn charged_at(self, at: IngestTime) -> nat {
        time::max_nat(self.charged_nanos(), at.mono_nanos())
    }

    /// The number of the bucket that a moment falls in.
    pub open spec fn number_at(self, at: IngestTime) -> nat {
        bucket_number(self.origin_nanos(), self.resolution(), at.mono_nanos())
    }

    /// What stays the same for good.
    pub open spec fn same_shape(self, other: RollingWindows) -> bool {
        &&& self.spans() == other.spans()
        &&& self.resolution() == other.resolution()
        &&& self.origin_nanos() == other.origin_nanos()
        &&& self.ring().len() == other.ring().len()
    }

    pub fn new(spec: WindowSpec, now: IngestTime) -> (w: RollingWindows)
        ensures
            w.spans() == spec.spans@,
            w.resolution() == spec.resolution@,
            w.origin_nanos() == now.mono_nanos(),
            w.charged_nanos() == now.mono_nanos(),
            !w.trusting(),
            w.ring().len() == time::min_nat(
                time::min_nat(
                    buckets_needed(longest_of(spec.spans@), spec.resolution@),
                    usize::MAX as nat,
                ) + 1,
                usize::MAX as nat,
            ),
            forall|i: int| 0 <= i < w.ring().len() ==> #[trigger] w.ring()[i] == fresh_bucket(None),
    {
        // Enough slots for the bucket in progress and every completed bucket
        // that the longest window can reach.
        let k: u64 = buckets_for(spec.longest(), spec.resolution);
        let len: usize = if k < usize::MAX as u64 {
            k as usize + 1
        } else {
            usize::MAX
        };
        let mut buckets: Vec<Bucket> = Vec::new();
        let mut i: usize = 0;
        while i < len
            invariant
                i <= len,
                buckets@.len() == i,
                forall|j: int| 0 <= j < i ==> (#[trigger] buckets@[j])@ == fresh_bucket(None),
            decreases len - i,
        {
            buckets.push(Bucket::fresh(None));
            i += 1;
        }
        assert(coherent_ring(bucket_views(buckets@)));
        RollingWindows { spec, buckets, origin: now, charged_to: now, trusted: false }
    }

    pub fn spec(&self) -> (s: &WindowSpec)
        ensures
            s.resolution@ == self.resolution(),
            s.spans@ == self.spans(),
    {
        &self.spec
    }

    /// How many buckets there are.
    pub fn buckets(&self) -> (n: usize)
        ensures
            n == self.ring().len(),
    {
        self.buckets.len()
    }

    /// Whether a book observation can be folded in: its mid and spread, and the
    /// sums they go into, can be held.
    pub open spec fn observation_fits(self, top: TopOfBook, at: IngestTime) -> bool {
        top.state is Live && top.touch() is Some ==> {
            let (bid, ask) = top.touch()->0;
            let mid = decimal::midpoint(bid, ask);
            let spread = decimal::decimal_difference(ask, bid);
            &&& mid is Some
            &&& spread is Some
            &&& recorded(
                open_bucket(self.ring_at(at), self.number_at(at)),
                mid->0,
                spread->0,
                top.state.trust()->0,
            ) is Some
        }
    }

    /// The ring after a book observation: time moves on, and a live two-sided
    /// book leaves a sample.
    pub open spec fn observed_ring(self, top: TopOfBook, at: IngestTime) -> Seq<BucketView> {
        if top.state is Live && top.touch() is Some {
            let (bid, ask) = top.touch()->0;
            let ring = self.ring_at(at);
            let index = self.number_at(at);
            with_bucket(
                ring,
                index,
                recorded(
                    open_bucket(ring, index),
                    decimal::midpoint(bid, ask)->0,
                    decimal::decimal_difference(ask, bid)->0,
                    top.state.trust()->0,
                )->0,
            )
        } else {
            self.ring_at(at)
        }
    }

    /// Fold one book observation in.
    ///
    /// The interval since the last call is charged before the trust state
    /// changes: a book that has just lost trust was trusted up to now. A
    /// one-sided book has no mid, and none is invented.
    pub fn observe(&mut self, top: &TopOfBook, at: IngestTime)
        requires
            old(self).observation_fits(*top, at),
        ensures
            final(self).same_shape(*old(self)),
            final(self).charged_nanos() == old(self).charged_at(at),
            final(self).trusting() == (top.state is Live),
            final(self).ring() == old(self).observed_ring(*top, at),
    {
        self.charge(at);
        proof {
            use_type_invariant(&*self);
        }
        let integrity = match top.state {
            BookState::Live { integrity, .. } => {
                self.trusted = true;
                integrity
            },
            _ => {
                self.trusted = false;
                return;
            },
        };
        match (top.bid, top.ask) {
            (Some(bid), Some(ask)) => {
                let bid = bid.price.as_decimal();
                let ask = ask.price.as_decimal();
                let mid = decimal::checked_midpoint(&bid, &ask).unwrap();
                let spread = decimal::checked_sub(&ask, &bid).unwrap();
                let index: u64 = self.index_at(at);
                let bucket = self.opened(index);
                let recorded_bucket = bucket.recorded(mid, spread, integrity).unwrap();
                self.store(index, recorded_bucket);
            },
            (_, _) => {},
        }
    }

    /// [`RollingWindows::observe`]; where the sample cannot be held, time moves
    /// on and the trust state changes but no sample is left.
    pub fn try_observe(&mut self, top: &TopOfBook, at: IngestTime) -> (r: Result<(), Overflow>)
        ensures
            r is Ok <==> old(self).observation_fits(*top, at),
            final(self).same_shape(*old(self)),
            final(self).charged_nanos() == old(self).charged_at(at),
            final(self).trusting() == (top.state is Live),
            final(self).ring() == (if r is Ok {
                old(self).observed_ring(*top, at)
            } else {
                old(self).ring_at(at)
            }),
    {
        self.charge(at);
        proof {
            use_type_invariant(&*self);
        }
        match (top.state, top.bid, top.ask) {
            (BookState::Live { integrity, .. }, Some(bid), Some(ask)) => {
                let bid = bid.price.as_decimal();
                let ask = ask.price.as_decimal();
                let bucket = self.opened(self.index_at(at));
                let fits = match (
                    decimal::checked_midpoint(&bid, &ask),
                    decimal::checked_sub(&ask, &bid),
                ) {
                    (Some(mid), Some(spread)) => bucket.recorded(mid, spread, integrity).is_some(),
                    (_, _) => false,
                };
                if !fits {
                    self.trusted = true;
                    return Err(Overflow);
                }
            },
            (_, _, _) => {},
        }
        self.observe(top, at);
        Ok(())
    }

    /// Whether a print can be folded in.
    pub open spec fn trade_fits(self, price: Parts, qty: Parts, at: IngestTime) -> bool {
        traded(open_bucket(self.ring_at(at), self.number_at(at)), price, qty) is Some
    }

    /// The ring after a print.
    pub open spec fn traded_ring(self, price: Parts, qty: Parts, at: IngestTime) -> Seq<
        BucketView,
    > {
        let ring = self.ring_at(at);
        let index = self.number_at(at);
        with_bucket(ring, index, traded(open_bucket(ring, index), price, qty)->0)
    }

    /// Fold one print in, whatever the book's state: a print is the venue's fact
    /// about its own matches. It does not touch the trust state.
    pub fn observe_trade(&mut self, price: Decimal, qty: Decimal, at: IngestTime)
        requires
            old(self).trade_fits(price@, qty@, at),
        ensures
            final(self).same_shape(*old(self)),
            final(self).charged_nanos() == old(self).charged_at(at),
            final(self).trusting() == old(self).trusting(),
            final(self).ring() == old(self).traded_ring(price@, qty@, at),
    {
        self.charge(at);
        let index: u64 = self.index_at(at);
        let bucket = self.opened(index);
        let traded_bucket = bucket.traded(price, qty).unwrap();
        self.store(index, traded_bucket);
    }

    /// [`RollingWindows::observe_trade`]; where the print cannot be held, time
    /// moves on but the print is not counted.
    pub fn try_observe_trade(&mut self, price: Decimal, qty: Decimal, at: IngestTime) -> (r: Result<
        (),
        Overflow,
    >)
        ensures
            r is Ok <==> old(self).trade_fits(price@, qty@, at),
            final(self).same_shape(*old(self)),
            final(self).charged_nanos() == old(self).charged_at(at),
            final(self).trusting() == old(self).trusting(),
            final(self).ring() == (if r is Ok {
                old(self).traded_ring(price@, qty@, at)
            } else {
                old(self).ring_at(at)
            }),
    {
        self.charge(at);
        let bucket = self.opened(self.index_at(at));
        if bucket.traded(price, qty).is_none() {
            return Err(Overflow);
        }
        self.observe_trade(price, qty, at);
        Ok(())
    }

    /// One span's reading after time has moved on to `now`.
    pub open spec fn reading_of(self, span: Duration, now: IngestTime) -> Option<ReadingView> {
        span_reading(self.ring_at(now), self.resolution(), span@, self.number_at(now))
    }

    /// Whether every reading can be held.
    pub open spec fn reading_fits(self, now: IngestTime) -> bool {
        forall|i: int|
            0 <= i < self.spans().len() ==> #[trigger] self.reading_of(self.spans()[i], now) is Some
    }

    /// Every configured window, in the order of the configured spans.
    ///
    /// Reading moves time on: a book that has been silently live, or silently
    /// desynced, since the last observation has still spent that time so.
    pub fn read(&mut self, now: IngestTime) -> (readings: Vec<WindowReading>)
        requires
            old(self).reading_fits(now),
        ensures
            final(self).same_shape(*old(self)),
            final(self).charged_nanos() == old(self).charged_at(now),
            final(self).trusting() == old(self).trusting(),
            final(self).ring() == old(self).ring_at(now),
            readings@.len() == old(self).spans().len(),
            forall|i: int|
                0 <= i < readings@.len() ==> Some((#[trigger] readings@[i])@) == old(
                    self,
                ).reading_of(old(self).spans()[i], now),
            forall|i: int| 0 <= i < readings@.len() ==> coherent_reading((#[trigger] readings@[i])@),
    {
        let ghost before = *self;
        self.charge(now);
        proof {
            use_type_invariant(&*self);
        }
        let end: u64 = self.index_at(now);
        let mut out: Vec<WindowReading> = Vec::new();
        let mut i: usize = 0;
        while i < self.spec.spans.len()
            invariant
                i <= self.spans().len(),
                out@.len() == i,
                self.same_shape(before),
                self.ring() == before.ring_at(now),
                end == before.number_at(now),
                before.reading_fits(now),
                coherent_ring(self.ring()),
                self.ring().len() > 0,
                forall|k: int|
                    0 <= k < i ==> Some((#[trigger] out@[k])@) == before.reading_of(
                        before.spans()[k],
                        now,
                    ) && coherent_reading(out@[k]@),
            decreases self.spans().len() - i,
        {
            let span = self.spec.spans[i];
            assert(before.reading_of(before.spans()[i as int], now) is Some);
            proof {
                law_a_reading_goes_together(self.ring(), self.resolution(), span@, end as nat);
            }
            let reading = self.read_span(span, end).unwrap();
            out.push(reading);
            i += 1;
        }
        out
    }

    /// [`RollingWindows::read`]; where a reading cannot be held, time moves on
    /// and there is none.
    pub fn try_read(&mut self, now: IngestTime) -> (readings: Result<Vec<WindowReading>, Overflow>)
        ensures
            readings is Ok <==> old(self).reading_fits(now),
            final(self).same_shape(*old(self)),
            final(self).charged_nanos() == old(self).charged_at(now),
            final(self).trusting() == old(self).trusting(),
            final(self).ring() == old(self).ring_at(now),
            readings matches Ok(r) ==> r@.len() == old(self).spans().len() && forall|i: int|
                0 <= i < r@.len() ==> Some((#[trigger] r@[i])@) == old(self).reading_of(
                    old(self).spans()[i],
                    now,
                ) && coherent_reading(r@[i]@),
    {
        let ghost before = *self;
        self.charge(now);
        let end: u64 = self.index_at(now);
        let mut i: usize = 0;
        while i < self.spec.spans.len()
            invariant
                i <= self.spans().len(),
                before == *old(self),
                self.same_shape(before),
                self.ring() == before.ring_at(now),
                self.charged_nanos() == before.charged_at(now),
                self.trusting() == before.trusting(),
                end == before.number_at(now),
                forall|k: int|
                    0 <= k < i ==> #[trigger] before.reading_of(before.spans()[k], now) is Some,
            decreases self.spans().len() - i,
        {
            let span = self.spec.spans[i];
            if self.read_span(span, end).is_none() {
                assert(before.reading_of(before.spans()[i as int], now) is None);
                return Err(Overflow);
            }
            i += 1;
        }
        assert(before.reading_fits(now));
        proof {
            assert forall|k: int| 0 <= k < self.spans().len() implies #[trigger] self.reading_of(
                self.spans()[k],
                now,
            ) == before.reading_of(before.spans()[k], now) by {}
            assert forall|k: int| 0 <= k < self.spans().len() implies #[trigger] self.reading_of(
                self.spans()[k],
                now,
            ) is Some by {
                assert(before.reading_of(before.spans()[k], now) is Some);
            }
        }
        Ok(self.read(now))
    }

    /// One window: the completed buckets ending immediately before the bucket in
    /// progress, where the reading can be held.
    fn read_span(&self, span: Duration, end: u64) -> (r: Option<WindowReading>)
        ensures
            r is Some <==> span_reading(self.ring(), self.resolution(), span@, end as nat) is Some,
            r matches Some(reading) ==> Some(reading@) == span_reading(
                self.ring(),
                self.resolution(),
                span@,
                end as nat,
            ),
    {
        let k: u64 = buckets_for(span, self.spec.resolution);
        let factor: u32 = if k < u32::MAX as u64 {
            k as u32
        } else {
            u32::MAX
        };
        let span_ms: u64 = self.spec.resolution.saturating_mul(factor).whole_millis();
        if end == 0 {
            return Some(WindowReading::empty(span_ms));
        }
        let newest: u64 = end - 1;
        let reach: u64 = if k > 1 {
            k - 1
        } else {
            0
        };
        let oldest: u64 = if reach < newest {
            newest - reach
        } else {
            0
        };
        let mut out = WindowReading::empty(span_ms);
        let mut sum_mid = Decimal::zero();
        let mut sum_spread = Decimal::zero();
        let mut sum_qty = Decimal::zero();
        let mut sum_price_qty = Decimal::zero();
        let mut index: u64 = oldest;
        let ghost mut t: Totals = no_totals();
        while index < end
            invariant
                oldest <= index <= end,
                out.span_ms == span_ms,
                out.mean is None,
                out.change_bps is None,
                out.range_bps is None,
                out.mean_spread_bps is None,
                out.volume is None,
                out.vwap is None,
                totals(self.ring(), self.resolution(), oldest as nat, (index - oldest) as nat)
                    == Some(t),
                t == (Totals {
                    trusted_ms: out.trusted_ms as nat,
                    trades: out.trades as nat,
                    samples: out.samples as nat,
                    sum_mid: sum_mid@,
                    sum_spread: sum_spread@,
                    sum_qty: sum_qty@,
                    sum_price_qty: sum_price_qty@,
                    first: decimal::parts_of(out.first),
                    last: decimal::parts_of(out.last),
                    high: decimal::parts_of(out.high),
                    low: decimal::parts_of(out.low),
                    integrity: out.integrity_floor,
                }),
                span_ms == examined_ms(span@, self.resolution()),
                oldest == oldest_examined(span@, self.resolution(), end as nat),
                end > 0,
            decreases end - index,
        {
            let ghost seen = (index - oldest) as nat;
            let held = self.slot(index);
            index += 1;
            assert((index - oldest) as nat == seen + 1);
            let bucket = match held {
                Some(bucket) => bucket,
                None => continue,
            };
            let ghost next = totals_with(t, bucket@, self.resolution());
            proof {
                if next is None {
                    lemma_totals_stay_none(
                        self.ring(),
                        self.resolution(),
                        oldest as nat,
                        (index - oldest) as nat,
                        (end - oldest) as nat,
                    );
                }
            }
            let covered: u64 = self.spec.resolution.saturating_sub(bucket.untrusted).whole_millis();
            let new_qty = match decimal::checked_add(&sum_qty, &bucket.sum_qty) {
                Some(sum) => sum,
                None => return None,
            };
            let new_price_qty = match decimal::checked_add(
                &sum_price_qty,
                &bucket.sum_price_qty,
            ) {
                Some(sum) => sum,
                None => return None,
            };
            let trusted_ms = match out.trusted_ms.checked_add(covered) {
                Some(sum) => sum,
                None => return None,
            };
            let trades = match out.trades.checked_add(bucket.trades) {
                Some(sum) => sum,
                None => return None,
            };
            if bucket.samples > 0 {
                let new_mid = match decimal::checked_add(&sum_mid, &bucket.sum_mid) {
                    Some(sum) => sum,
                    None => return None,
                };
                let new_spread = match decimal::checked_add(&sum_spread, &bucket.sum_spread) {
                    Some(sum) => sum,
                    None => return None,
                };
                let samples = match out.samples.checked_add(bucket.samples) {
                    Some(sum) => sum,
                    None => return None,
                };
                out.samples = samples;
                sum_mid = new_mid;
                sum_spread = new_spread;
                if out.first.is_none() {
                    out.first = bucket.first;
                }
                if bucket.last.is_some() {
                    out.last = bucket.last;
                }
                out.high = max_opt(out.high, bucket.high);
                out.low = min_opt(out.low, bucket.low);
                out.integrity_floor = book::weaker_of(out.integrity_floor, bucket.integrity);
            }
            out.trusted_ms = trusted_ms;
            out.trades = trades;
            sum_qty = new_qty;
            sum_price_qty = new_price_qty;
            proof {
                t = next->0;
            }
        }
        finish_reading(out, sum_mid, sum_spread, sum_qty, sum_price_qty, Ghost(t))
    }

    /// Attribute elapsed time to buckets at the trust state that was in force
    /// while it elapsed.
    fn charge(&mut self, now: IngestTime)
        ensures
            final(self).same_shape(*old(self)),
            final(self).charged_nanos() == old(self).charged_at(now),
            final(self).trusting() == old(self).trusting(),
            final(self).ring() == old(self).ring_at(now),
    {
        proof {
            use_type_invariant(&*self);
        }
        if !self.charged_to.before(&now) {
            return;
        }
        let ghost before = *self;
        let ghost len = self.ring().len();
        let now_nanos: u128 = now.mono().as_nanos();
        let width: u128 = self.spec.resolution.as_nanos();
        assert(self.resolution() == width);
        let end: u64 = self.index_at(now);
        let start: u64 = self.index_at(self.charged_to);
        let mut cursor: u128 = self.charged_to.mono().as_nanos();
        let behind: u64 = if start < end {
            end - start
        } else {
            0
        };
        // A stall longer than the whole ring: everything it covered has aged
        // out of every window.
        if behind as u128 >= self.buckets.len() as u128 {
            let ring: u64 = self.buckets.len() as u64;
            let first: u64 = (if ring < end {
                end - ring
            } else {
                0
            }) + 1;
            proof {
                lemma_start_fits(
                    self.origin_nanos(),
                    self.resolution(),
                    now.mono_nanos(),
                    first as nat,
                );
            }
            cursor = self.start_of(first);
        }
        let ghost target = self.ring_at(now);
        assert(target == charged(
            self.ring(),
            self.origin_nanos(),
            self.resolution(),
            self.trusting(),
            cursor as nat,
            now_nanos as nat,
        ));
        while cursor < now_nanos
            invariant_except_break
                charged(
                    self.ring(),
                    self.origin_nanos(),
                    self.resolution(),
                    self.trusting(),
                    cursor as nat,
                    now_nanos as nat,
                ) == target,
            invariant
                self.same_shape(before),
                self.trusting() == before.trusting(),
                now_nanos <= time::READING_LIMIT,
                before.resolution() <= time::DURATION_LIMIT,
                self.buckets@.len() > 0,
            ensures
                self.ring() == target,
            decreases now_nanos - cursor,
        {
            let index: u64 = self.number_of(cursor);
            let next: u64 = if index < u64::MAX {
                index + 1
            } else {
                u64::MAX
            };
            proof {
                lemma_start_fits(
                    self.origin_nanos(),
                    self.resolution(),
                    cursor as nat,
                    next as nat,
                );
            }
            let boundary: u128 = self.start_of(next);
            let slice: u128 = if boundary < now_nanos {
                boundary
            } else {
                now_nanos
            };
            let elapsed: u128 = if self.trusted || slice <= cursor {
                0
            } else {
                slice - cursor
            };
            let mut bucket = self.opened(index);
            bucket.untrusted = bucket.untrusted.saturating_add(span_of(elapsed));
            self.store(index, bucket);
            if slice <= cursor {
                break;
            }
            cursor = slice;
        }
        proof {
            use_type_invariant(&*self);
        }
        self.charged_to = now;
    }

    /// The number of the bucket that a moment falls in.
    fn index_at(&self, t: IngestTime) -> (i: u64)
        ensures
            i == self.number_at(t),
    {
        self.number_of(t.mono().as_nanos())
    }

    /// The number of the bucket that a monotonic reading falls in.
    fn number_of(&self, nanos: u128) -> (i: u64)
        ensures
            i == bucket_number(self.origin_nanos(), self.resolution(), nanos as nat),
    {
        let origin: u128 = self.origin.mono().as_nanos();
        let elapsed: u128 = if origin < nanos {
            nanos - origin
        } else {
            0
        };
        let resolution: u128 = at_least_one(self.spec.resolution.as_nanos());
        time::clamp_u64(elapsed / resolution)
    }

    /// When a bucket starts, as a monotonic reading.
    fn start_of(&self, index: u64) -> (nanos: u128)
        requires
            index * self.resolution() <= u128::MAX,
        ensures
            nanos == bucket_start(self.origin_nanos(), self.resolution(), index as nat),
    {
        let width: u128 = self.spec.resolution.as_nanos();
        assert(index as nat * self.resolution() == self.resolution() * index as nat)
            by (nonlinear_arith);
        let offset: u128 = index as u128 * width;
        let origin: u128 = self.origin.mono().as_nanos();
        let sum: u128 = origin + time::clamp_u64(offset) as u128;
        if sum <= time::READING_LIMIT {
            sum
        } else {
            origin
        }
    }

    /// The bucket held for an index, if there is one.
    fn slot(&self, index: u64) -> (b: Option<Bucket>)
        ensures
            b is Some <==> bucket_at(self.ring(), index as nat) is Some,
            b matches Some(b) ==> Some(b@) == bucket_at(self.ring(), index as nat),
    {
        proof {
            use_type_invariant(self);
        }
        let slot: usize = (index % self.buckets.len() as u64) as usize;
        let bucket = self.buckets[slot];
        match bucket.index {
            Some(held) => if held == index {
                Some(bucket)
            } else {
                None
            },
            None => None,
        }
    }

    /// The bucket for an index, a new one if the slot still holds an older one.
    fn opened(&self, index: u64) -> (b: Bucket)
        ensures
            b@ == open_bucket(self.ring(), index as nat),
            coherent_bucket(b@),
    {
        proof {
            use_type_invariant(self);
            let len = self.ring().len() as int;
            vstd::arithmetic::div_mod::lemma_mod_bound(index as int, len);
            assert(coherent_bucket(self.ring()[slot_of(self.ring(), index as nat)]));
        }
        match self.slot(index) {
            Some(b) => b,
            None => Bucket::fresh(Some(index)),
        }
    }

    /// Puts a bucket into its slot.
    fn store(&mut self, index: u64, bucket: Bucket)
        requires
            coherent_bucket(bucket@),
        ensures
            final(self).same_shape(*old(self)),
            final(self).charged_nanos() == old(self).charged_nanos(),
            final(self).trusting() == old(self).trusting(),
            final(self).ring() == with_bucket(old(self).ring(), index as nat, bucket@),
    {
        proof {
            use_type_invariant(&*self);
        }
        let ghost ring = self.ring();
        let slot: usize = (index % self.buckets.len() as u64) as usize;
        // The buckets are taken out while one of them changes.
        let mut buckets: Vec<Bucket> = vec![Bucket::fresh(None)];
        assert(coherent_ring(bucket_views(buckets@)));
        std::mem::swap(&mut self.buckets, &mut buckets);
        buckets.set(slot, bucket);
        assert(bucket_views(buckets@) =~= with_bucket(ring, index as nat, bucket@));
        self.buckets = buckets;
    }
}

/// A number, or one in place of zero.
fn at_least_one(n: u128) -> (r: u128)
    ensures
        r == time::max_nat(n as nat, 1),
{
    if n == 0 {
        1
    } else {
        n
    }
}

/// That many nanoseconds as a span.
fn span_of(nanos: u128) -> (d: Duration)
    requires
        nanos <= time::READING_LIMIT,
    ensures
        d@ == nanos,
{
    let secs: u64 = (nanos / time::NANOS_PER_SEC) as u64;
    let rest: u64 = (nanos % time::NANOS_PER_SEC) as u64;
    Duration::from_secs(secs).saturating_add(Duration::from_nanos(rest))
}

/// Buckets needed to cover a span, rounding up: a window is never shorter than
/// asked for, only rounded out to a whole bucket.
pub fn buckets_for(span: Duration, resolution: Duration) -> (n: u64)
    ensures
        n == buckets_needed(span@, resolution@),
{
    let width: u128 = at_least_one(resolution.as_nanos());
    time::clamp_u64((span.as_nanos() + width - 1) / width)
}

/// Sums that cannot be held stay that way.
proof fn lemma_totals_stay_none(
    ring: Seq<BucketView>,
    resolution: nat,
    oldest: nat,
    n: nat,
    m: nat,
)
    requires
        n <= m,
        totals(ring, resolution, oldest, n) is None,
    ensures
        totals(ring, resolution, oldest, m) is None,
    decreases m - n,
{
    if n < m {
        lemma_totals_stay_none(ring, resolution, oldest, n, (m - 1) as nat);
    }
}

/// The start of a bucket that a moment lies in, or of the one after it, is
/// within reach of 128 bits.
proof fn lemma_start_fits(origin: nat, resolution: nat, at: nat, index: nat)
    requires
        at <= time::READING_LIMIT,
        resolution <= time::DURATION_LIMIT,
        index <= bucket_number(origin, resolution, at) + 1,
    ensures
        index * resolution <= u128::MAX,
{
    let r = time::max_nat(resolution, 1);
    let e = time::minus_nat(at, origin);
    let q = e / r;
    assert(q * r <= e) by (nonlinear_arith)
        requires
            r >= 1,
            q == e / r,
    ;
    assert(index * resolution <= e + r) by (nonlinear_arith)
        requires
            index <= q + 1,
            resolution <= r,
            q * r <= e,
            r >= 1,
    ;
}

/// The indicators of what has been added up.
fn finish_reading(
    sums: WindowReading,
    sum_mid: Decimal,
    sum_spread: Decimal,
    sum_qty: Decimal,
    sum_price_qty: Decimal,
    Ghost(t): Ghost<Totals>,
) -> (r: Option<WindowReading>)
    requires
        t == (Totals {
            trusted_ms: sums.trusted_ms as nat,
            trades: sums.trades as nat,
            samples: sums.samples as nat,
            sum_mid: sum_mid@,
            sum_spread: sum_spread@,
            sum_qty: sum_qty@,
            sum_price_qty: sum_price_qty@,
            first: decimal::parts_of(sums.first),
            last: decimal::parts_of(sums.last),
            high: decimal::parts_of(sums.high),
            low: decimal::parts_of(sums.low),
            integrity: sums.integrity_floor,
        }),
        sums.mean is None,
        sums.change_bps is None,
        sums.range_bps is None,
        sums.mean_spread_bps is None,
        sums.volume is None,
        sums.vwap is None,
    ensures
        r is Some <==> indicators(sums.span_ms as nat, t) is Some,
        r matches Some(reading) ==> Some(reading@) == indicators(sums.span_ms as nat, t),
{
    let mut out = sums;
    if out.trades > 0 {
        out.volume = Some(sum_qty);
        if !sum_qty.is_zero() {
            match checked_mid_ratio(&sum_price_qty, &sum_qty) {
                Some(vwap) => {
                    out.vwap = Some(vwap);
                },
                None => return None,
            }
        }
    }
    if out.samples == 0 {
        return Some(out);
    }
    let mean = match checked_mid_ratio(&sum_mid, &Decimal::from_u64(out.samples)) {
        Some(mean) => mean,
        None => return None,
    };
    out.mean = Some(mean);
    match (out.first, out.last) {
        (Some(first), Some(last)) => {
            if !first.is_zero() {
                match checked_difference_bps(&last, &first, &first) {
                    Some(bps) => {
                        out.change_bps = Some(bps);
                    },
                    None => return None,
                }
            }
        },
        (_, _) => {},
    }
    match (out.high, out.low) {
        (Some(high), Some(low)) => {
            if !mean.is_zero() {
                match checked_difference_bps(&high, &low, &mean) {
                    Some(bps) => {
                        out.range_bps = Some(bps);
                    },
                    None => return None,
                }
            }
        },
        (_, _) => {},
    }
    if !sum_mid.is_zero() {
        match decimal::checked_bps(&sum_spread, &sum_mid) {
            Some(bps) => {
                out.mean_spread_bps = Some(bps);
            },
            None => return None,
        }
    }
    Some(out)
}

/// A quotient rounded to the scale of a mid, where it can be held.
pub(crate) fn checked_mid_ratio(a: &Decimal, b: &Decimal) -> (r: Option<Decimal>)
    ensures
        decimal::parts_of(r) == mid_ratio(a@, b@),
{
    match decimal::checked_div(a, b) {
        Some(q) => Some(decimal::round_dp(&q, MID_SCALE)),
        None => None,
    }
}

/// `a - b` in basis points of `c`, where it can be held.
pub(crate) fn checked_difference_bps(a: &Decimal, b: &Decimal, c: &Decimal) -> (r: Option<Decimal>)
    ensures
        decimal::parts_of(r) == difference_bps(a@, b@, c@),
{
    match decimal::checked_sub(a, b) {
        Some(d) => decimal::checked_bps(&d, c),
        None => None,
    }
}

/// The buckets a ring can hold at once, the one in progress and the completed
/// ones before it, never share a slot.
pub proof fn law_ring_does_not_alias(ring: Seq<BucketView>, a: nat, b: nat)
    requires
        a < b,
        b - a < ring.len(),
    ensures
        slot_of(ring, a) != slot_of(ring, b),
{
    let n = ring.len();
    if a % n == b % n {
        vstd::arithmetic::div_mod::lemma_fundamental_div_mod(a as int, n as int);
        vstd::arithmetic::div_mod::lemma_fundamental_div_mod(b as int, n as int);
        let qa = (a / n) as int;
        let qb = (b / n) as int;
        assert(b - a == n * (qb - qa)) by (nonlinear_arith)
            requires
                a == n * qa + (a % n),
                b == n * qb + (b % n),
                a % n == b % n,
        ;
        assert(n * (qb - qa) >= n || n * (qb - qa) <= 0) by (nonlinear_arith)
            requires
                n >= 0,
        ;
    }
}

/// The ring has room for every bucket that a configured window reaches: the
/// window's buckets and the one in progress are never more than its slots.
pub proof fn law_ring_holds_every_window(spans: Seq<Duration>, resolution: nat, i: int)
    requires
        0 <= i < spans.len(),
    ensures
        buckets_needed(spans[i]@, resolution) <= buckets_needed(longest_of(spans), resolution),
    decreases spans.len(),
{
    lemma_longest(spans, i);
    let r = time::max_nat(resolution, 1);
    let a = (spans[i]@ + r - 1) as nat;
    let b = (longest_of(spans) + r - 1) as nat;
    vstd::arithmetic::div_mod::lemma_div_is_ordered(a as int, b as int, r as int);
}

proof fn lemma_longest(spans: Seq<Duration>, i: int)
    requires
        0 <= i < spans.len(),
    ensures
        spans[i]@ <= longest_of(spans),
    decreases spans.len(),
{
    if i < spans.len() - 1 {
        lemma_longest(spans.drop_last(), i);
    }
}

/// Totals over `n` buckets cover at most `n` bucket widths.
proof fn lemma_coverage_bounded(ring: Seq<BucketView>, resolution: nat, oldest: nat, n: nat)
    ensures
        totals(ring, resolution, oldest, n) matches Some(t) ==> t.trusted_ms * 1_000_000 <= n
            * resolution,
    decreases n,
{
    if n > 0 {
        lemma_coverage_bounded(ring, resolution, oldest, (n - 1) as nat);
        assert(n * resolution == (n - 1) * resolution + resolution) by (nonlinear_arith)
            requires
                n > 0,
        ;
    }
}

/// No window claims more trusted time than its span, for a span of at least one
/// bucket that is not so long that it has to be cut short.
pub proof fn law_coverage_never_exceeds_the_span(
    ring: Seq<BucketView>,
    resolution: nat,
    span: nat,
    end: nat,
)
    requires
        span >= 1,
        buckets_needed(span, resolution) <= u32::MAX,
        resolution * buckets_needed(span, resolution) <= time::DURATION_LIMIT,
    ensures
        span_reading(ring, resolution, span, end) matches Some(r) ==> r.trusted_ms <= r.span_ms,
{
    if end > 0 {
        let k = buckets_needed(span, resolution);
        let r = time::max_nat(resolution, 1);
        let oldest = oldest_examined(span, resolution, end);
        let n = (end - oldest) as nat;
        assert(k >= 1) by {
            vstd::arithmetic::div_mod::lemma_div_is_ordered(r as int, (span + r - 1) as int, r as int);
            vstd::arithmetic::div_mod::lemma_div_by_self(r as int);
        }
        lemma_coverage_bounded(ring, resolution, oldest, n);
        assert(n <= k);
        assert(n * resolution <= resolution * k) by (nonlinear_arith)
            requires
                n <= k,
        ;
        match totals(ring, resolution, oldest, n) {
            Some(t) => {
                lemma_totals_small(ring, resolution, oldest, n);
                assert(t.trusted_ms <= (resolution * k) as nat / 1_000_000);
            },
            None => {},
        }
    }
}

/// Totals that can be held are 64-bit numbers, and without samples there is
/// nothing derived from any.
proof fn lemma_totals_small(ring: Seq<BucketView>, resolution: nat, oldest: nat, n: nat)
    ensures
        totals(ring, resolution, oldest, n) matches Some(t) ==> {
            &&& t.trusted_ms <= u64::MAX
            &&& t.trades <= u64::MAX
            &&& t.samples <= u64::MAX
            &&& t.samples == 0 ==> t.first is None && t.last is None && t.high is None && t.low is None
                && t.integrity is None
        },
    decreases n,
{
    if n > 0 {
        lemma_totals_small(ring, resolution, oldest, (n - 1) as nat);
    }
}

/// No data reads as nothing, never as zero: without samples every book-derived
/// field is absent, without prints every trade-derived one; and a window with
/// prints has a volume, one with samples a mean.
pub proof fn law_no_data_is_not_zero(ring: Seq<BucketView>, resolution: nat, span: nat, end: nat)
    ensures
        span_reading(ring, resolution, span, end) matches Some(r) ==> {
            &&& r.samples == 0 ==> {
                &&& r.integrity_floor is None
                &&& r.first is None && r.last is None && r.high is None && r.low is None
                &&& r.mean is None
                &&& r.change_bps is None && r.range_bps is None && r.mean_spread_bps is None
            }
            &&& r.trades == 0 ==> r.volume is None && r.vwap is None
            &&& r.trades > 0 ==> r.volume is Some
            &&& r.samples > 0 ==> r.mean is Some
        },
{
    if end > 0 {
        let oldest = oldest_examined(span, resolution, end);
        lemma_totals_small(ring, resolution, oldest, (end - oldest) as nat);
    }
}

/// Totals over buckets whose numbers go together go together.
proof fn lemma_totals_go_together(ring: Seq<BucketView>, resolution: nat, oldest: nat, n: nat)
    requires
        coherent_ring(ring),
        ring.len() > 0,
    ensures
        totals(ring, resolution, oldest, n) matches Some(t) ==> go_together(
            t.samples,
            t.integrity,
            t.first,
            t.last,
            t.high,
            t.low,
        ),
    decreases n,
{
    if n > 0 {
        lemma_totals_go_together(ring, resolution, oldest, (n - 1) as nat);
        let index = (oldest + n - 1) as nat;
        vstd::arithmetic::div_mod::lemma_mod_bound(index as int, ring.len() as int);
        assert(coherent_bucket(ring[slot_of(ring, index)]));
    }
}

/// A reading's numbers go together, whatever the window and whenever it is read:
/// what is drawn from samples is there exactly where there is one, the first and
/// the last mid lie between the extremes, and a volume is there exactly where there
/// is a print.
pub proof fn law_a_reading_goes_together(
    ring: Seq<BucketView>,
    resolution: nat,
    span: nat,
    end: nat,
)
    requires
        coherent_ring(ring),
        ring.len() > 0,
    ensures
        span_reading(ring, resolution, span, end) matches Some(r) ==> coherent_reading(r),
{
    if end > 0 {
        let oldest = oldest_examined(span, resolution, end);
        lemma_totals_go_together(ring, resolution, oldest, (end - oldest) as nat);
    }
}

/// The span that a reading names is the configured one rounded up to whole
/// buckets, in whole milliseconds, unless that is too long to be told.
pub proof fn law_the_span_is_whole_buckets(
    ring: Seq<BucketView>,
    resolution: nat,
    span: nat,
    end: nat,
    buckets: nat,
)
    requires
        resolution > 0,
        buckets == (span + resolution - 1) as nat / resolution,
        buckets <= u32::MAX,
        buckets * resolution <= time::DURATION_LIMIT,
        buckets * resolution / 1_000_000 <= u64::MAX,
    ensures
        span <= buckets * resolution < span + resolution,
        span_reading(ring, resolution, span, end) matches Some(r) ==> r.span_ms == buckets
            * resolution / 1_000_000,
{
    let reach = (span + resolution - 1) as nat;
    vstd::arithmetic::div_mod::lemma_fundamental_div_mod(reach as int, resolution as int);
    vstd::arithmetic::div_mod::lemma_mod_bound(reach as int, resolution as int);
    assert(resolution * buckets == buckets * resolution) by (nonlinear_arith);
}

/// Time that passes without an observation keeps the numbers of every bucket
/// together.
proof fn lemma_charging_keeps_together(
    ring: Seq<BucketView>,
    origin: nat,
    resolution: nat,
    trusted: bool,
    cursor: nat,
    now: nat,
)
    requires
        coherent_ring(ring),
        ring.len() > 0,
    ensures
        coherent_ring(charged(ring, origin, resolution, trusted, cursor, now)),
        charged(ring, origin, resolution, trusted, cursor, now).len() == ring.len(),
    decreases now - cursor,
{
    if cursor < now {
        let index = bucket_number(origin, resolution, cursor);
        let end = slice_end(origin, resolution, cursor, now);
        let elapsed = if trusted {
            0
        } else {
            time::minus_nat(end, cursor)
        };
        let next = with_untrusted(ring, index, elapsed);
        assert(coherent_bucket(ring[slot_of(ring, index)]));
        assert(coherent_ring(next));
        if cursor < end {
            lemma_charging_keeps_together(next, origin, resolution, trusted, end, now);
        }
    }
}

/// What every configured window shows, whenever it is read: the span it names is
/// the configured one rounded up to whole buckets; no more of it is claimed as
/// trusted than there is; and its numbers go together. A resolution is a millisecond
/// at least and a span a bucket at least, as [`WindowSpec::new`] leaves them, and
/// the span is not so long that it has to be cut short.
pub proof fn law_every_configured_window_adds_up(w: RollingWindows, i: int, now: IngestTime)
    requires
        coherent_ring(w.ring()),
        w.ring().len() > 0,
        w.resolution() >= 1_000_000,
        0 <= i < w.spans().len(),
        w.spans()[i]@ >= w.resolution(),
        w.spans()[i]@ + w.resolution() <= u64::MAX * 1_000_000,
        buckets_needed(w.spans()[i]@, w.resolution()) <= u32::MAX,
    ensures
        w.reading_of(w.spans()[i], now) matches Some(r) ==> {
            let span = w.spans()[i]@;
            let buckets = (span + w.resolution() - 1) as nat / w.resolution();
            &&& span <= buckets * w.resolution() < span + w.resolution()
            &&& r.span_ms == buckets * w.resolution() / 1_000_000
            &&& span / 1_000_000 <= r.span_ms
            &&& r.trusted_ms <= r.span_ms
            &&& coherent_reading(r)
        },
{
    let resolution = w.resolution();
    let span = w.spans()[i]@;
    let ring = w.ring_at(now);
    let end = w.number_at(now);
    let buckets = (span + resolution - 1) as nat / resolution;
    if w.charged_nanos() < now.mono_nanos() {
        lemma_charging_keeps_together(
            w.ring(),
            w.origin_nanos(),
            resolution,
            w.trusting(),
            resume_at(
                w.ring().len(),
                w.origin_nanos(),
                resolution,
                w.charged_nanos(),
                now.mono_nanos(),
            ),
            now.mono_nanos(),
        );
    }
    law_a_reading_goes_together(ring, resolution, span, end);
    let reach = (span + resolution - 1) as nat;
    vstd::arithmetic::div_mod::lemma_fundamental_div_mod(reach as int, resolution as int);
    vstd::arithmetic::div_mod::lemma_mod_bound(reach as int, resolution as int);
    assert(resolution * buckets == buckets * resolution) by (nonlinear_arith);
    assert(buckets <= reach) by {
        vstd::arithmetic::div_mod::lemma_div_decreases(reach as int, resolution as int);
    }
    assert(buckets_needed(span, resolution) == buckets);
    law_the_span_is_whole_buckets(ring, resolution, span, end, buckets);
    law_coverage_never_exceeds_the_span(ring, resolution, span, end);
}

/// Reading twice at one moment gives one answer.
pub proof fn law_reading_is_repeatable(
    before: RollingWindows,
    after: RollingWindows,
    span: Duration,
    now: IngestTime,
)
    requires
        after.same_shape(before),
        after.trusting() == before.trusting(),
        after.charged_nanos() == before.charged_at(now),
        after.ring() == before.ring_at(now),
    ensures
        after.reading_of(span, now) == before.reading_of(span, now),
{
}

/// Whether no bucket start up to the one after `now` leaves the clock's range or
/// a 64-bit count of nanoseconds.
pub open spec fn in_range(origin: nat, resolution: nat, now: nat) -> bool {
    &&& resolution >= 1
    &&& origin <= now
    &&& now - origin + resolution <= u64::MAX
    &&& now + resolution <= time::READING_LIMIT
}

/// How much of an interval lies in a bucket.
pub open spec fn overlap(origin: nat, resolution: nat, index: nat, from: nat, to: nat) -> nat {
    time::minus_nat(
        time::min_nat(to, origin + (index + 1) * resolution),
        time::max_nat(from, origin + index * resolution),
    )
}

/// A moment lies between the start of its bucket and the start of the next.
proof fn lemma_bucket_bounds(origin: nat, resolution: nat, at: nat, now: nat)
    requires
        in_range(origin, resolution, now),
        origin <= at <= now,
    ensures
        ({
            let i = bucket_number(origin, resolution, at);
            &&& i < u64::MAX
            &&& bucket_start(origin, resolution, i + 1) == origin + (i + 1) * resolution
            &&& origin + i * resolution <= at
            &&& at < origin + (i + 1) * resolution
        }),
{
    let e = (at - origin) as nat;
    let i = e / resolution;
    vstd::arithmetic::div_mod::lemma_fundamental_div_mod(e as int, resolution as int);
    assert(i * resolution <= e && e < (i + 1) * resolution && (i + 1) * resolution <= e + resolution
        && i <= e) by (nonlinear_arith)
        requires
            e == resolution * i + (e % resolution),
            0 <= e % resolution < resolution,
            resolution >= 1,
    ;
}

/// A bucket's start is a moment of that bucket.
proof fn lemma_number_of_start(origin: nat, resolution: nat, index: nat)
    requires
        resolution >= 1,
        index * resolution <= u64::MAX,
    ensures
        bucket_number(origin, resolution, origin + index * resolution) == index,
{
    vstd::arithmetic::div_mod::lemma_div_multiples_vanish(index as int, resolution as int);
    assert(index * resolution == resolution * index) by (nonlinear_arith);
    assert(index <= index * resolution) by (nonlinear_arith)
        requires
            resolution >= 1,
    ;
}

/// Time spent without trust is put to the account of exactly the buckets it was
/// spent in: after an interval, every bucket it reaches exists, and holds what
/// it held before and its own share of the interval; trusted time adds nothing.
pub proof fn law_charge_is_the_overlap(
    ring: Seq<BucketView>,
    origin: nat,
    resolution: nat,
    trusted: bool,
    cursor: nat,
    now: nat,
    index: nat,
)
    requires
        in_range(origin, resolution, now),
        origin <= cursor < now,
        bucket_number(origin, resolution, now) - bucket_number(origin, resolution, cursor)
            < ring.len(),
        bucket_number(origin, resolution, cursor) <= index,
        origin + index * resolution < now,
        open_bucket(ring, index).untrusted + (now - cursor) <= time::DURATION_LIMIT,
    ensures
        charged(ring, origin, resolution, trusted, cursor, now).len() == ring.len(),
        bucket_at(charged(ring, origin, resolution, trusted, cursor, now), index) == Some(
            BucketView {
                untrusted: open_bucket(ring, index).untrusted + (if trusted {
                    0
                } else {
                    overlap(origin, resolution, index, cursor, now)
                }),
                ..open_bucket(ring, index)
            },
        ),
    decreases now - cursor,
{
    let i = bucket_number(origin, resolution, cursor);
    lemma_bucket_bounds(origin, resolution, cursor, now);
    let end = slice_end(origin, resolution, cursor, now);
    let elapsed = if trusted {
        0
    } else {
        (end - cursor) as nat
    };
    let next = with_untrusted(ring, i, elapsed);
    assert(cursor < end <= now);
    lemma_bucket_bounds(origin, resolution, now, now);
    let last = bucket_number(origin, resolution, now);
    assert(index <= last && i <= last) by (nonlinear_arith)
        requires
            origin + index * resolution < now,
            origin + i * resolution <= cursor,
            cursor < now,
            now < origin + (last + 1) * resolution,
            resolution >= 1,
    ;
    assert(ring.len() > 0);
    assert(0 <= slot_of(ring, i) < ring.len()) by {
        vstd::arithmetic::div_mod::lemma_mod_bound(i as int, ring.len() as int);
    }
    assert(0 <= slot_of(ring, index) < ring.len()) by {
        vstd::arithmetic::div_mod::lemma_mod_bound(index as int, ring.len() as int);
    }
    assert(index < u64::MAX);
    if index == i {
        assert(bucket_at(next, index) == Some(
            BucketView {
                untrusted: open_bucket(ring, index).untrusted + elapsed,
                ..open_bucket(ring, index)
            },
        ));
        assert(end == time::min_nat(now, origin + (index + 1) * resolution));
        if end < now {
            lemma_later_buckets_only(next, origin, resolution, trusted, end, now, index);
        } else {
            assert(charged(next, origin, resolution, trusted, end, now) == next);
        }
    } else {
        law_ring_does_not_alias(ring, i, index);
        assert(open_bucket(next, index) == open_bucket(ring, index));
        assert((i + 1) * resolution <= index * resolution) by (nonlinear_arith)
            requires
                i + 1 <= index,
        ;
        assert(end == origin + (i + 1) * resolution);
        lemma_number_of_start(origin, resolution, i + 1);
        law_charge_is_the_overlap(next, origin, resolution, trusted, end, now, index);
        assert(overlap(origin, resolution, index, end, now) == overlap(
            origin,
            resolution,
            index,
            cursor,
            now,
        ));
    }
}

/// Charging from the start of a later bucket leaves an earlier one alone.
proof fn lemma_later_buckets_only(
    ring: Seq<BucketView>,
    origin: nat,
    resolution: nat,
    trusted: bool,
    cursor: nat,
    now: nat,
    index: nat,
)
    requires
        in_range(origin, resolution, now),
        origin <= cursor <= now,
        cursor >= origin + (index + 1) * resolution,
        bucket_number(origin, resolution, now) - index < ring.len(),
        ring.len() > 0,
        bucket_at(ring, index) is Some,
    ensures
        charged(ring, origin, resolution, trusted, cursor, now).len() == ring.len(),
        bucket_at(charged(ring, origin, resolution, trusted, cursor, now), index) == bucket_at(
            ring,
            index,
        ),
    decreases now - cursor,
{
    if cursor < now {
        let i = bucket_number(origin, resolution, cursor);
        lemma_bucket_bounds(origin, resolution, cursor, now);
        lemma_bucket_bounds(origin, resolution, now, now);
        let last = bucket_number(origin, resolution, now);
        let end = slice_end(origin, resolution, cursor, now);
        assert(index < i && i <= last) by (nonlinear_arith)
            requires
                cursor >= origin + (index + 1) * resolution,
                cursor < origin + (i + 1) * resolution,
                origin + i * resolution <= cursor,
                cursor < now,
                now < origin + (last + 1) * resolution,
                resolution >= 1,
        ;
        let elapsed = if trusted {
            0
        } else {
            (end - cursor) as nat
        };
        let next = with_untrusted(ring, i, elapsed);
        vstd::arithmetic::div_mod::lemma_mod_bound(i as int, ring.len() as int);
        vstd::arithmetic::div_mod::lemma_mod_bound(index as int, ring.len() as int);
        law_ring_does_not_alias(ring, index, i);
        assert(bucket_at(next, index) == bucket_at(ring, index));
        lemma_later_buckets_only(next, origin, resolution, trusted, end, now, index);
    }
}

/// The prints of consecutive buckets, counted.
pub open spec fn print_count(ring: Seq<BucketView>, oldest: nat, n: nat) -> nat
    decreases n,
{
    if n == 0 {
        0
    } else {
        print_count(ring, oldest, (n - 1) as nat) + (match bucket_at(
            ring,
            (oldest + n - 1) as nat,
        ) {
            Some(b) => b.trades,
            None => 0,
        })
    }
}

/// The book samples of consecutive buckets, counted.
pub open spec fn sample_count(ring: Seq<BucketView>, oldest: nat, n: nat) -> nat
    decreases n,
{
    if n == 0 {
        0
    } else {
        sample_count(ring, oldest, (n - 1) as nat) + (match bucket_at(
            ring,
            (oldest + n - 1) as nat,
        ) {
            Some(b) => b.samples,
            None => 0,
        })
    }
}

/// The whole milliseconds that consecutive buckets were trusted for; a bucket that
/// never existed was not.
pub open spec fn trusted_time(
    ring: Seq<BucketView>,
    resolution: nat,
    oldest: nat,
    n: nat,
) -> nat
    decreases n,
{
    if n == 0 {
        0
    } else {
        trusted_time(ring, resolution, oldest, (n - 1) as nat) + (match bucket_at(
            ring,
            (oldest + n - 1) as nat,
        ) {
            Some(b) => if b.untrusted < resolution {
                ((resolution - b.untrusted) / 1_000_000) as nat
            } else {
                0
            },
            None => 0,
        })
    }
}

/// Which sum of a bucket is meant.
pub enum SumOf {
    /// What was printed.
    Quantity,
    /// Price times quantity of what was printed.
    Value,
    /// The sampled mids.
    Mid,
    /// The sampled spreads.
    Spread,
}

/// A sum that a bucket holds.
pub open spec fn sum_of(b: BucketView, of: SumOf) -> Parts {
    match of {
        SumOf::Quantity => b.sum_qty,
        SumOf::Value => b.sum_price_qty,
        SumOf::Mid => b.sum_mid,
        SumOf::Spread => b.sum_spread,
    }
}

/// What consecutive buckets hold of one sum, added up as numbers.
pub open spec fn added_up(
    ring: Seq<BucketView>,
    oldest: nat,
    n: nat,
    of: SumOf,
) -> int
    decreases n,
{
    if n == 0 {
        0
    } else {
        added_up(ring, oldest, (n - 1) as nat, of) + (match bucket_at(
            ring,
            (oldest + n - 1) as nat,
        ) {
            Some(b) => decimal::units(sum_of(b, of)),
            None => 0,
        })
    }
}

/// Whether no digit is lost when the sums of consecutive buckets are added up.
pub open spec fn sums_are_exact(
    ring: Seq<BucketView>,
    resolution: nat,
    oldest: nat,
    n: nat,
) -> bool {
    forall|k: nat| #![trigger bucket_at(ring, oldest + k)]
        k < n ==> match (totals(ring, resolution, oldest, k), bucket_at(ring, oldest + k)) {
            (Some(t), Some(b)) => {
                &&& decimal::adds_exactly(t.sum_qty, b.sum_qty)
                &&& decimal::adds_exactly(t.sum_price_qty, b.sum_price_qty)
                &&& b.samples > 0 ==> decimal::adds_exactly(t.sum_mid, b.sum_mid)
                    && decimal::adds_exactly(t.sum_spread, b.sum_spread)
            },
            _ => true,
        }
}

/// Whether a bucket without samples holds no sums of any.
pub open spec fn tidy(ring: Seq<BucketView>) -> bool {
    forall|i: int|
        0 <= i < ring.len() && (#[trigger] ring[i]).samples == 0 ==> decimal::units(ring[i].sum_mid)
            == 0 && decimal::units(ring[i].sum_spread) == 0
}

/// One bucket more adds what it holds: its prints and samples are counted, its trusted
/// time is added, and so are its quantity and its price times quantity, to the last
/// digit where none is lost.
pub proof fn law_one_bucket_more_adds_what_it_holds(
    ring: Seq<BucketView>,
    resolution: nat,
    oldest: nat,
    n: nat,
    t: Totals,
    u: Totals,
    b: BucketView,
)
    requires
        totals(ring, resolution, oldest, n) == Some(t),
        totals(ring, resolution, oldest, n + 1) == Some(u),
        bucket_at(ring, oldest + n) == Some(b),
    ensures
        u.trades == t.trades + b.trades,
        u.samples == t.samples + b.samples,
        decimal::adds_exactly(t.sum_qty, b.sum_qty) ==> decimal::units(u.sum_qty)
            == decimal::units(t.sum_qty) + decimal::units(b.sum_qty),
        decimal::adds_exactly(t.sum_price_qty, b.sum_price_qty) ==> decimal::units(u.sum_price_qty)
            == decimal::units(t.sum_price_qty) + decimal::units(b.sum_price_qty),
        b.samples > 0 && decimal::adds_exactly(t.sum_mid, b.sum_mid) ==> decimal::units(u.sum_mid)
            == decimal::units(t.sum_mid) + decimal::units(b.sum_mid),
        b.samples > 0 && decimal::adds_exactly(t.sum_spread, b.sum_spread) ==> decimal::units(
            u.sum_spread,
        ) == decimal::units(t.sum_spread) + decimal::units(b.sum_spread),
{
    assert((oldest + (n + 1) - 1) as nat == oldest + n);
}

/// Everything that happened in consecutive buckets is counted, and nothing else.
proof fn lemma_totals_count(ring: Seq<BucketView>, resolution: nat, oldest: nat, n: nat)
    requires
        resolution / 1_000_000 <= u64::MAX,
    ensures
        totals(ring, resolution, oldest, n) matches Some(t) ==> {
            &&& t.trades == print_count(ring, oldest, n)
            &&& t.samples == sample_count(ring, oldest, n)
            &&& t.trusted_ms == trusted_time(ring, resolution, oldest, n)
        },
    decreases n,
{
    if n > 0 {
        lemma_totals_count(ring, resolution, oldest, (n - 1) as nat);
        match bucket_at(ring, (oldest + n - 1) as nat) {
            Some(b) => {
                if b.untrusted < resolution {
                    assert((resolution - b.untrusted) / 1_000_000 <= resolution / 1_000_000);
                }
            },
            None => {},
        }
    }
}

proof fn lemma_totals_add_up(ring: Seq<BucketView>, resolution: nat, oldest: nat, n: nat)
    requires
        sums_are_exact(ring, resolution, oldest, n),
        tidy(ring),
        ring.len() > 0,
    ensures
        totals(ring, resolution, oldest, n) matches Some(t) ==> {
            &&& decimal::units(t.sum_qty) == added_up(ring, oldest, n, SumOf::Quantity)
            &&& decimal::units(t.sum_price_qty) == added_up(
                ring,
                oldest,
                n,
                SumOf::Value,
            )
            &&& decimal::units(t.sum_mid) == added_up(ring, oldest, n, SumOf::Mid)
            &&& decimal::units(t.sum_spread) == added_up(
                ring,
                oldest,
                n,
                SumOf::Spread,
            )
        },
    decreases n,
{
    if n > 0 {
        let k = (n - 1) as nat;
        assert forall|j: nat| #![trigger bucket_at(ring, oldest + j)]
            j < k implies match (totals(ring, resolution, oldest, j), bucket_at(ring, oldest + j)) {
            (Some(t), Some(b)) => {
                &&& decimal::adds_exactly(t.sum_qty, b.sum_qty)
                &&& decimal::adds_exactly(t.sum_price_qty, b.sum_price_qty)
                &&& b.samples > 0 ==> decimal::adds_exactly(t.sum_mid, b.sum_mid)
                    && decimal::adds_exactly(t.sum_spread, b.sum_spread)
            },
            _ => true,
        } by {}
        lemma_totals_add_up(ring, resolution, oldest, k);
        let index = oldest + k;
        assert((oldest + n - 1) as nat == index);
        vstd::arithmetic::div_mod::lemma_mod_bound(index as int, ring.len() as int);
        match bucket_at(ring, index) {
            Some(b) => {
                assert(ring[slot_of(ring, index)] == b);
            },
            None => {},
        }
    } else {
        decimal::lemma_units_sign(decimal::whole(0));
    }
}

/// The extremes of consecutive buckets bound those of each, the guarantee is no
/// stronger than that of any, and each of these is one that a bucket holds; the first
/// and the last mid are those of the first and the last bucket with a sample.
proof fn lemma_totals_bound(
    ring: Seq<BucketView>,
    resolution: nat,
    oldest: nat,
    n: nat,
    k: nat,
)
    requires
        k < n,
        coherent_ring(ring),
        ring.len() > 0,
    ensures
        totals(ring, resolution, oldest, n) matches Some(t) ==> (bucket_at(ring, oldest + k)
            matches Some(b) ==> (b.samples > 0 ==> {
            &&& t.high is Some && t.low is Some && t.integrity is Some
            &&& t.first is Some && t.last is Some
            &&& decimal::units(b.high->0) <= decimal::units(t.high->0)
            &&& decimal::units(b.low->0) >= decimal::units(t.low->0)
            &&& (t.integrity->0).rank() <= (b.integrity->0).rank()
            &&& sample_count(ring, oldest, k) == 0 ==> t.first == b.first
            &&& (forall|j: nat|
                k < j < n ==> (bucket_at(ring, #[trigger] (oldest + j)) matches Some(later)
                    ==> later.samples == 0)) ==> t.last == b.last
        })),
    decreases n,
{
    let last = (n - 1) as nat;
    let index = oldest + last;
    assert((oldest + n - 1) as nat == index);
    vstd::arithmetic::div_mod::lemma_mod_bound(index as int, ring.len() as int);
    vstd::arithmetic::div_mod::lemma_mod_bound((oldest + k) as int, ring.len() as int);
    assert(coherent_bucket(ring[slot_of(ring, index)]));
    assert(coherent_bucket(ring[slot_of(ring, oldest + k)]));
    lemma_totals_go_together(ring, resolution, oldest, last);
    lemma_sampled_totals(ring, resolution, oldest, last);
    if k < last {
        lemma_totals_bound(ring, resolution, oldest, last, k);
        if totals(ring, resolution, oldest, n) is Some && bucket_at(ring, oldest + k) is Some {
            let b = bucket_at(ring, oldest + k)->0;
            if b.samples > 0 && (forall|j: nat|
                k < j < n ==> (bucket_at(ring, #[trigger] (oldest + j)) matches Some(later)
                    ==> later.samples == 0)) {
                assert(bucket_at(ring, oldest + last) matches Some(later) ==> later.samples == 0);
                assert forall|j: nat| k < j < last implies (bucket_at(
                    ring,
                    #[trigger] (oldest + j),
                ) matches Some(later) ==> later.samples == 0) by {}
            }
        }
    }
}

/// Totals hold as many samples as the buckets do.
proof fn lemma_sampled_totals(ring: Seq<BucketView>, resolution: nat, oldest: nat, n: nat)
    ensures
        totals(ring, resolution, oldest, n) matches Some(t) ==> t.samples == sample_count(
            ring,
            oldest,
            n,
        ),
    decreases n,
{
    if n > 0 {
        lemma_sampled_totals(ring, resolution, oldest, (n - 1) as nat);
    }
}

proof fn lemma_totals_held(ring: Seq<BucketView>, resolution: nat, oldest: nat, n: nat)
    ensures
        totals(ring, resolution, oldest, n) matches Some(t) ==> {
            &&& t.high is Some ==> exists|k: nat|
                k < n && (bucket_at(ring, #[trigger] (oldest + k)) matches Some(b) && b.high
                    == t.high)
            &&& t.low is Some ==> exists|k: nat|
                k < n && (bucket_at(ring, #[trigger] (oldest + k)) matches Some(b) && b.low
                    == t.low)
            &&& t.integrity is Some ==> exists|k: nat|
                k < n && (bucket_at(ring, #[trigger] (oldest + k)) matches Some(b) && b.integrity
                    == t.integrity)
        },
    decreases n,
{
    if n > 0 {
        let last = (n - 1) as nat;
        lemma_totals_held(ring, resolution, oldest, last);
        assert((oldest + n - 1) as nat == oldest + last);
        if totals(ring, resolution, oldest, n) is Some {
            let t = totals(ring, resolution, oldest, n)->0;
            let s = totals(ring, resolution, oldest, last)->0;
            if t.high is Some {
                if t.high == s.high {
                    let k = choose|k: nat|
                        k < last && (bucket_at(ring, #[trigger] (oldest + k)) matches Some(b)
                            && b.high == s.high);
                    assert(bucket_at(ring, oldest + k) matches Some(b) && b.high == t.high);
                } else {
                    assert(bucket_at(ring, oldest + last) matches Some(b) && b.high == t.high);
                }
            }
            if t.low is Some {
                if t.low == s.low {
                    let k = choose|k: nat|
                        k < last && (bucket_at(ring, #[trigger] (oldest + k)) matches Some(b)
                            && b.low == s.low);
                    assert(bucket_at(ring, oldest + k) matches Some(b) && b.low == t.low);
                } else {
                    assert(bucket_at(ring, oldest + last) matches Some(b) && b.low == t.low);
                }
            }
            if t.integrity is Some {
                if t.integrity == s.integrity {
                    let k = choose|k: nat|
                        k < last && (bucket_at(ring, #[trigger] (oldest + k)) matches Some(b)
                            && b.integrity == s.integrity);
                    assert(bucket_at(ring, oldest + k) matches Some(b) && b.integrity
                        == t.integrity);
                } else {
                    assert(bucket_at(ring, oldest + last) matches Some(b) && b.integrity
                        == t.integrity);
                }
            }
        }
    }
}

/// Where a window begins: it reaches over as many completed buckets as cover its span,
/// right before the one in progress, and never before the first.
pub proof fn law_a_window_reaches_back_its_span(span: nat, resolution: nat, end: nat)
    requires
        resolution > 0,
        span > 0,
        end > 0,
        (span + resolution - 1) as nat / resolution <= u64::MAX,
    ensures
        ({
            let buckets = (span + resolution - 1) as nat / resolution;
            let oldest = oldest_examined(span, resolution, end);
            &&& oldest < end
            &&& end >= buckets ==> oldest == end - buckets
            &&& end < buckets ==> oldest == 0
        }),
{
    let buckets = (span + resolution - 1) as nat / resolution;
    assert(buckets >= 1) by {
        vstd::arithmetic::div_mod::lemma_div_is_ordered(
            resolution as int,
            (span + resolution - 1) as int,
            resolution as int,
        );
        vstd::arithmetic::div_mod::lemma_div_by_self(resolution as int);
    }
}

/// A window counts everything in its buckets: its samples and prints are those of all
/// of them together, and its coverage their trusted time.
pub proof fn law_a_window_counts_all_its_buckets(
    ring: Seq<BucketView>,
    resolution: nat,
    span: nat,
    end: nat,
    r: ReadingView,
)
    requires
        span_reading(ring, resolution, span, end) == Some(r),
        end > 0,
        resolution / 1_000_000 <= u64::MAX,
    ensures
        ({
            let oldest = oldest_examined(span, resolution, end);
            let n = (end - oldest) as nat;
            &&& r.samples == sample_count(ring, oldest, n)
            &&& r.trades == print_count(ring, oldest, n)
            &&& r.trusted_ms == trusted_time(ring, resolution, oldest, n)
        }),
{
    let oldest = oldest_examined(span, resolution, end);
    lemma_totals_count(ring, resolution, oldest, (end - oldest) as nat);
}

/// The volume of a window is the sum of the quantities printed in all its buckets, and
/// its volume-weighted price the sum of price times quantity over that sum; the mean is
/// the sum of the sampled mids over their number. The sums are to the last digit where
/// none is lost, and the ratios to eight.
pub proof fn law_a_window_adds_up_all_its_buckets(
    ring: Seq<BucketView>,
    resolution: nat,
    span: nat,
    end: nat,
    r: ReadingView,
    t: Totals,
)
    requires
        span_reading(ring, resolution, span, end) == Some(r),
        end > 0,
        ring.len() > 0,
        tidy(ring),
        ({
            let oldest = oldest_examined(span, resolution, end);
            let n = (end - oldest) as nat;
            &&& sums_are_exact(ring, resolution, oldest, n)
            &&& totals(ring, resolution, oldest, n) == Some(t)
        }),
    ensures
        ({
            let oldest = oldest_examined(span, resolution, end);
            let n = (end - oldest) as nat;
            let quantity = added_up(ring, oldest, n, SumOf::Quantity);
            let value = added_up(ring, oldest, n, SumOf::Value);
            let mids = added_up(ring, oldest, n, SumOf::Mid);
            let spreads = added_up(ring, oldest, n, SumOf::Spread);
            &&& r.volume is Some <==> r.trades > 0
            &&& r.volume matches Some(v) ==> decimal::units(v) == quantity
            &&& r.vwap is Some <==> r.trades > 0 && quantity != 0
            &&& r.vwap is Some && decimal::divides_exactly(t.sum_price_qty, t.sum_qty)
                ==> decimal::nearest_ratio(r.vwap->0, value, quantity, 8)
            &&& r.mean is Some && decimal::divides_exactly(
                t.sum_mid,
                decimal::whole(r.samples as int),
            ) ==> decimal::nearest_ratio(
                r.mean->0,
                mids,
                decimal::units(decimal::whole(r.samples as int)),
                8,
            )
            &&& r.mean_spread_bps is Some && decimal::multiplies_exactly(
                t.sum_spread,
                decimal::whole(10_000),
            ) && decimal::divides_exactly(
                decimal::decimal_product(t.sum_spread, decimal::whole(10_000))->0,
                t.sum_mid,
            ) ==> decimal::nearest_ratio(r.mean_spread_bps->0, 10_000 * spreads, mids, 4)
        }),
{
    let oldest = oldest_examined(span, resolution, end);
    let n = (end - oldest) as nat;
    lemma_totals_add_up(ring, resolution, oldest, n);
    decimal::lemma_units_sign(t.sum_qty);
    if decimal::divides_exactly(t.sum_price_qty, t.sum_qty) {
        decimal::lemma_rounded_quotient(t.sum_price_qty, t.sum_qty, 8);
    }
    if decimal::divides_exactly(t.sum_mid, decimal::whole(t.samples as int)) {
        decimal::lemma_rounded_quotient(t.sum_mid, decimal::whole(t.samples as int), 8);
    }
    if decimal::multiplies_exactly(t.sum_spread, decimal::whole(10_000))
        && decimal::divides_exactly(
        decimal::decimal_product(t.sum_spread, decimal::whole(10_000))->0,
        t.sum_mid,
    ) {
        decimal::law_basis_points_are_ten_thousandths(t.sum_spread, t.sum_mid);
    }
}

/// The extremes of a window are those of all its buckets: no bucket went above the high
/// or below the low, the guarantee is no stronger than that of any, and each is one
/// that a bucket holds. The window opens with the first mid of its first bucket with a
/// sample and closes with the last mid of its last.
pub proof fn law_a_window_spans_the_extremes(
    ring: Seq<BucketView>,
    resolution: nat,
    span: nat,
    end: nat,
    r: ReadingView,
    k: nat,
)
    requires
        span_reading(ring, resolution, span, end) == Some(r),
        end > 0,
        coherent_ring(ring),
        ring.len() > 0,
        oldest_examined(span, resolution, end) + k < end,
    ensures
        ({
            let oldest = oldest_examined(span, resolution, end);
            let n = (end - oldest) as nat;
            &&& bucket_at(ring, oldest + k) matches Some(b) ==> (b.samples > 0 ==> {
                &&& r.high is Some && r.low is Some && r.integrity_floor is Some
                &&& decimal::units(b.high->0) <= decimal::units(r.high->0)
                &&& decimal::units(b.low->0) >= decimal::units(r.low->0)
                &&& (r.integrity_floor->0).rank() <= (b.integrity->0).rank()
                &&& sample_count(ring, oldest, k) == 0 ==> r.first == b.first
                &&& (forall|j: nat|
                    k < j < n ==> (bucket_at(ring, #[trigger] (oldest + j)) matches Some(later)
                        ==> later.samples == 0)) ==> r.last == b.last
            })
            &&& r.high is Some ==> exists|j: nat|
                j < n && (bucket_at(ring, #[trigger] (oldest + j)) matches Some(b) && b.high
                    == r.high)
            &&& r.low is Some ==> exists|j: nat|
                j < n && (bucket_at(ring, #[trigger] (oldest + j)) matches Some(b) && b.low
                    == r.low)
            &&& r.integrity_floor is Some ==> exists|j: nat|
                j < n && (bucket_at(ring, #[trigger] (oldest + j)) matches Some(b) && b.integrity
                    == r.integrity_floor)
        }),
{
    let oldest = oldest_examined(span, resolution, end);
    let n = (end - oldest) as nat;
    lemma_totals_bound(ring, resolution, oldest, n, k);
    lemma_totals_held(ring, resolution, oldest, n);
}

/// The move of a window is from its first mid to its last, as a share of the first; its
/// range is from its low to its high, as a share of the mean: in basis points, to four
/// digits, where no digit is lost on the way.
pub proof fn law_a_windows_moves_are_shares(
    ring: Seq<BucketView>,
    resolution: nat,
    span: nat,
    end: nat,
    r: ReadingView,
)
    requires
        span_reading(ring, resolution, span, end) == Some(r),
    ensures
        r.change_bps is Some ==> r.first is Some && r.last is Some,
        r.range_bps is Some ==> r.high is Some && r.low is Some && r.mean is Some,
        r.change_bps is Some && decimal::subtracts_exactly(r.last->0, r.first->0)
            && decimal::multiplies_exactly(
            decimal::decimal_difference(r.last->0, r.first->0)->0,
            decimal::whole(10_000),
        ) && decimal::divides_exactly(
            decimal::decimal_product(
                decimal::decimal_difference(r.last->0, r.first->0)->0,
                decimal::whole(10_000),
            )->0,
            r.first->0,
        ) ==> decimal::nearest_ratio(
            r.change_bps->0,
            10_000 * (decimal::units(r.last->0) - decimal::units(r.first->0)),
            decimal::units(r.first->0),
            4,
        ),
        r.range_bps is Some && decimal::subtracts_exactly(r.high->0, r.low->0)
            && decimal::multiplies_exactly(
            decimal::decimal_difference(r.high->0, r.low->0)->0,
            decimal::whole(10_000),
        ) && decimal::divides_exactly(
            decimal::decimal_product(
                decimal::decimal_difference(r.high->0, r.low->0)->0,
                decimal::whole(10_000),
            )->0,
            r.mean->0,
        ) ==> decimal::nearest_ratio(
            r.range_bps->0,
            10_000 * (decimal::units(r.high->0) - decimal::units(r.low->0)),
            decimal::units(r.mean->0),
            4,
        ),
        r.samples > 0 && r.first is Some && r.last is Some && decimal::units(r.first->0) != 0
            ==> r.change_bps is Some,
        r.samples > 0 && r.high is Some && r.low is Some && r.mean is Some && decimal::units(
            r.mean->0,
        ) != 0 ==> r.range_bps is Some,
{
    if r.first is Some {
        decimal::lemma_units_sign(r.first->0);
    }
    if r.mean is Some {
        decimal::lemma_units_sign(r.mean->0);
    }
    if r.change_bps is Some {
        let d = decimal::decimal_difference(r.last->0, r.first->0)->0;
        if decimal::multiplies_exactly(d, decimal::whole(10_000)) && decimal::divides_exactly(
            decimal::decimal_product(d, decimal::whole(10_000))->0,
            r.first->0,
        ) {
            decimal::law_basis_points_are_ten_thousandths(d, r.first->0);
        }
    }
    if r.range_bps is Some {
        let d = decimal::decimal_difference(r.high->0, r.low->0)->0;
        if decimal::multiplies_exactly(d, decimal::whole(10_000)) && decimal::divides_exactly(
            decimal::decimal_product(d, decimal::whole(10_000))->0,
            r.mean->0,
        ) {
            decimal::law_basis_points_are_ten_thousandths(d, r.mean->0);
        }
    }
}

/// A print adds itself to its bucket: one print more, its quantity and its price times
/// quantity on top, where no digit is lost; and it touches nothing that comes from the
/// book.
pub proof fn law_a_print_adds_itself(b: BucketView, price: Parts, qty: Parts, c: BucketView)
    requires
        traded(b, price, qty) == Some(c),
    ensures
        c.trades == b.trades + 1,
        decimal::adds_exactly(b.sum_qty, qty) ==> decimal::units(c.sum_qty) == decimal::units(
            b.sum_qty,
        ) + decimal::units(qty),
        decimal::multiplies_exactly(price, qty) && decimal::adds_exactly(
            b.sum_price_qty,
            decimal::decimal_product(price, qty)->0,
        ) ==> (decimal::units(c.sum_price_qty) - decimal::units(b.sum_price_qty)) * decimal::pow10(
            decimal::MAX_SCALE as nat,
        ) == decimal::units(price) * decimal::units(qty),
        c == (BucketView {
            trades: c.trades,
            sum_qty: c.sum_qty,
            sum_price_qty: c.sum_price_qty,
            ..b
        }),
{
    let p = decimal::pow10(decimal::MAX_SCALE as nat);
    let x = decimal::units(decimal::decimal_product(price, qty)->0);
    let y = decimal::units(b.sum_price_qty);
    assert((y + x - y) * p == x * p) by (nonlinear_arith);
}

/// A sample adds itself to its bucket: one sample more, its mid and spread on top where
/// no digit is lost; it is the last mid, and the first where there was none; the
/// extremes widen to it and no further, and the guarantee weakens to its own at most.
/// It touches nothing that comes from prints.
pub proof fn law_a_sample_adds_itself(
    b: BucketView,
    mid: Parts,
    spread: Parts,
    integrity: Integrity,
    c: BucketView,
)
    requires
        recorded(b, mid, spread, integrity) == Some(c),
    ensures
        c.samples == b.samples + 1,
        decimal::adds_exactly(b.sum_mid, mid) ==> decimal::units(c.sum_mid) == decimal::units(
            b.sum_mid,
        ) + decimal::units(mid),
        decimal::adds_exactly(b.sum_spread, spread) ==> decimal::units(c.sum_spread)
            == decimal::units(b.sum_spread) + decimal::units(spread),
        c.last == Some(mid),
        b.first is Some ==> c.first == b.first,
        b.first is None ==> c.first == Some(mid),
        c.high matches Some(h) && decimal::units(h) >= decimal::units(mid) && (c.high == Some(mid)
            || c.high == b.high),
        c.low matches Some(l) && decimal::units(l) <= decimal::units(mid) && (c.low == Some(mid)
            || c.low == b.low),
        b.high matches Some(h) ==> decimal::units(c.high->0) >= decimal::units(h),
        b.low matches Some(l) ==> decimal::units(c.low->0) <= decimal::units(l),
        c.integrity matches Some(i) && i.rank() <= integrity.rank() && (i == integrity
            || c.integrity == b.integrity),
        b.integrity matches Some(i) ==> (c.integrity->0).rank() <= i.rank(),
        c.trades == b.trades && c.sum_qty == b.sum_qty && c.sum_price_qty == b.sum_price_qty,
        c.index == b.index && c.untrusted == b.untrusted,
{
}

/// A moment falls into the bucket that has begun by then and has not ended: buckets
/// follow one another from the origin, each as wide as the resolution.
pub proof fn law_a_moment_falls_into_its_bucket(origin: nat, resolution: nat, at: nat)
    requires
        in_range(origin, resolution, at),
    ensures
        origin + bucket_number(origin, resolution, at) * resolution <= at,
        at < origin + (bucket_number(origin, resolution, at) + 1) * resolution,
{
    lemma_bucket_bounds(origin, resolution, at, at);
}

/// What is observed is put into the bucket of its moment and no other: a live two-sided
/// book leaves one sample there, with its mid and its spread, and a print itself; the
/// other buckets stay as the time that passed left them, and so do all where the book
/// is not live or has one side only.
pub proof fn law_an_observation_touches_its_bucket_only(
    w: RollingWindows,
    top: TopOfBook,
    price: Parts,
    qty: Parts,
    at: IngestTime,
    other: int,
)
    requires
        w.ring_at(at).len() > 0,
        w.observation_fits(top, at),
        w.trade_fits(price, qty, at),
        0 <= other < w.ring_at(at).len(),
    ensures
        ({
            let before = w.ring_at(at);
            let slot = slot_of(before, w.number_at(at));
            let sampled = w.observed_ring(top, at);
            let printed = w.traded_ring(price, qty, at);
            &&& sampled.len() == before.len() && printed.len() == before.len()
            &&& other != slot ==> sampled[other] == before[other] && printed[other]
                == before[other]
            &&& !(top.state is Live) || top.bid is None || top.ask is None ==> sampled == before
            &&& printed[slot].trades == open_bucket(before, w.number_at(at)).trades + 1
            &&& printed[slot].index == Some(w.number_at(at) as u64)
            &&& top.state is Live && top.bid is Some && top.ask is Some ==> {
                let bid = (top.bid->0).price;
                let ask = (top.ask->0).price;
                &&& sampled[slot].index == Some(w.number_at(at) as u64)
                &&& sampled[slot].samples == open_bucket(before, w.number_at(at)).samples + 1
                &&& sampled[slot].last matches Some(mid) && (decimal::adds_exactly(bid@, ask@)
                    && decimal::divides_exactly(
                    decimal::decimal_sum(bid@, ask@)->0,
                    decimal::whole(2),
                ) ==> 2 * decimal::units(mid) == bid.units() + ask.units())
                &&& decimal::subtracts_exactly(ask@, bid@) && decimal::adds_exactly(
                    open_bucket(before, w.number_at(at)).sum_spread,
                    decimal::decimal_difference(ask@, bid@)->0,
                ) ==> decimal::units(sampled[slot].sum_spread) == decimal::units(
                    open_bucket(before, w.number_at(at)).sum_spread,
                ) + ask.units() - bid.units()
            }
        }),
{
    let before = w.ring_at(at);
    let index = w.number_at(at);
    vstd::arithmetic::div_mod::lemma_mod_bound(index as int, before.len() as int);
    if top.state is Live && top.bid is Some && top.ask is Some {
        let bid = (top.bid->0).price;
        let ask = (top.ask->0).price;
        if decimal::adds_exactly(bid@, ask@) && decimal::divides_exactly(
            decimal::decimal_sum(bid@, ask@)->0,
            decimal::whole(2),
        ) {
            decimal::law_a_midpoint_lies_half_way(bid@, ask@);
        }
    }
}

/// After a stall longer than the ring accounting resumes at the oldest bucket that can
/// still be read, and otherwise where it stopped.
pub proof fn law_a_stall_resumes_at_the_oldest_bucket(
    len: nat,
    origin: nat,
    resolution: nat,
    charged_to: nat,
    now: nat,
)
    requires
        in_range(origin, resolution, now),
        origin <= charged_to <= now,
        len > 0,
    ensures
        ({
            let end = bucket_number(origin, resolution, now);
            let from = bucket_number(origin, resolution, charged_to);
            let resumed = resume_at(len, origin, resolution, charged_to, now);
            &&& end - from < len ==> resumed == charged_to
            &&& end - from >= len ==> resumed == origin + (end - len + 1) * resolution
            &&& charged_to <= resumed <= now
        }),
{
    let end = bucket_number(origin, resolution, now);
    let from = bucket_number(origin, resolution, charged_to);
    lemma_bucket_bounds(origin, resolution, now, now);
    lemma_bucket_bounds(origin, resolution, charged_to, now);
    assert(from <= end) by (nonlinear_arith)
        requires
            origin + from * resolution <= charged_to,
            charged_to <= now,
            now < origin + (end + 1) * resolution,
            resolution >= 1,
    ;
    if end - from >= len {
        let k = (end - len + 1) as nat;
        assert(from + 1 <= k <= end);
        assert(k * resolution <= end * resolution && (from + 1) * resolution <= k * resolution)
            by (nonlinear_arith)
            requires
                from + 1 <= k <= end,
        ;
    }
}

/// A slot that still holds an older bucket is started anew: nothing of what the
/// older one held is left. A bucket that is already there is taken as it is.
pub proof fn law_a_stale_slot_starts_anew(ring: Seq<BucketView>, index: nat)
    requires
        ring.len() > 0,
        index <= u64::MAX,
    ensures
        ({
            let held = ring[(index % ring.len()) as int];
            let b = open_bucket(ring, index);
            &&& b.index == Some(index as u64)
            &&& held.index == Some(index as u64) ==> b == held
            &&& held.index != Some(index as u64) ==> {
                &&& b.samples == 0 && b.trades == 0 && b.untrusted == 0
                &&& b.first is None && b.last is None && b.high is None && b.low is None
                &&& b.integrity is None
                &&& decimal::units(b.sum_mid) == 0 && decimal::units(b.sum_spread) == 0
                &&& decimal::units(b.sum_qty) == 0 && decimal::units(b.sum_price_qty) == 0
            }
        }),
{
    decimal::lemma_units_sign(decimal::whole(0));
}

/// Time that passes leaves no sums in a bucket without samples.
proof fn lemma_charging_keeps_tidy(
    ring: Seq<BucketView>,
    origin: nat,
    resolution: nat,
    trusted: bool,
    cursor: nat,
    now: nat,
)
    requires
        tidy(ring),
        ring.len() > 0,
    ensures
        tidy(charged(ring, origin, resolution, trusted, cursor, now)),
        charged(ring, origin, resolution, trusted, cursor, now).len() == ring.len(),
    decreases now - cursor,
{
    if cursor < now {
        let index = bucket_number(origin, resolution, cursor);
        let end = slice_end(origin, resolution, cursor, now);
        let elapsed = if trusted {
            0
        } else {
            time::minus_nat(end, cursor)
        };
        let next = with_untrusted(ring, index, elapsed);
        decimal::lemma_units_sign(decimal::whole(0));
        assert(tidy(next)) by {
            assert forall|i: int| 0 <= i < next.len() && (
            #[trigger] next[i]).samples == 0 implies decimal::units(next[i].sum_mid) == 0
                && decimal::units(next[i].sum_spread) == 0 by {
                let held = ring[slot_of(ring, index)];
                assert(ring[i].samples == 0 || i == slot_of(ring, index));
            }
        }
        if cursor < end {
            lemma_charging_keeps_tidy(next, origin, resolution, trusted, end, now);
        }
    }
}

/// A ring starts without sums and keeps none but those of its samples, whatever is
/// observed and however time passes.
pub proof fn law_only_samples_leave_sums(
    w: RollingWindows,
    top: TopOfBook,
    price: Parts,
    qty: Parts,
    at: IngestTime,
)
    requires
        w.ring().len() > 0,
    ensures
        (forall|i: int| 0 <= i < w.ring().len() ==> #[trigger] w.ring()[i] == fresh_bucket(None))
            ==> tidy(w.ring()),
        tidy(w.ring()) ==> tidy(w.ring_at(at)),
        tidy(w.ring()) && w.observation_fits(top, at) ==> tidy(w.observed_ring(top, at)),
        tidy(w.ring()) && w.trade_fits(price, qty, at) ==> tidy(w.traded_ring(price, qty, at)),
{
    decimal::lemma_units_sign(decimal::whole(0));
    if tidy(w.ring()) {
        let origin = w.origin_nanos();
        let resolution = w.resolution();
        let now = at.mono_nanos();
        let from = resume_at(w.ring().len(), origin, resolution, w.charged_nanos(), now);
        lemma_charging_keeps_tidy(w.ring(), origin, resolution, w.trusting(), from, now);
        let ring = w.ring_at(at);
        let slot = slot_of(ring, w.number_at(at));
        assert(0 <= slot < ring.len());
        if w.observation_fits(top, at) {
            let then = w.observed_ring(top, at);
            assert forall|i: int| 0 <= i < then.len() && (
            #[trigger] then[i]).samples == 0 implies decimal::units(then[i].sum_mid) == 0
                && decimal::units(then[i].sum_spread) == 0 by {
                assert(ring[i].samples == 0 || i == slot);
            }
        }
        if w.trade_fits(price, qty, at) {
            let then = w.traded_ring(price, qty, at);
            let held = ring[slot];
            assert forall|i: int| 0 <= i < then.len() && (
            #[trigger] then[i]).samples == 0 implies decimal::units(then[i].sum_mid) == 0
                && decimal::units(then[i].sum_spread) == 0 by {
                assert(ring[i].samples == 0 || i == slot);
            }
        }
    }
}

/// The account of time only moves on: it reaches the moment of every call and never
/// goes back.
pub proof fn law_the_account_only_moves_on(w: RollingWindows, at: IngestTime)
    ensures
        w.charged_at(at) >= w.charged_nanos(),
        w.charged_at(at) >= at.mono_nanos(),
        w.charged_at(at) == w.charged_nanos() || w.charged_at(at) == at.mono_nanos(),
        at.mono_nanos() <= w.charged_nanos() ==> w.ring_at(at) == w.ring(),
{
}

} // verus!
