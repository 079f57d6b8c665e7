//! Time as observed locally, which is the only time that is trusted.
//!
//! Venue timestamps disagree with each other, sometimes by seconds, and some
//! are simply wrong. Readings are whole nanoseconds: a [`Duration`] is a span,
//! an [`Instant`] a monotonic reading, a [`SystemTime`] a wall-clock reading
//! relative to the Unix epoch.

use vstd::prelude::*;

verus! {

/// Nanoseconds in a second.
pub const NANOS_PER_SEC: u128 = 1_000_000_000;

/// The longest span: 2^64 seconds, less a nanosecond.
pub const DURATION_LIMIT: u128 = 18_446_744_073_709_551_615_999_999_999;

/// The latest reading of either clock: 2^63 seconds, less a nanosecond.
pub const READING_LIMIT: u128 = 9_223_372_036_854_775_807_999_999_999;

/// The earliest wall-clock reading: 2^63 seconds before the epoch.
pub const WALL_START: i128 = -9_223_372_036_854_775_808_000_000_000;

/// The latest wall-clock reading.
pub const WALL_LIMIT: i128 = 9_223_372_036_854_775_807_999_999_999;

/// A span of time, in whole nanoseconds.
#[derive(Clone, Copy, Debug, PartialEq, Eq, PartialOrd, Ord, Hash, Structural)]
pub struct Duration {
    nanos: u128,
}

impl View for Duration {
    type V = nat;

    closed spec fn view(&self) -> nat {
        self.nanos as nat
    }
}

/// The smaller of two numbers.
pub open spec fn min_nat(a: nat, b: nat) -> nat {
    if a < b {
        a
    } else {
        b
    }
}

/// The larger of two numbers.
pub open spec fn max_nat(a: nat, b: nat) -> nat {
    if a < b {
        b
    } else {
        a
    }
}

/// `a - b`, or zero where that would be negative.
pub open spec fn minus_nat(a: nat, b: nat) -> nat {
    if b < a {
        (a - b) as nat
    } else {
        0
    }
}

impl Duration {
    #[verifier::type_invariant]
    closed spec fn bounded(self) -> bool {
        self@ <= DURATION_LIMIT
    }

    /// No time at all.
    pub fn zero() -> (d: Duration)
        ensures
            d@ == 0,
    {
        Duration { nanos: 0 }
    }

    /// The longest span.
    pub closed spec fn longest_span() -> Duration {
        Duration { nanos: DURATION_LIMIT }
    }

    /// The longest span.
    pub fn longest() -> (d: Duration)
        ensures
            d == Duration::longest_span(),
            d@ == DURATION_LIMIT,
    {
        Duration { nanos: DURATION_LIMIT }
    }

    pub fn from_nanos(nanos: u64) -> (d: Duration)
        ensures
            d@ == nanos,
    {
        Duration { nanos: nanos as u128 }
    }

    pub fn from_millis(millis: u64) -> (d: Duration)
        ensures
            d@ == millis * 1_000_000,
    {
        Duration { nanos: millis as u128 * 1_000_000 }
    }

    pub fn from_secs(secs: u64) -> (d: Duration)
        ensures
            d@ == secs * NANOS_PER_SEC,
    {
        Duration { nanos: secs as u128 * NANOS_PER_SEC }
    }

    pub fn as_nanos(&self) -> (n: u128)
        ensures
            n == self@,
            n <= DURATION_LIMIT,
    {
        proof {
            use_type_invariant(self);
        }
        self.nanos
    }

    /// Whole milliseconds, rounded down.
    pub fn as_millis(&self) -> (n: u128)
        ensures
            n == self@ / 1_000_000,
    {
        self.nanos / 1_000_000
    }

    /// Whole seconds, rounded down.
    pub fn as_secs(&self) -> (n: u64)
        ensures
            n == self@ / NANOS_PER_SEC as nat,
    {
        proof {
            use_type_invariant(self);
        }
        (self.nanos / NANOS_PER_SEC) as u64
    }

    /// Whole milliseconds, or the largest number that fits.
    pub fn whole_millis(&self) -> (n: u64)
        ensures
            n == min_nat(self@ / 1_000_000, u64::MAX as nat),
    {
        clamp_u64(self.as_millis())
    }

    /// Whole nanoseconds, or the largest number that fits.
    pub fn whole_nanos(&self) -> (n: u64)
        ensures
            n == min_nat(self@, u64::MAX as nat),
    {
        clamp_u64(self.nanos)
    }

    /// The sum, or the longest span.
    pub fn saturating_add(self, other: Duration) -> (d: Duration)
        ensures
            d@ == min_nat(self@ + other@, DURATION_LIMIT as nat),
    {
        proof {
            use_type_invariant(self);
            use_type_invariant(other);
        }
        let sum: u128 = self.nanos + other.nanos;
        if sum < DURATION_LIMIT {
            Duration { nanos: sum }
        } else {
            Duration { nanos: DURATION_LIMIT }
        }
    }

    /// The difference, or nothing.
    pub fn saturating_sub(self, other: Duration) -> (d: Duration)
        ensures
            d@ == minus_nat(self@, other@),
    {
        proof {
            use_type_invariant(self);
        }
        if other.nanos < self.nanos {
            Duration { nanos: self.nanos - other.nanos }
        } else {
            Duration { nanos: 0 }
        }
    }

    /// The multiple, or the longest span.
    pub fn saturating_mul(self, factor: u32) -> (d: Duration)
        ensures
            d@ == min_nat(self@ * factor as nat, DURATION_LIMIT as nat),
    {
        proof {
            use_type_invariant(self);
            assert(self.nanos * factor <= 18_446_744_073_709_551_615_999_999_999
                * 4_294_967_295) by (nonlinear_arith)
                requires
                    0 <= self.nanos <= 18_446_744_073_709_551_615_999_999_999,
                    0 <= factor <= 4_294_967_295,
            ;
        }
        let product: u128 = self.nanos * factor as u128;
        if product < DURATION_LIMIT {
            Duration { nanos: product }
        } else {
            Duration { nanos: DURATION_LIMIT }
        }
    }

    /// Whether this span is shorter.
    pub fn shorter_than(&self, other: &Duration) -> (b: bool)
        ensures
            b == (self@ < other@),
    {
        self.nanos < other.nanos
    }

    /// The longer of two spans.
    pub fn longer(self, other: Duration) -> (d: Duration)
        ensures
            d@ == max_nat(self@, other@),
    {
        if self.nanos < other.nanos {
            other
        } else {
            self
        }
    }

    /// The shorter of two spans.
    pub fn shorter(self, other: Duration) -> (d: Duration)
        ensures
            d@ == min_nat(self@, other@),
            other@ <= DURATION_LIMIT,
    {
        proof {
            use_type_invariant(other);
        }
        if self.nanos < other.nanos {
            self
        } else {
            other
        }
    }
}

/// The number, or the largest `u64` where it is too large for one.
pub fn clamp_u64(n: u128) -> (r: u64)
    ensures
        r == min_nat(n as nat, u64::MAX as nat),
{
    if n < u64::MAX as u128 {
        n as u64
    } else {
        u64::MAX
    }
}

/// A monotonic reading: nanoseconds since a moment fixed for the process.
#[derive(Clone, Copy, Debug, PartialEq, Eq, PartialOrd, Ord, Hash, Structural)]
pub struct Instant {
    nanos: u128,
}

impl View for Instant {
    type V = nat;

    closed spec fn view(&self) -> nat {
        self.nanos as nat
    }
}

impl Instant {
    #[verifier::type_invariant]
    closed spec fn bounded(self) -> bool {
        self@ <= READING_LIMIT
    }

    /// The reading that many nanoseconds after the fixed moment.
    pub fn from_nanos(nanos: u64) -> (t: Instant)
        ensures
            t@ == nanos,
    {
        Instant { nanos: nanos as u128 }
    }

    pub fn as_nanos(&self) -> (n: u128)
        ensures
            n == self@,
            n <= READING_LIMIT,
    {
        proof {
            use_type_invariant(self);
        }
        self.nanos
    }

    /// A later reading, where the clock can show it.
    pub fn checked_add(self, delta: Duration) -> (t: Option<Instant>)
        ensures
            t is Some <==> self@ + delta@ <= READING_LIMIT,
            t matches Some(t) ==> t@ == self@ + delta@,
    {
        proof {
            use_type_invariant(self);
        }
        let sum: u128 = self.nanos + delta.as_nanos();
        if sum <= READING_LIMIT {
            Some(Instant { nanos: sum })
        } else {
            None
        }
    }

    /// Time since an earlier reading; nothing if it was not earlier.
    pub fn saturating_duration_since(&self, earlier: Instant) -> (d: Duration)
        ensures
            d@ == minus_nat(self@, earlier@),
    {
        proof {
            use_type_invariant(self);
        }
        if earlier.nanos < self.nanos {
            Duration { nanos: self.nanos - earlier.nanos }
        } else {
            Duration { nanos: 0 }
        }
    }
}

/// A wall-clock reading: nanoseconds after the Unix epoch, or before it.
#[derive(Clone, Copy, Debug, PartialEq, Eq, PartialOrd, Ord, Hash, Structural)]
pub struct SystemTime {
    nanos: i128,
}

impl View for SystemTime {
    type V = int;

    closed spec fn view(&self) -> int {
        self.nanos as int
    }
}

impl SystemTime {
    #[verifier::type_invariant]
    closed spec fn bounded(self) -> bool {
        WALL_START <= self@ <= WALL_LIMIT
    }

    /// The Unix epoch.
    pub fn epoch() -> (t: SystemTime)
        ensures
            t@ == 0,
    {
        SystemTime { nanos: 0 }
    }

    /// The reading that many nanoseconds after the epoch; before it where
    /// negative.
    pub fn from_unix_nanos(nanos: i64) -> (t: SystemTime)
        ensures
            t@ == nanos,
    {
        SystemTime { nanos: nanos as i128 }
    }

    /// Nanoseconds since the epoch, or the nearest number that fits. Two
    /// magnitudes that do not fit are both the largest one.
    pub fn unix_nanos(&self) -> (n: i64)
        ensures
            n == clamped_nanos(self@),
    {
        if self.nanos > i64::MAX as i128 {
            i64::MAX
        } else if self.nanos < -(i64::MAX as i128) {
            -i64::MAX
        } else {
            self.nanos as i64
        }
    }

    /// A later reading, where the clock can show it.
    pub fn checked_add(self, delta: Duration) -> (t: Option<SystemTime>)
        ensures
            t is Some <==> self@ + delta@ <= WALL_LIMIT,
            t matches Some(t) ==> t@ == self@ + delta@,
    {
        proof {
            use_type_invariant(self);
        }
        let sum: i128 = self.nanos + delta.as_nanos() as i128;
        if sum <= WALL_LIMIT {
            Some(SystemTime { nanos: sum })
        } else {
            None
        }
    }

    /// An earlier reading, where the clock can show it.
    pub fn checked_sub(self, delta: Duration) -> (t: Option<SystemTime>)
        ensures
            t is Some <==> self@ - delta@ >= WALL_START,
            t matches Some(t) ==> t@ == self@ - delta@,
    {
        proof {
            use_type_invariant(self);
        }
        let difference: i128 = self.nanos - delta.as_nanos() as i128;
        if difference >= WALL_START {
            Some(SystemTime { nanos: difference })
        } else {
            None
        }
    }

    /// Time since an earlier reading, or by how much it was later.
    pub fn duration_since(&self, earlier: SystemTime) -> (d: Result<Duration, Duration>)
        ensures
            d is Ok <==> earlier@ <= self@,
            d matches Ok(d) ==> d@ == self@ - earlier@,
            d matches Err(d) ==> d@ == earlier@ - self@,
    {
        proof {
            use_type_invariant(self);
            use_type_invariant(&earlier);
        }
        if earlier.nanos <= self.nanos {
            Ok(Duration { nanos: (self.nanos - earlier.nanos) as u128 })
        } else {
            Err(Duration { nanos: (earlier.nanos - self.nanos) as u128 })
        }
    }

    /// Time since the epoch; nothing for a reading before it.
    pub fn since_epoch(&self) -> (d: Duration)
        ensures
            d@ == (if self@ < 0 {
                0
            } else {
                self@
            }),
            d@ <= WALL_LIMIT,
    {
        proof {
            use_type_invariant(self);
        }
        match self.duration_since(SystemTime::epoch()) {
            Ok(d) => d,
            Err(_) => Duration::zero(),
        }
    }

    /// Whether this reading is earlier.
    pub fn earlier_than(&self, other: &SystemTime) -> (b: bool)
        ensures
            b == (self@ < other@),
    {
        self.nanos < other.nanos
    }
}

/// A count of nanoseconds brought into the range of a signed 64-bit column.
pub open spec fn clamped_nanos(n: int) -> int {
    if n > i64::MAX {
        i64::MAX as int
    } else if n < -i64::MAX {
        -i64::MAX
    } else {
        n
    }
}

/// A moment observed locally, carrying both clocks on purpose.
///
/// The monotonic reading is the only one used for windowing, book age and
/// ordering: it cannot run backwards when the system clock is stepped. The wall
/// reading is the only one that can be written down or shown, because a
/// monotonic reading means nothing outside the process that took it.
#[derive(Clone, Copy, Debug, PartialEq, Eq, Structural)]
pub struct IngestTime {
    mono: Instant,
    wall: SystemTime,
}

impl IngestTime {
    /// The monotonic reading, in nanoseconds.
    pub closed spec fn mono_nanos(self) -> nat {
        self.mono@
    }

    /// The wall reading, in nanoseconds relative to the epoch.
    pub closed spec fn wall_nanos(self) -> int {
        self.wall@
    }

    /// Construct from both clocks.
    pub fn new(mono: Instant, wall: SystemTime) -> (t: IngestTime)
        ensures
            t.mono_nanos() == mono@,
            t.wall_nanos() == wall@,
    {
        IngestTime { mono, wall }
    }

    /// The monotonic reading. Use this for anything comparative.
    pub fn mono(&self) -> (t: Instant)
        ensures
            t@ == self.mono_nanos(),
    {
        self.mono
    }

    /// The wall reading. Use this only for output.
    pub fn wall(&self) -> (t: SystemTime)
        ensures
            t@ == self.wall_nanos(),
    {
        self.wall
    }

    /// Elapsed time since an earlier observation, measured monotonically;
    /// nothing if it was actually later, which can happen when two tasks stamp
    /// events concurrently.
    pub fn since(&self, earlier: IngestTime) -> (d: Duration)
        ensures
            d@ == minus_nat(self.mono_nanos(), earlier.mono_nanos()),
    {
        self.mono.saturating_duration_since(earlier.mono)
    }

    /// Both clocks advanced by the same amount. A clock that cannot show the
    /// later moment stays where it is.
    pub fn advanced_by(&self, delta: Duration) -> (t: IngestTime)
        ensures
            t.mono_nanos() == advanced_mono(self.mono_nanos(), delta@),
            t.wall_nanos() == advanced_wall(self.wall_nanos(), delta@),
    {
        let mono = match self.mono.checked_add(delta) {
            Some(later) => later,
            None => self.mono,
        };
        let wall = match self.wall.checked_add(delta) {
            Some(later) => later,
            None => self.wall,
        };
        IngestTime { mono, wall }
    }

    /// Whether this observation was made before another, monotonically.
    pub fn before(&self, other: &IngestTime) -> (b: bool)
        ensures
            b == (self.mono_nanos() < other.mono_nanos()),
    {
        self.mono.nanos < other.mono.nanos
    }
}

/// A monotonic reading advanced by a span, where the clock can show it.
pub open spec fn advanced_mono(mono: nat, delta: nat) -> nat {
    if mono + delta <= READING_LIMIT {
        mono + delta
    } else {
        mono
    }
}

/// A wall reading advanced by a span, where the clock can show it.
pub open spec fn advanced_wall(wall: int, delta: nat) -> int {
    if wall + delta <= WALL_LIMIT {
        wall + delta
    } else {
        wall
    }
}

/// Source of [`IngestTime`], so that no rule reads a clock of its own.
pub trait Clock {
    fn now(&self) -> IngestTime;
}

/// A clock that only moves when told to.
#[derive(Debug)]
pub struct TestClock {
    base: IngestTime,
    offset_nanos: u64,
}

impl TestClock {
    /// Where the clock started.
    pub closed spec fn base(self) -> IngestTime {
        self.base
    }

    /// How far it has been moved since.
    pub closed spec fn offset(self) -> nat {
        self.offset_nanos as nat
    }

    /// A clock that starts at the epoch.
    pub fn new() -> (c: TestClock)
        ensures
            c.base().mono_nanos() == 0,
            c.base().wall_nanos() == 0,
            c.offset() == 0,
    {
        TestClock::starting_at(IngestTime::new(Instant::from_nanos(0), SystemTime::epoch()))
    }

    /// A clock that starts at the given observation.
    pub fn starting_at(base: IngestTime) -> (c: TestClock)
        ensures
            c.base() == base,
            c.offset() == 0,
    {
        TestClock { base, offset_nanos: 0 }
    }

    /// Move both clocks forward. The offset is a 64-bit count of nanoseconds
    /// that wraps; a longer span counts as the largest one.
    pub fn advance(&mut self, delta: Duration)
        ensures
            final(self).base() == old(self).base(),
            final(self).offset() == (old(self).offset() + min_nat(delta@, u64::MAX as nat))
                % 0x1_0000_0000_0000_0000,
    {
        self.offset_nanos = self.offset_nanos.wrapping_add(delta.whole_nanos());
    }
}

impl Clock for TestClock {
    fn now(&self) -> (t: IngestTime)
        ensures
            t.mono_nanos() == advanced_mono(self.base().mono_nanos(), self.offset()),
            t.wall_nanos() == advanced_wall(self.base().wall_nanos(), self.offset()),
    {
        self.base.advanced_by(Duration::from_nanos(self.offset_nanos))
    }
}

/// Two observations of the clock are apart by exactly what it was moved in
/// between, on both clocks.
pub proof fn law_both_clocks_advance_together(base: IngestTime, offset: nat, delta: nat)
    requires
        base.mono_nanos() + offset + delta <= READING_LIMIT,
        base.wall_nanos() + offset + delta <= WALL_LIMIT,
    ensures
        advanced_mono(base.mono_nanos(), offset + delta) - advanced_mono(base.mono_nanos(), offset)
            == delta,
        advanced_wall(base.wall_nanos(), offset + delta) - advanced_wall(base.wall_nanos(), offset)
            == delta,
{
}

/// A reading that fits its column is kept; one that does not becomes the nearest
/// that does, and order is never turned round.
pub proof fn law_a_clamped_reading_is_the_nearest(a: int, b: int)
    ensures
        -i64::MAX <= clamped_nanos(a) <= i64::MAX,
        -i64::MAX <= a <= i64::MAX ==> clamped_nanos(a) == a,
        a <= b ==> clamped_nanos(a) <= clamped_nanos(b),
{
}

/// The time from one reading to another is what has to be added to the first to
/// come to the second, and nothing where the second is not later.
pub proof fn law_time_between_adds_up(a: nat, b: nat)
    ensures
        b <= a ==> b + minus_nat(a, b) == a,
        a <= b ==> minus_nat(a, b) == 0,
{
}

} // verus!
