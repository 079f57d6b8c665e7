//! Reconnect delays: exponential, capped, jittered in the upper half of the
//! ceiling, and reset only by a session that lasted.
use std::hash::BuildHasher;
use std::hash::Hasher;
use vstd::arithmetic::power2::{
    lemma2_to64, lemma_pow2_strictly_increases, lemma_pow2_unfold, pow2,
};
use vstd::prelude::*;

use crate::time::{min_nat, Duration, DURATION_LIMIT};

verus! {

/// `std::hash::RandomState::new`: a hasher factory keyed at random. Nothing is
/// claimed of the keys.
pub assume_specification[ std::hash::RandomState::new ]() -> std::hash::RandomState
;

/// `BuildHasher::build_hasher` of `RandomState`: a hasher with the factory's
/// keys. Nothing is claimed of its state.
#[verifier::external_body]
fn keyed_hasher(keys: &std::hash::RandomState) -> std::hash::DefaultHasher {
    keys.build_hasher()
}

/// Picks the actual delay inside a computed ceiling.
pub trait Jitter {
    /// The ceilings that a delay can be picked under.
    spec fn accepts(&self, ceiling: nat) -> bool;

    /// What can be picked under a ceiling, and what the picker then is.
    spec fn may_pick(&self, ceiling: nat, delay: nat, after: &Self) -> bool;

    /// A delay between zero and the ceiling.
    fn sample(&mut self, ceiling: Duration) -> (d: Duration)
        requires
            old(self).accepts(ceiling@),
        ensures
            d@ <= ceiling@,
            old(self).may_pick(ceiling@, d@, final(self)),
    ;
}

/// Returns the ceiling unjittered: the bare exponential schedule.
#[derive(Clone, Copy, Debug)]
pub struct NoJitter;

impl Default for NoJitter {
    fn default() -> (j: NoJitter)
        ensures
            j == NoJitter,
    {
        NoJitter
    }
}

impl Jitter for NoJitter {
    open spec fn accepts(&self, ceiling: nat) -> bool {
        true
    }

    open spec fn may_pick(&self, ceiling: nat, delay: nat, after: &NoJitter) -> bool {
        delay == ceiling
    }

    fn sample(&mut self, ceiling: Duration) -> (d: Duration) {
        ceiling
    }
}

/// Uniform in the upper half of the ceiling, from a SplitMix64 sequence.
#[derive(Debug)]
pub struct EqualJitter {
    /// Where the sequence is.
    pub state: u64,
}

impl Clone for EqualJitter {
    /// The clone goes on where this one does.
    fn clone(&self) -> (j: EqualJitter)
        ensures
            j == *self,
    {
        EqualJitter { state: self.state }
    }
}

/// The state that follows a state of the SplitMix64 sequence.
pub open spec fn next_state(state: u64) -> u64 {
    state.wrapping_add(0x9E37_79B9_7F4A_7C15)
}

/// The number that a state of the SplitMix64 sequence stands for.
pub open spec fn mixed(state: u64) -> u64 {
    let a = (state ^ (state >> 30)).wrapping_mul(0xBF58_476D_1CE4_E5B9);
    let b = (a ^ (a >> 27)).wrapping_mul(0x94D0_49BB_1331_11EB);
    b ^ (b >> 31)
}

/// The delay that the upper half of a ceiling holds for a drawn number.
pub open spec fn upper_half(ceiling: nat, drawn: u64) -> nat {
    let floor = ceiling / 2;
    let span = (ceiling - floor) as nat;
    if span == 0 {
        ceiling
    } else {
        floor + (drawn as nat) % (span + 1)
    }
}

impl EqualJitter {
    /// Seeded from the operating system: different in every process.
    pub fn from_entropy() -> EqualJitter {
        let keys = std::hash::RandomState::new();
        let hasher = keyed_hasher(&keys);
        EqualJitter::seeded(hasher.finish())
    }

    /// Seeded explicitly, for a reproducible sequence.
    pub fn seeded(seed: u64) -> (j: EqualJitter)
        ensures
            j.state == seed,
    {
        EqualJitter { state: seed }
    }

    /// The next number of the sequence.
    pub fn next_u64(&mut self) -> (n: u64)
        ensures
            final(self).state == next_state(old(self).state),
            n == mixed(final(self).state),
    {
        self.state = self.state.wrapping_add(0x9E37_79B9_7F4A_7C15);
        let s: u64 = self.state;
        let a: u64 = (s ^ (s >> 30)).wrapping_mul(0xBF58_476D_1CE4_E5B9);
        let b: u64 = (a ^ (a >> 27)).wrapping_mul(0x94D0_49BB_1331_11EB);
        b ^ (b >> 31)
    }
}

impl Default for EqualJitter {
    /// Seeded from the operating system: different in every process.
    fn default() -> EqualJitter {
        EqualJitter::from_entropy()
    }
}

impl Jitter for EqualJitter {
    /// Half of the ceiling must fall short of the longest `u64` of nanoseconds.
    open spec fn accepts(&self, ceiling: nat) -> bool {
        ceiling - ceiling / 2 < u64::MAX
    }

    open spec fn may_pick(&self, ceiling: nat, delay: nat, after: &EqualJitter) -> bool {
        &&& delay == upper_half(ceiling, mixed(next_state(self.state)))
        &&& after.state == (if ceiling == 0 {
            self.state
        } else {
            next_state(self.state)
        })
    }

    fn sample(&mut self, ceiling: Duration) -> (d: Duration) {
        let whole: u128 = ceiling.as_nanos();
        let floor: u128 = whole / 2;
        let span: u64 = (whole - floor) as u64;
        if span == 0 {
            return ceiling;
        }
        let drawn: u64 = self.next_u64() % (span + 1);
        Duration::from_nanos(floor as u64).saturating_add(Duration::from_nanos(drawn))
    }
}

/// The shape of the schedule, apart from where it currently is.
#[derive(Clone, Copy, Debug, PartialEq, Eq, Structural)]
pub struct BackoffPolicy {
    /// Ceiling for the first retry. Doubles per consecutive failure.
    pub base: Duration,
    /// The ceiling that no delay passes.
    pub cap: Duration,
    /// How long a session must last to count as a recovery.
    pub min_stable: Duration,
}

impl Default for BackoffPolicy {
    /// From half a second to a minute; thirty seconds of uptime count as
    /// recovered.
    fn default() -> (p: BackoffPolicy)
        ensures
            p.base@ == 500_000_000,
            p.cap@ == 60_000_000_000,
            p.min_stable@ == 30_000_000_000,
    {
        BackoffPolicy {
            base: Duration::from_millis(500),
            cap: Duration::from_secs(60),
            min_stable: Duration::from_secs(30),
        }
    }
}

/// The delay before jitter after a number of consecutive failures.
pub open spec fn schedule(base: nat, cap: nat, attempt: nat) -> nat {
    min_nat(base * pow2(attempt), cap)
}

/// A policy and the current position in it.
#[derive(Debug)]
pub struct Backoff<J: Jitter> {
    /// The shape of the schedule.
    pub policy: BackoffPolicy,
    /// What picks a delay under the ceiling.
    pub jitter: J,
    /// Consecutive failures so far.
    pub attempt: u32,
}

impl Backoff<EqualJitter> {
    /// The default policy with real jitter.
    pub fn live() -> (b: Backoff<EqualJitter>)
        ensures
            b.policy.base@ == 500_000_000,
            b.policy.cap@ == 60_000_000_000,
            b.policy.min_stable@ == 30_000_000_000,
            b.attempt == 0,
    {
        Backoff::new(BackoffPolicy::default(), EqualJitter::from_entropy())
    }
}

impl<J: Jitter> Backoff<J> {
    /// A schedule at its start.
    pub fn new(policy: BackoffPolicy, jitter: J) -> (b: Backoff<J>)
        ensures
            b.policy == policy,
            b.jitter == jitter,
            b.attempt == 0,
    {
        Backoff { policy, jitter, attempt: 0 }
    }

    /// Consecutive failures recorded so far.
    pub fn attempt(&self) -> (n: u32)
        ensures
            n == self.attempt,
    {
        self.attempt
    }

    /// The longest delay that the next call of `next_delay` can return.
    pub open spec fn next_ceiling(&self) -> nat {
        schedule(self.policy.base@, self.policy.cap@, self.attempt as nat)
    }

    /// The un-jittered ceiling for the next call of `next_delay`.
    pub fn ceiling(&self) -> (d: Duration)
        ensures
            d@ == self.next_ceiling(),
    {
        let base = self.policy.base;
        let cap = self.policy.cap;
        let limit: u128 = cap.as_nanos();
        if base.as_nanos() == 0 {
            proof {
                lemma_grows(0, 0, self.attempt as nat);
            }
            return base;
        }
        let mut grown = base;
        let mut i: u32 = 0;
        proof {
            lemma2_to64();
        }
        while i < self.attempt && grown.as_nanos() < limit
            invariant
                i <= self.attempt,
                limit == cap@ <= DURATION_LIMIT,
                grown@ == base@ * pow2(i as nat) || limit <= grown@ && limit <= base@ * pow2(
                    i as nat,
                ),
            decreases self.attempt - i,
        {
            proof {
                lemma_doubles(base@, i as nat);
            }
            grown = grown.saturating_mul(2);
            i += 1;
        }
        proof {
            lemma_grows(base@, i as nat, self.attempt as nat);
        }
        grown.shorter(cap)
    }

    /// How long to wait before the next attempt; the schedule moves on by one.
    pub fn next_delay(&mut self) -> (d: Duration)
        requires
            old(self).jitter.accepts(old(self).next_ceiling()),
        ensures
            d@ <= old(self).next_ceiling(),
            old(self).jitter.may_pick(old(self).next_ceiling(), d@, &final(self).jitter),
            final(self).policy == old(self).policy,
            final(self).attempt == (if old(self).attempt < u32::MAX {
                old(self).attempt + 1
            } else {
                u32::MAX as int
            }),
    {
        let ceiling = self.ceiling();
        let d = self.jitter.sample(ceiling);
        self.attempt = self.attempt.saturating_add(1);
        d
    }

    /// Reports how long a session lasted: one that lasted long enough resets
    /// the schedule. Says whether it did.
    pub fn note_session(&mut self, lasted: Duration) -> (stable: bool)
        ensures
            stable == (lasted@ >= old(self).policy.min_stable@),
            final(self).attempt == (if stable {
                0
            } else {
                old(self).attempt
            }),
            final(self).policy == old(self).policy,
            final(self).jitter == old(self).jitter,
    {
        let stable = !lasted.shorter_than(&self.policy.min_stable);
        if stable {
            self.reset();
        }
        stable
    }

    /// Clears the schedule unconditionally.
    pub fn reset(&mut self)
        ensures
            final(self).attempt == 0,
            final(self).policy == old(self).policy,
            final(self).jitter == old(self).jitter,
    {
        self.attempt = 0;
    }
}

/// The upper half is the upper half: a jittered delay is at least half of the
/// ceiling and at most all of it, whatever number was drawn.
pub proof fn law_jitter_stays_in_the_upper_half(ceiling: nat, drawn: u64)
    ensures
        ceiling / 2 <= upper_half(ceiling, drawn) <= ceiling,
{
}

/// Whether delays were picked one after another, each under its own ceiling.
pub open spec fn picked(
    pickers: Seq<EqualJitter>,
    ceilings: Seq<nat>,
    delays: Seq<nat>,
) -> bool {
    &&& pickers.len() == ceilings.len() + 1
    &&& delays.len() == ceilings.len()
    &&& forall|i: int|
        0 <= i < ceilings.len() ==> (#[trigger] pickers[i]).may_pick(
            ceilings[i],
            delays[i],
            &pickers[i + 1],
        )
}

/// A seed reproduces its schedule: two pickers of one seed pick the same delays
/// under the same ceilings, however many, and are then in the same place.
pub proof fn law_a_seed_reproduces_its_schedule(
    pickers: Seq<EqualJitter>,
    others: Seq<EqualJitter>,
    ceilings: Seq<nat>,
    delays: Seq<nat>,
    repeated: Seq<nat>,
)
    requires
        picked(pickers, ceilings, delays),
        picked(others, ceilings, repeated),
        pickers[0].state == others[0].state,
    ensures
        repeated == delays,
        others.last().state == pickers.last().state,
    decreases ceilings.len(),
{
    if ceilings.len() > 0 {
        let n = ceilings.len() - 1;
        assert forall|i: int| 0 <= i < n implies (#[trigger] pickers.drop_last()[i]).may_pick(
            ceilings.drop_last()[i],
            delays.drop_last()[i],
            &pickers.drop_last()[i + 1],
        ) by {
            assert(pickers[i].may_pick(ceilings[i], delays[i], &pickers[i + 1]));
        }
        assert forall|i: int| 0 <= i < n implies (#[trigger] others.drop_last()[i]).may_pick(
            ceilings.drop_last()[i],
            repeated.drop_last()[i],
            &others.drop_last()[i + 1],
        ) by {
            assert(others[i].may_pick(ceilings[i], repeated[i], &others[i + 1]));
        }
        law_a_seed_reproduces_its_schedule(
            pickers.drop_last(),
            others.drop_last(),
            ceilings.drop_last(),
            delays.drop_last(),
            repeated.drop_last(),
        );
        assert(pickers[n].may_pick(ceilings[n], delays[n], &pickers[n + 1]));
        assert(others[n].may_pick(ceilings[n], repeated[n], &others[n + 1]));
        assert(delays =~= delays.drop_last().push(delays.last()));
        assert(repeated =~= repeated.drop_last().push(repeated.last()));
    } else {
        assert(repeated =~= delays);
    }
}

/// One failure more doubles an uncapped delay.
proof fn lemma_doubles(base: nat, attempt: nat)
    ensures
        base * pow2(attempt + 1) == 2 * (base * pow2(attempt)),
{
    lemma_pow2_unfold(attempt + 1);
    assert(base * (2 * pow2(attempt)) == 2 * (base * pow2(attempt))) by (nonlinear_arith);
}

/// More failures never shorten an uncapped delay.
proof fn lemma_grows(base: nat, fewer: nat, more: nat)
    requires
        fewer <= more,
    ensures
        base * pow2(fewer) <= base * pow2(more),
        base == 0 ==> base * pow2(more) == 0,
{
    if fewer < more {
        lemma_pow2_strictly_increases(fewer, more);
    }
    let low = pow2(fewer);
    let high = pow2(more);
    assert(base * low <= base * high) by (nonlinear_arith)
        requires
            low <= high,
    ;
}

/// An outage never shortens the wait: each consecutive failure doubles the
/// ceiling until the cap binds, the ceiling never passes the cap, and once there
/// it stays there however long the outage lasts.
pub proof fn law_ceilings_double_until_the_cap(base: nat, cap: nat, attempt: nat)
    ensures
        schedule(base, cap, attempt) <= schedule(base, cap, attempt + 1) <= cap,
        schedule(base, cap, attempt + 1) == min_nat(2 * schedule(base, cap, attempt), cap),
        schedule(base, cap, 0) == min_nat(base, cap),
        schedule(base, cap, attempt) == cap ==> schedule(base, cap, attempt + 1) == cap,
{
    lemma2_to64();
    lemma_doubles(base, attempt);
    assert(base * pow2(0) == base) by (nonlinear_arith)
        requires
            pow2(0) == 1,
    ;
}

/// Every delay in the upper half of a ceiling can be drawn, and a drawn number
/// that is one higher gives a delay that is one longer, until the ceiling is
/// reached and the half starts over.
pub proof fn law_jitter_reaches_its_whole_half(ceiling: nat, delay: nat)
    requires
        ceiling / 2 <= delay <= ceiling,
        ceiling < u64::MAX,
    ensures
        upper_half(ceiling, (delay - ceiling / 2) as u64) == delay,
        ceiling > 0 ==> upper_half(ceiling, (ceiling - ceiling / 2 + 1) as u64) == ceiling / 2,
{
    let floor = ceiling / 2;
    let span = (ceiling - floor) as nat;
    if span > 0 {
        let drawn = (delay - floor) as nat;
        assert(drawn % (span + 1) == drawn) by (nonlinear_arith)
            requires
                drawn < span + 1,
        ;
        assert((span + 1) % (span + 1) == 0) by (nonlinear_arith);
    }
}

} // verus!
