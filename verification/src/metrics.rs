//! Counters, per stream. They only ever rise, and wrap around.
use vstd::prelude::*;

use crate::event::VenueId;
use crate::stream;
use crate::stream::StreamId;
use crate::time::minus_nat;

verus! {

/// Live counters for one stream.
#[derive(Clone, Copy, Debug, PartialEq, Eq, Structural)]
pub struct VenueCounters {
    /// Frames received.
    pub frames: u64,
    /// Bytes received.
    pub bytes: u64,
    /// Connections opened.
    pub connects: u64,
    /// Connections that ended.
    pub disconnects: u64,
    /// Attempts that never opened a socket.
    pub connect_failures: u64,
    /// Sessions ended by the idle watchdog.
    pub idle_timeouts: u64,
    /// Messages that the bounded channel evicted before they were read.
    pub dropped: u64,
    /// Depth snapshots asked for.
    pub rest_fetches: u64,
    /// Depth snapshots that did not come.
    pub rest_failures: u64,
    /// Frames that the venue's parser rejected.
    pub parse_errors: u64,
    /// Heartbeats seen.
    pub heartbeats: u64,
    /// Times the book went from trusted to untrusted.
    pub desyncs: u64,
    /// Messages that were processed, as opposed to received.
    pub applied: u64,
}

impl Default for VenueCounters {
    fn default() -> (c: VenueCounters)
        ensures
            c == zero_counters(),
    {
        VenueCounters {
            frames: 0,
            bytes: 0,
            connects: 0,
            disconnects: 0,
            connect_failures: 0,
            idle_timeouts: 0,
            dropped: 0,
            rest_fetches: 0,
            rest_failures: 0,
            parse_errors: 0,
            heartbeats: 0,
            desyncs: 0,
            applied: 0,
        }
    }
}

/// Counters that have counted nothing.
pub open spec fn zero_counters() -> VenueCounters {
    VenueCounters {
        frames: 0,
        bytes: 0,
        connects: 0,
        disconnects: 0,
        connect_failures: 0,
        idle_timeouts: 0,
        dropped: 0,
        rest_fetches: 0,
        rest_failures: 0,
        parse_errors: 0,
        heartbeats: 0,
        desyncs: 0,
        applied: 0,
    }
}

impl VenueCounters {
    pub fn record_connect(&mut self)
        ensures
            *final(self) == (VenueCounters {
                connects: old(self).connects.wrapping_add(1),
                ..*old(self)
            }),
    {
        self.connects = self.connects.wrapping_add(1);
    }

    pub fn record_disconnect(&mut self)
        ensures
            *final(self) == (VenueCounters {
                disconnects: old(self).disconnects.wrapping_add(1),
                ..*old(self)
            }),
    {
        self.disconnects = self.disconnects.wrapping_add(1);
    }

    pub fn record_connect_failure(&mut self)
        ensures
            *final(self) == (VenueCounters {
                connect_failures: old(self).connect_failures.wrapping_add(1),
                ..*old(self)
            }),
    {
        self.connect_failures = self.connect_failures.wrapping_add(1);
    }

    pub fn record_idle_timeout(&mut self)
        ensures
            *final(self) == (VenueCounters {
                idle_timeouts: old(self).idle_timeouts.wrapping_add(1),
                ..*old(self)
            }),
    {
        self.idle_timeouts = self.idle_timeouts.wrapping_add(1);
    }

    pub fn record_drop(&mut self)
        ensures
            *final(self) == (VenueCounters {
                dropped: old(self).dropped.wrapping_add(1),
                ..*old(self)
            }),
    {
        self.dropped = self.dropped.wrapping_add(1);
    }

    pub fn record_rest_fetch(&mut self)
        ensures
            *final(self) == (VenueCounters {
                rest_fetches: old(self).rest_fetches.wrapping_add(1),
                ..*old(self)
            }),
    {
        self.rest_fetches = self.rest_fetches.wrapping_add(1);
    }

    pub fn record_rest_failure(&mut self)
        ensures
            *final(self) == (VenueCounters {
                rest_failures: old(self).rest_failures.wrapping_add(1),
                ..*old(self)
            }),
    {
        self.rest_failures = self.rest_failures.wrapping_add(1);
    }

    pub fn record_parse_error(&mut self)
        ensures
            *final(self) == (VenueCounters {
                parse_errors: old(self).parse_errors.wrapping_add(1),
                ..*old(self)
            }),
    {
        self.parse_errors = self.parse_errors.wrapping_add(1);
    }

    pub fn record_heartbeat(&mut self)
        ensures
            *final(self) == (VenueCounters {
                heartbeats: old(self).heartbeats.wrapping_add(1),
                ..*old(self)
            }),
    {
        self.heartbeats = self.heartbeats.wrapping_add(1);
    }

    pub fn record_desync(&mut self)
        ensures
            *final(self) == (VenueCounters {
                desyncs: old(self).desyncs.wrapping_add(1),
                ..*old(self)
            }),
    {
        self.desyncs = self.desyncs.wrapping_add(1);
    }

    pub fn record_applied(&mut self)
        ensures
            *final(self) == (VenueCounters {
                applied: old(self).applied.wrapping_add(1),
                ..*old(self)
            }),
    {
        self.applied = self.applied.wrapping_add(1);
    }

    /// One frame arrived, of so many bytes.
    pub fn record_frame(&mut self, bytes: usize)
        ensures
            *final(self) == (VenueCounters {
                frames: old(self).frames.wrapping_add(1),
                bytes: old(self).bytes.wrapping_add(bytes as u64),
                ..*old(self)
            }),
    {
        self.frames = self.frames.wrapping_add(1);
        self.bytes = self.bytes.wrapping_add(bytes as u64);
    }

    /// What the counters show now.
    pub fn snapshot(&self) -> (s: VenueCountersSnapshot)
        ensures
            s == shown(*self),
    {
        VenueCountersSnapshot {
            frames: self.frames,
            bytes: self.bytes,
            connects: self.connects,
            disconnects: self.disconnects,
            connect_failures: self.connect_failures,
            idle_timeouts: self.idle_timeouts,
            dropped: self.dropped,
            rest_fetches: self.rest_fetches,
            rest_failures: self.rest_failures,
            parse_errors: self.parse_errors,
            heartbeats: self.heartbeats,
            desyncs: self.desyncs,
            applied: self.applied,
        }
    }
}

/// What counters show.
pub open spec fn shown(c: VenueCounters) -> VenueCountersSnapshot {
    VenueCountersSnapshot {
        frames: c.frames,
        bytes: c.bytes,
        connects: c.connects,
        disconnects: c.disconnects,
        connect_failures: c.connect_failures,
        idle_timeouts: c.idle_timeouts,
        dropped: c.dropped,
        rest_fetches: c.rest_fetches,
        rest_failures: c.rest_failures,
        parse_errors: c.parse_errors,
        heartbeats: c.heartbeats,
        desyncs: c.desyncs,
        applied: c.applied,
    }
}

/// A reading of [`VenueCounters`] at one instant.
#[derive(Clone, Copy, Debug, PartialEq, Eq, Structural)]
pub struct VenueCountersSnapshot {
    pub frames: u64,
    pub bytes: u64,
    pub connects: u64,
    pub disconnects: u64,
    pub connect_failures: u64,
    pub idle_timeouts: u64,
    pub dropped: u64,
    pub rest_fetches: u64,
    pub rest_failures: u64,
    pub parse_errors: u64,
    pub heartbeats: u64,
    pub desyncs: u64,
    pub applied: u64,
}

impl Default for VenueCountersSnapshot {
    fn default() -> (s: VenueCountersSnapshot)
        ensures
            s == shown(zero_counters()),
    {
        VenueCountersSnapshot {
            frames: 0,
            bytes: 0,
            connects: 0,
            disconnects: 0,
            connect_failures: 0,
            idle_timeouts: 0,
            dropped: 0,
            rest_fetches: 0,
            rest_failures: 0,
            parse_errors: 0,
            heartbeats: 0,
            desyncs: 0,
            applied: 0,
        }
    }
}

impl VenueCountersSnapshot {
    /// Connections after the first.
    pub fn reconnects(&self) -> (n: u64)
        ensures
            n == (if self.connects == 0 {
                0
            } else {
                self.connects - 1
            }),
    {
        self.connects.saturating_sub(1)
    }
}

/// What came in between two readings.
#[derive(Clone, Copy, Debug, PartialEq, Eq, Structural)]
pub struct CounterDeltas {
    pub frames: u64,
    pub bytes: u64,
    pub dropped: u64,
}

/// What came in between two readings. A counter that went backwards, as after a
/// restart, counts as none rather than as less than none.
pub fn deltas(earlier: VenueCountersSnapshot, later: VenueCountersSnapshot) -> (d: CounterDeltas)
    ensures
        d.frames == minus_nat(later.frames as nat, earlier.frames as nat),
        d.bytes == minus_nat(later.bytes as nat, earlier.bytes as nat),
        d.dropped == minus_nat(later.dropped as nat, earlier.dropped as nat),
{
    CounterDeltas {
        frames: later.frames.saturating_sub(earlier.frames),
        bytes: later.bytes.saturating_sub(earlier.bytes),
        dropped: later.dropped.saturating_sub(earlier.dropped),
    }
}

/// Every stream's counters. The streams are fixed at startup.
#[derive(Debug)]
pub struct Metrics {
    streams: Vec<StreamId>,
    counters: Vec<VenueCounters>,
}

impl Default for Metrics {
    /// Counters for no stream.
    fn default() -> (m: Metrics)
        ensures
            m.wf(),
            m.registered().len() == 0,
    {
        let m = Metrics::new(&[]);
        assert(m.registered().len() == 0) by {
            if m.registered().len() > 0 {
                assert(stream::lists(m.registered(), m.registered()[0]@));
            }
        }
        m
    }
}

impl Metrics {
    /// The streams, in order.
    pub closed spec fn registered(self) -> Seq<StreamId> {
        self.streams@
    }

    /// The counters of the streams, in their order.
    pub closed spec fn counts(self) -> Seq<VenueCounters> {
        self.counters@
    }

    /// Every stream has counters, and none is listed twice.
    pub open spec fn wf(self) -> bool {
        &&& stream::ordered(self.registered())
        &&& self.registered().len() == self.counts().len()
    }

    /// Whether a stream's counters stand at a place.
    pub open spec fn at(self, i: int, s: (VenueId, Seq<char>)) -> bool {
        0 <= i < self.registered().len() && self.registered()[i]@ == s
    }

    /// Counters at zero for each of the streams.
    pub fn new(streams: &[StreamId]) -> (m: Metrics)
        ensures
            m.wf(),
            forall|s: (VenueId, Seq<char>)|
                #[trigger] stream::lists(m.registered(), s) <==> stream::lists(streams@, s),
            forall|i: int| 0 <= i < m.counts().len() ==> #[trigger] m.counts()[i] == zero_counters(),
    {
        let mut listed: Vec<StreamId> = Vec::new();
        let mut i: usize = 0;
        assert forall|s: (VenueId, Seq<char>)|
            !#[trigger] stream::lists(listed@, s) by {}
        assert forall|s: (VenueId, Seq<char>)|
            !#[trigger] stream::lists(streams@.take(0), s) by {}
        while i < streams.len()
            invariant
                i <= streams@.len(),
                stream::ordered(listed@),
                forall|s: (VenueId, Seq<char>)|
                    #[trigger] stream::lists(listed@, s) <==> stream::lists(
                        streams@.take(i as int),
                        s,
                    ),
            decreases streams@.len() - i,
        {
            let ghost before = listed@;
            stream::add_stream(&mut listed, streams[i].clone());
            proof {
                let was = streams@.take(i as int);
                let now = streams@.take(i + 1);
                let added = streams@[i as int]@;
                assert forall|s: (VenueId, Seq<char>)|
                    #[trigger] stream::lists(listed@, s) <==> stream::lists(now, s) by {
                    assert(stream::lists(before, s) <==> stream::lists(was, s));
                    if stream::lists(was, s) {
                        let k = choose|k: int| 0 <= k < was.len() && (#[trigger] was[k])@ == s;
                        assert(now[k]@ == s);
                    }
                    if stream::lists(now, s) {
                        let k = choose|k: int| 0 <= k < now.len() && (#[trigger] now[k])@ == s;
                        if k < i {
                            assert(was[k]@ == s);
                        }
                    }
                    if s == added {
                        assert(now[i as int]@ == s);
                    }
                }
            }
            i += 1;
        }
        assert(streams@.take(streams@.len() as int) =~= streams@);
        let mut counters: Vec<VenueCounters> = Vec::new();
        while counters.len() < listed.len()
            invariant
                counters@.len() <= listed@.len(),
                forall|k: int|
                    0 <= k < counters@.len() ==> #[trigger] counters@[k] == zero_counters(),
            decreases listed@.len() - counters@.len(),
        {
            counters.push(VenueCounters::default());
        }
        Metrics { streams: listed, counters }
    }

    /// Where a stream's counters stand.
    fn place(&self, s: &StreamId) -> (r: Option<usize>)
        requires
            self.wf(),
        ensures
            match r {
                Some(i) => self.at(i as int, s@),
                None => !stream::lists(self.registered(), s@),
            },
    {
        let mut i: usize = 0;
        while i < self.streams.len()
            invariant
                i <= self.streams@.len(),
                forall|k: int| 0 <= k < i ==> (#[trigger] self.streams@[k])@ != s@,
            decreases self.streams@.len() - i,
        {
            if self.streams[i].same(s) {
                return Some(i);
            }
            i += 1;
        }
        None
    }

    /// Counters for a stream, or nothing if it was not registered.
    pub fn stream(&self, s: &StreamId) -> (r: Option<&VenueCounters>)
        requires
            self.wf(),
        ensures
            match r {
                Some(c) => exists|i: int| self.at(i, s@) && *c == #[trigger] self.counts()[i],
                None => !stream::lists(self.registered(), s@),
            },
    {
        match self.place(s) {
            Some(i) => {
                assert(self.at(i as int, s@) && self.counters@[i as int] == self.counts()[i as int]);
                Some(&self.counters[i])
            },
            None => None,
        }
    }

    /// A stream's counters; its owner's own ones where it was not registered.
    pub open spec fn counted(self, s: (VenueId, Seq<char>), own: VenueCounters) -> VenueCounters {
        if stream::lists(self.registered(), s) {
            self.counts()[choose|i: int| self.at(i, s)]
        } else {
            own
        }
    }

    /// A stream stands in one place.
    pub proof fn lemma_one_place(self, i: int, j: int, s: (VenueId, Seq<char>))
        requires
            self.wf(),
            self.at(i, s),
            self.at(j, s),
        ensures
            i == j,
    {
        let a = self.registered();
        if i < j {
            assert(stream::stream_before(a[i]@, a[j]@));
            stream::law_streams_are_totally_ordered(s, s, s);
        } else if j < i {
            assert(stream::stream_before(a[j]@, a[i]@));
            stream::law_streams_are_totally_ordered(s, s, s);
        }
    }

    /// What a stream's counters show; what its owner's own ones show where it was
    /// not registered.
    pub fn reading(&self, s: &StreamId, own: &VenueCounters) -> (r: VenueCountersSnapshot)
        requires
            self.wf(),
        ensures
            r == shown(self.counted(s@, *own)),
    {
        match self.place(s) {
            Some(i) => {
                proof {
                    assert(self.registered()[i as int]@ == s@);
                    let j = choose|j: int| self.at(j, s@);
                    self.lemma_one_place(i as int, j, s@);
                }
                self.counters[i].snapshot()
            },
            None => own.snapshot(),
        }
    }

    /// Counters for a stream, to count with. They are the ones that a snapshot
    /// shows: there is no second set.
    pub fn stream_mut(&mut self, s: &StreamId) -> (r: Option<&mut VenueCounters>)
        requires
            old(self).wf(),
        ensures
            final(self).registered() == old(self).registered(),
            final(self).wf(),
            match r {
                Some(c) => exists|i: int|
                    old(self).at(i, s@) && *c == #[trigger] old(self).counts()[i] && final(self).counts() == old(self).counts().update(i, *final(c)),
                None => !stream::lists(old(self).registered(), s@) && final(self).counts() == old(self).counts(),
            },
    {
        match self.place(s) {
            Some(i) => {
                assert(self.at(i as int, s@) && self.counters@[i as int] == self.counts()[i as int]);
                Some(&mut self.counters[i])
            },
            None => None,
        }
    }

    /// What every stream's counters show, in the order of the streams.
    pub fn snapshot(&self) -> (v: Vec<(StreamId, VenueCountersSnapshot)>)
        requires
            self.wf(),
        ensures
            v@.len() == self.registered().len(),
            forall|i: int|
                0 <= i < v@.len() ==> (#[trigger] v@[i]).0@ == self.registered()[i]@ && v@[i].1
                    == shown(self.counts()[i]),
    {
        let mut out: Vec<(StreamId, VenueCountersSnapshot)> = Vec::new();
        let mut i: usize = 0;
        while i < self.streams.len()
            invariant
                i <= self.streams@.len(),
                self.wf(),
                out@.len() == i,
                forall|k: int|
                    0 <= k < i ==> (#[trigger] out@[k]).0@ == self.registered()[k]@ && out@[k].1
                        == shown(self.counts()[k]),
            decreases self.streams@.len() - i,
        {
            out.push((self.streams[i].clone(), self.counters[i].snapshot()));
            i += 1;
        }
        out
    }

    /// Every registered stream, in order.
    pub fn streams(&self) -> (s: &[StreamId])
        ensures
            s@ == self.registered(),
    {
        self.streams.as_slice()
    }
}

/// A reading shows every counter as it stands.
pub proof fn law_a_reading_shows_every_counter(c: VenueCounters)
    ensures
        shown(c).frames == c.frames,
        shown(c).bytes == c.bytes,
        shown(c).connects == c.connects,
        shown(c).disconnects == c.disconnects,
        shown(c).connect_failures == c.connect_failures,
        shown(c).idle_timeouts == c.idle_timeouts,
        shown(c).dropped == c.dropped,
        shown(c).rest_fetches == c.rest_fetches,
        shown(c).rest_failures == c.rest_failures,
        shown(c).parse_errors == c.parse_errors,
        shown(c).heartbeats == c.heartbeats,
        shown(c).desyncs == c.desyncs,
        shown(c).applied == c.applied,
{
}

/// A stream's counters are those that stand where the stream does, and a stream
/// that was not registered counts with its owner's.
pub proof fn law_a_stream_counts_with_its_own(
    m: Metrics,
    s: (VenueId, Seq<char>),
    own: VenueCounters,
    i: int,
)
    requires
        m.wf(),
    ensures
        m.at(i, s) ==> m.counted(s, own) == m.counts()[i],
        !stream::lists(m.registered(), s) ==> m.counted(s, own) == own,
{
    if m.at(i, s) {
        assert(stream::lists(m.registered(), s));
        let j = choose|j: int| m.at(j, s);
        m.lemma_one_place(i, j, s);
    }
}

} // verus!
