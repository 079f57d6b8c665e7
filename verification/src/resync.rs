//! Asking one stream's connection to start over.
//!
//! Requests are counted rather than queued: whoever listens compares with what
//! they last acted on, so that several requests during one outage mean one
//! reconnect, and none is lost.
use vstd::prelude::*;

use crate::event::VenueId;
use crate::stream;
use crate::stream::StreamId;

verus! {

/// The requesting half, for a fixed set of streams.
#[derive(Debug)]
pub struct ResyncRequests {
    streams: Vec<StreamId>,
    requests: Vec<u64>,
    listeners: Vec<usize>,
}

/// The listening half, for one stream.
#[derive(Debug)]
pub struct ResyncSignal {
    pub stream: StreamId,
    /// How many requests had been made when this half last looked.
    pub seen: u64,
}

/// Whether a stream stands at a place.
pub open spec fn stands_at(streams: Seq<StreamId>, i: int, s: (VenueId, Seq<char>)) -> bool {
    0 <= i < streams.len() && streams[i]@ == s
}

/// The count that stands where a stream does; zero where it stands nowhere.
pub open spec fn tally(
    streams: Seq<StreamId>,
    counts: Seq<u64>,
    s: (VenueId, Seq<char>),
) -> u64 {
    if stream::lists(streams, s) {
        counts[choose|i: int| stands_at(streams, i, s)]
    } else {
        0
    }
}

impl Default for ResyncRequests {
    /// Requests for no stream.
    fn default() -> (r: ResyncRequests)
        ensures
            r.wf(),
            r.registered().len() == 0,
    {
        let r = ResyncRequests::new(&[]);
        assert(r.registered().len() == 0) by {
            if r.registered().len() > 0 {
                assert(stream::lists(r.registered(), r.registered()[0]@));
            }
        }
        r
    }
}

impl ResyncRequests {
    /// The streams, in order.
    pub closed spec fn registered(self) -> Seq<StreamId> {
        self.streams@
    }

    /// How many requests were made, per stream.
    pub closed spec fn counts(self) -> Seq<u64> {
        self.requests@
    }

    /// How many listen, per stream.
    pub closed spec fn audience(self) -> Seq<usize> {
        self.listeners@
    }

    pub open spec fn wf(self) -> bool {
        &&& stream::ordered(self.registered())
        &&& self.counts().len() == self.registered().len()
        &&& self.audience().len() == self.registered().len()
    }

    /// Whether a stream stands at a place.
    pub open spec fn at(self, i: int, s: (VenueId, Seq<char>)) -> bool {
        stands_at(self.registered(), i, s)
    }

    /// How many requests were made for a stream; none where it is not registered.
    pub open spec fn made(self, s: (VenueId, Seq<char>)) -> u64 {
        tally(self.registered(), self.counts(), s)
    }

    /// No requests for any of the streams.
    pub fn new(streams: &[StreamId]) -> (r: ResyncRequests)
        ensures
            r.wf(),
            forall|s: (VenueId, Seq<char>)|
                #[trigger] stream::lists(r.registered(), s) <==> stream::lists(streams@, s),
            forall|s: (VenueId, Seq<char>)| #[trigger] r.made(s) == 0,
            forall|i: int| 0 <= i < r.audience().len() ==> #[trigger] r.audience()[i] == 0,
    {
        let m = crate::metrics::Metrics::new(streams);
        let listed = m.streams();
        let mut copied: Vec<StreamId> = Vec::new();
        let mut requests: Vec<u64> = Vec::new();
        let mut listeners: Vec<usize> = Vec::new();
        let mut i: usize = 0;
        while i < listed.len()
            invariant
                i <= listed@.len(),
                copied@.len() == i,
                requests@.len() == i,
                listeners@.len() == i,
                forall|k: int| 0 <= k < i ==> (#[trigger] copied@[k])@ == listed@[k]@,
                forall|k: int| 0 <= k < i ==> #[trigger] requests@[k] == 0,
                forall|k: int| 0 <= k < i ==> #[trigger] listeners@[k] == 0,
            decreases listed@.len() - i,
        {
            copied.push(listed[i].clone());
            requests.push(0);
            listeners.push(0);
            i += 1;
        }
        let r = ResyncRequests { streams: copied, requests, listeners };
        proof {
            assert(stream::ordered(copied@)) by {
                assert forall|a: int, b: int| 0 <= a < b < copied@.len() implies stream::stream_before(
                    (#[trigger] copied@[a])@,
                    (#[trigger] copied@[b])@,
                ) by {
                    assert(stream::stream_before(listed@[a]@, listed@[b]@));
                }
            }
            assert forall|s: (VenueId, Seq<char>)|
                #[trigger] stream::lists(r.registered(), s) <==> stream::lists(streams@, s) by {
                assert(stream::lists(m.registered(), s) <==> stream::lists(streams@, s));
                if stream::lists(copied@, s) {
                    let k = choose|k: int| 0 <= k < copied@.len() && (#[trigger] copied@[k])@ == s;
                    assert(listed@[k]@ == s);
                }
                if stream::lists(listed@, s) {
                    let k = choose|k: int| 0 <= k < listed@.len() && (#[trigger] listed@[k])@ == s;
                    assert(copied@[k]@ == s);
                }
            }
            assert forall|s: (VenueId, Seq<char>)| #[trigger] r.made(s) == 0 by {
                if stream::lists(r.registered(), s) {
                    let k = choose|k: int|
                        0 <= k < r.registered().len() && (#[trigger] r.registered()[k])@ == s;
                    assert(r.at(k, s));
                }
            }
        }
        r
    }

    /// A stream stands in one place.
    proof fn lemma_one_place(self, i: int, s: (VenueId, Seq<char>))
        requires
            self.wf(),
            self.at(i, s),
        ensures
            stream::lists(self.registered(), s),
            self.made(s) == self.counts()[i],
    {
        let a = self.registered();
        assert(a[i]@ == s);
        let j = choose|j: int| stands_at(a, j, s);
        if i < j {
            assert(stream::stream_before(a[i]@, a[j]@));
            stream::law_streams_are_totally_ordered(s, s, s);
        } else if j < i {
            assert(stream::stream_before(a[j]@, a[i]@));
            stream::law_streams_are_totally_ordered(s, s, s);
        }
    }

    /// Where a stream stands.
    fn place(&self, s: &StreamId) -> (r: Option<usize>)
        requires
            self.wf(),
        ensures
            match r {
                Some(i) => self.at(i as int, s@) && self.made(s@) == self.counts()[i as int],
                None => !stream::lists(self.registered(), s@),
            },
    {
        let mut i: usize = 0;
        while i < self.streams.len()
            invariant
                i <= self.streams@.len(),
                self.wf(),
                forall|k: int| 0 <= k < i ==> (#[trigger] self.streams@[k])@ != s@,
            decreases self.streams@.len() - i,
        {
            if self.streams[i].same(s) {
                proof {
                    self.lemma_one_place(i as int, s@);
                }
                return Some(i);
            }
            i += 1;
        }
        None
    }

    /// Asks one stream's ingest task to start over. Says whether anyone was
    /// listening.
    pub fn request(&mut self, s: &StreamId) -> (heard: bool)
        requires
            old(self).wf(),
        ensures
            final(self).wf(),
            final(self).registered() == old(self).registered(),
            final(self).audience() == old(self).audience(),
            !stream::lists(old(self).registered(), s@) ==> !heard && final(self).counts()
                == old(self).counts(),
            stream::lists(old(self).registered(), s@) ==> exists|i: int|
                {
                    &&& #[trigger] old(self).at(i, s@)
                    &&& heard == (old(self).audience()[i] > 0)
                    &&& final(self).counts() == old(self).counts().update(
                        i,
                        old(self).counts()[i].saturating_add(1),
                    )
                },
            stream::lists(old(self).registered(), s@) ==> final(self).made(s@) == old(self).made(
                s@,
            ).saturating_add(1),
            forall|other: (VenueId, Seq<char>)|
                other != s@ ==> #[trigger] final(self).made(other) == old(self).made(other),
    {
        match self.place(s) {
            Some(i) => {
                assert(self.at(i as int, s@));
                let n: u64 = self.requests[i].saturating_add(1);
                self.requests[i] = n;
                proof {
                    self.lemma_one_place(i as int, s@);
                    let was = *old(self);
                    assert forall|other: (VenueId, Seq<char>)| other != s@ implies self.made(other)
                        == was.made(other) by {
                        if stream::lists(was.registered(), other) {
                            let k = choose|k: int|
                                0 <= k < was.registered().len() && (#[trigger] was.registered()[k])@
                                    == other;
                            assert(was.at(k, other) && self.at(k, other));
                            was.lemma_one_place(k, other);
                            self.lemma_one_place(k, other);
                        }
                    }
                }
                self.listeners[i] > 0
            },
            None => false,
        }
    }

    /// The listening half for one stream: it hears of requests made from now on.
    pub fn subscribe(&mut self, s: &StreamId) -> (r: Option<ResyncSignal>)
        requires
            old(self).wf(),
            forall|i: int|
                0 <= i < old(self).audience().len() ==> #[trigger] old(self).audience()[i]
                    < usize::MAX,
        ensures
            final(self).wf(),
            final(self).registered() == old(self).registered(),
            final(self).counts() == old(self).counts(),
            r is Some <==> stream::lists(old(self).registered(), s@),
            r is None ==> final(self).audience() == old(self).audience(),
            r matches Some(signal) ==> signal.stream@ == s@ && signal.seen == old(self).made(s@)
                && exists|i: int|
                #[trigger] old(self).at(i, s@) && final(self).audience() == old(
                    self,
                ).audience().update(i, (old(self).audience()[i] + 1) as usize),
    {
        match self.place(s) {
            Some(i) => {
                assert(self.at(i as int, s@));
                proof {
                    self.lemma_one_place(i as int, s@);
                }
                assert(self.audience()[i as int] < usize::MAX);
                let n: usize = self.listeners[i] + 1;
                self.listeners[i] = n;
                Some(ResyncSignal { stream: s.clone(), seen: self.requests[i] })
            },
            None => None,
        }
    }

    /// A listening half goes away.
    pub fn leave(&mut self, signal: ResyncSignal)
        requires
            old(self).wf(),
        ensures
            final(self).wf(),
            final(self).registered() == old(self).registered(),
            final(self).counts() == old(self).counts(),
            !stream::lists(old(self).registered(), signal.stream@) ==> final(self).audience()
                == old(self).audience(),
            stream::lists(old(self).registered(), signal.stream@) ==> exists|i: int|
                {
                    &&& #[trigger] old(self).at(i, signal.stream@)
                    &&& final(self).audience() == old(self).audience().update(
                        i,
                        old(self).audience()[i].saturating_sub(1),
                    )
                },
    {
        match self.place(&signal.stream) {
            Some(i) => {
                assert(self.at(i as int, signal.stream@));
                let n: usize = self.listeners[i].saturating_sub(1);
                self.listeners[i] = n;
            },
            None => {},
        }
    }

    /// How many requests were made for a stream.
    pub fn requested(&self, s: &StreamId) -> (n: u64)
        requires
            self.wf(),
        ensures
            n == self.made(s@),
    {
        match self.place(s) {
            Some(i) => self.requests[i],
            None => 0,
        }
    }
}

/// Whether a request was made since the listening half last looked.
pub open spec fn is_due(seen: u64, made: u64) -> bool {
    made > seen
}

/// What the listening half has seen once it looked.
pub open spec fn settled(seen: u64, made: u64) -> u64 {
    if is_due(seen, made) {
        made
    } else {
        seen
    }
}

impl ResyncSignal {
    /// Whether a request was made since this half last looked. Looking settles
    /// it: the request that caused a reconnect does not cause the next.
    pub fn take(&mut self, requests: &ResyncRequests) -> (due: bool)
        requires
            requests.wf(),
        ensures
            due == is_due(old(self).seen, requests.made(old(self).stream@)),
            final(self).stream == old(self).stream,
            final(self).seen == settled(old(self).seen, requests.made(old(self).stream@)),
    {
        let made: u64 = requests.requested(&self.stream);
        if made > self.seen {
            self.seen = made;
            true
        } else {
            false
        }
    }
}

/// However many requests are made, one look settles them all, and none is lost:
/// the next look finds something exactly where another was made since.
pub proof fn law_requests_coalesce(seen: u64, made: u64, later: u64)
    requires
        seen <= made <= later,
    ensures
        is_due(settled(seen, made), later) <==> later > made,
{
}

} // verus!
