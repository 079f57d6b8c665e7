//! The identity of one subscription: a venue and a symbol.
//!
//! A stream is the unit that has a connection, a book, a set of counters and a
//! resync signal. Two symbols on one venue are two streams.

use vstd::prelude::*;

use crate::event::{Symbol, VenueId};
use crate::text;

verus! {

/// One venue's feed for one symbol.
#[derive(Debug, PartialOrd, Ord, Hash)]
pub struct StreamId {
    pub venue: VenueId,
    pub symbol: Symbol,
}

impl View for StreamId {
    type V = (VenueId, Seq<char>);

    open spec fn view(&self) -> (VenueId, Seq<char>) {
        (self.venue, self.symbol@)
    }
}

/// Whether stream `a` is listed before stream `b`: by venue, then by symbol.
pub open spec fn stream_before(a: (VenueId, Seq<char>), b: (VenueId, Seq<char>)) -> bool {
    if a.0 == b.0 {
        text::text_before(a.1, b.1)
    } else {
        a.0.rank() < b.0.rank()
    }
}

/// The stream's identifier for logs and filenames.
pub open spec fn stream_key(s: (VenueId, Seq<char>)) -> Seq<char> {
    s.0.name() + seq![':'] + s.1
}

impl StreamId {
    pub fn new(venue: VenueId, symbol: Symbol) -> (s: StreamId)
        ensures
            s@ == (venue, symbol@),
            s.venue == venue,
            s.symbol == symbol,
    {
        StreamId { venue, symbol }
    }

    /// Stable identifier for logs and filenames, e.g. `coinbase:BTC-USD`.
    pub fn key(&self) -> (key: String)
        ensures
            key@ == stream_key(self@),
    {
        let mut out: Vec<char> = Vec::new();
        text::push_text(&mut out, self.venue.as_str());
        out.push(':');
        text::push_text(&mut out, self.symbol.as_str());
        assert(out@ =~= stream_key(self@));
        text::text_of(&out)
    }

    /// Whether the two are one stream.
    pub fn same(&self, other: &StreamId) -> (b: bool)
        ensures
            b == (self@ == other@),
    {
        self.venue == other.venue && self.symbol == other.symbol
    }

    /// Whether this stream is listed before another.
    pub fn before(&self, other: &StreamId) -> (b: bool)
        ensures
            b == stream_before(self@, other@),
    {
        if self.venue == other.venue {
            text::string_before(self.symbol.as_str(), other.symbol.as_str())
        } else {
            self.venue.before(&other.venue)
        }
    }
}

impl Clone for StreamId {
    fn clone(&self) -> (r: StreamId)
        ensures
            r == *self,
    {
        StreamId { venue: self.venue, symbol: self.symbol.clone() }
    }
}

impl PartialEq for StreamId {
    fn eq(&self, other: &StreamId) -> (b: bool) {
        self.same(other)
    }
}

impl vstd::std_specs::cmp::PartialEqSpecImpl for StreamId {
    open spec fn obeys_eq_spec() -> bool {
        true
    }

    open spec fn eq_spec(&self, other: &StreamId) -> bool {
        self@ == other@
    }
}

impl Eq for StreamId {

}

/// Of two different streams exactly one is listed before the other.
pub proof fn law_streams_are_totally_ordered(
    a: (VenueId, Seq<char>),
    b: (VenueId, Seq<char>),
    c: (VenueId, Seq<char>),
)
    ensures
        !stream_before(a, a),
        a != b ==> stream_before(a, b) || stream_before(b, a),
        !(stream_before(a, b) && stream_before(b, a)),
        stream_before(a, b) && stream_before(b, c) ==> stream_before(a, c),
{
    text::lemma_text_before_irreflexive(a.1);
    text::lemma_text_before_total(a.1, b.1);
    if text::text_before(a.1, b.1) && text::text_before(b.1, a.1) {
        text::lemma_text_before_transitive(a.1, b.1, a.1);
    }
    if text::text_before(a.1, b.1) && text::text_before(b.1, c.1) {
        text::lemma_text_before_transitive(a.1, b.1, c.1);
    }
}

/// Whether streams are listed in order, each once.
pub open spec fn ordered(streams: Seq<StreamId>) -> bool {
    forall|i: int, j: int|
        0 <= i < j < streams.len() ==> stream_before(
            (#[trigger] streams[i])@,
            (#[trigger] streams[j])@,
        )
}

/// Whether a stream is listed.
pub open spec fn lists(streams: Seq<StreamId>, s: (VenueId, Seq<char>)) -> bool {
    exists|i: int| 0 <= i < streams.len() && (#[trigger] streams[i])@ == s
}

/// Whether a stream is among some.
pub fn contains_stream(streams: &[StreamId], stream: &StreamId) -> (b: bool)
    ensures
        b == lists(streams@, stream@),
{
    let mut i: usize = 0;
    while i < streams.len()
        invariant
            i <= streams@.len(),
            forall|k: int| 0 <= k < i ==> (#[trigger] streams@[k])@ != stream@,
        decreases streams@.len() - i,
    {
        if streams[i].same(stream) {
            assert(streams@[i as int]@ == stream@);
            return true;
        }
        i += 1;
    }
    false
}

/// Lists a stream in its place, unless it is listed.
pub fn add_stream(streams: &mut Vec<StreamId>, stream: StreamId)
    requires
        ordered(old(streams)@),
    ensures
        ordered(final(streams)@),
        forall|s: (VenueId, Seq<char>)|
            #[trigger] lists(final(streams)@, s) <==> lists(old(streams)@, s) || s == stream@,
{
    let ghost before = streams@;
    let mut i: usize = 0;
    while i < streams.len() && streams[i].before(&stream)
        invariant
            i <= streams@.len(),
            streams@ == before,
            forall|k: int| 0 <= k < i ==> stream_before((#[trigger] streams@[k])@, stream@),
        decreases streams@.len() - i,
    {
        i += 1;
    }
    if i < streams.len() && streams[i].same(&stream) {
        assert(before[i as int]@ == stream@);
    } else {
        let ghost added = stream@;
        streams.insert(i, stream);
        proof {
            let after = streams@;
            assert forall|a: int, b: int| 0 <= a < b < after.len() implies stream_before(
                (#[trigger] after[a])@,
                (#[trigger] after[b])@,
            ) by {
                let pa = if a < i { a } else { a - 1 };
                let pb = if b < i { b } else { b - 1 };
                if a == i {
                    assert(after[b] == before[pb]);
                    law_streams_are_totally_ordered(added, before[i as int]@, before[pb]@);
                    if i < pb {
                        assert(stream_before(before[i as int]@, before[pb]@));
                    }
                } else if b == i {
                    assert(after[a] == before[a]);
                } else {
                    assert(stream_before(before[pa]@, before[pb]@));
                }
            }
            assert forall|s: (VenueId, Seq<char>)| #[trigger] lists(after, s) <==> lists(before, s)
                || s == added by {
                if lists(after, s) {
                    let k = choose|k: int| 0 <= k < after.len() && (#[trigger] after[k])@ == s;
                    if k != i {
                        assert(before[if k < i { k } else { k - 1 }]@ == s);
                    }
                }
                if lists(before, s) {
                    let p = choose|p: int| 0 <= p < before.len() && (#[trigger] before[p])@ == s;
                    assert(after[if p < i { p } else { p + 1 }]@ == s);
                }
                if s == added {
                    assert(after[i as int]@ == added);
                }
            }
        }
    }
}

/// Two orderly lists of the same streams are the same list.
pub proof fn law_ordered_lists_are_sets(a: Seq<StreamId>, b: Seq<StreamId>)
    requires
        ordered(a),
        ordered(b),
        forall|s: (VenueId, Seq<char>)| #[trigger] lists(a, s) <==> lists(b, s),
    ensures
        a.len() == b.len(),
        forall|i: int| 0 <= i < a.len() ==> (#[trigger] a[i])@ == b[i]@,
    decreases a.len(),
{
    if a.len() == 0 {
        if b.len() > 0 {
            assert(lists(b, b[0]@));
            assert(!lists(a, b[0]@));
        }
    } else {
        assert(lists(a, a[a.len() - 1]@));
        let x = a.last()@;
        assert(lists(b, x));
        assert(b.len() > 0);
        assert(lists(b, b[b.len() - 1]@));
        let y = b.last()@;
        assert(lists(a, y));
        let i = choose|i: int| 0 <= i < b.len() && (#[trigger] b[i])@ == x;
        let j = choose|j: int| 0 <= j < a.len() && (#[trigger] a[j])@ == y;
        law_streams_are_totally_ordered(x, y, x);
        assert(x == y) by {
            if x != y {
                assert(i < b.len() - 1);
                assert(stream_before(b[i]@, b[b.len() - 1]@));
                assert(j < a.len() - 1);
                assert(stream_before(a[j]@, a[a.len() - 1]@));
            }
        }
        let a0 = a.drop_last();
        let b0 = b.drop_last();
        assert forall|p: int, q: int| 0 <= p < q < a0.len() implies stream_before(
            (#[trigger] a0[p])@,
            (#[trigger] a0[q])@,
        ) by {
            assert(stream_before(a[p]@, a[q]@));
        }
        assert forall|p: int, q: int| 0 <= p < q < b0.len() implies stream_before(
            (#[trigger] b0[p])@,
            (#[trigger] b0[q])@,
        ) by {
            assert(stream_before(b[p]@, b[q]@));
        }
        assert forall|s: (VenueId, Seq<char>)| #[trigger] lists(a0, s) <==> lists(b0, s) by {
            lemma_all_but_last(a, s);
            lemma_all_but_last(b, s);
            assert(lists(a, s) <==> lists(b, s));
        }
        law_ordered_lists_are_sets(a0, b0);
        assert forall|k: int| 0 <= k < a.len() implies (#[trigger] a[k])@ == b[k]@ by {
            if k < a.len() - 1 {
                assert(a0[k]@ == b0[k]@);
            }
        }
    }
}

/// Dropping the last of an orderly list takes exactly that stream off it.
proof fn lemma_all_but_last(a: Seq<StreamId>, s: (VenueId, Seq<char>))
    requires
        ordered(a),
        a.len() > 0,
    ensures
        lists(a.drop_last(), s) <==> lists(a, s) && s != a.last()@,
{
    let a0 = a.drop_last();
    if lists(a0, s) {
        let k = choose|k: int| 0 <= k < a0.len() && (#[trigger] a0[k])@ == s;
        assert(a[k]@ == s);
        assert(stream_before(a[k]@, a[a.len() - 1]@));
        law_streams_are_totally_ordered(s, s, s);
    }
    if lists(a, s) && s != a.last()@ {
        let k = choose|k: int| 0 <= k < a.len() && (#[trigger] a[k])@ == s;
        assert(a0[k]@ == s);
    }
}

/// Different streams have different identifiers.
pub proof fn law_stream_keys_are_distinct(a: (VenueId, Seq<char>), b: (VenueId, Seq<char>))
    requires
        stream_key(a) == stream_key(b),
    ensures
        a == b,
{
    reveal_strlit("coinbase");
    reveal_strlit("kraken");
    reveal_strlit("bitstamp");
    reveal_strlit("fake");
    let key = stream_key(a);
    let m = a.0.name().len() as int;
    let n = b.0.name().len() as int;
    assert(key[m] == ':');
    assert(key[n] == ':');
    assert forall|i: int| 0 <= i < m implies #[trigger] key[i] != ':' by {
        assert(key[i] == a.0.name()[i]);
    }
    assert forall|i: int| 0 <= i < n implies #[trigger] key[i] != ':' by {
        assert(key[i] == b.0.name()[i]);
    }
    assert(m == n);
    assert(key.take(m) =~= a.0.name());
    assert(key.take(n) =~= b.0.name());
    crate::event::law_venue_names_are_distinct(a.0, b.0);
    assert(key.skip(m + 1) =~= a.1);
    assert(key.skip(n + 1) =~= b.1);
}

} // verus!
