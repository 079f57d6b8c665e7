//! Which node owns which stream.
//!
//! Given the same set of live nodes, every node computes the same answer
//! without talking to any of the others: each stream scores every node and
//! picks the highest. Removing a node then moves exactly that node's streams,
//! and adding one moves streams only to it.

use vstd::prelude::*;
use vstd::string::*;
use vstd::utf8::encode_utf8;

use crate::event::VenueId;
use crate::stream;
use crate::stream::StreamId;
use crate::text;

verus! {

/// The name of one process in the cluster: stable across its restarts, unique
/// within the cluster.
#[derive(Debug, PartialOrd, Ord, Hash)]
pub struct NodeId {
    name: String,
}

impl View for NodeId {
    type V = Seq<char>;

    closed spec fn view(&self) -> Seq<char> {
        self.name@
    }
}

impl NodeId {
    pub fn new(s: &str) -> (n: NodeId)
        ensures
            n@ == s@,
    {
        NodeId { name: s.to_owned() }
    }

    pub fn as_str(&self) -> (s: &str)
        ensures
            s@ == self@,
    {
        self.name.as_str()
    }

    /// Whether the two name one node.
    pub fn same(&self, other: &NodeId) -> (b: bool)
        ensures
            b == (self@ == other@),
    {
        self.name == other.name
    }

    /// Whether this name comes first in dictionary order.
    pub fn before(&self, other: &NodeId) -> (b: bool)
        ensures
            b == text::text_before(self@, other@),
    {
        text::string_before(self.as_str(), other.as_str())
    }
}

impl Clone for NodeId {
    fn clone(&self) -> (n: NodeId)
        ensures
            n == *self,
    {
        NodeId { name: self.name.clone() }
    }
}

impl PartialEq for NodeId {
    fn eq(&self, other: &NodeId) -> (b: bool) {
        self.same(other)
    }
}

impl vstd::std_specs::cmp::PartialEqSpecImpl for NodeId {
    open spec fn obeys_eq_spec() -> bool {
        true
    }

    open spec fn eq_spec(&self, other: &NodeId) -> bool {
        self@ == other@
    }
}

impl Eq for NodeId {

}

/// Where the byte hash starts.
pub const FNV_OFFSET: u64 = 0xcbf2_9ce4_8422_2325;

/// What the byte hash multiplies by.
pub const FNV_PRIME: u64 = 0x0000_0100_0000_01b3;

/// A hash state with some bytes mixed in, in order.
pub open spec fn hashed(h: u64, bytes: Seq<u8>) -> u64
    decreases bytes.len(),
{
    if bytes.len() == 0 {
        h
    } else {
        (hashed(h, bytes.drop_last()) ^ (bytes.last() as u64)).wrapping_mul(FNV_PRIME)
    }
}

/// A hash state with its bits spread over the whole word.
pub open spec fn spread(z: u64) -> u64 {
    let a = (z ^ (z >> 30)).wrapping_mul(0xbf58_476d_1ce4_e5b9);
    let b = (a ^ (a >> 27)).wrapping_mul(0x94d0_49bb_1331_11eb);
    b ^ (b >> 31)
}

/// What is hashed for a node and a stream: node, venue and symbol, a zero byte
/// between them.
pub open spec fn weighed_bytes(s: (VenueId, Seq<char>), node: Seq<char>) -> Seq<u8> {
    encode_utf8(node) + seq![0u8] + encode_utf8(s.0.name()) + seq![0u8] + encode_utf8(s.1)
}

/// The score a node gives a stream. Highest wins.
#[verifier::opaque]
pub open spec fn score(s: (VenueId, Seq<char>), node: Seq<char>) -> u64 {
    spread(hashed(FNV_OFFSET, weighed_bytes(s, node)))
}

/// Whether node `a` is to have the stream rather than node `b`: the higher score
/// wins, and of equal scores the name that comes first.
pub open spec fn beats(s: (VenueId, Seq<char>), a: Seq<char>, b: Seq<char>) -> bool {
    score(s, a) > score(s, b) || (score(s, a) == score(s, b) && text::text_before(a, b))
}

/// The names of some nodes.
pub open spec fn names(nodes: Seq<NodeId>) -> Seq<Seq<char>> {
    Seq::new(nodes.len(), |i: int| nodes[i]@)
}

/// The node that is to have the stream.
pub open spec fn owner_of(s: (VenueId, Seq<char>), nodes: Seq<Seq<char>>) -> Option<Seq<char>>
    decreases nodes.len(),
{
    if nodes.len() == 0 {
        None
    } else {
        match owner_of(s, nodes.drop_last()) {
            Some(best) => if beats(s, best, nodes.last()) {
                Some(best)
            } else {
                Some(nodes.last())
            },
            None => Some(nodes.last()),
        }
    }
}

/// Mixes bytes into a hash state.
fn fnv(h: u64, bytes: &[u8]) -> (r: u64)
    ensures
        r == hashed(h, bytes@),
{
    let mut state: u64 = h;
    let mut i: usize = 0;
    while i < bytes.len()
        invariant
            i <= bytes@.len(),
            state == hashed(h, bytes@.take(i as int)),
        decreases bytes@.len() - i,
    {
        state = (state ^ bytes[i] as u64).wrapping_mul(FNV_PRIME);
        i += 1;
        assert(bytes@.take(i as int).drop_last() =~= bytes@.take(i - 1));
    }
    assert(bytes@.take(bytes@.len() as int) =~= bytes@);
    state
}

/// Mixing in one run of bytes after another is mixing in both.
proof fn lemma_hashed_concat(h: u64, a: Seq<u8>, b: Seq<u8>)
    ensures
        hashed(hashed(h, a), b) == hashed(h, a + b),
    decreases b.len(),
{
    if b.len() == 0 {
        assert(a + b =~= a);
    } else {
        lemma_hashed_concat(h, a, b.drop_last());
        assert((a + b).drop_last() =~= a + b.drop_last());
    }
}

fn splitmix64_finalise(z: u64) -> (r: u64)
    ensures
        r == spread(z),
{
    let a: u64 = (z ^ (z >> 30)).wrapping_mul(0xbf58_476d_1ce4_e5b9);
    let b: u64 = (a ^ (a >> 27)).wrapping_mul(0x94d0_49bb_1331_11eb);
    b ^ (b >> 31)
}

/// The score a node gives a stream. Highest wins.
pub fn weight(stream: &StreamId, node: &NodeId) -> (w: u64)
    ensures
        w == score(stream@, node@),
{
    let separator: [u8; 1] = [0u8];
    let mut h: u64 = FNV_OFFSET;
    h = fnv(h, node.as_str().as_bytes());
    h = fnv(h, &separator);
    h = fnv(h, stream.venue.as_str().as_bytes());
    h = fnv(h, &separator);
    h = fnv(h, stream.symbol.as_str().as_bytes());
    proof {
        reveal(score);
        let n = encode_utf8(node@);
        let v = encode_utf8(stream.venue.name());
        let y = encode_utf8(stream.symbol@);
        assert(separator@ =~= seq![0u8]);
        lemma_hashed_concat(FNV_OFFSET, n, seq![0u8]);
        lemma_hashed_concat(FNV_OFFSET, n + seq![0u8], v);
        lemma_hashed_concat(FNV_OFFSET, n + seq![0u8] + v, seq![0u8]);
        lemma_hashed_concat(FNV_OFFSET, n + seq![0u8] + v + seq![0u8], y);
    }
    splitmix64_finalise(h)
}

/// The node that should own `stream`, given the live membership; `None` only
/// when there is none.
pub fn owner<'a>(stream: &StreamId, nodes: &'a [NodeId]) -> (n: Option<&'a NodeId>)
    ensures
        n is Some <==> owner_of(stream@, names(nodes@)) is Some,
        n matches Some(n) ==> Some(n@) == owner_of(stream@, names(nodes@)),
{
    if nodes.len() == 0 {
        return None;
    }
    let mut best: usize = 0;
    let mut best_weight: u64 = weight(stream, &nodes[0]);
    let mut i: usize = 1;
    proof {
        let one = names(nodes@).take(1);
        assert(one.drop_last() =~= Seq::empty());
        assert(owner_of(stream@, one.drop_last()) is None);
        assert(one.last() == nodes@[0]@);
    }
    while i < nodes.len()
        invariant
            1 <= i <= nodes@.len(),
            best < i,
            best_weight == score(stream@, nodes@[best as int]@),
            owner_of(stream@, names(nodes@).take(i as int)) == Some(nodes@[best as int]@),
        decreases nodes@.len() - i,
    {
        let w: u64 = weight(stream, &nodes[i]);
        let kept = best_weight > w || (best_weight == w && nodes[best].before(&nodes[i]));
        assert(names(nodes@).take(i + 1).drop_last() =~= names(nodes@).take(i as int));
        if !kept {
            best = i;
            best_weight = w;
        }
        i += 1;
    }
    assert(names(nodes@).take(nodes@.len() as int) =~= names(nodes@));
    Some(&nodes[best])
}

/// Whether a node is to have a stream that the cluster runs.
pub open spec fn assigned(
    node: Seq<char>,
    streams: Seq<StreamId>,
    nodes: Seq<Seq<char>>,
    s: (VenueId, Seq<char>),
) -> bool {
    stream::lists(streams, s) && owner_of(s, nodes) == Some(node)
}

/// Every stream `node` should own, in order.
pub fn assigned_to(node: &NodeId, streams: &[StreamId], nodes: &[NodeId]) -> (r: Vec<StreamId>)
    ensures
        stream::ordered(r@),
        forall|s: (VenueId, Seq<char>)|
            #[trigger] stream::lists(r@, s) <==> assigned(node@, streams@, names(nodes@), s),
{
    let mut out: Vec<StreamId> = Vec::new();
    let mut i: usize = 0;
    while i < streams.len()
        invariant
            i <= streams@.len(),
            stream::ordered(out@),
            forall|s: (VenueId, Seq<char>)|
                #[trigger] stream::lists(out@, s) <==> assigned(
                    node@,
                    streams@.take(i as int),
                    names(nodes@),
                    s,
                ),
        decreases streams@.len() - i,
    {
        let ghost before = out@;
        let mine = match owner(&streams[i], nodes) {
            Some(n) => n.same(node),
            None => false,
        };
        if mine {
            add_clone(&mut out, &streams[i]);
        }
        proof {
            let now = streams@.take(i + 1);
            let then = streams@.take(i as int);
            assert forall|s: (VenueId, Seq<char>)| #[trigger] stream::lists(out@, s) <==> assigned(
                node@,
                now,
                names(nodes@),
                s,
            ) by {
                assert(stream::lists(now, s) <==> stream::lists(then, s) || s == streams@[i as int]@)
                    by {
                    if stream::lists(now, s) {
                        let k = choose|k: int| 0 <= k < now.len() && (#[trigger] now[k])@ == s;
                        if k < i {
                            assert(then[k]@ == s);
                        }
                    }
                    if stream::lists(then, s) {
                        let k = choose|k: int| 0 <= k < then.len() && (#[trigger] then[k])@ == s;
                        assert(now[k]@ == s);
                    }
                    assert(now[i as int]@ == streams@[i as int]@);
                }
                assert(stream::lists(before, s) <==> assigned(node@, then, names(nodes@), s));
            }
        }
        i += 1;
    }
    assert(streams@.take(streams@.len() as int) =~= streams@);
    out
}

/// Lists a copy of a stream.
fn add_clone(streams: &mut Vec<StreamId>, s: &StreamId)
    requires
        stream::ordered(old(streams)@),
    ensures
        stream::ordered(final(streams)@),
        forall|t: (VenueId, Seq<char>)|
            #[trigger] stream::lists(final(streams)@, t) <==> stream::lists(old(streams)@, t) || t
                == s@,
{
    stream::add_stream(streams, s.clone());
}

/// Of two different nodes exactly one beats the other, and beating is
/// transitive.
pub proof fn lemma_beats_is_total(
    s: (VenueId, Seq<char>),
    a: Seq<char>,
    b: Seq<char>,
    c: Seq<char>,
)
    ensures
        !beats(s, a, a),
        a != b ==> beats(s, a, b) || beats(s, b, a),
        !(beats(s, a, b) && beats(s, b, a)),
        beats(s, a, b) && beats(s, b, c) ==> beats(s, a, c),
{
    text::lemma_text_before_irreflexive(a);
    text::lemma_text_before_total(a, b);
    if text::text_before(a, b) && text::text_before(b, a) {
        text::lemma_text_before_transitive(a, b, a);
    }
    if text::text_before(a, b) && text::text_before(b, c) {
        text::lemma_text_before_transitive(a, b, c);
    }
}

/// The owner is a member that beats every other member; whoever does so is the
/// owner.
pub proof fn law_owner_beats_everyone(s: (VenueId, Seq<char>), nodes: Seq<Seq<char>>)
    ensures
        owner_of(s, nodes) is None <==> nodes.len() == 0,
        owner_of(s, nodes) matches Some(o) ==> nodes.contains(o) && forall|m: Seq<char>|
            #[trigger] nodes.contains(m) ==> m == o || beats(s, o, m),
    decreases nodes.len(),
{
    if nodes.len() > 0 {
        let rest = nodes.drop_last();
        let last = nodes.last();
        law_owner_beats_everyone(s, rest);
        assert(nodes[nodes.len() - 1] == last);
        let o = owner_of(s, nodes)->0;
        match owner_of(s, rest) {
            Some(best) => {
                let k = choose|k: int| 0 <= k < rest.len() && rest[k] == best;
                assert(nodes[k] == best);
                lemma_beats_is_total(s, last, best, best);
                assert forall|m: Seq<char>| #[trigger] nodes.contains(m) implies m == o || beats(
                    s,
                    o,
                    m,
                ) by {
                    let j = choose|j: int| 0 <= j < nodes.len() && nodes[j] == m;
                    if j < rest.len() {
                        assert(rest[j] == m);
                        assert(rest.contains(m));
                        lemma_beats_is_total(s, last, best, m);
                    }
                }
            },
            None => {
                assert forall|m: Seq<char>| #[trigger] nodes.contains(m) implies m == o by {
                    let j = choose|j: int| 0 <= j < nodes.len() && nodes[j] == m;
                }
            },
        }
    }
}

/// The assignment does not depend on the order in which members were read, nor
/// on a member being read twice.
pub proof fn law_owner_ignores_order(
    s: (VenueId, Seq<char>),
    a: Seq<Seq<char>>,
    b: Seq<Seq<char>>,
)
    requires
        forall|n: Seq<char>| #[trigger] a.contains(n) <==> b.contains(n),
    ensures
        owner_of(s, a) == owner_of(s, b),
{
    law_owner_beats_everyone(s, a);
    law_owner_beats_everyone(s, b);
    if a.len() == 0 {
        if b.len() > 0 {
            assert(b.contains(b[0]));
            assert(!a.contains(b[0]));
        }
    } else {
        assert(a.contains(a[0]));
        assert(b.contains(a[0]));
        let x = owner_of(s, a)->0;
        let y = owner_of(s, b)->0;
        assert(a.contains(y) && b.contains(x));
        lemma_beats_is_total(s, x, y, x);
    }
}

/// Removing a node moves only that node's streams: a stream that another node
/// had stays with it.
pub proof fn law_removing_a_node_moves_only_its_streams(
    s: (VenueId, Seq<char>),
    before: Seq<Seq<char>>,
    after: Seq<Seq<char>>,
    gone: Seq<char>,
)
    requires
        forall|n: Seq<char>| #[trigger] after.contains(n) <==> before.contains(n) && n != gone,
        owner_of(s, before) != Some(gone),
    ensures
        owner_of(s, after) == owner_of(s, before),
{
    law_owner_beats_everyone(s, before);
    law_owner_beats_everyone(s, after);
    if before.len() == 0 {
        if after.len() > 0 {
            assert(after.contains(after[0]));
        }
    } else {
        let x = owner_of(s, before)->0;
        assert(after.contains(x));
        let y = owner_of(s, after)->0;
        assert(before.contains(y));
        lemma_beats_is_total(s, x, y, x);
    }
}

/// Adding a node takes streams only for itself: whatever it does not take stays
/// where it was.
pub proof fn law_adding_a_node_takes_only_its_share(
    s: (VenueId, Seq<char>),
    before: Seq<Seq<char>>,
    after: Seq<Seq<char>>,
    joined: Seq<char>,
)
    requires
        forall|n: Seq<char>| #[trigger] after.contains(n) <==> before.contains(n) || n == joined,
    ensures
        owner_of(s, after) == owner_of(s, before) || owner_of(s, after) == Some(joined),
{
    law_owner_beats_everyone(s, before);
    law_owner_beats_everyone(s, after);
    assert(after.contains(joined));
    let y = owner_of(s, after)->0;
    if y != joined {
        assert(before.contains(y));
        let x = owner_of(s, before)->0;
        assert(after.contains(x));
        lemma_beats_is_total(s, x, y, x);
    }
}

/// Every stream of the cluster has exactly one owner among its members.
pub proof fn law_every_stream_has_exactly_one_owner(
    streams: Seq<StreamId>,
    nodes: Seq<Seq<char>>,
    s: (VenueId, Seq<char>),
)
    requires
        stream::lists(streams, s),
        nodes.len() > 0,
    ensures
        exists|n: Seq<char>| #[trigger] nodes.contains(n) && assigned(n, streams, nodes, s),
        forall|n: Seq<char>, m: Seq<char>|
            #[trigger] assigned(n, streams, nodes, s) && #[trigger] assigned(m, streams, nodes, s)
                ==> n == m,
{
    law_owner_beats_everyone(s, nodes);
    let o = owner_of(s, nodes)->0;
    assert(nodes.contains(o) && assigned(o, streams, nodes, s));
}

/// A stream goes to the node with the highest score, and among equal scores to the
/// one whose name comes first.
pub proof fn law_the_highest_score_has_the_stream(
    s: (VenueId, Seq<char>),
    nodes: Seq<Seq<char>>,
    i: int,
)
    requires
        0 <= i < nodes.len(),
    ensures
        owner_of(s, nodes) matches Some(owner) && {
            &&& nodes.contains(owner)
            &&& score(s, nodes[i]) <= score(s, owner)
            &&& score(s, nodes[i]) == score(s, owner) && nodes[i] != owner ==> text::text_before(
                owner,
                nodes[i],
            )
        },
{
    law_owner_beats_everyone(s, nodes);
    assert(nodes.contains(nodes[i]));
}

} // verus!
