//! Membership by lease, and the rule that makes sharding safe without
//! consensus: at most one node runs a given stream at a time.
//!
//! Each node writes exactly one record, its own, so there is nothing to
//! serialise. Two rules replace agreement. A holder stops by its own monotonic
//! clock: without a complete registry round trip for `ttl - guard` it releases
//! everything, while no reader can take it for dead before `ttl`. And a joining
//! node waits: it acquires nothing until `ttl + guard` after its first contact.

use vstd::prelude::*;

use crate::assign;
use crate::assign::NodeId;
use crate::event::VenueId;
use crate::stream;
use crate::stream::StreamId;
use crate::text;
use crate::time;
use crate::time::{Duration, IngestTime, SystemTime};

verus! {

/// What went wrong in the cluster registry.
#[derive(Debug, PartialEq, Eq)]
pub enum RegistryError {
    /// The registry could not be reached.
    Io(String),
    /// A node's record could not be understood.
    Malformed { node: String, source: String },
}

/// What a registry error says.
pub open spec fn registry_error_text(e: RegistryError) -> Seq<char> {
    match e {
        RegistryError::Io(cause) => "i/o error in the cluster registry: "@ + cause@,
        RegistryError::Malformed { node, source } => "malformed lease record for "@ + node@ + ": "@
            + source@,
    }
}

impl RegistryError {
    /// What went wrong, in words.
    pub fn message(&self) -> (s: String)
        ensures
            s@ == registry_error_text(*self),
    {
        let mut out: Vec<char> = Vec::new();
        match self {
            RegistryError::Io(cause) => {
                text::push_text(&mut out, "i/o error in the cluster registry: ");
                text::push_text(&mut out, cause.as_str());
            },
            RegistryError::Malformed { node, source } => {
                text::push_text(&mut out, "malformed lease record for ");
                text::push_text(&mut out, node.as_str());
                text::push_text(&mut out, ": ");
                text::push_text(&mut out, source.as_str());
            },
        }
        assert(out@ =~= registry_error_text(*self));
        text::text_of(&out)
    }
}

/// One node's claim to be alive, as other nodes read it. The wall clock appears
/// here and nowhere else in this module: this is the one value compared between
/// machines.
#[derive(Debug, PartialEq, Eq)]
pub struct Lease {
    pub node: NodeId,
    /// When the holder wrote this record, by the holder's wall clock.
    pub written_at_unix_ms: u64,
    /// How long after that the holder claims it is alive for. Carried in the
    /// record, so that every reader agrees about when it dies.
    pub ttl_ms: u64,
}

/// Whether a record has expired. Before the epoch nothing has; nor has a record
/// from the future, because someone may still be holding it.
pub open spec fn expired(lease: Lease, wall: int) -> bool {
    wall >= 0 && time::min_nat((wall as nat) / 1_000_000, u64::MAX as nat) > time::min_nat(
        (lease.written_at_unix_ms + lease.ttl_ms) as nat,
        u64::MAX as nat,
    )
}

impl Clone for Lease {
    fn clone(&self) -> (l: Lease)
        ensures
            l == *self,
    {
        Lease {
            node: self.node.clone(),
            written_at_unix_ms: self.written_at_unix_ms,
            ttl_ms: self.ttl_ms,
        }
    }
}

impl Lease {
    /// Whether this record has expired, as of `now`.
    pub fn expired_at(&self, now: SystemTime) -> (b: bool)
        ensures
            b == expired(*self, now@),
    {
        match now.duration_since(SystemTime::epoch()) {
            Ok(since) => since.whole_millis() > self.written_at_unix_ms.saturating_add(self.ttl_ms),
            Err(_) => false,
        }
    }
}

/// Lease timings.
#[derive(Clone, Copy, Debug, PartialEq, Eq)]
pub struct LeaseConfig {
    /// How long a record stays valid after it is written.
    pub ttl: Duration,
    /// How often to rewrite it.
    pub renew: Duration,
    /// Safety margin between a holder releasing and any reader being able to
    /// observe expiry.
    pub guard: Duration,
}

impl Default for LeaseConfig {
    fn default() -> (c: LeaseConfig)
        ensures
            c.ttl@ == 15 * time::NANOS_PER_SEC,
            c.renew@ == 3 * time::NANOS_PER_SEC,
            c.guard@ == 2 * time::NANOS_PER_SEC,
    {
        LeaseConfig {
            ttl: Duration::from_secs(15),
            renew: Duration::from_secs(3),
            guard: Duration::from_secs(2),
        }
    }
}

impl LeaseConfig {
    /// How long a node holds streams after its last complete round trip.
    pub open spec fn hold_nanos(self) -> nat {
        time::minus_nat(self.ttl@, self.guard@)
    }

    /// How long after its first contact a node waits before acquiring.
    pub open spec fn settle_nanos(self) -> nat {
        time::min_nat(self.ttl@ + self.guard@, time::DURATION_LIMIT as nat)
    }

    /// How long a node holds streams after its last complete round trip.
    pub fn hold_for(&self) -> (d: Duration)
        ensures
            d@ == self.hold_nanos(),
    {
        self.ttl.saturating_sub(self.guard)
    }

    /// How long after its first contact a node waits before acquiring.
    pub fn settle_for(&self) -> (d: Duration)
        ensures
            d@ == self.settle_nanos(),
    {
        self.ttl.saturating_add(self.guard)
    }
}

/// What this node currently believes about the cluster.
#[derive(Debug, PartialEq, Eq)]
pub struct ClusterView {
    pub node: NodeId,
    /// Live members, including this node, in order.
    pub members: Vec<NodeId>,
    /// Streams this node is running right now.
    pub owned: Vec<String>,
    /// Streams configured for the cluster that this node is not running.
    pub elsewhere: Vec<String>,
    /// True while this node is inside its settling period.
    pub settling: bool,
    /// True when the node has released everything because it could not reach
    /// the registry.
    pub stood_down: bool,
    /// How long since the last complete registry round trip.
    pub last_contact_ms: Option<u64>,
}

impl Clone for ClusterView {
    fn clone(&self) -> (v: ClusterView)
        ensures
            v.node == self.node,
            v.members@ == self.members@,
            v.owned@ == self.owned@,
            v.elsewhere@ == self.elsewhere@,
            v.settling == self.settling,
            v.stood_down == self.stood_down,
            v.last_contact_ms == self.last_contact_ms,
    {
        let members = self.members.clone();
        let owned = self.owned.clone();
        let elsewhere = self.elsewhere.clone();
        assert(members@ =~= self.members@);
        assert(owned@ =~= self.owned@);
        assert(elsewhere@ =~= self.elsewhere@);
        ClusterView {
            node: self.node.clone(),
            members,
            owned,
            elsewhere,
            settling: self.settling,
            stood_down: self.stood_down,
            last_contact_ms: self.last_contact_ms,
        }
    }
}

/// How far one attempt to renew a lease got. Only a complete one counts: a node
/// that could publish but not listen would otherwise keep renewing its right to
/// streams it can no longer be told to give up.
#[derive(Debug)]
pub enum RoundTrip {
    /// The node's own record could not be written.
    NotAnnounced,
    /// It was written, but the members could not be read.
    NotRead,
    /// It was written, and these records were read.
    Complete(Vec<Lease>),
}

/// Decides which streams this node should own. Reaching the registry, and
/// sleeping in between, is the caller's part.
#[derive(Debug)]
pub struct Coordinator {
    node: NodeId,
    config: LeaseConfig,
    /// Every stream the cluster runs, identical on every node.
    streams: Vec<StreamId>,
}

impl Coordinator {
    pub closed spec fn node_name(self) -> Seq<char> {
        self.node@
    }

    pub closed spec fn timings(self) -> LeaseConfig {
        self.config
    }

    pub closed spec fn cluster_streams(self) -> Seq<StreamId> {
        self.streams@
    }

    pub fn new(node: NodeId, config: LeaseConfig, streams: Vec<StreamId>) -> (c: Coordinator)
        ensures
            c.node_name() == node@,
            c.timings() == config,
            c.cluster_streams() == streams@,
    {
        Coordinator { node, config, streams }
    }

    /// The record this node writes at `now`.
    pub fn lease(&self, now: IngestTime) -> (l: Lease)
        ensures
            l.node@ == self.node_name(),
            l.written_at_unix_ms == unix_ms(now.wall_nanos()),
            l.ttl_ms == time::min_nat(self.timings().ttl@ / 1_000_000, u64::MAX as nat),
    {
        Lease {
            node: self.node.clone(),
            written_at_unix_ms: unix_millis(now.wall()),
            ttl_ms: self.config.ttl.whole_millis(),
        }
    }

    /// One pass: release everything where the last contact is too old, fold in
    /// how far the attempt to renew the lease got, and decide what this node
    /// holds.
    pub fn step(&self, state: &mut LeaseState, now: IngestTime, round_trip: &RoundTrip) -> (view:
        ClusterView)
        ensures
            stepped(
                *old(state),
                *round_trip,
                now,
                self.timings(),
                self.node_name(),
                self.cluster_streams(),
                *final(state),
            ),
            views(view, *final(state), self.node_name(), self.cluster_streams(), now),
    {
        // A node that was silent for longer than it may hold has already lost its
        // streams: contact that comes after that is contact of a joining node.
        state.judge(now, self.config);
        let ghost judged_state = *state;
        match round_trip {
            RoundTrip::Complete(leases) => {
                state.note_contact(now);
                state.members = live_members(leases, now.wall());
            },
            _ => {},
        }
        let ghost contacted = *state;
        state.reconcile(now, self.config, &self.node, &self.streams);
        assert(judged(*old(state), now.mono_nanos(), self.timings(), judged_state));
        assert(noted(judged_state, *round_trip, now, contacted));
        state.view(&self.node, &self.streams, now)
    }
}

/// Milliseconds since the epoch; zero before it.
pub open spec fn unix_ms(wall: int) -> nat {
    if wall < 0 {
        0
    } else {
        time::min_nat((wall as nat) / 1_000_000, u64::MAX as nat)
    }
}

/// Milliseconds since the epoch; zero before it.
pub fn unix_millis(t: SystemTime) -> (n: u64)
    ensures
        n == unix_ms(t@),
{
    t.since_epoch().whole_millis()
}

/// The part of the coordinator that changes.
#[derive(Debug)]
pub struct LeaseState {
    /// Live members as of the last successful read.
    members: Vec<NodeId>,
    /// Last complete registry round trip.
    last_contact: Option<IngestTime>,
    /// When this node's settling period began. Restarted whenever the node
    /// stands down.
    settled_at: IngestTime,
    /// Whether the node is holding nothing because it has no contact.
    stood_down: bool,
    /// Whether the node has a lease but is still serving out its notice.
    settling: bool,
    /// The streams held, in order.
    owned: Vec<StreamId>,
}

impl LeaseState {
    pub closed spec fn known_members(self) -> Seq<NodeId> {
        self.members@
    }

    /// The last complete round trip, on the monotonic clock.
    pub closed spec fn contact(self) -> Option<nat> {
        match self.last_contact {
            Some(at) => Some(at.mono_nanos()),
            None => None,
        }
    }

    /// When the notice began, on the monotonic clock.
    pub closed spec fn notice_from(self) -> nat {
        self.settled_at.mono_nanos()
    }

    pub closed spec fn is_stood_down(self) -> bool {
        self.stood_down
    }

    pub closed spec fn is_settling(self) -> bool {
        self.settling
    }

    pub closed spec fn held(self) -> Seq<StreamId> {
        self.owned@
    }

    pub fn new(now: IngestTime) -> (s: LeaseState)
        ensures
            s.known_members() == Seq::<NodeId>::empty(),
            s.contact() is None,
            s.notice_from() == now.mono_nanos(),
            s.is_stood_down(),
            !s.is_settling(),
            s.held() == Seq::<StreamId>::empty(),
    {
        LeaseState {
            members: Vec::new(),
            last_contact: None,
            settled_at: now,
            stood_down: true,
            settling: false,
            owned: Vec::new(),
        }
    }

    /// The streams held, in order.
    pub fn owned(&self) -> (s: &Vec<StreamId>)
        ensures
            s@ == self.held(),
    {
        &self.owned
    }

    /// Release everything if the last complete round trip is too old, whatever
    /// comes after it.
    fn judge(&mut self, now: IngestTime, config: LeaseConfig)
        ensures
            judged(*old(self), now.mono_nanos(), config, *final(self)),
    {
        match self.last_contact {
            Some(at) => {
                if !now.since(at).shorter_than(&config.hold_for()) {
                    self.stand_down(now);
                }
            },
            None => {},
        }
    }

    /// A complete round trip succeeded. The first one starts the notice: before
    /// it this node's record was visible to no one.
    fn note_contact(&mut self, now: IngestTime)
        ensures
            final(self).contact() == Some(now.mono_nanos()),
            final(self).notice_from() == (if old(self).contact() is None {
                now.mono_nanos()
            } else {
                old(self).notice_from()
            }),
            final(self).known_members() == old(self).known_members(),
            final(self).is_stood_down() == old(self).is_stood_down(),
            final(self).is_settling() == old(self).is_settling(),
            final(self).held() == old(self).held(),
    {
        if self.last_contact.is_none() {
            self.settled_at = now;
        }
        self.last_contact = Some(now);
    }

    /// Decide what this node holds, given how long since it last had contact.
    fn reconcile(
        &mut self,
        now: IngestTime,
        config: LeaseConfig,
        node: &NodeId,
        streams: &[StreamId],
    )
        ensures
            reconciled(*old(self), now.mono_nanos(), config, node@, streams@, *final(self)),
    {
        let held = match self.last_contact {
            Some(at) => now.since(at).shorter_than(&config.hold_for()),
            None => false,
        };
        if !held {
            self.stand_down(now);
            return;
        }
        // Settling: the incumbent gets a full ttl to notice this node and let
        // go.
        if now.since(self.settled_at).shorter_than(&config.settle_for()) {
            self.settling = true;
            self.owned = Vec::new();
            return;
        }
        self.settling = false;
        self.stood_down = false;
        self.owned = assign::assigned_to(node, streams, &self.members);
    }

    /// Release everything. A node that lost contact cannot know what happened
    /// while it was blind, so coming back is joining.
    fn stand_down(&mut self, now: IngestTime)
        ensures
            final(self).known_members() == old(self).known_members(),
            final(self).contact() is None,
            final(self).notice_from() == now.mono_nanos(),
            final(self).is_stood_down(),
            !final(self).is_settling(),
            final(self).held() == Seq::<StreamId>::empty(),
    {
        self.owned = Vec::new();
        self.stood_down = true;
        self.settling = false;
        self.last_contact = None;
        self.settled_at = now;
    }

    fn view(&self, node: &NodeId, streams: &[StreamId], now: IngestTime) -> (v: ClusterView)
        ensures
            views(v, *self, node@, streams@, now),
    {
        let mut members: Vec<NodeId> = Vec::new();
        let mut i: usize = 0;
        while i < self.members.len()
            invariant
                i <= self.members@.len(),
                members@ == self.members@.take(i as int),
            decreases self.members@.len() - i,
        {
            members.push(self.members[i].clone());
            i += 1;
            assert(members@ =~= self.members@.take(i as int));
        }
        assert(self.members@.take(self.members@.len() as int) =~= self.members@);
        let mut owned: Vec<String> = Vec::new();
        let mut k: usize = 0;
        while k < self.owned.len()
            invariant
                k <= self.owned@.len(),
                texts(owned@) == keys(self.owned@.take(k as int)),
            decreases self.owned@.len() - k,
        {
            let ghost before = owned@;
            owned.push(self.owned[k].key());
            assert(texts(owned@) =~= texts(before).push(stream::stream_key(
                self.owned@[k as int]@,
            )));
            assert(keys(self.owned@.take(k + 1)) =~= keys(self.owned@.take(k as int)).push(
                stream::stream_key(self.owned@[k as int]@),
            ));
            k += 1;
        }
        assert(self.owned@.take(self.owned@.len() as int) =~= self.owned@);
        let mut elsewhere: Vec<String> = Vec::new();
        let mut j: usize = 0;
        while j < streams.len()
            invariant
                j <= streams@.len(),
                texts(elsewhere@) == keys_not_held(streams@.take(j as int), self.owned@),
            decreases streams@.len() - j,
        {
            assert(streams@.take(j + 1).drop_last() =~= streams@.take(j as int));
            if !stream::contains_stream(&self.owned, &streams[j]) {
                let ghost before = elsewhere@;
                elsewhere.push(streams[j].key());
                assert(texts(elsewhere@) =~= texts(before).push(stream::stream_key(
                    streams@[j as int]@,
                )));
            }
            j += 1;
        }
        assert(streams@.take(streams@.len() as int) =~= streams@);
        ClusterView {
            node: node.clone(),
            members,
            owned,
            elsewhere,
            settling: self.settling,
            stood_down: self.stood_down,
            last_contact_ms: match self.last_contact {
                Some(at) => Some(now.since(at).whole_millis()),
                None => None,
            },
        }
    }
}

/// The characters of some strings.
pub open spec fn texts(strings: Seq<String>) -> Seq<Seq<char>> {
    Seq::new(strings.len(), |i: int| strings[i]@)
}

/// The identifiers of some streams.
pub open spec fn keys(streams: Seq<StreamId>) -> Seq<Seq<char>> {
    Seq::new(streams.len(), |i: int| stream::stream_key(streams[i]@))
}

/// The identifiers of the streams that are not held, in order.
pub open spec fn keys_not_held(streams: Seq<StreamId>, held: Seq<StreamId>) -> Seq<Seq<char>>
    decreases streams.len(),
{
    if streams.len() == 0 {
        Seq::empty()
    } else if stream::lists(held, streams.last()@) {
        keys_not_held(streams.drop_last(), held)
    } else {
        keys_not_held(streams.drop_last(), held).push(stream::stream_key(streams.last()@))
    }
}

/// Whether a view tells what a state holds.
pub open spec fn views(
    v: ClusterView,
    state: LeaseState,
    node: Seq<char>,
    streams: Seq<StreamId>,
    now: IngestTime,
) -> bool {
    &&& v.node@ == node
    &&& v.members@ == state.known_members()
    &&& texts(v.owned@) == keys(state.held())
    &&& texts(v.elsewhere@) == keys_not_held(streams, state.held())
    &&& v.settling == state.is_settling()
    &&& v.stood_down == state.is_stood_down()
    &&& match (v.last_contact_ms, state.contact()) {
        (Some(ms), Some(at)) => ms == time::min_nat(
            time::minus_nat(now.mono_nanos(), at) / 1_000_000,
            u64::MAX as nat,
        ),
        (None, None) => true,
        _ => false,
    }
}

/// Whether some record of the node is unexpired.
pub open spec fn has_live_record(leases: Seq<Lease>, wall: int, node: Seq<char>) -> bool {
    exists|i: int|
        0 <= i < leases.len() && (#[trigger] leases[i]).node@ == node && !expired(leases[i], wall)
}

/// Whether nodes are the holders of the unexpired records, in order, each once.
pub open spec fn live(members: Seq<NodeId>, leases: Seq<Lease>, wall: int) -> bool {
    &&& forall|i: int, j: int|
        0 <= i < j < members.len() ==> text::text_before(
            (#[trigger] members[i])@,
            (#[trigger] members[j])@,
        )
    &&& forall|n: Seq<char>|
        #[trigger] assign::names(members).contains(n) <==> has_live_record(leases, wall, n)
}

/// Whether the last complete round trip is too old to hold anything by.
pub open spec fn lapsed(contact: Option<nat>, now: nat, config: LeaseConfig) -> bool {
    contact matches Some(at) && time::minus_nat(now, at) >= config.hold_nanos()
}

/// What a state is once its last contact was judged: where that is too old,
/// everything is released and the notice restarts.
pub open spec fn judged(
    before: LeaseState,
    now: nat,
    config: LeaseConfig,
    after: LeaseState,
) -> bool {
    if lapsed(before.contact(), now, config) {
        &&& after.known_members() == before.known_members()
        &&& after.contact() is None
        &&& after.notice_from() == now
        &&& after.is_stood_down()
        &&& !after.is_settling()
        &&& after.held().len() == 0
    } else {
        after == before
    }
}

/// What an attempt to renew the lease makes of a state before anything is
/// decided: a complete one notes the contact and the members it read.
pub open spec fn noted(
    before: LeaseState,
    round_trip: RoundTrip,
    now: IngestTime,
    after: LeaseState,
) -> bool {
    match round_trip {
        RoundTrip::Complete(leases) => {
            &&& after.contact() == Some(now.mono_nanos())
            &&& after.notice_from() == (if before.contact() is None {
                now.mono_nanos()
            } else {
                before.notice_from()
            })
            &&& live(after.known_members(), leases@, now.wall_nanos())
            &&& after.is_stood_down() == before.is_stood_down()
            &&& after.held() == before.held()
        },
        _ => after == before,
    }
}

/// What is decided from a state: without contact for `ttl - guard` everything
/// is released and the notice restarts; within `ttl + guard` of the notice
/// nothing is held; after it exactly the assigned streams are.
pub open spec fn reconciled(
    before: LeaseState,
    now: nat,
    config: LeaseConfig,
    node: Seq<char>,
    streams: Seq<StreamId>,
    after: LeaseState,
) -> bool {
    &&& after.known_members() == before.known_members()
    &&& if before.contact() is None || time::minus_nat(now, before.contact()->0)
        >= config.hold_nanos() {
        &&& after.contact() is None
        &&& after.notice_from() == now
        &&& after.is_stood_down()
        &&& !after.is_settling()
        &&& after.held().len() == 0
    } else {
        &&& after.contact() == before.contact()
        &&& after.notice_from() == before.notice_from()
        &&& if time::minus_nat(now, before.notice_from()) < config.settle_nanos() {
            &&& after.is_stood_down() == before.is_stood_down()
            &&& after.is_settling()
            &&& after.held().len() == 0
        } else {
            &&& !after.is_stood_down()
            &&& !after.is_settling()
            &&& stream::ordered(after.held())
            &&& forall|s: (VenueId, Seq<char>)|
                #[trigger] stream::lists(after.held(), s) <==> assign::assigned(
                    node,
                    streams,
                    assign::names(before.known_members()),
                    s,
                )
        }
    }
}

/// One pass: the last contact is judged, the attempt is noted, then what is held
/// is decided.
pub open spec fn stepped(
    before: LeaseState,
    round_trip: RoundTrip,
    now: IngestTime,
    config: LeaseConfig,
    node: Seq<char>,
    streams: Seq<StreamId>,
    after: LeaseState,
) -> bool {
    exists|kept: LeaseState, contacted: LeaseState| #[trigger]
        judged(before, now.mono_nanos(), config, kept) && #[trigger] noted(
            kept,
            round_trip,
            now,
            contacted,
        ) && reconciled(
            contacted,
            now.mono_nanos(),
            config,
            node,
            streams,
            after,
        )
}

/// Adds a node in its place, unless it is there.
fn add_node(nodes: &mut Vec<NodeId>, node: NodeId)
    requires
        forall|i: int, j: int|
            0 <= i < j < old(nodes)@.len() ==> text::text_before(
                (#[trigger] old(nodes)@[i])@,
                (#[trigger] old(nodes)@[j])@,
            ),
    ensures
        forall|i: int, j: int|
            0 <= i < j < final(nodes)@.len() ==> text::text_before(
                (#[trigger] final(nodes)@[i])@,
                (#[trigger] final(nodes)@[j])@,
            ),
        forall|n: Seq<char>|
            #[trigger] assign::names(final(nodes)@).contains(n) <==> assign::names(
                old(nodes)@,
            ).contains(n) || n == node@,
{
    let ghost before = nodes@;
    let mut i: usize = 0;
    while i < nodes.len() && nodes[i].before(&node)
        invariant
            i <= nodes@.len(),
            nodes@ == before,
            forall|k: int| 0 <= k < i ==> text::text_before((#[trigger] nodes@[k])@, node@),
        decreases nodes@.len() - i,
    {
        i += 1;
    }
    if i < nodes.len() && nodes[i].same(&node) {
        assert(assign::names(before)[i as int] == node@);
        assert(assign::names(before).contains(node@));
    } else {
        let ghost added = node@;
        nodes.insert(i, node);
        proof {
            let after = nodes@;
            assert forall|a: int, b: int| 0 <= a < b < after.len() implies text::text_before(
                (#[trigger] after[a])@,
                (#[trigger] after[b])@,
            ) by {
                let pa = if a < i { a } else { a - 1 };
                let pb = if b < i { b } else { b - 1 };
                if a == i {
                    assert(after[b] == before[pb]);
                    text::lemma_text_before_total(added, before[i as int]@);
                    if i < pb {
                        assert(text::text_before(before[i as int]@, before[pb]@));
                        text::lemma_text_before_transitive(
                            added,
                            before[i as int]@,
                            before[pb]@,
                        );
                    }
                } else if b == i {
                    assert(after[a] == before[a]);
                } else {
                    assert(text::text_before(before[pa]@, before[pb]@));
                }
            }
            let names_before = assign::names(before);
            let names_after = assign::names(after);
            assert forall|n: Seq<char>| #[trigger] names_after.contains(n) <==> names_before.contains(
                n,
            ) || n == added by {
                if names_after.contains(n) {
                    let k = choose|k: int| 0 <= k < names_after.len() && names_after[k] == n;
                    if k != i {
                        assert(names_before[if k < i { k } else { k - 1 }] == n);
                    }
                }
                if names_before.contains(n) {
                    let p = choose|p: int| 0 <= p < names_before.len() && names_before[p] == n;
                    assert(names_after[if p < i { p } else { p + 1 }] == n);
                }
                if n == added {
                    assert(names_after[i as int] == n);
                }
            }
        }
    }
}

/// The holders of unexpired records, in order, each once, so that every node
/// computes the same assignment whatever order it read them in.
pub fn live_members(leases: &[Lease], now: SystemTime) -> (members: Vec<NodeId>)
    ensures
        live(members@, leases@, now@),
{
    let mut out: Vec<NodeId> = Vec::new();
    let mut i: usize = 0;
    while i < leases.len()
        invariant
            i <= leases@.len(),
            live(out@, leases@.take(i as int), now@),
        decreases leases@.len() - i,
    {
        let ghost before = out@;
        let alive = !leases[i].expired_at(now);
        if alive {
            add_node(&mut out, leases[i].node.clone());
        }
        proof {
            let then = leases@.take(i as int);
            let all = leases@.take(i + 1);
            assert forall|n: Seq<char>| #[trigger] assign::names(out@).contains(n)
                <==> has_live_record(all, now@, n) by {
                assert(assign::names(before).contains(n) <==> has_live_record(then, now@, n));
                if has_live_record(all, now@, n) {
                    let k = choose|k: int|
                        0 <= k < all.len() && (#[trigger] all[k]).node@ == n && !expired(
                            all[k],
                            now@,
                        );
                    if k < i {
                        assert(then[k].node@ == n);
                    }
                }
                if has_live_record(then, now@, n) {
                    let k = choose|k: int|
                        0 <= k < then.len() && (#[trigger] then[k]).node@ == n && !expired(
                            then[k],
                            now@,
                        );
                    assert(all[k].node@ == n);
                }
                assert(all[i as int] == leases@[i as int]);
            }
        }
        i += 1;
    }
    assert(leases@.take(leases@.len() as int) =~= leases@);
    out
}

/// Two nodes that read the same live membership assign every stream to the same
/// node, so at most one of them takes it.
pub proof fn law_settled_nodes_never_share_a_stream(
    members_a: Seq<NodeId>,
    members_b: Seq<NodeId>,
    leases_a: Seq<Lease>,
    leases_b: Seq<Lease>,
    wall_a: int,
    wall_b: int,
    a: Seq<char>,
    b: Seq<char>,
    streams: Seq<StreamId>,
    s: (VenueId, Seq<char>),
)
    requires
        live(members_a, leases_a, wall_a),
        live(members_b, leases_b, wall_b),
        forall|n: Seq<char>|
            #[trigger] has_live_record(leases_a, wall_a, n) <==> has_live_record(
                leases_b,
                wall_b,
                n,
            ),
        assign::assigned(a, streams, assign::names(members_a), s),
        assign::assigned(b, streams, assign::names(members_b), s),
    ensures
        a == b,
{
    assert forall|n: Seq<char>| #[trigger] assign::names(members_a).contains(n)
        <==> assign::names(members_b).contains(n) by {
        assert(has_live_record(leases_a, wall_a, n) <==> has_live_record(leases_b, wall_b, n));
    }
    assign::law_owner_ignores_order(s, assign::names(members_a), assign::names(members_b));
}

/// The safety argument for a node that joins. The incumbent last had contact at
/// `contact`, no later than the joiner's record became visible at `notice`. If
/// the incumbent still holds a stream at `u` and the joiner holds one at `v`,
/// then `v` comes after `u` by more than twice the guard, all on one clock.
pub proof fn law_holders_are_disjoint(
    config: LeaseConfig,
    incumbent: LeaseState,
    incumbent_after: LeaseState,
    incumbent_node: Seq<char>,
    joiner: LeaseState,
    joiner_after: LeaseState,
    joiner_node: Seq<char>,
    streams: Seq<StreamId>,
    u: nat,
    v: nat,
)
    requires
        config.guard@ <= config.ttl@,
        config.ttl@ + config.guard@ <= time::DURATION_LIMIT,
        reconciled(incumbent, u, config, incumbent_node, streams, incumbent_after),
        reconciled(joiner, v, config, joiner_node, streams, joiner_after),
        incumbent_after.held().len() > 0,
        joiner_after.held().len() > 0,
        incumbent.contact() matches Some(c) && c <= joiner.notice_from(),
    ensures
        v > u + 2 * config.guard@,
{
}

/// A pass that comes after the hold deadline releases everything, even where its
/// own round trip is complete, and the notice starts again with it.
pub proof fn law_a_late_pass_releases_everything(
    before: LeaseState,
    round_trip: RoundTrip,
    now: IngestTime,
    config: LeaseConfig,
    node: Seq<char>,
    streams: Seq<StreamId>,
    after: LeaseState,
)
    requires
        stepped(before, round_trip, now, config, node, streams, after),
        lapsed(before.contact(), now.mono_nanos(), config),
    ensures
        after.held().len() == 0,
        after.notice_from() == now.mono_nanos(),
{
}

/// A holder that has lost contact releases everything at its own deadline, a
/// full guard before any reader can take its last record for dead.
pub proof fn law_holder_releases_before_expiry(
    config: LeaseConfig,
    state: LeaseState,
    after: LeaseState,
    node: Seq<char>,
    streams: Seq<StreamId>,
    now: nat,
)
    requires
        config.guard@ <= config.ttl@,
        reconciled(state, now, config, node, streams, after),
        state.contact() matches Some(c) && now >= c + config.ttl@ - config.guard@,
    ensures
        after.held().len() == 0,
        after.is_stood_down(),
{
}

/// No reader takes a record for dead before its time to live is over.
pub proof fn law_no_reader_expires_a_record_early(lease: Lease, wall: int)
    requires
        wall < (lease.written_at_unix_ms + lease.ttl_ms + 1) * 1_000_000,
    ensures
        !expired(lease, wall),
{
}

/// A node that could not complete a round trip is never closer to holding
/// something: its contact does not move.
pub proof fn law_incomplete_round_trip_extends_nothing(
    before: LeaseState,
    round_trip: RoundTrip,
    now: IngestTime,
    config: LeaseConfig,
    node: Seq<char>,
    streams: Seq<StreamId>,
    after: LeaseState,
)
    requires
        stepped(before, round_trip, now, config, node, streams, after),
        round_trip !is Complete,
    ensures
        after.contact() is None || after.contact() == before.contact(),
{
}

/// A record that is not renewed dies: once its time to live is over every reader
/// takes it for dead.
pub proof fn law_a_silent_record_expires(lease: Lease, wall: int)
    requires
        lease.written_at_unix_ms + lease.ttl_ms < u64::MAX,
        wall >= (lease.written_at_unix_ms + lease.ttl_ms + 1) * 1_000_000,
    ensures
        expired(lease, wall),
{
}

/// Streams are held for the time to live less the guard, and taken up after the
/// time to live and the guard: the two never meet.
pub proof fn law_the_guard_lies_on_both_sides(config: LeaseConfig)
    requires
        config.guard@ <= config.ttl@,
        config.ttl@ + config.guard@ <= time::DURATION_LIMIT,
    ensures
        config.hold_nanos() + config.guard@ == config.ttl@,
        config.settle_nanos() == config.ttl@ + config.guard@,
{
}

/// The members that a complete pass leaves a node with are those whose records it
/// read and that are still within their time to live.
pub proof fn law_members_are_the_living(
    before: LeaseState,
    leases: Vec<Lease>,
    now: IngestTime,
    config: LeaseConfig,
    node: Seq<char>,
    streams: Seq<StreamId>,
    after: LeaseState,
    n: Seq<char>,
)
    requires
        stepped(before, RoundTrip::Complete(leases), now, config, node, streams, after),
        forall|i: int|
            0 <= i < leases@.len() ==> (#[trigger] leases@[i]).written_at_unix_ms
                + leases@[i].ttl_ms < u64::MAX,
    ensures
        assign::names(after.known_members()).contains(n) <==> exists|i: int|
            0 <= i < leases@.len() && (#[trigger] leases@[i]).node@ == n && now.wall_nanos() < (
            leases@[i].written_at_unix_ms + leases@[i].ttl_ms + 1) * 1_000_000,
{
    let wall = now.wall_nanos();
    assert forall|i: int| 0 <= i < leases@.len() implies (expired(#[trigger] leases@[i], wall)
        <==> wall >= (leases@[i].written_at_unix_ms + leases@[i].ttl_ms + 1) * 1_000_000) by {
        if wall >= (leases@[i].written_at_unix_ms + leases@[i].ttl_ms + 1) * 1_000_000 {
            law_a_silent_record_expires(leases@[i], wall);
        } else {
            law_no_reader_expires_a_record_early(leases@[i], wall);
        }
    }
    assert(live(after.known_members(), leases@, wall));
    assert(assign::names(after.known_members()).contains(n) <==> has_live_record(
        leases@,
        wall,
        n,
    ));
}

/// A node that has served its notice and keeps contact runs what is its own: after
/// a complete pass it holds exactly the streams of the cluster that are assigned
/// to it among the living members, and it is neither settling nor stood down.
pub proof fn law_a_settled_node_runs_its_share(
    before: LeaseState,
    leases: Vec<Lease>,
    now: IngestTime,
    config: LeaseConfig,
    node: Seq<char>,
    streams: Seq<StreamId>,
    after: LeaseState,
)
    requires
        stepped(before, RoundTrip::Complete(leases), now, config, node, streams, after),
        config.guard@ < config.ttl@,
        config.ttl@ + config.guard@ <= time::DURATION_LIMIT,
        before.contact() matches Some(c) && c <= now.mono_nanos() < c + config.ttl@
            - config.guard@,
        before.notice_from() + config.ttl@ + config.guard@ <= now.mono_nanos(),
    ensures
        after.contact() == Some(now.mono_nanos()),
        after.notice_from() == before.notice_from(),
        !after.is_stood_down(),
        !after.is_settling(),
        forall|s: (VenueId, Seq<char>)|
            #[trigger] stream::lists(after.held(), s) <==> stream::lists(streams, s)
                && assign::owner_of(s, assign::names(after.known_members())) == Some(node),
{
}

/// A node without contact starts from nothing: its first complete pass notes the
/// contact and starts the notice, and until the notice is over it holds nothing.
pub proof fn law_a_newcomer_waits(
    before: LeaseState,
    leases: Vec<Lease>,
    now: IngestTime,
    config: LeaseConfig,
    node: Seq<char>,
    streams: Seq<StreamId>,
    after: LeaseState,
)
    requires
        stepped(before, RoundTrip::Complete(leases), now, config, node, streams, after),
        config.guard@ < config.ttl@,
        config.ttl@ + config.guard@ <= time::DURATION_LIMIT,
        before.contact() is None,
    ensures
        after.contact() == Some(now.mono_nanos()),
        after.notice_from() == now.mono_nanos(),
        after.is_settling(),
        after.held().len() == 0,
{
}

/// A node that never had contact holds nothing, whatever its attempts came to
/// short of a complete round trip.
pub proof fn law_no_contact_holds_nothing(
    before: LeaseState,
    round_trip: RoundTrip,
    now: IngestTime,
    config: LeaseConfig,
    node: Seq<char>,
    streams: Seq<StreamId>,
    after: LeaseState,
)
    requires
        stepped(before, round_trip, now, config, node, streams, after),
        round_trip !is Complete,
        before.contact() is None,
    ensures
        after.held().len() == 0,
        after.is_stood_down(),
        after.contact() is None,
{
}

/// The identifiers listed as elsewhere are those of the streams that are not held,
/// all of them and no others.
proof fn lemma_keys_not_held(streams: Seq<StreamId>, held: Seq<StreamId>, key: Seq<char>)
    ensures
        keys_not_held(streams, held).contains(key) <==> exists|i: int|
            0 <= i < streams.len() && !stream::lists(held, (#[trigger] streams[i])@)
                && stream::stream_key(streams[i]@) == key,
    decreases streams.len(),
{
    let all = keys_not_held(streams, held);
    if streams.len() > 0 {
        let most = streams.drop_last();
        let rest = keys_not_held(most, held);
        lemma_keys_not_held(most, held, key);
        let n = streams.len() - 1;
        assert(streams[n] == streams.last());
        if rest.contains(key) {
            let i = choose|i: int|
                0 <= i < most.len() && !stream::lists(held, (#[trigger] most[i])@)
                    && stream::stream_key(most[i]@) == key;
            assert(streams[i] == most[i]);
        }
        if exists|i: int|
            0 <= i < streams.len() && !stream::lists(held, (#[trigger] streams[i])@)
                && stream::stream_key(streams[i]@) == key {
            let i = choose|i: int|
                0 <= i < streams.len() && !stream::lists(held, (#[trigger] streams[i])@)
                    && stream::stream_key(streams[i]@) == key;
            if i < n {
                assert(most[i] == streams[i]);
            }
        }
        if !stream::lists(held, streams.last()@) {
            let last = stream::stream_key(streams.last()@);
            assert(all == rest.push(last));
            assert(all[rest.len() as int] == last);
            if rest.contains(key) {
                let k = choose|k: int| 0 <= k < rest.len() && rest[k] == key;
                assert(all[k] == key);
            }
            if all.contains(key) {
                let k = choose|k: int| 0 <= k < all.len() && all[k] == key;
                if k < rest.len() {
                    assert(rest[k] == key);
                }
            }
        }
    }
}

/// A view names every stream of the cluster where it runs: those held by their
/// identifiers, in order, and each of the others as elsewhere. The time since the
/// last contact is told in whole milliseconds.
pub proof fn law_a_view_tells_where_streams_run(
    v: ClusterView,
    state: LeaseState,
    node: Seq<char>,
    streams: Seq<StreamId>,
    now: IngestTime,
    key: Seq<char>,
)
    requires
        views(v, state, node, streams, now),
    ensures
        v.members@ == state.known_members(),
        v.owned@.len() == state.held().len(),
        forall|i: int|
            0 <= i < v.owned@.len() ==> (#[trigger] v.owned@[i])@ == stream::stream_key(
                state.held()[i]@,
            ),
        (exists|i: int| 0 <= i < v.elsewhere@.len() && (#[trigger] v.elsewhere@[i])@ == key)
            <==> exists|j: int|
            0 <= j < streams.len() && !stream::lists(state.held(), (#[trigger] streams[j])@)
                && stream::stream_key(streams[j]@) == key,
        v.last_contact_ms is Some <==> state.contact() is Some,
        v.last_contact_ms matches Some(ms) ==> {
            let at = state.contact()->0;
            at <= now.mono_nanos() && ms < u64::MAX ==> ms * 1_000_000 <= now.mono_nanos() - at < (
            ms + 1) * 1_000_000
        },
{
    let owned = texts(v.owned@);
    assert(owned.len() == keys(state.held()).len());
    assert forall|i: int| 0 <= i < v.owned@.len() implies (#[trigger] v.owned@[i])@
        == stream::stream_key(state.held()[i]@) by {
        assert(owned[i] == v.owned@[i]@);
        assert(owned[i] == keys(state.held())[i]);
    }
    let elsewhere = texts(v.elsewhere@);
    if exists|i: int| 0 <= i < v.elsewhere@.len() && (#[trigger] v.elsewhere@[i])@ == key {
        let i = choose|i: int| 0 <= i < v.elsewhere@.len() && (#[trigger] v.elsewhere@[i])@ == key;
        assert(elsewhere[i] == key);
    }
    if elsewhere.contains(key) {
        let i = choose|i: int| 0 <= i < elsewhere.len() && elsewhere[i] == key;
        assert(v.elsewhere@[i]@ == key);
    }
    lemma_keys_not_held(streams, state.held(), key);
}

/// A wall clock reading is told in whole milliseconds since the epoch, its last
/// part dropped.
pub proof fn law_wall_milliseconds_are_whole(wall: int)
    ensures
        wall < 0 ==> unix_ms(wall) == 0,
        wall >= 0 && unix_ms(wall) < u64::MAX ==> unix_ms(wall) * 1_000_000 <= wall < (unix_ms(wall)
            + 1) * 1_000_000,
{
}

} // verus!
