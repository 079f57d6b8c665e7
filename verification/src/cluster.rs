//! A whole cluster over time: several nodes, one table of records, and on every
//! node clocks of its own. What each node does alone is in `lease`; here is what
//! follows for all of them together.
use vstd::prelude::*;

use crate::assign;
use crate::event::VenueId;
use crate::lease;
use crate::lease::{Lease, LeaseConfig, LeaseState, RoundTrip};
use crate::registry;
use crate::registry::LeaseTable;
use crate::stream;
use crate::stream::StreamId;
use crate::time;
use crate::time::IngestTime;

verus! {

/// The clocks of one machine, by the time that really passes, in nanoseconds.
pub struct NodeClock {
    pub mono: spec_fn(nat) -> nat,
    pub wall: spec_fn(nat) -> int,
}

/// A cluster at one moment.
pub struct Cluster {
    /// The real time, which no node can read.
    pub time: nat,
    /// The records that every node reads.
    pub table: LeaseTable,
    /// What each node knows and holds.
    pub nodes: Seq<LeaseState>,
    /// When each node last took a pass, in real time.
    pub passed: Seq<nat>,
}

/// What every node is given: the timings, the streams of the cluster, a name of
/// its own, and clocks of its own with a bound on how far they are off.
pub struct Plan {
    pub config: LeaseConfig,
    pub names: Seq<Seq<char>>,
    pub streams: Seq<StreamId>,
    pub clocks: Seq<NodeClock>,
    /// How far a monotonic clock gains or loses while a node serves its notice.
    pub drift: nat,
    /// How far one node's wall clock gains on another's within a lifetime, what
    /// they were apart at its start included.
    pub skew: nat,
}

impl Plan {
    pub open spec fn mono(self, k: int, at: nat) -> nat {
        (self.clocks[k].mono)(at)
    }

    pub open spec fn wall(self, k: int, at: nat) -> int {
        (self.clocks[k].wall)(at)
    }

    /// The whole milliseconds of the time to live, in nanoseconds: what a record
    /// carries.
    pub open spec fn lifetime(self) -> nat {
        self.config.ttl@ / 1_000_000 * 1_000_000
    }

    /// The settling period.
    pub open spec fn notice(self) -> nat {
        self.config.ttl@ + self.config.guard@
    }

    /// How much of the guard is used up by clocks, and by the fraction of a
    /// millisecond that a record does not carry.
    pub open spec fn disagreement(self) -> nat {
        self.config.ttl@ % 1_000_000 + self.drift + self.skew
    }

    /// No monotonic clock goes back, or is off by more than the drift while a
    /// notice is served; no wall clock gains more than the skew on another within
    /// a lifetime. A wall clock may be set back.
    pub open spec fn keeps_time(self) -> bool {
        &&& forall|k: int, from: nat, to: nat|
            0 <= k < self.names.len() && from <= to ==> #[trigger] self.mono(k, from)
                <= #[trigger] self.mono(k, to)
        &&& forall|k: int, from: nat, to: nat|
            0 <= k < self.names.len() && from <= to <= from + self.notice() ==> to - from
                <= #[trigger] self.mono(k, to) - #[trigger] self.mono(k, from) + self.drift
                && self.mono(k, to) - self.mono(k, from) <= to - from + self.drift
        &&& forall|a: int, b: int, from: nat, to: nat|
            0 <= a < self.names.len() && 0 <= b < self.names.len() && from <= to <= from
                + self.lifetime() ==> #[trigger] self.wall(a, to) - #[trigger] self.wall(b, from)
                <= to - from + self.skew
    }

    /// No two nodes have one name, the settling period can be measured, and the
    /// guard covers what the clocks are off by.
    pub open spec fn valid(self) -> bool {
        &&& self.keeps_time()
        &&& self.disagreement() <= self.config.guard@
        &&& self.drift < self.config.guard@
        &&& self.notice() <= time::DURATION_LIMIT
        &&& forall|a: int, b: int|
            0 <= a < b < self.names.len() ==> #[trigger] self.names[a] != #[trigger] self.names[b]
    }
}

/// The record that a node writes.
pub open spec fn record_of(plan: Plan, k: int, at: nat) -> (Seq<char>, u64, u64) {
    (
        plan.names[k],
        lease::unix_ms(plan.wall(k, at)) as u64,
        time::min_nat(plan.config.ttl@ / 1_000_000, u64::MAX as nat) as u64,
    )
}

/// Whether nothing happened but that time went on.
pub open spec fn waits(before: Cluster, after: Cluster) -> bool {
    &&& before.time <= after.time
    &&& after.table == before.table
    &&& after.nodes == before.nodes
    &&& after.passed == before.passed
}

/// Whether a round trip is what the shared table gives: a write that fails leaves
/// the table alone, and a read gives all its records.
pub open spec fn reached(
    before: LeaseTable,
    record: (Seq<char>, u64, u64),
    round_trip: RoundTrip,
    after: LeaseTable,
) -> bool {
    match round_trip {
        RoundTrip::NotAnnounced => after.records() == before.records(),
        RoundTrip::NotRead => after.records() == before.records().insert(record.0, record),
        RoundTrip::Complete(leases) => {
            &&& after.records() == before.records().insert(record.0, record)
            &&& registry::lists_records(leases@, after)
        },
    }
}

/// Whether one node took one pass by its own clocks, and no other node did
/// anything.
pub open spec fn passes(
    before: Cluster,
    after: Cluster,
    plan: Plan,
    k: int,
    now: IngestTime,
    round_trip: RoundTrip,
) -> bool {
    &&& before.time <= after.time
    &&& 0 <= k < before.nodes.len()
    &&& now.mono_nanos() == plan.mono(k, after.time)
    &&& now.wall_nanos() == plan.wall(k, after.time)
    &&& after.nodes == before.nodes.update(k, after.nodes[k])
    &&& after.passed == before.passed.update(k, after.time)
    &&& reached(before.table, record_of(plan, k, after.time), round_trip, after.table)
    &&& lease::stepped(
        before.nodes[k],
        round_trip,
        now,
        plan.config,
        plan.names[k],
        plan.streams,
        after.nodes[k],
    )
}

/// Whether a node knows no one and holds nothing.
pub open spec fn fresh(state: LeaseState) -> bool {
    state.contact() is None && state.held().len() == 0
}

/// Whether one node stopped or started again. It may have withdrawn its record.
pub open spec fn restarts(before: Cluster, after: Cluster, plan: Plan, k: int) -> bool {
    &&& before.time <= after.time
    &&& 0 <= k < before.nodes.len()
    &&& after.nodes == before.nodes.update(k, after.nodes[k])
    &&& fresh(after.nodes[k])
    &&& after.passed == before.passed
    &&& after.table.records() == before.table.records() || after.table.records()
        == before.table.records().remove(plan.names[k])
}

/// Whether one thing happened in a cluster.
pub open spec fn moves(before: Cluster, after: Cluster, plan: Plan) -> bool {
    ||| waits(before, after)
    ||| exists|k: int, now: IngestTime, round_trip: RoundTrip|
        passes(before, after, plan, k, now, round_trip)
    ||| exists|k: int| restarts(before, after, plan, k)
}

/// Whether a cluster starts: every node is fresh. Old records may be about.
pub open spec fn starts(c: Cluster, plan: Plan) -> bool {
    &&& c.nodes.len() == plan.names.len()
    &&& c.passed.len() == plan.names.len()
    &&& forall|k: int| 0 <= k < c.nodes.len() ==> fresh(#[trigger] c.nodes[k])
    &&& forall|k: int| 0 <= k < c.passed.len() ==> #[trigger] c.passed[k] <= c.time
}

/// Whether a history is that of a cluster.
pub open spec fn unfolds(history: Seq<Cluster>, plan: Plan) -> bool {
    &&& history.len() > 0
    &&& starts(history[0], plan)
    &&& forall|i: int|
        0 < i < history.len() ==> moves(history[i - 1], #[trigger] history[i], plan)
}

/// Whether every holder passes often enough: its last pass is no further back
/// than what the clocks leave of the guard, or by its own clock its record at
/// least cannot have expired for anyone yet.
pub open spec fn timely(c: Cluster, plan: Plan) -> bool {
    forall|k: int|
        0 <= k < c.nodes.len() && (#[trigger] c.nodes[k]).held().len() > 0 ==> {
            ||| c.time - c.passed[k] + plan.disagreement() <= plan.config.guard@
            ||| c.nodes[k].contact() matches Some(at) && plan.mono(k, c.time) + plan.drift
                + plan.skew <= at + plan.lifetime()
        }
}

/// When things last happened to nodes, in real time: their last complete round
/// trips, the starts of their notices, and their last records.
struct Notes {
    contacted: Seq<nat>,
    noticed: Seq<nat>,
    announced: Seq<nat>,
}

/// What a node's own state and record are bound by.
spec fn node_sound(c: Cluster, plan: Plan, notes: Notes, k: int) -> bool {
    let state = c.nodes[k];
    let records = c.table.records();
    let name = plan.names[k];
    &&& c.passed[k] <= c.time
    &&& state.contact() matches Some(at) ==> {
        &&& at == plan.mono(k, notes.contacted[k])
        &&& notes.contacted[k] <= notes.announced[k] <= c.time
        &&& notes.contacted[k] <= c.passed[k]
        &&& state.notice_from() == plan.mono(k, notes.noticed[k])
        &&& notes.noticed[k] <= c.passed[k]
        &&& records.contains_key(name)
        &&& records[name] == record_of(plan, k, notes.announced[k])
    }
    &&& state.held().len() > 0 ==> {
        &&& state.contact() matches Some(at) && plan.mono(k, c.passed[k]) - at
            < plan.config.hold_nanos()
        &&& plan.mono(k, c.passed[k]) - state.notice_from() >= plan.config.settle_nanos()
        &&& forall|s: (VenueId, Seq<char>)|
            #[trigger] stream::lists(state.held(), s) ==> assign::assigned(
                plan.names[k],
                plan.streams,
                assign::names(state.known_members()),
                s,
            )
    }
}

/// What one node knows of another: it read the records before the other's notice
/// began, or it counts the other in, or the other's last contact had expired.
spec fn pair_sound(c: Cluster, plan: Plan, notes: Notes, a: int, b: int) -> bool {
    c.nodes[a].contact() is Some && c.nodes[b].contact() is Some ==> {
        ||| notes.contacted[a] <= notes.noticed[b]
        ||| assign::names(c.nodes[a].known_members()).contains(plan.names[b])
        ||| notes.contacted[a] + plan.skew > notes.contacted[b] + plan.lifetime()
    }
}

spec fn sound_by(c: Cluster, plan: Plan, notes: Notes) -> bool {
    &&& c.nodes.len() == plan.names.len()
    &&& c.passed.len() == plan.names.len()
    &&& notes.contacted.len() == plan.names.len()
    &&& notes.noticed.len() == plan.names.len()
    &&& notes.announced.len() == plan.names.len()
    &&& forall|k: int| 0 <= k < plan.names.len() ==> #[trigger] node_sound(c, plan, notes, k)
    &&& forall|a: int, b: int|
        0 <= a < plan.names.len() && 0 <= b < plan.names.len() && a != b ==> #[trigger] pair_sound(
            c,
            plan,
            notes,
            a,
            b,
        )
}

spec fn sound(c: Cluster, plan: Plan) -> bool {
    exists|notes: Notes| sound_by(c, plan, notes)
}

/// A record that has expired was written longer ago than its time to live.
proof fn lemma_expired_means_old(lease: Lease, ttl: nat, written: int, wall: int)
    requires
        lease.written_at_unix_ms >= lease::unix_ms(written),
        lease.ttl_ms == time::min_nat(ttl / 1_000_000, u64::MAX as nat),
        lease::expired(lease, wall),
    ensures
        wall > written + ttl / 1_000_000 * 1_000_000,
{
}

/// A monotonic clock shows at least the real time that passed, less the drift, up
/// to the length of a notice.
proof fn lemma_clock_shows(plan: Plan, k: int, from: nat, to: nat)
    requires
        plan.keeps_time(),
        0 <= k < plan.names.len(),
        from <= to,
    ensures
        plan.mono(k, from) <= plan.mono(k, to),
        to <= from + plan.notice() ==> to - from <= plan.mono(k, to) - plan.mono(k, from)
            + plan.drift && plan.mono(k, to) - plan.mono(k, from) <= to - from + plan.drift,
        to > from + plan.notice() ==> plan.notice() <= plan.mono(k, to) - plan.mono(k, from)
            + plan.drift,
{
    if to > from + plan.notice() {
        let mid = (from + plan.notice()) as nat;
        assert(plan.mono(k, mid) <= plan.mono(k, to));
        assert(mid - from <= plan.mono(k, mid) - plan.mono(k, from) + plan.drift);
    }
}

proof fn lemma_restart_keeps_soundness(
    before: Cluster,
    after: Cluster,
    plan: Plan,
    notes: Notes,
    k: int,
)
    requires
        plan.valid(),
        sound_by(before, plan, notes),
        restarts(before, after, plan, k),
    ensures
        sound_by(after, plan, notes),
{
    assert forall|j: int| 0 <= j < plan.names.len() implies #[trigger] node_sound(
        after,
        plan,
        notes,
        j,
    ) by {
        assert(node_sound(before, plan, notes, j));
        if j < k {
            assert(plan.names[j] != plan.names[k]);
        } else if k < j {
            assert(plan.names[k] != plan.names[j]);
        }
    }
    assert forall|a: int, b: int|
        0 <= a < plan.names.len() && 0 <= b < plan.names.len() && a
            != b implies #[trigger] pair_sound(after, plan, notes, a, b) by {
        assert(pair_sound(before, plan, notes, a, b));
    }
}

/// The notes after a pass: a record was written unless announcing failed, contact
/// was made where the round trip is complete, and the notice began anew where
/// contact had been lost or is lost.
spec fn noted_pass(
    before: Cluster,
    after: Cluster,
    plan: Plan,
    notes: Notes,
    k: int,
    round_trip: RoundTrip,
) -> Notes {
    let contact = before.nodes[k].contact();
    Notes {
        contacted: if round_trip is Complete {
            notes.contacted.update(k, after.time)
        } else {
            notes.contacted
        },
        noticed: if contact is None || lease::lapsed(
            contact,
            plan.mono(k, after.time),
            plan.config,
        ) {
            notes.noticed.update(k, after.time)
        } else {
            notes.noticed
        },
        announced: if round_trip is NotAnnounced {
            notes.announced
        } else {
            notes.announced.update(k, after.time)
        },
    }
}

proof fn lemma_pass_keeps_nodes_sound(
    before: Cluster,
    after: Cluster,
    plan: Plan,
    notes: Notes,
    k: int,
    now: IngestTime,
    round_trip: RoundTrip,
    j: int,
)
    requires
        plan.valid(),
        sound_by(before, plan, notes),
        passes(before, after, plan, k, now, round_trip),
        0 <= j < plan.names.len(),
    ensures
        node_sound(after, plan, noted_pass(before, after, plan, notes, k, round_trip), j),
{
    assert(node_sound(before, plan, notes, j));
    if j < k {
        assert(plan.names[j] != plan.names[k]);
    } else if k < j {
        assert(plan.names[k] != plan.names[j]);
    } else {
        let state = before.nodes[k];
        if state.contact() is Some {
            lemma_clock_shows(plan, k, notes.contacted[k], after.time);
            lemma_clock_shows(plan, k, notes.noticed[k], after.time);
        }
    }
}

/// A node whose record had expired for another holds nothing past its next pass:
/// by its own clock its contact is too old.
proof fn lemma_expired_node_has_lapsed(plan: Plan, b: int, contacted: nat, at: nat)
    requires
        plan.valid(),
        0 <= b < plan.names.len(),
        at + plan.skew > contacted + plan.lifetime(),
        contacted <= at,
    ensures
        lease::lapsed(Some(plan.mono(b, contacted)), plan.mono(b, at), plan.config),
{
    lemma_clock_shows(plan, b, contacted, at);
}

proof fn lemma_pass_keeps_pairs_sound(
    before: Cluster,
    after: Cluster,
    plan: Plan,
    notes: Notes,
    k: int,
    now: IngestTime,
    round_trip: RoundTrip,
    a: int,
    b: int,
)
    requires
        plan.valid(),
        sound_by(before, plan, notes),
        passes(before, after, plan, k, now, round_trip),
        0 <= a < plan.names.len(),
        0 <= b < plan.names.len(),
        a != b,
    ensures
        pair_sound(after, plan, noted_pass(before, after, plan, notes, k, round_trip), a, b),
{
    assert(pair_sound(before, plan, notes, a, b));
    assert(node_sound(before, plan, notes, a));
    assert(node_sound(before, plan, notes, b));
    if a < b {
        assert(plan.names[a] != plan.names[b]);
    } else {
        assert(plan.names[b] != plan.names[a]);
    }
    if k == a {
        match round_trip {
            RoundTrip::Complete(leases) => {
                if after.nodes[b].contact() is Some {
                    let written = notes.announced[b];
                    let records = after.table.records();
                    assert(records.contains_key(plan.names[b]));
                    let i = choose|i: int|
                        0 <= i < leases@.len() && (#[trigger] leases@[i]).node@ == plan.names[b];
                    if lease::expired(leases@[i], now.wall_nanos()) {
                        lemma_expired_means_old(
                            leases@[i],
                            plan.config.ttl@,
                            plan.wall(b, written),
                            now.wall_nanos(),
                        );
                        if after.time <= written + plan.lifetime() {
                            assert(plan.wall(a, after.time) - plan.wall(b, written) <= after.time
                                - written + plan.skew);
                        }
                    } else {
                        assert(lease::has_live_record(
                            leases@,
                            now.wall_nanos(),
                            plan.names[b],
                        ));
                    }
                }
            },
            _ => {},
        }
    } else if k == b && before.nodes[a].contact() is Some && before.nodes[b].contact() is Some {
        if notes.contacted[a] + plan.skew > notes.contacted[b] + plan.lifetime() {
            lemma_expired_node_has_lapsed(plan, b, notes.contacted[b], after.time);
        }
    }
}

proof fn lemma_moves_keep_soundness(before: Cluster, after: Cluster, plan: Plan)
    requires
        plan.valid(),
        sound(before, plan),
        moves(before, after, plan),
    ensures
        sound(after, plan),
{
    let notes = choose|notes: Notes| sound_by(before, plan, notes);
    if waits(before, after) {
        assert forall|j: int| 0 <= j < plan.names.len() implies #[trigger] node_sound(
            after,
            plan,
            notes,
            j,
        ) by {
            assert(node_sound(before, plan, notes, j));
        }
        assert forall|a: int, b: int|
            0 <= a < plan.names.len() && 0 <= b < plan.names.len() && a
                != b implies #[trigger] pair_sound(after, plan, notes, a, b) by {
            assert(pair_sound(before, plan, notes, a, b));
        }
        assert(sound_by(after, plan, notes));
    } else if exists|k: int| restarts(before, after, plan, k) {
        lemma_restart_keeps_soundness(
            before,
            after,
            plan,
            notes,
            choose|k: int| restarts(before, after, plan, k),
        );
    } else {
        let (k, now, round_trip) = choose|k: int, now: IngestTime, round_trip: RoundTrip|
            passes(before, after, plan, k, now, round_trip);
        let noted = noted_pass(before, after, plan, notes, k, round_trip);
        assert forall|j: int| 0 <= j < plan.names.len() implies #[trigger] node_sound(
            after,
            plan,
            noted,
            j,
        ) by {
            lemma_pass_keeps_nodes_sound(before, after, plan, notes, k, now, round_trip, j);
        }
        assert forall|a: int, b: int|
            0 <= a < plan.names.len() && 0 <= b < plan.names.len() && a
                != b implies #[trigger] pair_sound(after, plan, noted, a, b) by {
            lemma_pass_keeps_pairs_sound(before, after, plan, notes, k, now, round_trip, a, b);
        }
        assert(sound_by(after, plan, noted));
    }
}

proof fn lemma_history_is_sound(history: Seq<Cluster>, plan: Plan, i: int)
    requires
        plan.valid(),
        unfolds(history, plan),
        0 <= i < history.len(),
    ensures
        sound(history[i], plan),
    decreases i,
{
    if i == 0 {
        let zeros = Seq::new(plan.names.len(), |k: int| 0nat);
        let notes = Notes { contacted: zeros, noticed: zeros, announced: zeros };
        assert forall|j: int| 0 <= j < plan.names.len() implies #[trigger] node_sound(
            history[0],
            plan,
            notes,
            j,
        ) by {
            assert(fresh(history[0].nodes[j]));
        }
        assert forall|a: int, b: int|
            0 <= a < plan.names.len() && 0 <= b < plan.names.len() && a
                != b implies #[trigger] pair_sound(history[0], plan, notes, a, b) by {
            assert(fresh(history[0].nodes[a]));
        }
        assert(sound_by(history[0], plan, notes));
    } else {
        lemma_history_is_sound(history, plan, i - 1);
        lemma_moves_keep_soundness(history[i - 1], history[i], plan);
    }
}

/// A holder's contact is no older than its record's lifetime, less what the wall
/// clocks may be apart.
proof fn lemma_holder_is_recent(c: Cluster, plan: Plan, notes: Notes, k: int)
    requires
        plan.valid(),
        sound_by(c, plan, notes),
        timely(c, plan),
        0 <= k < plan.names.len(),
        c.nodes[k].held().len() > 0,
    ensures
        c.nodes[k].contact() is Some,
        c.time + plan.skew <= notes.contacted[k] + plan.lifetime(),
        notes.noticed[k] + plan.notice() <= c.time + plan.drift,
{
    assert(node_sound(c, plan, notes, k));
    let contacted = notes.contacted[k];
    lemma_clock_shows(plan, k, contacted, c.passed[k]);
    lemma_clock_shows(plan, k, contacted, c.time);
    lemma_clock_shows(plan, k, notes.noticed[k], c.passed[k]);
}

/// Where two nodes hold something, each counts the other in: no timing allows
/// anything else.
proof fn lemma_holders_know_each_other(c: Cluster, plan: Plan, notes: Notes, a: int, b: int)
    requires
        plan.valid(),
        sound_by(c, plan, notes),
        timely(c, plan),
        0 <= a < plan.names.len(),
        0 <= b < plan.names.len(),
        a != b,
        c.nodes[a].held().len() > 0,
        c.nodes[b].held().len() > 0,
    ensures
        assign::names(c.nodes[a].known_members()).contains(plan.names[b]),
{
    assert(node_sound(c, plan, notes, a));
    assert(node_sound(c, plan, notes, b));
    assert(pair_sound(c, plan, notes, a, b));
    lemma_holder_is_recent(c, plan, notes, a);
    lemma_holder_is_recent(c, plan, notes, b);
}

/// At most one node holds a stream at a time. Whatever nodes of one cluster do, in
/// whatever order, and whichever of their writes and reads fail: as long as the
/// guard covers what their clocks are off by and how late they are, no two of them
/// hold one stream. Each node goes by clocks of its own. Nodes may join, fall
/// silent, come back, stop and start again.
pub proof fn law_no_two_nodes_hold_one_stream(
    history: Seq<Cluster>,
    plan: Plan,
    i: int,
    a: int,
    b: int,
    s: (VenueId, Seq<char>),
)
    requires
        plan.valid(),
        unfolds(history, plan),
        0 <= i < history.len(),
        timely(history[i], plan),
        0 <= a < plan.names.len(),
        0 <= b < plan.names.len(),
        a != b,
    ensures
        !(stream::lists(history[i].nodes[a].held(), s) && stream::lists(
            history[i].nodes[b].held(),
            s,
        )),
{
    let c = history[i];
    lemma_history_is_sound(history, plan, i);
    let notes = choose|notes: Notes| sound_by(c, plan, notes);
    if stream::lists(c.nodes[a].held(), s) && stream::lists(c.nodes[b].held(), s) {
        lemma_holders_know_each_other(c, plan, notes, a, b);
        lemma_holders_know_each_other(c, plan, notes, b, a);
        assert(node_sound(c, plan, notes, a));
        assert(node_sound(c, plan, notes, b));
        let known_to_a = assign::names(c.nodes[a].known_members());
        let known_to_b = assign::names(c.nodes[b].known_members());
        assign::law_owner_beats_everyone(s, known_to_a);
        assign::law_owner_beats_everyone(s, known_to_b);
        assign::lemma_beats_is_total(s, plan.names[a], plan.names[b], plan.names[a]);
        assert(known_to_a.contains(plan.names[b]));
        assert(known_to_b.contains(plan.names[a]));
        if a < b {
            assert(plan.names[a] != plan.names[b]);
        } else {
            assert(plan.names[b] != plan.names[a]);
        }
    }
}

/// Whether all nodes of a plan go by one clock.
pub open spec fn one_clock(plan: Plan, offset: int) -> bool {
    &&& forall|k: int, at: nat|
        0 <= k < plan.names.len() ==> #[trigger] plan.mono(k, at) == at
    &&& forall|k: int, at: nat|
        0 <= k < plan.names.len() ==> #[trigger] plan.wall(k, at) == at + offset
}

/// Nodes that go by one clock keep time with nothing to allow for.
pub proof fn law_one_clock_keeps_time(plan: Plan, offset: int)
    requires
        one_clock(plan, offset),
    ensures
        plan.keeps_time(),
{
}

} // verus!
