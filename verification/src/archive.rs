//! A whole archive: what writers put away is what a reader gives back.
//!
//! What a writer and a reader do one step at a time is in `writer` and `reader`;
//! here is what follows for all the steps of several runs of a writer, one after
//! another over one store, and of a reading of what they left there.
use vstd::prelude::*;

use crate::columnar;
use crate::decode;
use crate::decode::StoredView;
use crate::keys;
use crate::reader;
use crate::reader::CursorView;
use crate::record;
use crate::record::EventView;
use crate::text;
use crate::time::clamped_nanos;
use crate::writer;
use crate::writer::{FinishedFile, OpenView, WriterView};

verus! {

/// An event that a writer was given: in which key namespace, and where among all
/// events its run began.
pub struct Given {
    pub event: EventView,
    pub prefix: Seq<char>,
    pub first: nat,
}

impl Given {
    /// The partition that the event goes to, as a reader knows it.
    pub open spec fn root(self) -> Seq<char> {
        keys::partition_root(self.prefix, writer::partition(self.event))
    }
}

/// A file that was stored, and the events that its run put into it, each under
/// its number.
pub struct Kept {
    pub bytes: Seq<u8>,
    pub entries: Seq<(EventView, i64)>,
    pub prefix: Seq<char>,
    pub first: nat,
}

/// A writer, what is in its store, and the events that were given to it and to
/// those of the runs before it.
pub struct Archive {
    pub writer: WriterView,
    pub store: Map<Seq<char>, Kept>,
    pub given: Seq<Given>,
    /// How many events the runs before this one were given.
    pub first: nat,
}

/// Whether two writers differ in their counters at most.
pub open spec fn alike(a: WriterView, b: WriterView) -> bool {
    a == (WriterView { counters: a.counters, ..b })
}

/// Whether a partition's file was finished and stored under its key.
pub open spec fn puts_away(a: Archive, b: Archive, p: Seq<char>) -> bool {
    &&& a.writer.open.contains_key(p)
    &&& a.writer.base is Some
    &&& b.given == a.given
    &&& b.first == a.first
    &&& alike(b.writer, writer::without_file(a.writer, p))
    &&& exists|f: FinishedFile|
        #[trigger] f.holds(a.writer.open[p], a.writer.base->0) && b.store == a.store.insert(
            f.name(),
            Kept {
                bytes: f.contents(),
                entries: a.writer.open[p].entries,
                prefix: a.writer.prefix,
                first: a.first,
            },
        )
}

/// Whether a directory was listed for an event, and the number of its next part
/// noted. A listing shows every key below the directory.
pub open spec fn lists_directory(
    a: Archive,
    b: Archive,
    e: EventView,
    existing: Seq<String>,
) -> bool {
    let w = writer::started(a.writer, e);
    let dir = writer::directory(w, e);
    &&& writer::listing_due(a.writer, e)
    &&& forall|k: Seq<char>| #[trigger]
        a.store.contains_key(k) && text::begins(k, dir) ==> exists|i: int|
            0 <= i < existing.len() && (#[trigger] existing[i])@ == k
    &&& b.given == a.given
    &&& b.first == a.first
    &&& b.store == a.store
    &&& alike(
        b.writer,
        WriterView { parts: w.parts.insert(dir, keys::next_number(existing) as u64), ..w },
    )
}

/// Whether an event was put into its file, and no flush failed.
pub open spec fn puts_in(a: Archive, b: Archive, e: EventView) -> bool {
    &&& !writer::roll_due(a.writer, e)
    &&& !writer::listing_due(a.writer, e)
    &&& writer::has_room(a.writer, e)
    &&& writer::appends(a.writer, e)
    &&& alike(b.writer, writer::appended(a.writer, e))
    &&& b.store == a.store
    &&& b.first == a.first
    &&& b.given == a.given.push(Given { event: e, prefix: a.writer.prefix, first: a.first })
}

/// Whether an event was archived by way of two states: the file that it rolls was
/// stored, its directory was listed where that was due, and the event was put into
/// its file.
pub open spec fn takes_in(
    a: Archive,
    rolled: Archive,
    listed: Archive,
    b: Archive,
    e: EventView,
) -> bool {
    &&& if writer::roll_due(a.writer, e) {
        puts_away(a, rolled, writer::partition(e))
    } else {
        rolled == a
    }
    &&& if writer::listing_due(rolled.writer, e) {
        exists|existing: Seq<String>| lists_directory(rolled, listed, e, existing)
    } else {
        listed == rolled
    }
    &&& puts_in(listed, b, e)
}

/// Whether a writer is a new one.
pub open spec fn is_new(w: WriterView) -> bool {
    &&& w.base is None
    &&& w.event_seq == 0
    &&& w.open == Map::<Seq<char>, OpenView>::empty()
    &&& w.parts == Map::<Seq<char>, u64>::empty()
}

/// Whether a run was closed and another begins over the same store, in whatever
/// key namespace.
pub open spec fn runs_again(a: Archive, b: Archive) -> bool {
    &&& a.writer.open == Map::<Seq<char>, OpenView>::empty()
    &&& is_new(b.writer)
    &&& b.store == a.store
    &&& b.given == a.given
    &&& b.first == a.given.len()
}

/// Whether one thing happened in an archive: an event was archived, a partition's
/// file was closed, or another run began.
pub open spec fn goes_on(a: Archive, b: Archive) -> bool {
    ||| exists|rolled: Archive, listed: Archive, e: EventView| takes_in(a, rolled, listed, b, e)
    ||| exists|p: Seq<char>| puts_away(a, b, p)
    ||| runs_again(a, b)
}

/// Whether an archive is a new one: a new writer over an empty store.
pub open spec fn begins(a: Archive) -> bool {
    &&& is_new(a.writer)
    &&& a.store == Map::<Seq<char>, Kept>::empty()
    &&& a.given == Seq::<Given>::empty()
    &&& a.first == 0
}

/// Whether no partition's hours go back, no stamp is past the last that a column
/// can hold, and no hour has more parts than five digits can number.
pub open spec fn orderly(a: Archive) -> bool {
    &&& forall|i: int|
        0 <= i < a.given.len() ==> (#[trigger] a.given[i]).event.wall <= keys::LAST_WALL
    &&& forall|i: int, j: int|
        0 <= i < j < a.given.len() && (#[trigger] a.given[i]).root() == (
        #[trigger] a.given[j]).root() ==> keys::hour_of(a.given[i].event.wall) <= keys::hour_of(
            a.given[j].event.wall,
        )
    &&& forall|d: Seq<char>|
        #[trigger] a.writer.parts.contains_key(d) ==> a.writer.parts[d] <= 100_000
}

/// Whether a history is that of an archive.
pub open spec fn unfolds(history: Seq<Archive>) -> bool {
    &&& history.len() > 0
    &&& begins(history[0])
    &&& forall|i: int| 0 < i < history.len() ==> goes_on(history[i - 1], #[trigger] history[i])
    &&& forall|i: int| 0 <= i < history.len() ==> orderly(#[trigger] history[i])
}

/// The partition of a file, as a reader knows it: that of its first event.
spec fn home(prefix: Seq<char>, entries: Seq<(EventView, i64)>) -> Seq<char> {
    keys::partition_root(prefix, writer::partition(entries[0].0))
}

/// The partition of a stored file.
spec fn home_of(a: Archive, k: Seq<char>) -> Seq<char> {
    home(a.store[k].prefix, a.store[k].entries)
}

/// The directory of a file: that of its first event.
spec fn shelf(prefix: Seq<char>, entries: Seq<(EventView, i64)>) -> Seq<char> {
    keys::dir_text(prefix, writer::partition(entries[0].0), entries[0].0.wall)
}

/// Whether an event of a file is the one that its number says, in the file's
/// partition.
spec fn entry_sound(
    a: Archive,
    prefix: Seq<char>,
    first: nat,
    root: Seq<char>,
    entry: (EventView, i64),
) -> bool {
    &&& 1 <= entry.1
    &&& first + entry.1 <= a.given.len()
    &&& a.given[first + entry.1 - 1] == (Given { event: entry.0, prefix, first })
    &&& keys::partition_root(prefix, writer::partition(entry.0)) == root
}

/// Whether a file stands under the key of the part that it is, and holds events of
/// one partition by rising numbers.
spec fn file_sound(
    a: Archive,
    prefix: Seq<char>,
    first: nat,
    key: Seq<char>,
    entries: Seq<(EventView, i64)>,
) -> bool {
    &&& entries.len() > 0
    &&& keys::part_number(key) is Some
    &&& keys::part_number(key)->0 < 100_000
    &&& key == keys::part_text(shelf(prefix, entries), keys::part_number(key)->0)
    &&& forall|j: int|
        0 <= j < entries.len() ==> entry_sound(
            a,
            prefix,
            first,
            home(prefix, entries),
            #[trigger] entries[j],
        )
    &&& forall|j: int, k: int|
        0 <= j < k < entries.len() ==> (#[trigger] entries[j]).1 < (#[trigger] entries[k]).1
}

/// Where among all events the last one of a stored file stands.
spec fn last_of(a: Archive, k: Seq<char>) -> int {
    a.store[k].first + a.store[k].entries.last().1 - 1
}

/// Where among all events the first one of a stored file stands.
spec fn first_of(a: Archive, k: Seq<char>) -> int {
    a.store[k].first + a.store[k].entries[0].1 - 1
}

/// Whether a partition's open file is sound, its number is taken, and it comes
/// after all that were stored.
spec fn open_sound(a: Archive, p: Seq<char>) -> bool {
    let file = a.writer.open[p];
    let dir = shelf(a.writer.prefix, file.entries);
    &&& file_sound(a, a.writer.prefix, a.first, file.key, file.entries)
    &&& writer::partition(file.entries[0].0) == p
    &&& file.intact
    &&& a.writer.parts.contains_key(dir)
    &&& keys::part_number(file.key)->0 < a.writer.parts[dir]
    &&& forall|k: Seq<char>|
        #[trigger] a.store.contains_key(k) && home_of(a, k) == home(a.writer.prefix, file.entries)
            ==> text::text_before(k, file.key) && last_of(a, k) < a.first + file.entries[0].1 - 1
}

/// Whether a stored file is sound, its number is taken, and its bytes hold its
/// events.
spec fn kept_sound(a: Archive, k: Seq<char>) -> bool {
    let kept = a.store[k];
    let dir = shelf(kept.prefix, kept.entries);
    let base = a.given[kept.first as int].event.mono;
    &&& file_sound(a, kept.prefix, kept.first, k, kept.entries)
    &&& a.writer.parts.contains_key(dir) ==> keys::part_number(k)->0 < a.writer.parts[dir]
    &&& decode::archivable(kept.entries)
    &&& record::readable(decode::archive_rows(kept.entries, base)) ==> decode::holds_archive(
        columnar::file_contents(kept.bytes),
        kept.entries,
        base,
    )
}

/// Whether of two stored files of one partition the one with the earlier key has
/// the earlier events.
spec fn in_key_order(a: Archive, k: Seq<char>, l: Seq<char>) -> bool {
    home_of(a, k) == home_of(a, l) && text::text_before(k, l) ==> last_of(a, k) < first_of(a, l)
}

/// Whether a file of a run has an event.
pub open spec fn has_event(
    a: Archive,
    first: nat,
    entries: Seq<(EventView, i64)>,
    g: int,
) -> bool {
    a.given[g].first == first && entries.contains((a.given[g].event, (g - first + 1) as i64))
}

/// Whether an event is in the open file of its partition, or in a stored one.
spec fn archived(a: Archive, g: int) -> bool {
    let p = writer::partition(a.given[g].event);
    ||| a.writer.open.contains_key(p) && has_event(a, a.first, a.writer.open[p].entries, g)
    ||| exists|k: Seq<char>| #[trigger]
        a.store.contains_key(k) && has_event(a, a.store[k].first, a.store[k].entries, g)
}

/// What holds of an archive all along.
spec fn sound(a: Archive) -> bool {
    &&& a.first <= a.given.len()
    &&& a.writer.event_seq == a.given.len() - a.first
    &&& a.given.len() - a.first <= i64::MAX
    &&& a.given.len() > a.first ==> a.writer.base == Some(a.given[a.first as int].event.mono)
    &&& forall|g: int|
        0 <= g < a.given.len() ==> (#[trigger] a.given[g]).first <= g < a.given[g].first + i64::MAX
    &&& forall|p: Seq<char>| #[trigger] a.writer.open.contains_key(p) ==> open_sound(a, p)
    &&& forall|k: Seq<char>| #[trigger] a.store.contains_key(k) ==> kept_sound(a, k)
    &&& forall|k: Seq<char>, l: Seq<char>| #[trigger]
        a.store.contains_key(k) && #[trigger] a.store.contains_key(l) ==> in_key_order(a, k, l)
    &&& forall|g: int| 0 <= g < a.given.len() ==> #[trigger] archived(a, g)
}

/// A sound file's key belongs to its partition.
proof fn lemma_key_of_partition(
    a: Archive,
    prefix: Seq<char>,
    first: nat,
    key: Seq<char>,
    entries: Seq<(EventView, i64)>,
)
    requires
        orderly(a),
        file_sound(a, prefix, first, key, entries),
    ensures
        keys::partition_in(key) == home(prefix, entries),
        text::ends(key, ".parquet"@),
        entries[0].0.wall <= keys::LAST_WALL,
        first < a.given.len(),
{
    assert(entry_sound(a, prefix, first, home(prefix, entries), entries[0]));
    assert(a.given[first + entries[0].1 - 1].event == entries[0].0);
    keys::law_a_part_key_has_its_partition(
        prefix,
        writer::partition(entries[0].0),
        entries[0].0.wall,
        keys::part_number(key)->0,
    );
}

/// A file stays sound while events are added.
proof fn lemma_file_stays_sound(
    a: Archive,
    b: Archive,
    prefix: Seq<char>,
    first: nat,
    key: Seq<char>,
    entries: Seq<(EventView, i64)>,
)
    requires
        file_sound(a, prefix, first, key, entries),
        a.given.len() <= b.given.len(),
        forall|i: int| 0 <= i < a.given.len() ==> #[trigger] b.given[i] == a.given[i],
    ensures
        file_sound(b, prefix, first, key, entries),
        b.given[first as int] == a.given[first as int],
{
    let root = home(prefix, entries);
    assert(entry_sound(a, prefix, first, root, entries[0]));
    assert forall|j: int| 0 <= j < entries.len() implies entry_sound(
        b,
        prefix,
        first,
        root,
        #[trigger] entries[j],
    ) by {
        assert(entry_sound(a, prefix, first, root, entries[j]));
    }
}

/// Stored files stay sound while events are added and parts are numbered.
proof fn lemma_stored_stay_sound(a: Archive, b: Archive)
    requires
        sound(a),
        b.store == a.store,
        a.given.len() <= b.given.len(),
        forall|i: int| 0 <= i < a.given.len() ==> #[trigger] b.given[i] == a.given[i],
        forall|k: Seq<char>|
            a.store.contains_key(k) && b.writer.parts.contains_key(
                shelf(a.store[k].prefix, a.store[k].entries),
            ) ==> #[trigger] keys::part_number(k)->0 < b.writer.parts[shelf(
                a.store[k].prefix,
                a.store[k].entries,
            )],
    ensures
        forall|k: Seq<char>| #[trigger] b.store.contains_key(k) ==> kept_sound(b, k),
        forall|k: Seq<char>, l: Seq<char>| #[trigger]
            b.store.contains_key(k) && #[trigger] b.store.contains_key(l) ==> in_key_order(b, k, l),
{
    assert forall|k: Seq<char>| #[trigger] b.store.contains_key(k) implies kept_sound(b, k) by {
        let kept = a.store[k];
        assert(a.store.contains_key(k));
        assert(kept_sound(a, k));
        lemma_file_stays_sound(a, b, kept.prefix, kept.first, k, kept.entries);
        assert(keys::part_number(k)->0 < 100_000);
    }
    assert forall|k: Seq<char>, l: Seq<char>| #[trigger]
        b.store.contains_key(k) && #[trigger] b.store.contains_key(l) implies in_key_order(
        b,
        k,
        l,
    ) by {
        assert(in_key_order(a, k, l));
    }
}

/// Storing a partition's file keeps an archive sound.
proof fn lemma_putting_away(a: Archive, b: Archive, p: Seq<char>)
    requires
        sound(a),
        orderly(a),
        puts_away(a, b, p),
    ensures
        sound(b),
        b.given.len() > b.first,
{
    let file = a.writer.open[p];
    let prefix = a.writer.prefix;
    let f = choose|f: FinishedFile|
        #[trigger] f.holds(file, a.writer.base->0) && b.store == a.store.insert(
            f.name(),
            Kept { bytes: f.contents(), entries: file.entries, prefix, first: a.first },
        );
    let key = f.name();
    assert(open_sound(a, p));
    lemma_key_of_partition(a, prefix, a.first, file.key, file.entries);
    assert(!a.store.contains_key(key)) by {
        if a.store.contains_key(key) {
            let kept = a.store[key];
            assert(kept_sound(a, key));
            lemma_key_of_partition(a, kept.prefix, kept.first, key, kept.entries);
            text::lemma_text_before_irreflexive(key);
        }
    }
    assert forall|q: Seq<char>| #[trigger] b.writer.open.contains_key(q) implies open_sound(
        b,
        q,
    ) by {
        assert(a.writer.open.contains_key(q));
        assert(open_sound(a, q));
        let other = a.writer.open[q];
        lemma_file_stays_sound(a, b, prefix, a.first, other.key, other.entries);
        assert forall|k: Seq<char>|
            #[trigger] b.store.contains_key(k) && home_of(b, k) == home(
                prefix,
                other.entries,
            ) implies text::text_before(k, other.key) && last_of(b, k) < b.first
            + other.entries[0].1 - 1 by {
            if k == key {
                lemma_roots_differ(prefix, p, q);
            } else {
                assert(a.store.contains_key(k));
                assert(home_of(a, k) == home_of(b, k));
            }
        }
    }
    assert forall|k: Seq<char>| #[trigger] b.store.contains_key(k) implies kept_sound(b, k) by {
        if k == key {
            lemma_file_stays_sound(a, b, prefix, a.first, key, file.entries);
        } else {
            let kept = a.store[k];
            assert(a.store.contains_key(k));
            assert(kept_sound(a, k));
            lemma_file_stays_sound(a, b, kept.prefix, kept.first, k, kept.entries);
        }
    }
    assert forall|k: Seq<char>, l: Seq<char>| #[trigger]
        b.store.contains_key(k) && #[trigger] b.store.contains_key(l) implies in_key_order(
        b,
        k,
        l,
    ) by {
        if k == key && l == key {
            text::lemma_text_before_irreflexive(key);
        } else if l == key {
            assert(a.store.contains_key(k));
            assert(home_of(a, k) == home_of(b, k));
        } else if k == key {
            assert(a.store.contains_key(l));
            assert(home_of(a, l) == home_of(b, l));
            if home_of(b, k) == home_of(b, l) && text::text_before(key, l) {
                text::lemma_text_before_transitive(key, l, key);
                text::lemma_text_before_irreflexive(key);
            }
        } else {
            assert(a.store.contains_key(k) && a.store.contains_key(l));
            assert(in_key_order(a, k, l));
        }
    }
    assert forall|g: int| 0 <= g < b.given.len() implies #[trigger] archived(b, g) by {
        assert(archived(a, g));
        let q = writer::partition(a.given[g].event);
        if a.writer.open.contains_key(q) && has_event(a, a.first, a.writer.open[q].entries, g) {
            if q == p {
                assert(b.store.contains_key(key));
                assert(has_event(b, b.store[key].first, b.store[key].entries, g));
            } else {
                assert(b.writer.open.contains_key(q));
                assert(has_event(b, b.first, b.writer.open[q].entries, g));
            }
        } else {
            let k = choose|k: Seq<char>| #[trigger]
                a.store.contains_key(k) && has_event(a, a.store[k].first, a.store[k].entries, g);
            assert(b.store.contains_key(k));
            assert(has_event(b, b.store[k].first, b.store[k].entries, g));
        }
    }
    assert(entry_sound(a, prefix, a.first, home(prefix, file.entries), file.entries[0]));
}

/// Partitions of one key namespace have roots of their own.
proof fn lemma_roots_differ(prefix: Seq<char>, p: Seq<char>, q: Seq<char>)
    requires
        keys::partition_root(prefix, p) == keys::partition_root(prefix, q),
    ensures
        p == q,
{
    let head = prefix + "/symbol="@;
    assert((head + p).skip(head.len() as int) =~= p);
    assert((head + q).skip(head.len() as int) =~= q);
}

/// Noting a listing keeps an archive sound: the next part's number is above those
/// of all that the directory holds.
proof fn lemma_listing(a: Archive, b: Archive, e: EventView, existing: Seq<String>)
    requires
        sound(a),
        lists_directory(a, b, e, existing),
        keys::next_number(existing) < u64::MAX,
    ensures
        sound(b),
{
    let w = writer::started(a.writer, e);
    let dir = writer::directory(w, e);
    assert(dir == writer::directory(a.writer, e));
    let next = keys::next_number(existing);
    assert(a.given.len() > a.first ==> b.writer.base == a.writer.base);
    assert forall|k: Seq<char>|
        a.store.contains_key(k) && b.writer.parts.contains_key(
            shelf(a.store[k].prefix, a.store[k].entries),
        ) implies #[trigger] keys::part_number(k)->0 < b.writer.parts[shelf(
        a.store[k].prefix,
        a.store[k].entries,
    )] by {
        let kept = a.store[k];
        assert(kept_sound(a, k));
        let at = shelf(kept.prefix, kept.entries);
        if at == dir {
            let number = text::padded_number_text(keys::part_number(k)->0, 5);
            let rest = "part-"@ + number + ".parquet"@;
            assert(k =~= dir + rest);
            assert(k.take(dir.len() as int) =~= dir);
            let i = choose|i: int| 0 <= i < existing.len() && (#[trigger] existing[i])@ == k;
            keys::law_no_part_number_is_issued_again(existing, i);
        } else {
            assert(a.writer.parts.contains_key(at));
        }
    }
    lemma_stored_stay_sound(a, b);
    assert forall|p: Seq<char>| #[trigger] b.writer.open.contains_key(p) implies open_sound(
        b,
        p,
    ) by {
        assert(a.writer.open.contains_key(p));
        assert(open_sound(a, p));
        let file = a.writer.open[p];
        lemma_file_stays_sound(a, b, a.writer.prefix, a.first, file.key, file.entries);
        assert(shelf(a.writer.prefix, file.entries) != dir);
        assert forall|k: Seq<char>|
            #[trigger] b.store.contains_key(k) && home_of(b, k) == home(
                b.writer.prefix,
                file.entries,
            ) implies text::text_before(k, file.key) && last_of(b, k) < b.first
            + file.entries[0].1 - 1 by {
            assert(a.store.contains_key(k) && home_of(a, k) == home_of(b, k));
        }
    }
    assert forall|g: int| 0 <= g < b.given.len() implies #[trigger] archived(b, g) by {
        assert(archived(a, g));
        lemma_archived_stays(a, b, g);
    }
}

/// An event that was archived stays so while files only grow.
proof fn lemma_archived_stays(a: Archive, b: Archive, g: int)
    requires
        archived(a, g),
        0 <= g < a.given.len() <= b.given.len(),
        b.given[g] == a.given[g],
        b.store == a.store,
        a.writer.open.contains_key(writer::partition(a.given[g].event)) ==> b.first == a.first
            && b.writer.open.contains_key(writer::partition(a.given[g].event)) && forall|j: int|
            0 <= j < a.writer.open[writer::partition(a.given[g].event)].entries.len() ==> j
                < b.writer.open[writer::partition(a.given[g].event)].entries.len()
                && #[trigger] b.writer.open[writer::partition(a.given[g].event)].entries[j]
                == a.writer.open[writer::partition(a.given[g].event)].entries[j],
    ensures
        archived(b, g),
{
    let q = writer::partition(a.given[g].event);
    if a.writer.open.contains_key(q) && has_event(a, a.first, a.writer.open[q].entries, g) {
        let entry = (a.given[g].event, (g - a.first + 1) as i64);
        let j = choose|j: int|
            0 <= j < a.writer.open[q].entries.len() && a.writer.open[q].entries[j] == entry;
        assert(b.writer.open[q].entries[j] == entry);
        assert(has_event(b, b.first, b.writer.open[q].entries, g));
    } else {
        let k = choose|k: Seq<char>| #[trigger]
            a.store.contains_key(k) && has_event(a, a.store[k].first, a.store[k].entries, g);
        assert(b.store.contains_key(k));
        assert(has_event(b, b.store[k].first, b.store[k].entries, g));
    }
}

/// A new file's key comes after those of its partition's stored files.
proof fn lemma_new_key_is_last(a: Archive, b: Archive, e: EventView, k: Seq<char>)
    requires
        sound(a),
        orderly(b),
        b.given == a.given.push(Given { event: e, prefix: a.writer.prefix, first: a.first }),
        a.store.contains_key(k),
        home_of(a, k) == keys::partition_root(a.writer.prefix, writer::partition(e)),
        a.writer.parts.contains_key(writer::directory(a.writer, e)),
        a.writer.parts[writer::directory(a.writer, e)] < 100_000,
    ensures
        text::text_before(
            k,
            keys::part_text(
                writer::directory(a.writer, e),
                a.writer.parts[writer::directory(a.writer, e)] as nat,
            ),
        ),
        last_of(a, k) < a.given.len(),
{
    let kept = a.store[k];
    let entries = kept.entries;
    let root = home_of(a, k);
    let n = a.given.len() as int;
    assert(kept_sound(a, k));
    assert(entry_sound(a, kept.prefix, kept.first, root, entries[0]));
    assert(entry_sound(a, kept.prefix, kept.first, root, entries.last()));
    let i = kept.first + entries[0].1 - 1;
    assert(b.given[i] == a.given[i]);
    assert(b.given[n].event == e);
    assert(b.given[i].root() == b.given[n].root());
    let wall = entries[0].0.wall;
    let p = writer::partition(entries[0].0);
    let q = writer::partition(e);
    let dir = writer::directory(a.writer, e);
    assert(keys::hour_of(wall) <= keys::hour_of(e.wall));
    if keys::hour_of(wall) == keys::hour_of(e.wall) {
        keys::lemma_one_directory_an_hour(kept.prefix, p, wall, a.writer.prefix, q, e.wall);
    }
    keys::law_later_parts_have_later_keys(
        kept.prefix,
        p,
        wall,
        keys::part_number(k)->0,
        a.writer.prefix,
        q,
        e.wall,
        a.writer.parts[dir] as nat,
    );
}

/// An event's file once the event is in it is sound, and comes after all that were
/// stored.
proof fn lemma_grown_file(a: Archive, b: Archive, e: EventView)
    requires
        sound(a),
        orderly(b),
        puts_in(a, b, e),
    ensures
        open_sound(b, writer::partition(e)),
        has_event(
            b,
            b.first,
            b.writer.open[writer::partition(e)].entries,
            a.given.len() as int,
        ),
        a.writer.open.contains_key(writer::partition(e)) ==> forall|j: int|
            0 <= j < a.writer.open[writer::partition(e)].entries.len() ==> j
                < b.writer.open[writer::partition(e)].entries.len()
                && #[trigger] b.writer.open[writer::partition(e)].entries[j]
                == a.writer.open[writer::partition(e)].entries[j],
{
    let p = writer::partition(e);
    let prefix = a.writer.prefix;
    let s = writer::started(a.writer, e);
    let w = writer::opened_for(a.writer, e);
    let n = a.given.len() as int;
    let file = b.writer.open[p];
    let entry = (e, (n - a.first + 1) as i64);
    let entries = file.entries;
    assert(b.writer.open == writer::with_event(w, e).open);
    assert(b.given[n] == (Given { event: e, prefix, first: a.first }));
    if a.writer.open.contains_key(p) {
        let old_file = a.writer.open[p];
        let root = home(prefix, old_file.entries);
        assert(open_sound(a, p));
        assert(entries == old_file.entries.push(entry));
        assert(file.key == old_file.key);
        assert(entries[0] == old_file.entries[0]);
        lemma_file_stays_sound(a, b, prefix, a.first, old_file.key, old_file.entries);
        assert forall|j: int| 0 <= j < entries.len() implies entry_sound(
            b,
            prefix,
            a.first,
            root,
            #[trigger] entries[j],
        ) by {
            if j < old_file.entries.len() {
                assert(entries[j] == old_file.entries[j]);
                assert(entry_sound(b, prefix, a.first, root, old_file.entries[j]));
            }
        }
        assert forall|j: int, k: int| 0 <= j < k < entries.len() implies (
        #[trigger] entries[j]).1 < (#[trigger] entries[k]).1 by {
            assert(entries[j] == old_file.entries[j]);
            assert(entry_sound(a, prefix, a.first, root, old_file.entries[j]));
            if k < old_file.entries.len() {
                assert(entries[k] == old_file.entries[k]);
            }
        }
        assert forall|k: Seq<char>|
            #[trigger] b.store.contains_key(k) && home_of(b, k) == home(
                prefix,
                entries,
            ) implies text::text_before(k, file.key) && last_of(b, k) < b.first + entries[0].1
            - 1 by {
            assert(a.store.contains_key(k) && home_of(a, k) == home_of(b, k));
        }
    } else {
        let dir = writer::directory(a.writer, e);
        assert(writer::directory(s, e) == dir);
        assert(a.writer.parts.contains_key(dir));
        let part = a.writer.parts[dir] as nat;
        assert(entries == Seq::<(EventView, i64)>::empty().push(entry));
        assert(entries[0] == entry);
        assert(file.key == keys::part_text(dir, part));
        assert(b.writer.parts == a.writer.parts.insert(dir, (part + 1) as u64));
        assert(b.writer.parts.contains_key(dir));
        assert(part < 100_000);
        reveal_strlit("/");
        assert(dir.last() == '/');
        keys::law_a_part_key_has_its_number(dir, part);
        assert(entry_sound(b, prefix, a.first, home(prefix, entries), entries[0]));
        assert forall|k: Seq<char>|
            #[trigger] b.store.contains_key(k) && home_of(b, k) == home(
                prefix,
                entries,
            ) implies text::text_before(k, file.key) && last_of(b, k) < b.first + entries[0].1
            - 1 by {
            assert(a.store.contains_key(k) && home_of(a, k) == home_of(b, k));
            lemma_new_key_is_last(a, b, e, k);
        }
    }
    assert(entries.last() == entry);
    assert(entries[entries.len() - 1] == entry);
}

/// Putting an event into its file keeps an archive sound.
proof fn lemma_putting_in(a: Archive, b: Archive, e: EventView)
    requires
        sound(a),
        a.given.len() == a.first ==> a.writer.base is None || a.writer.base == Some(e.mono),
        orderly(b),
        puts_in(a, b, e),
    ensures
        sound(b),
        b.given.len() > b.first,
{
    let p = writer::partition(e);
    let n = a.given.len() as int;
    lemma_grown_file(a, b, e);
    assert(b.given[n].event == e);
    assert(n > a.first ==> b.given[a.first as int] == a.given[a.first as int]);
    assert(n > a.first ==> b.writer.base == a.writer.base);
    assert forall|k: Seq<char>|
        a.store.contains_key(k) && b.writer.parts.contains_key(
            shelf(a.store[k].prefix, a.store[k].entries),
        ) implies #[trigger] keys::part_number(k)->0 < b.writer.parts[shelf(
        a.store[k].prefix,
        a.store[k].entries,
    )] by {
        assert(kept_sound(a, k));
        let at = shelf(a.store[k].prefix, a.store[k].entries);
        assert(a.writer.parts.contains_key(at));
    }
    lemma_stored_stay_sound(a, b);
    assert forall|q: Seq<char>| #[trigger] b.writer.open.contains_key(q) implies open_sound(
        b,
        q,
    ) by {
        if q != p {
            assert(a.writer.open.contains_key(q));
            assert(open_sound(a, q));
            let file = a.writer.open[q];
            assert(b.writer.open[q] == file);
            lemma_file_stays_sound(a, b, a.writer.prefix, a.first, file.key, file.entries);
            assert forall|k: Seq<char>|
                #[trigger] b.store.contains_key(k) && home_of(b, k) == home(
                    b.writer.prefix,
                    file.entries,
                ) implies text::text_before(k, file.key) && last_of(b, k) < b.first
                + file.entries[0].1 - 1 by {
                assert(a.store.contains_key(k) && home_of(a, k) == home_of(b, k));
            }
        }
    }
    assert forall|g: int| 0 <= g < b.given.len() implies #[trigger] archived(b, g) by {
        if g < n {
            assert(archived(a, g));
            assert(b.given[g] == a.given[g]);
            let q = writer::partition(a.given[g].event);
            if a.writer.open.contains_key(q) && q != p {
                assert(b.writer.open[q] == a.writer.open[q]);
            }
            lemma_archived_stays(a, b, g);
        }
    }
    assert forall|g: int| 0 <= g < b.given.len() implies (#[trigger] b.given[g]).first <= g by {
        if g < n {
            assert(b.given[g] == a.given[g]);
        }
    }
}

/// Another run over the same store keeps an archive sound.
proof fn lemma_running_again(a: Archive, b: Archive)
    requires
        sound(a),
        runs_again(a, b),
    ensures
        sound(b),
{
    lemma_stored_stay_sound(a, b);
    assert forall|g: int| 0 <= g < b.given.len() implies #[trigger] archived(b, g) by {
        assert(archived(a, g));
        lemma_archived_stays(a, b, g);
    }
}

/// Whatever happens in an archive keeps it sound, and a run's offsets count from
/// its first event.
proof fn lemma_goes_on(a: Archive, b: Archive)
    requires
        sound(a),
        a.given.len() == a.first ==> a.writer.base is None,
        orderly(a),
        orderly(b),
        goes_on(a, b),
    ensures
        sound(b),
        b.given.len() == b.first ==> b.writer.base is None,
{
    if exists|p: Seq<char>| puts_away(a, b, p) {
        lemma_putting_away(a, b, choose|p: Seq<char>| puts_away(a, b, p));
    } else if runs_again(a, b) {
        lemma_running_again(a, b);
    } else {
        let (rolled, listed, e) = choose|rolled: Archive, listed: Archive, e: EventView|
            takes_in(a, rolled, listed, b, e);
        if writer::roll_due(a.writer, e) {
            lemma_putting_away(a, rolled, writer::partition(e));
        }
        if writer::listing_due(rolled.writer, e) {
            let existing = choose|existing: Seq<String>|
                lists_directory(rolled, listed, e, existing);
            keys::lemma_numbers_are_64_bit(existing);
            lemma_listing(rolled, listed, e, existing);
        }
        lemma_putting_in(listed, b, e);
    }
}

proof fn lemma_history_is_sound(history: Seq<Archive>, i: int)
    requires
        unfolds(history),
        0 <= i < history.len(),
    ensures
        sound(history[i]),
        history[i].given.len() == history[i].first ==> history[i].writer.base is None,
    decreases i,
{
    if i > 0 {
        lemma_history_is_sound(history, i - 1);
        assert(goes_on(history[i - 1], history[i]));
        assert(orderly(history[i - 1]) && orderly(history[i]));
        lemma_goes_on(history[i - 1], history[i]);
    }
}

/// A reading in progress: what is left of each partition, and the events so far,
/// each with the partition that it came from.
pub struct Reading {
    pub cursors: Seq<CursorView>,
    pub out: Seq<(Seq<char>, StoredView)>,
}

/// Whether a file was fetched from the store, decoded and supplied.
pub open spec fn fetches_file(
    store: Map<Seq<char>, Kept>,
    now: nat,
    a: Reading,
    b: Reading,
    asked: Seq<CursorView>,
    cursor: int,
    key: Seq<char>,
    events: Seq<StoredView>,
) -> bool {
    &&& reader::fetches(a.cursors, asked, cursor, key)
    &&& store.contains_key(key)
    &&& decode::decodes_to(store[key].bytes, now, events)
    &&& b.cursors == asked.update(cursor, CursorView { pending: events, ..asked[cursor] })
    &&& b.out == a.out
}

/// Whether the next event was read: the one that comes next, of its partition.
pub open spec fn reads_event(a: Reading, b: Reading, i: int) -> bool {
    let event = a.cursors[i].pending[0];
    &&& reader::yields(a.cursors, b.cursors, event)
    &&& reader::comes_next(a.cursors, i)
    &&& b.cursors == a.cursors.update(
        i,
        CursorView { pending: a.cursors[i].pending.drop_first(), ..a.cursors[i] },
    )
    &&& b.out == a.out.push((a.cursors[i].partition, event))
}

/// Whether a reading went on by one step.
pub open spec fn reads_on(store: Map<Seq<char>, Kept>, now: nat, a: Reading, b: Reading) -> bool {
    ||| exists|i: int| reads_event(a, b, i)
    ||| exists|asked: Seq<CursorView>, cursor: int, key: Seq<char>, events: Seq<StoredView>|
        fetches_file(store, now, a, b, asked, cursor, key, events)
}

/// Whether a key was found.
pub open spec fn is_found(found: Seq<String>, k: Seq<char>) -> bool {
    exists|i: int| 0 <= i < found.len() && (#[trigger] found[i])@ == k
}

/// Whether readings are those of files that were found in a store, from the first
/// step to the last.
pub open spec fn reads_through(
    store: Map<Seq<char>, Kept>,
    found: Seq<String>,
    now: nat,
    readings: Seq<Reading>,
) -> bool {
    &&& forall|k: Seq<char>| #[trigger] is_found(found, k) ==> store.contains_key(k)
    &&& readings.len() > 0
    &&& readings[0].out == Seq::<(Seq<char>, StoredView)>::empty()
    &&& reader::set_up(found, readings[0].cursors)
    &&& forall|i: int|
        0 < i < readings.len() ==> reads_on(store, now, readings[i - 1], #[trigger] readings[i])
    &&& reader::exhausted(readings.last().cursors)
}

/// An event as it is stored: its offset counts from the first event of its run.
pub open spec fn stored_given(given: Seq<Given>, now: nat, g: int) -> StoredView {
    decode::stored_as(given[g].event, given[given[g].first as int].event.mono, now)
}

/// All events as they are stored, each with its partition, in the order they came.
pub open spec fn stored_events(given: Seq<Given>, now: nat) -> Seq<(Seq<char>, StoredView)> {
    Seq::new(given.len(), |g: int| (given[g].root(), stored_given(given, now, g)))
}

/// Whether an event is in a file that was found.
pub open spec fn is_covered(a: Archive, found: Seq<String>, g: int) -> bool {
    exists|k: Seq<char>| #[trigger]
        is_found(found, k) && a.store.contains_key(k) && has_event(
            a,
            a.store[k].first,
            a.store[k].entries,
            g,
        )
}

/// The events, of the first so many, that are in files that were found: as they
/// are stored, each with its partition, in the order they came.
pub open spec fn covered_events(
    a: Archive,
    found: Seq<String>,
    now: nat,
    n: nat,
) -> Seq<(Seq<char>, StoredView)>
    decreases n,
{
    if n == 0 {
        Seq::empty()
    } else if is_covered(a, found, n - 1) {
        covered_events(a, found, now, (n - 1) as nat).push(
            (a.given[n - 1].root(), stored_given(a.given, now, n - 1)),
        )
    } else {
        covered_events(a, found, now, (n - 1) as nat)
    }
}

/// The events that are in files that were found.
pub open spec fn found_events(a: Archive, found: Seq<String>, now: nat) -> Seq<
    (Seq<char>, StoredView),
> {
    covered_events(a, found, now, a.given.len())
}

/// The events of one partition, in order.
pub open spec fn of_partition(
    events: Seq<(Seq<char>, StoredView)>,
    q: Seq<char>,
) -> Seq<StoredView>
    decreases events.len(),
{
    if events.len() == 0 {
        Seq::empty()
    } else if events.last().0 == q {
        of_partition(events.drop_last(), q).push(events.last().1)
    } else {
        of_partition(events.drop_last(), q)
    }
}

/// Whether an event may come before another: by its stamp, then by its partition.
pub open spec fn precedes(x: (Seq<char>, StoredView), y: (Seq<char>, StoredView)) -> bool {
    x.1.event.wall < y.1.event.wall || (x.1.event.wall == y.1.event.wall && (x.0 == y.0
        || text::text_before(x.0, y.0)))
}

/// Whether events are in the order of their stamps, then of their partitions.
pub open spec fn by_stamp(events: Seq<(Seq<char>, StoredView)>) -> bool {
    forall|i: int, j: int|
        0 <= i < j < events.len() ==> precedes(#[trigger] events[i], #[trigger] events[j])
}

/// Whether no partition's stamps fall, as far as a column can hold them.
pub open spec fn non_falling(given: Seq<Given>) -> bool {
    forall|i: int, j: int|
        0 <= i < j < given.len() && (#[trigger] given[i]).root() == (#[trigger] given[j]).root()
            ==> clamped_nanos(given[i].event.wall) <= clamped_nanos(given[j].event.wall)
}

/// Whether an archive was closed, and its files can be read.
pub open spec fn closed(a: Archive) -> bool {
    &&& a.writer.open == Map::<Seq<char>, OpenView>::empty()
    &&& forall|k: Seq<char>| #[trigger]
        a.store.contains_key(k) ==> record::readable(
            decode::archive_rows(
                a.store[k].entries,
                a.given[a.store[k].first as int].event.mono,
            ),
        )
}

/// The events of a stored file.
spec fn contents(a: Archive, now: nat, k: Seq<char>) -> Seq<StoredView> {
    decode::all_stored_as(
        a.store[k].entries,
        a.given[a.store[k].first as int].event.mono,
        now,
    )
}

/// Where among all events those of a stored file stand.
spec fn places(a: Archive, k: Seq<char>) -> Seq<int> {
    Seq::new(
        a.store[k].entries.len(),
        |j: int| a.store[k].first + a.store[k].entries[j].1 - 1,
    )
}

/// The events of files, one after another.
spec fn contents_of_all(a: Archive, now: nat, names: Seq<Seq<char>>) -> Seq<StoredView>
    decreases names.len(),
{
    if names.len() == 0 {
        Seq::empty()
    } else {
        contents(a, now, names[0]) + contents_of_all(a, now, names.drop_first())
    }
}

/// Where among all events those of files stand.
spec fn places_of_all(a: Archive, names: Seq<Seq<char>>) -> Seq<int>
    decreases names.len(),
{
    if names.len() == 0 {
        Seq::empty()
    } else {
        places(a, names[0]) + places_of_all(a, names.drop_first())
    }
}

/// What a partition still has to give.
spec fn left(a: Archive, now: nat, c: CursorView) -> Seq<StoredView> {
    c.pending + contents_of_all(a, now, c.keys)
}

/// Whether places rise.
spec fn rise(places: Seq<int>) -> bool {
    forall|i: int, j: int| 0 <= i < j < places.len() ==> #[trigger] places[i] < #[trigger] places[j]
}

/// An event of a stored file is that of its place.
proof fn lemma_place(a: Archive, now: nat, k: Seq<char>, j: int)
    requires
        sound(a),
        a.store.contains_key(k),
        0 <= j < a.store[k].entries.len(),
    ensures
        ({
            let g = places(a, k)[j];
            &&& 0 <= g < a.given.len()
            &&& contents(a, now, k)[j] == stored_given(a.given, now, g)
            &&& a.given[g].root() == home_of(a, k)
            &&& has_event(a, a.store[k].first, a.store[k].entries, g)
        }),
{
    let kept = a.store[k];
    assert(kept_sound(a, k));
    assert(entry_sound(a, kept.prefix, kept.first, home_of(a, k), kept.entries[j]));
    let g = places(a, k)[j];
    assert(kept.entries[j] == (a.given[g].event, (g - kept.first + 1) as i64));
}

/// What stands in files stands in one of them.
proof fn lemma_in_one_of_all(a: Archive, names: Seq<Seq<char>>, g: int)
    ensures
        places_of_all(a, names).contains(g) ==> exists|n: int|
            0 <= n < names.len() && places(a, #[trigger] names[n]).contains(g),
        forall|n: int|
            0 <= n < names.len() && places(a, #[trigger] names[n]).contains(g) ==> places_of_all(
                a,
                names,
            ).contains(g),
    decreases names.len(),
{
    if names.len() > 0 {
        let first = places(a, names[0]);
        let rest = names.drop_first();
        let others = places_of_all(a, rest);
        let all = places_of_all(a, names);
        lemma_in_one_of_all(a, rest, g);
        if all.contains(g) {
            let j = choose|j: int| 0 <= j < all.len() && all[j] == g;
            if j < first.len() {
                assert(first[j] == g);
                assert(places(a, names[0]).contains(g));
            } else {
                assert(others[j - first.len()] == g);
                let n = choose|n: int|
                    0 <= n < rest.len() && places(a, #[trigger] rest[n]).contains(g);
                assert(names[n + 1] == rest[n]);
            }
        }
        assert forall|n: int|
            0 <= n < names.len() && places(a, #[trigger] names[n]).contains(
                g,
            ) implies all.contains(g) by {
            if n == 0 {
                let j = choose|j: int| 0 <= j < first.len() && first[j] == g;
                assert(all[j] == g);
            } else {
                assert(rest[n - 1] == names[n]);
                let j = choose|j: int| 0 <= j < others.len() && others[j] == g;
                assert(all[first.len() + j] == g);
            }
        }
    }
}

/// A partition's files, in key order, hold its events in the order they came.
proof fn lemma_files_in_order(a: Archive, now: nat, names: Seq<Seq<char>>, q: Seq<char>)
    requires
        sound(a),
        reader::rising(names),
        forall|n: int|
            0 <= n < names.len() ==> a.store.contains_key(#[trigger] names[n]) && home_of(
                a,
                names[n],
            ) == q,
    ensures
        rise(places_of_all(a, names)),
        contents_of_all(a, now, names).len() == places_of_all(a, names).len(),
        forall|j: int|
            0 <= j < places_of_all(a, names).len() ==> {
                let g = #[trigger] places_of_all(a, names)[j];
                &&& 0 <= g < a.given.len()
                &&& a.given[g].root() == q
                &&& contents_of_all(a, now, names)[j] == stored_given(a.given, now, g)
            },
    decreases names.len(),
{
    if names.len() > 0 {
        let head = names[0];
        let first = places(a, head);
        let rest = names.drop_first();
        let others = places_of_all(a, rest);
        let all = places_of_all(a, names);
        let entries = a.store[head].entries;
        assert forall|n: int| 0 <= n < rest.len() implies a.store.contains_key(#[trigger] rest[n])
            && home_of(a, rest[n]) == q by {
            assert(rest[n] == names[n + 1]);
        }
        assert(reader::rising(rest)) by {
            assert forall|i: int, j: int| 0 <= i < j < rest.len() implies text::text_before(
                #[trigger] rest[i],
                #[trigger] rest[j],
            ) by {
                assert(rest[i] == names[i + 1] && rest[j] == names[j + 1]);
            }
        }
        lemma_files_in_order(a, now, rest, q);
        assert(kept_sound(a, head));
        assert forall|j: int| 0 <= j < all.len() implies ({
            let g = #[trigger] all[j];
            &&& 0 <= g < a.given.len()
            &&& a.given[g].root() == q
            &&& contents_of_all(a, now, names)[j] == stored_given(a.given, now, g)
        }) by {
            if j < first.len() {
                lemma_place(a, now, head, j);
                assert(all[j] == first[j]);
                assert(contents_of_all(a, now, names)[j] == contents(a, now, head)[j]);
            } else {
                assert(all[j] == others[j - first.len()]);
                assert(contents_of_all(a, now, names)[j] == contents_of_all(a, now, rest)[j
                    - first.len()]);
            }
        }
        assert forall|i: int, j: int| 0 <= i < j < all.len() implies #[trigger] all[i]
            < #[trigger] all[j] by {
            if j < first.len() {
                assert(all[i] == first[i] && all[j] == first[j]);
                assert(entries[i].1 < entries[j].1);
            } else if i >= first.len() {
                assert(all[i] == others[i - first.len()] && all[j] == others[j - first.len()]);
            } else {
                let g = others[j - first.len()];
                assert(all[j] == g && all[i] == first[i]);
                assert(others.contains(g));
                lemma_in_one_of_all(a, rest, g);
                let n = choose|n: int|
                    0 <= n < rest.len() && places(a, #[trigger] rest[n]).contains(g);
                let l = rest[n];
                assert(l == names[n + 1]);
                assert(text::text_before(names[0], names[n + 1]));
                assert(a.store.contains_key(head) && a.store.contains_key(l));
                assert(in_key_order(a, head, l));
                assert(kept_sound(a, l));
                let t = choose|t: int| 0 <= t < places(a, l).len() && places(a, l)[t] == g;
                assert(entries[i].1 <= entries.last().1);
                assert(a.store[l].entries[0].1 <= a.store[l].entries[t].1);
            }
        }
    }
}

/// Rising places that are all those of a partition's files found hold its events.
proof fn lemma_all_places(
    a: Archive,
    found: Seq<String>,
    now: nat,
    q: Seq<char>,
    n: nat,
    places: Seq<int>,
    events: Seq<StoredView>,
)
    requires
        n <= a.given.len(),
        rise(places),
        events.len() == places.len(),
        forall|j: int|
            0 <= j < places.len() ==> {
                let g = #[trigger] places[j];
                &&& 0 <= g < n
                &&& a.given[g].root() == q
                &&& is_covered(a, found, g)
                &&& events[j] == stored_given(a.given, now, g)
            },
        forall|g: int|
            0 <= g < n && (#[trigger] a.given[g]).root() == q && is_covered(a, found, g)
                ==> places.contains(g),
    ensures
        events == of_partition(covered_events(a, found, now, n), q),
    decreases n,
{
    if n == 0 {
        if places.len() > 0 {
            assert(0 <= places[0] < n);
        }
        assert(events =~= Seq::empty());
    } else {
        let all = covered_events(a, found, now, n);
        let fewer_events = covered_events(a, found, now, (n - 1) as nat);
        if is_covered(a, found, n - 1) {
            assert(all.drop_last() =~= fewer_events);
            assert(all.last() == (a.given[n - 1].root(), stored_given(a.given, now, n - 1)));
        }
        if a.given[n - 1].root() == q && is_covered(a, found, n - 1) {
            assert(places.contains(n - 1));
            let t = choose|t: int| 0 <= t < places.len() && places[t] == n - 1;
            if t < places.len() - 1 {
                assert(places[t] < places[places.len() - 1]);
            }
            let fewer = places.drop_last();
            assert forall|j: int| 0 <= j < fewer.len() implies 0 <= #[trigger] fewer[j] < n - 1
                && a.given[fewer[j]].root() == q && is_covered(a, found, fewer[j])
                && events.drop_last()[j] == stored_given(a.given, now, fewer[j]) by {
                assert(fewer[j] == places[j]);
                assert(places[j] < places[places.len() - 1]);
            }
            assert forall|g: int|
                0 <= g < n - 1 && (#[trigger] a.given[g]).root() == q && is_covered(
                    a,
                    found,
                    g,
                ) implies fewer.contains(g) by {
                assert(places.contains(g));
                let s = choose|s: int| 0 <= s < places.len() && places[s] == g;
                assert(fewer[s] == g);
            }
            lemma_all_places(a, found, now, q, (n - 1) as nat, fewer, events.drop_last());
            assert(events =~= events.drop_last().push(events.last()));
        } else {
            assert forall|j: int| 0 <= j < places.len() implies 0 <= #[trigger] places[j] < n - 1
                && a.given[places[j]].root() == q && is_covered(a, found, places[j]) && events[j]
                == stored_given(a.given, now, places[j]) by {
                assert(places[j] != n - 1);
            }
            lemma_all_places(a, found, now, q, (n - 1) as nat, places, events);
        }
    }
}

/// The cursor that lists a stored file that was found is that of the file's
/// partition.
proof fn lemma_cursor_of(
    a: Archive,
    found: Seq<String>,
    cursors: Seq<CursorView>,
    k: Seq<char>,
) -> (c: int)
    requires
        sound(a),
        orderly(a),
        is_found(found, k),
        a.store.contains_key(k),
        reader::set_up(found, cursors),
    ensures
        0 <= c < cursors.len(),
        reader::lists(cursors[c], k),
        cursors[c].partition == home_of(a, k),
{
    assert(kept_sound(a, k));
    lemma_key_of_partition(a, a.store[k].prefix, a.store[k].first, k, a.store[k].entries);
    assert(reader::wanted(found, k));
    let c = choose|c: int| 0 <= c < cursors.len() && #[trigger] reader::lists(cursors[c], k);
    assert(reader::fresh(cursors[c]));
    let m = choose|m: int| 0 <= m < cursors[c].keys.len() && cursors[c].keys[m] == k;
    assert(keys::partition_in(cursors[c].keys[m]) == cursors[c].partition);
    c
}

/// A stored file that holds an event holds it at its place.
proof fn lemma_event_has_a_place(a: Archive, k: Seq<char>, g: int)
    requires
        sound(a),
        a.store.contains_key(k),
        0 <= g < a.given.len(),
        has_event(a, a.store[k].first, a.store[k].entries, g),
    ensures
        places(a, k).contains(g),
        a.given[g].root() == home_of(a, k),
{
    let kept = a.store[k];
    let entry = (a.given[g].event, (g - kept.first + 1) as i64);
    let j = choose|j: int| 0 <= j < kept.entries.len() && kept.entries[j] == entry;
    assert(kept_sound(a, k));
    assert(entry_sound(a, kept.prefix, kept.first, home_of(a, k), kept.entries[j]));
    lemma_number_of_place(a, k, j, g);
    assert(places(a, k)[j] == g);
}

/// A partition that is read has all its events left at first, of the files found.
proof fn lemma_everything_is_left(
    a: Archive,
    found: Seq<String>,
    now: nat,
    cursors: Seq<CursorView>,
    c: int,
)
    requires
        sound(a),
        orderly(a),
        forall|k: Seq<char>| #[trigger] is_found(found, k) ==> a.store.contains_key(k),
        reader::set_up(found, cursors),
        0 <= c < cursors.len(),
    ensures
        left(a, now, cursors[c]) == of_partition(
            found_events(a, found, now),
            cursors[c].partition,
        ),
{
    let q = cursors[c].partition;
    let names = cursors[c].keys;
    let all = places_of_all(a, names);
    assert(reader::fresh(cursors[c]));
    assert forall|n: int| 0 <= n < names.len() implies a.store.contains_key(#[trigger] names[n])
        && home_of(a, names[n]) == q && is_found(found, names[n]) by {
        let k = names[n];
        assert(reader::lists(cursors[c], k));
        assert(reader::wanted(found, k));
        assert(is_found(found, k));
        assert(kept_sound(a, k));
        lemma_key_of_partition(a, a.store[k].prefix, a.store[k].first, k, a.store[k].entries);
    }
    lemma_files_in_order(a, now, names, q);
    assert forall|j: int| 0 <= j < all.len() implies is_covered(a, found, #[trigger] all[j]) by {
        let g = all[j];
        assert(all.contains(g));
        lemma_in_one_of_all(a, names, g);
        let n = choose|n: int| 0 <= n < names.len() && places(a, #[trigger] names[n]).contains(g);
        let t = choose|t: int| 0 <= t < places(a, names[n]).len() && places(a, names[n])[t] == g;
        lemma_place(a, now, names[n], t);
    }
    assert forall|g: int|
        0 <= g < a.given.len() && (#[trigger] a.given[g]).root() == q && is_covered(
            a,
            found,
            g,
        ) implies all.contains(g) by {
        let k = choose|k: Seq<char>| #[trigger]
            is_found(found, k) && a.store.contains_key(k) && has_event(
                a,
                a.store[k].first,
                a.store[k].entries,
                g,
            );
        lemma_event_has_a_place(a, k, g);
        let d = lemma_cursor_of(a, found, cursors, k);
        text::lemma_text_before_irreflexive(q);
        if c < d {
            assert(text::text_before(cursors[c].partition, cursors[d].partition));
        } else if d < c {
            assert(text::text_before(cursors[d].partition, cursors[c].partition));
        }
        let m = choose|m: int| 0 <= m < names.len() && names[m] == k;
        assert(places(a, names[m]).contains(g));
        lemma_in_one_of_all(a, names, g);
    }
    lemma_all_places(a, found, now, q, a.given.len(), all, contents_of_all(a, now, names));
    assert(left(a, now, cursors[c]) =~= contents_of_all(a, now, names));
}

/// The stored file that an event is in, once all files were closed.
proof fn lemma_where_it_is(a: Archive, g: int) -> (k: Seq<char>)
    requires
        sound(a),
        orderly(a),
        closed(a),
        0 <= g < a.given.len(),
    ensures
        a.store.contains_key(k),
        has_event(a, a.store[k].first, a.store[k].entries, g),
        keys::partition_in(k) == a.given[g].root(),
{
    assert(archived(a, g));
    let k = choose|k: Seq<char>| #[trigger]
        a.store.contains_key(k) && has_event(a, a.store[k].first, a.store[k].entries, g);
    let kept = a.store[k];
    lemma_event_has_a_place(a, k, g);
    assert(kept_sound(a, k));
    lemma_key_of_partition(a, kept.prefix, kept.first, k, kept.entries);
    k
}

/// An event's number in a file is that of its place.
proof fn lemma_number_of_place(a: Archive, k: Seq<char>, j: int, g: int)
    requires
        sound(a),
        a.store.contains_key(k),
        0 <= g < a.given.len(),
        a.given[g].first == a.store[k].first,
        0 <= j < a.store[k].entries.len(),
        a.store[k].entries[j].1 == (g - a.store[k].first + 1) as i64,
    ensures
        a.store[k].first + a.store[k].entries[j].1 - 1 == g,
{
    assert(a.given[g].first <= g < a.given[g].first + i64::MAX);
}

/// Whether of every partition what was read and what is left are its events.
spec fn reading_sound(
    a: Archive,
    found: Seq<String>,
    now: nat,
    start: Seq<CursorView>,
    r: Reading,
) -> bool {
    &&& r.cursors.len() == start.len()
    &&& forall|c: int|
        0 <= c < start.len() ==> (#[trigger] r.cursors[c]).partition == start[c].partition
    &&& forall|c: int|
        0 <= c < start.len() ==> of_partition(r.out, start[c].partition) + #[trigger] left(
            a,
            now,
            r.cursors[c],
        ) == of_partition(found_events(a, found, now), start[c].partition)
    &&& forall|m: int|
        0 <= m < r.out.len() ==> exists|c: int|
            0 <= c < start.len() && (#[trigger] r.out[m]).0 == (#[trigger] start[c]).partition
}

/// Whether cursors are of different partitions, in their order.
spec fn apart(start: Seq<CursorView>) -> bool {
    forall|c: int, d: int|
        0 <= c < d < start.len() ==> text::text_before(
            (#[trigger] start[c]).partition,
            (#[trigger] start[d]).partition,
        )
}

/// Fetching a file changes nothing of what is left.
proof fn lemma_fetching(
    a: Archive,
    found: Seq<String>,
    now: nat,
    start: Seq<CursorView>,
    r: Reading,
    t: Reading,
    asked: Seq<CursorView>,
    cursor: int,
    key: Seq<char>,
    events: Seq<StoredView>,
)
    requires
        sound(a),
        closed(a),
        reading_sound(a, found, now, start, r),
        fetches_file(a.store, now, r, t, asked, cursor, key, events),
    ensures
        reading_sound(a, found, now, start, t),
        forall|c: int|
            0 <= c < start.len() ==> #[trigger] left(a, now, t.cursors[c]) == left(
                a,
                now,
                r.cursors[c],
            ),
{
    assert(kept_sound(a, key));
    assert(events == contents(a, now, key));
    assert forall|c: int| 0 <= c < start.len() implies #[trigger] left(a, now, t.cursors[c])
        == left(a, now, r.cursors[c]) by {
        if c == cursor {
            assert(left(a, now, t.cursors[c]) =~= left(a, now, r.cursors[c]));
        }
    }
    assert forall|c: int| 0 <= c < start.len() implies of_partition(t.out, start[c].partition)
        + #[trigger] left(a, now, t.cursors[c]) == of_partition(
        found_events(a, found, now),
        start[c].partition,
    ) by {
        assert(left(a, now, t.cursors[c]) == left(a, now, r.cursors[c]));
    }
}

/// Reading an event moves it from what is left of its partition to what was read.
proof fn lemma_reading_an_event(
    a: Archive,
    found: Seq<String>,
    now: nat,
    start: Seq<CursorView>,
    r: Reading,
    t: Reading,
    i: int,
)
    requires
        apart(start),
        reading_sound(a, found, now, start, r),
        reads_event(r, t, i),
    ensures
        reading_sound(a, found, now, start, t),
        0 <= i < start.len(),
        left(a, now, r.cursors[i]).len() > 0,
        left(a, now, r.cursors[i])[0] == r.cursors[i].pending[0],
        left(a, now, t.cursors[i]) == left(a, now, r.cursors[i]).drop_first(),
        forall|c: int|
            0 <= c < start.len() && c != i ==> #[trigger] left(a, now, t.cursors[c]) == left(
                a,
                now,
                r.cursors[c],
            ),
{
    let mine = left(a, now, r.cursors[i]);
    let event = r.cursors[i].pending[0];
    assert(mine[0] == event);
    assert(left(a, now, t.cursors[i]) =~= mine.drop_first());
    assert(t.out.drop_last() =~= r.out);
    assert(t.out.last() == (start[i].partition, event)) by {
        assert(r.cursors[i].partition == start[i].partition);
    }
    assert forall|c: int| 0 <= c < start.len() && c != i implies #[trigger] left(
        a,
        now,
        t.cursors[c],
    ) == left(a, now, r.cursors[c]) by {}
    assert forall|c: int| 0 <= c < start.len() implies of_partition(t.out, start[c].partition)
        + #[trigger] left(a, now, t.cursors[c]) == of_partition(
        found_events(a, found, now),
        start[c].partition,
    ) by {
        assert(of_partition(r.out, start[c].partition) + left(a, now, r.cursors[c])
            == of_partition(found_events(a, found, now), start[c].partition));
        if c == i {
            assert(of_partition(t.out, start[c].partition) + left(a, now, t.cursors[c])
                =~= of_partition(r.out, start[c].partition) + mine);
        } else {
            text::lemma_text_before_irreflexive(start[c].partition);
            if c < i {
                assert(text::text_before(start[c].partition, start[i].partition));
            } else {
                assert(text::text_before(start[i].partition, start[c].partition));
            }
        }
    }
    assert forall|c: int| 0 <= c < start.len() implies (#[trigger] t.cursors[c]).partition
        == start[c].partition by {
        assert(r.cursors[c].partition == start[c].partition);
    }
    assert forall|m: int| 0 <= m < t.out.len() implies exists|c: int|
        0 <= c < start.len() && (#[trigger] t.out[m]).0 == (#[trigger] start[c]).partition by {
        if m < r.out.len() {
            assert(t.out[m] == r.out[m]);
        } else {
            assert(t.out[m].0 == start[i].partition);
        }
    }
}

proof fn lemma_readings_are_sound(
    a: Archive,
    found: Seq<String>,
    now: nat,
    readings: Seq<Reading>,
    i: int,
)
    requires
        sound(a),
        orderly(a),
        closed(a),
        reads_through(a.store, found, now, readings),
        0 <= i < readings.len(),
    ensures
        apart(readings[0].cursors),
        reading_sound(a, found, now, readings[0].cursors, readings[i]),
    decreases i,
{
    let start = readings[0].cursors;
    if i == 0 {
        assert forall|c: int| 0 <= c < start.len() implies of_partition(
            readings[0].out,
            start[c].partition,
        ) + #[trigger] left(a, now, readings[0].cursors[c]) == of_partition(
            found_events(a, found, now),
            start[c].partition,
        ) by {
            lemma_everything_is_left(a, found, now, start, c);
            assert(of_partition(readings[0].out, start[c].partition) + left(a, now, start[c])
                =~= left(a, now, start[c]));
        }
    } else {
        lemma_readings_are_sound(a, found, now, readings, i - 1);
        let r = readings[i - 1];
        let t = readings[i];
        assert(reads_on(a.store, now, r, t));
        if exists|c: int| reads_event(r, t, c) {
            lemma_reading_an_event(a, found, now, start, r, t, choose|c: int| reads_event(r, t, c));
        } else {
            let (asked, cursor, key, events) = choose|
                asked: Seq<CursorView>,
                cursor: int,
                key: Seq<char>,
                events: Seq<StoredView>,
            | fetches_file(a.store, now, r, t, asked, cursor, key, events);
            lemma_fetching(a, found, now, start, r, t, asked, cursor, key, events);
        }
    }
}

/// The events of a partition are among all events, with that partition.
proof fn lemma_among_all(events: Seq<(Seq<char>, StoredView)>, q: Seq<char>, j: int) -> (i: int)
    requires
        0 <= j < of_partition(events, q).len(),
    ensures
        0 <= i < events.len(),
        events[i] == (q, of_partition(events, q)[j]),
    decreases events.len(),
{
    if events.last().0 == q && j == of_partition(events, q).len() - 1 {
        events.len() - 1
    } else {
        lemma_among_all(events.drop_last(), q, j)
    }
}

/// Where no event is of a partition, the partition has none.
proof fn lemma_none_of_partition(events: Seq<(Seq<char>, StoredView)>, q: Seq<char>)
    requires
        forall|i: int| 0 <= i < events.len() ==> (#[trigger] events[i]).0 != q,
    ensures
        of_partition(events, q).len() == 0,
{
    if of_partition(events, q).len() > 0 {
        let i = lemma_among_all(events, q, 0);
        assert(events[i].0 == q);
    }
}

/// An event of the files found is one that was given.
proof fn lemma_covered_is_given(a: Archive, found: Seq<String>, now: nat, n: nat, i: int) -> (g:
    int)
    requires
        n <= a.given.len(),
        0 <= i < covered_events(a, found, now, n).len(),
    ensures
        0 <= g < n,
        is_covered(a, found, g),
        covered_events(a, found, now, n)[i] == (a.given[g].root(), stored_given(a.given, now, g)),
    decreases n,
{
    let fewer = covered_events(a, found, now, (n - 1) as nat);
    if i < fewer.len() {
        lemma_covered_is_given(a, found, now, (n - 1) as nat, i)
    } else {
        n - 1
    }
}

/// Every partition is read back in the order it was written. Writers, one after
/// another over a store that was empty, are given events for whatever symbols and
/// in whatever key namespaces; their files are stored as they roll and when they
/// are closed, and no write fails. Where no partition's hours go back, a reader over
/// whatever files were found in the store, under one prefix or several, gives of each
/// partition just the events of those files, each once and in the order they came,
/// whatever ties there are among their stamps: with their venue, symbol, time stamps
/// and contents, and their offset from the first event of their own run.
pub proof fn law_every_partition_is_read_back_in_order(
    history: Seq<Archive>,
    found: Seq<String>,
    now: nat,
    readings: Seq<Reading>,
    q: Seq<char>,
)
    requires
        unfolds(history),
        closed(history.last()),
        reads_through(history.last().store, found, now, readings),
    ensures
        of_partition(readings.last().out, q) == of_partition(
            found_events(history.last(), found, now),
            q,
        ),
{
    let a = history.last();
    let r = readings.last();
    let start = readings[0].cursors;
    let all = found_events(a, found, now);
    lemma_history_is_sound(history, history.len() - 1);
    assert(orderly(history[history.len() - 1]));
    lemma_readings_are_sound(a, found, now, readings, readings.len() - 1);
    if exists|c: int| 0 <= c < start.len() && (#[trigger] start[c]).partition == q {
        let c = choose|c: int| 0 <= c < start.len() && (#[trigger] start[c]).partition == q;
        assert(r.cursors[c].keys.len() == 0 && r.cursors[c].pending.len() == 0);
        assert(left(a, now, r.cursors[c]).len() == 0);
        assert(of_partition(r.out, q) + left(a, now, r.cursors[c]) =~= of_partition(r.out, q));
    } else {
        assert forall|i: int| 0 <= i < r.out.len() implies (#[trigger] r.out[i]).0 != q by {
            let c = choose|c: int|
                0 <= c < start.len() && r.out[i].0 == (#[trigger] start[c]).partition;
            assert(start[c].partition != q);
        }
        lemma_none_of_partition(r.out, q);
        assert forall|i: int| 0 <= i < all.len() implies (#[trigger] all[i]).0 != q by {
            let g = lemma_covered_is_given(a, found, now, a.given.len(), i);
            let k = choose|k: Seq<char>| #[trigger]
                is_found(found, k) && a.store.contains_key(k) && has_event(
                    a,
                    a.store[k].first,
                    a.store[k].entries,
                    g,
                );
            lemma_event_has_a_place(a, k, g);
            let c = lemma_cursor_of(a, found, start, k);
            assert(start[c].partition != q);
        }
        lemma_none_of_partition(all, q);
        assert(of_partition(r.out, q) =~= of_partition(all, q));
    }
}

/// Where every file of a partition was found, all events that were written to it
/// are in the files found.
pub proof fn law_a_whole_partition_is_all_there(
    history: Seq<Archive>,
    found: Seq<String>,
    now: nat,
    q: Seq<char>,
)
    requires
        unfolds(history),
        closed(history.last()),
        forall|k: Seq<char>| #[trigger]
            history.last().store.contains_key(k) && keys::partition_in(k) == q ==> is_found(
                found,
                k,
            ),
    ensures
        of_partition(found_events(history.last(), found, now), q) == of_partition(
            stored_events(history.last().given, now),
            q,
        ),
{
    let a = history.last();
    lemma_history_is_sound(history, history.len() - 1);
    assert(orderly(history[history.len() - 1]));
    lemma_whole_partition(a, found, now, q, a.given.len());
    assert(stored_events(a.given, now).take(a.given.len() as int) =~= stored_events(a.given, now));
}

proof fn lemma_whole_partition(
    a: Archive,
    found: Seq<String>,
    now: nat,
    q: Seq<char>,
    n: nat,
)
    requires
        sound(a),
        orderly(a),
        closed(a),
        n <= a.given.len(),
        forall|k: Seq<char>| #[trigger]
            a.store.contains_key(k) && keys::partition_in(k) == q ==> is_found(found, k),
    ensures
        of_partition(covered_events(a, found, now, n), q) == of_partition(
            stored_events(a.given, now).take(n as int),
            q,
        ),
    decreases n,
{
    if n > 0 {
        let fewer = covered_events(a, found, now, (n - 1) as nat);
        let all = stored_events(a.given, now).take(n as int);
        lemma_whole_partition(a, found, now, q, (n - 1) as nat);
        assert(all.drop_last() =~= stored_events(a.given, now).take(n - 1));
        assert(all.last() == (a.given[n - 1].root(), stored_given(a.given, now, n - 1)));
        let k = lemma_where_it_is(a, n - 1);
        if a.given[n - 1].root() == q {
            assert(is_found(found, k));
            assert(is_covered(a, found, n - 1));
        }
        if is_covered(a, found, n - 1) {
            assert(covered_events(a, found, now, n).drop_last() =~= fewer);
        }
    }
}

/// Where no partition's stamps fall, what is left of it does not fall either.
proof fn lemma_left_does_not_fall(
    a: Archive,
    found: Seq<String>,
    now: nat,
    start: Seq<CursorView>,
    r: Reading,
    c: int,
    i: int,
    j: int,
)
    requires
        reading_sound(a, found, now, start, r),
        non_falling(a.given),
        0 <= c < start.len(),
        0 <= i <= j < left(a, now, r.cursors[c]).len(),
    ensures
        left(a, now, r.cursors[c])[i].event.wall <= left(a, now, r.cursors[c])[j].event.wall,
{
    let q = start[c].partition;
    let mine = left(a, now, r.cursors[c]);
    let read = of_partition(r.out, q);
    let whole = of_partition(found_events(a, found, now), q);
    assert(read + mine == whole);
    assert(whole[read.len() + i] == mine[i]);
    assert(whole[read.len() + j] == mine[j]);
    lemma_partition_does_not_fall(
        a,
        found,
        now,
        q,
        a.given.len(),
        read.len() + i,
        read.len() + j,
    );
}

/// Where no partition's stamps fall, those of its stored events do not.
proof fn lemma_partition_does_not_fall(
    a: Archive,
    found: Seq<String>,
    now: nat,
    q: Seq<char>,
    n: nat,
    i: int,
    j: int,
)
    requires
        non_falling(a.given),
        n <= a.given.len(),
        0 <= i <= j < of_partition(covered_events(a, found, now, n), q).len(),
    ensures
        of_partition(covered_events(a, found, now, n), q)[i].event.wall <= of_partition(
            covered_events(a, found, now, n),
            q,
        )[j].event.wall,
    decreases n,
{
    if n > 0 {
        let all = covered_events(a, found, now, n);
        let fewer = covered_events(a, found, now, (n - 1) as nat);
        if !is_covered(a, found, n - 1) {
            lemma_partition_does_not_fall(a, found, now, q, (n - 1) as nat, i, j);
        } else {
            assert(all.drop_last() =~= fewer);
            assert(all.last() == (a.given[n - 1].root(), stored_given(a.given, now, n - 1)));
            if j < of_partition(fewer, q).len() {
                lemma_partition_does_not_fall(a, found, now, q, (n - 1) as nat, i, j);
            } else if i < j {
                let t = lemma_among_all(fewer, q, i);
                let g = lemma_covered_is_given(a, found, now, (n - 1) as nat, t);
                assert(a.given[g].root() == a.given[n - 1].root());
                assert(clamped_nanos(a.given[g].event.wall) <= clamped_nanos(
                    a.given[n - 1].event.wall,
                ));
            }
        }
    }
}

/// Whether events come before everything that is left.
spec fn ahead(a: Archive, now: nat, start: Seq<CursorView>, r: Reading) -> bool {
    forall|m: int, c: int, j: int|
        0 <= m < r.out.len() && 0 <= c < start.len() && 0 <= j < left(a, now, r.cursors[c]).len()
            ==> precedes(
            #[trigger] r.out[m],
            (start[c].partition, #[trigger] left(a, now, r.cursors[c])[j]),
        )
}

/// The event that comes next comes before everything else that is left.
proof fn lemma_next_is_ahead(
    a: Archive,
    found: Seq<String>,
    now: nat,
    start: Seq<CursorView>,
    r: Reading,
    i: int,
    c: int,
    j: int,
)
    requires
        apart(start),
        reading_sound(a, found, now, start, r),
        non_falling(a.given),
        forall|d: int| 0 <= d < r.cursors.len() ==> !reader::needs_file(#[trigger] r.cursors[d]),
        reader::comes_next(r.cursors, i),
        0 <= c < start.len(),
        0 <= j < left(a, now, r.cursors[c]).len(),
    ensures
        precedes(
            (start[i].partition, r.cursors[i].pending[0]),
            (start[c].partition, left(a, now, r.cursors[c])[j]),
        ),
{
    let theirs = left(a, now, r.cursors[c]);
    assert(!reader::needs_file(r.cursors[c]));
    assert(r.cursors[c].pending.len() > 0) by {
        if r.cursors[c].pending.len() == 0 {
            assert(contents_of_all(a, now, r.cursors[c].keys).len() == 0);
        }
    }
    assert(theirs[0] == r.cursors[c].pending[0]);
    lemma_left_does_not_fall(a, found, now, start, r, c, 0, j);
    assert(r.cursors[c].partition == start[c].partition);
    if i < c {
        assert(text::text_before(start[i].partition, start[c].partition));
    }
}

proof fn lemma_readings_follow_the_stamps(
    a: Archive,
    found: Seq<String>,
    now: nat,
    readings: Seq<Reading>,
    i: int,
)
    requires
        sound(a),
        orderly(a),
        closed(a),
        non_falling(a.given),
        reads_through(a.store, found, now, readings),
        0 <= i < readings.len(),
    ensures
        by_stamp(readings[i].out),
        ahead(a, now, readings[0].cursors, readings[i]),
    decreases i,
{
    let start = readings[0].cursors;
    if i > 0 {
        lemma_readings_follow_the_stamps(a, found, now, readings, i - 1);
        lemma_readings_are_sound(a, found, now, readings, i - 1);
        let r = readings[i - 1];
        let t = readings[i];
        assert(reads_on(a.store, now, r, t));
        if exists|c: int| reads_event(r, t, c) {
            let n = choose|c: int| reads_event(r, t, c);
            lemma_reading_an_event(a, found, now, start, r, t, n);
            let event = (start[n].partition, r.cursors[n].pending[0]);
            assert(r.cursors[n].partition == start[n].partition);
            assert(t.out == r.out.push(event));
            let mine = left(a, now, r.cursors[n]);
            assert forall|p: int, q: int| 0 <= p < q < t.out.len() implies precedes(
                #[trigger] t.out[p],
                #[trigger] t.out[q],
            ) by {
                assert(t.out[p] == r.out[p]);
                if q < r.out.len() {
                    assert(t.out[q] == r.out[q]);
                } else {
                    assert(t.out[q] == (start[n].partition, mine[0]));
                }
            }
            assert forall|m: int, c: int, j: int|
                0 <= m < t.out.len() && 0 <= c < start.len() && 0 <= j < left(
                    a,
                    now,
                    t.cursors[c],
                ).len() implies precedes(
                #[trigger] t.out[m],
                (start[c].partition, #[trigger] left(a, now, t.cursors[c])[j]),
            ) by {
                let before = if c == n {
                    j + 1
                } else {
                    j
                };
                assert(left(a, now, t.cursors[c])[j] == left(a, now, r.cursors[c])[before]);
                if m < r.out.len() {
                    assert(t.out[m] == r.out[m]);
                } else {
                    assert(t.out[m] == event);
                    lemma_next_is_ahead(a, found, now, start, r, n, c, before);
                }
            }
        } else {
            let (asked, cursor, key, events) = choose|
                asked: Seq<CursorView>,
                cursor: int,
                key: Seq<char>,
                events: Seq<StoredView>,
            | fetches_file(a.store, now, r, t, asked, cursor, key, events);
            lemma_fetching(a, found, now, start, r, t, asked, cursor, key, events);
            assert forall|m: int, c: int, j: int|
                0 <= m < t.out.len() && 0 <= c < start.len() && 0 <= j < left(
                    a,
                    now,
                    t.cursors[c],
                ).len() implies precedes(
                #[trigger] t.out[m],
                (start[c].partition, #[trigger] left(a, now, t.cursors[c])[j]),
            ) by {
                assert(left(a, now, t.cursors[c]) == left(a, now, r.cursors[c]));
                assert(t.out[m] == r.out[m]);
            }
        }
    }
}

/// Where no partition's stamps fall, events are read in the order of their stamps,
/// and equally stamped ones in the order of their partitions.
pub proof fn law_reading_follows_the_stamps(
    history: Seq<Archive>,
    found: Seq<String>,
    now: nat,
    readings: Seq<Reading>,
)
    requires
        unfolds(history),
        closed(history.last()),
        non_falling(history.last().given),
        reads_through(history.last().store, found, now, readings),
    ensures
        by_stamp(readings.last().out),
{
    lemma_history_is_sound(history, history.len() - 1);
    assert(orderly(history[history.len() - 1]));
    lemma_readings_follow_the_stamps(
        history.last(),
        found,
        now,
        readings,
        readings.len() - 1,
    );
}

/// Events of the same partitions, in the order of stamps, then partitions, have
/// one order: that order and those of the partitions leave no choice.
pub proof fn law_one_order_is_left(
    x: Seq<(Seq<char>, StoredView)>,
    y: Seq<(Seq<char>, StoredView)>,
)
    requires
        by_stamp(x),
        by_stamp(y),
        forall|q: Seq<char>| #[trigger] of_partition(x, q) == of_partition(y, q),
    ensures
        x == y,
    decreases x.len(),
{
    if x.len() == 0 {
        if y.len() > 0 {
            assert(of_partition(y, y.last().0).len() > 0);
            assert(of_partition(x, y.last().0).len() == 0);
        }
        assert(x =~= y);
    } else {
        let p = x.last();
        assert(of_partition(x, p.0).last() == p.1);
        assert(of_partition(y, p.0).len() > 0);
        let r = y.last();
        assert(of_partition(y, r.0).last() == r.1);
        assert(of_partition(x, r.0) == of_partition(y, r.0));
        if p.0 != r.0 {
            let i = lemma_among_all(y, p.0, of_partition(y, p.0).len() - 1);
            let j = lemma_among_all(x, r.0, of_partition(x, r.0).len() - 1);
            assert(precedes(y[i], y[y.len() - 1]));
            assert(precedes(x[j], x[x.len() - 1]));
            text::lemma_text_before_irreflexive(p.0);
            if text::text_before(p.0, r.0) && text::text_before(r.0, p.0) {
                text::lemma_text_before_transitive(p.0, r.0, p.0);
            }
        }
        assert(p == r);
        let fewer = x.drop_last();
        let others = y.drop_last();
        assert forall|q: Seq<char>| #[trigger] of_partition(fewer, q) == of_partition(
            others,
            q,
        ) by {
            assert(of_partition(x, q) == of_partition(y, q));
            if q == p.0 {
                assert(of_partition(x, q).drop_last() =~= of_partition(fewer, q));
                assert(of_partition(y, q).drop_last() =~= of_partition(others, q));
            }
        }
        assert(by_stamp(fewer)) by {
            assert forall|i: int, j: int| 0 <= i < j < fewer.len() implies precedes(
                #[trigger] fewer[i],
                #[trigger] fewer[j],
            ) by {
                assert(fewer[i] == x[i] && fewer[j] == x[j]);
            }
        }
        assert(by_stamp(others)) by {
            assert forall|i: int, j: int| 0 <= i < j < others.len() implies precedes(
                #[trigger] others[i],
                #[trigger] others[j],
            ) by {
                assert(others[i] == y[i] && others[j] == y[j]);
            }
        }
        law_one_order_is_left(fewer, others);
        assert(x =~= fewer.push(p));
        assert(y =~= others.push(r));
    }
}

/// Events that came in the order of their stamps are so in the files found.
proof fn lemma_covered_by_stamp(a: Archive, found: Seq<String>, now: nat, n: nat)
    requires
        n <= a.given.len(),
        by_stamp(stored_events(a.given, now)),
    ensures
        by_stamp(covered_events(a, found, now, n)),
    decreases n,
{
    if n > 0 {
        let all = covered_events(a, found, now, n);
        let fewer = covered_events(a, found, now, (n - 1) as nat);
        let given = stored_events(a.given, now);
        lemma_covered_by_stamp(a, found, now, (n - 1) as nat);
        assert forall|i: int, j: int| 0 <= i < j < all.len() implies precedes(
            #[trigger] all[i],
            #[trigger] all[j],
        ) by {
            assert(all[i] == fewer[i]);
            if j < fewer.len() {
                assert(all[j] == fewer[j]);
            } else {
                let g = lemma_covered_is_given(a, found, now, (n - 1) as nat, i);
                assert(precedes(given[g], given[n - 1]));
            }
        }
    }
}

/// Where everything was found, all events are in the files found.
proof fn lemma_all_covered(a: Archive, found: Seq<String>, now: nat, n: nat)
    requires
        sound(a),
        orderly(a),
        closed(a),
        n <= a.given.len(),
        forall|k: Seq<char>| #[trigger] a.store.contains_key(k) ==> is_found(found, k),
    ensures
        covered_events(a, found, now, n) == stored_events(a.given, now).take(n as int),
    decreases n,
{
    let all = stored_events(a.given, now);
    if n > 0 {
        lemma_all_covered(a, found, now, (n - 1) as nat);
        let k = lemma_where_it_is(a, n - 1);
        assert(is_found(found, k));
        assert(is_covered(a, found, n - 1));
        assert(all.take(n as int) =~= all.take(n - 1).push(all[n - 1]));
    } else {
        assert(all.take(0) =~= Seq::empty());
    }
}

/// What was archived is read back. Where events came in the order of their stamps,
/// and equally stamped ones in that of their partitions, a reader gives each event
/// of the files found once, all of them in the order they came, as they are stored:
/// with their venue, symbol, time stamps and contents, and their offset from the
/// first event of their run. Where everything in the store was found, those are all
/// the events that were ever given to a writer.
pub proof fn law_what_was_archived_is_read_back(
    history: Seq<Archive>,
    found: Seq<String>,
    now: nat,
    readings: Seq<Reading>,
)
    requires
        unfolds(history),
        closed(history.last()),
        by_stamp(stored_events(history.last().given, now)),
        reads_through(history.last().store, found, now, readings),
    ensures
        readings.last().out == found_events(history.last(), found, now),
        (forall|k: Seq<char>| #[trigger]
            history.last().store.contains_key(k) ==> is_found(found, k))
            ==> readings.last().out == stored_events(history.last().given, now),
{
    let a = history.last();
    let out = readings.last().out;
    let all = stored_events(a.given, now);
    let covered = found_events(a, found, now);
    lemma_history_is_sound(history, history.len() - 1);
    assert(orderly(history[history.len() - 1]));
    assert(non_falling(a.given)) by {
        assert forall|i: int, j: int|
            0 <= i < j < a.given.len() && (#[trigger] a.given[i]).root() == (
            #[trigger] a.given[j]).root() implies clamped_nanos(a.given[i].event.wall)
            <= clamped_nanos(a.given[j].event.wall) by {
            assert(precedes(all[i], all[j]));
        }
    }
    law_reading_follows_the_stamps(history, found, now, readings);
    lemma_covered_by_stamp(a, found, now, a.given.len());
    assert forall|q: Seq<char>| #[trigger] of_partition(out, q) == of_partition(covered, q) by {
        law_every_partition_is_read_back_in_order(history, found, now, readings, q);
    }
    law_one_order_is_left(out, covered);
    if forall|k: Seq<char>| #[trigger] a.store.contains_key(k) ==> is_found(found, k) {
        lemma_all_covered(a, found, now, a.given.len());
        assert(all.take(a.given.len() as int) =~= all);
    }
}

} // verus!
