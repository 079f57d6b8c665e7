//! Archived events in one stream: one cursor per partition, merged by wall clock.
//!
//! Within a partition the order is exact: key order, then row order. Between
//! partitions it is that of the wall clock, the first partition winning a tie.
use std::collections::VecDeque;

use vstd::prelude::*;

use crate::decode;
use crate::decode::{ReadError, StoredEvent, StoredView};
use crate::keys;
use crate::text;
use crate::textmap::TextMap;

verus! {

/// One partition's files, read in key order.
#[derive(Debug)]
struct Cursor {
    partition: String,
    keys: VecDeque<String>,
    pending: VecDeque<StoredEvent>,
}

/// What is left of a partition: the files not fetched yet, and the events of the
/// last one that was.
pub struct CursorView {
    pub partition: Seq<char>,
    pub keys: Seq<Seq<char>>,
    pub pending: Seq<StoredView>,
}

impl View for Cursor {
    type V = CursorView;

    closed spec fn view(&self) -> CursorView {
        CursorView {
            partition: self.partition@,
            keys: text::views(self.keys@),
            pending: decode::stored_views(self.pending@),
        }
    }
}

/// Reads events back, merging partitions into one stream.
#[derive(Debug)]
pub struct EventReader {
    cursors: Vec<Cursor>,
}

impl View for EventReader {
    type V = Seq<CursorView>;

    closed spec fn view(&self) -> Seq<CursorView> {
        self.cursors@.map_values(|c: Cursor| c@)
    }
}

/// Whether a key is that of a file to read, among those found.
pub open spec fn wanted(found: Seq<String>, key: Seq<char>) -> bool {
    text::ends(key, ".parquet"@) && exists|i: int|
        0 <= i < found.len() && (#[trigger] found[i])@ == key
}

/// Whether a cursor has a file to read.
pub open spec fn lists(c: CursorView, key: Seq<char>) -> bool {
    c.keys.contains(key)
}

/// Whether texts are in dictionary order, none twice.
pub open spec fn rising(texts: Seq<Seq<char>>) -> bool {
    forall|i: int, j: int|
        0 <= i < j < texts.len() ==> text::text_before(#[trigger] texts[i], #[trigger] texts[j])
}

/// Whether a cursor is one of a partition not read from yet: its files in key
/// order, each once, and at least one.
pub open spec fn fresh(c: CursorView) -> bool {
    &&& rising(c.keys)
    &&& c.keys.len() > 0
    &&& c.pending.len() == 0
    &&& forall|i: int| 0 <= i < c.keys.len() ==> keys::partition_in(#[trigger] c.keys[i])
        == c.partition
}

/// Whether a partition still needs a file before its next event is known.
pub open spec fn needs_file(c: CursorView) -> bool {
    c.pending.len() == 0 && c.keys.len() > 0
}

/// Whether a partition's next event comes next: none is earlier on the wall
/// clock, and none of a partition before it is at the same time.
pub open spec fn comes_next(cursors: Seq<CursorView>, i: int) -> bool {
    &&& 0 <= i < cursors.len()
    &&& cursors[i].pending.len() > 0
    &&& forall|j: int|
        0 <= j < cursors.len() && (#[trigger] cursors[j]).pending.len() > 0
            ==> cursors[i].pending[0].event.wall < cursors[j].pending[0].event.wall || (
        cursors[i].pending[0].event.wall == cursors[j].pending[0].event.wall && i <= j)
}

/// Whether cursors are those over the files found: one per partition in the order
/// of their names, each with its files in key order, and every file to read in one
/// of them.
pub open spec fn set_up(found: Seq<String>, cursors: Seq<CursorView>) -> bool {
    &&& forall|c: int| 0 <= c < cursors.len() ==> fresh(#[trigger] cursors[c])
    &&& forall|c: int, d: int|
        0 <= c < d < cursors.len() ==> text::text_before(
            (#[trigger] cursors[c]).partition,
            (#[trigger] cursors[d]).partition,
        )
    &&& forall|c: int, k: Seq<char>|
        0 <= c < cursors.len() && #[trigger] lists(cursors[c], k) ==> wanted(found, k)
    &&& forall|k: Seq<char>|
        #[trigger] wanted(found, k) ==> exists|c: int|
            0 <= c < cursors.len() && #[trigger] lists(cursors[c], k)
}

/// Whether the first partition that needs a file gives up the key of its next one.
pub open spec fn fetches(
    before: Seq<CursorView>,
    after: Seq<CursorView>,
    cursor: int,
    key: Seq<char>,
) -> bool {
    &&& 0 <= cursor < before.len()
    &&& needs_file(before[cursor])
    &&& forall|j: int| 0 <= j < cursor ==> !needs_file(#[trigger] before[j])
    &&& key == before[cursor].keys[0]
    &&& after == before.update(
        cursor,
        CursorView { keys: before[cursor].keys.drop_first(), ..before[cursor] },
    )
}

/// Whether the event that comes next was taken out, every partition's next event
/// being known.
pub open spec fn yields(
    before: Seq<CursorView>,
    after: Seq<CursorView>,
    event: StoredView,
) -> bool {
    &&& forall|j: int| 0 <= j < before.len() ==> !needs_file(#[trigger] before[j])
    &&& exists|i: int|
        {
            &&& #[trigger] comes_next(before, i)
            &&& event == before[i].pending[0]
            &&& after == before.update(
                i,
                CursorView { pending: before[i].pending.drop_first(), ..before[i] },
            )
        }
}

/// Whether nothing is left.
pub open spec fn exhausted(cursors: Seq<CursorView>) -> bool {
    forall|j: int|
        0 <= j < cursors.len() ==> (#[trigger] cursors[j]).keys.len() == 0
            && cursors[j].pending.len() == 0
}

/// What has to be done for the next event.
#[derive(Debug)]
pub enum ReadStep {
    /// Fetch a file for a partition, and supply it.
    Fetch { cursor: usize, key: String },
    /// Nothing: this is the event.
    Event(StoredEvent),
    /// Nothing: every partition is exhausted.
    Done,
}

/// The files of each partition, none twice.
struct Groups {
    by_partition: TextMap<TextMap<bool>>,
}

impl Groups {
    /// Whether these are the first of the files found, grouped.
    spec fn of(self, found: Seq<String>, n: int) -> bool {
        let g = self.by_partition@;
        &&& self.by_partition.wf()
        &&& forall|p: Seq<char>|
            #[trigger] g.contains_key(p) ==> g[p].wf() && exists|k: Seq<char>|
                #[trigger] g[p]@.contains_key(k)
        &&& forall|p: Seq<char>, k: Seq<char>|
            g.contains_key(p) && #[trigger] g[p]@.contains_key(k) ==> keys::partition_in(k) == p
                && wanted(found.take(n), k)
        &&& forall|k: Seq<char>|
            #[trigger] wanted(found.take(n), k) ==> g.contains_key(keys::partition_in(k))
                && g[keys::partition_in(k)]@.contains_key(k)
    }
}

/// Groups the files found by their partitions.
fn grouped(found: &[String]) -> (r: Groups)
    ensures
        r.of(found@, found@.len() as int),
{
    let mut groups = Groups { by_partition: TextMap::new() };
    let ending = text::characters(".parquet");
    let mut i: usize = 0;
    while i < found.len()
        invariant
            i <= found@.len(),
            ending@ == ".parquet"@,
            groups.of(found@, i as int),
        decreases found@.len() - i,
    {
        let ghost before = groups;
        let ghost now = found@.take(i + 1);
        let ghost was = found@.take(i as int);
        let ghost key = found@[i as int]@;
        proof {
            assert forall|k: Seq<char>| #[trigger] wanted(now, k) implies wanted(was, k) || (k
                == key && text::ends(k, ".parquet"@)) by {
                let j = choose|j: int| 0 <= j < now.len() && (#[trigger] now[j])@ == k;
                if j < i {
                    assert(was[j]@ == k);
                }
            }
            assert forall|k: Seq<char>| #[trigger] wanted(was, k) implies wanted(now, k) by {
                let j = choose|j: int| 0 <= j < was.len() && (#[trigger] was[j])@ == k;
                assert(now[j]@ == k);
            }
        }
        let chars = text::characters(found[i].as_str());
        if text::ends_with(&chars, &ending) {
            assert(now[i as int]@ == key);
            assert(wanted(now, key));
            let p = keys::partition_of(found[i].as_str());
            let mut inner = match groups.by_partition.remove(p.as_str()) {
                Some(m) => m,
                None => TextMap::new(),
            };
            let ghost inner_before = inner;
            let ghost name = p@;
            inner.insert(found[i].as_str().to_owned(), true);
            let ghost inner_after = inner;
            groups.by_partition.insert(p, inner);
            proof {
                let g = groups.by_partition@;
                let b = before.by_partition@;
                assert(g =~= b.remove(name).insert(name, inner_after));
                assert(inner_after@.contains_key(key));
                assert forall|q: Seq<char>| #[trigger] g.contains_key(q) implies g[q].wf()
                    && exists|k: Seq<char>| #[trigger] g[q]@.contains_key(k) by {
                    if q != name {
                        assert(b.contains_key(q));
                        let some = choose|k: Seq<char>| #[trigger] b[q]@.contains_key(k);
                        assert(g[q]@.contains_key(some));
                    } else {
                        assert(g[q]@.contains_key(key));
                    }
                }
                assert forall|q: Seq<char>, k: Seq<char>|
                    g.contains_key(q) && #[trigger] g[q]@.contains_key(k) implies keys::partition_in(
                    k,
                ) == q && wanted(now, k) by {
                    if q != name {
                        assert(b.contains_key(q) && b[q]@.contains_key(k));
                    } else if k != key {
                        assert(inner_before@.contains_key(k));
                        assert(b.contains_key(name) && b[name]@.contains_key(k));
                    }
                }
                assert forall|k: Seq<char>| #[trigger] wanted(now, k) implies g.contains_key(
                    keys::partition_in(k),
                ) && g[keys::partition_in(k)]@.contains_key(k) by {
                    if k != key {
                        assert(wanted(was, k));
                    }
                }
            }
        } else {
            assert forall|k: Seq<char>| #[trigger] wanted(now, k) implies wanted(was, k) by {}
        }
        i += 1;
    }
    groups
}

impl EventReader {
    /// A reader over the files found, whatever prefixes they were found under:
    /// one cursor per partition in the order of their names, each with its files
    /// in key order. A file that was found twice is read once.
    pub fn over(found: &[String]) -> (r: EventReader)
        ensures
            set_up(found@, r@),
    {
        let groups = grouped(found);
        let ghost g = groups.by_partition@;
        assert(found@.take(found@.len() as int) =~= found@);
        proof {
            groups.by_partition.lemma_keys();
        }
        let ghost names = groups.by_partition.keys();
        let mut cursors: Vec<Cursor> = Vec::new();
        let mut i: usize = 0;
        while i < groups.by_partition.len()
            invariant
                i <= names.len(),
                groups.of(found@, found@.len() as int),
                found@.take(found@.len() as int) == found@,
                g == groups.by_partition@,
                names == groups.by_partition.keys(),
                names.len() == g.dom().len(),
                names.to_set() == g.dom(),
                cursors@.len() == i,
                forall|c: int|
                    0 <= c < i ==> fresh((#[trigger] cursors@[c])@) && cursors@[c]@.partition
                        == names[c] && cursors@[c]@.keys.to_set() == g[names[c]]@.dom(),
            decreases names.len() - i,
        {
            let p = groups.by_partition.key_at(i);
            let inner = groups.by_partition.value_at(i);
            assert(g.contains_key(p@));
            proof {
                inner.lemma_keys();
            }
            let mut queue: VecDeque<String> = VecDeque::new();
            let mut j: usize = 0;
            assert(text::views(queue@) =~= inner.keys().take(0));
            while j < inner.len()
                invariant
                    j <= inner.keys().len(),
                    inner.wf(),
                    inner.keys().len() == inner@.dom().len(),
                    text::views(queue@) == inner.keys().take(j as int),
                decreases inner.keys().len() - j,
            {
                let ghost before = queue@;
                let k = inner.key_at(j);
                queue.push_back(k.to_owned());
                j += 1;
                assert(text::views(queue@) =~= text::views(before).push(inner.keys()[j - 1]));
                assert(inner.keys().take(j as int) =~= inner.keys().take(j - 1).push(
                    inner.keys()[j - 1],
                ));
            }
            assert(inner.keys().take(inner.keys().len() as int) =~= inner.keys());
            let cursor = Cursor { partition: p.to_owned(), keys: queue, pending: VecDeque::new() };
            proof {
                assert(cursor@.keys == inner.keys());
                let some = choose|k: Seq<char>| #[trigger] g[p@]@.contains_key(k);
                assert(inner@.contains_key(some));
                assert(inner.keys().to_set().contains(some));
                assert forall|c: int| 0 <= c < cursor@.keys.len() implies keys::partition_in(
                    #[trigger] cursor@.keys[c],
                ) == cursor@.partition by {
                    assert(inner.keys().contains(cursor@.keys[c]));
                    assert(inner.keys().to_set().contains(cursor@.keys[c]));
                    assert(g[p@]@.contains_key(cursor@.keys[c]));
                }
                assert(cursor@.pending.len() == 0);
                assert(fresh(cursor@));
            }
            cursors.push(cursor);
            i += 1;
        }
        let r = EventReader { cursors };
        proof {
            groups.by_partition.lemma_keys();
            assert forall|c: int| 0 <= c < r@.len() implies fresh(#[trigger] r@[c]) && r@[c]
                == cursors@[c]@ by {}
            assert forall|c: int, d: int| 0 <= c < d < r@.len() implies text::text_before(
                (#[trigger] r@[c]).partition,
                (#[trigger] r@[d]).partition,
            ) by {
                assert(text::text_before(names[c], names[d]));
            }
            assert forall|c: int, k: Seq<char>|
                0 <= c < r@.len() && #[trigger] lists(r@[c], k) implies wanted(found@, k) by {
                assert(cursors@[c]@.keys.to_set().contains(k));
                assert(names.contains(names[c]));
                assert(names.to_set().contains(names[c]));
                assert(g.contains_key(names[c]));
                assert(g[names[c]]@.contains_key(k));
            }
            assert forall|k: Seq<char>| #[trigger] wanted(found@, k) implies exists|c: int|
                0 <= c < r@.len() && #[trigger] lists(r@[c], k) by {
                let p = keys::partition_in(k);
                assert(g.contains_key(p) && g[p]@.contains_key(k));
                assert(names.to_set().contains(p));
                let c = choose|c: int| 0 <= c < names.len() && names[c] == p;
                assert(cursors@[c]@.keys.to_set().contains(k));
                assert(lists(r@[c], k));
            }
        }
        r
    }

    /// The next event, or what has to be fetched first. Every partition's next
    /// event is known before one is chosen.
    pub fn next_step(&mut self) -> (r: ReadStep)
        ensures
            match r {
                ReadStep::Fetch { cursor, key } => fetches(
                    old(self)@,
                    final(self)@,
                    cursor as int,
                    key@,
                ),
                ReadStep::Event(e) => yields(old(self)@, final(self)@, e@),
                ReadStep::Done => exhausted(old(self)@) && final(self)@ == old(self)@,
            },
    {
        let ghost before = self@;
        let mut i: usize = 0;
        while i < self.cursors.len()
            invariant
                i <= self.cursors@.len(),
                self@ == before,
                before == old(self)@,
                before.len() == self.cursors@.len(),
                forall|j: int| 0 <= j < i ==> !needs_file(#[trigger] before[j]),
            decreases self.cursors@.len() - i,
        {
            assert(before[i as int] == self.cursors@[i as int]@);
            if self.cursors[i].pending.len() == 0 && self.cursors[i].keys.len() > 0 {
                let ghost cursors = self.cursors@;
                let cursor = &mut self.cursors[i];
                let popped = cursor.keys.pop_front();
                match popped {
                    Some(key) => {
                        proof {
                            let queue = cursors[i as int].keys@;
                            assert(text::views(queue.subrange(1, queue.len() as int)) =~= text::views(
                                queue,
                            ).drop_first());
                            assert(self@ =~= before.update(
                                i as int,
                                CursorView {
                                    keys: before[i as int].keys.drop_first(),
                                    ..before[i as int]
                                },
                            ));
                        }
                        return ReadStep::Fetch { cursor: i, key };
                    },
                    None => {},
                }
            }
            i += 1;
        }
        let mut best: Option<usize> = None;
        let mut k: usize = 0;
        while k < self.cursors.len()
            invariant
                k <= self.cursors@.len(),
                self@ == before,
                before == old(self)@,
                before.len() == self.cursors@.len(),
                forall|j: int| 0 <= j < before.len() ==> !needs_file(#[trigger] before[j]),
                match best {
                    Some(b) => b < k && comes_next(before.take(k as int), b as int),
                    None => forall|j: int| 0 <= j < k ==> (#[trigger] before[j]).pending.len() == 0,
                },
            decreases self.cursors@.len() - k,
        {
            assert(before[k as int] == self.cursors@[k as int]@);
            let ghost was = best;
            if self.cursors[k].pending.len() > 0 {
                best = match best {
                    None => Some(k),
                    Some(b) => {
                        assert(before[b as int] == self.cursors@[b as int]@);
                        assert(before.take(k as int)[b as int] == before[b as int]);
                        let wall = self.cursors[k].pending[0].event.ingest_ts.wall();
                        let other = self.cursors[b].pending[0].event.ingest_ts.wall();
                        if wall.earlier_than(&other) {
                            Some(k)
                        } else {
                            Some(b)
                        }
                    },
                };
            }
            proof {
                let upto = before.take(k + 1);
                if let Some(b) = best {
                    assert forall|j: int|
                        0 <= j < upto.len() && (#[trigger] upto[j]).pending.len() > 0 implies upto[b
                        as int].pending[0].event.wall < upto[j].pending[0].event.wall || (upto[b
                        as int].pending[0].event.wall == upto[j].pending[0].event.wall && b
                        <= j) by {
                        assert(upto[j] == before[j]);
                        assert(upto[b as int] == before[b as int]);
                        if j < k {
                            assert(before.take(k as int)[j] == before[j]);
                            if let Some(w) = was {
                                assert(before.take(k as int)[w as int] == before[w as int]);
                            }
                        }
                    }
                    assert(comes_next(upto, b as int));
                }
            }
            k += 1;
        }
        assert(before.take(before.len() as int) =~= before);
        match best {
            None => {
                assert forall|j: int| 0 <= j < before.len() implies (
                #[trigger] before[j]).keys.len() == 0 by {
                    assert(!needs_file(before[j]));
                }
                ReadStep::Done
            },
            Some(b) => {
                assert(comes_next(before, b as int));
                assert(before[b as int] == self.cursors@[b as int]@);
                let ghost cursors = self.cursors@;
                let cursor = &mut self.cursors[b];
                let popped = cursor.pending.pop_front();
                match popped {
                    Some(e) => {
                        proof {
                            let queue = cursors[b as int].pending@;
                            assert(decode::stored_views(queue.subrange(1, queue.len() as int))
                                =~= decode::stored_views(queue).drop_first());
                            assert(self@ =~= before.update(
                                b as int,
                                CursorView {
                                    pending: before[b as int].pending.drop_first(),
                                    ..before[b as int]
                                },
                            ));
                        }
                        ReadStep::Event(e)
                    },
                    None => ReadStep::Done,
                }
            },
        }
    }
}

impl EventReader {
    /// Supplies what was read of a file that was fetched for a partition: its
    /// events come next there. Where it could not be read, the partition goes on
    /// with its next file.
    pub fn supply(&mut self, cursor: usize, read: Result<Vec<StoredEvent>, ReadError>) -> (r: Result<
        (),
        ReadError,
    >)
        requires
            cursor < old(self)@.len(),
        ensures
            match read {
                Ok(events) => {
                    &&& r is Ok
                    &&& final(self)@ == old(self)@.update(
                        cursor as int,
                        CursorView {
                            pending: decode::stored_views(events@),
                            ..old(self)@[cursor as int]
                        },
                    )
                },
                Err(e) => r == Err::<(), ReadError>(e) && final(self)@ == old(self)@,
            },
    {
        match read {
            Ok(events) => {
                self.put(cursor, events);
                Ok(())
            },
            Err(e) => Err(e),
        }
    }

    /// Gives a partition its next events.
    pub fn put(&mut self, cursor: usize, events: Vec<StoredEvent>)
        requires
            cursor < old(self)@.len(),
        ensures
            final(self)@ == old(self)@.update(
                cursor as int,
                CursorView {
                    pending: decode::stored_views(events@),
                    ..old(self)@[cursor as int]
                },
            ),
    {
        let ghost before = self@;
        let ghost views = decode::stored_views(events@);
        let mut reversed = events;
        let mut queue: VecDeque<StoredEvent> = VecDeque::new();
        let ghost all = reversed@;
        assert(all.skip(all.len() as int) =~= queue@);
        while reversed.len() > 0
            invariant
                reversed@.len() <= all.len(),
                reversed@ == all.take(reversed@.len() as int),
                queue@ == all.skip(reversed@.len() as int),
            decreases reversed@.len(),
        {
            let ghost n = reversed@.len();
            let ghost was = queue@;
            if let Some(e) = reversed.pop() {
                queue.push_front(e);
                assert(queue@ =~= all.skip(n - 1));
                assert(reversed@ =~= all.take(n - 1));
            }
        }
        assert(queue@ =~= all);
        let ghost cursors = self.cursors@;
        let slot = &mut self.cursors[cursor];
        slot.pending = queue;
        assert(self@ =~= before.update(
            cursor as int,
            CursorView { pending: views, ..before[cursor as int] },
        ));
    }

    /// How many partitions there are.
    pub fn partitions(&self) -> (n: usize)
        ensures
            n == self@.len(),
    {
        self.cursors.len()
    }
}

/// What is chosen next is never behind: its wall clock is no later than that of
/// any other partition's next event, and a given archive always chooses the
/// same.
pub proof fn law_the_earliest_comes_next(cursors: Seq<CursorView>, i: int, j: int)
    requires
        comes_next(cursors, i),
        0 <= j < cursors.len(),
        cursors[j].pending.len() > 0,
    ensures
        cursors[i].pending[0].event.wall <= cursors[j].pending[0].event.wall,
        comes_next(cursors, j) ==> i == j,
{
}

} // verus!
