//! Events into Parquet files: one open file per symbol, rolled by the hour and
//! by age.
//!
//! The writer decides and encodes; its caller stores and lists. An event is
//! appended in steps: [`EventWriter::append_step`] says what has to be stored or
//! listed before it can be, and is called again once that is done.
use vstd::prelude::*;

use crate::calendar;
use crate::columnar;
use crate::columnar::FileWriter;
use crate::counters::ArchiveCounters;
use crate::decode;
use crate::decode::{Fault, ReadError, StoredEvent, StoredView};
use crate::event::MarketEvent;
use crate::keys;
use crate::record;
use crate::record::{EventView, Row, RowView};
use crate::schema;
use crate::store::StoreError;
use crate::text;
use crate::textmap::TextMap;
use crate::time::{minus_nat, Duration, IngestTime, Instant, SystemTime};

verus! {

/// What writing can fail with.
#[derive(Debug)]
pub enum WriteError {
    Arrow(arrow::error::ArrowError),
    Parquet(parquet::errors::ParquetError),
    Store(StoreError),
}

/// How hard zstd compresses a file.
pub const ZSTD_LEVEL: i32 = 1;

/// When files are rolled and rows are flushed.
#[derive(Clone, Copy, Debug)]
pub struct WriterConfig {
    /// Rows buffered before a row group is flushed.
    pub row_group_rows: usize,
    /// How long a file covers.
    pub roll_every: Duration,
    /// Longest a file stays open before it is finished anyway: a file cannot be
    /// read until then.
    pub max_open: Duration,
}

impl Default for WriterConfig {
    fn default() -> (c: WriterConfig)
        ensures
            c.row_group_rows == 8192,
            c.roll_every@ == 3_600_000_000_000,
            c.max_open@ == 300_000_000_000,
    {
        WriterConfig {
            row_group_rows: 8192,
            roll_every: Duration::from_secs(3600),
            max_open: Duration::from_secs(300),
        }
    }
}

/// The roll window that a reading falls in, as whole windows since the epoch.
pub open spec fn window_at(wall: int, roll_every: nat) -> int {
    let secs = roll_every / 1_000_000_000;
    calendar::unix_seconds(wall) / (if secs < 1 {
        1
    } else {
        secs as int
    })
}

/// The roll window that a reading falls in.
pub fn window_of(at: SystemTime, roll_every: Duration) -> (w: i64)
    ensures
        w == window_at(at@, roll_every@),
{
    let secs: u64 = at.since_epoch().as_secs();
    let roll: u64 = roll_every.as_secs();
    let per: u64 = if roll < 1 {
        1
    } else {
        roll
    };
    let w: u64 = secs / per;
    proof {
        assert(w <= secs) by (nonlinear_arith)
            requires
                w == secs / per,
                per >= 1,
        ;
    }
    w as i64
}

/// The file currently being appended to.
struct OpenFile {
    window: i64,
    opened_at: IngestTime,
    key: String,
    writer: FileWriter,
    rows: Vec<Row>,
    rows_total: u64,
    weights: Vec<usize>,
    intact: Ghost<bool>,
    flushed: Ghost<Seq<RowView>>,
    entries: Ghost<Seq<(EventView, i64)>>,
    base: Ghost<nat>,
}

/// What an open file is known by.
pub struct OpenView {
    /// The roll window it belongs to.
    pub window: i64,
    /// When it was opened, on the monotonic clock.
    pub opened: nat,
    pub key: Seq<char>,
    /// The events it holds, each under its sequence number.
    pub entries: Seq<(EventView, i64)>,
    /// How many rows it holds.
    pub rows: nat,
    /// Those of them that are not flushed yet.
    pub unflushed: Seq<RowView>,
    /// What the others were written to.
    pub writer: FileWriter,
    /// Whether no flush has failed.
    pub intact: bool,
}

impl View for OpenFile {
    type V = OpenView;

    closed spec fn view(&self) -> OpenView {
        OpenView {
            window: self.window,
            opened: self.opened_at.mono_nanos(),
            key: self.key@,
            entries: self.entries@,
            rows: self.rows_total as nat,
            unflushed: record::row_views(self.rows@),
            writer: self.writer,
            intact: self.intact@,
        }
    }
}

/// Whether an open file's rows not flushed yet can be.
pub open spec fn flushes(f: OpenView) -> bool {
    f.unflushed.len() == 0 || columnar::takes_rows(f.writer, record::stored_rows(f.unflushed))
}

/// An open file once it was flushed. Where that fails, its rows stay, and what it
/// holds is no longer known.
pub open spec fn flushed(f: OpenView) -> OpenView {
    if f.unflushed.len() == 0 {
        f
    } else {
        let writer = columnar::with_rows(f.writer, record::stored_rows(f.unflushed));
        if flushes(f) {
            OpenView { unflushed: Seq::empty(), writer, ..f }
        } else {
            OpenView { intact: false, writer, ..f }
        }
    }
}

/// Whether an open file can be finished: its last rows can be flushed, and then
/// the file can be closed.
pub open spec fn closes(f: OpenView) -> bool {
    flushes(f) && columnar::finishes(flushed(f).writer)
}

impl OpenFile {
    /// The rows flushed and those buffered are the rows of the events.
    spec fn wf(self) -> bool {
        &&& record::weighs(self.weights@, record::row_views(self.rows@))
        &&& record::fits(record::row_views(self.rows@))
        &&& self.rows_total == decode::archive_rows(self.entries@, self.base@).len()
        &&& columnar::written_columns(self.writer) == schema::columns()
        &&& decode::archivable(self.entries@)
        &&& self.intact@ ==> columnar::written_rows(self.writer) == record::stored_rows(
            self.flushed@,
        ) && self.flushed@ + record::row_views(self.rows@) == decode::archive_rows(
            self.entries@,
            self.base@,
        )
    }

    /// Writes the buffered rows as a row group.
    fn flush(&mut self) -> (r: Result<(), WriteError>)
        requires
            old(self).wf(),
        ensures
            final(self).wf(),
            final(self).base@ == old(self).base@,
            r is Ok <==> flushes(old(self)@),
            r matches Err(e) ==> e is Parquet,
            final(self)@ == flushed(old(self)@),
    {
        if self.rows.len() == 0 {
            assert(record::row_views(self.rows@) =~= Seq::empty());
            return Ok(());
        }
        let batch = match record::to_batch(&self.rows) {
            Ok(b) => b,
            Err(e) => {
                return Err(WriteError::Arrow(e));
            },
        };
        let ghost views = record::row_views(self.rows@);
        let ghost before = *self;
        match columnar::write_batch(&mut self.writer, &batch) {
            Ok(()) => {},
            Err(e) => {
                self.intact = Ghost(false);
                return Err(WriteError::Parquet(e));
            },
        }
        self.rows = Vec::new();
        self.weights = record::no_weights();
        self.flushed = Ghost(self.flushed@ + views);
        proof {
            assert(record::row_views(self.rows@) =~= Seq::empty());
            lemma_nothing_fits();
            if self.intact@ {
                assert(record::stored_rows(self.flushed@) =~= record::stored_rows(before.flushed@)
                    + record::stored_rows(views));
                assert(self.flushed@ + record::row_views(self.rows@) =~= self.flushed@);
            }
        }
        Ok(())
    }

    /// Finishes the file: its bytes, which read back as its events.
    fn finish(self) -> (r: Result<FinishedFile, WriteError>)
        requires
            self.wf(),
        ensures
            r is Ok <==> closes(self@),
            r matches Ok(f) ==> f.holds(self@, self.base@),
            r matches Err(e) ==> e is Parquet,
    {
        let mut file = self;
        match file.flush() {
            Ok(()) => {},
            Err(e) => {
                return Err(e);
            },
        }
        let rows: u64 = file.rows_total;
        proof {
            assert(record::row_views(file.rows@).len() == 0);
            assert(file.flushed@ + record::row_views(file.rows@) =~= file.flushed@);
            record::lemma_stored_rows_hold(file.flushed@);
            if record::readable(file.flushed@) {
                record::lemma_readable_as_stored(file.flushed@);
            }
        }
        let OpenFile { key, writer, .. } = file;
        finished(key, rows, columnar::finish_file(writer))
    }
}

/// A file of so many rows under a key, given what the Parquet writer made of it.
pub fn finished(
    key: String,
    rows: u64,
    made: Result<Vec<u8>, parquet::errors::ParquetError>,
) -> (r: Result<FinishedFile, WriteError>)
    requires
        made matches Ok(bytes) ==> columnar::sound_bytes(bytes@),
    ensures
        match made {
            Ok(bytes) => r matches Ok(f) && f.name() == key@ && f.contents() == bytes@
                && f.row_count() == rows,
            Err(e) => r == Err::<FinishedFile, WriteError>(WriteError::Parquet(e)),
        },
{
    match made {
        Ok(bytes) => Ok(FinishedFile { key, bytes, rows }),
        Err(e) => Err(WriteError::Parquet(e)),
    }
}

/// A file ready to be stored.
#[derive(Debug)]
pub struct FinishedFile {
    key: String,
    bytes: Vec<u8>,
    rows: u64,
}

impl FinishedFile {
    /// A finished file's bytes are such that reading them does not panic.
    #[verifier::type_invariant]
    spec fn sound(self) -> bool {
        columnar::sound_bytes(self.bytes@)
    }

    pub closed spec fn name(self) -> Seq<char> {
        self.key@
    }

    pub closed spec fn contents(self) -> Seq<u8> {
        self.bytes@
    }

    pub closed spec fn row_count(self) -> u64 {
        self.rows
    }

    /// Whether this is an open file, finished. Where no flush had failed, and the
    /// texts are not too long to be read, its bytes hold its events.
    pub open spec fn holds(self, file: OpenView, base: nat) -> bool {
        &&& self.name() == file.key
        &&& self.row_count() == file.rows
        &&& decode::archivable(file.entries)
        &&& file.intact && record::readable(decode::archive_rows(file.entries, base))
            ==> decode::holds_archive(columnar::file_contents(self.contents()), file.entries, base)
    }

    /// The key to store the file under.
    pub fn key(&self) -> (key: &str)
        ensures
            key@ == self.name(),
    {
        self.key.as_str()
    }

    /// The file itself.
    pub fn bytes(&self) -> (bytes: &Vec<u8>)
        ensures
            bytes@ == self.contents(),
    {
        &self.bytes
    }

    /// The file itself, taken out.
    pub fn into_bytes(self) -> (bytes: Vec<u8>)
        ensures
            bytes@ == self.contents(),
            columnar::sound_bytes(bytes@),
    {
        proof {
            use_type_invariant(&self);
        }
        let FinishedFile { bytes, .. } = self;
        bytes
    }

    /// How many rows it holds.
    pub fn rows(&self) -> (n: u64)
        ensures
            n == self.row_count(),
    {
        self.rows
    }

    /// The events in the file, read back.
    pub fn events(self, now: Instant) -> (r: Result<Vec<StoredEvent>, ReadError>)
        ensures
            match r {
                Ok(events) => decode::decoded(columnar::file_contents(self.contents()), now@) == Ok::<
                    Seq<StoredView>,
                    Fault,
                >(decode::stored_views(events@)),
                Err(e) => decode::decoded(columnar::file_contents(self.contents()), now@) == Err::<
                    Seq<StoredView>,
                    Fault,
                >(e@),
            },
            forall|file: OpenView, base: nat|
                #[trigger] self.holds(file, base) && file.intact && record::readable(
                    decode::archive_rows(file.entries, base),
                ) ==> r is Ok && decode::stored_views((r->Ok_0)@) == decode::all_stored_as(
                    file.entries,
                    base,
                    now@,
                ),
    {
        decode::decode(self.into_bytes(), now)
    }
}

/// Accumulates events and turns them into files.
pub struct EventWriter {
    prefix: String,
    config: WriterConfig,
    base: Option<IngestTime>,
    event_seq: i64,
    open: TextMap<OpenFile>,
    parts: TextMap<u64>,
    counters: ArchiveCounters,
}

/// What a writer is known by.
pub struct WriterView {
    /// The key namespace.
    pub prefix: Seq<char>,
    pub config: WriterConfig,
    /// The monotonic reading of the first event, which offsets count from.
    pub base: Option<nat>,
    /// How many events were appended, over all partitions.
    pub event_seq: int,
    /// The open file of each partition.
    pub open: Map<Seq<char>, OpenView>,
    /// The number of the next part in each directory that was looked at.
    pub parts: Map<Seq<char>, u64>,
    pub counters: ArchiveCounters,
}

impl View for EventWriter {
    type V = WriterView;

    closed spec fn view(&self) -> WriterView {
        WriterView {
            prefix: self.prefix@,
            config: self.config,
            base: match self.base {
                Some(t) => Some(t.mono_nanos()),
                None => None,
            },
            event_seq: self.event_seq as int,
            open: self.open@.map_values(|f: OpenFile| f@),
            parts: self.parts@,
            counters: self.counters,
        }
    }
}

/// What has to be done before an event is in its file.
#[derive(Debug)]
pub enum AppendStep {
    /// Store a file that was rolled.
    Store(FinishedFile),
    /// List a directory, and tell the writer what it holds.
    List(String),
    /// Nothing: the event is in.
    Appended,
}

/// The partition of an event.
pub open spec fn partition(e: EventView) -> Seq<char> {
    keys::partition_text(e.symbol)
}

/// The directory of an event.
pub open spec fn directory(w: WriterView, e: EventView) -> Seq<char> {
    keys::dir_text(w.prefix, partition(e), e.wall)
}

/// The reading that offsets count from, once an event is appended.
pub open spec fn base_with(w: WriterView, e: EventView) -> nat {
    match w.base {
        Some(b) => b,
        None => e.mono,
    }
}

/// Whether an event's file must be rolled first: the event belongs to another
/// window, or the file has been open for too long.
pub open spec fn roll_due(w: WriterView, e: EventView) -> bool {
    let p = partition(e);
    w.open.contains_key(p) && (w.open[p].window != window_at(e.wall, w.config.roll_every@)
        || minus_nat(e.mono, w.open[p].opened) >= w.config.max_open@)
}

/// The rows that an event would be appended as.
pub open spec fn next_rows(w: WriterView, e: EventView) -> Seq<RowView> {
    record::flat_rows(e, (w.event_seq + 1) as i64, base_with(w, e))
}

/// The rows that a partition's file has not flushed yet.
pub open spec fn unflushed(w: WriterView, p: Seq<char>) -> Seq<RowView> {
    if w.open.contains_key(p) {
        w.open[p].unflushed
    } else {
        Seq::empty()
    }
}

/// How many rows a partition's file has.
pub open spec fn rows_in(w: WriterView, p: Seq<char>) -> nat {
    if w.open.contains_key(p) {
        w.open[p].rows
    } else {
        0
    }
}

/// Whether an event can be appended without rolling a file: numbers last, and
/// the rows not yet flushed fit in one batch.
pub open spec fn has_room(w: WriterView, e: EventView) -> bool {
    &&& w.event_seq < i64::MAX
    &&& record::fits(unflushed(w, partition(e)) + next_rows(w, e))
    &&& rows_in(w, partition(e)) + next_rows(w, e).len() <= u64::MAX
    &&& w.open.contains_key(partition(e)) || !w.parts.contains_key(directory(w, e))
        || w.parts[directory(w, e)] < u64::MAX
}

/// Whether an event can be appended, or rolls a file.
pub open spec fn accepts(w: WriterView, e: EventView) -> bool {
    roll_due(w, e) || has_room(w, e)
}

/// A writer that has seen an event: offsets count from the first.
pub open spec fn started(w: WriterView, e: EventView) -> WriterView {
    WriterView { base: Some(base_with(w, e)), ..w }
}

/// A writer without a partition's file.
pub open spec fn without_file(w: WriterView, p: Seq<char>) -> WriterView {
    let open = w.open.remove(p);
    WriterView {
        open,
        counters: ArchiveCounters { open_files: open.dom().len() as u64, ..w.counters },
        ..w
    }
}

/// A writer with a new file for an event: the next part of its directory.
pub open spec fn with_file(w: WriterView, e: EventView) -> WriterView {
    let dir = directory(w, e);
    let file = OpenView {
        window: window_at(e.wall, w.config.roll_every@) as i64,
        opened: e.mono,
        key: keys::part_text(dir, w.parts[dir] as nat),
        entries: Seq::empty(),
        rows: 0,
        unflushed: Seq::empty(),
        writer: columnar::begun_file(schema::columns(), ZSTD_LEVEL),
        intact: true,
    };
    let open = w.open.insert(partition(e), file);
    WriterView {
        open,
        parts: w.parts.insert(dir, (w.parts[dir] + 1) as u64),
        counters: ArchiveCounters { open_files: open.dom().len() as u64, ..w.counters },
        ..w
    }
}

/// Whether appending an event to its open file fills a row group.
pub open spec fn flush_due(w: WriterView, e: EventView) -> bool {
    w.open[partition(e)].unflushed.len() + next_rows(w, e).len() >= w.config.row_group_rows
}

/// An event's open file with the event in it.
pub open spec fn grown_file(w: WriterView, e: EventView) -> OpenView {
    let file = w.open[partition(e)];
    let rows = next_rows(w, e);
    OpenView {
        entries: file.entries.push((e, (w.event_seq + 1) as i64)),
        rows: file.rows + rows.len(),
        unflushed: file.unflushed + rows,
        ..file
    }
}

/// A writer with an event in its file. A full buffer is flushed.
pub open spec fn with_event(w: WriterView, e: EventView) -> WriterView {
    let grown = grown_file(w, e);
    let file = if flush_due(w, e) {
        flushed(grown)
    } else {
        grown
    };
    WriterView { event_seq: w.event_seq + 1, open: w.open.insert(partition(e), file), ..w }
}

/// A writer that has seen an event and has a file open for it.
pub open spec fn opened_for(w: WriterView, e: EventView) -> WriterView {
    let s = started(w, e);
    if s.open.contains_key(partition(e)) {
        s
    } else {
        with_file(s, e)
    }
}

/// Whether a directory must be listed before an event can be appended.
pub open spec fn listing_due(w: WriterView, e: EventView) -> bool {
    !w.open.contains_key(partition(e)) && !w.parts.contains_key(directory(w, e))
}

/// Whether nothing fails when an event is appended: where a row group is full, it
/// can be flushed.
pub open spec fn appends(w: WriterView, e: EventView) -> bool {
    let s = opened_for(w, e);
    flush_due(s, e) ==> flushes(grown_file(s, e))
}

/// A writer with an event in its file, which is opened where it is not open.
pub open spec fn appended(w: WriterView, e: EventView) -> WriterView {
    with_event(opened_for(w, e), e)
}

impl EventWriter {
    /// Every open file is in order, counts offsets from the writer's base, and
    /// holds events no later than the last.
    pub closed spec fn wf(self) -> bool {
        &&& self.open.wf()
        &&& self.parts.wf()
        &&& self.event_seq >= 0
        &&& forall|k: Seq<char>|
            #[trigger] self.open@.contains_key(k) ==> {
                &&& self.open@[k].wf()
                &&& self.base matches Some(t) && self.open@[k].base@ == t.mono_nanos()
                &&& forall|i: int|
                    0 <= i < self.open@[k].entries@.len() ==> (
                    #[trigger] self.open@[k].entries@[i]).1 <= self.event_seq
            }
    }

    /// A writer below a key namespace, e.g. `events`.
    pub fn new(prefix: &str) -> (w: EventWriter)
        ensures
            w.wf(),
            w@.prefix == text::trimmed(prefix@, '/'),
            w@.config.row_group_rows == 8192,
            w@.config.roll_every@ == 3_600_000_000_000,
            w@.config.max_open@ == 300_000_000_000,
            w@.base is None,
            w@.event_seq == 0,
            w@.open == Map::<Seq<char>, OpenView>::empty(),
            w@.parts == Map::<Seq<char>, u64>::empty(),
            w@.counters.files_written == 0,
            w@.counters.rows_written == 0,
            w@.counters.bytes_written == 0,
            w@.counters.write_failures == 0,
            w@.counters.open_files == 0,
    {
        let w = EventWriter {
            prefix: keys::into_prefix(prefix),
            config: WriterConfig::default(),
            base: None,
            event_seq: 0,
            open: TextMap::new(),
            parts: TextMap::new(),
            counters: ArchiveCounters::default(),
        };
        assert(w@.open =~= Map::<Seq<char>, OpenView>::empty());
        w
    }

    /// The same writer with other settings.
    pub fn with_config(self, config: WriterConfig) -> (w: EventWriter)
        requires
            self.wf(),
        ensures
            w.wf(),
            w@ == (WriterView { config, ..self@ }),
    {
        let mut w = self;
        w.config = config;
        w
    }

    /// The same writer with other counters.
    pub fn with_counters(self, counters: ArchiveCounters) -> (w: EventWriter)
        requires
            self.wf(),
        ensures
            w.wf(),
            w@ == (WriterView { counters, ..self@ }),
    {
        let mut w = self;
        w.counters = counters;
        w
    }

    /// What the writer has done.
    pub fn counters(&self) -> (c: ArchiveCounters)
        ensures
            c == self@.counters,
    {
        self.counters
    }

    /// Files finished and stored so far.
    pub fn files_written(&self) -> (n: u64)
        ensures
            n == self@.counters.files_written,
    {
        self.counters.files_written()
    }

    /// Rows in files finished and stored so far.
    pub fn rows_written(&self) -> (n: u64)
        ensures
            n == self@.counters.rows_written,
    {
        self.counters.rows_written()
    }

    /// A finished file reached the store.
    pub fn note_stored(&mut self, rows: u64, bytes: u64)
        requires
            old(self).wf(),
        ensures
            final(self).wf(),
            final(self)@ == (WriterView {
                counters: ArchiveCounters {
                    files_written: old(self)@.counters.files_written.wrapping_add(1),
                    rows_written: old(self)@.counters.rows_written.wrapping_add(rows),
                    bytes_written: old(self)@.counters.bytes_written.wrapping_add(bytes),
                    ..old(self)@.counters
                },
                ..old(self)@
            }),
    {
        self.counters.record_file(rows, bytes);
    }

    /// A write could not be completed.
    pub fn note_failure(&mut self)
        requires
            old(self).wf(),
        ensures
            final(self).wf(),
            final(self)@ == (WriterView {
                counters: ArchiveCounters {
                    write_failures: old(self)@.counters.write_failures.wrapping_add(1),
                    ..old(self)@.counters
                },
                ..old(self)@
            }),
    {
        self.counters.record_failure();
    }

    /// What a directory holds: the next part there goes after it.
    pub fn note_listing(&mut self, dir: &str, existing: &[String])
        requires
            old(self).wf(),
        ensures
            final(self).wf(),
            final(self)@ == (WriterView {
                parts: old(self)@.parts.insert(dir@, keys::next_number(existing@) as u64),
                ..old(self)@
            }),
    {
        let part: u64 = keys::next_part(existing);
        self.parts.insert(dir.to_owned(), part);
    }

    /// Whether an event's file must be rolled before the event is appended.
    fn due(&self, event: &MarketEvent, p: &str) -> (b: bool)
        requires
            self.wf(),
            p@ == partition(record::event_view(*event)),
        ensures
            b == roll_due(self@, record::event_view(*event)),
    {
        match self.open.get(p) {
            Some(file) => {
                let window: i64 = window_of(event.ingest_ts.wall(), self.config.roll_every);
                let age = event.ingest_ts.since(file.opened_at);
                file.window != window || !age.shorter_than(&self.config.max_open)
            },
            None => false,
        }
    }

    /// Finishes a partition's file and takes it out. The gauge falls whether or
    /// not it can be finished: a file that could not is just as closed.
    pub fn take(&mut self, p: &str) -> (r: Option<Result<FinishedFile, WriteError>>)
        requires
            old(self).wf(),
        ensures
            final(self).wf(),
            r is Some <==> old(self)@.open.contains_key(p@),
            r is None ==> final(self)@ == old(self)@,
            r is Some ==> final(self)@ == without_file(old(self)@, p@),
            r matches Some(made) ==> (made is Ok <==> closes(old(self)@.open[p@])),
            r matches Some(Ok(f)) ==> old(self)@.base is Some && f.holds(
                old(self)@.open[p@],
                old(self)@.base->0,
            ),
            r matches Some(Err(e)) ==> e is Parquet,
    {
        let ghost before = *self;
        match self.open.remove(p) {
            None => {
                assert(self.open@ =~= before.open@);
                None
            },
            Some(file) => {
                self.counters.set_open_files(self.open.len() as u64);
                assert(self@.open =~= before@.open.remove(p@));
                assert(self@.open.dom() =~= self.open@.dom());
                Some(file.finish())
            },
        }
    }

    /// The first partition with an open file, in the order of their names.
    pub fn first_open(&self) -> (p: Option<String>)
        requires
            self.wf(),
        ensures
            match p {
                Some(name) => self@.open.contains_key(name@) && forall|q: Seq<char>|
                    #[trigger] self@.open.contains_key(q) && q != name@ ==> text::text_before(
                        name@,
                        q,
                    ),
                None => self@.open == Map::<Seq<char>, OpenView>::empty(),
            },
    {
        proof {
            self.open.lemma_keys();
        }
        if self.open.len() == 0 {
            proof {
                assert forall|q: Seq<char>| !self@.open.contains_key(q) by {
                    if self.open@.contains_key(q) {
                        assert(self.open.keys().to_set().contains(q));
                    }
                }
                assert(self@.open =~= Map::<Seq<char>, OpenView>::empty());
            }
            return None;
        }
        let first = self.open.key_at(0);
        proof {
            assert forall|q: Seq<char>| #[trigger]
                self@.open.contains_key(q) && q != first@ implies text::text_before(first@, q) by {
                assert(self.open.keys().to_set().contains(q));
                let i = choose|i: int| 0 <= i < self.open.keys().len() && self.open.keys()[i] == q;
                assert(text::text_before(self.open.keys()[0], self.open.keys()[i]));
            }
        }
        Some(first.to_owned())
    }

    /// Opens the next part of a directory for an event.
    fn open_file(&mut self, event: &MarketEvent, p: String, dir: String, part: u64) -> (r: Result<
        (),
        WriteError,
    >)
        requires
            old(self).wf(),
            part < u64::MAX,
            old(self)@.base is Some,
            p@ == partition(record::event_view(*event)),
            dir@ == directory(old(self)@, record::event_view(*event)),
            old(self)@.parts.contains_key(dir@),
            old(self)@.parts[dir@] == part,
            !old(self)@.open.contains_key(p@),
        ensures
            final(self).wf(),
            r is Ok,
            final(self)@ == with_file(old(self)@, record::event_view(*event)),
    {
        let specs = schema::event_schema();
        let schema = columnar::schema_of(&specs);
        proof {
            assert(columnar::schema_columns(*schema) =~= schema::columns());
            assert(columnar::all_typed(schema::columns()));
            schema::law_column_names_are_distinct();
        }
        let writer = match columnar::start_file(schema, ZSTD_LEVEL) {
            Ok(w) => w,
            Err(e) => {
                return Err(WriteError::Parquet(e));
            },
        };
        let ghost before = *self;
        let ghost base = self@.base->0;
        let key = keys::part_key(dir.as_str(), part);
        let file = OpenFile {
            window: window_of(event.ingest_ts.wall(), self.config.roll_every),
            opened_at: event.ingest_ts,
            key,
            writer,
            rows: Vec::new(),
            rows_total: 0,
            weights: record::no_weights(),
            intact: Ghost(true),
            flushed: Ghost(Seq::empty()),
            entries: Ghost(Seq::empty()),
            base: Ghost(base),
        };
        proof {
            assert(record::row_views(file.rows@) =~= Seq::empty());
            assert(file.flushed@ + record::row_views(file.rows@) =~= Seq::empty());
            assert(columnar::written_rows(file.writer) =~= record::stored_rows(file.flushed@));
            lemma_nothing_fits();
            assert(file.wf());
        }
        let ghost view = file@;
        let ghost name = p@;
        self.parts.insert(dir, part + 1);
        self.open.insert(p, file);
        self.counters.set_open_files(self.open.len() as u64);
        proof {
            assert(self@.open =~= before@.open.insert(name, view));
            assert(self@.open.dom() =~= self.open@.dom());
        }
        Ok(())
    }

    /// Appends an event to its open file.
    fn push(&mut self, event: &MarketEvent, p: String) -> (r: Result<(), WriteError>)
        requires
            old(self).wf(),
            p@ == partition(record::event_view(*event)),
            old(self)@.open.contains_key(p@),
            old(self)@.event_seq < i64::MAX,
            record::fits(
                old(self)@.open[p@].unflushed + next_rows(
                    old(self)@,
                    record::event_view(*event),
                ),
            ),
            old(self)@.open[p@].rows + next_rows(
                old(self)@,
                record::event_view(*event),
            ).len() <= u64::MAX,
        ensures
            final(self).wf(),
            final(self)@ == with_event(old(self)@, record::event_view(*event)),
            r is Ok <==> (flush_due(old(self)@, record::event_view(*event)) ==> flushes(
                grown_file(old(self)@, record::event_view(*event)),
            )),
            r matches Err(e) ==> e is Parquet,
    {
        let ghost before = *self;
        let ghost e = record::event_view(*event);
        let ghost name = p@;
        assert(self.open@.contains_key(name));
        let mut file = match self.open.remove(p.as_str()) {
            Some(f) => f,
            None => {
                return Ok(());
            },
        };
        let ghost old_file = file;
        let base = match self.base {
            Some(t) => t,
            None => event.ingest_ts,
        };
        self.event_seq = self.event_seq + 1;
        let ghost seq = self.event_seq;
        let mut rows = record::flatten(event, self.event_seq, base);
        let ghost views = record::row_views(rows@);
        assert(views.len() == rows@.len());
        assert(views == next_rows(before@, e));
        let count: u64 = rows.len() as u64;
        let ghost buffered = file.rows@;
        match record::weights_with(&file.weights, &rows, Ghost(record::row_views(buffered))) {
            Some(weights) => {
                file.weights = weights;
            },
            None => {},
        }
        file.rows_total = file.rows_total + count;
        file.rows.append(&mut rows);
        file.entries = Ghost(file.entries@.push((e, seq)));
        proof {
            let entries = file.entries@;
            assert(entries.drop_last() =~= old_file.entries@);
            assert(entries.last() == (e, seq));
            assert(record::row_views(file.rows@) =~= record::row_views(buffered) + views);
            assert(decode::archivable(entries)) by {
                assert forall|i: int, j: int| 0 <= i < j < entries.len() implies (
                #[trigger] entries[i]).1 < (#[trigger] entries[j]).1 by {
                    assert(entries[i] == old_file.entries@[i]);
                    assert(before.open@[name].entries@[i].1 <= before.event_seq);
                }
                assert forall|i: int| 0 <= i < entries.len() implies record::proper_kind(
                    (#[trigger] entries[i]).0.kind,
                ) by {
                    if i < old_file.entries@.len() {
                        assert(entries[i] == old_file.entries@[i]);
                    }
                }
            }
            assert(decode::archive_rows(entries, file.base@) == decode::archive_rows(
                old_file.entries@,
                file.base@,
            ) + views);
            if file.intact@ {
                assert(file.flushed@ + record::row_views(file.rows@) =~= (old_file.flushed@
                    + record::row_views(buffered)) + views);
            }
            assert(file.wf());
        }
        let ghost pushed = file@;
        let r = if file.rows.len() >= self.config.row_group_rows {
            file.flush()
        } else {
            Ok(())
        };
        let ghost view = file@;
        proof {
            assert(pushed == grown_file(before@, e));
            assert(view == with_event(before@, e).open[name]);
        }
        self.open.insert(p, file);
        proof {
            assert(self@.open =~= before@.open.insert(name, view));
            assert(before.base == self.base);
            assert forall|k: Seq<char>| #[trigger] self.open@.contains_key(k) implies ({
                &&& self.open@[k].wf()
                &&& self.base matches Some(t) && self.open@[k].base@ == t.mono_nanos()
                &&& forall|i: int|
                    0 <= i < self.open@[k].entries@.len() ==> (
                    #[trigger] self.open@[k].entries@[i]).1 <= self.event_seq
            }) by {
                if k != name {
                    assert(before.open@.contains_key(k));
                    assert forall|i: int| 0 <= i < self.open@[k].entries@.len() implies (
                    #[trigger] self.open@[k].entries@[i]).1 <= self.event_seq by {
                        assert(before.open@[k].entries@[i].1 <= before.event_seq);
                    }
                } else {
                    assert forall|i: int| 0 <= i < self.open@[k].entries@.len() implies (
                    #[trigger] self.open@[k].entries@[i]).1 <= self.event_seq by {
                        if i < old_file.entries@.len() {
                            assert(before.open@[k].entries@[i].1 <= before.event_seq);
                        }
                    }
                }
            }
        }
        r
    }
}

impl EventWriter {
    /// Whether an event can be appended.
    pub fn accepts(&self, event: &MarketEvent) -> (b: bool)
        requires
            self.wf(),
        ensures
            b == accepts(self@, record::event_view(*event)),
    {
        let p = keys::partition_name(event.symbol.as_str());
        if self.due(event, p.as_str()) {
            return true;
        }
        if self.event_seq == i64::MAX {
            return false;
        }
        let base = match self.base {
            Some(t) => t,
            None => event.ingest_ts,
        };
        let rows = record::flatten(event, self.event_seq + 1, base);
        let ghost views = record::row_views(rows@);
        let count: u64 = rows.len() as u64;
        assert(views.len() == count);
        assert(views == next_rows(self@, record::event_view(*event)));
        assert(self@.open.contains_key(p@) == self.open@.contains_key(p@));
        if let Some(file) = self.open.get(p.as_str()) {
            assert(self.open@[p@].wf());
            assert(self@.open[p@] == file@);
            let ghost buffered = record::row_views(file.rows@);
            let fits = record::weights_with(&file.weights, &rows, Ghost(buffered));
            return fits.is_some() && file.rows_total <= u64::MAX - count;
        }
        let dir = keys::dir_for(self.prefix.as_str(), p.as_str(), event.ingest_ts.wall());
        if let Some(part) = self.parts.get(dir.as_str()) {
            if *part == u64::MAX {
                return false;
            }
        }
        proof {
            lemma_nothing_fits();
        }
        let fits = record::weights_with(&record::no_weights(), &rows, Ghost(Seq::empty()));
        fits.is_some()
    }

    /// Appends an event, or says what has to be done first: store the file that
    /// the event rolls, or list the directory that a new file goes to. Rolling is
    /// per symbol: it leaves the files of all others alone.
    pub fn append_step(&mut self, event: &MarketEvent) -> (r: Result<AppendStep, WriteError>)
        requires
            old(self).wf(),
            accepts(old(self)@, record::event_view(*event)),
        ensures
            final(self).wf(),
            ({
                let e = record::event_view(*event);
                if roll_due(old(self)@, e) {
                    let file = old(self)@.open[partition(e)];
                    &&& final(self)@ == without_file(started(old(self)@, e), partition(e))
                    &&& match r {
                        Ok(AppendStep::Store(f)) => closes(file) && old(self)@.base is Some
                            && f.holds(file, old(self)@.base->0),
                        Err(failure) => !closes(file) && failure is Parquet,
                        _ => false,
                    }
                } else if listing_due(old(self)@, e) {
                    &&& r matches Ok(AppendStep::List(dir)) && dir@ == directory(old(self)@, e)
                    &&& final(self)@ == started(old(self)@, e)
                } else {
                    &&& final(self)@ == appended(old(self)@, e)
                    &&& match r {
                        Ok(AppendStep::Appended) => appends(old(self)@, e),
                        Err(failure) => !appends(old(self)@, e) && failure is Parquet,
                        _ => false,
                    }
                }
            }),
    {
        let ghost e = record::event_view(*event);
        let ghost before = *self;
        match self.base {
            Some(_) => {},
            None => {
                self.base = Some(event.ingest_ts);
            },
        }
        proof {
            assert(self.wf());
            assert(self@ == started(before@, e));
            assert(roll_due(self@, e) == roll_due(before@, e));
            assert(next_rows(self@, e) == next_rows(before@, e));
        }
        let p = keys::partition_name(event.symbol.as_str());
        if self.due(event, p.as_str()) {
            assert(self@.open.contains_key(p@));
            assert(before.open@.contains_key(p@));
            assert(before@.base is Some && self@.base == before@.base);
            let ghost here = *self;
            return match self.take(p.as_str()) {
                Some(Ok(f)) => {
                    assert(f.holds(here@.open[p@], here@.base->0));
                    assert(here@.open[p@] == before@.open[p@]);
                    Ok(AppendStep::Store(f))
                },
                Some(Err(failure)) => Err(failure),
                None => Ok(AppendStep::Appended),
            };
        }
        if self.open.get(p.as_str()).is_none() {
            let dir = keys::dir_for(self.prefix.as_str(), p.as_str(), event.ingest_ts.wall());
            let part: u64 = match self.parts.get(dir.as_str()) {
                Some(n) => *n,
                None => {
                    return Ok(AppendStep::List(dir));
                },
            };
            let ghost here = *self;
            match self.open_file(event, p.as_str().to_owned(), dir, part) {
                Ok(()) => {},
                Err(e) => {
                    return Err(e);
                },
            }
            assert(next_rows(self@, e) == next_rows(before@, e));
        }
        assert(self@ == opened_for(before@, e));
        match self.push(event, p) {
            Ok(()) => Ok(AppendStep::Appended),
            Err(e) => Err(e),
        }
    }

    /// Finishes the next open file, in the order of partitions; nothing once
    /// all are closed. A file that cannot be finished is counted as a failure and
    /// does not keep the others open.
    pub fn close_step(&mut self) -> (r: Option<Result<FinishedFile, WriteError>>)
        requires
            old(self).wf(),
        ensures
            final(self).wf(),
            r is None <==> old(self)@.open == Map::<Seq<char>, OpenView>::empty(),
            r is None ==> final(self)@ == old(self)@,
            r is Some ==> closes_one(old(self)@, final(self)@, r->0),
    {
        let p = match self.first_open() {
            Some(p) => p,
            None => {
                return None;
            },
        };
        let ghost before = *self;
        let r = self.take(p.as_str());
        proof {
            assert(before@.open.contains_key(p@));
            if before@.open =~= Map::<Seq<char>, OpenView>::empty() {
                assert(!before@.open.contains_key(p@));
            }
        }
        match &r {
            Some(Err(_)) => {
                self.note_failure();
            },
            _ => {},
        }
        assert(closes_partition(before@, self@, r->0, p@));
        r
    }
}

/// Whether one partition's file was finished and taken out, or counted as a
/// failure.
pub open spec fn closes_partition(
    w: WriterView,
    after: WriterView,
    r: Result<FinishedFile, WriteError>,
    p: Seq<char>,
) -> bool {
    &&& w.open.contains_key(p)
    &&& forall|q: Seq<char>|
        #[trigger] w.open.contains_key(q) && q != p ==> text::text_before(p, q)
    &&& match r {
        Ok(f) => {
            &&& closes(w.open[p])
            &&& after == without_file(w, p)
            &&& w.base is Some && f.holds(w.open[p], w.base->0)
        },
        Err(e) => {
            let gone = without_file(w, p);
            &&& !closes(w.open[p])
            &&& e is Parquet
            &&& after == (WriterView {
                counters: ArchiveCounters {
                    write_failures: gone.counters.write_failures.wrapping_add(1),
                    ..gone.counters
                },
                ..gone
            })
        },
    }
}

/// Whether the first partition's file was finished and taken out, or counted as
/// a failure.
pub open spec fn closes_one(
    w: WriterView,
    after: WriterView,
    r: Result<FinishedFile, WriteError>,
) -> bool {
    exists|p: Seq<char>| closes_partition(w, after, r, p)
}

/// Rolling a symbol's file leaves the others' alone, and appending an event
/// touches no file but its own.
pub proof fn law_symbols_roll_apart(w: WriterView, e: EventView, q: Seq<char>)
    requires
        q != partition(e),
    ensures
        without_file(w, partition(e)).open.contains_key(q) == w.open.contains_key(q),
        without_file(w, partition(e)).open[q] == w.open[q],
        appended(w, e).open.contains_key(q) == w.open.contains_key(q),
        appended(w, e).open[q] == w.open[q],
{
}

/// A writer's files have keys of their own: within a run no part number of a
/// directory is used twice, since every new file takes the next and leaves a
/// higher one.
pub proof fn law_part_numbers_rise(w: WriterView, e: EventView)
    requires
        w.parts.contains_key(directory(w, e)),
        w.parts[directory(w, e)] < u64::MAX,
    ensures
        with_file(w, e).open[partition(e)].key == keys::part_text(
            directory(w, e),
            w.parts[directory(w, e)] as nat,
        ),
        with_file(w, e).parts[directory(w, e)] == w.parts[directory(w, e)] + 1,
        forall|d: Seq<char>|
            d != directory(w, e) ==> #[trigger] with_file(w, e).parts[d] == w.parts[d],
{
}

/// Sequence numbers are one order over all partitions: each event appended gets
/// the number after the last.
pub proof fn law_every_event_gets_the_next_number(w: WriterView, e: EventView)
    ensures
        appended(w, e).event_seq == w.event_seq + 1,
        appended(w, e).open[partition(e)].entries.last() == (e, (w.event_seq + 1) as i64),
        appended(w, e).base == Some(base_with(w, e)),
{
}

/// No rows fit in a batch.
proof fn lemma_nothing_fits()
    ensures
        record::fits(Seq::empty()),
{
    assert forall|column: int| 0 <= column < schema::columns().len() implies #[trigger]
        record::column_bytes(Seq::empty(), column) <= columnar::TEXT_LIMIT by {
        assert(record::column_cells(Seq::empty(), column) =~= Seq::empty());
    }
}

/// A roll window is as long as it is said to be, at least a second: a reading lies
/// in the window of its number, and windows follow one another from the epoch on.
pub proof fn law_a_roll_window_has_its_length(wall: int, roll_every: nat)
    ensures
        ({
            let long: int = if roll_every < 1_000_000_000 {
                1
            } else {
                (roll_every / 1_000_000_000) as int
            };
            let n = window_at(wall, roll_every);
            n * long <= calendar::unix_seconds(wall) < (n + 1) * long
        }),
{
    let long: int = if roll_every < 1_000_000_000 {
        1
    } else {
        (roll_every / 1_000_000_000) as int
    };
    let seconds = calendar::unix_seconds(wall);
    assert((seconds / long) * long <= seconds < (seconds / long + 1) * long) by (nonlinear_arith)
        requires
            long >= 1,
    ;
}

/// A file takes an event exactly where the event lies in the file's window and the
/// file has been open for less than the longest time; any other rolls it.
pub proof fn law_a_file_covers_one_window(w: WriterView, e: EventView)
    requires
        w.open.contains_key(partition(e)),
        w.open[partition(e)].opened <= e.mono,
    ensures
        roll_due(w, e) <==> {
            ||| window_at(e.wall, w.config.roll_every@) != w.open[partition(e)].window
            ||| w.open[partition(e)].opened + w.config.max_open@ <= e.mono
        },
{
}

/// Where there is no file open, nothing is rolled.
pub proof fn law_nothing_open_rolls_nothing(w: WriterView, e: EventView)
    requires
        !w.open.contains_key(partition(e)),
    ensures
        !roll_due(w, e),
{
}

/// A new file belongs to the window and the directory of its first event and is
/// open from that event on.
pub proof fn law_a_new_file_starts_with_its_event(w: WriterView, e: EventView)
    requires
        !w.open.contains_key(partition(e)),
        i64::MIN <= window_at(e.wall, w.config.roll_every@) <= i64::MAX,
    ensures
        ({
            let file = appended(w, e).open[partition(e)];
            &&& file.window == window_at(e.wall, w.config.roll_every@)
            &&& file.opened == e.mono
            &&& text::begins(file.key, directory(w, e))
            &&& file.entries == seq![(e, (w.event_seq + 1) as i64)]
            &&& file.rows == next_rows(w, e).len()
        }),
{
    let s = started(w, e);
    let dir = directory(w, e);
    let key = keys::part_text(dir, w.parts[dir] as nat);
    assert(key.take(dir.len() as int) =~= dir);
    assert(Seq::<(EventView, i64)>::empty().push((e, (w.event_seq + 1) as i64)) =~= seq![
        (e, (w.event_seq + 1) as i64),
    ]);
    assert(next_rows(s, e) == next_rows(w, e));
    assert(next_rows(with_file(s, e), e) == next_rows(w, e));
}

/// An event is added behind those that its file already has, and its rows are
/// counted; nothing that was in the file is lost.
pub proof fn law_an_event_is_added_behind_the_others(w: WriterView, e: EventView)
    requires
        w.open.contains_key(partition(e)),
    ensures
        ({
            let was = w.open[partition(e)];
            let file = appended(w, e).open[partition(e)];
            &&& file.entries == was.entries.push((e, (w.event_seq + 1) as i64))
            &&& file.rows == was.rows + next_rows(w, e).len()
            &&& file.key == was.key
            &&& file.window == was.window
            &&& file.opened == was.opened
        }),
{
    assert(next_rows(started(w, e), e) == next_rows(w, e));
}

/// A row group never outgrows its limit: where an event fills it, it is flushed.
pub proof fn law_a_full_row_group_is_flushed(w: WriterView, e: EventView)
    requires
        appends(w, e),
        w.config.row_group_rows > 0,
    ensures
        appended(w, e).open[partition(e)].unflushed.len() < w.config.row_group_rows,
{
}

/// Closing a partition's file takes out that file and no other, and the gauge of
/// open files falls with it. What was counted stays counted.
pub proof fn law_a_closed_file_leaves_the_gauge(w: WriterView, p: Seq<char>)
    requires
        w.open.dom().finite(),
        w.open.contains_key(p),
        w.open.dom().len() <= u64::MAX,
    ensures
        !without_file(w, p).open.contains_key(p),
        without_file(w, p).counters.open_files == w.open.dom().len() - 1,
        without_file(w, p).counters.files_written == w.counters.files_written,
        without_file(w, p).counters.rows_written == w.counters.rows_written,
        without_file(w, p).counters.bytes_written == w.counters.bytes_written,
        without_file(w, p).counters.write_failures == w.counters.write_failures,
        without_file(w, p).parts == w.parts,
        without_file(w, p).event_seq == w.event_seq,
        without_file(w, p).base == w.base,
{
    assert(w.open.remove(p).dom() =~= w.open.dom().remove(p));
}

} // verus!
