//! Tables of typed columns, in memory and as Parquet files.
//!
//! This is where the library meets `arrow` and `parquet`. A batch of rows is
//! known by the types of its columns and by what each row holds under each
//! column's name; a file is known by the batches that reading it yields.
use std::sync::Arc;

use arrow::array::{Array, ArrayRef, Int32Array, Int64Array, StringArray, UInt32Array};
use arrow::datatypes::{DataType, Field};
use parquet::arrow::arrow_reader::ParquetRecordBatchReaderBuilder;
use parquet::basic::{Compression, ZstdLevel};
use parquet::file::properties::WriterProperties;
use vstd::prelude::*;
use vstd::utf8::encode_utf8;

verus! {

/// The most bytes that the texts of one column of a batch can have together: what
/// a column's 32-bit offsets can count.
pub const TEXT_LIMIT: usize = 2_147_483_647;

/// How many rows are read from a file at a time.
pub const READ_ROWS: usize = 1024;

/// A number of bytes that the texts of one column can safely have in as many rows
/// as are read at a time. Above it a page, or the offsets of the column that is
/// read, may outgrow 32 bits.
pub const READ_LIMIT: usize = 1_073_741_824;

/// The types a column can have.
#[derive(Clone, Copy, Debug, PartialEq, Eq, Structural)]
pub enum ColumnType {
    Int64,
    Int32,
    UInt32,
    Utf8,
}

/// One column of a table.
#[derive(Clone, Copy, Debug)]
pub struct ColumnSpec {
    pub name: &'static str,
    pub column_type: ColumnType,
    pub nullable: bool,
}

/// One column of a table, by its characters. A column of any other type than
/// those of [`ColumnType`] has none.
pub struct ColumnView {
    pub name: Seq<char>,
    pub column_type: Option<ColumnType>,
    pub nullable: bool,
}

impl View for ColumnSpec {
    type V = ColumnView;

    open spec fn view(&self) -> ColumnView {
        ColumnView {
            name: self.name@,
            column_type: Some(self.column_type),
            nullable: self.nullable,
        }
    }
}

/// What a row holds in a column. A null is `None`.
pub enum Cell {
    Int64(Option<i64>),
    Int32(Option<i32>),
    UInt32(Option<u32>),
    Utf8(Option<Seq<char>>),
}

impl Cell {
    pub open spec fn is_null(self) -> bool {
        match self {
            Cell::Int64(v) => v is None,
            Cell::Int32(v) => v is None,
            Cell::UInt32(v) => v is None,
            Cell::Utf8(v) => v is None,
        }
    }
}

/// The values of one column, row by row.
pub enum Column {
    Int64(Vec<Option<i64>>),
    Int32(Vec<Option<i32>>),
    UInt32(Vec<Option<u32>>),
    Utf8(Vec<Option<String>>),
}

/// A text or the lack of one, by its characters.
pub open spec fn maybe_text(t: Option<String>) -> Option<Seq<char>> {
    match t {
        Some(s) => Some(s@),
        None => None,
    }
}

/// How many bytes a cell's text has; none where there is no text.
pub open spec fn cell_bytes(c: Cell) -> nat {
    match c {
        Cell::Utf8(Some(t)) => encode_utf8(t).len(),
        _ => 0,
    }
}

/// How many bytes the texts of cells have together.
pub open spec fn bytes_in(cells: Seq<Cell>) -> nat
    decreases cells.len(),
{
    if cells.len() == 0 {
        0
    } else {
        bytes_in(cells.drop_last()) + cell_bytes(cells.last())
    }
}

/// Cells one after another have the bytes of both.
pub proof fn lemma_bytes_of_both(a: Seq<Cell>, b: Seq<Cell>)
    ensures
        bytes_in(a + b) == bytes_in(a) + bytes_in(b),
    decreases b.len(),
{
    if b.len() == 0 {
        assert(a + b =~= a);
    } else {
        assert((a + b).drop_last() =~= a + b.drop_last());
        lemma_bytes_of_both(a, b.drop_last());
    }
}

impl Column {
    pub open spec fn column_type(self) -> ColumnType {
        match self {
            Column::Int64(_) => ColumnType::Int64,
            Column::Int32(_) => ColumnType::Int32,
            Column::UInt32(_) => ColumnType::UInt32,
            Column::Utf8(_) => ColumnType::Utf8,
        }
    }

    /// How many rows the column has.
    pub open spec fn rows(self) -> nat {
        match self {
            Column::Int64(v) => v@.len(),
            Column::Int32(v) => v@.len(),
            Column::UInt32(v) => v@.len(),
            Column::Utf8(v) => v@.len(),
        }
    }

    /// What the column holds in a row.
    pub open spec fn cell(self, row: int) -> Cell {
        match self {
            Column::Int64(v) => Cell::Int64(v@[row]),
            Column::Int32(v) => Cell::Int32(v@[row]),
            Column::UInt32(v) => Cell::UInt32(v@[row]),
            Column::Utf8(v) => Cell::Utf8(maybe_text(v@[row])),
        }
    }

    /// What the column holds, row by row.
    pub open spec fn cells(self) -> Seq<Cell> {
        Seq::new(self.rows(), |i: int| self.cell(i))
    }

    /// Whether the column's texts do not pass the limit.
    pub open spec fn within_limit(self) -> bool {
        bytes_in(self.cells()) <= TEXT_LIMIT
    }
}

/// An `arrow::array::RecordBatch`: rows held column by column.
#[verifier::external_body]
pub struct Batch {
    batch: arrow::array::RecordBatch,
}

/// `arrow::datatypes::Schema`: the columns of a table.
#[verifier::external_type_specification]
#[verifier::external_body]
pub struct ExSchema(arrow::datatypes::Schema);

/// `arrow::error::ArrowError`.
#[verifier::external_type_specification]
#[verifier::external_body]
pub struct ExArrowError(arrow::error::ArrowError);

/// `parquet::errors::ParquetError`.
#[verifier::external_type_specification]
#[verifier::external_body]
pub struct ExParquetError(parquet::errors::ParquetError);

/// A `parquet::arrow::ArrowWriter`: a Parquet file in the making.
#[verifier::external_body]
pub struct FileWriter {
    writer: parquet::arrow::ArrowWriter<Vec<u8>>,
}

/// A `parquet::arrow::arrow_reader::ParquetRecordBatchReader`: a Parquet file
/// being read.
#[verifier::external_body]
pub struct FileReader {
    reader: parquet::arrow::arrow_reader::ParquetRecordBatchReader,
}

/// What a batch holds: the types of its columns, and its rows.
pub struct BatchView {
    pub types: Map<Seq<char>, ColumnType>,
    pub rows: Seq<Map<Seq<char>, Cell>>,
}

/// What reading a file yields: its batches, and whether reading ends in an
/// error after them.
pub struct FileView {
    pub batches: Seq<BatchView>,
    pub breaks: bool,
}

/// The columns of a schema, in order.
pub uninterp spec fn schema_columns(schema: arrow::datatypes::Schema) -> Seq<ColumnView>;

/// The columns of a batch, in order.
pub uninterp spec fn batch_columns(batch: Batch) -> Seq<ColumnView>;

/// The types of a batch's columns, by name; a column of any other type than those
/// of [`ColumnType`] is not in it.
pub uninterp spec fn batch_types(batch: Batch) -> Map<Seq<char>, ColumnType>;

/// The rows of a batch: under each column's name, what the row holds there.
pub uninterp spec fn batch_rows(batch: Batch) -> Seq<Map<Seq<char>, Cell>>;

/// The columns of a file in the making, in order.
pub uninterp spec fn written_columns(file: FileWriter) -> Seq<ColumnView>;

/// The rows that were put into a file in the making.
pub uninterp spec fn written_rows(file: FileWriter) -> Seq<Map<Seq<char>, Cell>>;

/// A file in the making with columns and no rows, compressed at a level of zstd.
pub uninterp spec fn begun_file(columns: Seq<ColumnView>, level: i32) -> FileWriter;

/// Whether a file in the making takes rows.
pub uninterp spec fn takes_rows(file: FileWriter, rows: Seq<Map<Seq<char>, Cell>>) -> bool;

/// A file in the making once rows were put to it, whether or not it took them.
pub uninterp spec fn with_rows(file: FileWriter, rows: Seq<Map<Seq<char>, Cell>>) -> FileWriter;

/// Whether a file in the making can be finished.
pub uninterp spec fn finishes(file: FileWriter) -> bool;

/// Whether reading a file's bytes comes to an end, be it with an error, and does
/// not panic.
pub uninterp spec fn sound_bytes(bytes: Seq<u8>) -> bool;

/// Whether reading on in a file being read comes to an end and does not panic.
pub uninterp spec fn sound_reader(file: FileReader) -> bool;

/// The batches that a file being read still yields before it ends or fails.
pub uninterp spec fn unread_batches(file: FileReader) -> Seq<BatchView>;

/// Whether a file being read ends in an error.
pub uninterp spec fn breaks_off(file: FileReader) -> bool;

/// What reading a file's bytes yields; nothing where they are no Parquet file.
pub uninterp spec fn file_contents(bytes: Seq<u8>) -> Option<FileView>;

impl Batch {
    pub open spec fn contents(self) -> BatchView {
        BatchView { types: batch_types(self), rows: batch_rows(self) }
    }

    /// Whether there is a column of that name and type.
    pub open spec fn has(self, name: Seq<char>, column_type: ColumnType) -> bool {
        batch_types(self).contains_key(name) && batch_types(self)[name] == column_type
    }
}

/// No two columns have one name.
pub open spec fn distinct_names(columns: Seq<ColumnView>) -> bool {
    forall|i: int, j: int|
        0 <= i < j < columns.len() ==> #[trigger] columns[i].name != #[trigger] columns[j].name
}

/// The types that columns give to their names.
pub open spec fn types_of(columns: Seq<ColumnView>) -> Map<Seq<char>, ColumnType>
    decreases columns.len(),
{
    if columns.len() == 0 {
        Map::empty()
    } else {
        match columns.last().column_type {
            Some(t) => types_of(columns.drop_last()).insert(columns.last().name, t),
            None => types_of(columns.drop_last()),
        }
    }
}

/// Whether values fit the columns of a table: one list of values per column, all
/// of one length, of the column's type, and without a null where the column
/// takes none.
pub open spec fn values_fit(columns: Seq<ColumnView>, values: Seq<Column>) -> bool {
    &&& columns.len() == values.len()
    &&& columns.len() > 0
    &&& forall|j: int|
        0 <= j < values.len() ==> (#[trigger] values[j]).rows() == values[0].rows()
            && Some(values[j].column_type()) == columns[j].column_type
    &&& forall|i: int, j: int|
        0 <= j < values.len() && 0 <= i < values[j].rows() && !columns[j].nullable
            ==> !(#[trigger] values[j].cell(i)).is_null()
}

/// Whether there is a column of that name.
pub open spec fn names_column(columns: Seq<ColumnView>, name: Seq<char>) -> bool {
    exists|j: int| 0 <= j < columns.len() && (#[trigger] columns[j]).name == name
}

/// What rows hold under a name.
pub open spec fn column_of(rows: Seq<Map<Seq<char>, Cell>>, name: Seq<char>) -> Seq<Cell> {
    Seq::new(rows.len(), |i: int| rows[i][name])
}

/// Whether a file of rows can be read: in as many rows as are read at a time, no
/// column's texts pass the reader's limit.
pub open spec fn readable(columns: Seq<ColumnView>, rows: Seq<Map<Seq<char>, Cell>>) -> bool {
    forall|k: int, i: int, j: int|
        0 <= k < columns.len() && 0 <= i <= j <= rows.len() && j - i <= READ_ROWS ==> bytes_in(
            column_of(#[trigger] rows.subrange(i, j), (#[trigger] columns[k]).name),
        ) <= READ_LIMIT
}

/// Whether rows hold values: row by row, under each column's name, and under no
/// other, what the column has there.
pub open spec fn rows_hold(
    rows: Seq<Map<Seq<char>, Cell>>,
    columns: Seq<ColumnView>,
    values: Seq<Column>,
) -> bool {
    &&& rows.len() == values[0].rows()
    &&& forall|i: int, j: int|
        0 <= i < rows.len() && 0 <= j < columns.len() ==> (#[trigger] rows[i])[(
        #[trigger] columns[j]).name] == values[j].cell(i)
    &&& forall|i: int, name: Seq<char>|
        0 <= i < rows.len() ==> (#[trigger] rows[i].contains_key(name) <==> names_column(
            columns,
            name,
        ))
}

/// All rows of a number of batches, in order.
pub open spec fn table_of(batches: Seq<BatchView>) -> Seq<Map<Seq<char>, Cell>>
    decreases batches.len(),
{
    if batches.len() == 0 {
        Seq::empty()
    } else {
        table_of(batches.drop_last()) + batches.last().rows
    }
}

/// Whether a file reads back as a table: every batch has the table's columns,
/// the batches hold its rows and no others in their order, and no error ends
/// the reading.
pub open spec fn reads_back(
    file: Option<FileView>,
    types: Map<Seq<char>, ColumnType>,
    rows: Seq<Map<Seq<char>, Cell>>,
) -> bool {
    match file {
        Some(f) => {
            &&& !f.breaks
            &&& table_of(f.batches) == rows
            &&& forall|i: int| 0 <= i < f.batches.len() ==> (#[trigger] f.batches[i]).types == types
        },
        None => false,
    }
}

/// A schema through `arrow::datatypes::Schema::new`, each field through
/// `Field::new`: the fields given, in order.
#[verifier::external_body]
pub(crate) fn schema_of(columns: &[ColumnSpec]) -> (schema: Arc<arrow::datatypes::Schema>)
    ensures
        schema_columns(*schema).len() == columns@.len(),
        forall|i: int|
            0 <= i < columns@.len() ==> #[trigger] schema_columns(*schema)[i] == columns@[i]@,
{
    let field = |c: &ColumnSpec| {
        let data_type = match c.column_type {
            ColumnType::Int64 => DataType::Int64,
            ColumnType::Int32 => DataType::Int32,
            ColumnType::UInt32 => DataType::UInt32,
            ColumnType::Utf8 => DataType::Utf8,
        };
        Field::new(c.name, data_type, c.nullable)
    };
    Arc::new(arrow::datatypes::Schema::new(columns.iter().map(field).collect::<Vec<_>>()))
}

/// A batch through `arrow::array::RecordBatch::try_new`, which takes exactly the
/// values that fit the schema's columns. Each column becomes an array of its
/// type; building one of texts panics past the limit of its offsets.
#[verifier::external_body]
pub(crate) fn batch_of(
    schema: Arc<arrow::datatypes::Schema>,
    values: Vec<Column>,
) -> (r: Result<Batch, arrow::error::ArrowError>)
    requires
        distinct_names(schema_columns(*schema)),
        forall|j: int| 0 <= j < values@.len() ==> (#[trigger] values@[j]).within_limit(),
    ensures
        r is Ok <==> values_fit(schema_columns(*schema), values@),
        r matches Ok(b) ==> batch_columns(b) == schema_columns(*schema),
        r matches Ok(b) ==> batch_types(b) == types_of(schema_columns(*schema)),
        r matches Ok(b) ==> rows_hold(batch_rows(b), schema_columns(*schema), values@),
{
    let array = |c: Column| -> ArrayRef {
        match c {
            Column::Int64(v) => Arc::new(Int64Array::from(v)),
            Column::Int32(v) => Arc::new(Int32Array::from(v)),
            Column::UInt32(v) => Arc::new(UInt32Array::from(v)),
            Column::Utf8(v) => Arc::new(StringArray::from(v)),
        }
    };
    let arrays = values.into_iter().map(array).collect();
    Ok(Batch { batch: arrow::array::RecordBatch::try_new(schema, arrays)? })
}

/// A column through `arrow::array::RecordBatch::column_by_name`, as an
/// `Int64Array`: its values row by row, and nothing where the batch has no
/// column of that name and type.
#[verifier::external_body]
pub(crate) fn int64_column(batch: &Batch, name: &str) -> (r: Option<Vec<Option<i64>>>)
    ensures
        r is Some <==> batch.has(name@, ColumnType::Int64),
        r matches Some(v) ==> v@.len() == batch_rows(*batch).len(),
        r matches Some(v) ==> forall|i: int|
            0 <= i < v@.len() ==> (#[trigger] batch_rows(*batch)[i])[name@] == Cell::Int64(v@[i]),
{
    let array = batch.batch.column_by_name(name)?.as_any().downcast_ref::<Int64Array>()?;
    Some(array.iter().collect())
}

/// A column through `arrow::array::RecordBatch::column_by_name`, as an
/// `Int32Array`: its values row by row, and nothing where the batch has no
/// column of that name and type.
#[verifier::external_body]
pub(crate) fn int32_column(batch: &Batch, name: &str) -> (r: Option<Vec<Option<i32>>>)
    ensures
        r is Some <==> batch.has(name@, ColumnType::Int32),
        r matches Some(v) ==> v@.len() == batch_rows(*batch).len(),
        r matches Some(v) ==> forall|i: int|
            0 <= i < v@.len() ==> (#[trigger] batch_rows(*batch)[i])[name@] == Cell::Int32(v@[i]),
{
    let array = batch.batch.column_by_name(name)?.as_any().downcast_ref::<Int32Array>()?;
    Some(array.iter().collect())
}

/// A column through `arrow::array::RecordBatch::column_by_name`, as a
/// `UInt32Array`: its values row by row, and nothing where the batch has no
/// column of that name and type.
#[verifier::external_body]
pub(crate) fn uint32_column(batch: &Batch, name: &str) -> (r: Option<Vec<Option<u32>>>)
    ensures
        r is Some <==> batch.has(name@, ColumnType::UInt32),
        r matches Some(v) ==> v@.len() == batch_rows(*batch).len(),
        r matches Some(v) ==> forall|i: int|
            0 <= i < v@.len() ==> (#[trigger] batch_rows(*batch)[i])[name@] == Cell::UInt32(v@[i]),
{
    let array = batch.batch.column_by_name(name)?.as_any().downcast_ref::<UInt32Array>()?;
    Some(array.iter().collect())
}

/// A column through `arrow::array::RecordBatch::column_by_name`, as a
/// `StringArray`: its values row by row, and nothing where the batch has no
/// column of that name and type.
#[verifier::external_body]
pub(crate) fn utf8_column(batch: &Batch, name: &str) -> (r: Option<Vec<Option<String>>>)
    ensures
        r is Some <==> batch.has(name@, ColumnType::Utf8),
        r matches Some(v) ==> v@.len() == batch_rows(*batch).len(),
        r matches Some(v) ==> forall|i: int|
            0 <= i < v@.len() ==> (#[trigger] batch_rows(*batch)[i])[name@] == Cell::Utf8(
                maybe_text(v@[i]),
            ),
{
    let array = batch.batch.column_by_name(name)?.as_any().downcast_ref::<StringArray>()?;
    Some(array.iter().map(|v| v.map(str::to_owned)).collect())
}

/// How many rows a batch has, through `arrow::array::RecordBatch::num_rows`.
#[verifier::external_body]
pub(crate) fn row_count(batch: &Batch) -> (n: usize)
    ensures
        n == batch_rows(*batch).len(),
{
    batch.batch.num_rows()
}

/// Whether every column has one of the types of [`ColumnType`].
pub open spec fn all_typed(columns: Seq<ColumnView>) -> bool {
    forall|i: int| 0 <= i < columns.len() ==> (#[trigger] columns[i]).column_type is Some
}

/// A file in the making through `parquet::arrow::ArrowWriter::try_new`, into
/// memory and compressed with zstd at a level: it has the schema's columns and no
/// rows, and is a matter of the columns and the level alone. It fails only where a
/// type has no counterpart in Parquet, which each type of [`ColumnType`] has, or
/// where the first bytes cannot be written, which memory does not refuse.
/// `ZstdLevel::try_new` takes every level from 1 to 22.
#[verifier::external_body]
pub(crate) fn start_file(schema: Arc<arrow::datatypes::Schema>, level: i32) -> (r: Result<
    FileWriter,
    parquet::errors::ParquetError,
>)
    requires
        distinct_names(schema_columns(*schema)),
        1 <= level <= 22,
    ensures
        all_typed(schema_columns(*schema)) ==> r is Ok,
        r matches Ok(w) ==> w == begun_file(schema_columns(*schema), level),
        r matches Ok(w) ==> written_columns(w) == schema_columns(*schema),
        r matches Ok(w) ==> written_rows(w).len() == 0,
{
    let compression = Compression::ZSTD(ZstdLevel::try_new(level)?);
    let props = WriterProperties::builder().set_compression(compression).build();
    let writer = parquet::arrow::ArrowWriter::try_new(Vec::new(), schema, Some(props))?;
    Ok(FileWriter { writer })
}

/// `parquet::arrow::ArrowWriter::write`: a batch with the file's columns, in
/// their order, adds its rows after those already there. Whether it succeeds, and
/// what the file then is, is a matter of the file and the rows alone. Nothing is
/// claimed of the rows after a failure.
#[verifier::external_body]
pub(crate) fn write_batch(file: &mut FileWriter, batch: &Batch) -> (r: Result<
    (),
    parquet::errors::ParquetError,
>)
    requires
        batch_columns(*batch) == written_columns(*old(file)),
    ensures
        r is Ok <==> takes_rows(*old(file), batch_rows(*batch)),
        *final(file) == with_rows(*old(file), batch_rows(*batch)),
        written_columns(*final(file)) == written_columns(*old(file)),
        r is Ok ==> written_rows(*final(file)) == written_rows(*old(file)) + batch_rows(*batch),
{
    file.writer.write(&batch.batch)
}

/// `parquet::arrow::ArrowWriter::into_inner`: the finished file's bytes. Whether
/// it succeeds is a matter of the file alone. Reading the bytes does not panic,
/// and yields the rows that were put in, as long as no column's texts are too long
/// for the reader, which takes 1024 rows at a time: past that a page's size or a
/// column's offsets may not be counted in 32 bits, and reading fails.
#[verifier::external_body]
pub(crate) fn finish_file(file: FileWriter) -> (r: Result<Vec<u8>, parquet::errors::ParquetError>)
    ensures
        r is Ok <==> finishes(file),
        r matches Ok(bytes) ==> sound_bytes(bytes@),
        r matches Ok(bytes) ==> (readable(written_columns(file), written_rows(file)) ==> reads_back(
            file_contents(bytes@),
            types_of(written_columns(file)),
            written_rows(file),
        )),
{
    file.writer.into_inner()
}

/// What an opened file yields; nothing where it did not open.
pub open spec fn opened(r: Result<FileReader, parquet::errors::ParquetError>) -> Option<FileView> {
    match r {
        Ok(f) => Some(FileView { batches: unread_batches(f), breaks: breaks_off(f) }),
        Err(_) => None,
    }
}

/// Opens a file through `ParquetRecordBatchReaderBuilder::try_new` and its
/// `build`: what it yields is a matter of its bytes alone. Bytes that are damaged
/// in the middle can make the reader panic; those are left out.
#[verifier::external_body]
pub(crate) fn open_file(bytes: Vec<u8>) -> (r: Result<FileReader, parquet::errors::ParquetError>)
    requires
        sound_bytes(bytes@),
    ensures
        opened(r) == file_contents(bytes@),
        r matches Ok(f) ==> sound_reader(f),
{
    let builder = ParquetRecordBatchReaderBuilder::try_new(bytes::Bytes::from(bytes))?;
    Ok(FileReader { reader: builder.build()? })
}

/// `Iterator::next` of `ParquetRecordBatchReader`: the first batch not yet
/// yielded; after the last of them an error where the file breaks off, and
/// nothing where it does not. Nothing is claimed of the file after an error.
#[verifier::external_body]
pub(crate) fn next_batch(file: &mut FileReader) -> (r: Option<
    Result<Batch, arrow::error::ArrowError>,
>)
    requires
        sound_reader(*old(file)),
    ensures
        r matches Some(Ok(_)) ==> sound_reader(*final(file)),
        unread_batches(*old(file)).len() == 0 ==> (r is Some <==> breaks_off(*old(file))),
        unread_batches(*old(file)).len() == 0 && r is Some ==> r->0 is Err,
        unread_batches(*old(file)).len() > 0 ==> r is Some && r->0 is Ok,
        unread_batches(*old(file)).len() > 0 ==> (r->0)->Ok_0.contents() == unread_batches(
            *old(file),
        )[0] && unread_batches(*final(file)) == unread_batches(*old(file)).drop_first()
            && breaks_off(*final(file)) == breaks_off(*old(file)),
{
    Some(file.reader.next()?.map(|batch| Batch { batch }))
}

} // verus!
