//! Tables of columns in Parquet files: what the `arrow` and `parquet` crates do
//! with them.

use std::sync::Arc;

use arrow::array::{Array, ArrayRef, Float64Array, Int64Array};
use arrow::buffer::Buffer;
use arrow::error::ArrowError;
use arrow::record_batch::RecordBatch;
use bytes::Bytes;
use parquet::arrow::arrow_reader::ParquetRecordBatchReaderBuilder;
use parquet::arrow::ArrowWriter;
use parquet::errors::ParquetError;
use vstd::prelude::*;

verus! {

/// An error of the `arrow` crate.
#[verifier::external_type_specification]
#[verifier::external_body]
pub struct ExArrowError(arrow::error::ArrowError);

/// An error of the `parquet` crate.
#[verifier::external_type_specification]
#[verifier::external_body]
pub struct ExParquetError(parquet::errors::ParquetError);

/// A table of the `arrow` crate. Its columns are trait objects, which the verifier
/// does not take, so the table is held here in a field that is hidden from it.
#[verifier::external_body]
pub struct Table {
    batch: RecordBatch,
}

/// The columns of a table by their names: those of 64-bit whole numbers, and those
/// of binary64 numbers, which are given as bit patterns.
#[verifier::ext_equal]
pub struct TableView {
    pub ints: Map<Seq<char>, Seq<i64>>,
    pub numbers: Map<Seq<char>, Seq<u64>>,
}

/// The columns of a table of the `arrow` crate.
pub uninterp spec fn table_view(table: Table) -> TableView;

/// The schema metadata of a table of the `arrow` crate.
pub uninterp spec fn table_metadata(table: Table) -> Map<Seq<char>, Seq<char>>;

/// All of a table is in its view: it has no other columns, and no value is missing.
pub uninterp spec fn is_shown(table: Table) -> bool;

/// Whether a writer with the default settings can write a table of these columns and
/// this schema metadata to memory.
pub uninterp spec fn writable(t: TableView, metadata: Map<Seq<char>, Seq<char>>) -> bool;

/// A reader with the default settings comes back from these bytes, with tables or with
/// an error, whatever the machine and however the crate was built. From the bytes of
/// some damaged files it does not: it panics, or its stack runs out.
pub uninterp spec fn comes_back(bytes: Seq<u8>) -> bool;

/// The tables that a reader with the default settings finds in a Parquet file, in
/// turn; nothing where it fails.
pub uninterp spec fn file_tables(bytes: Seq<u8>) -> Option<Seq<TableView>>;

/// What the schema metadata of a Parquet file holds for a key, if anything;
/// nothing at all where the file has no schema that can be read.
pub uninterp spec fn file_metadata(bytes: Seq<u8>, key: Seq<char>) -> Option<Option<Seq<char>>>;

/// The bytes end in one of the two marks of a Parquet file.
pub open spec fn is_marked(bytes: Seq<u8>) -> bool {
    let n = bytes.len() as int;
    &&& n >= 8
    &&& bytes[n - 4] == 0x50
    &&& bytes[n - 3] == 0x41
    &&& bytes[n - 2] == 0x52
    &&& bytes[n - 1] == 0x31 || bytes[n - 1] == 0x45
}

/// The bytes can be handed to a reader: it comes back from them. Where the mark is
/// missing it looks at nothing else.
pub open spec fn can_be_tried(bytes: Seq<u8>) -> bool {
    is_marked(bytes) ==> comes_back(bytes)
}

/// Some columns by their names.
pub open spec fn numbers_map(columns: Seq<(String, Vec<u64>)>) -> Map<Seq<char>, Seq<u64>>
    decreases columns.len(),
{
    if columns.len() == 0 {
        Map::empty()
    } else {
        numbers_map(columns.drop_last()).insert(columns.last().0@, columns.last().1@)
    }
}

/// Some texts by their keys.
pub open spec fn texts_map(pairs: Seq<(String, String)>) -> Map<Seq<char>, Seq<char>>
    decreases pairs.len(),
{
    if pairs.len() == 0 {
        Map::empty()
    } else {
        texts_map(pairs.drop_last()).insert(pairs.last().0@, pairs.last().1@)
    }
}

/// A table of one column of whole numbers and some columns of binary64 numbers.
pub open spec fn table_of(
    name: Seq<char>,
    ints: Seq<i64>,
    columns: Seq<(String, Vec<u64>)>,
) -> TableView {
    TableView {
        ints: Map::empty().insert(name, ints),
        numbers: numbers_map(columns),
    }
}

/// A name of lower-case letters.
pub open spec fn plain_name(name: Seq<char>) -> bool {
    name.len() > 0 && forall|i: int| 0 <= i < name.len() ==> 'a' <= #[trigger] name[i] <= 'z'
}

/// A key of lower-case letters, dots and underscores.
pub open spec fn plain_key(key: Seq<char>) -> bool {
    key.len() > 0 && forall|i: int|
        0 <= i < key.len() ==> ('a' <= #[trigger] key[i] <= 'z' || key[i] == '.' || key[i] == '_')
}

/// The names are plain and no two are the same, nor the same as the first column's.
pub open spec fn names_ok(name: Seq<char>, columns: Seq<(String, Vec<u64>)>) -> bool {
    &&& plain_name(name)
    &&& forall|i: int|
        0 <= i < columns.len() ==> plain_name((#[trigger] columns[i]).0@) && columns[i].0@ != name
    &&& forall|i: int, j: int|
        #![trigger columns[i], columns[j]]
        0 <= i < j < columns.len() ==> columns[i].0@ != columns[j].0@
}

/// All columns have the same length.
pub open spec fn even(len: nat, columns: Seq<(String, Vec<u64>)>) -> bool {
    forall|i: int| 0 <= i < columns.len() ==> (#[trigger] columns[i]).1@.len() == len
}

/// All columns of a table have the same length.
pub open spec fn aligned(t: TableView) -> bool {
    forall|a: Seq<char>, b: Seq<char>|
        #![trigger t.ints[a], t.numbers[b]]
        t.ints.contains_key(a) && t.numbers.contains_key(b) ==> t.ints[a].len()
            == t.numbers[b].len()
}

/// Some tables, one below the other, make up a table: they have its columns, each of
/// the same length within one of them, and each column is made up of theirs.
pub open spec fn make_up(tables: Seq<TableView>, t: TableView) -> bool {
    &&& forall|i: int|
        0 <= i < tables.len() ==> (#[trigger] tables[i]).ints.dom() == t.ints.dom()
            && tables[i].numbers.dom() == t.numbers.dom() && aligned(tables[i])
    &&& forall|name: Seq<char>| #[trigger]
        t.ints.contains_key(name) ==> ints_below(tables, name) == t.ints[name]
    &&& forall|name: Seq<char>| #[trigger]
        t.numbers.contains_key(name) ==> numbers_below(tables, name) == t.numbers[name]
}

/// One column of some tables, one below the other.
pub open spec fn ints_below(tables: Seq<TableView>, name: Seq<char>) -> Seq<i64>
    decreases tables.len(),
{
    if tables.len() == 0 {
        Seq::empty()
    } else {
        ints_below(tables.drop_last(), name) + tables.last().ints[name]
    }
}

/// One column of some tables, one below the other.
pub open spec fn numbers_below(tables: Seq<TableView>, name: Seq<char>) -> Seq<u64>
    decreases tables.len(),
{
    if tables.len() == 0 {
        Seq::empty()
    } else {
        numbers_below(tables.drop_last(), name) + tables.last().numbers[name]
    }
}

/// The columns of some tables.
pub open spec fn views_of(tables: Seq<Table>) -> Seq<TableView> {
    tables.map_values(|t: Table| table_view(t))
}

/// Calls `RecordBatch::try_from_iter`, which makes a table of columns that all
/// have the same length and fails on others, and puts the pairs in the schema
/// metadata of the table.
#[verifier::external_body]
pub(crate) fn make_table(
    name: String,
    ints: Vec<i64>,
    columns: Vec<(String, Vec<u64>)>,
    metadata: Vec<(String, String)>,
) -> (r: Result<Table, ArrowError>)
    requires
        names_ok(name@, columns@),
    ensures
        r is Ok <==> even(ints@.len(), columns@),
        r matches Ok(table) ==> table_view(table) == table_of(name@, ints@, columns@),
        r matches Ok(table) ==> table_metadata(table) == texts_map(metadata@),
        r matches Ok(table) ==> is_shown(table),
{
    let mut arrays: Vec<(String, ArrayRef)> = vec![(name, Arc::new(Int64Array::from(ints)))];
    for (name, bits) in columns {
        let values = Buffer::from_vec(bits).into();
        arrays.push((name, Arc::new(Float64Array::new(values, None))));
    }
    let mut batch = RecordBatch::try_from_iter(arrays)?;
    for (key, value) in metadata {
        batch.schema_metadata_mut().insert(key, value);
    }
    Ok(Table { batch })
}

/// Calls `ArrowWriter::write` and `ArrowWriter::into_inner` of a writer with the
/// default settings, which writes to memory, so that its outcome is a matter of the
/// table alone. What is claimed is that a reader comes back from the file, that the
/// file reads back as the table that was written, bit for bit, possibly as several
/// tables one below the other, and that its schema metadata does too.
#[verifier::external_body]
pub(crate) fn write_table(table: &Table) -> (r: Result<Vec<u8>, ParquetError>)
    requires
        is_shown(*table),
        forall|name: Seq<char>| #[trigger]
            table_view(*table).ints.contains_key(name) ==> plain_name(name)
                && table_view(*table).ints[name].len() > 0,
        forall|name: Seq<char>| #[trigger]
            table_view(*table).numbers.contains_key(name) ==> plain_name(name),
        forall|key: Seq<char>| #[trigger]
            table_metadata(*table).contains_key(key) ==> plain_key(key),
        table_view(*table).ints.dom().len() > 0,
    ensures
        r is Ok <==> writable(table_view(*table), table_metadata(*table)),
        r matches Ok(bytes) ==> comes_back(bytes@),
        r matches Ok(bytes) ==> (file_tables(bytes@) matches Some(tables) && make_up(
            tables,
            table_view(*table),
        )),
        r matches Ok(bytes) ==> forall|key: Seq<char>| #[trigger]
            file_metadata(bytes@, key) == Some(table_metadata(*table).get(key)),
{
    let mut writer = ArrowWriter::try_new(Vec::new(), table.batch.schema(), None)?;
    writer.write(&table.batch)?;
    writer.into_inner()
}

/// Calls `ParquetRecordBatchReaderBuilder::try_new`, and `get` on the schema metadata
/// that it finds. The builder fails on bytes without the mark of a Parquet file.
#[verifier::external_body]
pub(crate) fn read_metadata(bytes: &Vec<u8>, key: &str) -> (r: Result<
    Option<String>,
    ParquetError,
>)
    requires
        can_be_tried(bytes@),
    ensures
        match r {
            Ok(Some(value)) => file_metadata(bytes@, key@) == Some(Some(value@)),
            Ok(None) => file_metadata(bytes@, key@) == Some(None::<Seq<char>>),
            Err(_) => file_metadata(bytes@, key@) is None,
        },
        !is_marked(bytes@) ==> r is Err,
{
    let builder = ParquetRecordBatchReaderBuilder::try_new(Bytes::copy_from_slice(bytes))?;
    Ok(builder.schema().metadata().get(key).cloned())
}

/// Calls `ParquetRecordBatchReaderBuilder::build` and takes all that the reader
/// gives. The columns of each table that it gives have the same length.
#[verifier::external_body]
pub(crate) fn read_tables(bytes: &Vec<u8>) -> (r: Result<
    Result<Vec<Table>, ArrowError>,
    ParquetError,
>)
    requires
        can_be_tried(bytes@),
    ensures
        match r {
            Ok(Ok(tables)) => file_tables(bytes@) == Some(views_of(tables@)),
            _ => file_tables(bytes@) is None,
        },
        r matches Ok(Ok(tables)) ==> forall|i: int|
            0 <= i < tables@.len() ==> aligned(table_view(#[trigger] tables@[i])),
{
    let builder = ParquetRecordBatchReaderBuilder::try_new(Bytes::copy_from_slice(bytes))?;
    let batches: Result<Vec<RecordBatch>, ArrowError> = builder.build()?.collect();
    Ok(batches.map(|found| found.into_iter().map(|batch| Table { batch }).collect()))
}

/// Calls `RecordBatch::column_by_name`, and gives the values of the column if it
/// is an `Int64Array`.
#[verifier::external_body]
pub(crate) fn column_ints(table: &Table, name: &str) -> (r: Option<Vec<i64>>)
    ensures
        match r {
            Some(values) => table_view(*table).ints.get(name@) == Some(values@),
            None => table_view(*table).ints.get(name@) is None,
        },
{
    let array = table.batch.column_by_name(name)?.as_any().downcast_ref::<Int64Array>()?;
    Some(array.values().to_vec())
}

/// Calls `RecordBatch::column_by_name`, and gives the bit patterns of the values
/// of the column if it is a `Float64Array`.
#[verifier::external_body]
pub(crate) fn column_numbers(table: &Table, name: &str) -> (r: Option<Vec<u64>>)
    ensures
        match r {
            Some(values) => table_view(*table).numbers.get(name@) == Some(values@),
            None => table_view(*table).numbers.get(name@) is None,
        },
{
    let array = table.batch.column_by_name(name)?.as_any().downcast_ref::<Float64Array>()?;
    Some(array.values().inner().typed_data::<u64>().to_vec())
}

} // verus!
