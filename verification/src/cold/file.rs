//! Candles in cold files.

use vstd::prelude::*;
use super::columns;
use super::columns::{column_ints, column_numbers, make_table, write_table};
use super::columns::{read_metadata, read_tables, Table, TableView};
use super::names;
use super::names::{cold_directory, cold_file_path};
use super::SpillError;
use crate::ring_buffer;
use crate::text;
use crate::text::{char_vec, parse_unsigned, push_digits};
use crate::Binary64;
use crate::Candle;

verus! {

/// The version of the schema that files are written under. Files without a version
/// are older, and count as version zero.
pub const SCHEMA_VERSION: u32 = 1;

/// The key of the version in a file's metadata.
pub open spec fn version_key() -> Seq<char> {
    "candlestore.schema_version"@
}

/// The key of the name of this library in a file's metadata.
pub open spec fn brand_key() -> Seq<char> {
    "candlestore.brand"@
}

/// The columns of some candles.
pub open spec fn candle_table(candles: Seq<Candle>) -> TableView {
    TableView {
        ints: Map::empty().insert("ts"@, candles.map_values(|c: Candle| c.ts)),
        numbers: Map::empty().insert(
            "open"@,
            candles.map_values(|c: Candle| c.open.bits),
        ).insert("high"@, candles.map_values(|c: Candle| c.high.bits)).insert(
            "low"@,
            candles.map_values(|c: Candle| c.low.bits),
        ).insert("close"@, candles.map_values(|c: Candle| c.close.bits)).insert(
            "volume"@,
            candles.map_values(|c: Candle| c.volume.bits),
        ),
    }
}

/// The metadata of the files that this library writes: its name, and the version of
/// the schema.
pub open spec fn notes() -> Map<Seq<char>, Seq<char>> {
    Map::empty().insert(brand_key(), "candlestore"@).insert(
        version_key(),
        text::digits(SCHEMA_VERSION as nat),
    )
}

/// The bytes are a file of these candles, with the name of this library and the
/// version that it writes.
pub open spec fn holds(bytes: Seq<u8>, candles: Seq<Candle>) -> bool {
    &&& columns::comes_back(bytes)
    &&& columns::file_tables(bytes) matches Some(tables)
    &&& columns::make_up(tables, candle_table(candles))
    &&& columns::file_metadata(bytes, version_key()) == Some(
        Some(text::digits(SCHEMA_VERSION as nat)),
    )
    &&& columns::file_metadata(bytes, brand_key()) == Some(Some("candlestore"@))
}

/// The first required column that a table lacks.
pub open spec fn missing(t: TableView) -> Option<Seq<char>> {
    if !t.ints.contains_key("ts"@) {
        Some("ts"@)
    } else if !t.numbers.contains_key("open"@) {
        Some("open"@)
    } else if !t.numbers.contains_key("high"@) {
        Some("high"@)
    } else if !t.numbers.contains_key("low"@) {
        Some("low"@)
    } else if !t.numbers.contains_key("close"@) {
        Some("close"@)
    } else if !t.numbers.contains_key("volume"@) {
        Some("volume"@)
    } else {
        None
    }
}

/// The candles of a table that lacks nothing. Columns that are not asked for do not
/// matter.
pub open spec fn rows(t: TableView) -> Seq<Candle> {
    Seq::new(
        t.ints["ts"@].len(),
        |i: int|
            Candle {
                ts: t.ints["ts"@][i],
                open: Binary64 { bits: t.numbers["open"@][i] },
                high: Binary64 { bits: t.numbers["high"@][i] },
                low: Binary64 { bits: t.numbers["low"@][i] },
                close: Binary64 { bits: t.numbers["close"@][i] },
                volume: Binary64 { bits: t.numbers["volume"@][i] },
            },
    )
}

/// What is in a file.
pub enum Contents {
    Candles(Seq<Candle>),
    /// A table lacks this column.
    Missing(Seq<char>),
    /// The file is of a later version.
    Newer(u32),
    /// The file, or a table in it, cannot be read.
    Unreadable,
}

/// The candles of some tables, in turn, up to the first that lacks a column.
pub open spec fn candles_in(tables: Seq<TableView>) -> Contents
    decreases tables.len(),
{
    if tables.len() == 0 {
        Contents::Candles(Seq::empty())
    } else {
        match candles_in(tables.drop_last()) {
            Contents::Candles(before) => match missing(tables.last()) {
                Some(name) => Contents::Missing(name),
                None => Contents::Candles(before + rows(tables.last())),
            },
            other => other,
        }
    }
}

/// The version that a file's metadata gives, which is zero where there is none or
/// it is no number.
pub open spec fn version_of(value: Option<Seq<char>>) -> u32 {
    match value {
        Some(s) => match text::number(s, false, 0, u32::MAX as int) {
            Some(n) => n as u32,
            None => 0,
        },
        None => 0,
    }
}

/// What is in a file: its version is looked at before its tables.
pub open spec fn contents(bytes: Seq<u8>) -> Contents {
    match columns::file_metadata(bytes, version_key()) {
        None => Contents::Unreadable,
        Some(value) => if version_of(value) > SCHEMA_VERSION {
            Contents::Newer(version_of(value))
        } else {
            match columns::file_tables(bytes) {
                None => Contents::Unreadable,
                Some(tables) => candles_in(tables),
            }
        },
    }
}

/// The candles between two bounds in some files, in turn. A file that cannot be
/// used is passed over.
pub open spec fn found_in(files: Seq<Seq<u8>>, from_ts: i64, to_ts: i64) -> Seq<Candle>
    decreases files.len(),
{
    if files.len() == 0 {
        Seq::empty()
    } else {
        let before = found_in(files.drop_last(), from_ts, to_ts);
        match contents(files.last()) {
            Contents::Candles(candles) => before + ring_buffer::within(candles, from_ts, to_ts),
            _ => before,
        }
    }
}

/// A file to be written. It can be read.
#[derive(Debug)]
pub struct SpillFile {
    directory: String,
    path: String,
    bytes: Vec<u8>,
}

/// A file to be written: where it is to be, and what is to be in it.
pub struct SpillView {
    pub directory: Seq<char>,
    pub path: Seq<char>,
    pub bytes: Seq<u8>,
}

impl View for SpillFile {
    type V = SpillView;

    closed spec fn view(&self) -> SpillView {
        SpillView { directory: self.directory@, path: self.path@, bytes: self.bytes@ }
    }
}

impl SpillFile {
    #[verifier::type_invariant]
    spec fn inv(&self) -> bool {
        columns::comes_back(self.bytes@)
    }

    /// The directory that the file is to be in.
    pub fn directory(&self) -> (r: &String)
        ensures
            r@ == self@.directory,
    {
        &self.directory
    }

    /// The whole path of the file.
    pub fn path(&self) -> (r: &String)
        ensures
            r@ == self@.path,
    {
        &self.path
    }

    /// What is to be in the file.
    pub fn bytes(&self) -> (r: &Vec<u8>)
        ensures
            r@ == self@.bytes,
    {
        &self.bytes
    }
}

/// The columns that were found in a table.
#[derive(Debug)]
pub struct FoundColumns {
    pub ts: Option<Vec<i64>>,
    pub open: Option<Vec<u64>>,
    pub high: Option<Vec<u64>>,
    pub low: Option<Vec<u64>>,
    pub close: Option<Vec<u64>>,
    pub volume: Option<Vec<u64>>,
}

/// A column that was found has so many values.
pub open spec fn has_len(column: Option<Vec<u64>>, len: nat) -> bool {
    column matches Some(values) ==> values@.len() == len
}

impl FoundColumns {
    /// All columns that were found have the same length.
    pub open spec fn even(self) -> bool {
        self.ts matches Some(ts) ==> {
            &&& has_len(self.open, ts@.len())
            &&& has_len(self.high, ts@.len())
            &&& has_len(self.low, ts@.len())
            &&& has_len(self.close, ts@.len())
            &&& has_len(self.volume, ts@.len())
        }
    }

    /// The columns as a table.
    pub open spec fn table(self) -> TableView {
        TableView {
            ints: Map::new(
                |name: Seq<char>| name == "ts"@ && self.ts is Some,
                |name: Seq<char>| self.ts->Some_0@,
            ),
            numbers: Map::new(
                |name: Seq<char>| self.number(name) is Some,
                |name: Seq<char>| self.number(name)->Some_0@,
            ),
        }
    }

    pub open spec fn number(self, name: Seq<char>) -> Option<Vec<u64>> {
        if name == "open"@ {
            self.open
        } else if name == "high"@ {
            self.high
        } else if name == "low"@ {
            self.low
        } else if name == "close"@ {
            self.close
        } else if name == "volume"@ {
            self.volume
        } else {
            None
        }
    }
}

/// The names of the columns are plain, and all different.
proof fn lemma_names()
    ensures
        columns::plain_name("ts"@),
        columns::plain_name("open"@),
        columns::plain_name("high"@),
        columns::plain_name("low"@),
        columns::plain_name("close"@),
        columns::plain_name("volume"@),
        "ts"@ != "open"@,
        "ts"@ != "high"@,
        "ts"@ != "low"@,
        "ts"@ != "close"@,
        "ts"@ != "volume"@,
        "open"@ != "high"@,
        "open"@ != "low"@,
        "open"@ != "close"@,
        "open"@ != "volume"@,
        "high"@ != "low"@,
        "high"@ != "close"@,
        "high"@ != "volume"@,
        "low"@ != "close"@,
        "low"@ != "volume"@,
        "close"@ != "volume"@,
{
    reveal_strlit("ts");
    reveal_strlit("open");
    reveal_strlit("high");
    reveal_strlit("low");
    reveal_strlit("close");
    reveal_strlit("volume");
    assert("ts"@.len() == 2 && "open"@.len() == 4 && "high"@.len() == 4 && "low"@.len() == 3
        && "close"@.len() == 5 && "volume"@.len() == 6);
    assert("open"@[0] == 'o' && "high"@[0] == 'h');
}

/// Whether a file of this version can be read.
pub fn check_schema_compat(value: &Option<String>) -> (r: Result<(), SpillError>)
    ensures
        ({
            let version = version_of(
                match *value {
                    Some(s) => Some(s@),
                    None => None,
                },
            );
            if version > SCHEMA_VERSION {
                r matches Err(SpillError::IncompatibleVersion { found, supported }) && found
                    == version && supported == SCHEMA_VERSION
            } else {
                r is Ok
            }
        }),
{
    let version: u32 = match value {
        Some(s) => {
            let chars = char_vec(s.as_str());
            assert(chars@.subrange(0, chars@.len() as int) =~= chars@);
            match parse_unsigned(&chars, 0, chars.len(), u32::MAX as u64) {
                Some(n) => n as u32,
                None => 0,
            }
        },
        None => 0,
    };
    if version > SCHEMA_VERSION {
        Err(SpillError::IncompatibleVersion { found: version, supported: SCHEMA_VERSION })
    } else {
        Ok(())
    }
}

fn absent(name: &str) -> (r: SpillError)
    ensures
        r matches SpillError::MissingColumn { name: s } && s@ == name@,
{
    SpillError::MissingColumn { name: name.to_owned() }
}

/// The candles of the columns of a table, unless one is missing.
pub fn candles_of_columns(found: FoundColumns) -> (r: Result<Vec<Candle>, SpillError>)
    requires
        found.even(),
    ensures
        match missing(found.table()) {
            Some(name) => r matches Err(SpillError::MissingColumn { name: s }) && s@ == name,
            None => r matches Ok(candles) && candles@ == rows(found.table()),
        },
{
    proof {
        lemma_names();
    }
    let ghost t = found.table();
    let ts = match found.ts {
        Some(values) => values,
        None => {
            return Err(absent("ts"));
        },
    };
    let open = match found.open {
        Some(values) => values,
        None => {
            return Err(absent("open"));
        },
    };
    let high = match found.high {
        Some(values) => values,
        None => {
            return Err(absent("high"));
        },
    };
    let low = match found.low {
        Some(values) => values,
        None => {
            return Err(absent("low"));
        },
    };
    let close = match found.close {
        Some(values) => values,
        None => {
            return Err(absent("close"));
        },
    };
    let volume = match found.volume {
        Some(values) => values,
        None => {
            return Err(absent("volume"));
        },
    };
    let mut candles: Vec<Candle> = Vec::new();
    let mut i: usize = 0;
    while i < ts.len()
        invariant
            i <= ts@.len(),
            open@.len() == ts@.len(),
            high@.len() == ts@.len(),
            low@.len() == ts@.len(),
            close@.len() == ts@.len(),
            volume@.len() == ts@.len(),
            t.ints["ts"@] == ts@,
            t.numbers["open"@] == open@,
            t.numbers["high"@] == high@,
            t.numbers["low"@] == low@,
            t.numbers["close"@] == close@,
            t.numbers["volume"@] == volume@,
            candles@ == rows(t).take(i as int),
        decreases ts@.len() - i,
    {
        let candle = Candle {
            ts: ts[i],
            open: Binary64::from_bits(open[i]),
            high: Binary64::from_bits(high[i]),
            low: Binary64::from_bits(low[i]),
            close: Binary64::from_bits(close[i]),
            volume: Binary64::from_bits(volume[i]),
        };
        candles.push(candle);
        assert(rows(t).take(i + 1) =~= rows(t).take(i as int).push(candle));
        i = i + 1;
    }
    assert(rows(t).take(i as int) =~= rows(t));
    Ok(candles)
}

/// The candles of a table.
fn candles_of_table(table: &Table) -> (r: Result<Vec<Candle>, SpillError>)
    requires
        columns::aligned(columns::table_view(*table)),
    ensures
        match missing(columns::table_view(*table)) {
            Some(name) => r matches Err(SpillError::MissingColumn { name: s }) && s@ == name,
            None => r matches Ok(candles) && candles@ == rows(columns::table_view(*table)),
        },
{
    proof {
        lemma_names();
    }
    let found = FoundColumns {
        ts: column_ints(table, "ts"),
        open: column_numbers(table, "open"),
        high: column_numbers(table, "high"),
        low: column_numbers(table, "low"),
        close: column_numbers(table, "close"),
        volume: column_numbers(table, "volume"),
    };
    proof {
        let t = columns::table_view(*table);
        let f = found.table();
        assert(missing(t) == missing(f));
        if missing(t) is None {
            assert(rows(t) =~= rows(f));
        }
    }
    candles_of_columns(found)
}

/// The candles in a file from whose bytes a reader comes back.
pub fn read_file(bytes: &Vec<u8>) -> (r: Result<Vec<Candle>, SpillError>)
    requires
        columns::can_be_tried(bytes@),
    ensures
        !columns::is_marked(bytes@) ==> r matches Err(SpillError::Parquet(_)),
        match contents(bytes@) {
            Contents::Candles(candles) => r matches Ok(found) && found@ == candles,
            Contents::Missing(name) => r matches Err(SpillError::MissingColumn { name: s }) && s@
                == name,
            Contents::Newer(version) => r matches Err(
                SpillError::IncompatibleVersion { found, supported },
            ) && found == version && supported == SCHEMA_VERSION,
            Contents::Unreadable => r matches Err(e) && (e is Arrow || e is Parquet),
        },
{
    let value = match read_metadata(bytes, "candlestore.schema_version") {
        Ok(value) => value,
        Err(e) => {
            return Err(SpillError::Parquet(e));
        },
    };
    match check_schema_compat(&value) {
        Ok(()) => {},
        Err(e) => {
            return Err(e);
        },
    }
    let tables = match read_tables(bytes) {
        Ok(Ok(tables)) => tables,
        Ok(Err(e)) => {
            return Err(SpillError::Arrow(e));
        },
        Err(e) => {
            return Err(SpillError::Parquet(e));
        },
    };
    let ghost views = columns::views_of(tables@);
    let mut out: Vec<Candle> = Vec::new();
    let mut i: usize = 0;
    assert(views.take(0) =~= Seq::<TableView>::empty());
    while i < tables.len()
        invariant
            i <= tables@.len(),
            views == columns::views_of(tables@),
            forall|j: int|
                0 <= j < tables@.len() ==> columns::aligned(
                    columns::table_view(#[trigger] tables@[j]),
                ),
            columns::is_marked(bytes@),
            candles_in(views.take(i as int)) == Contents::Candles(out@),
            contents(bytes@) == candles_in(views),
        decreases tables@.len() - i,
    {
        assert(views.take(i + 1).drop_last() =~= views.take(i as int));
        assert(views.take(i + 1).last() == columns::table_view(tables@[i as int]));
        match candles_of_table(&tables[i]) {
            Ok(candles) => {
                let mut candles = candles;
                out.append(&mut candles);
            },
            Err(e) => {
                proof {
                    lemma_first_failure_counts(views, i as int);
                }
                return Err(e);
            },
        }
        i = i + 1;
    }
    assert(views.take(i as int) =~= views);
    Ok(out)
}

proof fn lemma_first_failure_counts(tables: Seq<TableView>, i: int)
    requires
        0 <= i < tables.len(),
        candles_in(tables.take(i)) is Candles,
        missing(tables[i]) is Some,
    ensures
        candles_in(tables) == Contents::Missing(missing(tables[i])->Some_0),
    decreases tables.len(),
{
    if i == tables.len() - 1 {
        assert(tables.take(i) =~= tables.drop_last());
    } else {
        assert(tables.drop_last().take(i) =~= tables.take(i));
        lemma_first_failure_counts(tables.drop_last(), i);
    }
}

/// Some candles as the bytes of a file. There must be at least one.
pub fn encode(candles: &Vec<Candle>) -> (r: Result<Vec<u8>, SpillError>)
    requires
        candles@.len() > 0,
    ensures
        r is Ok <==> columns::writable(candle_table(candles@), notes()),
        r matches Ok(bytes) ==> holds(bytes@, candles@),
        r matches Err(e) ==> e is Parquet,
{
    let mut ts: Vec<i64> = Vec::new();
    let mut open: Vec<u64> = Vec::new();
    let mut high: Vec<u64> = Vec::new();
    let mut low: Vec<u64> = Vec::new();
    let mut close: Vec<u64> = Vec::new();
    let mut volume: Vec<u64> = Vec::new();
    let mut i: usize = 0;
    while i < candles.len()
        invariant
            i <= candles@.len(),
            ts@ == candles@.take(i as int).map_values(|c: Candle| c.ts),
            open@ == candles@.take(i as int).map_values(|c: Candle| c.open.bits),
            high@ == candles@.take(i as int).map_values(|c: Candle| c.high.bits),
            low@ == candles@.take(i as int).map_values(|c: Candle| c.low.bits),
            close@ == candles@.take(i as int).map_values(|c: Candle| c.close.bits),
            volume@ == candles@.take(i as int).map_values(|c: Candle| c.volume.bits),
        decreases candles@.len() - i,
    {
        let c = candles[i];
        ts.push(c.ts);
        open.push(c.open.to_bits());
        high.push(c.high.to_bits());
        low.push(c.low.to_bits());
        close.push(c.close.to_bits());
        volume.push(c.volume.to_bits());
        i = i + 1;
    }
    assert(candles@.take(i as int) =~= candles@);
    let mut columns: Vec<(String, Vec<u64>)> = Vec::new();
    columns.push(("open".to_owned(), open));
    columns.push(("high".to_owned(), high));
    columns.push(("low".to_owned(), low));
    columns.push(("close".to_owned(), close));
    columns.push(("volume".to_owned(), volume));
    let mut version = String::new();
    push_digits(&mut version, SCHEMA_VERSION as u64);
    assert(version@ =~= text::digits(SCHEMA_VERSION as nat));
    let mut metadata: Vec<(String, String)> = Vec::new();
    metadata.push(("candlestore.brand".to_owned(), "candlestore".to_owned()));
    metadata.push(("candlestore.schema_version".to_owned(), version));
    proof {
        lemma_names();
        lemma_keys();
        lemma_numbers_of_five(columns@);
        lemma_texts_of_two(metadata@);
    }
    let table = match make_table("ts".to_owned(), ts, columns, metadata) {
        Ok(table) => table,
        Err(e) => {
            return Err(SpillError::Arrow(e));
        },
    };
    assert(columns::table_view(table) =~= candle_table(candles@));
    assert(columns::table_view(table).ints.contains_key("ts"@));
    assert(columns::table_view(table).ints.dom() =~= Set::empty().insert("ts"@));
    assert(columns::table_metadata(table) =~= notes());
    match write_table(&table) {
        Ok(bytes) => Ok(bytes),
        Err(e) => Err(SpillError::Parquet(e)),
    }
}

proof fn lemma_keys()
    ensures
        columns::plain_key("candlestore.brand"@),
        columns::plain_key(version_key()),
        "candlestore.brand"@ != version_key(),
{
    reveal_strlit("candlestore.brand");
    reveal_strlit("candlestore.schema_version");
}

proof fn lemma_numbers_of_five(columns: Seq<(String, Vec<u64>)>)
    requires
        columns.len() == 5,
    ensures
        columns::numbers_map(columns) == Map::<Seq<char>, Seq<u64>>::empty().insert(
            columns[0].0@,
            columns[0].1@,
        ).insert(columns[1].0@, columns[1].1@).insert(columns[2].0@, columns[2].1@).insert(
            columns[3].0@,
            columns[3].1@,
        ).insert(columns[4].0@, columns[4].1@),
{
    reveal_with_fuel(columns::numbers_map, 6);
}

proof fn lemma_texts_of_two(pairs: Seq<(String, String)>)
    requires
        pairs.len() == 2,
    ensures
        columns::texts_map(pairs) == Map::<Seq<char>, Seq<char>>::empty().insert(
            pairs[0].0@,
            pairs[0].1@,
        ).insert(pairs[1].0@, pairs[1].1@),
{
    reveal_with_fuel(columns::texts_map, 3);
}

/// The file that some candles of a symbol are to be written to, and what is to be
/// in it; nothing where there are no candles.
pub fn spill(data_dir: &str, symbol: &str, candles: &Vec<Candle>) -> (r: Result<
    Option<SpillFile>,
    SpillError,
>)
    ensures
        candles@.len() == 0 <==> r == Ok::<Option<SpillFile>, SpillError>(None),
        candles@.len() > 0 ==> (r is Ok <==> columns::writable(candle_table(candles@), notes())),
        r matches Ok(Some(file)) ==> {
            &&& file@.directory == names::directory(data_dir@, symbol@)
            &&& file@.path == names::path_of(
                data_dir@,
                symbol@,
                candles@[0].ts,
                candles@.last().ts,
            )
            &&& holds(file@.bytes, candles@)
        },
        r matches Err(e) ==> e is Parquet,
{
    if candles.len() == 0 {
        return Ok(None);
    }
    let ts_start = candles[0].ts;
    let ts_end = candles[candles.len() - 1].ts;
    match encode(candles) {
        Ok(bytes) => Ok(
            Some(
                SpillFile {
                    directory: cold_directory(data_dir, symbol),
                    path: cold_file_path(data_dir, symbol, ts_start, ts_end),
                    bytes,
                },
            ),
        ),
        Err(e) => Err(e),
    }
}

/// Calls `sort_unstable_by_key`, which puts the candles in the order of their
/// timestamps; in what order those with the same timestamp come is left open.
#[verifier::external_body]
fn sort_by_ts(candles: &mut Vec<Candle>)
    ensures
        ring_buffer::ascending(final(candles)@),
        final(candles)@.to_multiset() == old(candles)@.to_multiset(),
{
    candles.sort_unstable_by_key(|c| c.ts)
}

/// The bytes of some files.
pub open spec fn bytes_of(files: Seq<Vec<u8>>) -> Seq<Seq<u8>> {
    files.map_values(|f: Vec<u8>| f@)
}

/// All of some files can be handed to a reader.
pub open spec fn can_all_be_tried(files: Seq<Vec<u8>>) -> bool {
    forall|i: int| 0 <= i < files.len() ==> columns::can_be_tried((#[trigger] files[i])@)
}

/// The candles between two bounds that were read from some files, in turn; nothing of
/// those that could not be read.
pub open spec fn gathered(readings: Seq<Option<Vec<Candle>>>, from_ts: i64, to_ts: i64) -> Seq<
    Candle,
>
    decreases readings.len(),
{
    if readings.len() == 0 {
        Seq::empty()
    } else {
        let before = gathered(readings.drop_last(), from_ts, to_ts);
        match readings.last() {
            Some(candles) => before + ring_buffer::within(candles@, from_ts, to_ts),
            None => before,
        }
    }
}

/// The candles between two bounds that were read from some files, in the order of their
/// timestamps. Whoever has read the files says of each what is in it, or that it could
/// not be read.
pub fn gather(readings: &Vec<Option<Vec<Candle>>>, from_ts: i64, to_ts: i64) -> (r: Vec<Candle>)
    ensures
        ring_buffer::ascending(r@),
        r@.to_multiset() == gathered(readings@, from_ts, to_ts).to_multiset(),
{
    let mut out: Vec<Candle> = Vec::new();
    let mut i: usize = 0;
    assert(readings@.take(0) =~= Seq::<Option<Vec<Candle>>>::empty());
    while i < readings.len()
        invariant
            i <= readings@.len(),
            out@ == gathered(readings@.take(i as int), from_ts, to_ts),
        decreases readings@.len() - i,
    {
        assert(readings@.take(i + 1).drop_last() =~= readings@.take(i as int));
        if let Some(candles) = &readings[i] {
            keep_within(&mut out, candles, from_ts, to_ts);
        }
        i = i + 1;
    }
    assert(readings@.take(i as int) =~= readings@);
    sort_by_ts(&mut out);
    out
}

/// The candles between two bounds in some files from which a reader comes back, in the
/// order of their timestamps. A file that cannot be used is passed over.
pub fn query_cold(files: &Vec<Vec<u8>>, from_ts: i64, to_ts: i64) -> (r: Vec<Candle>)
    requires
        can_all_be_tried(files@),
    ensures
        ring_buffer::ascending(r@),
        r@.to_multiset() == found_in(bytes_of(files@), from_ts, to_ts).to_multiset(),
{
    let ghost all = bytes_of(files@);
    let mut readings: Vec<Option<Vec<Candle>>> = Vec::new();
    let mut i: usize = 0;
    assert(all.take(0) =~= Seq::<Seq<u8>>::empty());
    while i < files.len()
        invariant
            i <= files@.len(),
            all == bytes_of(files@),
            can_all_be_tried(files@),
            gathered(readings@, from_ts, to_ts) == found_in(all.take(i as int), from_ts, to_ts),
        decreases files@.len() - i,
    {
        let ghost before = readings@;
        assert(all.take(i + 1).drop_last() =~= all.take(i as int));
        assert(all.take(i + 1).last() == files@[i as int]@);
        let reading = match read_file(&files[i]) {
            Ok(candles) => Some(candles),
            Err(_) => None,
        };
        readings.push(reading);
        assert(readings@.drop_last() =~= before);
        i = i + 1;
    }
    assert(all.take(i as int) =~= all);
    gather(&readings, from_ts, to_ts)
}

/// Some bytes are those of one of these files.
pub open spec fn is_among(bytes: Seq<u8>, spilled: Seq<SpillFile>) -> bool {
    exists|i: int| 0 <= i < spilled.len() && bytes == (#[trigger] spilled[i])@.bytes
}

/// The bytes have no mark of a Parquet file, or are those of one of these files.
pub open spec fn is_known(bytes: Seq<u8>, spilled: Seq<SpillFile>) -> bool {
    columns::is_marked(bytes) ==> is_among(bytes, spilled)
}

/// Whether it is known that a reader comes back from some bytes: they have no mark of a
/// Parquet file, or are those of one of these files.
pub fn is_known_file(bytes: &Vec<u8>, spilled: &Vec<SpillFile>) -> (r: bool)
    ensures
        r == is_known(bytes@, spilled@),
        r ==> columns::can_be_tried(bytes@),
{
    let n = bytes.len();
    if n < 8 || bytes[n - 4] != 0x50 || bytes[n - 3] != 0x41 || bytes[n - 2] != 0x52 || (
    bytes[n - 1] != 0x31 && bytes[n - 1] != 0x45) {
        return true;
    }
    let mut i: usize = 0;
    while i < spilled.len()
        invariant
            i <= spilled@.len(),
            forall|j: int| 0 <= j < i ==> bytes@ != (#[trigger] spilled@[j])@.bytes,
        decreases spilled@.len() - i,
    {
        let file = &spilled[i];
        proof {
            use_type_invariant(file);
        }
        if *bytes == file.bytes {
            assert(bytes@ == spilled@[i as int]@.bytes);
            return true;
        }
        i = i + 1;
    }
    false
}

/// The candles in a file of which it is known that a reader comes back from it.
pub fn read_known(bytes: &Vec<u8>, spilled: &Vec<SpillFile>) -> (r: Option<
    Result<Vec<Candle>, SpillError>,
>)
    ensures
        r is Some <==> is_known(bytes@, spilled@),
        r matches Some(read) ==> match contents(bytes@) {
            Contents::Candles(candles) => read matches Ok(found) && found@ == candles,
            Contents::Missing(name) => read matches Err(SpillError::MissingColumn { name: s })
                && s@ == name,
            Contents::Newer(version) => read matches Err(
                SpillError::IncompatibleVersion { found, supported },
            ) && found == version && supported == SCHEMA_VERSION,
            Contents::Unreadable => read matches Err(e) && (e is Arrow || e is Parquet),
        },
{
    if is_known_file(bytes, spilled) {
        Some(read_file(bytes))
    } else {
        None
    }
}

/// The candles between two bounds in some files, in the order of their timestamps, if
/// it is known of all of them that a reader comes back from them.
pub fn query_known(
    files: &Vec<Vec<u8>>,
    spilled: &Vec<SpillFile>,
    from_ts: i64,
    to_ts: i64,
) -> (r: Option<Vec<Candle>>)
    ensures
        r is Some <==> forall|i: int|
            0 <= i < files@.len() ==> is_known((#[trigger] files@[i])@, spilled@),
        r matches Some(found) ==> ring_buffer::ascending(found@) && found@.to_multiset()
            == found_in(bytes_of(files@), from_ts, to_ts).to_multiset(),
{
    let mut i: usize = 0;
    while i < files.len()
        invariant
            i <= files@.len(),
            forall|j: int|
                0 <= j < i ==> is_known((#[trigger] files@[j])@, spilled@)
                    && columns::can_be_tried(files@[j]@),
        decreases files@.len() - i,
    {
        if !is_known_file(&files[i], spilled) {
            return None;
        }
        i = i + 1;
    }
    Some(query_cold(files, from_ts, to_ts))
}

/// Put the candles between two bounds at the end of others.
fn keep_within(out: &mut Vec<Candle>, candles: &Vec<Candle>, from_ts: i64, to_ts: i64)
    ensures
        final(out)@ == old(out)@ + ring_buffer::within(candles@, from_ts, to_ts),
{
    let ghost start = out@;
    let mut i: usize = 0;
    reveal(Seq::filter);
    assert(candles@.take(0) =~= Seq::<Candle>::empty());
    assert(start + ring_buffer::within(candles@.take(0), from_ts, to_ts) =~= start);
    while i < candles.len()
        invariant
            i <= candles@.len(),
            out@ == start + ring_buffer::within(candles@.take(i as int), from_ts, to_ts),
        decreases candles@.len() - i,
    {
        let c = candles[i];
        assert(candles@.take(i + 1).drop_last() =~= candles@.take(i as int));
        let ghost before = ring_buffer::within(candles@.take(i as int), from_ts, to_ts);
        reveal(Seq::filter);
        if c.ts >= from_ts && c.ts <= to_ts {
            out.push(c);
            assert(out@ =~= start + before.push(c));
        }
        i = i + 1;
    }
    assert(candles@.take(i as int) =~= candles@);
}

/// The columns of some tables one below the other hold the candles of the tables in
/// turn.
proof fn lemma_rows_below(tables: Seq<TableView>)
    requires
        forall|i: int|
            0 <= i < tables.len() ==> missing(#[trigger] tables[i]) is None && columns::aligned(
                tables[i],
            ),
    ensures
        ({
            let n = columns::ints_below(tables, "ts"@).len();
            &&& columns::numbers_below(tables, "open"@).len() == n
            &&& columns::numbers_below(tables, "high"@).len() == n
            &&& columns::numbers_below(tables, "low"@).len() == n
            &&& columns::numbers_below(tables, "close"@).len() == n
            &&& columns::numbers_below(tables, "volume"@).len() == n
            &&& candles_in(tables) == Contents::Candles(
                Seq::new(
                    n,
                    |i: int|
                        Candle {
                            ts: columns::ints_below(tables, "ts"@)[i],
                            open: Binary64 { bits: columns::numbers_below(tables, "open"@)[i] },
                            high: Binary64 { bits: columns::numbers_below(tables, "high"@)[i] },
                            low: Binary64 { bits: columns::numbers_below(tables, "low"@)[i] },
                            close: Binary64 { bits: columns::numbers_below(tables, "close"@)[i] },
                            volume: Binary64 {
                                bits: columns::numbers_below(tables, "volume"@)[i],
                            },
                        },
                ),
            )
        }),
    decreases tables.len(),
{
    let all = |ts: Seq<TableView>|
        Seq::new(
            columns::ints_below(ts, "ts"@).len(),
            |i: int|
                Candle {
                    ts: columns::ints_below(ts, "ts"@)[i],
                    open: Binary64 { bits: columns::numbers_below(ts, "open"@)[i] },
                    high: Binary64 { bits: columns::numbers_below(ts, "high"@)[i] },
                    low: Binary64 { bits: columns::numbers_below(ts, "low"@)[i] },
                    close: Binary64 { bits: columns::numbers_below(ts, "close"@)[i] },
                    volume: Binary64 { bits: columns::numbers_below(ts, "volume"@)[i] },
                },
        );
    if tables.len() == 0 {
        assert(all(tables) =~= Seq::<Candle>::empty());
    } else {
        let front = tables.drop_last();
        assert forall|i: int| 0 <= i < front.len() implies missing(#[trigger] front[i]) is None
            && columns::aligned(front[i]) by {
            assert(front[i] == tables[i]);
        }
        lemma_rows_below(front);
        let last = tables[tables.len() - 1];
        let n = last.ints["ts"@].len();
        assert(last.numbers["open"@].len() == n);
        assert(last.numbers["high"@].len() == n);
        assert(last.numbers["low"@].len() == n);
        assert(last.numbers["close"@].len() == n);
        assert(last.numbers["volume"@].len() == n);
        assert(all(tables) =~= all(front) + rows(last));
    }
}

/// What was written to a file is read back from it, candle for candle and bit for
/// bit.
pub proof fn lemma_written_is_read_back(bytes: Seq<u8>, candles: Seq<Candle>)
    requires
        holds(bytes, candles),
    ensures
        contents(bytes) == Contents::Candles(candles),
{
    lemma_names();
    text::lemma_number_of_text(SCHEMA_VERSION as int, 0, u32::MAX as int);
    let tables = columns::file_tables(bytes)->Some_0;
    let t = candle_table(candles);
    assert forall|i: int| 0 <= i < tables.len() implies missing(#[trigger] tables[i]) is None
        && columns::aligned(tables[i]) by {
        assert(tables[i].ints.dom() == t.ints.dom());
        assert(t.ints.contains_key("ts"@));
        assert(tables[i].ints.dom().contains("ts"@));
        assert(t.numbers.contains_key("open"@) && t.numbers.contains_key("high"@)
            && t.numbers.contains_key("low"@) && t.numbers.contains_key("close"@)
            && t.numbers.contains_key("volume"@));
        assert(tables[i].numbers.dom().contains("open"@));
        assert(tables[i].numbers.dom().contains("high"@));
        assert(tables[i].numbers.dom().contains("low"@));
        assert(tables[i].numbers.dom().contains("close"@));
        assert(tables[i].numbers.dom().contains("volume"@));
    }
    lemma_rows_below(tables);
    assert(t.ints.contains_key("ts"@));
    assert(t.numbers.contains_key("open"@) && t.numbers.contains_key("high"@)
        && t.numbers.contains_key("low"@) && t.numbers.contains_key("close"@)
        && t.numbers.contains_key("volume"@));
    assert(candles_in(tables)->Candles_0 =~= candles);
}

/// A query finds what was spilled: of a file of some candles, exactly those between
/// the bounds.
pub proof fn lemma_spilled_is_found(
    bytes: Seq<u8>,
    candles: Seq<Candle>,
    from_ts: i64,
    to_ts: i64,
)
    requires
        holds(bytes, candles),
    ensures
        found_in(seq![bytes], from_ts, to_ts) == ring_buffer::within(candles, from_ts, to_ts),
{
    lemma_written_is_read_back(bytes, candles);
    reveal_with_fuel(found_in, 2);
    assert(seq![bytes].drop_last() =~= Seq::<Seq<u8>>::empty());
    assert(found_in(seq![bytes], from_ts, to_ts) =~= ring_buffer::within(
        candles,
        from_ts,
        to_ts,
    ));
}

/// A query finds every candle between its bounds of every file that it looks at,
/// and it looks at the file of a spill that holds one, as long as the candles were
/// spilled in order.
pub proof fn lemma_no_spilled_candle_is_missed(
    files: Seq<Seq<u8>>,
    k: int,
    candles: Seq<Candle>,
    c: Candle,
    from_ts: i64,
    to_ts: i64,
)
    requires
        0 <= k < files.len(),
        holds(files[k], candles),
        candles.contains(c),
        from_ts <= c.ts <= to_ts,
    ensures
        found_in(files, from_ts, to_ts).contains(c),
        ring_buffer::ascending(candles) ==> names::is_wanted(
            names::file_name(candles[0].ts, candles.last().ts),
            from_ts,
            to_ts,
        ),
    decreases files.len(),
{
    let i = choose|i: int| 0 <= i < candles.len() && candles[i] == c;
    names::lemma_file_name_read_back(candles[0].ts, candles.last().ts, from_ts, to_ts);
    if ring_buffer::ascending(candles) {
        assert(candles[0].ts <= candles[i].ts <= candles[candles.len() - 1].ts);
    }
    let front = files.drop_last();
    let before = found_in(front, from_ts, to_ts);
    let all = found_in(files, from_ts, to_ts);
    if k < front.len() {
        lemma_no_spilled_candle_is_missed(front, k, candles, c, from_ts, to_ts);
        let j = choose|j: int| 0 <= j < before.len() && before[j] == c;
        assert(all[j] == c);
    } else {
        lemma_written_is_read_back(files[k], candles);
        let kept = ring_buffer::within(candles, from_ts, to_ts);
        broadcast use vstd::seq_lib::group_filter_ensures;
        let keep = |x: Candle| from_ts <= x.ts <= to_ts;
        assert(keep(candles[i]));
        assert(kept.contains(c));
        let j = choose|j: int| 0 <= j < kept.len() && kept[j] == c;
        assert(all[before.len() + j] == c);
    }
}

/// Each column of the table of some candles is of the field that it is named after.
pub proof fn lemma_columns_are_named_after_fields(candles: Seq<Candle>, i: int)
    requires
        0 <= i < candles.len(),
    ensures
        ({
            let t = candle_table(candles);
            let c = candles[i];
            &&& t.ints.contains_key("ts"@) && t.ints["ts"@].len() == candles.len()
            &&& t.ints["ts"@][i] == c.ts
            &&& t.numbers["open"@][i] == c.open.bits
            &&& t.numbers["high"@][i] == c.high.bits
            &&& t.numbers["low"@][i] == c.low.bits
            &&& t.numbers["close"@][i] == c.close.bits
            &&& t.numbers["volume"@][i] == c.volume.bits
        }),
{
    lemma_names();
}

/// Each field of a candle is read from the column of its name.
pub proof fn lemma_fields_are_read_from_their_columns(t: TableView, i: int)
    requires
        0 <= i < t.ints["ts"@].len(),
    ensures
        rows(t).len() == t.ints["ts"@].len(),
        rows(t)[i].ts == t.ints["ts"@][i],
        rows(t)[i].open.bits == t.numbers["open"@][i],
        rows(t)[i].high.bits == t.numbers["high"@][i],
        rows(t)[i].low.bits == t.numbers["low"@][i],
        rows(t)[i].close.bits == t.numbers["close"@][i],
        rows(t)[i].volume.bits == t.numbers["volume"@][i],
{
}

/// A table lacks nothing just where it has a column for each field. Otherwise the first
/// one that it lacks is named, and one that it lacks.
pub proof fn lemma_what_is_missing(t: TableView)
    ensures
        missing(t) is None <==> t.ints.contains_key("ts"@) && t.numbers.contains_key("open"@)
            && t.numbers.contains_key("high"@) && t.numbers.contains_key("low"@)
            && t.numbers.contains_key("close"@) && t.numbers.contains_key("volume"@),
        missing(t) == Some("ts"@) <==> !t.ints.contains_key("ts"@),
        missing(t) matches Some(name) ==> name == "ts"@ || !t.numbers.contains_key(name),
{
    lemma_names();
}

/// A file of a later version is refused, and only such a one: a file without a version,
/// or with one that is no number, is an old one.
pub proof fn lemma_later_versions_are_refused(bytes: Seq<u8>, n: u32)
    requires
        columns::file_metadata(bytes, version_key()) is Some,
    ensures
        ({
            let note = columns::file_metadata(bytes, version_key())->Some_0;
            &&& note is None ==> !(contents(bytes) is Newer)
            &&& note == Some(text::digits(n as nat)) && n <= 1 ==> !(contents(bytes) is Newer)
            &&& note == Some(text::digits(n as nat)) && n > 1 ==> contents(bytes)
                == Contents::Newer(n)
            &&& (note matches Some(s) && text::number(s, false, 0, u32::MAX as int) is None)
                ==> !(contents(bytes) is Newer)
        }),
{
    text::lemma_number_of_text(n as int, 0, u32::MAX as int);
    if columns::file_tables(bytes) is Some {
        lemma_tables_are_of_no_version(columns::file_tables(bytes)->Some_0);
    }
}

proof fn lemma_tables_are_of_no_version(tables: Seq<TableView>)
    ensures
        !(candles_in(tables) is Newer),
    decreases tables.len(),
{
    if tables.len() > 0 {
        lemma_tables_are_of_no_version(tables.drop_last());
    }
}

/// The candles of the tables of a file come in the order of the tables.
pub proof fn lemma_tables_in_turn(a: Seq<TableView>, b: Seq<TableView>)
    requires
        candles_in(a) is Candles,
        candles_in(b) is Candles,
    ensures
        candles_in(a + b) == Contents::Candles(
            candles_in(a)->Candles_0 + candles_in(b)->Candles_0,
        ),
    decreases b.len(),
{
    if b.len() == 0 {
        assert(a + b =~= a);
        assert(candles_in(a)->Candles_0 + Seq::<Candle>::empty() =~= candles_in(a)->Candles_0);
    } else {
        lemma_tables_in_turn(a, b.drop_last());
        assert((a + b).drop_last() =~= a + b.drop_last());
        assert((a + b).last() == b.last());
        let x = candles_in(a)->Candles_0;
        let y = candles_in(b.drop_last())->Candles_0;
        assert(x + y + rows(b.last()) =~= x + (y + rows(b.last())));
    }
}

/// A query finds what each file has, file by file: nothing of one that cannot be used,
/// and of any other the candles between the bounds.
pub proof fn lemma_files_in_turn(
    a: Seq<Seq<u8>>,
    b: Seq<Seq<u8>>,
    file: Seq<u8>,
    from_ts: i64,
    to_ts: i64,
)
    ensures
        found_in(a + b, from_ts, to_ts) == found_in(a, from_ts, to_ts) + found_in(
            b,
            from_ts,
            to_ts,
        ),
        match contents(file) {
            Contents::Candles(candles) => found_in(seq![file], from_ts, to_ts)
                == ring_buffer::within(candles, from_ts, to_ts),
            _ => found_in(seq![file], from_ts, to_ts).len() == 0,
        },
    decreases b.len(),
{
    reveal_with_fuel(found_in, 2);
    assert(seq![file].drop_last() =~= Seq::<Seq<u8>>::empty());
    if contents(file) is Candles {
        assert(found_in(seq![file], from_ts, to_ts) =~= ring_buffer::within(
            contents(file)->Candles_0,
            from_ts,
            to_ts,
        ));
    }
    if b.len() == 0 {
        assert(a + b =~= a);
        assert(found_in(a, from_ts, to_ts) + Seq::<Candle>::empty() =~= found_in(
            a,
            from_ts,
            to_ts,
        ));
    } else {
        lemma_files_in_turn(a, b.drop_last(), file, from_ts, to_ts);
        assert((a + b).drop_last() =~= a + b.drop_last());
        assert((a + b).last() == b.last());
        assert(found_in(a + b, from_ts, to_ts) =~= found_in(a, from_ts, to_ts) + found_in(
            b,
            from_ts,
            to_ts,
        ));
    }
}

/// What was read from some files is gathered file by file.
pub proof fn lemma_readings_in_turn(
    a: Seq<Option<Vec<Candle>>>,
    b: Seq<Option<Vec<Candle>>>,
    reading: Option<Vec<Candle>>,
    from_ts: i64,
    to_ts: i64,
)
    ensures
        gathered(a + b, from_ts, to_ts) == gathered(a, from_ts, to_ts) + gathered(
            b,
            from_ts,
            to_ts,
        ),
        match reading {
            Some(candles) => gathered(seq![reading], from_ts, to_ts) == ring_buffer::within(
                candles@,
                from_ts,
                to_ts,
            ),
            None => gathered(seq![reading], from_ts, to_ts).len() == 0,
        },
    decreases b.len(),
{
    reveal_with_fuel(gathered, 2);
    assert(seq![reading].drop_last() =~= Seq::<Option<Vec<Candle>>>::empty());
    if let Some(candles) = reading {
        assert(gathered(seq![reading], from_ts, to_ts) =~= ring_buffer::within(
            candles@,
            from_ts,
            to_ts,
        ));
    }
    if b.len() == 0 {
        assert(a + b =~= a);
        assert(gathered(a, from_ts, to_ts) + Seq::<Candle>::empty() =~= gathered(
            a,
            from_ts,
            to_ts,
        ));
    } else {
        lemma_readings_in_turn(a, b.drop_last(), reading, from_ts, to_ts);
        assert((a + b).drop_last() =~= a + b.drop_last());
        assert((a + b).last() == b.last());
        assert(gathered(a + b, from_ts, to_ts) =~= gathered(a, from_ts, to_ts) + gathered(
            b,
            from_ts,
            to_ts,
        ));
    }
}

/// A file with a table that lacks a column gives no candles at all, but the name of the
/// first column that is missing in the first such table; a file whose tables lack nothing
/// gives the candles of all of them.
pub proof fn lemma_a_lacking_table_spoils_the_file(tables: Seq<TableView>, i: int)
    requires
        0 <= i <= tables.len(),
        forall|j: int| 0 <= j < i ==> missing(#[trigger] tables[j]) is None,
    ensures
        candles_in(tables.take(i)) is Candles,
        i < tables.len() && missing(tables[i]) is Some ==> candles_in(tables) == Contents::Missing(
            missing(tables[i])->Some_0,
        ),
    decreases i,
{
    if i > 0 {
        lemma_a_lacking_table_spoils_the_file(tables, i - 1);
        assert(tables.take(i).drop_last() =~= tables.take(i - 1));
        assert(tables.take(i).last() == tables[i - 1]);
    }
    if i < tables.len() && missing(tables[i]) is Some {
        lemma_first_failure_counts(tables, i);
    }
}

} // verus!
