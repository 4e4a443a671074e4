use candlestore::cold::file::{
    check_schema_compat, encode, gather, is_known_file, query_cold, query_known, read_file, read_known, spill,
    SpillFile,
};
use candlestore::cold::names::{
    cold_directory, cold_file_path, escape_symbol, parse_ts_range, wants_file,
};
use candlestore::{AppendError, Binary64, Candle, CandleStore, SpillError};
use std::sync::Arc;

fn d(x: f64) -> Binary64 {
    Binary64::from_bits(x.to_bits())
}

fn f(x: Binary64) -> f64 {
    f64::from_bits(x.to_bits())
}

fn candle(ts: i64, close: f64) -> Candle {
    Candle {
        ts,
        open: d(close),
        high: d(close + 1.0),
        low: d(close - 1.0),
        close: d(close),
        volume: d(100.0),
    }
}

fn same(a: &Candle, b: &Candle) -> bool {
    a.ts == b.ts
        && a.open.to_bits() == b.open.to_bits()
        && a.high.to_bits() == b.high.to_bits()
        && a.low.to_bits() == b.low.to_bits()
        && a.close.to_bits() == b.close.to_bits()
        && a.volume.to_bits() == b.volume.to_bits()
}

/// Files that are kept in memory.
struct Disk {
    files: Vec<SpillFile>,
    writable: bool,
}

impl Disk {
    fn new() -> Disk {
        Disk { files: Vec::new(), writable: true }
    }

    fn spill(&mut self, dir: &str, symbol: &str, candles: &Vec<Candle>) -> Result<(), SpillError> {
        if !self.writable {
            return Err(SpillError::Io("Not a directory".to_string()));
        }
        if let Some(file) = spill(dir, symbol, candles)? {
            self.files.push(file);
        }
        Ok(())
    }

    fn query(&self, dir: &str, symbol: &str, from: i64, to: i64) -> Vec<Candle> {
        let directory = cold_directory(dir, symbol);
        let mut found = Vec::new();
        for file in &self.files {
            let path = file.path();
            let name = &path[path.rfind('/').unwrap() + 1..];
            if *file.directory() == directory && wants_file(name, from, to) {
                found.push(file.bytes().clone());
            }
        }
        query_known(&found, &self.files, from, to).unwrap()
    }

    fn try_append(
        &mut self,
        store: &mut CandleStore,
        symbol: &str,
        candle: Candle,
    ) -> Result<(), AppendError> {
        let outcome = match store.spill_request(symbol, &candle) {
            Some(r) => self.spill(&r.data_dir, &r.symbol, &r.candles),
            None => Ok(()),
        };
        store.try_append(symbol, candle, outcome)
    }

    fn append(&mut self, store: &mut CandleStore, symbol: &str, candle: Candle) {
        let outcome = match store.spill_request(symbol, &candle) {
            Some(r) => self.spill(&r.data_dir, &r.symbol, &r.candles),
            None => Ok(()),
        };
        store.append(symbol, candle, outcome)
    }

    fn range(&self, store: &CandleStore, symbol: &str, from: i64, to: i64) -> Vec<Candle> {
        store.range(symbol, from, to, self.query("data", symbol, from, to))
    }
}

fn tick(ts: i64) -> Candle {
    Candle { ts, open: d(1.0), high: d(2.0), low: d(0.5), close: d(1.5), volume: d(100.0) }
}

#[test]
fn round_trip_write_read() {
    let mut disk = Disk::new();
    let candles: Vec<_> = (0..10).map(|i| candle(i * 60_000, 50_000.0 + i as f64)).collect();

    disk.spill("data", "BTC/USDT:1m", &candles).unwrap();

    let path = cold_file_path("data", "BTC/USDT:1m", 0, 9 * 60_000);
    let file = disk.files.iter().find(|x| *x.path() == path).unwrap();
    let loaded = read_file(file.bytes()).unwrap();

    assert_eq!(loaded.len(), 10);
    assert_eq!(loaded[0].ts, candles[0].ts);
    assert_eq!(f(loaded[9].close), f(candles[9].close));
    for i in 0..10 {
        assert!(same(&loaded[i], &candles[i]));
    }
}

#[test]
fn query_cold_filters_by_time_range() {
    let mut disk = Disk::new();
    let candles: Vec<_> = (0..20).map(|i| candle(i * 60_000, 100.0)).collect();
    disk.spill("data", "ETH/USDT:1m", &candles).unwrap();

    let result = disk.query("data", "ETH/USDT:1m", 5 * 60_000, 9 * 60_000);
    assert_eq!(result.len(), 5);
    assert_eq!(result[0].ts, 5 * 60_000);
    assert_eq!(result[4].ts, 9 * 60_000);
}

#[test]
fn query_cold_skips_non_overlapping_files() {
    let mut disk = Disk::new();
    let early: Vec<_> = (0..5).map(|i| candle(i * 60_000, 100.0)).collect();
    let late: Vec<_> = (100..105).map(|i| candle(i * 60_000, 200.0)).collect();
    disk.spill("data", "SOL/USDT:1m", &early).unwrap();
    disk.spill("data", "SOL/USDT:1m", &late).unwrap();

    let result = disk.query("data", "SOL/USDT:1m", 100 * 60_000, 104 * 60_000);
    assert_eq!(result.len(), 5);
    assert!(result.iter().all(|c| f(c.close) == 200.0));
}

#[test]
fn escape_symbol_is_filesystem_safe() {
    assert_eq!(escape_symbol("BTC/USDT:1m"), "BTC_USDT_1m");
    assert_eq!(escape_symbol("ETH-USD"), "ETH-USD");
}

#[test]
fn evict_spills_to_parquet_and_range_merges() {
    let mut disk = Disk::new();
    let mut store = CandleStore::new(1).with_data_dir("data");
    for i in 0..5i64 {
        disk.append(&mut store, "BTC/USDT:1m", tick(i * 60_000));
    }
    disk.append(&mut store, "ETH/USDT:1m", tick(999_999));

    let cold = disk.range(&store, "BTC/USDT:1m", 0, 4 * 60_000);
    assert_eq!(cold.len(), 5, "cold data should be recovered from parquet");
}

#[test]
fn range_merges_hot_and_cold() {
    let mut disk = Disk::new();
    let mut store = CandleStore::new(1).with_data_dir("data");
    for i in 0..5i64 {
        disk.append(&mut store, "BTC/USDT:1m", tick(i));
    }
    disk.append(&mut store, "ETH/USDT:1m", tick(0));
    for i in 5..10i64 {
        disk.append(&mut store, "BTC/USDT:1m", tick(i));
    }
    let result = disk.range(&store, "BTC/USDT:1m", 0, 9);
    assert_eq!(result.len(), 10);
    assert_eq!(result[0].ts, 0);
    assert_eq!(result[9].ts, 9);
}

#[test]
fn try_append_returns_err_when_spill_fails_and_preserves_existing_data() {
    let mut disk = Disk::new();
    disk.writable = false;
    let mut store = CandleStore::new(1).with_data_dir("data");
    for i in 0..3i64 {
        assert!(disk.try_append(&mut store, "BTC", tick(i)).is_ok());
    }
    assert_eq!(store.candle_count("BTC"), 3);

    let err = disk.try_append(&mut store, "ETH", tick(999)).expect_err("must fail");
    match err {
        AppendError::EvictionSpillFailed { evicted_symbol, candles_lost, source } => {
            assert_eq!(evicted_symbol, "BTC");
            assert_eq!(candles_lost, 3);
            assert!(matches!(source, SpillError::Io(_)));
        }
        AppendError::InvalidCandle { .. } => panic!("candle was valid; expected spill failure"),
    }
    assert_eq!(store.candle_count("BTC"), 3, "BTC must be preserved");
    assert_eq!(store.candle_count("ETH"), 0, "ETH must NOT have been admitted");
    assert_eq!(store.symbol_count(), 1);

    let snap = store.snapshot();
    assert!(snap.parquet_spill_errors_total >= 1);
    assert_eq!(snap.appends_rejected_total, 0);
}

#[test]
fn append_logs_and_increments_rejected_on_spill_failure() {
    let mut disk = Disk::new();
    disk.writable = false;
    let mut store = CandleStore::new(1).with_data_dir("data");
    disk.append(&mut store, "BTC", tick(1));
    disk.append(&mut store, "BTC", tick(2));
    disk.append(&mut store, "ETH", tick(3));

    assert_eq!(store.candle_count("BTC"), 2);
    assert_eq!(store.candle_count("ETH"), 0);

    let snap = store.snapshot();
    assert_eq!(snap.appends_rejected_total, 1);
    assert!(snap.parquet_spill_errors_total >= 1);
}

#[test]
fn try_append_succeeds_when_spill_succeeds() {
    let mut disk = Disk::new();
    let mut store = CandleStore::new(1).with_data_dir("data");
    for i in 0..3i64 {
        assert!(disk.try_append(&mut store, "BTC", tick(i * 1_000_000_000)).is_ok());
    }
    assert!(disk.try_append(&mut store, "ETH", tick(999_999)).is_ok());

    assert_eq!(store.candle_count("BTC"), 0);
    assert_eq!(store.candle_count("ETH"), 1);

    let snap = store.snapshot();
    assert_eq!(snap.evictions_total, 1);
    assert_eq!(snap.parquet_spill_errors_total, 0);
    assert_eq!(snap.appends_rejected_total, 0);
    assert!(snap.parquet_spill_bytes_total > 0);
    assert_eq!(snap.parquet_spill_bytes_total, 3 * 48);

    let cold = disk.range(&store, "BTC", 0, 3 * 1_000_000_000);
    assert_eq!(cold.len(), 3);
}

#[test]
fn special_numbers_survive_a_file() {
    let mut odd = candle(-5, 0.0);
    odd.open = d(f64::NAN);
    odd.high = d(f64::INFINITY);
    odd.low = d(-0.0);
    odd.close = d(f64::MIN_POSITIVE / 4.0);
    odd.volume = Binary64::from_bits(0x7ff0_0000_0000_0001);
    let candles = vec![odd];
    let loaded = read_file(&encode(&candles).unwrap()).unwrap();
    assert_eq!(loaded.len(), 1);
    assert!(same(&loaded[0], &candles[0]));
}

#[test]
fn many_candles_survive_a_file() {
    let candles: Vec<_> = (0..5_000).map(|i| candle(i, i as f64 * 0.1)).collect();
    let loaded = read_file(&encode(&candles).unwrap()).unwrap();
    assert_eq!(loaded.len(), candles.len());
    assert!(loaded.iter().zip(candles.iter()).all(|(a, b)| same(a, b)));
}

#[test]
fn nothing_is_spilled_of_nothing() {
    assert!(spill("data", "BTC", &vec![]).unwrap().is_none());
}

#[test]
fn spilled_file_is_named_by_its_range() {
    let file = spill("data", "BTC/USDT:1m", &vec![candle(-3, 1.0), candle(12, 2.0)]).unwrap().unwrap();
    assert_eq!(file.directory(), "data/BTC_USDT_1m");
    assert_eq!(file.path(), "data/BTC_USDT_1m/-3_12.parquet");
    assert_eq!(cold_directory("data", "BTC/USDT:1m"), "data/BTC_USDT_1m");
    assert_eq!(cold_file_path("d", "A", 5, 7), "d/A/5_7.parquet");
}

#[test]
fn names_are_read_back() {
    assert_eq!(parse_ts_range("-3_12.parquet"), Some((-3, 12)));
    assert_eq!(
        parse_ts_range("-9223372036854775808_9223372036854775807.parquet"),
        Some((i64::MIN, i64::MAX))
    );
    assert_eq!(parse_ts_range("3.parquet"), None);
    assert_eq!(parse_ts_range("a_b.parquet"), None);
    assert!(wants_file("10_20.parquet", 20, 30));
    assert!(wants_file("10_20.parquet", 0, 10));
    assert!(!wants_file("10_20.parquet", 21, 30));
    assert!(!wants_file("10_20.parquet", 0, 9));
}

#[test]
fn letters_beyond_ascii_are_kept_in_names() {
    assert_eq!(escape_symbol("\u{e9}t\u{e9}\u{2460}\u{20ac}!"), "\u{e9}t\u{e9}\u{2460}__");
}

#[test]
fn cold_answers_are_sorted() {
    let a = encode(&vec![candle(9, 1.0), candle(3, 1.0)]).unwrap();
    let b = encode(&vec![candle(5, 1.0), candle(1, 1.0)]).unwrap();
    let found = query_cold(&vec![a, b], 2, 9);
    assert_eq!(found.iter().map(|c| c.ts).collect::<Vec<_>>(), vec![3, 5, 9]);
}

#[test]
fn readings_are_gathered_in_order() {
    let readings = vec![Some(vec![candle(7, 1.0), candle(9, 1.0)]), None, Some(vec![candle(2, 1.0)])];
    let found = gather(&readings, 2, 8);
    assert_eq!(found.iter().map(|c| c.ts).collect::<Vec<_>>(), vec![2, 7]);
    assert!(gather(&vec![None], 0, 9).is_empty());
}

#[test]
fn unreadable_files_are_passed_over() {
    let good = encode(&vec![candle(5, 1.0)]).unwrap();
    let found = query_cold(&vec![vec![1, 2, 3], good], 0, 9);
    assert_eq!(found.len(), 1);
    assert!(matches!(read_file(&vec![1, 2, 3]), Err(SpillError::Parquet(_))));
    assert!(matches!(read_file(&vec![]), Err(SpillError::Parquet(_))));
}

#[test]
fn later_versions_are_refused() {
    assert_eq!(candlestore::PARQUET_SCHEMA_VERSION, 1);
    assert!(check_schema_compat(&None).is_ok());
    assert!(check_schema_compat(&Some("0".to_string())).is_ok());
    assert!(check_schema_compat(&Some("1".to_string())).is_ok());
    assert!(check_schema_compat(&Some("x".to_string())).is_ok());
    match check_schema_compat(&Some("2".to_string())) {
        Err(SpillError::IncompatibleVersion { found, supported }) => {
            assert_eq!((found, supported), (2, 1));
        }
        other => panic!("expected IncompatibleVersion, got {other:?}"),
    }
}

/// A file with the given columns and version, made by hand.
fn foreign_file(columns: Vec<(&str, arrow::array::ArrayRef)>, version: Option<&str>) -> Vec<u8> {
    let mut metadata = std::collections::HashMap::new();
    if let Some(v) = version {
        metadata.insert("candlestore.schema_version".to_string(), v.to_string());
    }
    let fields: Vec<arrow::datatypes::Field> = columns
        .iter()
        .map(|(name, a)| arrow::datatypes::Field::new(*name, a.data_type().clone(), false))
        .collect();
    let schema = Arc::new(arrow::datatypes::Schema::new_with_metadata(fields, metadata));
    let arrays = columns.into_iter().map(|c| c.1).collect();
    let batch = arrow::record_batch::RecordBatch::try_new(schema.clone(), arrays).unwrap();
    let mut bytes = Vec::new();
    let mut writer = parquet::arrow::ArrowWriter::try_new(&mut bytes, schema, None).unwrap();
    writer.write(&batch).unwrap();
    writer.close().unwrap();
    bytes
}

fn ints(v: Vec<i64>) -> arrow::array::ArrayRef {
    Arc::new(arrow::array::Int64Array::from(v))
}

fn numbers(v: Vec<f64>) -> arrow::array::ArrayRef {
    Arc::new(arrow::array::Float64Array::from(v))
}

#[test]
fn columns_are_found_by_name_in_unversioned_files() {
    let bytes = foreign_file(
        vec![
            ("volume", numbers(vec![6.0])),
            ("extra", numbers(vec![9.0])),
            ("close", numbers(vec![5.0])),
            ("low", numbers(vec![4.0])),
            ("high", numbers(vec![3.0])),
            ("open", numbers(vec![2.0])),
            ("ts", ints(vec![1])),
        ],
        None,
    );
    let loaded = read_file(&bytes).unwrap();
    assert_eq!(loaded.len(), 1);
    let c = &loaded[0];
    assert_eq!(
        (c.ts, f(c.open), f(c.high), f(c.low), f(c.close), f(c.volume)),
        (1, 2.0, 3.0, 4.0, 5.0, 6.0)
    );
}

#[test]
fn missing_columns_are_named() {
    let bytes = foreign_file(vec![("ts", ints(vec![1])), ("open", ints(vec![1]))], None);
    match read_file(&bytes) {
        Err(SpillError::MissingColumn { name }) => assert_eq!(name, "open"),
        other => panic!("expected MissingColumn, got {other:?}"),
    }
    let bytes = foreign_file(vec![("open", numbers(vec![1.0]))], None);
    match read_file(&bytes) {
        Err(SpillError::MissingColumn { name }) => assert_eq!(name, "ts"),
        other => panic!("expected MissingColumn, got {other:?}"),
    }
}

#[test]
fn files_of_a_later_version_are_not_read() {
    let bytes = foreign_file(vec![("ts", ints(vec![1]))], Some("7"));
    match read_file(&bytes) {
        Err(SpillError::IncompatibleVersion { found, supported }) => {
            assert_eq!((found, supported), (7, 1));
        }
        other => panic!("expected IncompatibleVersion, got {other:?}"),
    }
}

#[test]
fn files_that_were_cut_off_are_errors() {
    let candles: Vec<Candle> = (0..3).map(|i| candle(i * 10, 2.0)).collect();
    let bytes = encode(&candles).unwrap();
    for cut in 0..bytes.len() {
        let part = bytes[..cut].to_vec();
        assert!(is_known_file(&part, &vec![]));
        assert!(matches!(read_file(&part), Err(SpillError::Parquet(_))));
    }
}

#[test]
fn columns_that_are_not_asked_for_do_not_matter() {
    let bytes = foreign_file(
        vec![
            ("note", Arc::new(arrow::array::StringArray::from(vec!["x", "y"]))),
            ("ts", ints(vec![1, 2])),
            ("open", numbers(vec![1.0, 1.5])),
            ("high", numbers(vec![2.0, 2.5])),
            ("low", numbers(vec![0.5, 0.25])),
            ("close", numbers(vec![1.25, 1.75])),
            ("volume", numbers(vec![10.0, 20.0])),
        ],
        None,
    );
    let found = read_file(&bytes).unwrap();
    assert_eq!(found.iter().map(|c| c.ts).collect::<Vec<_>>(), vec![1, 2]);
    assert_eq!(f(found[1].close), 1.75);
}

#[test]
fn columns_of_another_type_are_missing() {
    let bytes = foreign_file(
        vec![
            ("ts", numbers(vec![1.0])),
            ("open", numbers(vec![1.0])),
            ("high", numbers(vec![2.0])),
            ("low", numbers(vec![0.5])),
            ("close", numbers(vec![1.25])),
            ("volume", numbers(vec![10.0])),
        ],
        None,
    );
    assert!(matches!(read_file(&bytes), Err(SpillError::MissingColumn { name }) if name == "ts"));
}

/// A file of two candles with the given settings of its writer.
fn written_with(nullable: bool, properties: parquet::file::properties::WriterProperties) -> Vec<u8> {
    let field = |name: &str, kind: arrow::datatypes::DataType| {
        arrow::datatypes::Field::new(name, kind, nullable)
    };
    let double = arrow::datatypes::DataType::Float64;
    let schema = Arc::new(arrow::datatypes::Schema::new(vec![
        field("ts", arrow::datatypes::DataType::Int64),
        field("open", double.clone()),
        field("high", double.clone()),
        field("low", double.clone()),
        field("close", double.clone()),
        field("volume", double),
    ]));
    let arrays = vec![
        ints(vec![1, 2]),
        numbers(vec![1.0, 1.5]),
        numbers(vec![2.0, 2.5]),
        numbers(vec![0.5, 0.25]),
        numbers(vec![1.25, 1.75]),
        numbers(vec![10.0, 20.0]),
    ];
    let batch = arrow::record_batch::RecordBatch::try_new(schema.clone(), arrays).unwrap();
    let mut bytes = Vec::new();
    let mut writer =
        parquet::arrow::ArrowWriter::try_new(&mut bytes, schema, Some(properties)).unwrap();
    writer.write(&batch).unwrap();
    writer.close().unwrap();
    bytes
}

fn is_read(bytes: &Vec<u8>) -> bool {
    let found = read_file(bytes).unwrap();
    found.len() == 2
        && found[0].ts == 1
        && found[1].ts == 2
        && f(found[0].open) == 1.0
        && f(found[1].high) == 2.5
        && f(found[0].low) == 0.5
        && f(found[1].close) == 1.75
        && f(found[1].volume) == 20.0
}

#[test]
fn columns_that_may_lack_values_are_read() {
    let defaults = parquet::file::properties::WriterProperties::builder().build();
    assert!(is_read(&written_with(true, defaults)));
}

#[test]
fn all_encodings_are_read() {
    let properties = parquet::file::properties::WriterProperties::builder()
        .set_dictionary_enabled(false)
        .set_encoding(parquet::basic::Encoding::BYTE_STREAM_SPLIT)
        .set_column_encoding("ts".into(), parquet::basic::Encoding::DELTA_BINARY_PACKED)
        .build();
    assert!(is_read(&written_with(false, properties)));
    let properties = parquet::file::properties::WriterProperties::builder()
        .set_writer_version(parquet::file::properties::WriterVersion::PARQUET_2_0)
        .build();
    assert!(is_read(&written_with(true, properties)));
}

#[test]
fn files_are_known_by_their_bytes() {
    let spilled = vec![
        spill("data", "A", &vec![candle(1, 1.0)]).unwrap().unwrap(),
        spill("data", "A", &vec![candle(2, 2.0), candle(3, 3.0)]).unwrap().unwrap(),
    ];
    let a = spilled[0].bytes().clone();
    let b = spilled[1].bytes().clone();
    let found = read_known(&b, &spilled).unwrap().unwrap();
    assert_eq!(found.iter().map(|c| c.ts).collect::<Vec<_>>(), vec![2, 3]);
    let other = encode(&vec![candle(9, 9.0)]).unwrap();
    assert!(read_known(&other, &spilled).is_none());
    assert!(!is_known_file(&other, &spilled));
    assert!(matches!(read_known(&vec![1, 2, 3], &spilled), Some(Err(SpillError::Parquet(_)))));
    let found = query_known(&vec![b.clone(), vec![7; 20], a.clone()], &spilled, 1, 2).unwrap();
    assert_eq!(found.iter().map(|c| c.ts).collect::<Vec<_>>(), vec![1, 2]);
    assert!(query_known(&vec![a, other], &spilled, 1, 2).is_none());
}

#[test]
fn whole_history_is_answered() {
    let mut disk = Disk::new();
    let mut store = CandleStore::with_capacity(1, 10).with_data_dir("data");
    let mut ts = 0;
    for round in 0..4 {
        for _ in 0..=round {
            ts += 5;
            disk.append(&mut store, "A", tick(ts));
        }
        disk.append(&mut store, "B", tick(1));
    }
    disk.append(&mut store, "A", tick(ts + 5));
    let found = disk.range(&store, "A", 10, 50);
    let times: Vec<i64> = found.iter().map(|c| c.ts).collect();
    assert_eq!(times, vec![10, 15, 20, 25, 30, 35, 40, 45, 50]);
    assert_eq!(disk.range(&store, "A", 0, i64::MAX).len(), 11);
}

#[test]
fn history_is_whole_whatever_another_symbol_loses() {
    let mut disk = Disk::new();
    let mut store = CandleStore::with_capacity(1, 3).with_data_dir("data");
    for round in 0..3 {
        disk.append(&mut store, "A", tick(10 * round + 1));
        disk.append(&mut store, "A", tick(10 * round + 2));
        for i in 0..8 {
            disk.append(&mut store, "B", tick(100 * round + i));
        }
    }
    let times = |found: Vec<Candle>| found.iter().map(|c| c.ts).collect::<Vec<_>>();
    assert_eq!(times(disk.range(&store, "A", 0, 99)), vec![1, 2, 11, 12, 21, 22]);
    disk.append(&mut store, "A", tick(31));
    assert_eq!(times(disk.range(&store, "A", 2, 99)), vec![2, 11, 12, 21, 22, 31]);
    assert_eq!(times(disk.range(&store, "B", 0, 99)), vec![5, 6, 7]);
}
