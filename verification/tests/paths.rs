use format_table::dialect::{FormatTablePartitionPaths, PartitionComputer, PartitionDialect};
use format_table::error::Error;
use format_table::hive::HiveDialect;
use format_table::model::{BinaryRow, DataField, DataType, Datum, TextMap, TypeKind};
use format_table::partition::{
    invalid_catalog_value, partition_path_from_row, partition_row_from_catalog_spec, partition_row_from_path,
    partition_segment_value,
};
use format_table::path::{is_format_table_data_file_name, join_path, split_parent_and_file};

const DEFAULT: &str = "__DEFAULT_PARTITION__";

fn text_column(name: &str) -> DataField {
    DataField {
        name: name.to_string(),
        data_type: DataType { name: "VarChar(255)".to_string(), kind: TypeKind::Character },
    }
}

fn int_column(name: &str) -> DataField {
    DataField {
        name: name.to_string(),
        data_type: DataType {
            name: "Int".to_string(),
            kind: TypeKind::Integer { min: i32::MIN as i64, max: i32::MAX as i64 },
        },
    }
}

fn map_column(name: &str) -> DataField {
    DataField {
        name: name.to_string(),
        data_type: DataType { name: "Map".to_string(), kind: TypeKind::Other },
    }
}

fn row(values: &[Option<&str>]) -> BinaryRow {
    BinaryRow {
        values: values
            .iter()
            .map(|value| value.map(|text| Datum { text: text.to_string() }))
            .collect(),
    }
}

fn values(row: &BinaryRow) -> Vec<Option<String>> {
    row.values.iter().map(|value| value.as_ref().map(|datum| datum.text.clone())).collect()
}

fn some(texts: &[&str]) -> Vec<Option<String>> {
    texts.iter().map(|text| Some(text.to_string())).collect()
}

fn keys(names: &[&str]) -> Vec<String> {
    names.iter().map(|name| name.to_string()).collect()
}

fn spec(values: &[(&str, &str)]) -> TextMap {
    let mut map = TextMap::new();
    for (name, value) in values {
        map.insert(name.to_string(), value.to_string());
    }
    map
}

#[test]
fn test_data_file_names() {
    for name in ["part-0.parquet", "a", "a_b", "a.b"] {
        assert!(is_format_table_data_file_name(name), "{name}");
    }
    for name in ["", ".part-7.parquet", "_SUCCESS", "_", "."] {
        assert!(!is_format_table_data_file_name(name), "{name}");
    }
}

#[test]
fn test_split_parent_and_file() {
    assert_eq!(split_parent_and_file("/t/dt=a/f.orc"), Some(("/t/dt=a", "f.orc")));
    assert_eq!(split_parent_and_file("/t/dt=a///"), Some(("/t", "dt=a")));
    assert_eq!(split_parent_and_file("/f"), Some(("", "f")));
    assert_eq!(split_parent_and_file("f"), None);
    assert_eq!(split_parent_and_file("f//"), None);
    assert_eq!(split_parent_and_file("///"), None);
    assert_eq!(split_parent_and_file(""), None);
}

#[test]
fn test_join_path() {
    assert_eq!(join_path("/t", "dt=a"), "/t/dt=a");
    assert_eq!(join_path("/t//", "//dt=a/hh=1//"), "/t/dt=a/hh=1");
    assert_eq!(join_path("/t/", ""), "/t");
    assert_eq!(join_path("/t/", "//"), "/t");
    assert_eq!(join_path("", "a"), "/a");
}

#[test]
fn test_a_file_below_a_directory_is_found_there() {
    let path = join_path("/t/dt=a/", "part-0.parquet");
    assert_eq!(split_parent_and_file(&path), Some(("/t/dt=a", "part-0.parquet")));
}

#[test]
fn test_escaping() {
    assert_eq!(HiveDialect.escape_path_name("a/b=c%d"), "a%2Fb%3Dc%25d");
    assert_eq!(HiveDialect.escape_path_name("\u{1}\u{7f}"), "%01%7F");
    assert_eq!(HiveDialect.escape_path_name("2026-07-22 \u{e9}"), "2026-07-22 \u{e9}");
    assert_eq!(HiveDialect.unescape_path_name("a%2Fb%3dc%25d"), Some("a/b=c%d".to_string()));
    for malformed in ["%", "%2", "a%2", "%G0", "%0G"] {
        assert_eq!(HiveDialect.unescape_path_name(malformed), None, "{malformed}");
    }
    for name in ["", "\"#%'*/:=?\\{[]^", "\u{0}\t\n", "plain", "\u{1f600}"] {
        let escaped = HiveDialect.escape_path_name(name);
        assert!(!escaped.contains('/') && !escaped.contains('='));
        assert_eq!(HiveDialect.unescape_path_name(&escaped), Some(name.to_string()));
    }
}

#[test]
fn test_partition_segment_value() {
    let value = |segment, key| partition_segment_value(&HiveDialect, segment, key);
    assert_eq!(value("dt=2026", "dt"), Some("2026".to_string()));
    assert_eq!(value("dt=a=b", "dt"), Some("a=b".to_string()));
    assert_eq!(value("d%3Dt=x%2Fy", "d=t"), Some("x/y".to_string()));
    assert_eq!(value("dt=", "dt"), Some(String::new()));
    assert_eq!(value("dt=1", "hh"), None);
    assert_eq!(value("dt", "dt"), None);
    assert_eq!(value("dt=%zz", "dt"), None);
    assert_eq!(value("%zz=1", "dt"), None);
}

#[test]
fn test_partition_path_from_row() {
    let fields = vec![text_column("dt"), text_column("h/h")];
    let path = |row: &BinaryRow, only_value| {
        partition_path_from_row(&HiveDialect, row, &fields, DEFAULT, false, only_value)
    };
    let full = row(&[Some("2026-07-22"), Some("1=0")]);
    assert_eq!(path(&full, false).unwrap(), "dt=2026-07-22/h%2Fh=1%3D0");
    assert_eq!(path(&full, true).unwrap(), "2026-07-22/1%3D0");
    assert_eq!(
        path(&row(&[None, Some("x")]), false).unwrap(),
        "dt=__DEFAULT_PARTITION__/h%2Fh=x"
    );
    let Err(Error::DataInvalid { message, source: None }) = path(&row(&[Some("x")]), false) else {
        panic!("a short row has no path");
    };
    assert_eq!(message, "Partition row has too few fields");
}

#[test]
fn test_partition_path_of_a_type_without_a_spelling() {
    let fields = vec![map_column("month")];
    let written =
        partition_path_from_row(&HiveDialect, &row(&[Some("1")]), &fields, DEFAULT, false, false);
    let Err(Error::Unsupported { message }) = written else {
        panic!("expected Unsupported");
    };
    assert_eq!(
        message,
        "Format table partition path generation does not support type 'Map'"
    );
    let null =
        partition_path_from_row(&HiveDialect, &row(&[None]), &fields, DEFAULT, false, true);
    assert_eq!(null.unwrap(), DEFAULT);
}

#[test]
fn test_partition_row_from_path_with_keys() {
    let fields = vec![text_column("dt"), text_column("hh")];
    let names = keys(&["dt", "hh"]);
    let read = |parent: &str| {
        partition_row_from_path(&HiveDialect, "/t/", parent, &fields, &names, DEFAULT, false)
            .unwrap()
            .map(|row| values(&row))
    };
    assert_eq!(read("/t/dt=a/hh=10"), Some(some(&["a", "10"])));
    assert_eq!(read("/t//dt=a//hh=10//"), Some(some(&["a", "10"])));
    assert_eq!(read("/t/x/hh=10/dt=a/y"), Some(some(&["a", "10"])));
    assert_eq!(read("/t/dt=a/dt=b/hh=1"), Some(some(&["a", "1"])));
    assert_eq!(
        read("/t/dt=__DEFAULT_PARTITION__/hh=1"),
        Some(vec![None, Some("1".to_string())])
    );
    assert_eq!(read("/t/dt=a"), None);
    assert_eq!(read("/t"), None);
    assert_eq!(read("/elsewhere/dt=a/hh=1"), None);
}

#[test]
fn test_partition_row_from_path_with_values_only() {
    let fields = vec![text_column("dt"), text_column("hh")];
    let names = keys(&["dt", "hh"]);
    let read = |parent: &str| {
        partition_row_from_path(&HiveDialect, "/t", parent, &fields, &names, DEFAULT, true)
            .unwrap()
            .map(|row| values(&row))
    };
    assert_eq!(read("/t/a/10"), Some(some(&["a", "10"])));
    assert_eq!(read("/t/a//10/deeper"), Some(some(&["a", "10"])));
    assert_eq!(read("/t/x%2Fy/10"), Some(some(&["x/y", "10"])));
    assert_eq!(read("/t/a"), None);
    assert_eq!(read("/t/a/%2"), None);
}

#[test]
fn test_a_value_that_does_not_parse_gives_no_row() {
    let fields = vec![int_column("month")];
    let read = partition_row_from_path(
        &HiveDialect,
        "/t",
        "/t/month=x",
        &fields,
        &keys(&["month"]),
        DEFAULT,
        false,
    );
    assert!(read.unwrap().is_none());
}

#[test]
fn test_a_written_path_reads_back() {
    let fields = vec![text_column("a=b"), text_column("c/d")];
    let names = keys(&["a=b", "c/d"]);
    for only_value in [false, true] {
        for cells in [[Some("x/y"), Some("%")], [None, Some("1=2")], [Some(" "), None]] {
            let written = row(&cells);
            let path = partition_path_from_row(
                &HiveDialect,
                &written,
                &fields,
                DEFAULT,
                false,
                only_value,
            )
            .unwrap();
            let read = partition_row_from_path(
                &HiveDialect,
                "/warehouse/t",
                &join_path("/warehouse/t", &path),
                &fields,
                &names,
                DEFAULT,
                only_value,
            );
            assert_eq!(values(&read.unwrap().unwrap()), values(&written));
        }
    }
}

#[test]
fn test_the_default_name_as_a_value_reads_as_null() {
    let fields = vec![text_column("dt")];
    let path = partition_path_from_row(
        &HiveDialect,
        &row(&[Some(DEFAULT)]),
        &fields,
        DEFAULT,
        false,
        false,
    )
    .unwrap();
    let read = partition_row_from_path(
        &HiveDialect,
        "/t",
        &join_path("/t", &path),
        &fields,
        &keys(&["dt"]),
        DEFAULT,
        false,
    );
    assert_eq!(values(&read.unwrap().unwrap()), vec![None]);
}

#[test]
fn test_partition_row_from_catalog_spec() {
    let fields = vec![text_column("dt"), text_column("hh")];
    let names = keys(&["dt", "hh"]);
    let read = |spec: &TextMap| {
        partition_row_from_catalog_spec(&HiveDialect, spec, &fields, &names, DEFAULT)
    };
    let full = read(&spec(&[("hh", "10"), ("dt", "a"), ("other", "x")])).unwrap();
    assert_eq!(values(&full), some(&["a", "10"]));
    let null = read(&spec(&[("dt", DEFAULT), ("hh", "10")])).unwrap();
    assert_eq!(values(&null), vec![None, Some("10".to_string())]);
    let Err(Error::DataInvalid { message, source: None }) = read(&spec(&[("hh", "10")])) else {
        panic!("a column is missing");
    };
    assert_eq!(message, "Catalog partition is missing column 'dt'");
}

#[test]
fn test_an_invalid_catalog_value_is_quoted() {
    let fields = vec![int_column("month")];
    let read = partition_row_from_catalog_spec(
        &HiveDialect,
        &spec(&[("month", "a\"b\n")]),
        &fields,
        &keys(&["month"]),
        DEFAULT,
    );
    let Err(Error::DataInvalid { message, source: None }) = read else {
        panic!("the value is not a number");
    };
    assert_eq!(
        message,
        "Invalid catalog partition value \"a\\\"b\\n\" for column 'month' with type Int"
    );
}

#[test]
fn test_what_is_said_of_a_quoted_value() {
    let error = invalid_catalog_value("\"x\"", "month", &int_column("month").data_type);
    assert_eq!(
        error.message(),
        "Invalid catalog partition value \"x\" for column 'month' with type Int"
    );
    assert!(matches!(error, Error::DataInvalid { source: None, .. }));
}

#[test]
fn test_names_and_paths_of_catalog_partitions() {
    let names = keys(&["dt", "hh"]);
    let with_keys = FormatTablePartitionPaths::new(&names, false);
    let values_only = FormatTablePartitionPaths::new(&names, true);
    let partition = spec(&[("dt", "2026/07"), ("hh", "10")]);
    assert_eq!(HiveDialect.relative_path(&with_keys, &partition).unwrap(), "dt=2026%2F07/hh=10");
    assert_eq!(HiveDialect.relative_path(&values_only, &partition).unwrap(), "2026%2F07/10");
    assert_eq!(HiveDialect.partition_name(&values_only, &partition).unwrap(), "dt=2026%2F07/hh=10");
    assert!(HiveDialect.partition_name(&with_keys, &spec(&[("dt", "x")])).is_err());
    let pattern = |values: &[&str]| HiveDialect.name_prefix_pattern(&with_keys, &keys(values));
    assert_eq!(pattern(&[]), None);
    assert_eq!(pattern(&["a"]), Some("dt=a/%".to_string()));
    assert_eq!(pattern(&["a", "b"]), Some("dt=a/hh=b".to_string()));
    assert_eq!(pattern(&["a", "b", "c"]), Some("dt=a/hh=b".to_string()));
}

#[test]
fn test_the_directory_of_a_catalog_partition_reads_as_its_row() {
    let fields = vec![text_column("dt"), text_column("hh")];
    let names = keys(&["dt", "hh"]);
    for only_value in [false, true] {
        let paths = FormatTablePartitionPaths::new(&names, only_value);
        let partition = spec(&[("dt", DEFAULT), ("hh", "1/0")]);
        let directory = join_path("/t", &HiveDialect.relative_path(&paths, &partition).unwrap());
        let listed =
            partition_row_from_catalog_spec(&HiveDialect, &partition, &fields, &names, DEFAULT);
        let read = partition_row_from_path(
            &HiveDialect,
            "/t",
            &directory,
            &fields,
            &names,
            DEFAULT,
            only_value,
        );
        assert_eq!(values(&read.unwrap().unwrap()), values(&listed.unwrap()));
    }
}

#[test]
fn test_computed_paths() {
    let names = keys(&["hh", "dt"]);
    let fields = vec![text_column("id"), text_column("dt"), text_column("hh")];
    let computer = PartitionComputer {
        partition_keys: &names,
        fields: &fields,
        default_partition_name: DEFAULT,
        legacy_partition_name: false,
    };
    assert!(HiveDialect.check_partition_computer(&computer).is_ok());
    let path = HiveDialect.generate_partition_path(&computer, &row(&[Some("10"), None]));
    assert_eq!(path.unwrap(), "hh=10/dt=__DEFAULT_PARTITION__");
    let columns = vec![text_column("hh"), text_column("dt")];
    let written = partition_path_from_row(
        &HiveDialect,
        &row(&[Some("10"), None]),
        &columns,
        DEFAULT,
        false,
        false,
    );
    assert_eq!(written.unwrap(), "hh=10/dt=__DEFAULT_PARTITION__");
    let unknown = keys(&["hh", "nope"]);
    let computer = PartitionComputer { partition_keys: &unknown, ..computer };
    let error = HiveDialect.check_partition_computer(&computer).unwrap_err();
    assert_eq!(error.message(), "Partition column 'nope' is not a column of the table");
}
