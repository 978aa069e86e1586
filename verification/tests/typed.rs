//! Columns of whole numbers and truth values.

use format_table::dialect::PartitionDialect;
use format_table::error::Error;
use format_table::evaluate::evaluate;
use format_table::hive::HiveDialect;
use format_table::model::{
    BinaryRow, CatalogPartition, CoreOptions, DataField, DataType, Datum,
    LoadedFormatTablePartitionOptions, Table, TableSchema, TextMap, TypeKind,
};
use format_table::partition::{partition_path_from_row, partition_row_from_path};
use format_table::path::join_path;
use format_table::predicate::{PartitionFilter, Predicate, PredicateOperator};
use format_table::scan::{FormatTableScan, ScanRoots};

const DEFAULT: &str = "__DEFAULT_PARTITION__";

fn data_type(name: &str) -> DataType {
    let kind = match name {
        "Int" => TypeKind::Integer { min: i32::MIN as i64, max: i32::MAX as i64 },
        "BigInt" => TypeKind::Integer { min: i64::MIN, max: i64::MAX },
        "Boolean" => TypeKind::Boolean,
        "VarChar(255)" => TypeKind::Character,
        _ => TypeKind::Other,
    };
    DataType { name: name.to_string(), kind }
}

fn column(name: &str, named: &str) -> DataField {
    DataField { name: name.to_string(), data_type: data_type(named) }
}

fn columns(columns: &[(&str, &str)]) -> Vec<DataField> {
    columns.iter().map(|(name, named)| column(name, named)).collect()
}

fn table(partition_columns: &[(&str, &str)]) -> Table {
    Table {
        full_name: "default.events".to_string(),
        location: "/t".to_string(),
        schema: TableSchema {
            id: 0,
            fields: columns(partition_columns),
            partition_keys: partition_columns.iter().map(|(name, _)| name.to_string()).collect(),
            partition_fields: columns(partition_columns),
        },
        options: CoreOptions {
            file_format: "parquet".to_string(),
            path: None,
            partition_default_name: DEFAULT.to_string(),
            legacy_partition_name: false,
            only_value_in_path: false,
            read_refused: None,
        },
        managed_partitions: Some(LoadedFormatTablePartitionOptions {
            file_format: "parquet".to_string(),
            table_path: "/t".to_string(),
            only_value_in_path: false,
        }),
    }
}

fn leaf(index: usize, named: &str, op: PredicateOperator, literal: &str) -> Predicate {
    Predicate::Leaf {
        column: format!("c{index}"),
        index,
        data_type: data_type(named),
        op,
        literals: vec![Datum { text: literal.to_string() }],
    }
}

fn eq(index: usize, named: &str, literal: &str) -> Predicate {
    leaf(index, named, PredicateOperator::Eq, literal)
}

fn partition(values: &[(&str, &str)]) -> CatalogPartition {
    let mut spec = TextMap::new();
    for (name, value) in values {
        spec.insert(name.to_string(), value.to_string());
    }
    CatalogPartition { spec, options: None }
}

fn row(values: &[Option<&str>]) -> BinaryRow {
    BinaryRow {
        values: values
            .iter()
            .map(|value| value.map(|text| Datum { text: text.to_string() }))
            .collect(),
    }
}

fn values(row: &BinaryRow) -> Vec<Option<String>> {
    row.values.iter().map(|value| value.as_ref().map(|datum| datum.text.clone())).collect()
}

fn read(named: &str, text: &str) -> Option<String> {
    HiveDialect
        .parse_format_partition_value(text, &data_type(named))
        .map(|datum| datum.text)
}

fn scanned(
    table: &Table,
    predicate: Predicate,
    partitions: Vec<CatalogPartition>,
) -> (Option<String>, Vec<String>) {
    let scan =
        FormatTableScan::new(table, Some(PartitionFilter::Predicate(predicate)), None, None);
    let start = scan.plan(&HiveDialect).unwrap();
    let ScanRoots::Catalog { listing } = start.roots else {
        panic!("the catalog lists the partitions");
    };
    let roots = scan
        .catalog_managed_scan_roots(
            &HiveDialect,
            &start.table_path,
            table.managed_partitions.as_ref().unwrap(),
            partitions,
        )
        .unwrap();
    (listing.pattern, roots.into_iter().map(|root| root.path).collect())
}

#[test]
fn test_catalog_managed_scan_keeps_registrations_spelled_unlike_the_filter() {
    let table = table(&[("month", "Int"), ("active", "Boolean")]);
    for (predicate, expected) in [
        (eq(0, "Int", "1"), "/t/month=01/active=TRUE"),
        (
            Predicate::And(vec![eq(0, "Int", "1"), eq(1, "Boolean", "true")]),
            "/t/month=01/active=TRUE",
        ),
        (
            Predicate::And(vec![eq(0, "Int", "2"), eq(1, "Boolean", "false")]),
            "/t/month=2/active=false",
        ),
    ] {
        let registered = vec![
            partition(&[("month", "01"), ("active", "TRUE")]),
            partition(&[("month", "2"), ("active", "false")]),
        ];
        let (pattern, roots) = scanned(&table, predicate, registered);
        assert_eq!(roots, vec![expected]);
        // A pattern built from `month = 1` would have dropped `month=01` on the catalog side.
        assert!(pattern.is_none());
    }
}

#[test]
fn test_a_pattern_ends_at_the_first_column_that_is_not_of_characters() {
    let table = table(&[("dt", "VarChar(255)"), ("month", "Int"), ("hh", "VarChar(255)")]);
    let predicate = Predicate::And(vec![
        eq(0, "VarChar(255)", "a"),
        eq(1, "Int", "1"),
        eq(2, "VarChar(255)", "10"),
    ]);
    let registered = vec![
        partition(&[("dt", "a"), ("month", "+01"), ("hh", "10")]),
        partition(&[("dt", "a"), ("month", "2"), ("hh", "10")]),
    ];
    let (pattern, roots) = scanned(&table, predicate, registered);
    assert_eq!(pattern, Some("dt=a/%".to_string()));
    assert_eq!(roots, vec!["/t/dt=a/month=+01/hh=10"]);
}

#[test]
fn test_a_value_of_another_type_makes_the_metadata_invalid() {
    let table = table(&[("month", "Int")]);
    let scan = FormatTableScan::new(&table, None, None, None);
    let error = scan
        .catalog_managed_scan_roots(
            &HiveDialect,
            "/t",
            table.managed_partitions.as_ref().unwrap(),
            vec![partition(&[("month", "x")])],
        )
        .unwrap_err();
    let Error::DataInvalid { source: Some(source), .. } = error else {
        panic!("expected DataInvalid with a source");
    };
    assert_eq!(
        source.message(),
        "Invalid catalog partition value \"x\" for column 'month' with type Int"
    );
}

#[test]
fn test_spellings_of_whole_numbers() {
    for (text, expected) in [
        ("0", "0"),
        ("01", "1"),
        ("+7", "7"),
        ("-0", "0"),
        ("-012", "-12"),
        ("2147483647", "2147483647"),
        ("-2147483648", "-2147483648"),
    ] {
        assert_eq!(read("Int", text), Some(expected.to_string()), "{text}");
    }
    for text in ["", "+", "-", "1a", " 1", "--1", "2147483648", "-2147483649", "\u{661}"] {
        assert_eq!(read("Int", text), None, "{text}");
    }
    assert_eq!(read("BigInt", "-9223372036854775808"), Some("-9223372036854775808".to_string()));
    assert_eq!(read("BigInt", "9223372036854775807"), Some("9223372036854775807".to_string()));
    assert_eq!(read("BigInt", "9223372036854775808"), None);
    assert_eq!(read("BigInt", "99999999999999999999999999999999999999999999"), None);
}

#[test]
fn test_spellings_of_truth_values_and_of_nothing_else() {
    for text in ["true", "TRUE", "True"] {
        assert_eq!(read("Boolean", text), Some("true".to_string()));
    }
    assert_eq!(read("Boolean", "fAlSe"), Some("false".to_string()));
    assert_eq!(read("Boolean", "yes"), None);
    assert_eq!(read("Boolean", ""), None);
    assert_eq!(read("VarChar(255)", "01"), Some("01".to_string()));
    assert_eq!(read("Map", "x"), None);
}

#[test]
fn test_numbers_are_compared_as_numbers() {
    let nine = row(&[Some("9")]);
    let less = |named| leaf(0, named, PredicateOperator::Lt, "10");
    assert_eq!(evaluate(&less("Int"), &nine), Some(true));
    assert_eq!(evaluate(&less("VarChar(255)"), &nine), Some(false));
    let minus = row(&[Some("-3")]);
    assert_eq!(evaluate(&leaf(0, "Int", PredicateOperator::Gt, "-20"), &minus), Some(true));
    assert_eq!(evaluate(&leaf(0, "Int", PredicateOperator::GtEq, "-3"), &minus), Some(true));
    assert_eq!(evaluate(&leaf(0, "Int", PredicateOperator::LtEq, "-4"), &minus), Some(false));
    let no = row(&[Some("false")]);
    assert_eq!(evaluate(&leaf(0, "Boolean", PredicateOperator::Lt, "true"), &no), Some(true));
}

#[test]
fn test_typed_rows_read_back_from_their_paths() {
    let described = [("month", "Int"), ("active", "Boolean"), ("label", "VarChar(255)")];
    let fields = columns(&described);
    let keys: Vec<String> = described.iter().map(|(name, _)| name.to_string()).collect();
    for only_value in [false, true] {
        for cells in [
            [Some("-5"), Some("true"), Some("a/b=c%")],
            [Some("0"), None, Some("01")],
            [None, Some("false"), None],
        ] {
            let written = row(&cells);
            let path = partition_path_from_row(
                &HiveDialect,
                &written,
                &fields,
                DEFAULT,
                false,
                only_value,
            )
            .unwrap();
            let read = partition_row_from_path(
                &HiveDialect,
                "/t",
                &join_path("/t", &path),
                &fields,
                &keys,
                DEFAULT,
                only_value,
            );
            assert_eq!(values(&read.unwrap().unwrap()), values(&written));
        }
    }
}

#[test]
fn test_a_narrow_listing_reads_the_same() {
    let table = table(&[("dt", "VarChar(255)"), ("month", "Int")]);
    let predicate =
        || Predicate::And(vec![eq(0, "VarChar(255)", "a"), eq(1, "Int", "1")]);
    let all = || {
        vec![
            partition(&[("dt", "b"), ("month", "1")]),
            partition(&[("dt", "a"), ("month", "01")]),
            partition(&[("dt", "a"), ("month", "1")]),
            partition(&[("dt", "a"), ("month", "2")]),
        ]
    };
    let (pattern, from_all) = scanned(&table, predicate(), all());
    assert_eq!(pattern, Some("dt=a/%".to_string()));
    let narrow =
        all().into_iter().filter(|listed| listed.spec.get("dt").unwrap() == "a").collect();
    let (_, from_narrow) = scanned(&table, predicate(), narrow);
    assert_eq!(from_all, vec!["/t/dt=a/month=01", "/t/dt=a/month=1"]);
    assert_eq!(from_narrow, from_all);
}
