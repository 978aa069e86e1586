use format_table::dialect::{FormatTablePartitionPaths, PartitionDialect};
use format_table::error::Error;
use format_table::files::partitions_by_predicate;
use format_table::hive::HiveDialect;
use format_table::model::{
    BinaryRow, CatalogPartition, CoreOptions, DataField, DataType, Datum,
    LoadedFormatTablePartitionOptions, Table, TableSchema, TextMap, TypeKind,
};
use format_table::predicate::{PartitionFilter, Predicate, PredicateOperator};
use format_table::scan::{
    CatalogListing, FileStatus, FormatTableScan, ListedFile, PlanStart, RootListing, RowRange, ScanRoot, ScanRoots,
};
use format_table::split::{data_file_meta, DataSplit, Plan};

fn column(name: &str) -> DataField {
    DataField {
        name: name.to_string(),
        data_type: DataType { name: "VarChar(255)".to_string(), kind: TypeKind::Character },
    }
}

/// A table at `/t` that is partitioned by the columns, and holds a column `id`.
fn table(partition_columns: &[&str], managed: bool, only_value: bool) -> Table {
    let mut fields: Vec<DataField> = partition_columns.iter().map(|name| column(name)).collect();
    fields.push(column("id"));
    Table {
        full_name: "default.events".to_string(),
        location: "/t/".to_string(),
        schema: TableSchema {
            id: 7,
            fields,
            partition_keys: partition_columns.iter().map(|name| name.to_string()).collect(),
            partition_fields: partition_columns.iter().map(|name| column(name)).collect(),
        },
        options: CoreOptions {
            file_format: "parquet".to_string(),
            path: None,
            partition_default_name: "__DEFAULT_PARTITION__".to_string(),
            legacy_partition_name: false,
            only_value_in_path: only_value,
            read_refused: None,
        },
        managed_partitions: if managed {
            Some(LoadedFormatTablePartitionOptions {
                file_format: "parquet".to_string(),
                table_path: "/t".to_string(),
                only_value_in_path: only_value,
            })
        } else {
            None
        },
    }
}

fn leaf(index: usize, op: PredicateOperator, literals: &[&str]) -> Predicate {
    Predicate::Leaf {
        column: format!("c{index}"),
        index,
        data_type: DataType { name: "VarChar(255)".to_string(), kind: TypeKind::Character },
        op,
        literals: literals.iter().map(|text| Datum { text: text.to_string() }).collect(),
    }
}

fn eq(index: usize, literal: &str) -> Predicate {
    leaf(index, PredicateOperator::Eq, &[literal])
}

fn meets(predicate: Predicate) -> Option<PartitionFilter> {
    Some(PartitionFilter::Predicate(predicate))
}

fn row(values: &[Option<&str>]) -> BinaryRow {
    BinaryRow {
        values: values
            .iter()
            .map(|value| value.map(|text| Datum { text: text.to_string() }))
            .collect(),
    }
}

fn cells(row: &BinaryRow) -> Vec<Option<String>> {
    row.values.iter().map(|value| value.as_ref().map(|datum| datum.text.clone())).collect()
}

fn spec(values: &[(&str, &str)]) -> TextMap {
    let mut map = TextMap::new();
    for (name, value) in values {
        map.insert(name.to_string(), value.to_string());
    }
    map
}

fn partition(values: &[(&str, &str)]) -> CatalogPartition {
    CatalogPartition { spec: spec(values), options: None }
}

fn located(values: &[(&str, &str)], path: &str) -> CatalogPartition {
    CatalogPartition { spec: spec(values), options: Some(spec(&[("path", path)])) }
}

fn day_and_hour(values: &[(&str, &str)]) -> Vec<CatalogPartition> {
    values.iter().map(|(dt, hh)| partition(&[("dt", dt), ("hh", hh)])).collect()
}

/// The partitions that a catalog lists for a pattern of names.
fn listed(
    table: &Table,
    partitions: Vec<CatalogPartition>,
    pattern: Option<&str>,
) -> Vec<CatalogPartition> {
    let paths = FormatTablePartitionPaths::new(&table.schema.partition_keys, false);
    partitions
        .into_iter()
        .filter(|partition| match pattern {
            None => true,
            Some(pattern) => {
                let name = HiveDialect.partition_name(&paths, &partition.spec).unwrap();
                match pattern.strip_suffix('%') {
                    Some(prefix) => name.starts_with(prefix),
                    None => name == pattern,
                }
            }
        })
        .collect()
}

fn start(scan: &FormatTableScan) -> PlanStart {
    scan.plan(&HiveDialect).unwrap()
}

fn roots(
    scan: &FormatTableScan,
    partitions: Vec<CatalogPartition>,
) -> Result<Vec<ScanRoot>, Error> {
    let start = scan.plan(&HiveDialect)?;
    match start.roots {
        ScanRoots::Ready { roots } => Ok(roots),
        ScanRoots::Catalog { listing } => scan.catalog_managed_scan_roots(
            &HiveDialect,
            &start.table_path,
            scan.table.managed_partitions.as_ref().unwrap(),
            listed(scan.table, partitions, listing.pattern.as_deref()),
        ),
    }
}

fn status(path: &str, size: u64) -> FileStatus {
    FileStatus { path: path.to_string(), size }
}

fn file(path: &str, size: u64) -> ListedFile {
    ListedFile { status: status(path, size), current: Ok(status(path, size)) }
}

/// Plans a scan over a storage that holds the files.
fn plan(
    scan: &FormatTableScan,
    partitions: Vec<CatalogPartition>,
    files: &[(&str, u64)],
) -> Result<Plan, Error> {
    let listings = roots(scan, partitions)?
        .into_iter()
        .map(|root| {
            let below = format!("{}/", root.path);
            let found = files
                .iter()
                .filter(|(path, _)| path.starts_with(&below))
                .map(|(path, size)| file(path, *size))
                .collect();
            RootListing { root, files: Ok(found) }
        })
        .collect();
    let start = start(scan);
    scan.plan_inner(&HiveDialect, &start.table_path, start.format_extension, listings)
}

fn paths(plan: &Plan) -> Vec<String> {
    plan.splits
        .iter()
        .map(|split| format!("{}/{}", split.bucket_path, split.data_files[0].file_name))
        .collect()
}

fn root_paths(roots: &[ScanRoot]) -> Vec<&str> {
    roots.iter().map(|root| root.path.as_str()).collect()
}

fn listing(scan: &FormatTableScan) -> CatalogListing {
    let ScanRoots::Catalog { listing } = start(scan).roots else {
        panic!("the catalog lists the partitions");
    };
    listing
}

fn pushed(scan: &FormatTableScan) -> (Option<String>, bool) {
    let listing = listing(scan);
    (listing.pattern, listing.by_predicate)
}

#[test]
fn test_catalog_managed_scan_pushes_a_partition_name_pattern() {
    let table = table(&["dt", "hh"], true, false);
    for (predicate, expected) in [
        (
            Predicate::And(vec![eq(0, "20260722"), eq(1, "10")]),
            Some("dt=20260722/hh=10"),
        ),
        (eq(0, "20260722"), Some("dt=20260722/%")),
        (
            Predicate::And(vec![
                eq(0, "20260722"),
                leaf(1, PredicateOperator::In, &["10", "11"]),
            ]),
            Some("dt=20260722/%"),
        ),
        // Only a leading run of equalities becomes a prefix pattern; anything else has to
        // list every partition and prune locally.
        (eq(1, "10"), None),
        (leaf(0, PredicateOperator::Gt, &["20260722"]), None),
    ] {
        let scan = FormatTableScan::new(&table, meets(predicate), None, None);
        assert_eq!(pushed(&scan), (expected.map(str::to_string), true));
    }
}

#[test]
fn test_enumerated_partitions_push_what_they_share() {
    let table = table(&["dt", "hh"], true, false);
    let filter = PartitionFilter::PartitionSet {
        partitions: vec![
            row(&[Some("20260722"), Some("10")]),
            row(&[Some("20260722"), Some("11")]),
        ],
    };
    let scan = FormatTableScan::new(&table, Some(filter), None, None);
    assert_eq!(pushed(&scan), (Some("dt=20260722/%".to_string()), false));
    let everything = FormatTableScan::new(&table, None, None, None);
    assert_eq!(pushed(&everything), (None, false));
}

#[test]
fn test_catalog_managed_scan_lists_by_predicate_and_falls_back_to_the_pattern() {
    let table = table(&["dt", "hh"], true, false);
    let registered =
        || day_and_hour(&[("20260722", "10"), ("20260722", "11"), ("20260723", "10")]);

    // No leading equality, so only the predicate can narrow what the catalog returns.
    let scan = FormatTableScan::new(&table, meets(eq(1, "10")), None, None);
    assert_eq!(pushed(&scan), (None, true));
    assert_eq!(
        root_paths(&roots(&scan, registered()).unwrap()),
        vec!["/t/dt=20260722/hh=10", "/t/dt=20260723/hh=10"]
    );

    // A catalog that cannot list by predicate is still asked, by pattern.
    let refused = Err(Error::NotImplemented { message: "no filter".to_string() });
    assert!(partitions_by_predicate(refused).unwrap().is_none());
    let broken = Err(Error::Other { message: "broken".to_string() });
    assert_eq!(partitions_by_predicate(broken).unwrap_err().message(), "broken");
    assert_eq!(partitions_by_predicate(Ok(registered())).unwrap().unwrap().len(), 3);
    let scan = FormatTableScan::new(
        &table,
        meets(Predicate::And(vec![
            eq(0, "20260722"),
            leaf(1, PredicateOperator::Gt, &["10"]),
        ])),
        None,
        None,
    );
    assert_eq!(pushed(&scan), (Some("dt=20260722/%".to_string()), true));
    assert_eq!(
        root_paths(&roots(&scan, registered()).unwrap()),
        vec!["/t/dt=20260722/hh=11"]
    );
}

#[test]
fn test_a_listing_by_predicate_comes_in_pages() {
    let table = table(&["dt", "hh"], true, false);
    let scan = FormatTableScan::new(&table, meets(eq(1, "10")), None, None);
    assert_eq!(listing(&scan).max_results, Some(1000));
    let set = PartitionFilter::PartitionSet { partitions: vec![row(&[Some("a"), Some("10")])] };
    let scan = FormatTableScan::new(&table, Some(set), None, None);
    assert_eq!(listing(&scan).max_results, None);
    let scan = FormatTableScan::new(&table, None, None, None);
    assert_eq!(listing(&scan).max_results, None);
}

#[test]
fn test_a_scan_that_reaches_a_custom_location_fails() {
    let table = table(&["dt"], true, false);
    let registered = || {
        vec![
            partition(&[("dt", "a")]),
            located(&[("dt", "b")], "file:///elsewhere/b"),
        ]
    };
    let files = [("/t/dt=a/part-0.parquet", 1), ("/t/dt=b/part-0.parquet", 2)];
    let scan = FormatTableScan::new(&table, meets(eq(0, "b")), None, None);
    let error = plan(&scan, registered(), &files).unwrap_err();
    assert!(matches!(error, Error::Unsupported { .. }));
    assert!(error.message().contains("custom location"), "{}", error.message());
    let scan = FormatTableScan::new(&table, None, None, None);
    assert!(plan(&scan, registered(), &files).is_err());
    let scan = FormatTableScan::new(&table, meets(eq(0, "a")), None, None);
    let planned = plan(&scan, registered(), &files).unwrap();
    assert_eq!(paths(&planned), vec!["/t/dt=a/part-0.parquet"]);
}

#[test]
fn test_a_scan_returns_only_the_data_files() {
    let files = [
        ("/t/dt=a/part-0.parquet", 1),
        ("/t/dt=a/_temporary/0/part-9.parquet", 9),
        ("/t/dt=a/__magic_job-1/tasks/part-8.parquet", 8),
        ("/t/dt=a/.part-7.parquet", 7),
        ("/t/dt=a/_SUCCESS", 0),
        ("/t/dt=a/notes.txt", 8),
        ("/t/dt=a/sub/part-1.PARQUET", 3),
    ];
    for managed in [true, false] {
        let table = table(&["dt"], managed, false);
        let scan = FormatTableScan::new(&table, meets(eq(0, "a")), None, None);
        let planned = plan(&scan, vec![partition(&[("dt", "a")])], &files).unwrap();
        assert_eq!(
            paths(&planned),
            vec!["/t/dt=a/part-0.parquet", "/t/dt=a/sub/part-1.PARQUET"]
        );
        assert_eq!(cells(&planned.splits[0].partition), vec![Some("a".to_string())]);
    }
}

#[test]
fn test_a_hidden_name_can_be_a_partition_value() {
    let files = [
        ("/t/_a/part-0.parquet", 1),
        ("/t/_a/_tmp/part-1.parquet", 1),
        ("/t/b/part-2.parquet", 1),
    ];
    let values_only = table(&["dt"], false, true);
    let scan = FormatTableScan::new(&values_only, None, None, None);
    assert_eq!(
        paths(&plan(&scan, vec![], &files).unwrap()),
        vec!["/t/_a/part-0.parquet", "/t/b/part-2.parquet"]
    );
    let keyed = table(&["_dt"], false, false);
    let scan = FormatTableScan::new(&keyed, None, None, None);
    let files = [("/t/_dt=x/part-0.parquet", 1), ("/t/_other=x/_dt=y/part-1.parquet", 1)];
    assert_eq!(
        paths(&plan(&scan, vec![], &files).unwrap()),
        vec!["/t/_dt=x/part-0.parquet"]
    );
}

#[test]
fn test_a_neighbour_of_the_table_directory_is_not_hidden() {
    let table = table(&["dt"], true, false);
    let scan = FormatTableScan::new(&table, None, None, None);
    let split_of = |path: &str, size, known: &BinaryRow| {
        scan.status_to_split(&HiveDialect, &file(path, size), "/t", ".parquet", known)
    };
    let known = row(&[Some("k")]);
    let split = split_of("/t_x/part-0.parquet", 1, &known).unwrap().unwrap();
    assert_eq!(split.bucket_path, "/t_x");
    assert_eq!(cells(&split.partition), vec![Some("k".to_string())]);
    assert!(split_of("/t_x/part-0.parquet", u64::MAX, &known).is_err());
    let split = split_of("/t_x/dt=a/part-0.parquet", 1, &row(&[])).unwrap().unwrap();
    assert_eq!(split.bucket_path, "/t_x/dt=a");
    assert_eq!(cells(&split.partition), vec![Some("a".to_string())]);
    assert!(scan.needs_current_status(
        &HiveDialect,
        "/t/",
        ".parquet",
        &status("/t_x/f.parquet", 0)
    ));
    assert!(split_of("/t/_x/part-0.parquet", 1, &known).unwrap().is_none());
    assert!(split_of("/t//_x/part-0.parquet", 1, &known).unwrap().is_none());
    assert!(split_of("/elsewhere/_x/part-0.parquet", 1, &known).unwrap().is_some());
}

#[test]
fn test_a_partition_that_is_enumerated_twice_is_read_once() {
    let table = table(&["dt"], false, false);
    let filter = PartitionFilter::partition_set(vec![
        row(&[Some("b")]),
        row(&[Some("a")]),
        row(&[Some("b")]),
        row(&[None]),
        row(&[None]),
    ]);
    let PartitionFilter::PartitionSet { partitions } = &filter else {
        panic!("expected an enumeration");
    };
    assert_eq!(partitions.len(), 3);
    let scan = FormatTableScan::new(&table, Some(filter), None, None);
    assert_eq!(
        root_paths(&roots(&scan, vec![]).unwrap()),
        vec!["/t/dt=__DEFAULT_PARTITION__", "/t/dt=a", "/t/dt=b"]
    );
}

#[test]
fn test_a_table_without_partitions() {
    let table = table(&[], true, false);
    let scan = FormatTableScan::new(&table, None, None, None);
    let files = [("/t/b.parquet", 2), ("/t/a.parquet", 1), ("/t/_x/c.parquet", 1)];
    let planned = plan(&scan, vec![], &files).unwrap();
    assert_eq!(paths(&planned), vec!["/t/a.parquet", "/t/b.parquet"]);
    assert!(planned.splits[0].partition.values.is_empty());
}

#[test]
fn test_roots_of_a_scan_of_the_directory_tree() {
    let with_keys = table(&["dt", "hh"], false, false);
    let whole = FormatTableScan::new(&with_keys, None, None, None);
    assert_eq!(root_paths(&roots(&whole, vec![]).unwrap()), vec!["/t"]);
    let unpinned = FormatTableScan::new(&with_keys, meets(eq(1, "10")), None, None);
    assert_eq!(root_paths(&roots(&unpinned, vec![]).unwrap()), vec!["/t"]);
    let pinned = FormatTableScan::new(&with_keys, meets(eq(0, "a")), None, None);
    let found = roots(&pinned, vec![]).unwrap();
    assert_eq!(root_paths(&found), vec!["/t/dt=a"]);
    assert!(found[0].partition.values.is_empty());
    for (only_value, expected) in [
        (false, vec!["/t/dt=a/hh=11", "/t/dt=b/hh=10"]),
        (true, vec!["/t/a/11", "/t/b/10"]),
    ] {
        let table = table(&["dt", "hh"], false, only_value);
        let filter = PartitionFilter::PartitionSet {
            partitions: vec![row(&[Some("b"), Some("10")]), row(&[Some("a"), Some("11")])],
        };
        let scan = FormatTableScan::new(&table, Some(filter), None, None);
        let found = roots(&scan, vec![]).unwrap();
        assert_eq!(root_paths(&found), expected);
        assert_eq!(cells(&found[1].partition), vec![Some("b".to_string()), Some("10".to_string())]);
    }
}

#[test]
fn test_enumerated_partitions_need_their_columns() {
    let mut table = table(&["dt"], false, false);
    table.schema.fields.clear();
    let filter = PartitionFilter::PartitionSet { partitions: vec![row(&[Some("a")])] };
    let scan = FormatTableScan::new(&table, Some(filter), None, None);
    assert_eq!(
        scan.plan(&HiveDialect).unwrap_err().message(),
        "Partition column 'dt' is not a column of the table"
    );
}

#[test]
fn test_where_the_table_lies() {
    let mut table = table(&[], false, false);
    assert_eq!(start(&FormatTableScan::new(&table, None, None, None)).table_path, "/t");
    table.options.path = Some("/option//".to_string());
    assert_eq!(start(&FormatTableScan::new(&table, None, None, None)).table_path, "/option");
    table.managed_partitions = Some(LoadedFormatTablePartitionOptions {
        file_format: "ORC".to_string(),
        table_path: "/managed/".to_string(),
        only_value_in_path: false,
    });
    let begun = start(&FormatTableScan::new(&table, None, None, None));
    assert_eq!(begun.table_path, "/managed");
    assert_eq!(begun.format_extension, ".orc");
}

#[test]
fn test_what_a_scan_refuses_and_in_which_order() {
    let mut table = table(&["dt"], false, false);
    table.options.file_format = "csv".to_string();
    table.options.read_refused = Some(Error::Unsupported { message: "not allowed".to_string() });
    let ranged = || {
        FormatTableScan::new(&table, None, None, None)
            .with_row_ranges(vec![RowRange { from: 0, to: 1 }])
    };
    assert_eq!(ranged().plan(&HiveDialect).unwrap_err().message(), "not allowed");
    assert_eq!(
        ranged().begin_plan(&HiveDialect).unwrap_err().message(),
        "Row ranges are not supported for format tables"
    );
    let plain = FormatTableScan::new(&table, None, None, None);
    assert!(plain.begin_plan(&HiveDialect).unwrap_err().message().contains("'csv'"));
    assert!(plain.ensure_query_auth_allowed().is_err());
}

#[test]
fn test_a_directory_is_read_once() {
    let table = table(&["dt"], true, false);
    let scan = FormatTableScan::new(&table, None, None, None);
    let registered = vec![
        partition(&[("dt", "b")]),
        partition(&[("dt", "a")]),
        partition(&[("dt", "b"), ("extra", "x")]),
    ];
    assert_eq!(root_paths(&roots(&scan, registered).unwrap()), vec!["/t/dt=a", "/t/dt=b"]);
}

#[test]
fn test_invalid_catalog_metadata_names_the_table() {
    let table = table(&["dt", "hh"], true, false);
    let scan = FormatTableScan::new(&table, None, None, None);
    let error = roots(&scan, vec![partition(&[("dt", "a")])]).unwrap_err();
    let Error::DataInvalid { message, source: Some(source) } = error else {
        panic!("expected DataInvalid with a source");
    };
    assert_eq!(
        message,
        "Catalog returned invalid partition metadata for Format Table default.events"
    );
    assert_eq!(source.message(), "Catalog partition is missing column 'hh'");
}

#[test]
fn test_a_limit_of_zero_plans_nothing_and_another_one_everything() {
    let table = table(&["dt"], false, false);
    let files = [("/t/dt=a/1.parquet", 1), ("/t/dt=a/2.parquet", 2), ("/t/dt=b/3.parquet", 3)];
    for (limit, expected) in [(Some(0), 0), (Some(1), 3), (None, 3)] {
        let scan = FormatTableScan::new(&table, None, limit, None);
        assert_eq!(plan(&scan, vec![], &files).unwrap().splits.len(), expected);
    }
    let scan = FormatTableScan::new(&table, None, Some(0), None);
    let split = DataSplit::of_file(
        row(&[]),
        "/t".to_string(),
        data_file_meta("f".to_string(), 1, 0),
    );
    assert!(scan.apply_limit_pushdown(vec![split]).is_empty());
}

#[test]
fn test_splits_are_ordered_by_directory_and_name() {
    let table = table(&["dt"], false, false);
    let files = [
        ("/t/dt=b/1.parquet", 1),
        ("/t/dt=a/2.parquet", 2),
        ("/t/dt=a/10.parquet", 3),
        ("/t/dt=a-x/1.parquet", 4),
    ];
    let scan = FormatTableScan::new(&table, None, None, None);
    let planned = plan(&scan, vec![], &files).unwrap();
    assert_eq!(
        paths(&planned),
        vec![
            "/t/dt=a/10.parquet",
            "/t/dt=a/2.parquet",
            "/t/dt=a-x/1.parquet",
            "/t/dt=b/1.parquet",
        ]
    );
    let (planned, trace) = scan.plan_with_trace(planned);
    assert_eq!(planned.splits.len(), 4);
    assert_eq!(trace.final_plan, Some((4, 4, 4)));
    assert_eq!(trace.planned_data_file_bytes, 10);
}

#[test]
fn test_what_a_split_says_of_its_file() {
    let table = table(&["dt"], false, false);
    let scan = FormatTableScan::new(&table, None, None, None);
    let planned = plan(&scan, vec![], &[("/t/dt=a/f.parquet", 12)]).unwrap();
    let split = &planned.splits[0];
    assert_eq!(split.snapshot_id, 0);
    assert_eq!(split.bucket, 0);
    assert_eq!(split.bucket_path, "/t/dt=a");
    assert_eq!(split.total_buckets, 1);
    assert!(split.raw_convertible);
    assert_eq!(split.data_files.len(), 1);
    let meta = &split.data_files[0];
    assert_eq!(meta.file_name, "f.parquet");
    assert_eq!(meta.file_size, 12);
    assert_eq!(meta.schema_id, 7);
    assert_eq!(meta.row_count, None);
    assert_eq!(meta.delete_row_count, Some(0));
    assert_eq!(meta.level, 0);
    assert!(meta.min_key.is_empty() && meta.max_key.is_empty() && meta.extra_files.is_empty());
    assert!(meta.creation_time.is_none() && meta.first_row_id.is_none());
}

#[test]
fn test_a_file_without_a_size_is_asked_for() {
    let table = table(&["dt"], false, false);
    let scan = FormatTableScan::new(&table, None, None, None);
    let asks = |path: &str, size| {
        scan.needs_current_status(&HiveDialect, "/t", ".parquet", &status(path, size))
    };
    assert!(asks("/t/dt=a/f.parquet", 0));
    assert!(!asks("/t/dt=a/f.parquet", 1));
    assert!(!asks("/t/dt=a/_SUCCESS", 0));
    let split_of = |file: ListedFile| {
        scan.status_to_split(&HiveDialect, &file, "/t", ".parquet", &row(&[]))
    };
    let grown = ListedFile {
        status: status("/t/dt=a/f.parquet", 0),
        current: Ok(status("/t/dt=a/f.parquet", 5)),
    };
    assert_eq!(split_of(grown).unwrap().unwrap().data_files[0].file_size, 5);
    let gone = ListedFile {
        status: status("/t/dt=a/f.parquet", 0),
        current: Err(Error::StorageNotFound { message: "gone".to_string() }),
    };
    assert!(matches!(split_of(gone), Err(Error::StorageNotFound { .. })));
    let unread = ListedFile {
        status: status("/t/dt=a/_SUCCESS", 0),
        current: Err(Error::Other { message: "never asked".to_string() }),
    };
    assert!(split_of(unread).unwrap().is_none());
}

#[test]
fn test_a_file_that_is_too_large() {
    let table = table(&["dt"], false, false);
    let scan = FormatTableScan::new(&table, None, None, None);
    let split_of = |size| {
        scan.status_to_split(
            &HiveDialect,
            &file("/t/dt=a/f.parquet", size),
            "/t",
            ".parquet",
            &row(&[]),
        )
    };
    let largest = split_of(i64::MAX as u64).unwrap().unwrap();
    assert_eq!(largest.data_files[0].file_size, i64::MAX);
    assert_eq!(
        split_of(i64::MAX as u64 + 1).unwrap_err().message(),
        "Format table file '/t/dt=a/f.parquet' is too large to fit in i64 metadata"
    );
}

#[test]
fn test_a_known_partition_is_taken_as_it_is() {
    let table = table(&["dt"], true, false);
    let scan = FormatTableScan::new(&table, None, None, None);
    let split = scan
        .status_to_split(
            &HiveDialect,
            &file("/t/dt=a/f.parquet", 1),
            "/t",
            ".parquet",
            &row(&[Some("known")]),
        )
        .unwrap()
        .unwrap();
    assert_eq!(cells(&split.partition), vec![Some("known".to_string())]);
    let outside = scan.status_to_split(
        &HiveDialect,
        &file("/t/f.parquet", 1),
        "/t",
        ".parquet",
        &row(&[]),
    );
    assert!(outside.unwrap().is_none());
}

#[test]
fn test_a_missing_directory_holds_no_files() {
    let table = table(&["dt"], false, false);
    let scan = FormatTableScan::new(&table, None, None, None);
    let missing = Err(Error::StorageNotFound { message: "/t".to_string() });
    assert!(scan.list_status_recursive_if_exists(missing).unwrap().is_empty());
    let broken = Err(Error::Other { message: "timeout".to_string() });
    assert_eq!(scan.list_status_recursive_if_exists(broken).unwrap_err().message(), "timeout");
    let found = scan.list_status_recursive_if_exists(Ok(vec![status("/t/f", 1)]));
    assert_eq!(found.unwrap().len(), 1);
}

#[test]
fn test_a_failed_listing_fails_the_plan() {
    let table = table(&["dt"], false, false);
    let scan = FormatTableScan::new(&table, None, None, None);
    let root = || ScanRoot { path: "/t".to_string(), partition: row(&[]) };
    let listings = vec![
        RootListing { root: root(), files: Ok(vec![file("/t/dt=a/f.parquet", 1)]) },
        RootListing { root: root(), files: Err(Error::Other { message: "timeout".to_string() }) },
    ];
    let failed = scan.plan_inner(&HiveDialect, "/t", ".parquet", listings);
    assert_eq!(failed.unwrap_err().message(), "timeout");
}

#[test]
fn test_pruning_plans_what_a_full_scan_keeps() {
    let table = table(&["dt", "hh"], false, false);
    let files = [
        ("/t/dt=a/hh=10/1.parquet", 1),
        ("/t/dt=a/hh=11/2.parquet", 1),
        ("/t/dt=b/hh=10/3.parquet", 1),
    ];
    let pruned = FormatTableScan::new(
        &table,
        meets(Predicate::And(vec![eq(0, "a"), eq(1, "11")])),
        None,
        None,
    );
    assert_eq!(root_paths(&roots(&pruned, vec![]).unwrap()), vec!["/t/dt=a/hh=11"]);
    let not_pruned = FormatTableScan::new(
        &table,
        meets(Predicate::And(vec![
            leaf(0, PredicateOperator::In, &["a"]),
            leaf(1, PredicateOperator::In, &["11"]),
        ])),
        None,
        None,
    );
    assert_eq!(root_paths(&roots(&not_pruned, vec![]).unwrap()), vec!["/t"]);
    let expected = vec!["/t/dt=a/hh=11/2.parquet"];
    assert_eq!(paths(&plan(&pruned, vec![], &files).unwrap()), expected);
    assert_eq!(paths(&plan(&not_pruned, vec![], &files).unwrap()), expected);
}

#[test]
fn test_partition_matches() {
    let table = table(&["dt"], false, false);
    let all = FormatTableScan::new(&table, None, None, None);
    assert!(all.partition_matches(&HiveDialect, &row(&[None])).unwrap());
    let some = FormatTableScan::new(&table, meets(eq(0, "a")), None, None);
    assert!(some.partition_matches(&HiveDialect, &row(&[Some("a")])).unwrap());
    assert!(!some.partition_matches(&HiveDialect, &row(&[None])).unwrap());
    let set = PartitionFilter::PartitionSet { partitions: vec![row(&[None]), row(&[Some("b")])] };
    let listed = FormatTableScan::new(&table, Some(set), None, None);
    assert!(listed.partition_matches(&HiveDialect, &row(&[None])).unwrap());
    assert!(!listed.partition_matches(&HiveDialect, &row(&[Some("a")])).unwrap());
}
