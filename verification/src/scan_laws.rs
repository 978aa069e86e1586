//! What a scan reads, said of the table, the filter and the listed partitions themselves.

use vstd::prelude::*;

use crate::collect::{all_ok, lemma_all_ok_is, lemma_all_ok_values, lemma_present_ok_places};
use crate::collect::{lemma_present_ok_settled, present_ok};
use crate::dialect::{PartitionDialect, PartitionPathsView};
use crate::error::{Error, ErrorView};
use crate::files::is_start_of;
use crate::leading::{filter_run, leading_path, path_segments};
use crate::leading_laws::law_pattern_values;
use crate::listing::{is_asked_for, registered_row};
use crate::model::{field_views, BinaryRow, CatalogPartitionView, DataFieldView, Table};
use crate::order::{ascending, law_sorting_keeps_everything, law_sorting_orders, picked, text_lt};
use crate::partition::{field_names, path_values, row_path};
use crate::path::path_below;
use crate::predicate::{PartitionFilter, Predicate};
use crate::roots::{catalog_roots, directory_roots, enumerated_roots, is_repeated, table_computer};
use crate::roots::{table_paths, wanted_listing};
use crate::scan::{custom_location, invalid_metadata, partition_asked_for, root_keys, root_views};
use crate::scan::{sorted_roots, table_format, table_root, values_only, FormatTableScan, PlanStart};
use crate::scan::{ScanRootView, ScanRoots};
use crate::text::{ascii_lower, texts, trim_end};

verus! {

/// The catalog's own path, format and layout come before those of the options, and the option for
/// the path before the location. Slashes at the end of the path do not count.
pub proof fn law_where_a_table_lies(table: Table)
    ensures
        table.managed_partitions matches Some(managed) ==> table_root(table) == trim_end(
            managed.table_path@,
            '/',
        ) && table_format(table) == managed.file_format@ && values_only(table)
            == managed.only_value_in_path,
        table.managed_partitions is None ==> table_format(table) == table.options.file_format@
            && values_only(table) == table.options.only_value_in_path,
        table.managed_partitions is None && table.options.path is Some ==> table_root(table)
            == trim_end(table.options.path->0@, '/'),
        table.managed_partitions is None && table.options.path is None ==> table_root(table)
            == trim_end(table.location@, '/'),
{
}

/// Without a filter every partition is asked for; with one, those that the filter asks for.
pub proof fn law_what_is_asked_for<D: PartitionDialect>(
    dialect: D,
    filter: Option<PartitionFilter>,
    row: Seq<Option<Seq<char>>>,
)
    ensures
        filter is None ==> partition_asked_for(dialect, filter, row) == Ok::<bool, ErrorView>(true),
        filter is Some ==> partition_asked_for(dialect, filter, row) == dialect.entry_matches(
            filter->0,
            row,
        ),
{
}

/// Row ranges are refused, and then every format but the supported ones, in either case of their
/// letters.
pub proof fn law_what_a_scan_refuses<D: PartitionDialect>(
    r: Result<PlanStart, Error>,
    dialect: D,
    scan: FormatTableScan,
)
    requires
        is_start_of(r, dialect, scan),
    ensures
        scan.row_ranges is Some ==> (r matches Err(error) && error is Unsupported),
        scan.row_ranges is None ==> {
            let format = ascii_lower(table_format(*scan.table));
            let supported = format == "parquet"@ || format == "orc"@ || format == "avro"@ || format
                == "row"@ || format == "mosaic"@;
            &&& (!supported ==> (r matches Err(error) && error is Unsupported))
            &&& (r matches Ok(start) ==> supported && start.format_extension@ == seq!['.'] + format)
        },
{
    let all = crate::format::supported_formats();
    let format = ascii_lower(table_format(*scan.table));
    assert(all[0] == "parquet"@ && all[1] == "orc"@ && all[2] == "avro"@ && all[3] == "row"@
        && all[4] == "mosaic"@);
    if all.contains(format) {
        let i = choose|i: int| 0 <= i < all.len() && all[i] == format;
    }
    if let Err(error) = r {
        match error {
            Error::Unsupported { .. } => {},
            Error::DataInvalid { .. } => {},
            Error::StorageNotFound { .. } => {},
            Error::NotImplemented { .. } => {},
            Error::Other { .. } => {},
        }
    }
}

/// The catalog is asked exactly where it manages the partitions of a partitioned table. Otherwise a
/// scan without partition columns or without a filter reads the whole table, at its path without
/// slashes at the end.
pub proof fn law_where_a_scan_reads<D: PartitionDialect>(
    start: PlanStart,
    dialect: D,
    scan: FormatTableScan,
)
    requires
        is_start_of(Ok(start), dialect, scan),
    ensures
        start.table_path@ == table_root(*scan.table),
        start.roots is Catalog <==> scan.table.managed_partitions is Some
            && scan.table.schema.partition_keys@.len() > 0,
        scan.table.schema.partition_keys@.len() == 0 || (scan.table.managed_partitions is None
            && scan.partition_filter is None) ==> (start.roots matches ScanRoots::Ready { roots }
            && roots@.len() == 1 && roots@[0].path@ == start.table_path@
            && roots@[0].partition@.len() == 0),
{
    if let ScanRoots::Ready { roots } = start.roots {
        let all = directory_roots(
            dialect,
            *scan.table,
            scan.partition_filter,
            table_root(*scan.table),
        )->Ok_0;
        let positions = choose|positions: Seq<int>|
            #[trigger] ascending(positions, root_keys(all)) && root_views(roots@) == picked(
                all,
                positions,
            );
        if all.len() == 1 {
            assert(positions.len() == 1);
            assert(0 <= positions[0] < 1);
            assert(root_views(roots@).len() == 1);
            assert(roots@.len() == 1);
            assert(picked(all, positions)[0] == all[0]);
            assert(root_views(roots@)[0] == roots@[0]@);
            assert(roots@[0]@ == all[0]);
        }
    }
}

/// Where the catalog is asked, the predicate of the scan goes along, in pages of a thousand; an
/// enumeration, or no filter at all, asks by the pattern alone, and without a filter there is none.
pub proof fn law_what_the_catalog_is_asked<D: PartitionDialect>(
    dialect: D,
    table: Table,
    filter: Option<PartitionFilter>,
    only_value_in_path: bool,
)
    ensures
        ({
            let listing = wanted_listing(dialect, table, filter, only_value_in_path);
            &&& (filter is None ==> listing is Ok && listing->Ok_0.pattern is None)
            &&& (listing is Ok ==> (listing->Ok_0.by_predicate <==> filter is Some && filter->0
                is Predicate))
            &&& (listing is Ok ==> listing->Ok_0.max_results == if listing->Ok_0.by_predicate {
                Some(1000u32)
            } else {
                None
            })
            &&& (listing is Err ==> filter is Some && filter_run(
                dialect,
                filter->0,
                field_views(table.schema.partition_fields@),
                table.options.partition_default_name@,
                table.options.legacy_partition_name,
            ) is Err)
        }),
{
}

/// The directories of enumerated partitions are one for each row, in the order of the rows: the
/// path of the row below the table directory.
pub proof fn law_enumerated_directories<D: PartitionDialect>(
    dialect: D,
    table: Table,
    table_path: Seq<char>,
    partitions: Seq<BinaryRow>,
    roots: Seq<ScanRootView>,
    i: int,
)
    requires
        all_ok(enumerated_roots(dialect, table, table_path, partitions)) == Ok::<
            Seq<ScanRootView>,
            ErrorView,
        >(roots),
        0 <= i < partitions.len(),
    ensures
        roots.len() == partitions.len(),
        roots[i].partition == partitions[i]@,
        table.options.only_value_in_path ==> (row_path(
            dialect,
            partitions[i]@,
            field_views(table.schema.partition_fields@),
            table.options.partition_default_name@,
            table.options.legacy_partition_name,
            true,
        ) matches Ok(path) && roots[i].path == path_below(table_path, path)),
        !table.options.only_value_in_path ==> (dialect.computed_path(
            table_computer(table),
            partitions[i]@,
        ) matches Ok(path) && roots[i].path == path_below(table_path, path)),
{
    let outcomes = enumerated_roots(dialect, table, table_path, partitions);
    lemma_all_ok_values(outcomes);
    assert(outcomes[i] == Ok::<ScanRootView, ErrorView>(roots[i]));
}

/// Directories are read in the order of their paths, none is left out and none is added.
pub proof fn law_roots_are_in_order(sorted: Seq<ScanRootView>, roots: Seq<ScanRootView>)
    requires
        sorted_roots(sorted, roots),
    ensures
        sorted.len() == roots.len(),
        forall|i: int, j: int|
            0 <= i < j < sorted.len() ==> !text_lt(
                (#[trigger] sorted[j]).path,
                (#[trigger] sorted[i]).path,
            ),
        forall|root: ScanRootView| #[trigger] sorted.contains(root) <==> roots.contains(root),
{
    let keys = root_keys(roots);
    let positions = choose|positions: Seq<int>|
        #[trigger] ascending(positions, keys) && sorted == picked(roots, positions);
    law_sorting_keeps_everything(positions, keys);
    assert forall|i: int, j: int| 0 <= i < j < sorted.len() implies !text_lt(
        (#[trigger] sorted[j]).path,
        (#[trigger] sorted[i]).path,
    ) by {
        law_sorting_orders(roots, positions, keys, i, j);
        assert(0 <= positions[j] < roots.len());
        assert(sorted[i] == roots[positions[i]]);
        assert(sorted[j] == roots[positions[j]]);
    }
    assert forall|root: ScanRootView| #[trigger] sorted.contains(root) <==> roots.contains(
        root,
    ) by {
        if sorted.contains(root) {
            let i = choose|i: int| 0 <= i < sorted.len() && sorted[i] == root;
            assert(0 <= positions[i] < roots.len());
            assert(roots[positions[i]] == root);
        }
        if roots.contains(root) {
            let k = choose|k: int| 0 <= k < roots.len() && roots[k] == root;
            assert(positions.contains(k));
            let i = choose|i: int| 0 <= i < positions.len() && positions[i] == k;
            assert(sorted[i] == root);
        }
    }
}

/// Each directory that a catalog-managed scan reads is that of a listed partition that the scan
/// asks for and that has no location of its own, with the row of that partition; and no directory
/// is read for two partitions.
pub proof fn law_catalog_directories<D: PartitionDialect>(
    dialect: D,
    table: Table,
    filter: Option<PartitionFilter>,
    table_path: Seq<char>,
    only_value_in_path: bool,
    partitions: Seq<CatalogPartitionView>,
    roots: Seq<ScanRootView>,
) -> (indices: Seq<int>)
    requires
        present_ok(
            catalog_roots(dialect, table, filter, table_path, only_value_in_path, partitions),
        ) == Ok::<Seq<ScanRootView>, ErrorView>(roots),
    ensures
        indices.len() == roots.len(),
        forall|j: int|
            0 <= j < indices.len() ==> 0 <= #[trigger] indices[j] < partitions.len()
                && is_asked_for(dialect, table, filter, partitions[indices[j]]) && registered_row(
                dialect,
                table,
                partitions[indices[j]].spec,
            ) == Ok::<Seq<Option<Seq<char>>>, ErrorView>(roots[j].partition) && (
            dialect.catalog_path(
                table_paths(table, only_value_in_path),
                partitions[indices[j]].spec,
            ) matches Ok(path) && roots[j].path == path_below(table_path, path)) && (
            partitions[indices[j]].options is None
                || !partitions[indices[j]].options->0.contains_key("path"@)),
        forall|j: int, k: int|
            0 <= j < k < indices.len() ==> dialect.catalog_path(
                table_paths(table, only_value_in_path),
                partitions[#[trigger] indices[j]].spec,
            ) != dialect.catalog_path(
                table_paths(table, only_value_in_path),
                partitions[#[trigger] indices[k]].spec,
            ),
        forall|i: int|
            0 <= i < partitions.len() ==> dialect.catalog_path(
                table_paths(table, only_value_in_path),
                (#[trigger] partitions[i]).spec,
            ) is Ok,
{
    let paths = table_paths(table, only_value_in_path);
    let outcomes = catalog_roots(
        dialect,
        table,
        filter,
        table_path,
        only_value_in_path,
        partitions,
    );
    let indices = lemma_present_ok_places(outcomes, roots);
    assert forall|j: int| 0 <= j < indices.len() implies 0 <= #[trigger] indices[j]
        < partitions.len() && is_asked_for(dialect, table, filter, partitions[indices[j]])
        && registered_row(dialect, table, partitions[indices[j]].spec) == Ok::<
        Seq<Option<Seq<char>>>,
        ErrorView,
    >(roots[j].partition) && (dialect.catalog_path(
        paths,
        partitions[indices[j]].spec,
    ) matches Ok(path) && roots[j].path == path_below(table_path, path)) && (
    partitions[indices[j]].options is None || !partitions[indices[j]].options->0.contains_key(
        "path"@,
    )) by {
        assert(outcomes[indices[j]] == Ok::<Option<ScanRootView>, ErrorView>(Some(roots[j])));
        assert(!partitions[indices[j]].has_custom_location());
    }
    assert forall|j: int, k: int| 0 <= j < k < indices.len() implies dialect.catalog_path(
        paths,
        partitions[#[trigger] indices[j]].spec,
    ) != dialect.catalog_path(paths, partitions[#[trigger] indices[k]].spec) by {
        assert(indices[j] < indices[k]);
        assert(outcomes[indices[k]] == Ok::<Option<ScanRootView>, ErrorView>(Some(roots[k])));
        assert(!is_repeated(dialect, paths, partitions, indices[k]));
    }
    assert forall|i: int| 0 <= i < partitions.len() implies dialect.catalog_path(
        paths,
        (#[trigger] partitions[i]).spec,
    ) is Ok by {
        if indices.contains(i) {
            let j = choose|j: int| 0 <= j < indices.len() && indices[j] == i;
            assert(outcomes[indices[j]] is Ok);
        } else {
            assert(outcomes[i] == Ok::<Option<ScanRootView>, ErrorView>(None));
        }
    }
    indices
}

/// A partition that the catalog lists and that gives no directory or no row is an error that names
/// the table, unless its directory was listed before.
pub proof fn law_invalid_registrations<D: PartitionDialect>(
    dialect: D,
    table: Table,
    filter: Option<PartitionFilter>,
    table_path: Seq<char>,
    only_value_in_path: bool,
    partitions: Seq<CatalogPartitionView>,
    i: int,
)
    requires
        0 <= i < partitions.len(),
        dialect.catalog_path(table_paths(table, only_value_in_path), partitions[i].spec) is Err || (
        registered_row(dialect, table, partitions[i].spec) is Err && forall|j: int|
            0 <= j < i ==> dialect.catalog_path(
                table_paths(table, only_value_in_path),
                (#[trigger] partitions[j]).spec,
            ) != dialect.catalog_path(
                table_paths(table, only_value_in_path),
                partitions[i].spec,
            )),
    ensures
        present_ok(
            catalog_roots(dialect, table, filter, table_path, only_value_in_path, partitions),
        ) is Err,
{
    let paths = table_paths(table, only_value_in_path);
    let outcomes = catalog_roots(
        dialect,
        table,
        filter,
        table_path,
        only_value_in_path,
        partitions,
    );
    assert(outcomes[i] is Err) by {
        if is_repeated(dialect, paths, partitions, i) {
            let j = choose|j: int|
                0 <= j < i && #[trigger] dialect.catalog_path(paths, partitions[j].spec)
                    == dialect.catalog_path(paths, partitions[i].spec);
            assert(partitions[j] == partitions[j]);
        }
    }
    if present_ok(outcomes) is Ok {
        let roots = present_ok(outcomes)->Ok_0;
        let indices = lemma_present_ok_places(outcomes, roots);
        if indices.contains(i) {
            let j = choose|j: int| 0 <= j < indices.len() && indices[j] == i;
            assert(outcomes[indices[j]] is Ok);
        }
    }
}

/// The layout of partition directories goes by the partition keys of the table, in their order, and
/// paths of rows go by these keys, the columns and the options of the table.
pub proof fn law_layouts(table: Table, only_value_in_path: bool)
    ensures
        table_paths(table, only_value_in_path).partition_keys == texts(
            table.schema.partition_keys@,
        ),
        table_paths(table, only_value_in_path).only_value_in_path == only_value_in_path,
        table_computer(table).partition_keys == texts(table.schema.partition_keys@),
        table_computer(table).fields == field_views(table.schema.fields@),
        table_computer(table).default_partition_name == table.options.partition_default_name@,
        table_computer(table).legacy_partition_name == table.options.legacy_partition_name,
{
}

/// The pattern that the catalog is asked by is that of the leading values which the filter pins, as
/// far as they are those of character columns, and all of them.
pub proof fn law_the_pattern_is_that_of_the_pinned_values<D: PartitionDialect>(
    dialect: D,
    table: Table,
    filter: PartitionFilter,
    only_value_in_path: bool,
    run: Seq<Seq<char>>,
    count: int,
)
    requires
        filter_run(
            dialect,
            filter,
            field_views(table.schema.partition_fields@),
            table.options.partition_default_name@,
            table.options.legacy_partition_name,
        ) == Ok::<Seq<Seq<char>>, ErrorView>(run),
        0 <= count <= run.len() <= table.schema.partition_fields@.len(),
        forall|i: int|
            0 <= i < count ==> (#[trigger] table.schema.partition_fields@[i]).data_type.kind
                is Character,
        count < run.len() ==> !(table.schema.partition_fields@[count].data_type.kind is Character),
    ensures
        wanted_listing(dialect, table, Some(filter), only_value_in_path) matches Ok(listing)
            && listing.pattern == dialect.name_pattern(
            PartitionPathsView {
                partition_keys: texts(table.schema.partition_keys@),
                only_value_in_path,
            },
            run.take(count),
        ),
{
    let fields = field_views(table.schema.partition_fields@);
    assert forall|i: int| 0 <= i < count implies (#[trigger] fields[i]).data_type.kind
        is Character by {
        assert(table.schema.partition_fields@[i].data_type.kind is Character);
    }
    law_pattern_values(fields, run, count);
}

/// The directory that a predicate leads to is that of the row of all the values that it pins, cut
/// to the columns of these values; there is one exactly where it pins any.
pub proof fn law_the_leading_directory_is_that_of_the_pinned_values<D: PartitionDialect>(
    dialect: D,
    table_path: Seq<char>,
    fields: Seq<DataFieldView>,
    predicate: Predicate,
    default_partition_name: Seq<char>,
    legacy_partition_name: bool,
    only_value_in_path: bool,
    run: Seq<Seq<char>>,
    row: Seq<Option<Seq<char>>>,
)
    requires
        filter_run(
            dialect,
            PartitionFilter::Predicate(predicate),
            fields,
            default_partition_name,
            legacy_partition_name,
        ) == Ok::<Seq<Seq<char>>, ErrorView>(run),
        row.len() == run.len(),
        run.len() <= fields.len(),
        forall|i: int|
            0 <= i < row.len() ==> (#[trigger] row[i]) is Some && dialect.formatted(
                row[i]->0,
                fields[i].data_type,
                default_partition_name,
                legacy_partition_name,
            ) == Some(run[i]),
    ensures
        ({
            let root = leading_path(
                dialect,
                table_path,
                field_names(fields),
                fields,
                predicate,
                default_partition_name,
                legacy_partition_name,
                only_value_in_path,
            );
            &&& (root is Some <==> run.len() > 0)
            &&& (root is Some ==> (row_path(
                dialect,
                row,
                fields.take(run.len() as int),
                default_partition_name,
                legacy_partition_name,
                only_value_in_path,
            ) matches Ok(path) && root == Some(path_below(table_path, path))))
        }),
{
    let first = fields.take(run.len() as int);
    let outcomes = path_values(dialect, row, first, default_partition_name, legacy_partition_name);
    assert forall|i: int| 0 <= i < outcomes.len() implies #[trigger] outcomes[i] == Ok::<
        Seq<char>,
        ErrorView,
    >(run[i]) by {
        assert(row[i] is Some);
        assert(first[i] == fields[i]);
    }
    lemma_all_ok_is(outcomes, run);
    assert(path_segments(dialect, field_names(fields), run, only_value_in_path) =~= path_segments(
        dialect,
        field_names(first),
        run,
        only_value_in_path,
    )) by {
        assert forall|i: int| 0 <= i < run.len() implies field_names(fields)[i] == field_names(
            first,
        )[i] by {
            assert(first[i] == fields[i]);
        }
    }
}

/// Where the directory tree says which partitions there are, a predicate leads to the one directory
/// of its pinned values, or to the whole table where it pins none; an enumeration leads to the
/// directories of its rows; without a filter the whole table is read.
pub proof fn law_directories_of_a_scan<D: PartitionDialect>(
    dialect: D,
    table: Table,
    filter: Option<PartitionFilter>,
    table_path: Seq<char>,
)
    requires
        table.schema.partition_keys@.len() > 0,
    ensures
        ({
            let roots = directory_roots(dialect, table, filter, table_path);
            let leading = |predicate: Predicate|
                leading_path(
                    dialect,
                    table_path,
                    texts(table.schema.partition_keys@),
                    field_views(table.schema.partition_fields@),
                    predicate,
                    table.options.partition_default_name@,
                    table.options.legacy_partition_name,
                    table.options.only_value_in_path,
                );
            &&& (filter is None ==> roots is Ok && roots->Ok_0.len() == 1 && roots->Ok_0[0].path
                == table_path && roots->Ok_0[0].partition.len() == 0)
            &&& (filter is Some && filter->0 is Predicate ==> roots is Ok && roots->Ok_0.len() == 1
                && roots->Ok_0[0].partition.len() == 0 && roots->Ok_0[0].path == if leading(
                filter->0->Predicate_0,
            ) is Some {
                leading(filter->0->Predicate_0)->0
            } else {
                table_path
            })
            &&& (filter is Some && filter->0 is PartitionSet && dialect.computer_check(
                table_computer(table),
            ) is Ok ==> roots == all_ok(
                enumerated_roots(dialect, table, table_path, filter->0->partitions@),
            ))
            &&& (filter is Some && filter->0 is PartitionSet && dialect.computer_check(
                table_computer(table),
            ) is Err ==> roots is Err)
        }),
{
}

/// Whether a listed partition is no reason for a scan to fail: it gives a directory and a row, the
/// filter can say whether it asks for it, and where it does the partition has no location of its
/// own.
pub open spec fn is_acceptable<D: PartitionDialect>(
    dialect: D,
    table: Table,
    filter: Option<PartitionFilter>,
    only_value_in_path: bool,
    partition: CatalogPartitionView,
) -> bool {
    &&& dialect.catalog_path(table_paths(table, only_value_in_path), partition.spec) is Ok
    &&& registered_row(dialect, table, partition.spec) is Ok
    &&& partition_asked_for(
        dialect,
        filter,
        registered_row(dialect, table, partition.spec)->Ok_0,
    ) is Ok
    &&& is_asked_for(dialect, table, filter, partition) ==> partition.options is None
        || !partition.options->0.contains_key("path"@)
}

proof fn lemma_present_ok_front<T, E>(outcomes: Seq<Result<Option<T>, E>>)
    requires
        forall|i: int| 0 <= i < outcomes.len() ==> #[trigger] outcomes[i] is Ok,
    ensures
        present_ok(outcomes) is Ok,
    decreases outcomes.len(),
{
    if outcomes.len() > 0 {
        let front = outcomes.drop_last();
        assert forall|i: int| 0 <= i < front.len() implies #[trigger] front[i] is Ok by {
            assert(outcomes[i] is Ok);
        }
        lemma_present_ok_front(front);
        assert(outcomes[outcomes.len() - 1] is Ok);
    }
}

/// A catalog-managed scan succeeds where every listed partition is acceptable. A partition that has
/// a location of its own, and that the scan does not ask for, is no reason to fail.
pub proof fn law_a_catalog_scan_succeeds<D: PartitionDialect>(
    dialect: D,
    table: Table,
    filter: Option<PartitionFilter>,
    table_path: Seq<char>,
    only_value_in_path: bool,
    partitions: Seq<CatalogPartitionView>,
)
    requires
        forall|i: int|
            0 <= i < partitions.len() ==> is_acceptable(
                dialect,
                table,
                filter,
                only_value_in_path,
                #[trigger] partitions[i],
            ),
    ensures
        present_ok(
            catalog_roots(dialect, table, filter, table_path, only_value_in_path, partitions),
        ) is Ok,
{
    let outcomes = catalog_roots(
        dialect,
        table,
        filter,
        table_path,
        only_value_in_path,
        partitions,
    );
    assert forall|i: int| 0 <= i < outcomes.len() implies #[trigger] outcomes[i] is Ok by {
        assert(is_acceptable(dialect, table, filter, only_value_in_path, partitions[i]));
    }
    lemma_present_ok_front(outcomes);
}

/// A catalog-managed scan fails for the first listed partition that is not acceptable, unless its
/// directory was listed before: with what is wrong with the directory, else with what is wrong with
/// the row, else with why the filter cannot say, else with its location.
pub proof fn law_a_catalog_scan_fails<D: PartitionDialect>(
    dialect: D,
    table: Table,
    filter: Option<PartitionFilter>,
    table_path: Seq<char>,
    only_value_in_path: bool,
    partitions: Seq<CatalogPartitionView>,
    i: int,
)
    requires
        0 <= i < partitions.len(),
        forall|j: int|
            0 <= j < i ==> is_acceptable(
                dialect,
                table,
                filter,
                only_value_in_path,
                #[trigger] partitions[j],
            ) && dialect.catalog_path(
                table_paths(table, only_value_in_path),
                partitions[j].spec,
            ) != dialect.catalog_path(
                table_paths(table, only_value_in_path),
                partitions[i].spec,
            ),
        !is_acceptable(dialect, table, filter, only_value_in_path, partitions[i]),
    ensures
        present_ok(
            catalog_roots(dialect, table, filter, table_path, only_value_in_path, partitions),
        ) == Err::<Seq<ScanRootView>, ErrorView>({
            let path = dialect.catalog_path(
                table_paths(table, only_value_in_path),
                partitions[i].spec,
            );
            let row = registered_row(dialect, table, partitions[i].spec);
            if path is Err {
                invalid_metadata(table, path->Err_0)
            } else if row is Err {
                invalid_metadata(table, row->Err_0)
            } else if partition_asked_for(dialect, filter, row->Ok_0) is Err {
                partition_asked_for(dialect, filter, row->Ok_0)->Err_0
            } else {
                custom_location(table, path->Ok_0)
            }
        }),
{
    let paths = table_paths(table, only_value_in_path);
    let outcomes = catalog_roots(
        dialect,
        table,
        filter,
        table_path,
        only_value_in_path,
        partitions,
    );
    let front = outcomes.take(i);
    assert forall|j: int| 0 <= j < front.len() implies #[trigger] front[j] is Ok by {
        assert(is_acceptable(dialect, table, filter, only_value_in_path, partitions[j]));
    }
    lemma_present_ok_front(front);
    if is_repeated(dialect, paths, partitions, i) {
        let j = choose|j: int|
            0 <= j < i && #[trigger] dialect.catalog_path(paths, partitions[j].spec)
                == dialect.catalog_path(paths, partitions[i].spec);
        assert(partitions[j] == partitions[j]);
    }
    assert(outcomes[i] is Err);
    assert(outcomes.take(i + 1).drop_last() =~= front);
    assert(outcomes.take(i + 1).last() == outcomes[i]);
    lemma_present_ok_settled(outcomes, i + 1);
}

} // verus!
