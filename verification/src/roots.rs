//! The directories that a scan reads.

use vstd::hash_set::StringHashSet;
use vstd::prelude::*;
use vstd::string::*;

use crate::collect::{all_ok, lemma_all_ok_settled, lemma_all_ok_step, lemma_all_ok_values};
use crate::collect::{lemma_present_ok_places, lemma_present_ok_settled, lemma_present_ok_step};
use crate::collect::present_ok;
use crate::dialect::{FormatTablePartitionPaths, PartitionComputer, PartitionComputerView};
use crate::dialect::{PartitionDialect, PartitionPathsView};
use crate::error::{Error, ErrorView};
use crate::leading::{filter_run, leading_equality_partition_path};
use crate::leading::{leading_equality_partition_values, leading_path, leading_somes};
use crate::leading::lemma_leading_somes_is;
use crate::model::{field_views, partition_views, row_views, BinaryRow, CatalogPartition};
use crate::model::{CatalogPartitionView, DataField, DataFieldView};
use crate::model::{LoadedFormatTablePartitionOptions, Table};
use crate::order::{ascending, law_sorting_is_unique, order_keys, picked, sort_by_key};
use crate::partition::{partition_path_from_row, partition_row_from_catalog_spec, row_path};
use crate::partition::spec_values;
use crate::path::{join_path, path_below};
use crate::predicate::PartitionFilter;
use crate::scan::{custom_location, invalid_metadata, partition_asked_for, root_keys, root_views};
use crate::scan::{sorted_roots, CatalogListing, CatalogListingView, FormatTableScan};
use crate::scan::{PREDICATE_PAGE_SIZE, ScanRoot, ScanRootView, ScanRoots};
use crate::text::texts;

verus! {

/// The leading values that belong to character columns.
///
/// The catalog holds partition values as they were registered, so a value of another type may be
/// registered under a spelling that a literal is never formatted to. Only a character value has
/// a single spelling, and only such values can go into a pattern of names without losing
/// partitions (`listing::law_pattern_values_are_registered`).
pub open spec fn character_values(fields: Seq<DataFieldView>, values: Seq<Seq<char>>) -> Seq<
    Seq<char>,
> {
    leading_somes(
        Seq::new(
            if fields.len() < values.len() {
                fields.len()
            } else {
                values.len()
            },
            |i: int|
                if fields[i].data_type.kind is Character {
                    Some(values[i])
                } else {
                    None
                },
        ),
    )
}

/// The layout of the partition directories of a table.
pub open spec fn table_paths(table: Table, only_value_in_path: bool) -> PartitionPathsView {
    PartitionPathsView {
        partition_keys: texts(table.schema.partition_keys@),
        only_value_in_path,
    }
}

/// The listing to ask the catalog for: the partitions that the filter can reach, as far as a
/// pattern of names can say it, with the predicate itself, and in pages, where the filter is one.
pub open spec fn wanted_listing<D: PartitionDialect>(
    dialect: D,
    table: Table,
    filter: Option<PartitionFilter>,
    only_value_in_path: bool,
) -> Result<CatalogListingView, ErrorView> {
    let fields = field_views(table.schema.partition_fields@);
    match filter {
        None => Ok(
            CatalogListingView { pattern: None, by_predicate: false, max_results: None },
        ),
        Some(filter) => match filter_run(
            dialect,
            filter,
            fields,
            table.options.partition_default_name@,
            table.options.legacy_partition_name,
        ) {
            Err(error) => Err(error),
            Ok(values) => Ok(
                CatalogListingView {
                    pattern: dialect.name_pattern(
                        table_paths(table, only_value_in_path),
                        character_values(fields, values),
                    ),
                    by_predicate: filter is Predicate,
                    max_results: if filter is Predicate {
                        Some(PREDICATE_PAGE_SIZE)
                    } else {
                        None
                    },
                },
            ),
        },
    }
}

/// What a result that is a listing or an error says.
pub open spec fn listing_result(r: Result<CatalogListing, Error>) -> Result<
    CatalogListingView,
    ErrorView,
> {
    match r {
        Ok(listing) => Ok(listing@),
        Err(error) => Err(error@),
    }
}

/// The whole table, of unknown partition.
pub open spec fn whole_table(table_path: Seq<char>) -> ScanRootView {
    ScanRootView { path: table_path, partition: Seq::empty() }
}

/// What the path of a partition row is computed from.
pub open spec fn table_computer(table: Table) -> PartitionComputerView {
    PartitionComputerView {
        partition_keys: texts(table.schema.partition_keys@),
        fields: field_views(table.schema.fields@),
        default_partition_name: table.options.partition_default_name@,
        legacy_partition_name: table.options.legacy_partition_name,
    }
}

/// The directory of an enumerated partition.
pub open spec fn enumerated_root<D: PartitionDialect>(
    dialect: D,
    table: Table,
    table_path: Seq<char>,
    row: Seq<Option<Seq<char>>>,
) -> Result<ScanRootView, ErrorView> {
    let path = if table.options.only_value_in_path {
        row_path(
            dialect,
            row,
            field_views(table.schema.partition_fields@),
            table.options.partition_default_name@,
            table.options.legacy_partition_name,
            true,
        )
    } else {
        dialect.computed_path(table_computer(table), row)
    };
    match path {
        Err(error) => Err(error),
        Ok(path) => Ok(ScanRootView { path: path_below(table_path, path), partition: row }),
    }
}

/// The directories of the enumerated partitions.
pub open spec fn enumerated_roots<D: PartitionDialect>(
    dialect: D,
    table: Table,
    table_path: Seq<char>,
    rows: Seq<BinaryRow>,
) -> Seq<Result<ScanRootView, ErrorView>> {
    Seq::new(rows.len(), |i: int| enumerated_root(dialect, table, table_path, rows[i]@))
}

/// The directories that a scan reads where the directory tree says which partitions there are:
/// those of the enumerated partitions, or the one that a predicate leads to, or the whole table.
pub open spec fn directory_roots<D: PartitionDialect>(
    dialect: D,
    table: Table,
    filter: Option<PartitionFilter>,
    table_path: Seq<char>,
) -> Result<Seq<ScanRootView>, ErrorView> {
    if table.schema.partition_keys@.len() == 0 {
        Ok(seq![whole_table(table_path)])
    } else {
        match filter {
            None => Ok(seq![whole_table(table_path)]),
            Some(PartitionFilter::Predicate(predicate)) => match leading_path(
                dialect,
                table_path,
                texts(table.schema.partition_keys@),
                field_views(table.schema.partition_fields@),
                predicate,
                table.options.partition_default_name@,
                table.options.legacy_partition_name,
                table.options.only_value_in_path,
            ) {
                Some(path) => Ok(seq![ScanRootView { path, partition: Seq::empty() }]),
                None => Ok(seq![whole_table(table_path)]),
            },
            Some(PartitionFilter::PartitionSet { partitions }) => match dialect.computer_check(
                table_computer(table),
            ) {
                Err(error) => Err(error),
                Ok(_) => all_ok(enumerated_roots(dialect, table, table_path, partitions@)),
            },
        }
    }
}

/// Whether the partition at `index` has the directory of one listed before it.
pub open spec fn is_repeated<D: PartitionDialect>(
    dialect: D,
    paths: PartitionPathsView,
    partitions: Seq<CatalogPartitionView>,
    index: int,
) -> bool {
    exists|j: int|
        0 <= j < index && #[trigger] dialect.catalog_path(paths, partitions[j].spec)
            == dialect.catalog_path(paths, partitions[index].spec)
}

/// What becomes of the partition at `index` of a catalog listing: the directory to read for it,
/// or none where the directory was listed before or the scan does not ask for the partition.
pub open spec fn catalog_root<D: PartitionDialect>(
    dialect: D,
    table: Table,
    filter: Option<PartitionFilter>,
    table_path: Seq<char>,
    only_value_in_path: bool,
    partitions: Seq<CatalogPartitionView>,
    index: int,
) -> Result<Option<ScanRootView>, ErrorView> {
    let paths = table_paths(table, only_value_in_path);
    match dialect.catalog_path(paths, partitions[index].spec) {
        Err(error) => Err(invalid_metadata(table, error)),
        Ok(path) => if is_repeated(dialect, paths, partitions, index) {
            Ok(None)
        } else {
            match all_ok(
                spec_values(
                    dialect,
                    partitions[index].spec,
                    field_views(table.schema.partition_fields@),
                    texts(table.schema.partition_keys@),
                    table.options.partition_default_name@,
                ),
            ) {
                Err(error) => Err(invalid_metadata(table, error)),
                Ok(row) => match partition_asked_for(dialect, filter, row) {
                    Err(error) => Err(error),
                    Ok(false) => Ok(None),
                    Ok(true) => if partitions[index].has_custom_location() {
                        Err(custom_location(table, path))
                    } else {
                        Ok(
                            Some(
                                ScanRootView { path: path_below(table_path, path), partition: row },
                            ),
                        )
                    },
                },
            }
        },
    }
}

/// What becomes of each partition of a catalog listing.
pub open spec fn catalog_roots<D: PartitionDialect>(
    dialect: D,
    table: Table,
    filter: Option<PartitionFilter>,
    table_path: Seq<char>,
    only_value_in_path: bool,
    partitions: Seq<CatalogPartitionView>,
) -> Seq<Result<Option<ScanRootView>, ErrorView>> {
    Seq::new(
        partitions.len(),
        |i: int|
            catalog_root(dialect, table, filter, table_path, only_value_in_path, partitions, i),
    )
}

/// Puts the directories in the order of their paths.
fn sort_roots(roots: Vec<ScanRoot>) -> (r: Vec<ScanRoot>)
    ensures
        sorted_roots(root_views(r@), root_views(roots@)),
{
    let ghost given = roots@;
    let sorted = sort_by_key(roots);
    proof {
        let positions = choose|positions: Seq<int>|
            #[trigger] ascending(positions, order_keys(given)) && sorted@ == picked(
                given,
                positions,
            );
        assert(order_keys(given) =~= root_keys(root_views(given)));
        assert(root_views(sorted@) =~= picked(root_views(given), positions));
    }
    sorted
}

/// The values of the leading character columns.
fn leading_character_values(partition_fields: &Vec<DataField>, values: Vec<String>) -> (r: Vec<
    String,
>)
    ensures
        texts(r@) == character_values(field_views(partition_fields@), texts(values@)),
{
    let ghost fields = field_views(partition_fields@);
    let ghost all = texts(values@);
    let ghost marked = Seq::new(
        if fields.len() < all.len() {
            fields.len()
        } else {
            all.len()
        },
        |i: int|
            if fields[i].data_type.kind is Character {
                Some(all[i])
            } else {
                None
            },
    );
    let mut r: Vec<String> = Vec::new();
    let mut i: usize = 0;
    while i < partition_fields.len() && i < values.len() && partition_fields[i].data_type.is_character()
        invariant
            0 <= i <= partition_fields@.len(),
            i <= values@.len(),
            fields == field_views(partition_fields@),
            all == texts(values@),
            marked == Seq::new(
                if fields.len() < all.len() {
                    fields.len()
                } else {
                    all.len()
                },
                |i: int|
                    if fields[i].data_type.kind is Character {
                        Some(all[i])
                    } else {
                        None
                    },
            ),
            r@.len() == i,
            forall|j: int| 0 <= j < i ==> #[trigger] marked[j] == Some(r@[j]@),
        decreases partition_fields@.len() - i,
    {
        assert(fields[i as int] == partition_fields@[i as int]@);
        r.push(values[i].clone());
        i = i + 1;
    }
    proof {
        if i < marked.len() {
            assert(fields[i as int] == partition_fields@[i as int]@);
        }
        lemma_leading_somes_is(marked, texts(r@));
    }
    r
}

impl<'a> FormatTableScan<'a> {
    /// The listing that the catalog is asked for. Downloading every registration of a table with
    /// many partitions is what dominates planning, so only those are asked for that the filter
    /// can reach; what is scanned is decided when they are there.
    fn catalog_listing<D: PartitionDialect>(
        &self,
        dialect: &D,
        managed_options: &LoadedFormatTablePartitionOptions,
    ) -> (r: Result<CatalogListing, Error>)
        ensures
            listing_result(r) == wanted_listing(
                *dialect,
                *self.table,
                self.partition_filter,
                managed_options.only_value_in_path,
            ),
    {
        match &self.partition_filter {
            None => Ok(CatalogListing { pattern: None, by_predicate: false, max_results: None }),
            Some(filter) => {
                let table = self.table;
                let values = match leading_equality_partition_values(
                    dialect,
                    filter,
                    &table.schema.partition_fields,
                    table.options.partition_default_name.as_str(),
                    table.options.legacy_partition_name,
                ) {
                    Ok(values) => values,
                    Err(error) => {
                        return Err(error);
                    },
                };
                let paths = FormatTablePartitionPaths::new(
                    &table.schema.partition_keys,
                    managed_options.only_value_in_path,
                );
                let leading = leading_character_values(&table.schema.partition_fields, values);
                let by_predicate = match filter {
                    PartitionFilter::Predicate(_) => true,
                    PartitionFilter::PartitionSet { .. } => false,
                };
                Ok(
                    CatalogListing {
                        pattern: dialect.name_prefix_pattern(&paths, &leading),
                        by_predicate,
                        max_results: if by_predicate {
                            Some(PREDICATE_PAGE_SIZE)
                        } else {
                            None
                        },
                    },
                )
            },
        }
    }

    /// The directories of enumerated partitions, in the order of their paths.
    fn enumerated_scan_roots<D: PartitionDialect>(
        &self,
        dialect: &D,
        table_path: &str,
        partitions: &Vec<BinaryRow>,
    ) -> (r: Result<Vec<ScanRoot>, Error>)
        ensures
            match (
                r,
                dialect.computer_check(table_computer(*self.table)),
                all_ok(enumerated_roots(*dialect, *self.table, table_path@, partitions@)),
            ) {
                (Err(error), Err(refused), _) => error@ == refused,
                (Err(error), Ok(_), Err(first)) => error@ == first,
                (Ok(roots), Ok(_), Ok(expected)) => sorted_roots(root_views(roots@), expected),
                _ => false,
            },
    {
        let table = self.table;
        let computer = PartitionComputer {
            partition_keys: &table.schema.partition_keys,
            fields: &table.schema.fields,
            default_partition_name: table.options.partition_default_name.as_str(),
            legacy_partition_name: table.options.legacy_partition_name,
        };
        assert(computer@ == table_computer(*table));
        if let Err(error) = dialect.check_partition_computer(&computer) {
            return Err(error);
        }
        let ghost outcomes = enumerated_roots(*dialect, *table, table_path@, partitions@);
        let mut roots: Vec<ScanRoot> = Vec::new();
        let mut i: usize = 0;
        proof {
            assert(outcomes.take(0) =~= Seq::empty());
            assert(root_views(roots@) =~= Seq::empty());
        }
        while i < partitions.len()
            invariant
                0 <= i <= partitions@.len(),
                table == self.table,
                computer@ == table_computer(*table),
                dialect.computer_check(table_computer(*table)) is Ok,
                outcomes == enumerated_roots(*dialect, *table, table_path@, partitions@),
                all_ok(outcomes.take(i as int)) == Ok::<Seq<ScanRootView>, ErrorView>(
                    root_views(roots@),
                ),
            decreases partitions@.len() - i,
        {
            proof {
                lemma_all_ok_step(outcomes, i as int);
            }
            let row = &partitions[i];
            let path = if table.options.only_value_in_path {
                partition_path_from_row(
                    dialect,
                    row,
                    &table.schema.partition_fields,
                    table.options.partition_default_name.as_str(),
                    table.options.legacy_partition_name,
                    true,
                )
            } else {
                dialect.generate_partition_path(&computer, row)
            };
            match path {
                Err(error) => {
                    proof {
                        lemma_all_ok_settled(outcomes, i + 1);
                    }
                    return Err(error);
                },
                Ok(path) => {
                    let ghost before = root_views(roots@);
                    let root = ScanRoot {
                        path: join_path(table_path, path.as_str()),
                        partition: row.copy(),
                    };
                    let ghost added = root@;
                    roots.push(root);
                    assert(root_views(roots@) =~= before.push(added));
                },
            }
            i = i + 1;
        }
        assert(outcomes.take(i as int) =~= outcomes);
        Ok(sort_roots(roots))
    }

    /// Which directories the scan reads, or which listing the catalog has to give first.
    ///
    /// A table without partition columns is read as a whole. Where the catalog manages the
    /// partitions it has to list them. Otherwise the enumerated partitions are read, in the order
    /// of their paths, or what lies below the directory that the predicate leads to, or all.
    pub fn scan_roots<D: PartitionDialect>(&self, dialect: &D, table_path: &str) -> (r: Result<
        ScanRoots,
        Error,
    >)
        ensures
            self.table.schema.partition_keys@.len() > 0 && self.table.managed_partitions is Some
                ==> match r {
                Ok(ScanRoots::Catalog { listing }) => wanted_listing(
                    *dialect,
                    *self.table,
                    self.partition_filter,
                    self.table.managed_partitions->0.only_value_in_path,
                ) == Ok::<CatalogListingView, ErrorView>(listing@),
                Ok(ScanRoots::Ready { .. }) => false,
                Err(error) => wanted_listing(
                    *dialect,
                    *self.table,
                    self.partition_filter,
                    self.table.managed_partitions->0.only_value_in_path,
                ) == Err::<CatalogListingView, ErrorView>(error@),
            },
            !(self.table.schema.partition_keys@.len() > 0
                && self.table.managed_partitions is Some) ==> match r {
                Ok(ScanRoots::Ready { roots }) => directory_roots(
                    *dialect,
                    *self.table,
                    self.partition_filter,
                    table_path@,
                ) matches Ok(expected) && sorted_roots(root_views(roots@), expected),
                Ok(ScanRoots::Catalog { .. }) => false,
                Err(error) => directory_roots(
                    *dialect,
                    *self.table,
                    self.partition_filter,
                    table_path@,
                ) == Err::<Seq<ScanRootView>, ErrorView>(error@),
            },
    {
        let table = self.table;
        if table.schema.partition_keys.len() == 0 {
            return Ok(ScanRoots::Ready { roots: one_root(table_path.to_string()) });
        }
        if let Some(managed_options) = &table.managed_partitions {
            return match self.catalog_listing(dialect, managed_options) {
                Ok(listing) => Ok(ScanRoots::Catalog { listing }),
                Err(error) => Err(error),
            };
        }
        match &self.partition_filter {
            Some(PartitionFilter::PartitionSet { partitions }) => match self.enumerated_scan_roots(
                dialect,
                table_path,
                partitions,
            ) {
                Ok(roots) => Ok(ScanRoots::Ready { roots }),
                Err(error) => Err(error),
            },
            Some(PartitionFilter::Predicate(predicate)) => {
                let path = match leading_equality_partition_path(
                    dialect,
                    table_path,
                    &table.schema.partition_keys,
                    &table.schema.partition_fields,
                    predicate,
                    table.options.partition_default_name.as_str(),
                    table.options.legacy_partition_name,
                    table.options.only_value_in_path,
                ) {
                    Some(path) => path,
                    None => table_path.to_string(),
                };
                Ok(ScanRoots::Ready { roots: one_root(path) })
            },
            None => Ok(ScanRoots::Ready { roots: one_root(table_path.to_string()) }),
        }
    }

    /// The directories of the partitions that the catalog listed, in the order of their paths.
    ///
    /// Each directory counts once. A partition whose specification does not give a directory and
    /// a row is an error. A partition that the scan does not ask for is left out. One that it
    /// asks for, but that lives at a location of its own, is an error: what lies in the table
    /// directory under its name is not its data.
    pub fn catalog_managed_scan_roots<D: PartitionDialect>(
        &self,
        dialect: &D,
        table_path: &str,
        managed_options: &LoadedFormatTablePartitionOptions,
        partitions: Vec<CatalogPartition>,
    ) -> (r: Result<Vec<ScanRoot>, Error>)
        requires
            self.table.schema.wf(),
        ensures
            match (
                r,
                present_ok(
                    catalog_roots(
                        *dialect,
                        *self.table,
                        self.partition_filter,
                        table_path@,
                        managed_options.only_value_in_path,
                        partition_views(partitions@),
                    ),
                ),
            ) {
                (Ok(roots), Ok(expected)) => sorted_roots(root_views(roots@), expected),
                (Err(error), Err(first)) => error@ == first,
                _ => false,
            },
    {
        let table = self.table;
        let paths = FormatTablePartitionPaths::new(
            &table.schema.partition_keys,
            managed_options.only_value_in_path,
        );
        let ghost listed = partition_views(partitions@);
        let ghost outcomes = catalog_roots(
            *dialect,
            *table,
            self.partition_filter,
            table_path@,
            managed_options.only_value_in_path,
            listed,
        );
        let mut seen_paths = StringHashSet::new();
        let mut roots: Vec<ScanRoot> = Vec::new();
        let mut i: usize = 0;
        proof {
            assert(outcomes.take(0) =~= Seq::empty());
            assert(root_views(roots@) =~= Seq::empty());
        }
        while i < partitions.len()
            invariant
                0 <= i <= partitions@.len(),
                table == self.table,
                table.schema.wf(),
                paths@ == table_paths(*table, managed_options.only_value_in_path),
                listed == partition_views(partitions@),
                outcomes == catalog_roots(
                    *dialect,
                    *table,
                    self.partition_filter,
                    table_path@,
                    managed_options.only_value_in_path,
                    listed,
                ),
                present_ok(outcomes.take(i as int)) == Ok::<Seq<ScanRootView>, ErrorView>(
                    root_views(roots@),
                ),
                forall|path: Seq<char>| #[trigger]
                    seen_paths@.contains(path) <==> exists|j: int|
                        0 <= j < i && #[trigger] dialect.catalog_path(paths@, listed[j].spec) == Ok::<
                            Seq<char>,
                            ErrorView,
                        >(path),
            decreases partitions@.len() - i,
        {
            let partition = &partitions[i];
            proof {
                assert(listed[i as int] == partition@);
                lemma_present_ok_step(outcomes, i as int);
            }
            let path = match dialect.relative_path(&paths, &partition.spec) {
                Ok(path) => path,
                Err(error) => {
                    proof {
                        lemma_present_ok_settled(outcomes, i + 1);
                    }
                    return Err(self.invalid_catalog_partition_metadata(error));
                },
            };
            let ghost seen_before = seen_paths@;
            if seen_paths.insert(path.clone()) {
                let row = match partition_row_from_catalog_spec(
                    dialect,
                    &partition.spec,
                    &table.schema.partition_fields,
                    &table.schema.partition_keys,
                    table.options.partition_default_name.as_str(),
                ) {
                    Ok(row) => row,
                    Err(error) => {
                        proof {
                            lemma_present_ok_settled(outcomes, i + 1);
                        }
                        return Err(self.invalid_catalog_partition_metadata(error));
                    },
                };
                match self.partition_matches(dialect, &row) {
                    Err(error) => {
                        proof {
                            lemma_present_ok_settled(outcomes, i + 1);
                        }
                        return Err(error);
                    },
                    Ok(found) => if found {
                        if partition.has_custom_location() {
                            proof {
                                lemma_present_ok_settled(outcomes, i + 1);
                            }
                            return Err(self.partition_at_custom_location(path.as_str()));
                        }
                        let ghost before = root_views(roots@);
                        let root = ScanRoot {
                            path: join_path(table_path, path.as_str()),
                            partition: row,
                        };
                        let ghost added = root@;
                        roots.push(root);
                        assert(root_views(roots@) =~= before.push(added));
                    },
                }
            }
            proof {
                assert forall|other: Seq<char>| #[trigger]
                    seen_paths@.contains(other) <==> exists|j: int|
                        0 <= j < i + 1 && #[trigger] dialect.catalog_path(paths@, listed[j].spec)
                            == Ok::<Seq<char>, ErrorView>(other) by {
                    if other == path@ {
                        assert(dialect.catalog_path(paths@, listed[i as int].spec) == Ok::<
                            Seq<char>,
                            ErrorView,
                        >(other));
                    } else {
                        assert(seen_paths@.contains(other) == seen_before.contains(other));
                    }
                }
            }
            i = i + 1;
        }
        assert(outcomes.take(i as int) =~= outcomes);
        Ok(sort_roots(roots))
    }

    /// Says that a partition does not lie below the table directory.
    fn partition_at_custom_location(&self, path: &str) -> (r: Error)
        ensures
            r@ == custom_location(*self.table, path@),
    {
        let mut message = "Partition '".to_string();
        message.append(path);
        message.append("' of Format Table ");
        message.append(self.table.full_name.as_str());
        message.append(" has a custom location, which a scan does not read");
        Error::Unsupported { message }
    }
}

/// One directory of unknown partition.
fn one_root(path: String) -> (r: Vec<ScanRoot>)
    ensures
        sorted_roots(
            root_views(r@),
            seq![ScanRootView { path: path@, partition: Seq::empty() }],
        ),
{
    let ghost expected = seq![ScanRootView { path: path@, partition: Seq::empty() }];
    let mut roots: Vec<ScanRoot> = Vec::new();
    roots.push(ScanRoot { path, partition: BinaryRow::empty() });
    proof {
        let positions = seq![0int];
        assert(root_views(roots@) =~= picked(expected, positions));
        assert(ascending(positions, root_keys(expected)));
    }
    roots
}

/// Whether a directory is read for the partition at `index` of a catalog listing: the scan asks
/// for the partition, it lies below the table directory, and its directory was not listed before.
pub open spec fn is_read_for<D: PartitionDialect>(
    dialect: D,
    table: Table,
    filter: Option<PartitionFilter>,
    table_path: Seq<char>,
    only_value_in_path: bool,
    partitions: Seq<CatalogPartitionView>,
    index: int,
    root: ScanRootView,
) -> bool {
    let paths = table_paths(table, only_value_in_path);
    &&& dialect.catalog_path(paths, partitions[index].spec) matches Ok(path) && root.path
        == path_below(table_path, path)
    &&& !is_repeated(dialect, paths, partitions, index)
    &&& all_ok(
        spec_values(
            dialect,
            partitions[index].spec,
            field_views(table.schema.partition_fields@),
            texts(table.schema.partition_keys@),
            table.options.partition_default_name@,
        ),
    ) == Ok::<Seq<Option<Seq<char>>>, ErrorView>(root.partition)
    &&& partition_asked_for(dialect, filter, root.partition) == Ok::<bool, ErrorView>(true)
    &&& !partitions[index].has_custom_location()
}

/// Whether the partition at `index` of a catalog listing is passed over: its directory was listed
/// before, or the scan does not ask for the partition.
pub open spec fn is_passed_over<D: PartitionDialect>(
    dialect: D,
    table: Table,
    filter: Option<PartitionFilter>,
    only_value_in_path: bool,
    partitions: Seq<CatalogPartitionView>,
    index: int,
) -> bool {
    ||| is_repeated(dialect, table_paths(table, only_value_in_path), partitions, index)
    ||| all_ok(
        spec_values(
            dialect,
            partitions[index].spec,
            field_views(table.schema.partition_fields@),
            texts(table.schema.partition_keys@),
            table.options.partition_default_name@,
        ),
    ) matches Ok(row) && partition_asked_for(dialect, filter, row) == Ok::<bool, ErrorView>(false)
}

/// A catalog-managed scan reads the partitions that it asks for, each directory once, and nothing
/// else. Nothing is taken from the table directory in place of a partition that lives elsewhere.
pub proof fn law_catalog_scan_reads_what_is_asked_for<D: PartitionDialect>(
    dialect: D,
    table: Table,
    filter: Option<PartitionFilter>,
    table_path: Seq<char>,
    only_value_in_path: bool,
    partitions: Seq<CatalogPartitionView>,
    roots: Seq<ScanRootView>,
)
    requires
        present_ok(
            catalog_roots(dialect, table, filter, table_path, only_value_in_path, partitions),
        ) == Ok::<Seq<ScanRootView>, ErrorView>(roots),
    ensures
        exists|indices: Seq<int>|
            {
                &&& #[trigger] indices.len() == roots.len()
                &&& indices.no_duplicates()
                &&& forall|j: int|
                    0 <= j < indices.len() ==> 0 <= #[trigger] indices[j] < partitions.len()
                        && is_read_for(
                        dialect,
                        table,
                        filter,
                        table_path,
                        only_value_in_path,
                        partitions,
                        indices[j],
                        roots[j],
                    )
                &&& forall|i: int|
                    0 <= i < partitions.len() && !(#[trigger] indices.contains(i))
                        ==> is_passed_over(
                        dialect,
                        table,
                        filter,
                        only_value_in_path,
                        partitions,
                        i,
                    )
            },
{
    let outcomes = catalog_roots(
        dialect,
        table,
        filter,
        table_path,
        only_value_in_path,
        partitions,
    );
    let indices = lemma_present_ok_places(outcomes, roots);
    assert forall|j: int| 0 <= j < indices.len() implies 0 <= #[trigger] indices[j]
        < partitions.len() && is_read_for(
        dialect,
        table,
        filter,
        table_path,
        only_value_in_path,
        partitions,
        indices[j],
        roots[j],
    ) by {
        assert(outcomes[indices[j]] == Ok::<Option<ScanRootView>, ErrorView>(Some(roots[j])));
    }
    assert forall|i: int|
        0 <= i < partitions.len() && !(#[trigger] indices.contains(i)) implies is_passed_over(
        dialect,
        table,
        filter,
        only_value_in_path,
        partitions,
        i,
    ) by {
        assert(outcomes[i] == Ok::<Option<ScanRootView>, ErrorView>(None));
    }
}

/// A scan that asks for a partition at a location of its own fails. It takes nothing from the
/// table directory in its place.
pub proof fn law_custom_location_is_not_read<D: PartitionDialect>(
    dialect: D,
    table: Table,
    filter: Option<PartitionFilter>,
    table_path: Seq<char>,
    only_value_in_path: bool,
    partitions: Seq<CatalogPartitionView>,
    index: int,
)
    requires
        0 <= index < partitions.len(),
        partitions[index].has_custom_location(),
        !is_passed_over(dialect, table, filter, only_value_in_path, partitions, index),
    ensures
        present_ok(
            catalog_roots(dialect, table, filter, table_path, only_value_in_path, partitions),
        ) is Err,
{
    let outcomes = catalog_roots(
        dialect,
        table,
        filter,
        table_path,
        only_value_in_path,
        partitions,
    );
    if present_ok(outcomes) is Ok {
        let roots = present_ok(outcomes)->Ok_0;
        let indices = lemma_present_ok_places(outcomes, roots);
        if indices.contains(index) {
            let j = choose|j: int| 0 <= j < indices.len() && indices[j] == index;
            assert(outcomes[indices[j]] == Ok::<Option<ScanRootView>, ErrorView>(Some(roots[j])));
        } else {
            assert(outcomes[index] == Ok::<Option<ScanRootView>, ErrorView>(None));
        }
    }
}

/// There is one order in which the directories are read.
pub proof fn law_roots_have_one_order(
    a: Seq<ScanRootView>,
    b: Seq<ScanRootView>,
    roots: Seq<ScanRootView>,
)
    requires
        sorted_roots(a, roots),
        sorted_roots(b, roots),
    ensures
        a == b,
{
    let p = choose|p: Seq<int>|
        #[trigger] ascending(p, root_keys(roots)) && a == picked(roots, p);
    let q = choose|q: Seq<int>|
        #[trigger] ascending(q, root_keys(roots)) && b == picked(roots, q);
    law_sorting_is_unique(p, q, root_keys(roots));
}

/// Where no partition is enumerated twice, no partition is read twice.
pub proof fn law_enumerated_partitions_are_read_once<D: PartitionDialect>(
    dialect: D,
    table: Table,
    table_path: Seq<char>,
    partitions: Seq<BinaryRow>,
    roots: Seq<ScanRootView>,
    i: int,
    j: int,
)
    requires
        row_views(partitions).no_duplicates(),
        all_ok(enumerated_roots(dialect, table, table_path, partitions)) == Ok::<
            Seq<ScanRootView>,
            ErrorView,
        >(roots),
        0 <= i < j < roots.len(),
    ensures
        roots[i].partition != roots[j].partition,
{
    let outcomes = enumerated_roots(dialect, table, table_path, partitions);
    lemma_all_ok_values(outcomes);
    assert(outcomes[i] == Ok::<ScanRootView, ErrorView>(roots[i]));
    assert(outcomes[j] == Ok::<ScanRootView, ErrorView>(roots[j]));
    assert(row_views(partitions)[i] != row_views(partitions)[j]);
}

} // verus!
