//! The files that a scan reads, and the plan that they make.

use vstd::prelude::*;
use vstd::string::*;

use crate::collect::{lemma_present_ok_settled, lemma_present_ok_step, present_ok};
use crate::dialect::PartitionDialect;
use crate::error::{Error, ErrorView};
use crate::format::{extension_of, supported_format_table_extension};
use crate::model::{field_views, BinaryRow, CatalogPartition, Table};
use crate::order::{ascending, key_lt, law_sorting_keeps_everything, lemma_key_lt_irreflexive};
use crate::order::{lemma_key_lt_transitive, order_keys, picked, sort_by_key, Ordered};
use crate::partition::{named_path_segments, named_segments, partition_row_from_path};
use crate::partition::{partition_segment_value, path_below_table, relative_to, row_in_path};
use crate::partition::segment_value;
use crate::path::{is_data_file_name, is_format_table_data_file_name, is_hidden, is_hidden_name};
use crate::path::{law_split_path_is_the_path, lies_in, lies_in_directory, parent_and_file};
use crate::path::split_parent_and_file;
use crate::predicate::PartitionFilter;
use crate::roots::{directory_roots, wanted_listing};
use crate::scan::{file_too_large, partition_asked_for, root_views, row_ranges_unsupported};
use crate::scan::{sorted_roots, table_format, table_root, values_only, CatalogListingView};
use crate::scan::{FileStatus, FormatTableScan, ListedFile, PlanStart, RootListing, ScanRootView};
use crate::scan::ScanRoots;
use crate::split::{data_file_meta, file_keys, splits_of, DataSplit, Plan, PlannedFile, ScanTrace};
use crate::text::{ascii_lower, ends_with_text, has_suffix, texts, to_ascii_lower, trim_end};
use crate::text::trim_end_char;

verus! {

/// Whether a path segment, the one at `index` below the table directory, is the directory of a
/// partition value.
pub open spec fn is_partition_segment<D: PartitionDialect>(
    dialect: D,
    segment: Seq<char>,
    index: int,
    keys: Seq<Seq<char>>,
    only_value_in_path: bool,
) -> bool {
    if only_value_in_path {
        index < keys.len()
    } else {
        exists|k: int|
            0 <= k < keys.len() && segment_value(dialect, segment, #[trigger] keys[k]) is Some
    }
}

/// Whether a directory lies in what committers and tools leave beside the data: it lies below the
/// table directory, and one of the segments between the two has a hidden name and is not the
/// directory of a partition value.
///
/// This holds of every segment, whether it stands inside a partition, as in `dt=a/_temporary/0`,
/// above one, as in `_temporary/0/dt=a`, or in a table without partition columns. A directory that
/// does not lie in the table directory is never hidden.
pub open spec fn in_hidden_directory<D: PartitionDialect>(
    dialect: D,
    table_path: Seq<char>,
    directory: Seq<char>,
    keys: Seq<Seq<char>>,
    only_value_in_path: bool,
) -> bool {
    lies_in(trim_end(directory, '/'), trim_end(table_path, '/')) && match relative_to(
        table_path,
        directory,
    ) {
        None => false,
        Some(relative) => {
            let segments = named_segments(relative);
            exists|i: int|
                0 <= i < segments.len() && is_hidden_name(#[trigger] segments[i])
                    && !is_partition_segment(dialect, segments[i], i, keys, only_value_in_path)
        },
    }
}

/// The directory and the name of a data file of the table, where the file at `path` is one.
pub open spec fn data_file_at<D: PartitionDialect>(
    dialect: D,
    table: Table,
    table_path: Seq<char>,
    format_extension: Seq<char>,
    path: Seq<char>,
) -> Option<(Seq<char>, Seq<char>)> {
    match parent_and_file(path) {
        None => None,
        Some((parent, file_name)) => {
            if is_data_file_name(file_name) && has_suffix(ascii_lower(file_name), format_extension)
                && !in_hidden_directory(
                dialect,
                table_path,
                parent,
                texts(table.schema.partition_keys@),
                values_only(table),
            ) {
                Some((parent, file_name))
            } else {
                None
            }
        },
    }
}

/// The partition of a file in `parent`: the one that its directory is known to belong to, or the
/// one that the path tells, where the scan asks for it.
pub open spec fn file_partition<D: PartitionDialect>(
    dialect: D,
    table: Table,
    filter: Option<PartitionFilter>,
    table_path: Seq<char>,
    parent: Seq<char>,
    known_partition: Seq<Option<Seq<char>>>,
) -> Result<Option<Seq<Option<Seq<char>>>>, ErrorView> {
    let fields = field_views(table.schema.partition_fields@);
    if fields.len() == 0 {
        Ok(Some(Seq::empty()))
    } else if known_partition.len() == fields.len() {
        Ok(Some(known_partition))
    } else {
        match row_in_path(
            dialect,
            table_path,
            parent,
            fields,
            texts(table.schema.partition_keys@),
            table.options.partition_default_name@,
            table.options.only_value_in_path,
        ) {
            None => Ok(None),
            Some(row) => match partition_asked_for(dialect, filter, row) {
                Err(error) => Err(error),
                Ok(true) => Ok(Some(row)),
                Ok(false) => Ok(None),
            },
        }
    }
}

/// The path and the size of a file as they are planned with.
pub open spec fn settled_status(file: ListedFile) -> Result<(Seq<char>, u64), ErrorView> {
    if file.status.size == 0 {
        match file.current {
            Ok(status) => Ok((status.path@, status.size)),
            Err(error) => Err(error@),
        }
    } else {
        Ok((file.status.path@, file.status.size))
    }
}

/// What becomes of a listed file: nothing, where it is not a data file or the scan does not ask
/// for its partition.
pub open spec fn planned_file<D: PartitionDialect>(
    dialect: D,
    table: Table,
    filter: Option<PartitionFilter>,
    table_path: Seq<char>,
    format_extension: Seq<char>,
    known_partition: Seq<Option<Seq<char>>>,
    file: ListedFile,
) -> Result<Option<PlannedFile>, ErrorView> {
    match data_file_at(dialect, table, table_path, format_extension, file.status.path@) {
        None => Ok(None),
        Some((parent, file_name)) => match settled_status(file) {
            Err(error) => Err(error),
            Ok((path, size)) => if size > i64::MAX {
                Err(file_too_large(path))
            } else {
                match file_partition(dialect, table, filter, table_path, parent, known_partition) {
                    Err(error) => Err(error),
                    Ok(None) => Ok(None),
                    Ok(Some(partition)) => Ok(
                        Some(
                            PlannedFile {
                                partition,
                                bucket_path: parent,
                                file_name,
                                file_size: size as i64,
                                schema_id: table.schema.id,
                            },
                        ),
                    ),
                }
            },
        },
    }
}

/// What becomes of the files of a directory.
pub open spec fn planned_files<D: PartitionDialect>(
    dialect: D,
    table: Table,
    filter: Option<PartitionFilter>,
    table_path: Seq<char>,
    format_extension: Seq<char>,
    known_partition: Seq<Option<Seq<char>>>,
    files: Seq<ListedFile>,
) -> Seq<Result<Option<PlannedFile>, ErrorView>> {
    Seq::new(
        files.len(),
        |i: int|
            planned_file(
                dialect,
                table,
                filter,
                table_path,
                format_extension,
                known_partition,
                files[i],
            ),
    )
}

/// The files that are planned from a directory, or the first error on the way.
pub open spec fn root_files<D: PartitionDialect>(
    dialect: D,
    table: Table,
    filter: Option<PartitionFilter>,
    table_path: Seq<char>,
    format_extension: Seq<char>,
    listing: RootListing,
) -> Result<Seq<PlannedFile>, ErrorView> {
    match listing.files {
        Err(error) => Err(error@),
        Ok(files) => present_ok(
            planned_files(
                dialect,
                table,
                filter,
                table_path,
                format_extension,
                listing.root.partition@,
                files@,
            ),
        ),
    }
}

/// The files that are planned from all directories, in the order in which they are listed, or the
/// first error on the way.
pub open spec fn all_files<D: PartitionDialect>(
    dialect: D,
    table: Table,
    filter: Option<PartitionFilter>,
    table_path: Seq<char>,
    format_extension: Seq<char>,
    listings: Seq<RootListing>,
) -> Result<Seq<PlannedFile>, ErrorView>
    decreases listings.len(),
{
    if listings.len() == 0 {
        Ok(Seq::empty())
    } else {
        match all_files(
            dialect,
            table,
            filter,
            table_path,
            format_extension,
            listings.drop_last(),
        ) {
            Err(error) => Err(error),
            Ok(before) => match root_files(
                dialect,
                table,
                filter,
                table_path,
                format_extension,
                listings.last(),
            ) {
                Err(error) => Err(error),
                Ok(files) => Ok(before + files),
            },
        }
    }
}

/// Whether a scan reads what the catalog lists.
pub open spec fn is_managed(table: Table) -> bool {
    table.schema.partition_keys@.len() > 0 && table.managed_partitions is Some
}

/// Whether `r` is what the plan of a scan begins with. Row ranges are an error, and then a format
/// that cannot be read; otherwise the catalog is asked for a listing where it manages the
/// partitions, and the directories are known where it does not.
pub open spec fn is_start_of<D: PartitionDialect>(
    r: Result<PlanStart, Error>,
    dialect: D,
    scan: FormatTableScan,
) -> bool {
    let table = *scan.table;
    if scan.row_ranges is Some {
        r matches Err(error) && error@ == row_ranges_unsupported()
    } else if extension_of(table_format(table)) is Err {
        r matches Err(error) && extension_of(table_format(table)) == Err::<Seq<char>, ErrorView>(
            error@,
        )
    } else {
        let listing = wanted_listing(
            dialect,
            table,
            scan.partition_filter,
            table.managed_partitions->0.only_value_in_path,
        );
        let directories = directory_roots(
            dialect,
            table,
            scan.partition_filter,
            table_root(table),
        );
        match r {
            Err(error) => if is_managed(table) {
                listing == Err::<CatalogListingView, ErrorView>(error@)
            } else {
                directories == Err::<Seq<ScanRootView>, ErrorView>(error@)
            },
            Ok(start) => {
                &&& extension_of(table_format(table)) == Ok::<Seq<char>, ErrorView>(
                    start.format_extension@,
                )
                &&& start.table_path@ == table_root(table)
                &&& match start.roots {
                    ScanRoots::Catalog { listing: asked } => is_managed(table) && listing == Ok::<
                        CatalogListingView,
                        ErrorView,
                    >(asked@),
                    ScanRoots::Ready { roots } => !is_managed(table) && (directories matches Ok(
                        all,
                    ) && sorted_roots(root_views(roots@), all)),
                }
            },
        }
    }
}

/// Whether the splits are those of the files in the order of directory and name, files of the
/// same directory and name in the order in which they stand.
pub open spec fn sorted_splits(splits: Seq<DataSplit>, files: Seq<PlannedFile>) -> bool {
    exists|positions: Seq<int>|
        #[trigger] ascending(positions, file_keys(files)) && splits_of(
            splits,
            picked(files, positions),
        )
}

/// Whether a directory lies in what committers and tools leave beside the data.
fn lies_in_hidden_directory<D: PartitionDialect>(
    dialect: &D,
    table_path: &str,
    directory: &str,
    partition_keys: &Vec<String>,
    only_value_in_path: bool,
) -> (r: bool)
    ensures
        r == in_hidden_directory(
            *dialect,
            table_path@,
            directory@,
            texts(partition_keys@),
            only_value_in_path,
        ),
{
    if !lies_in_directory(trim_end_char(directory, '/'), trim_end_char(table_path, '/')) {
        return false;
    }
    let relative = match path_below_table(table_path, directory) {
        Some(relative) => relative,
        None => {
            return false;
        },
    };
    let segments = named_path_segments(relative.as_str());
    let ghost keys = texts(partition_keys@);
    let ghost all = named_segments(relative@);
    let mut i: usize = 0;
    while i < segments.len()
        invariant
            0 <= i <= segments@.len(),
            keys == texts(partition_keys@),
            all == named_segments(relative@),
            texts(segments@) == all,
            relative_to(table_path@, directory@) == Some(relative@),
            lies_in(trim_end(directory@, '/'), trim_end(table_path@, '/')),
            forall|j: int|
                0 <= j < i && is_hidden_name(#[trigger] all[j]) ==> is_partition_segment(
                    *dialect,
                    all[j],
                    j,
                    keys,
                    only_value_in_path,
                ),
        decreases segments@.len() - i,
    {
        assert(all[i as int] == segments@[i as int]@);
        if is_hidden(segments[i].as_str()) && !names_partition(
            dialect,
            segments[i].as_str(),
            i,
            partition_keys,
            only_value_in_path,
        ) {
            proof {
                assert(all.len() == segments@.len());
                assert(is_hidden_name(all[i as int]) && !is_partition_segment(
                    *dialect,
                    all[i as int],
                    i as int,
                    keys,
                    only_value_in_path,
                ));
                assert(named_segments(relative_to(table_path@, directory@)->0)[i as int]
                    == all[i as int]);
            }
            return true;
        }
        i = i + 1;
    }
    false
}

/// Whether a path segment is the directory of a partition value.
fn names_partition<D: PartitionDialect>(
    dialect: &D,
    segment: &str,
    index: usize,
    partition_keys: &Vec<String>,
    only_value_in_path: bool,
) -> (r: bool)
    ensures
        r == is_partition_segment(
            *dialect,
            segment@,
            index as int,
            texts(partition_keys@),
            only_value_in_path,
        ),
{
    if only_value_in_path {
        return index < partition_keys.len();
    }
    let ghost keys = texts(partition_keys@);
    let mut k: usize = 0;
    while k < partition_keys.len()
        invariant
            0 <= k <= partition_keys@.len(),
            !only_value_in_path,
            keys == texts(partition_keys@),
            forall|j: int|
                0 <= j < k ==> segment_value(*dialect, segment@, #[trigger] keys[j]) is None,
        decreases partition_keys@.len() - k,
    {
        assert(keys[k as int] == partition_keys@[k as int]@);
        if partition_segment_value(dialect, segment, partition_keys[k].as_str()).is_some() {
            return true;
        }
        k = k + 1;
    }
    false
}

/// The partitions that the catalog listed by predicate; `None` where the catalog does not offer
/// such a listing and is to be asked by the pattern of names alone.
pub fn partitions_by_predicate(reply: Result<Vec<CatalogPartition>, Error>) -> (r: Result<
    Option<Vec<CatalogPartition>>,
    Error,
>)
    ensures
        match reply {
            Ok(partitions) => r == Ok::<Option<Vec<CatalogPartition>>, Error>(Some(partitions)),
            Err(error) => if error is NotImplemented {
                r == Ok::<Option<Vec<CatalogPartition>>, Error>(None)
            } else {
                r == Err::<Option<Vec<CatalogPartition>>, Error>(error)
            },
        },
{
    match reply {
        Ok(partitions) => Ok(Some(partitions)),
        Err(Error::NotImplemented { .. }) => Ok(None),
        Err(error) => Err(error),
    }
}

impl<'a> FormatTableScan<'a> {
    /// The directory of the table, without slashes at the end.
    fn table_path(&self) -> (r: String)
        ensures
            r@ == table_root(*self.table),
    {
        let path = match &self.table.managed_partitions {
            Some(managed_options) => managed_options.table_path.as_str(),
            None => match &self.table.options.path {
                Some(path) => path.as_str(),
                None => self.table.location.as_str(),
            },
        };
        trim_end_char(path, '/').to_string()
    }

    /// Begins a plan: the extension of the data files, the directory of the table, and where to
    /// read. Row ranges, and a format that cannot be read, are errors.
    pub fn begin_plan<D: PartitionDialect>(&self, dialect: &D) -> (r: Result<PlanStart, Error>)
        ensures
            is_start_of(r, *dialect, *self),
    {
        if self.row_ranges.is_some() {
            return Err(
                Error::Unsupported {
                    message: "Row ranges are not supported for format tables".to_string(),
                },
            );
        }
        let file_format = match &self.table.managed_partitions {
            Some(managed_options) => managed_options.file_format.as_str(),
            None => self.table.options.file_format.as_str(),
        };
        let format_extension = match supported_format_table_extension(file_format) {
            Ok(format_extension) => format_extension,
            Err(error) => {
                return Err(error);
            },
        };
        let table_path = self.table_path();
        match self.scan_roots(dialect, table_path.as_str()) {
            Ok(roots) => Ok(PlanStart { format_extension, table_path, roots }),
            Err(error) => Err(error),
        }
    }

    /// Begins a plan where the table may be read.
    pub fn plan<D: PartitionDialect>(&self, dialect: &D) -> (r: Result<PlanStart, Error>)
        ensures
            match self.table.options.read_refused {
                Some(refused) => r matches Err(error) && error@ == refused@,
                None => is_start_of(r, *dialect, *self),
            },
    {
        match self.ensure_query_auth_allowed() {
            Ok(()) => self.begin_plan(dialect),
            Err(error) => Err(error),
        }
    }

    /// The directory and the name of a data file of the table, where the file at `path` is one.
    fn locate_data_file<'b, D: PartitionDialect>(
        &self,
        dialect: &D,
        table_path: &str,
        format_extension: &str,
        path: &'b str,
    ) -> (r: Option<(&'b str, &'b str)>)
        ensures
            match r {
                Some(parts) => data_file_at(
                    *dialect,
                    *self.table,
                    table_path@,
                    format_extension@,
                    path@,
                ) == Some((parts.0@, parts.1@)),
                None => data_file_at(
                    *dialect,
                    *self.table,
                    table_path@,
                    format_extension@,
                    path@,
                ) is None,
            },
    {
        let (parent, file_name) = match split_parent_and_file(path) {
            Some(parts) => parts,
            None => {
                return None;
            },
        };
        if !is_format_table_data_file_name(file_name) {
            return None;
        }
        if !ends_with_text(to_ascii_lower(file_name).as_str(), format_extension) {
            return None;
        }
        let only_value_in_path = match &self.table.managed_partitions {
            Some(managed_options) => managed_options.only_value_in_path,
            None => self.table.options.only_value_in_path,
        };
        if lies_in_hidden_directory(
            dialect,
            table_path,
            parent,
            &self.table.schema.partition_keys,
            only_value_in_path,
        ) {
            return None;
        }
        Some((parent, file_name))
    }

    /// The files of a directory listing. Where the storage holds nothing at the path, there are none.
    pub fn list_status_recursive_if_exists(&self, reply: Result<Vec<FileStatus>, Error>) -> (r:
        Result<Vec<FileStatus>, Error>)
        ensures
            match reply {
                Ok(statuses) => r == Ok::<Vec<FileStatus>, Error>(statuses),
                Err(error) => if error is StorageNotFound {
                    r matches Ok(statuses) && statuses@.len() == 0
                } else {
                    r == Err::<Vec<FileStatus>, Error>(error)
                },
            },
    {
        match reply {
            Ok(statuses) => Ok(statuses),
            Err(Error::StorageNotFound { .. }) => Ok(Vec::new()),
            Err(error) => Err(error),
        }
    }

    /// Whether the storage has to be asked for the file alone before the file can be planned: it
    /// is a data file, and the listing gave no size.
    pub fn needs_current_status<D: PartitionDialect>(
        &self,
        dialect: &D,
        table_path: &str,
        format_extension: &str,
        status: &FileStatus,
    ) -> (r: bool)
        ensures
            r == (status.size == 0 && data_file_at(
                *dialect,
                *self.table,
                table_path@,
                format_extension@,
                status.path@,
            ) is Some),
    {
        status.size == 0 && self.locate_data_file(
            dialect,
            table_path,
            format_extension,
            status.path.as_str(),
        ).is_some()
    }

    /// The split of a listed file; `None` where the file is not a data file of the table or the
    /// scan does not ask for its partition.
    ///
    /// A hidden file, a file of another format, and a file below a hidden directory that is not
    /// one of a partition value, are no data files. The partition is the known one where it has
    /// a value for each column, and is read from the path otherwise. A size that does not fit is
    /// an error.
    pub fn status_to_split<D: PartitionDialect>(
        &self,
        dialect: &D,
        file: &ListedFile,
        table_path: &str,
        format_extension: &str,
        known_partition: &BinaryRow,
    ) -> (r: Result<Option<DataSplit>, Error>)
        requires
            self.table.schema.wf(),
        ensures
            match (
                r,
                planned_file(
                    *dialect,
                    *self.table,
                    self.partition_filter,
                    table_path@,
                    format_extension@,
                    known_partition@,
                    *file,
                ),
            ) {
                (Ok(Some(split)), Ok(Some(planned))) => split.is_of(planned),
                (Ok(None), Ok(None)) => true,
                (Err(error), Err(expected)) => error@ == expected,
                _ => false,
            },
    {
        let table = self.table;
        let (parent, file_name) = match self.locate_data_file(
            dialect,
            table_path,
            format_extension,
            file.status.path.as_str(),
        ) {
            Some(parts) => parts,
            None => {
                return Ok(None);
            },
        };
        let status = if file.status.size == 0 {
            match &file.current {
                Ok(status) => status,
                Err(error) => {
                    return Err(error.copy());
                },
            }
        } else {
            &file.status
        };
        if status.size > i64::MAX as u64 {
            let mut message = "Format table file '".to_string();
            message.append(status.path.as_str());
            message.append("' is too large to fit in i64 metadata");
            return Err(Error::DataInvalid { message, source: None });
        }
        let data_file = data_file_meta(file_name.to_string(), status.size as i64, table.schema.id);
        let partition = if table.schema.partition_fields.len() == 0 {
            BinaryRow::empty()
        } else if known_partition.arity() == table.schema.partition_fields.len() {
            known_partition.copy()
        } else {
            let row = match partition_row_from_path(
                dialect,
                table_path,
                parent,
                &table.schema.partition_fields,
                &table.schema.partition_keys,
                table.options.partition_default_name.as_str(),
                table.options.only_value_in_path,
            ) {
                Ok(Some(row)) => row,
                Ok(None) => {
                    return Ok(None);
                },
                Err(error) => {
                    return Err(error);
                },
            };
            match self.partition_matches(dialect, &row) {
                Ok(found) => {
                    if !found {
                        return Ok(None);
                    }
                },
                Err(error) => {
                    return Err(error);
                },
            }
            row
        };
        Ok(Some(DataSplit::of_file(partition, parent.to_string(), data_file)))
    }

    /// Adds the splits of the files of a directory.
    fn add_root_splits<D: PartitionDialect>(
        &self,
        dialect: &D,
        table_path: &str,
        format_extension: &str,
        known_partition: &BinaryRow,
        files: &Vec<ListedFile>,
        splits: &mut Vec<DataSplit>,
        Ghost(before): Ghost<Seq<PlannedFile>>,
    ) -> (r: Result<(), Error>)
        requires
            self.table.schema.wf(),
            splits_of(old(splits)@, before),
        ensures
            match (
                r,
                present_ok(
                    planned_files(
                        *dialect,
                        *self.table,
                        self.partition_filter,
                        table_path@,
                        format_extension@,
                        known_partition@,
                        files@,
                    ),
                ),
            ) {
                (Ok(()), Ok(added)) => splits_of(final(splits)@, before + added),
                (Err(error), Err(first)) => error@ == first,
                _ => false,
            },
    {
        let ghost outcomes = planned_files(
            *dialect,
            *self.table,
            self.partition_filter,
            table_path@,
            format_extension@,
            known_partition@,
            files@,
        );
        let ghost mut added: Seq<PlannedFile> = Seq::empty();
        let mut i: usize = 0;
        proof {
            assert(outcomes.take(0) =~= Seq::empty());
            assert(before + added =~= before);
        }
        while i < files.len()
            invariant
                0 <= i <= files@.len(),
                self.table.schema.wf(),
                outcomes == planned_files(
                    *dialect,
                    *self.table,
                    self.partition_filter,
                    table_path@,
                    format_extension@,
                    known_partition@,
                    files@,
                ),
                present_ok(outcomes.take(i as int)) == Ok::<Seq<PlannedFile>, ErrorView>(added),
                splits_of(splits@, before + added),
            decreases files@.len() - i,
        {
            proof {
                lemma_present_ok_step(outcomes, i as int);
            }
            match self.status_to_split(
                dialect,
                &files[i],
                table_path,
                format_extension,
                known_partition,
            ) {
                Err(error) => {
                    proof {
                        lemma_present_ok_settled(outcomes, i + 1);
                    }
                    return Err(error);
                },
                Ok(None) => {},
                Ok(Some(split)) => {
                    splits.push(split);
                    proof {
                        let planned = outcomes[i as int]->Ok_0->0;
                        assert(before + added.push(planned) =~= (before + added).push(planned));
                        added = added.push(planned);
                    }
                },
            }
            i = i + 1;
        }
        assert(outcomes.take(i as int) =~= outcomes);
        Ok(())
    }

    /// The plan for the listed directories: the splits of their data files, in the order of
    /// directory and file name, or the first error that listing or planning the files gave.
    /// With a limit of zero the plan is empty.
    pub fn plan_inner<D: PartitionDialect>(
        &self,
        dialect: &D,
        table_path: &str,
        format_extension: &str,
        listings: Vec<RootListing>,
    ) -> (r: Result<Plan, Error>)
        requires
            self.table.schema.wf(),
        ensures
            match (
                r,
                all_files(
                    *dialect,
                    *self.table,
                    self.partition_filter,
                    table_path@,
                    format_extension@,
                    listings@,
                ),
            ) {
                (Ok(plan), Ok(files)) => {
                    &&& plan.wf()
                    &&& if self.limit == Some(0usize) {
                        plan.splits@.len() == 0
                    } else {
                        sorted_splits(plan.splits@, files)
                    }
                },
                (Err(error), Err(first)) => error@ == first,
                _ => false,
            },
    {
        let ghost mut planned: Seq<PlannedFile> = Seq::empty();
        let mut splits: Vec<DataSplit> = Vec::new();
        let mut i: usize = 0;
        assert(listings@.take(0) =~= Seq::empty());
        while i < listings.len()
            invariant
                0 <= i <= listings@.len(),
                self.table.schema.wf(),
                all_files(
                    *dialect,
                    *self.table,
                    self.partition_filter,
                    table_path@,
                    format_extension@,
                    listings@.take(i as int),
                ) == Ok::<Seq<PlannedFile>, ErrorView>(planned),
                splits_of(splits@, planned),
            decreases listings@.len() - i,
        {
            let listing = &listings[i];
            proof {
                assert(listings@.take(i + 1).drop_last() =~= listings@.take(i as int));
                assert(listings@.take(i + 1).last() == *listing);
            }
            match &listing.files {
                Err(error) => {
                    proof {
                        lemma_all_files_settled(
                            *dialect,
                            *self.table,
                            self.partition_filter,
                            table_path@,
                            format_extension@,
                            listings@,
                            i + 1,
                        );
                    }
                    return Err(error.copy());
                },
                Ok(files) => {
                    if let Err(error) = self.add_root_splits(
                        dialect,
                        table_path,
                        format_extension,
                        &listing.root.partition,
                        files,
                        &mut splits,
                        Ghost(planned),
                    ) {
                        proof {
                            lemma_all_files_settled(
                                *dialect,
                                *self.table,
                                self.partition_filter,
                                table_path@,
                                format_extension@,
                                listings@,
                                i + 1,
                            );
                        }
                        return Err(error);
                    }
                    proof {
                        planned = planned + root_files(
                            *dialect,
                            *self.table,
                            self.partition_filter,
                            table_path@,
                            format_extension@,
                            *listing,
                        )->Ok_0;
                    }
                },
            }
            i = i + 1;
        }
        assert(listings@.take(i as int) =~= listings@);
        let ghost unsorted = splits@;
        let sorted = sort_by_key(splits);
        proof {
            let positions = choose|positions: Seq<int>|
                #[trigger] ascending(positions, order_keys(unsorted)) && sorted@ == picked(
                    unsorted,
                    positions,
                );
            assert(order_keys(unsorted) =~= file_keys(planned)) by {
                assert forall|k: int| 0 <= k < unsorted.len() implies order_keys(unsorted)[k]
                    == file_keys(planned)[k] by {
                    assert(unsorted[k].is_of(planned[k]));
                }
            }
            assert(splits_of(sorted@, picked(planned, positions))) by {
                assert forall|k: int| 0 <= k < sorted@.len() implies (#[trigger] sorted@[k]).is_of(
                    picked(planned, positions)[k],
                ) by {
                    assert(0 <= positions[k] < unsorted.len());
                    assert(unsorted[positions[k]].is_of(planned[positions[k]]));
                }
            }
            assert forall|k: int| 0 <= k < sorted@.len() implies (#[trigger] sorted@[k]).data_files@.len()
                == 1 by {
                assert(sorted@[k].is_of(picked(planned, positions)[k]));
            }
        }
        Ok(Plan { splits: self.apply_limit_pushdown(sorted) })
    }

    /// The plan together with what is reported of it.
    pub fn plan_with_trace(&self, plan: Plan) -> (r: (Plan, ScanTrace))
        requires
            plan.wf(),
        ensures
            r.0 == plan,
            r.1.final_plan == Some(
                (plan.splits.len(), plan.splits.len(), plan.splits.len()),
            ),
            r.1.planned_data_file_bytes == crate::split::total_file_bytes(plan.splits@),
    {
        let count = plan.splits.len();
        let planned_data_file_bytes = plan.planned_data_file_bytes();
        let trace = ScanTrace {
            final_plan: Some((count, count, count)),
            planned_data_file_bytes,
        };
        (plan, trace)
    }
}

/// An error stays, whatever directories follow.
proof fn lemma_all_files_settled<D: PartitionDialect>(
    dialect: D,
    table: Table,
    filter: Option<PartitionFilter>,
    table_path: Seq<char>,
    format_extension: Seq<char>,
    listings: Seq<RootListing>,
    upto: int,
)
    requires
        0 <= upto <= listings.len(),
        all_files(dialect, table, filter, table_path, format_extension, listings.take(upto)) is Err,
    ensures
        all_files(dialect, table, filter, table_path, format_extension, listings) == all_files(
            dialect,
            table,
            filter,
            table_path,
            format_extension,
            listings.take(upto),
        ),
    decreases listings.len(),
{
    if upto < listings.len() {
        assert(listings.drop_last().take(upto) =~= listings.take(upto));
        lemma_all_files_settled(
            dialect,
            table,
            filter,
            table_path,
            format_extension,
            listings.drop_last(),
            upto,
        );
    } else {
        assert(listings.take(upto) =~= listings);
    }
}

/// A file is planned only where it is a data file of the table: it is not hidden, lies in no
/// hidden directory and has the extension of the format. Its split names the directory and the
/// name that make up its path. Its partition is one that the scan asks for, as the path tells it,
/// or the one that its directory is known to belong to.
pub proof fn law_planned_files_are_data_files<D: PartitionDialect>(
    dialect: D,
    table: Table,
    filter: Option<PartitionFilter>,
    table_path: Seq<char>,
    format_extension: Seq<char>,
    known_partition: Seq<Option<Seq<char>>>,
    file: ListedFile,
    planned: PlannedFile,
)
    requires
        planned_file(
            dialect,
            table,
            filter,
            table_path,
            format_extension,
            known_partition,
            file,
        ) == Ok::<Option<PlannedFile>, ErrorView>(Some(planned)),
    ensures
        planned.bucket_path + seq!['/'] + planned.file_name == trim_end(file.status.path@, '/'),
        is_data_file_name(planned.file_name),
        has_suffix(ascii_lower(planned.file_name), format_extension),
        !in_hidden_directory(
            dialect,
            table_path,
            planned.bucket_path,
            texts(table.schema.partition_keys@),
            values_only(table),
        ),
        planned.file_size >= 0,
        table.schema.partition_fields@.len() > 0 ==> {
            ||| planned.partition == known_partition
            ||| partition_asked_for(dialect, filter, planned.partition) == Ok::<bool, ErrorView>(
                true,
            ) && row_in_path(
                dialect,
                table_path,
                planned.bucket_path,
                field_views(table.schema.partition_fields@),
                texts(table.schema.partition_keys@),
                table.options.partition_default_name@,
                table.options.only_value_in_path,
            ) == Some(planned.partition)
        },
{
    law_split_path_is_the_path(file.status.path@);
}

/// Whether one of the splits is the one of a file.
pub open spec fn has_split_of(splits: Seq<DataSplit>, file: PlannedFile) -> bool {
    exists|i: int| 0 <= i < splits.len() && (#[trigger] splits[i]).is_of(file)
}

/// A plan has one split for each planned file, in the order of directory and file name.
pub proof fn law_plan_holds_every_file(splits: Seq<DataSplit>, files: Seq<PlannedFile>)
    requires
        sorted_splits(splits, files),
    ensures
        splits.len() == files.len(),
        forall|k: int| 0 <= k < files.len() ==> has_split_of(splits, #[trigger] files[k]),
        forall|i: int, j: int|
            0 <= i < j < splits.len() ==> !key_lt(
                (#[trigger] splits[j]).order_key(),
                (#[trigger] splits[i]).order_key(),
            ),
{
    let keys = file_keys(files);
    let positions = choose|positions: Seq<int>|
        #[trigger] ascending(positions, keys) && splits_of(splits, picked(files, positions));
    law_sorting_keeps_everything(positions, keys);
    assert forall|k: int| 0 <= k < files.len() implies has_split_of(
        splits,
        #[trigger] files[k],
    ) by {
        assert(positions.contains(k));
        let i = choose|i: int| 0 <= i < positions.len() && positions[i] == k;
        assert(splits[i].is_of(picked(files, positions)[i]));
    }
    assert forall|i: int, j: int| 0 <= i < j < splits.len() implies !key_lt(
        (#[trigger] splits[j]).order_key(),
        (#[trigger] splits[i]).order_key(),
    ) by {
        assert(splits[i].is_of(picked(files, positions)[i]));
        assert(splits[j].is_of(picked(files, positions)[j]));
        let a = keys[positions[i]];
        let b = keys[positions[j]];
        assert(0 <= positions[i] < files.len());
        assert(0 <= positions[j] < files.len());
        assert(key_lt(a, b) || a == b);
        lemma_key_lt_irreflexive(a);
        if key_lt(b, a) && key_lt(a, b) {
            lemma_key_lt_transitive(a, b, a);
        }
    }
}

} // verus!
