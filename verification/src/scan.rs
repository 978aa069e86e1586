//! Scanning a format table: which directories are read, and which of their files.
//!
//! What the catalog and the storage answer is handed in; every decision about it is made here.

use vstd::prelude::*;
use vstd::string::*;

use crate::dialect::{text_option, PartitionDialect};
use crate::error::{Error, ErrorView};
use crate::model::{BinaryRow, Table};
use crate::order::{ascending, picked, text_before, Ordered};
use crate::predicate::PartitionFilter;
use crate::split::DataSplit;
use crate::text::trim_end;

verus! {

/// A range of rows.
#[derive(Debug)]
pub struct RowRange {
    pub from: i64,
    pub to: i64,
}

/// A scan of a format table.
#[derive(Debug)]
pub struct FormatTableScan<'a> {
    pub table: &'a Table,
    pub partition_filter: Option<PartitionFilter>,
    pub limit: Option<usize>,
    pub row_ranges: Option<Vec<RowRange>>,
}

/// A directory to be read, with the partition that it is known to belong to. A row without
/// values stands for an unknown partition.
#[derive(Debug)]
pub struct ScanRoot {
    pub path: String,
    pub partition: BinaryRow,
}

/// What a [`ScanRoot`] says.
pub struct ScanRootView {
    pub path: Seq<char>,
    pub partition: Seq<Option<Seq<char>>>,
}

impl ScanRoot {
    pub open spec fn view(self) -> ScanRootView {
        ScanRootView { path: self.path@, partition: self.partition@ }
    }
}

/// What the directories say.
pub open spec fn root_views(roots: Seq<ScanRoot>) -> Seq<ScanRootView> {
    roots.map_values(|r: ScanRoot| r@)
}

/// Directories are read in the order of their paths.
pub open spec fn root_keys(roots: Seq<ScanRootView>) -> Seq<(Seq<char>, Seq<char>)> {
    roots.map_values(|r: ScanRootView| (r.path, Seq::<char>::empty()))
}

/// Whether `sorted` holds `roots` in the order of their paths, equal ones in the order in which
/// they stand.
pub open spec fn sorted_roots(sorted: Seq<ScanRootView>, roots: Seq<ScanRootView>) -> bool {
    exists|positions: Seq<int>|
        #[trigger] ascending(positions, root_keys(roots)) && sorted == picked(roots, positions)
}

impl Ordered for ScanRoot {
    open spec fn order_key(&self) -> (Seq<char>, Seq<char>) {
        (self.path@, Seq::<char>::empty())
    }

    fn precedes(&self, other: &Self) -> (r: bool) {
        text_before(self.path.as_str(), other.path.as_str())
    }
}

/// How many partitions a listing by predicate asks for at a time.
pub const PREDICATE_PAGE_SIZE: u32 = 1000;

/// A listing of partitions that the catalog is asked for.
#[derive(Debug)]
pub struct CatalogListing {
    /// The pattern of the names of the partitions; `None` for all of them.
    pub pattern: Option<String>,
    /// Whether the predicate of the scan is sent along for the catalog to filter by.
    pub by_predicate: bool,
    /// How many partitions the catalog is to return at a time; `None` leaves that to the catalog.
    pub max_results: Option<u32>,
}

/// What a [`CatalogListing`] says.
pub struct CatalogListingView {
    pub pattern: Option<Seq<char>>,
    pub by_predicate: bool,
    pub max_results: Option<u32>,
}

impl CatalogListing {
    pub open spec fn view(self) -> CatalogListingView {
        CatalogListingView {
            pattern: text_option(self.pattern),
            by_predicate: self.by_predicate,
            max_results: self.max_results,
        }
    }
}

/// Where the directories of a scan come from.
#[derive(Debug)]
pub enum ScanRoots {
    /// They are known.
    Ready { roots: Vec<ScanRoot> },
    /// The catalog has to list the partitions.
    Catalog { listing: CatalogListing },
}

/// The file at a path of the storage.
#[derive(Debug)]
pub struct FileStatus {
    pub path: String,
    pub size: u64,
}

/// A file that a directory listing gave.
#[derive(Debug)]
pub struct ListedFile {
    pub status: FileStatus,
    /// What the storage says of the file when it is asked for the file alone. It counts only
    /// where the listing gave no size.
    pub current: Result<FileStatus, Error>,
}

/// A directory with the files that lie in it, at any depth.
#[derive(Debug)]
pub struct RootListing {
    pub root: ScanRoot,
    pub files: Result<Vec<ListedFile>, Error>,
}

/// What a plan begins with.
#[derive(Debug)]
pub struct PlanStart {
    pub format_extension: &'static str,
    pub table_path: String,
    pub roots: ScanRoots,
}

/// The directory of the table, without slashes at the end. The catalog's own path comes first,
/// then the option `path`, then the location.
pub open spec fn table_root(table: Table) -> Seq<char> {
    trim_end(
        match table.managed_partitions {
            Some(managed) => managed.table_path@,
            None => match table.options.path {
                Some(path) => path@,
                None => table.location@,
            },
        },
        '/',
    )
}

/// The file format of the table. The catalog's own option comes first.
pub open spec fn table_format(table: Table) -> Seq<char> {
    match table.managed_partitions {
        Some(managed) => managed.file_format@,
        None => table.options.file_format@,
    }
}

/// Whether the partition directories of the table are named by values alone.
pub open spec fn values_only(table: Table) -> bool {
    match table.managed_partitions {
        Some(managed) => managed.only_value_in_path,
        None => table.options.only_value_in_path,
    }
}

/// What is said where a row range is asked for.
pub open spec fn row_ranges_unsupported() -> ErrorView {
    ErrorView::Unsupported { message: "Row ranges are not supported for format tables"@ }
}

/// What is said where the catalog returned a partition that does not make sense.
pub open spec fn invalid_metadata(table: Table, source: ErrorView) -> ErrorView {
    ErrorView::DataInvalid {
        message: "Catalog returned invalid partition metadata for Format Table "@
            + table.full_name@,
        source: Some(Box::new(source)),
    }
}

/// What is said where a scan reaches a partition that is not below the table directory.
pub open spec fn custom_location(table: Table, path: Seq<char>) -> ErrorView {
    ErrorView::Unsupported {
        message: "Partition '"@ + path + "' of Format Table "@ + table.full_name@
            + " has a custom location, which a scan does not read"@,
    }
}

/// What is said of a file whose size does not fit.
pub open spec fn file_too_large(path: Seq<char>) -> ErrorView {
    ErrorView::DataInvalid {
        message: "Format table file '"@ + path + "' is too large to fit in i64 metadata"@,
        source: None,
    }
}

/// Whether a partition is among those that a scan asks for.
pub open spec fn partition_asked_for<D: PartitionDialect>(
    dialect: D,
    filter: Option<PartitionFilter>,
    row: Seq<Option<Seq<char>>>,
) -> Result<bool, ErrorView> {
    match filter {
        Some(filter) => dialect.entry_matches(filter, row),
        None => Ok(true),
    }
}

impl<'a> FormatTableScan<'a> {
    pub fn new(
        table: &'a Table,
        partition_filter: Option<PartitionFilter>,
        limit: Option<usize>,
        row_ranges: Option<Vec<RowRange>>,
    ) -> (r: Self)
        ensures
            r.table == table,
            r.partition_filter == partition_filter,
            r.limit == limit,
            r.row_ranges == row_ranges,
    {
        FormatTableScan { table, partition_filter, limit, row_ranges }
    }

    /// The scan for the given row ranges only.
    pub fn with_row_ranges(self, ranges: Vec<RowRange>) -> (r: Self)
        ensures
            r.table == self.table,
            r.partition_filter == self.partition_filter,
            r.limit == self.limit,
            r.row_ranges == Some(ranges),
    {
        FormatTableScan {
            table: self.table,
            partition_filter: self.partition_filter,
            limit: self.limit,
            row_ranges: Some(ranges),
        }
    }

    /// Fails where the table may not be read.
    pub fn ensure_query_auth_allowed(&self) -> (r: Result<(), Error>)
        ensures
            match r {
                Ok(()) => self.table.options.read_refused is None,
                Err(error) => self.table.options.read_refused matches Some(refused) && error@
                    == refused@,
            },
    {
        match &self.table.options.read_refused {
            Some(refused) => Err(refused.copy()),
            None => Ok(()),
        }
    }

    /// Says that the catalog returned a partition that does not make sense, and why.
    pub fn invalid_catalog_partition_metadata(&self, source: Error) -> (r: Error)
        ensures
            r@ == invalid_metadata(*self.table, source@),
    {
        let mut message =
            "Catalog returned invalid partition metadata for Format Table ".to_string();
        message.append(self.table.full_name.as_str());
        Error::DataInvalid { message, source: Some(Box::new(source)) }
    }

    /// Whether a partition is among those that the scan asks for. Without a filter, all are.
    pub fn partition_matches<D: PartitionDialect>(&self, dialect: &D, partition: &BinaryRow) -> (r:
        Result<bool, Error>)
        ensures
            bool_result(r) == partition_asked_for(*dialect, self.partition_filter, partition@),
    {
        match &self.partition_filter {
            Some(filter) => dialect.matches_entry(filter, partition),
            None => Ok(true),
        }
    }

    /// A limit of zero needs no split at all. A positive one keeps every split: a format table
    /// has no row counts, so the number of files says nothing about the number of rows, and
    /// dropping files would answer the query from a guess.
    pub fn apply_limit_pushdown(&self, splits: Vec<DataSplit>) -> (r: Vec<DataSplit>)
        ensures
            r@ == if self.limit == Some(0usize) {
                Seq::empty()
            } else {
                splits@
            },
    {
        match self.limit {
            Some(limit) => if limit == 0 {
                Vec::new()
            } else {
                splits
            },
            None => splits,
        }
    }
}

/// What a result that is a truth value or an error says.
pub open spec fn bool_result(r: Result<bool, Error>) -> Result<bool, ErrorView> {
    match r {
        Ok(value) => Ok(value),
        Err(error) => Err(error@),
    }
}

} // verus!
