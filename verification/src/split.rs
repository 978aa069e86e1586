//! Splits and plans: what a scan hands to a reader.

use vstd::prelude::*;

use crate::model::BinaryRow;
use crate::order::{text_before, Ordered};
use crate::text::same_text;

verus! {

/// Statistics of columns, in serialized form.
#[derive(Debug)]
pub struct BinaryTableStats {
    pub min_values: Vec<u8>,
    pub max_values: Vec<u8>,
    pub null_counts: Vec<Option<i64>>,
}

impl BinaryTableStats {
    /// Whether the statistics are of no column.
    pub open spec fn is_empty(self) -> bool {
        self.min_values@.len() == 0 && self.max_values@.len() == 0 && self.null_counts@.len() == 0
    }

    /// The statistics of no column.
    pub fn empty() -> (r: BinaryTableStats)
        ensures
            r.is_empty(),
    {
        BinaryTableStats {
            min_values: Vec::new(),
            max_values: Vec::new(),
            null_counts: Vec::new(),
        }
    }
}

/// What is known of a data file.
#[derive(Debug)]
pub struct DataFileMeta {
    pub file_name: String,
    pub file_size: i64,
    /// `None` where the number of rows is unknown.
    pub row_count: Option<i64>,
    pub min_key: Vec<u8>,
    pub max_key: Vec<u8>,
    pub key_stats: BinaryTableStats,
    pub value_stats: BinaryTableStats,
    pub min_sequence_number: i64,
    pub max_sequence_number: i64,
    pub schema_id: i64,
    pub level: i32,
    pub extra_files: Vec<String>,
    /// Milliseconds since the epoch.
    pub creation_time: Option<i64>,
    pub delete_row_count: Option<i64>,
    pub embedded_index: Option<Vec<u8>>,
    pub file_source: Option<i32>,
    pub value_stats_cols: Option<Vec<String>>,
    pub external_path: Option<String>,
    pub first_row_id: Option<i64>,
    pub write_cols: Option<Vec<String>>,
    pub column_max_sequence_numbers: Option<Vec<i64>>,
}

impl DataFileMeta {
    /// Whether the file is a plain one, of which the name, the size and the schema are known and
    /// nothing else. No row of such a file is deleted.
    pub open spec fn is_plain(self, file_name: Seq<char>, file_size: i64, schema_id: i64) -> bool {
        &&& self.file_name@ == file_name
        &&& self.file_size == file_size
        &&& self.row_count is None
        &&& self.min_key@.len() == 0
        &&& self.max_key@.len() == 0
        &&& self.key_stats.is_empty()
        &&& self.value_stats.is_empty()
        &&& self.min_sequence_number == 0
        &&& self.max_sequence_number == 0
        &&& self.schema_id == schema_id
        &&& self.level == 0
        &&& self.extra_files@.len() == 0
        &&& self.creation_time is None
        &&& self.delete_row_count == Some(0i64)
        &&& self.embedded_index is None
        &&& self.file_source is None
        &&& self.value_stats_cols is None
        &&& self.external_path is None
        &&& self.first_row_id is None
        &&& self.write_cols is None
        &&& self.column_max_sequence_numbers is None
    }
}

/// The metadata of a file of which only the name, the size and the schema are known.
pub fn data_file_meta(file_name: String, file_size: i64, schema_id: i64) -> (r: DataFileMeta)
    ensures
        r.is_plain(file_name@, file_size, schema_id),
{
    DataFileMeta {
        file_name,
        file_size,
        row_count: None,
        min_key: Vec::new(),
        max_key: Vec::new(),
        key_stats: BinaryTableStats::empty(),
        value_stats: BinaryTableStats::empty(),
        min_sequence_number: 0,
        max_sequence_number: 0,
        schema_id,
        level: 0,
        extra_files: Vec::new(),
        creation_time: None,
        delete_row_count: Some(0),
        embedded_index: None,
        file_source: None,
        value_stats_cols: None,
        external_path: None,
        first_row_id: None,
        write_cols: None,
        column_max_sequence_numbers: None,
    }
}

/// A piece of a plan that one reader takes.
#[derive(Debug)]
pub struct DataSplit {
    pub snapshot_id: i64,
    pub partition: BinaryRow,
    pub bucket: i32,
    /// The directory of the data files.
    pub bucket_path: String,
    pub total_buckets: i32,
    pub data_files: Vec<DataFileMeta>,
    pub raw_convertible: bool,
}

/// A data file with what a split says of it.
pub struct PlannedFile {
    pub partition: Seq<Option<Seq<char>>>,
    pub bucket_path: Seq<char>,
    pub file_name: Seq<char>,
    pub file_size: i64,
    pub schema_id: i64,
}

impl PlannedFile {
    /// Files are planned by directory, then by name.
    pub open spec fn order_key(self) -> (Seq<char>, Seq<char>) {
        (self.bucket_path, self.file_name)
    }
}

/// The keys by which the files are planned.
pub open spec fn file_keys(files: Seq<PlannedFile>) -> Seq<(Seq<char>, Seq<char>)> {
    files.map_values(|f: PlannedFile| f.order_key())
}

impl DataSplit {
    /// Whether the split is the one of `file` alone, to be read as it is.
    pub open spec fn is_of(self, file: PlannedFile) -> bool {
        &&& self.snapshot_id == 0
        &&& self.partition@ == file.partition
        &&& self.bucket == 0
        &&& self.bucket_path@ == file.bucket_path
        &&& self.total_buckets == 1
        &&& self.data_files@.len() == 1
        &&& self.data_files@[0].is_plain(file.file_name, file.file_size, file.schema_id)
        &&& self.raw_convertible
    }

    /// The name of the first data file.
    pub open spec fn first_file_name(self) -> Seq<char> {
        if self.data_files@.len() > 0 {
            self.data_files@[0].file_name@
        } else {
            Seq::empty()
        }
    }

    /// The split of one file.
    pub fn of_file(partition: BinaryRow, bucket_path: String, data_file: DataFileMeta) -> (r:
        DataSplit)
        ensures
            r.snapshot_id == 0,
            r.partition == partition,
            r.bucket == 0,
            r.bucket_path == bucket_path,
            r.total_buckets == 1,
            r.data_files@ == seq![data_file],
            r.raw_convertible,
    {
        let mut data_files: Vec<DataFileMeta> = Vec::new();
        data_files.push(data_file);
        DataSplit {
            snapshot_id: 0,
            partition,
            bucket: 0,
            bucket_path,
            total_buckets: 1,
            data_files,
            raw_convertible: true,
        }
    }
}

impl Ordered for DataSplit {
    open spec fn order_key(&self) -> (Seq<char>, Seq<char>) {
        (self.bucket_path@, self.first_file_name())
    }

    fn precedes(&self, other: &Self) -> (r: bool) {
        if text_before(self.bucket_path.as_str(), other.bucket_path.as_str()) {
            return true;
        }
        if !same_text(self.bucket_path.as_str(), other.bucket_path.as_str()) {
            return false;
        }
        if other.data_files.len() == 0 {
            return false;
        }
        if self.data_files.len() == 0 {
            return !other.data_files[0].file_name.as_str().is_empty();
        }
        text_before(
            self.data_files[0].file_name.as_str(),
            other.data_files[0].file_name.as_str(),
        )
    }
}

/// Whether the splits are those of the files, one for one.
pub open spec fn splits_of(splits: Seq<DataSplit>, files: Seq<PlannedFile>) -> bool {
    &&& splits.len() == files.len()
    &&& forall|i: int| 0 <= i < splits.len() ==> (#[trigger] splits[i]).is_of(files[i])
}

/// The splits of a scan.
#[derive(Debug)]
pub struct Plan {
    pub splits: Vec<DataSplit>,
}

/// The sizes of the files of the splits, added up.
pub open spec fn total_file_bytes(splits: Seq<DataSplit>) -> int
    decreases splits.len(),
{
    if splits.len() == 0 {
        0
    } else {
        total_file_bytes(splits.drop_last()) + splits.last().data_files@[0].file_size
    }
}

impl Plan {
    /// Each split has one data file.
    pub open spec fn wf(self) -> bool {
        forall|i: int|
            0 <= i < self.splits@.len() ==> (#[trigger] self.splits@[i]).data_files@.len() == 1
    }

    /// The number of bytes in the data files of the plan.
    pub fn planned_data_file_bytes(&self) -> (r: i128)
        requires
            self.wf(),
        ensures
            r == total_file_bytes(self.splits@),
    {
        let mut bytes: i128 = 0;
        let mut i: usize = 0;
        assert(self.splits@.take(0) =~= Seq::empty());
        while i < self.splits.len()
            invariant
                0 <= i <= self.splits@.len(),
                self.wf(),
                bytes == total_file_bytes(self.splits@.take(i as int)),
                i * (i64::MIN as int) <= bytes <= i * (i64::MAX as int),
            decreases self.splits@.len() - i,
        {
            proof {
                assert(self.splits@.take(i + 1).drop_last() =~= self.splits@.take(i as int));
                assert(self.splits@[i as int].data_files@.len() == 1);
            }
            bytes = bytes + self.splits[i].data_files[0].file_size as i128;
            i = i + 1;
        }
        assert(self.splits@.take(i as int) =~= self.splits@);
        bytes
    }
}

/// What a scan reports of its plan.
#[derive(Debug)]
pub struct ScanTrace {
    /// The numbers of entries, of files and of splits that are left in the final plan.
    pub final_plan: Option<(usize, usize, usize)>,
    pub planned_data_file_bytes: i128,
}

} // verus!
