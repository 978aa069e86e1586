//! How a table spells its partitions.

use vstd::prelude::*;

use crate::error::{Error, ErrorView};
use crate::model::{field_views, BinaryRow, DataField, DataFieldView, DataType, DataTypeView, Datum};
use crate::model::TextMap;
use crate::predicate::PartitionFilter;
use crate::text::{copy_texts, texts};

verus! {

/// What a result that is a text or an error says.
pub open spec fn text_result(r: Result<String, Error>) -> Result<Seq<char>, ErrorView> {
    match r {
        Ok(text) => Ok(text@),
        Err(error) => Err(error@),
    }
}

/// What a text that may be missing says.
pub open spec fn text_option(r: Option<String>) -> Option<Seq<char>> {
    match r {
        Some(text) => Some(text@),
        None => None,
    }
}

/// The layout of the partition directories of a table.
#[derive(Debug)]
pub struct FormatTablePartitionPaths {
    pub partition_keys: Vec<String>,
    /// Whether a directory is named by the value alone, without the key.
    pub only_value_in_path: bool,
}

/// What a [`FormatTablePartitionPaths`] says.
pub struct PartitionPathsView {
    pub partition_keys: Seq<Seq<char>>,
    pub only_value_in_path: bool,
}

impl FormatTablePartitionPaths {
    pub open spec fn view(self) -> PartitionPathsView {
        PartitionPathsView {
            partition_keys: texts(self.partition_keys@),
            only_value_in_path: self.only_value_in_path,
        }
    }

    pub fn new(partition_keys: &Vec<String>, only_value_in_path: bool) -> (r: Self)
        ensures
            r@ == (PartitionPathsView {
                partition_keys: texts(partition_keys@),
                only_value_in_path,
            }),
    {
        FormatTablePartitionPaths { partition_keys: copy_texts(partition_keys), only_value_in_path }
    }
}

/// What the path of a partition row is computed from, besides the row.
#[derive(Debug)]
pub struct PartitionComputer<'a> {
    pub partition_keys: &'a Vec<String>,
    pub fields: &'a Vec<DataField>,
    pub default_partition_name: &'a str,
    pub legacy_partition_name: bool,
}

/// What a [`PartitionComputer`] says.
pub struct PartitionComputerView {
    pub partition_keys: Seq<Seq<char>>,
    pub fields: Seq<DataFieldView>,
    pub default_partition_name: Seq<char>,
    pub legacy_partition_name: bool,
}

impl<'a> PartitionComputer<'a> {
    pub open spec fn view(self) -> PartitionComputerView {
        PartitionComputerView {
            partition_keys: texts(self.partition_keys@),
            fields: field_views(self.fields@),
            default_partition_name: self.default_partition_name@,
            legacy_partition_name: self.legacy_partition_name,
        }
    }
}

/// The rules by which names and values of partitions become text, and text becomes values.
///
/// Planning is written against these rules and is the same for all of them: its contracts speak
/// of what a dialect makes of a name or a value, whatever the dialect is. Each rule is given as
/// a function of its arguments, and the method beside it is proved to compute that function.
pub trait PartitionDialect {
    /// A name as it stands in a path.
    spec fn escaped(&self, name: Seq<char>) -> Seq<char>;

    /// The name that a path segment stands for, where it is well formed.
    spec fn unescaped(&self, segment: Seq<char>) -> Option<Seq<char>>;

    /// A value as a partition path and the catalog spell it, where its type has a spelling.
    spec fn formatted(
        &self,
        datum: Seq<char>,
        data_type: DataTypeView,
        default_partition_name: Seq<char>,
        legacy_partition_name: bool,
    ) -> Option<Seq<char>>;

    /// The value that a spelling stands for, where it is one of the type.
    spec fn parsed(&self, value: Seq<char>, data_type: DataTypeView) -> Option<Seq<char>>;

    /// Whether partition paths can be computed at all.
    spec fn computer_check(&self, computer: PartitionComputerView) -> Result<(), ErrorView>;

    /// The partition path of a row, with a key in each segment.
    spec fn computed_path(
        &self,
        computer: PartitionComputerView,
        row: Seq<Option<Seq<char>>>,
    ) -> Result<Seq<char>, ErrorView>;

    /// The directory of a partition of the catalog, below the table directory.
    spec fn catalog_path(
        &self,
        paths: PartitionPathsView,
        spec: Map<Seq<char>, Seq<char>>,
    ) -> Result<Seq<char>, ErrorView>;

    /// The name that identifies a partition in the catalog.
    spec fn catalog_name(
        &self,
        paths: PartitionPathsView,
        spec: Map<Seq<char>, Seq<char>>,
    ) -> Result<Seq<char>, ErrorView>;

    /// The pattern of the catalog names that begin with the given values.
    spec fn name_pattern(
        &self,
        paths: PartitionPathsView,
        values: Seq<Seq<char>>,
    ) -> Option<Seq<char>>;

    /// Whether a row is among those that a filter asks for.
    spec fn entry_matches(
        &self,
        filter: PartitionFilter,
        row: Seq<Option<Seq<char>>>,
    ) -> Result<bool, ErrorView>;

    fn escape_path_name(&self, name: &str) -> (r: String)
        ensures
            r@ == self.escaped(name@),
    ;

    fn unescape_path_name(&self, segment: &str) -> (r: Option<String>)
        ensures
            text_option(r) == self.unescaped(segment@),
    ;

    fn format_partition_value(
        &self,
        datum: &Datum,
        data_type: &DataType,
        default_partition_name: &str,
        legacy_partition_name: bool,
    ) -> (r: Option<String>)
        ensures
            text_option(r) == self.formatted(
                datum@,
                data_type@,
                default_partition_name@,
                legacy_partition_name,
            ),
    ;

    fn parse_format_partition_value(&self, value: &str, data_type: &DataType) -> (r: Option<Datum>)
        ensures
            match r {
                Some(datum) => self.parsed(value@, data_type@) == Some(datum@),
                None => self.parsed(value@, data_type@) is None,
            },
    ;

    fn check_partition_computer(&self, computer: &PartitionComputer) -> (r: Result<(), Error>)
        ensures
            match r {
                Ok(()) => self.computer_check(computer@) is Ok,
                Err(error) => self.computer_check(computer@) == Err::<(), ErrorView>(error@),
            },
    ;

    fn generate_partition_path(
        &self,
        computer: &PartitionComputer,
        row: &BinaryRow,
    ) -> (r: Result<String, Error>)
        ensures
            text_result(r) == self.computed_path(computer@, row@),
    ;

    fn relative_path(
        &self,
        paths: &FormatTablePartitionPaths,
        spec: &TextMap,
    ) -> (r: Result<String, Error>)
        ensures
            text_result(r) == self.catalog_path(paths@, spec@),
    ;

    fn partition_name(
        &self,
        paths: &FormatTablePartitionPaths,
        spec: &TextMap,
    ) -> (r: Result<String, Error>)
        ensures
            text_result(r) == self.catalog_name(paths@, spec@),
    ;

    fn name_prefix_pattern(
        &self,
        paths: &FormatTablePartitionPaths,
        values: &Vec<String>,
    ) -> (r: Option<String>)
        ensures
            text_option(r) == self.name_pattern(paths@, texts(values@)),
    ;

    fn matches_entry(&self, filter: &PartitionFilter, row: &BinaryRow) -> (r: Result<bool, Error>)
        ensures
            match r {
                Ok(found) => self.entry_matches(*filter, row@) == Ok::<bool, ErrorView>(found),
                Err(error) => self.entry_matches(*filter, row@) == Err::<bool, ErrorView>(error@),
            },
    ;
}

} // verus!
