//! Columns, rows, specifications and options of a partitioned table.

use vstd::prelude::*;
use vstd::string::*;

use crate::error::{Error, ErrorView};
use crate::text::same_text;

verus! {

/// What the values of a type are. A character string is spelled by its own characters; a value
/// of any other kind can have several spellings, as `1` and `01` for a number.
#[derive(Debug, Clone, Copy, PartialEq, Eq, Structural)]
pub enum TypeKind {
    Character,
    /// Whole numbers within bounds.
    Integer { min: i64, max: i64 },
    Boolean,
    /// Anything else.
    Other,
}

/// The type of a column.
#[derive(Debug)]
pub struct DataType {
    /// The type as it is shown in messages.
    pub name: String,
    pub kind: TypeKind,
}

/// What a [`DataType`] says.
pub struct DataTypeView {
    pub name: Seq<char>,
    pub kind: TypeKind,
}

impl DataType {
    pub open spec fn view(self) -> DataTypeView {
        DataTypeView { name: self.name@, kind: self.kind }
    }

    /// Whether the values are character strings.
    pub fn is_character(&self) -> (r: bool)
        ensures
            r == (self.kind is Character),
    {
        match self.kind {
            TypeKind::Character => true,
            _ => false,
        }
    }
}

/// A column.
#[derive(Debug)]
pub struct DataField {
    pub name: String,
    pub data_type: DataType,
}

/// What a [`DataField`] says.
pub struct DataFieldView {
    pub name: Seq<char>,
    pub data_type: DataTypeView,
}

impl DataField {
    pub open spec fn view(self) -> DataFieldView {
        DataFieldView { name: self.name@, data_type: self.data_type@ }
    }
}

/// What the columns say.
pub open spec fn field_views(fields: Seq<DataField>) -> Seq<DataFieldView> {
    fields.map_values(|f: DataField| f@)
}

/// A value that is not null, in the one canonical text form of its type.
#[derive(Debug)]
pub struct Datum {
    pub text: String,
}

impl Datum {
    pub open spec fn view(self) -> Seq<char> {
        self.text@
    }

    /// A copy of the value.
    pub fn copy(&self) -> (r: Datum)
        ensures
            r == *self,
    {
        Datum { text: self.text.clone() }
    }
}

/// What a value that can be null holds.
pub open spec fn value_view(value: Option<Datum>) -> Option<Seq<char>> {
    match value {
        Some(datum) => Some(datum@),
        None => None,
    }
}

/// The values of the partition columns, in the order of the columns.
#[derive(Debug)]
pub struct BinaryRow {
    pub values: Vec<Option<Datum>>,
}

/// What is said where a row has fewer values than there are columns.
pub open spec fn short_row() -> ErrorView {
    ErrorView::DataInvalid { message: "Partition row has too few fields"@, source: None }
}

/// The value of column `index` in a row.
pub open spec fn extracted(row: Seq<Option<Seq<char>>>, index: int) -> Result<
    Option<Seq<char>>,
    ErrorView,
> {
    if 0 <= index < row.len() {
        Ok(row[index])
    } else {
        Err(short_row())
    }
}

impl BinaryRow {
    pub open spec fn view(self) -> Seq<Option<Seq<char>>> {
        self.values@.map_values(|v: Option<Datum>| value_view(v))
    }

    /// The row without values.
    pub fn empty() -> (r: BinaryRow)
        ensures
            r@ == Seq::<Option<Seq<char>>>::empty(),
    {
        let r = BinaryRow { values: Vec::new() };
        assert(r@ =~= Seq::<Option<Seq<char>>>::empty());
        r
    }

    /// The number of values.
    pub fn arity(&self) -> (r: usize)
        ensures
            r == self@.len(),
    {
        self.values.len()
    }

    /// Whether two rows have the same values.
    pub fn has_values_of(&self, other: &BinaryRow) -> (r: bool)
        ensures
            r == (self@ == other@),
    {
        if self.values.len() != other.values.len() {
            assert(self@.len() != other@.len());
            return false;
        }
        let mut i: usize = 0;
        while i < self.values.len()
            invariant
                0 <= i <= self.values@.len(),
                self.values@.len() == other.values@.len(),
                forall|j: int| 0 <= j < i ==> self@[j] == other@[j],
            decreases self.values@.len() - i,
        {
            let same = match (&self.values[i], &other.values[i]) {
                (Some(x), Some(y)) => same_text(x.text.as_str(), y.text.as_str()),
                (None, None) => true,
                _ => false,
            };
            proof {
                assert(self@[i as int] == value_view(self.values@[i as int]));
                assert(other@[i as int] == value_view(other.values@[i as int]));
            }
            if !same {
                return false;
            }
            i = i + 1;
        }
        assert(self@ =~= other@);
        true
    }

    /// A copy of the row.
    pub fn copy(&self) -> (r: BinaryRow)
        ensures
            r@ == self@,
    {
        let mut values: Vec<Option<Datum>> = Vec::new();
        let mut i: usize = 0;
        while i < self.values.len()
            invariant
                0 <= i <= self.values@.len(),
                values@ == self.values@.take(i as int),
            decreases self.values@.len() - i,
        {
            let value = match &self.values[i] {
                Some(datum) => Some(datum.copy()),
                None => None,
            };
            values.push(value);
            assert(values@ =~= self.values@.take(i + 1));
            i = i + 1;
        }
        assert(values@ =~= self.values@);
        BinaryRow { values }
    }
}

/// What the rows hold.
pub open spec fn row_views(rows: Seq<BinaryRow>) -> Seq<Seq<Option<Seq<char>>>> {
    rows.map_values(|r: BinaryRow| r@)
}

/// The value of column `index`; an error where the row is too short to have one.
pub fn extract_datum<'a>(row: &'a BinaryRow, index: usize) -> (r: Result<Option<&'a Datum>, Error>)
    ensures
        match r {
            Ok(Some(datum)) => extracted(row@, index as int) == Ok::<Option<Seq<char>>, ErrorView>(
                Some(datum@),
            ),
            Ok(None) => extracted(row@, index as int) == Ok::<Option<Seq<char>>, ErrorView>(None),
            Err(error) => extracted(row@, index as int) == Err::<Option<Seq<char>>, ErrorView>(
                error@,
            ),
        },
{
    if index < row.values.len() {
        assert(row@[index as int] == value_view(row.values@[index as int]));
        match &row.values[index] {
            Some(datum) => Ok(Some(datum)),
            None => Ok(None),
        }
    } else {
        Err(
            Error::DataInvalid {
                message: "Partition row has too few fields".to_string(),
                source: None,
            },
        )
    }
}

/// Texts by name, as the catalog keeps them: the specification of a partition, or its options.
#[derive(Debug)]
pub struct TextMap {
    pub entries: Vec<(String, String)>,
}

/// The map that inserting the entries in order gives.
pub open spec fn entries_map(entries: Seq<(String, String)>) -> Map<Seq<char>, Seq<char>>
    decreases entries.len(),
{
    if entries.len() == 0 {
        Map::empty()
    } else {
        entries_map(entries.drop_last()).insert(entries.last().0@, entries.last().1@)
    }
}

impl TextMap {
    pub open spec fn view(self) -> Map<Seq<char>, Seq<char>> {
        entries_map(self.entries@)
    }

    /// The map without entries.
    pub fn new() -> (r: TextMap)
        ensures
            r@ == Map::<Seq<char>, Seq<char>>::empty(),
    {
        TextMap { entries: Vec::new() }
    }

    /// Sets the text of a name.
    pub fn insert(&mut self, name: String, text: String)
        ensures
            final(self)@ == old(self)@.insert(name@, text@),
    {
        self.entries.push((name, text));
        assert(self.entries@.drop_last() =~= old(self).entries@);
    }

    /// The text of a name.
    pub fn get<'a>(&'a self, name: &str) -> (r: Option<&'a String>)
        ensures
            match r {
                Some(text) => self@.contains_key(name@) && self@[name@] == text@,
                None => !self@.contains_key(name@),
            },
    {
        let mut i: usize = self.entries.len();
        assert(self.entries@.take(self.entries@.len() as int) =~= self.entries@);
        while i > 0
            invariant
                0 <= i <= self.entries@.len(),
                self@.contains_key(name@) == entries_map(
                    self.entries@.take(i as int),
                ).contains_key(name@),
                self@.contains_key(name@) ==> self@[name@] == entries_map(
                    self.entries@.take(i as int),
                )[name@],
            decreases i,
        {
            assert(self.entries@.take(i as int).drop_last() =~= self.entries@.take(i - 1));
            assert(self.entries@.take(i as int).last() == self.entries@[i - 1]);
            if same_text(self.entries[i - 1].0.as_str(), name) {
                return Some(&self.entries[i - 1].1);
            }
            i = i - 1;
        }
        None
    }

    /// A copy of the map.
    pub fn copy(&self) -> (r: TextMap)
        ensures
            r@ == self@,
    {
        let mut entries: Vec<(String, String)> = Vec::new();
        let mut i: usize = 0;
        while i < self.entries.len()
            invariant
                0 <= i <= self.entries@.len(),
                entries@ == self.entries@.take(i as int),
            decreases self.entries@.len() - i,
        {
            entries.push((self.entries[i].0.clone(), self.entries[i].1.clone()));
            assert(entries@ =~= self.entries@.take(i + 1));
            i = i + 1;
        }
        assert(entries@ =~= self.entries@);
        TextMap { entries }
    }
}

/// A partition as the catalog lists it.
#[derive(Debug)]
pub struct CatalogPartition {
    /// The value of each partition column, as the catalog spells it.
    pub spec: TextMap,
    pub options: Option<TextMap>,
}

/// What a [`CatalogPartition`] says.
pub struct CatalogPartitionView {
    pub spec: Map<Seq<char>, Seq<char>>,
    pub options: Option<Map<Seq<char>, Seq<char>>>,
}

impl CatalogPartition {
    pub open spec fn view(self) -> CatalogPartitionView {
        CatalogPartitionView {
            spec: self.spec@,
            options: match self.options {
                Some(options) => Some(options@),
                None => None,
            },
        }
    }

    /// Whether the partition lives at a location of its own, away from the table directory.
    pub fn has_custom_location(&self) -> (r: bool)
        ensures
            r == self@.has_custom_location(),
    {
        match &self.options {
            Some(options) => options.get("path").is_some(),
            None => false,
        }
    }
}

impl CatalogPartitionView {
    /// The option `path` gives a partition a location of its own.
    pub open spec fn has_custom_location(self) -> bool {
        self.options matches Some(options) && options.contains_key("path"@)
    }
}

/// What the partitions say.
pub open spec fn partition_views(partitions: Seq<CatalogPartition>) -> Seq<CatalogPartitionView> {
    partitions.map_values(|p: CatalogPartition| p@)
}

/// The columns of a table.
#[derive(Debug)]
pub struct TableSchema {
    pub id: i64,
    pub fields: Vec<DataField>,
    /// The names of the partition columns.
    pub partition_keys: Vec<String>,
    /// The partition columns, in the order of their names in `partition_keys`.
    pub partition_fields: Vec<DataField>,
}

impl TableSchema {
    /// There is a partition column for each partition key.
    pub open spec fn wf(self) -> bool {
        &&& self.partition_keys@.len() == self.partition_fields@.len()
        &&& forall|i: int|
            0 <= i < self.partition_keys@.len() ==> (#[trigger] self.partition_fields@[i]).name@
                == self.partition_keys@[i]@
    }
}

/// The options of a table.
#[derive(Debug)]
pub struct CoreOptions {
    /// The option `file.format`.
    pub file_format: String,
    /// The option `path`.
    pub path: Option<String>,
    /// How the directory of a null is named.
    pub partition_default_name: String,
    pub legacy_partition_name: bool,
    /// Whether a partition directory is named by the value alone.
    pub only_value_in_path: bool,
    /// Why the table may not be read, where it may not.
    pub read_refused: Option<Error>,
}

/// The options that the catalog gave for a table whose partitions it manages.
#[derive(Debug)]
pub struct LoadedFormatTablePartitionOptions {
    pub file_format: String,
    pub table_path: String,
    pub only_value_in_path: bool,
}

/// A format table.
#[derive(Debug)]
pub struct Table {
    /// The database and the name.
    pub full_name: String,
    pub location: String,
    pub schema: TableSchema,
    pub options: CoreOptions,
    /// Present where the catalog, and not the directory tree, says which partitions there are.
    pub managed_partitions: Option<LoadedFormatTablePartitionOptions>,
}

/// A name of a map of texts has the text of its last entry, and a name without an entry has none.
pub proof fn law_the_last_entry_counts(map: TextMap, name: Seq<char>, i: int)
    requires
        -1 <= i < map.entries@.len(),
        i >= 0 ==> map.entries@[i].0@ == name,
        forall|j: int| i < j < map.entries@.len() ==> (#[trigger] map.entries@[j]).0@ != name,
    ensures
        i < 0 ==> !map@.contains_key(name),
        i >= 0 ==> map@.contains_key(name) && map@[name] == map.entries@[i].1@,
{
    lemma_last_entry(map.entries@, name, i);
}

proof fn lemma_last_entry(entries: Seq<(String, String)>, name: Seq<char>, i: int)
    requires
        -1 <= i < entries.len(),
        i >= 0 ==> entries[i].0@ == name,
        forall|j: int| i < j < entries.len() ==> (#[trigger] entries[j]).0@ != name,
    ensures
        i < 0 ==> !entries_map(entries).contains_key(name),
        i >= 0 ==> entries_map(entries).contains_key(name) && entries_map(entries)[name]
            == entries[i].1@,
    decreases entries.len(),
{
    let last = entries.len() - 1;
    if i < last {
        let front = entries.drop_last();
        assert(entries[last].0@ != name);
        assert forall|j: int| i < j < front.len() implies (#[trigger] front[j]).0@ != name by {
            assert(entries[j].0@ != name);
        }
        lemma_last_entry(front, name, i);
    }
}

} // verus!
