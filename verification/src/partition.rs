//! Rows of partition values, to and from paths and catalog specifications.

use vstd::prelude::*;
use vstd::string::*;

use crate::collect::{all_ok, all_some, lemma_all_ok_settled, lemma_all_ok_step};
use crate::dialect::{text_option, text_result, PartitionDialect};
use crate::error::{Error, ErrorView};
use crate::leading::{partition_segment, path_segment, path_segments};
use crate::model::{extract_datum, extracted, field_views, value_view, BinaryRow, DataField};
use crate::model::{DataFieldView, DataType, DataTypeView, Datum, TableSchema, TextMap};
use crate::text::{chars_of, first_position, has_prefix, join_texts, joined};
use crate::text::{lemma_first_position_is, same_text, split_on, split_on_char, strip_prefix_text};
use crate::text::{texts, trim_end, trim_end_char, trim_start, trim_start_char};

verus! {

/// What is said where a type has no spelling in a path.
pub open spec fn unsupported_type(data_type: DataTypeView) -> ErrorView {
    ErrorView::Unsupported {
        message: "Format table partition path generation does not support type '"@ + data_type.name
            + "'"@,
    }
}

/// How the value of column `index` of a row stands in a path: a null by the default name, any
/// other value by its spelling.
pub open spec fn path_value<D: PartitionDialect>(
    dialect: D,
    row: Seq<Option<Seq<char>>>,
    field: DataFieldView,
    index: int,
    default_partition_name: Seq<char>,
    legacy_partition_name: bool,
) -> Result<Seq<char>, ErrorView> {
    match extracted(row, index) {
        Err(error) => Err(error),
        Ok(None) => Ok(default_partition_name),
        Ok(Some(datum)) => match dialect.formatted(
            datum,
            field.data_type,
            default_partition_name,
            legacy_partition_name,
        ) {
            Some(value) => Ok(value),
            None => Err(unsupported_type(field.data_type)),
        },
    }
}

/// How each value of a row stands in a path.
pub open spec fn path_values<D: PartitionDialect>(
    dialect: D,
    row: Seq<Option<Seq<char>>>,
    fields: Seq<DataFieldView>,
    default_partition_name: Seq<char>,
    legacy_partition_name: bool,
) -> Seq<Result<Seq<char>, ErrorView>> {
    Seq::new(
        fields.len(),
        |i: int|
            path_value(
                dialect,
                row,
                fields[i],
                i,
                default_partition_name,
                legacy_partition_name,
            ),
    )
}

/// The names of the columns.
pub open spec fn field_names(fields: Seq<DataFieldView>) -> Seq<Seq<char>> {
    fields.map_values(|f: DataFieldView| f.name)
}

/// The partition keys are the names of the partition columns.
pub(crate) proof fn lemma_keys_name_the_columns(schema: TableSchema)
    requires
        schema.wf(),
    ensures
        field_names(field_views(schema.partition_fields@)) == texts(schema.partition_keys@),
{
    let fields = field_views(schema.partition_fields@);
    let keys = texts(schema.partition_keys@);
    assert forall|i: int| 0 <= i < keys.len() implies field_names(fields)[i] == keys[i] by {
        assert(schema.partition_fields@[i].name@ == schema.partition_keys@[i]@);
    }
    assert(field_names(fields) =~= keys);
}

/// The path of a row below the table directory.
pub open spec fn row_path<D: PartitionDialect>(
    dialect: D,
    row: Seq<Option<Seq<char>>>,
    fields: Seq<DataFieldView>,
    default_partition_name: Seq<char>,
    legacy_partition_name: bool,
    only_value_in_path: bool,
) -> Result<Seq<char>, ErrorView> {
    match all_ok(path_values(dialect, row, fields, default_partition_name, legacy_partition_name)) {
        Err(error) => Err(error),
        Ok(values) => Ok(
            joined(path_segments(dialect, field_names(fields), values, only_value_in_path), "/"@),
        ),
    }
}

/// Writes the path of a row below the table directory: one segment for each partition column.
pub fn partition_path_from_row<D: PartitionDialect>(
    dialect: &D,
    row: &BinaryRow,
    partition_fields: &Vec<DataField>,
    default_partition_name: &str,
    legacy_partition_name: bool,
    only_value_in_path: bool,
) -> (r: Result<String, Error>)
    ensures
        text_result(r) == row_path(
            *dialect,
            row@,
            field_views(partition_fields@),
            default_partition_name@,
            legacy_partition_name,
            only_value_in_path,
        ),
{
    let ghost fields = field_views(partition_fields@);
    let ghost outcomes = path_values(
        *dialect,
        row@,
        fields,
        default_partition_name@,
        legacy_partition_name,
    );
    let ghost mut values: Seq<Seq<char>> = Seq::empty();
    let mut segments: Vec<String> = Vec::new();
    let mut i: usize = 0;
    assert(outcomes.take(0) =~= Seq::empty());
    while i < partition_fields.len()
        invariant
            0 <= i <= partition_fields@.len(),
            fields == field_views(partition_fields@),
            outcomes == path_values(
                *dialect,
                row@,
                fields,
                default_partition_name@,
                legacy_partition_name,
            ),
            values.len() == i,
            all_ok(outcomes.take(i as int)) == Ok::<Seq<Seq<char>>, ErrorView>(values),
            segments@.len() == i,
            forall|j: int|
                0 <= j < i ==> (#[trigger] segments@[j])@ == path_segment(
                    *dialect,
                    fields[j].name,
                    values[j],
                    only_value_in_path,
                ),
        decreases partition_fields@.len() - i,
    {
        let field = &partition_fields[i];
        proof {
            assert(fields[i as int] == field@);
            lemma_all_ok_step(outcomes, i as int);
        }
        let value = match extract_datum(row, i) {
            Err(error) => {
                proof {
                    lemma_all_ok_settled(outcomes, i + 1);
                }
                return Err(error);
            },
            Ok(None) => default_partition_name.to_string(),
            Ok(Some(datum)) => match dialect.format_partition_value(
                datum,
                &field.data_type,
                default_partition_name,
                legacy_partition_name,
            ) {
                Some(value) => value,
                None => {
                    let mut message =
                        "Format table partition path generation does not support type '".to_string();
                    message.append(field.data_type.name.as_str());
                    message.append("'");
                    proof {
                        lemma_all_ok_settled(outcomes, i + 1);
                    }
                    return Err(Error::Unsupported { message });
                },
            },
        };
        segments.push(
            partition_segment(dialect, field.name.as_str(), value.as_str(), only_value_in_path),
        );
        proof {
            values = values.push(value@);
        }
        i = i + 1;
    }
    proof {
        assert(outcomes.take(i as int) =~= outcomes);
        assert(texts(segments@) =~= path_segments(
            *dialect,
            field_names(fields),
            values,
            only_value_in_path,
        ));
    }
    Ok(join_texts(&segments, "/"))
}

/// The value that a segment `key=value` gives for `key`, if it is one for that key.
pub open spec fn segment_value<D: PartitionDialect>(
    dialect: D,
    segment: Seq<char>,
    key: Seq<char>,
) -> Option<Seq<char>> {
    let at = first_position(segment, '=') as int;
    if at < segment.len() && dialect.unescaped(segment.take(at)) == Some(key) {
        dialect.unescaped(segment.skip(at + 1))
    } else {
        None
    }
}

/// The value of the partition column `key` in a path segment; `None` where the segment is not
/// one for that column or does not unescape.
pub fn partition_segment_value<D: PartitionDialect>(dialect: &D, segment: &str, key: &str) -> (r:
    Option<String>)
    ensures
        text_option(r) == segment_value(*dialect, segment@, key@),
{
    let chars = chars_of(segment);
    let mut at: usize = 0;
    while at < chars.len() && chars[at] != '='
        invariant
            0 <= at <= chars@.len(),
            chars@ == segment@,
            forall|j: int| 0 <= j < at ==> segment@[j] != '=',
        decreases chars@.len() - at,
    {
        at = at + 1;
    }
    proof {
        lemma_first_position_is(segment@, '=', at as int);
    }
    if at == chars.len() {
        return None;
    }
    let segment_key = segment.substring_char(0, at);
    let value = segment.substring_char(at + 1, chars.len());
    proof {
        assert(segment_key@ =~= segment@.take(at as int));
        assert(value@ =~= segment@.skip(at + 1));
    }
    match dialect.unescape_path_name(segment_key) {
        Some(name) => {
            if same_text(name.as_str(), key) {
                dialect.unescape_path_name(value)
            } else {
                None
            }
        },
        None => None,
    }
}

/// What is left of `path`, without the slashes at its start, when the table directory is taken off
/// its front, slashes at the end of either not counted; `None` where `path` does not begin with the
/// characters of the table directory. Those characters need not end at a slash: `/t_x` leaves `_x`
/// of the table directory `/t`.
pub open spec fn relative_to(table_path: Seq<char>, path: Seq<char>) -> Option<Seq<char>> {
    let table = trim_end(table_path, '/');
    let path = trim_end(path, '/');
    if has_prefix(path, table) {
        Some(trim_start(path.skip(table.len() as int), '/'))
    } else {
        None
    }
}

/// The segments of a path that are not empty.
pub open spec fn named_segments(path: Seq<char>) -> Seq<Seq<char>> {
    split_on(path, '/').filter(|s: Seq<char>| s.len() > 0)
}

/// The first value that the segments give for `key`.
pub open spec fn first_value<D: PartitionDialect>(
    dialect: D,
    segments: Seq<Seq<char>>,
    key: Seq<char>,
) -> Option<Seq<char>>
    decreases segments.len(),
{
    if segments.len() == 0 {
        None
    } else {
        match segment_value(dialect, segments[0], key) {
            Some(value) => Some(value),
            None => first_value(dialect, segments.drop_first(), key),
        }
    }
}

/// The spelling of each partition value in a path below the table directory, where each is there.
pub open spec fn values_in_path<D: PartitionDialect>(
    dialect: D,
    relative: Seq<char>,
    keys: Seq<Seq<char>>,
    only_value_in_path: bool,
) -> Option<Seq<Seq<char>>> {
    if relative.len() == 0 {
        None
    } else if only_value_in_path {
        let segments = named_segments(relative);
        if segments.len() < keys.len() {
            None
        } else {
            all_some(Seq::new(keys.len(), |i: int| dialect.unescaped(segments[i])))
        }
    } else {
        let segments = split_on(relative, '/');
        all_some(Seq::new(keys.len(), |i: int| first_value(dialect, segments, keys[i])))
    }
}

/// The value that a spelling in a path stands for: null for the default name.
pub open spec fn value_read<D: PartitionDialect>(
    dialect: D,
    value: Seq<char>,
    field: DataFieldView,
    default_partition_name: Seq<char>,
) -> Option<Option<Seq<char>>> {
    if value == default_partition_name {
        Some(None)
    } else {
        match dialect.parsed(value, field.data_type) {
            Some(datum) => Some(Some(datum)),
            None => None,
        }
    }
}

/// The row of the directory `file_parent`, where the directory is one of a partition.
pub open spec fn row_in_path<D: PartitionDialect>(
    dialect: D,
    table_path: Seq<char>,
    file_parent: Seq<char>,
    fields: Seq<DataFieldView>,
    keys: Seq<Seq<char>>,
    default_partition_name: Seq<char>,
    only_value_in_path: bool,
) -> Option<Seq<Option<Seq<char>>>> {
    match relative_to(table_path, file_parent) {
        None => None,
        Some(relative) => match values_in_path(dialect, relative, keys, only_value_in_path) {
            None => None,
            Some(values) => all_some(
                Seq::new(
                    values.len(),
                    |i: int| value_read(dialect, values[i], fields[i], default_partition_name),
                ),
            ),
        },
    }
}

/// What a row that may be missing holds.
pub open spec fn row_option(row: Option<BinaryRow>) -> Option<Seq<Option<Seq<char>>>> {
    match row {
        Some(row) => Some(row@),
        None => None,
    }
}

/// The part of `path` below the table directory.
pub(crate) fn path_below_table(table_path: &str, path: &str) -> (r: Option<String>)
    ensures
        text_option(r) == relative_to(table_path@, path@),
{
    match strip_prefix_text(trim_end_char(path, '/'), trim_end_char(table_path, '/')) {
        Some(rest) => Some(trim_start_char(rest, '/').to_string()),
        None => None,
    }
}

/// The segments of a path that are not empty.
pub(crate) fn named_path_segments(path: &str) -> (r: Vec<String>)
    ensures
        texts(r@) == named_segments(path@),
{
    let pieces = split_on_char(path, '/');
    let ghost all = split_on(path@, '/');
    let ghost named = |s: Seq<char>| s.len() > 0;
    let mut r: Vec<String> = Vec::new();
    let mut i: usize = 0;
    assert(all.take(0).filter(named) =~= Seq::empty()) by {
        reveal(Seq::filter);
    }
    while i < pieces.len()
        invariant
            0 <= i <= pieces@.len(),
            texts(pieces@) == all,
            named == (|s: Seq<char>| s.len() > 0),
            texts(r@) == all.take(i as int).filter(named),
        decreases pieces@.len() - i,
    {
        let ghost before = texts(r@);
        assert(all.take(i + 1).filter(named) == if named(all[i as int]) {
            before.push(all[i as int])
        } else {
            before
        }) by {
            reveal(Seq::filter);
            assert(all.take(i + 1).drop_last() =~= all.take(i as int));
        }
        assert(all[i as int] == pieces@[i as int]@);
        if !pieces[i].as_str().is_empty() {
            r.push(pieces[i].clone());
            assert(texts(r@) =~= before.push(all[i as int]));
        }
        i = i + 1;
    }
    assert(all.take(i as int) =~= all);
    r
}

/// The first value that the segments give for `key`.
fn find_partition_value<D: PartitionDialect>(dialect: &D, segments: &Vec<String>, key: &str) -> (r:
    Option<String>)
    ensures
        text_option(r) == first_value(*dialect, texts(segments@), key@),
{
    let ghost all = texts(segments@);
    let mut i: usize = 0;
    assert(all.skip(0) =~= all);
    while i < segments.len()
        invariant
            0 <= i <= segments@.len(),
            all == texts(segments@),
            first_value(*dialect, all, key@) == first_value(*dialect, all.skip(i as int), key@),
        decreases segments@.len() - i,
    {
        proof {
            assert(all.skip(i as int)[0] == segments@[i as int]@);
            assert(all.skip(i as int).drop_first() =~= all.skip(i + 1));
        }
        let value = partition_segment_value(dialect, segments[i].as_str(), key);
        if value.is_some() {
            return value;
        }
        i = i + 1;
    }
    None
}

/// The spelling of each partition value in a path below the table directory.
fn partition_values_in_path<D: PartitionDialect>(
    dialect: &D,
    relative: &str,
    partition_keys: &Vec<String>,
    only_value_in_path: bool,
) -> (r: Option<Vec<String>>)
    ensures
        match r {
            Some(values) => values_in_path(
                *dialect,
                relative@,
                texts(partition_keys@),
                only_value_in_path,
            ) == Some(texts(values@)),
            None => values_in_path(
                *dialect,
                relative@,
                texts(partition_keys@),
                only_value_in_path,
            ) is None,
        },
{
    if relative.is_empty() {
        return None;
    }
    let segments = if only_value_in_path {
        named_path_segments(relative)
    } else {
        split_on_char(relative, '/')
    };
    let ghost keys = texts(partition_keys@);
    let ghost pieces = texts(segments@);
    assert(pieces.len() == segments@.len());
    if only_value_in_path && segments.len() < partition_keys.len() {
        return None;
    }
    let ghost expected = if only_value_in_path {
        Seq::new(keys.len(), |i: int| dialect.unescaped(pieces[i]))
    } else {
        Seq::new(keys.len(), |i: int| first_value(*dialect, pieces, keys[i]))
    };
    let mut values: Vec<String> = Vec::new();
    let mut i: usize = 0;
    while i < partition_keys.len()
        invariant
            0 <= i <= partition_keys@.len(),
            relative@.len() > 0,
            only_value_in_path ==> segments@.len() >= partition_keys@.len(),
            keys == texts(partition_keys@),
            pieces == texts(segments@),
            only_value_in_path ==> pieces == named_segments(relative@),
            !only_value_in_path ==> pieces == split_on(relative@, '/'),
            expected == if only_value_in_path {
                Seq::new(keys.len(), |i: int| dialect.unescaped(pieces[i]))
            } else {
                Seq::new(keys.len(), |i: int| first_value(*dialect, pieces, keys[i]))
            },
            values@.len() == i,
            forall|j: int| 0 <= j < i ==> #[trigger] expected[j] == Some(values@[j]@),
        decreases partition_keys@.len() - i,
    {
        let value = if only_value_in_path {
            assert(pieces[i as int] == segments@[i as int]@);
            dialect.unescape_path_name(segments[i].as_str())
        } else {
            assert(keys[i as int] == partition_keys@[i as int]@);
            find_partition_value(dialect, &segments, partition_keys[i].as_str())
        };
        assert(expected[i as int] == text_option(value));
        match value {
            Some(value) => {
                values.push(value);
            },
            None => {
                return None;
            },
        }
        i = i + 1;
    }
    assert(texts(values@) =~= expected.map_values(|v: Option<Seq<char>>| v->0)) by {
        assert forall|j: int| 0 <= j < values@.len() implies texts(values@)[j] == expected.map_values(
            |v: Option<Seq<char>>| v->0,
        )[j] by {
            assert(expected[j] == Some(values@[j]@));
        }
    }
    Some(values)
}

/// Reads the partition values of a file from the directory that it lies in.
///
/// With only values in the path, the first segments below the table directory are the values in
/// the order of the keys; otherwise each key is looked up among the segments `key=value`. The
/// result is `None` where the directory does not lie below the table directory, where a value
/// is missing, or where one is not a value of its column. The default name reads as null.
pub fn partition_row_from_path<D: PartitionDialect>(
    dialect: &D,
    table_path: &str,
    file_parent: &str,
    partition_fields: &Vec<DataField>,
    partition_keys: &Vec<String>,
    default_partition_name: &str,
    only_value_in_path: bool,
) -> (r: Result<Option<BinaryRow>, Error>)
    requires
        partition_keys@.len() == partition_fields@.len(),
    ensures
        r matches Ok(row) && row_option(row) == row_in_path(
            *dialect,
            table_path@,
            file_parent@,
            field_views(partition_fields@),
            texts(partition_keys@),
            default_partition_name@,
            only_value_in_path,
        ),
{
    let relative = match path_below_table(table_path, file_parent) {
        Some(relative) => relative,
        None => {
            return Ok(None);
        },
    };
    let spellings = match partition_values_in_path(
        dialect,
        relative.as_str(),
        partition_keys,
        only_value_in_path,
    ) {
        Some(spellings) => spellings,
        None => {
            return Ok(None);
        },
    };
    let ghost fields = field_views(partition_fields@);
    let ghost texts_read = texts(spellings@);
    let ghost expected = Seq::new(
        texts_read.len(),
        |i: int| value_read(*dialect, texts_read[i], fields[i], default_partition_name@),
    );
    assert(texts_read.len() == partition_keys@.len());
    let mut values: Vec<Option<Datum>> = Vec::new();
    let mut i: usize = 0;
    while i < spellings.len()
        invariant
            0 <= i <= spellings@.len(),
            spellings@.len() == partition_fields@.len(),
            fields == field_views(partition_fields@),
            texts_read == texts(spellings@),
            expected == Seq::new(
                texts_read.len(),
                |i: int| value_read(*dialect, texts_read[i], fields[i], default_partition_name@),
            ),
            relative_to(table_path@, file_parent@) == Some(relative@),
            values_in_path(*dialect, relative@, texts(partition_keys@), only_value_in_path) == Some(
                texts_read,
            ),
            values@.len() == i,
            forall|j: int| 0 <= j < i ==> #[trigger] expected[j] == Some(value_view(values@[j])),
        decreases spellings@.len() - i,
    {
        let value = spellings[i].as_str();
        proof {
            assert(texts_read[i as int] == value@);
            assert(fields[i as int] == partition_fields@[i as int]@);
        }
        if same_text(value, default_partition_name) {
            values.push(None);
        } else {
            match dialect.parse_format_partition_value(value, &partition_fields[i].data_type) {
                Some(datum) => {
                    values.push(Some(datum));
                },
                None => {
                    assert(expected[i as int] is None);
                    return Ok(None);
                },
            }
        }
        i = i + 1;
    }
    let row = BinaryRow { values };
    assert(row@ =~= expected.map_values(|v: Option<Option<Seq<char>>>| v->0)) by {
        assert forall|j: int| 0 <= j < row@.len() implies row@[j] == expected.map_values(
            |v: Option<Option<Seq<char>>>| v->0,
        )[j] by {
            assert(expected[j] == Some(value_view(row.values@[j])));
        }
    }
    Ok(Some(row))
}

/// `text` between quotes, as a developer reads it.
pub uninterp spec fn quoted(text: Seq<char>) -> Seq<char>;

/// Writes a string by its `Debug` implementation in std. What std writes is taken as a function
/// of the characters of the string; nothing more is claimed of it.
#[verifier::external_body]
fn quote(text: &str) -> (r: String)
    ensures
        r@ == quoted(text@),
{
    format!("{text:?}")
}

/// What is said where a catalog partition lacks a column.
pub open spec fn missing_column(key: Seq<char>) -> ErrorView {
    ErrorView::DataInvalid {
        message: "Catalog partition is missing column '"@ + key + "'"@,
        source: None,
    }
}

/// What is said of a value of a catalog partition, given between quotes, that is not one of its
/// column.
pub open spec fn invalid_value(
    quoted_value: Seq<char>,
    key: Seq<char>,
    type_shown: Seq<char>,
) -> ErrorView {
    ErrorView::DataInvalid {
        message: "Invalid catalog partition value "@ + quoted_value + " for column '"@ + key
            + "' with type "@ + type_shown,
        source: None,
    }
}

/// Says that a value of a catalog partition, given between quotes, is not one of its column.
pub fn invalid_catalog_value(quoted_value: &str, key: &str, data_type: &DataType) -> (r: Error)
    ensures
        r@ == invalid_value(quoted_value@, key@, data_type.name@),
{
    let mut message = "Invalid catalog partition value ".to_string();
    message.append(quoted_value);
    message.append(" for column '");
    message.append(key);
    message.append("' with type ");
    message.append(data_type.name.as_str());
    Error::DataInvalid { message, source: None }
}

/// The value of one column in a catalog specification.
pub open spec fn spec_value<D: PartitionDialect>(
    dialect: D,
    spec: Map<Seq<char>, Seq<char>>,
    key: Seq<char>,
    field: DataFieldView,
    default_partition_name: Seq<char>,
) -> Result<Option<Seq<char>>, ErrorView> {
    if !spec.contains_key(key) {
        Err(missing_column(key))
    } else {
        match value_read(dialect, spec[key], field, default_partition_name) {
            Some(value) => Ok(value),
            None => Err(invalid_value(quoted(spec[key]), key, field.data_type.name)),
        }
    }
}

/// The values of the columns in a catalog specification.
pub open spec fn spec_values<D: PartitionDialect>(
    dialect: D,
    spec: Map<Seq<char>, Seq<char>>,
    fields: Seq<DataFieldView>,
    keys: Seq<Seq<char>>,
    default_partition_name: Seq<char>,
) -> Seq<Result<Option<Seq<char>>, ErrorView>> {
    Seq::new(
        fields.len(),
        |i: int| spec_value(dialect, spec, keys[i], fields[i], default_partition_name),
    )
}

/// What a result that is a row or an error says.
pub open spec fn row_result(r: Result<BinaryRow, Error>) -> Result<
    Seq<Option<Seq<char>>>,
    ErrorView,
> {
    match r {
        Ok(row) => Ok(row@),
        Err(error) => Err(error@),
    }
}

/// Reads the partition values from a catalog specification. A key that the specification lacks,
/// or a value that is not one of its column, is an error; the first one in the order of the keys
/// is returned. The default name reads as null.
pub fn partition_row_from_catalog_spec<D: PartitionDialect>(
    dialect: &D,
    spec: &TextMap,
    partition_fields: &Vec<DataField>,
    partition_keys: &Vec<String>,
    default_partition_name: &str,
) -> (r: Result<BinaryRow, Error>)
    requires
        partition_keys@.len() >= partition_fields@.len(),
    ensures
        row_result(r) == all_ok(
            spec_values(
                *dialect,
                spec@,
                field_views(partition_fields@),
                texts(partition_keys@),
                default_partition_name@,
            ),
        ),
{
    let ghost fields = field_views(partition_fields@);
    let ghost keys = texts(partition_keys@);
    let ghost outcomes = spec_values(*dialect, spec@, fields, keys, default_partition_name@);
    let mut row = BinaryRow::empty();
    let mut i: usize = 0;
    assert(outcomes.take(0) =~= Seq::empty());
    while i < partition_fields.len()
        invariant
            0 <= i <= partition_fields@.len() <= partition_keys@.len(),
            fields == field_views(partition_fields@),
            keys == texts(partition_keys@),
            outcomes == spec_values(*dialect, spec@, fields, keys, default_partition_name@),
            all_ok(outcomes.take(i as int)) == Ok::<Seq<Option<Seq<char>>>, ErrorView>(row@),
        decreases partition_fields@.len() - i,
    {
        let key = partition_keys[i].as_str();
        let field = &partition_fields[i];
        proof {
            assert(keys[i as int] == key@);
            assert(fields[i as int] == field@);
            lemma_all_ok_step(outcomes, i as int);
        }
        let value = match spec.get(key) {
            Some(value) => value,
            None => {
                let mut message = "Catalog partition is missing column '".to_string();
                message.append(key);
                message.append("'");
                proof {
                    lemma_all_ok_settled(outcomes, i + 1);
                }
                return Err(Error::DataInvalid { message, source: None });
            },
        };
        let ghost before = row@;
        if same_text(value.as_str(), default_partition_name) {
            row.values.push(None);
            assert(row@ =~= before.push(None));
        } else {
            match dialect.parse_format_partition_value(value.as_str(), &field.data_type) {
                Some(datum) => {
                    let ghost read = datum@;
                    row.values.push(Some(datum));
                    assert(row@ =~= before.push(Some(read)));
                },
                None => {
                    proof {
                        lemma_all_ok_settled(outcomes, i + 1);
                    }
                    return Err(
                        invalid_catalog_value(
                            quote(value.as_str()).as_str(),
                            key,
                            &field.data_type,
                        ),
                    );
                },
            }
        }
        i = i + 1;
    }
    assert(outcomes.take(i as int) =~= outcomes);
    Ok(row)
}

} // verus!
