//! What is written into a path is read from it again.

use vstd::prelude::*;

use crate::collect::{all_ok, lemma_all_ok_is, lemma_all_ok_values};
use crate::dialect::{PartitionComputerView, PartitionDialect, PartitionPathsView};
use crate::error::ErrorView;
use crate::files::{data_file_at, file_partition, in_hidden_directory, is_partition_segment};
use crate::files::planned_file;
use crate::hive::{column_named, columns_named, hive_path_values, hive_segment, hive_value};
use crate::hive::{key_values, law_escaping_is_undone, HiveDialect};
use crate::leading::{path_segment, path_segments};
use crate::model::{field_views, DataFieldView, Table};
use crate::partition::{field_names, first_value, lemma_keys_name_the_columns, named_segments};
use crate::partition::{path_values, relative_to, row_in_path, row_path, segment_value, spec_values};
use crate::partition::{value_read, values_in_path};
use crate::path::{is_data_file_name, law_file_below_is_found, parent_and_file, path_below};
use crate::predicate::PartitionFilter;
use crate::scan::{partition_asked_for, values_only, ListedFile};
use crate::split::PlannedFile;
use crate::text::{ascii_lower, has_suffix, joined, lemma_first_position_is, lemma_split_on_step};
use crate::text::{lemma_split_on_whole, split_on, texts, trim_end, trim_start};

verus! {

/// Whether what a dialect escapes unescapes to itself and leaves neither a slash nor an equals
/// sign in a path segment.
pub open spec fn escapes_cleanly<D: PartitionDialect>(dialect: D) -> bool {
    forall|name: Seq<char>| #![trigger dialect.escaped(name)]
        {
            &&& dialect.unescaped(dialect.escaped(name)) == Some(name)
            &&& !dialect.escaped(name).contains('/')
            &&& !dialect.escaped(name).contains('=')
            &&& dialect.escaped(name).len() == 0 ==> name.len() == 0
        }
}

/// Whether no key occurs twice.
pub open spec fn distinct(keys: Seq<Seq<char>>) -> bool {
    forall|i: int, j: int| 0 <= i < j < keys.len() ==> #[trigger] keys[i] != #[trigger] keys[j]
}

/// Joining can be undone from the front.
pub(crate) proof fn lemma_joined_first(pieces: Seq<Seq<char>>, separator: Seq<char>)
    requires
        pieces.len() >= 2,
    ensures
        joined(pieces, separator) == pieces[0] + separator + joined(pieces.drop_first(), separator),
    decreases pieces.len(),
{
    let front = pieces.drop_last();
    let back = pieces.drop_first();
    if pieces.len() == 2 {
        assert(joined(front, separator) == pieces[0]);
        assert(joined(back, separator) == pieces[1]);
    } else {
        lemma_joined_first(front, separator);
        assert(front.drop_first() =~= back.drop_last());
        assert(back.last() == pieces.last());
        let middle = joined(back.drop_last(), separator);
        assert(joined(back, separator) == middle + separator + pieces.last());
        assert(pieces[0] + separator + middle + separator + pieces.last() =~= pieces[0] + separator
            + (middle + separator + pieces.last()));
    }
}

/// Splitting what was joined gives the pieces.
pub(crate) proof fn lemma_split_joined(pieces: Seq<Seq<char>>)
    requires
        pieces.len() > 0,
        forall|i: int| 0 <= i < pieces.len() ==> !(#[trigger] pieces[i]).contains('/'),
    ensures
        split_on(joined(pieces, "/"@), '/') == pieces,
    decreases pieces.len(),
{
    reveal_strlit("/");
    let whole = joined(pieces, "/"@);
    let first = pieces[0];
    assert forall|i: int| 0 <= i < first.len() implies first[i] != '/' by {
        assert(first.contains(first[i]));
    }
    if pieces.len() == 1 {
        lemma_split_on_whole(whole, '/');
        assert(pieces =~= seq![first]);
    } else {
        lemma_joined_first(pieces, "/"@);
        let rest = pieces.drop_first();
        assert forall|i: int| 0 <= i < rest.len() implies !(#[trigger] rest[i]).contains('/') by {
            assert(rest[i] == pieces[i + 1]);
        }
        lemma_split_joined(rest);
        let at = first.len() as int;
        assert(whole[at] == '/');
        assert forall|i: int| 0 <= i < at implies whole[i] != '/' by {
            assert(whole[i] == first[i]);
        }
        lemma_split_on_step(whole, '/', at);
        assert(whole.take(at) =~= first);
        assert(whole.skip(at + 1) =~= joined(rest, "/"@));
        assert(seq![first] + rest =~= pieces);
    }
}

/// Where no piece is empty or holds a slash, the joined text begins and ends with neither.
pub(crate) proof fn lemma_joined_ends(pieces: Seq<Seq<char>>)
    requires
        pieces.len() > 0,
        forall|i: int|
            0 <= i < pieces.len() ==> (#[trigger] pieces[i]).len() > 0 && !pieces[i].contains('/'),
    ensures
        joined(pieces, "/"@).len() > 0,
        joined(pieces, "/"@).first() != '/',
        joined(pieces, "/"@).last() != '/',
{
    reveal_strlit("/");
    let first = pieces[0];
    let last = pieces.last();
    assert(last == pieces[pieces.len() - 1]);
    assert(first.contains(first[0]));
    assert(last.contains(last.last()));
    if pieces.len() > 1 {
        lemma_joined_first(pieces, "/"@);
    }
}

/// A plain path below a directory is found below it.
pub(crate) proof fn lemma_relative_to_below(parent: Seq<char>, child: Seq<char>)
    requires
        child.len() > 0,
        child.first() != '/',
        child.last() != '/',
    ensures
        relative_to(parent, path_below(parent, child)) == Some(child),
        trim_end(path_below(parent, child), '/') == path_below(parent, child),
{
    let table = trim_end(parent, '/');
    let path = table + seq!['/'] + child;
    assert(trim_start(child, '/') == child);
    assert(trim_end(child, '/') == child);
    assert(path_below(parent, child) == path);
    assert(path.last() == child.last());
    assert(trim_end(path, '/') == path);
    assert(path.take(table.len() as int) =~= table);
    let rest = path.skip(table.len() as int);
    assert(rest =~= seq!['/'] + child);
    assert(rest.drop_first() =~= child);
    assert(trim_start(rest, '/') == child);
}

/// A segment gives the value that was written for its key, and none for another key.
pub(crate) proof fn lemma_segment_value<D: PartitionDialect>(
    dialect: D,
    key: Seq<char>,
    value: Seq<char>,
    asked: Seq<char>,
)
    requires
        escapes_cleanly(dialect),
    ensures
        segment_value(dialect, path_segment(dialect, key, value, false), asked) == if key == asked {
            Some(value)
        } else {
            None
        },
{
    let name = dialect.escaped(key);
    let text = dialect.escaped(value);
    let segment = name + seq!['='] + text;
    let at = name.len() as int;
    assert forall|i: int| 0 <= i < at implies segment[i] != '=' by {
        assert(name.contains(name[i]));
    }
    lemma_first_position_is(segment, '=', at);
    assert(segment.take(at) =~= name);
    assert(segment.skip(at + 1) =~= text);
}

/// Of the segments of a path, the one of a key gives its value.
pub(crate) proof fn lemma_first_value<D: PartitionDialect>(
    dialect: D,
    keys: Seq<Seq<char>>,
    values: Seq<Seq<char>>,
    from: int,
    at: int,
)
    requires
        escapes_cleanly(dialect),
        distinct(keys),
        keys.len() == values.len(),
        0 <= from <= at < keys.len(),
    ensures
        first_value(
            dialect,
            path_segments(dialect, keys, values, false).skip(from),
            keys[at],
        ) == Some(values[at]),
    decreases at - from,
{
    let segments = path_segments(dialect, keys, values, false);
    let rest = segments.skip(from);
    assert(rest[0] == path_segment(dialect, keys[from], values[from], false));
    lemma_segment_value(dialect, keys[from], values[from], keys[at]);
    if from < at {
        assert(keys[from] != keys[at]);
        lemma_first_value(dialect, keys, values, from + 1, at);
        assert(rest.drop_first() =~= segments.skip(from + 1));
    }
}

/// Where everything is kept, filtering changes nothing.
pub(crate) proof fn lemma_filter_all(pieces: Seq<Seq<char>>)
    requires
        forall|i: int| 0 <= i < pieces.len() ==> (#[trigger] pieces[i]).len() > 0,
    ensures
        pieces.filter(|s: Seq<char>| s.len() > 0) == pieces,
    decreases pieces.len(),
{
    reveal(Seq::filter);
    if pieces.len() > 0 {
        let front = pieces.drop_last();
        assert forall|i: int| 0 <= i < front.len() implies (#[trigger] front[i]).len() > 0 by {
            assert(front[i] == pieces[i]);
        }
        lemma_filter_all(front);
        assert(front.push(pieces.last()) =~= pieces);
    }
}

/// A path that was written has a segment for each value, none of them empty.
proof fn lemma_written_path<D: PartitionDialect>(
    dialect: D,
    table_path: Seq<char>,
    keys: Seq<Seq<char>>,
    values: Seq<Seq<char>>,
    only_value_in_path: bool,
)
    requires
        escapes_cleanly(dialect),
        keys.len() == values.len(),
        keys.len() > 0,
        only_value_in_path ==> forall|i: int|
            0 <= i < values.len() ==> (#[trigger] values[i]).len() > 0,
    ensures
        ({
            let segments = path_segments(dialect, keys, values, only_value_in_path);
            let whole = joined(segments, "/"@);
            let directory = path_below(table_path, whole);
            &&& whole.len() > 0
            &&& relative_to(table_path, directory) == Some(whole)
            &&& trim_end(directory, '/') == directory
            &&& split_on(whole, '/') == segments
            &&& named_segments(whole) == segments
        }),
{
    let segments = path_segments(dialect, keys, values, only_value_in_path);
    let whole = joined(segments, "/"@);
    assert forall|i: int| 0 <= i < segments.len() implies (#[trigger] segments[i]).len() > 0
        && !segments[i].contains('/') by {
        let segment = path_segment(dialect, keys[i], values[i], only_value_in_path);
        assert(segments[i] == segment);
        let name = dialect.escaped(keys[i]);
        let text = dialect.escaped(values[i]);
        if !only_value_in_path {
            assert forall|j: int| 0 <= j < segment.len() implies segment[j] != '/' by {
                if j < name.len() {
                    assert(name.contains(name[j]));
                } else if j > name.len() {
                    assert(segment[j] == text[j - name.len() - 1]);
                    assert(text.contains(text[j - name.len() - 1]));
                }
            }
        } else {
            assert(values[i].len() > 0);
        }
    }
    lemma_joined_ends(segments);
    lemma_relative_to_below(table_path, whole);
    lemma_split_joined(segments);
    lemma_filter_all(segments);
}

/// The values that were written into a path below a table directory are read from it. Where a
/// directory is named by the value alone, this asks for values that are not empty: an empty one
/// leaves no directory.
pub proof fn law_values_read_back<D: PartitionDialect>(
    dialect: D,
    table_path: Seq<char>,
    keys: Seq<Seq<char>>,
    values: Seq<Seq<char>>,
    only_value_in_path: bool,
)
    requires
        escapes_cleanly(dialect),
        keys.len() == values.len(),
        keys.len() > 0,
        distinct(keys),
        only_value_in_path ==> forall|i: int|
            0 <= i < values.len() ==> (#[trigger] values[i]).len() > 0,
    ensures
        relative_to(
            table_path,
            path_below(
                table_path,
                joined(path_segments(dialect, keys, values, only_value_in_path), "/"@),
            ),
        ) matches Some(relative) && values_in_path(dialect, relative, keys, only_value_in_path)
            == Some(values),
{
    let segments = path_segments(dialect, keys, values, only_value_in_path);
    lemma_written_path(dialect, table_path, keys, values, only_value_in_path);
    if only_value_in_path {
        let read = Seq::new(keys.len(), |i: int| dialect.unescaped(segments[i]));
        assert forall|i: int| 0 <= i < read.len() implies #[trigger] read[i] == Some(values[i]) by {
            assert(segments[i] == dialect.escaped(values[i]));
        }
        assert(read.map_values(|v: Option<Seq<char>>| v->0) =~= values);
    } else {
        let read = Seq::new(keys.len(), |i: int| first_value(dialect, segments, keys[i]));
        assert(segments.skip(0) =~= segments);
        assert forall|i: int| 0 <= i < read.len() implies #[trigger] read[i] == Some(values[i]) by {
            lemma_first_value(dialect, keys, values, 0, i);
        }
        assert(read.map_values(|v: Option<Seq<char>>| v->0) =~= values);
    }
}

/// Whether a value is told from a null by its spelling and parses from it again.
pub open spec fn reads_back<D: PartitionDialect>(
    dialect: D,
    value: Option<Seq<char>>,
    field: DataFieldView,
    default_partition_name: Seq<char>,
    legacy_partition_name: bool,
    only_value_in_path: bool,
) -> bool {
    match value {
        None => only_value_in_path ==> default_partition_name.len() > 0,
        Some(datum) => {
            let text = dialect.formatted(
                datum,
                field.data_type,
                default_partition_name,
                legacy_partition_name,
            );
            &&& text is Some
            &&& text->0 != default_partition_name
            &&& dialect.parsed(text->0, field.data_type) == Some(datum)
            &&& only_value_in_path ==> text->0.len() > 0
        },
    }
}

/// How the values of a row stand in its path, where each has a spelling.
spec fn written_values<D: PartitionDialect>(
    dialect: D,
    row: Seq<Option<Seq<char>>>,
    fields: Seq<DataFieldView>,
    default_partition_name: Seq<char>,
    legacy_partition_name: bool,
) -> Seq<Seq<char>> {
    Seq::new(
        row.len(),
        |i: int|
            match row[i] {
                None => default_partition_name,
                Some(datum) => dialect.formatted(
                    datum,
                    fields[i].data_type,
                    default_partition_name,
                    legacy_partition_name,
                )->0,
            },
    )
}

/// A row whose values read back has a path, and each of its values stands in it.
proof fn lemma_written_values<D: PartitionDialect>(
    dialect: D,
    row: Seq<Option<Seq<char>>>,
    fields: Seq<DataFieldView>,
    default_partition_name: Seq<char>,
    legacy_partition_name: bool,
    only_value_in_path: bool,
)
    requires
        row.len() == fields.len(),
        forall|i: int|
            0 <= i < row.len() ==> reads_back(
                dialect,
                #[trigger] row[i],
                fields[i],
                default_partition_name,
                legacy_partition_name,
                only_value_in_path,
            ),
    ensures
        ({
            let values = written_values(
                dialect,
                row,
                fields,
                default_partition_name,
                legacy_partition_name,
            );
            &&& row_path(
                dialect,
                row,
                fields,
                default_partition_name,
                legacy_partition_name,
                only_value_in_path,
            ) == Ok::<Seq<char>, ErrorView>(
                joined(
                    path_segments(dialect, field_names(fields), values, only_value_in_path),
                    "/"@,
                ),
            )
            &&& only_value_in_path ==> forall|i: int|
                0 <= i < values.len() ==> (#[trigger] values[i]).len() > 0
            &&& forall|i: int|
                0 <= i < values.len() ==> value_read(
                    dialect,
                    #[trigger] values[i],
                    fields[i],
                    default_partition_name,
                ) == Some(row[i])
        }),
{
    let outcomes = path_values(dialect, row, fields, default_partition_name, legacy_partition_name);
    let values = written_values(
        dialect,
        row,
        fields,
        default_partition_name,
        legacy_partition_name,
    );
    assert forall|i: int| 0 <= i < row.len() implies #[trigger] outcomes[i] == Ok::<
        Seq<char>,
        ErrorView,
    >(values[i]) && (only_value_in_path ==> values[i].len() > 0) && value_read(
        dialect,
        values[i],
        fields[i],
        default_partition_name,
    ) == Some(row[i]) by {
        assert(reads_back(
            dialect,
            row[i],
            fields[i],
            default_partition_name,
            legacy_partition_name,
            only_value_in_path,
        ));
    }
    lemma_all_ok_is(outcomes, values);
    assert forall|i: int| 0 <= i < values.len() implies (only_value_in_path ==> (
    #[trigger] values[i]).len() > 0) && value_read(
        dialect,
        values[i],
        fields[i],
        default_partition_name,
    ) == Some(row[i]) by {
        assert(outcomes[i] is Ok);
    }
}

/// The row whose path was written is the row that the directory at that path stands for.
///
/// This asks for a dialect whose escaping can be undone, for columns of different names, and for
/// values that parse from their spelling. A value that is spelled as the default name would be
/// read as a null; where directories are named by the value alone, an empty value leaves none.
pub proof fn law_partition_path_reads_back<D: PartitionDialect>(
    dialect: D,
    table_path: Seq<char>,
    row: Seq<Option<Seq<char>>>,
    fields: Seq<DataFieldView>,
    default_partition_name: Seq<char>,
    legacy_partition_name: bool,
    only_value_in_path: bool,
)
    requires
        escapes_cleanly(dialect),
        row.len() == fields.len(),
        fields.len() > 0,
        distinct(field_names(fields)),
        forall|i: int|
            0 <= i < row.len() ==> reads_back(
                dialect,
                #[trigger] row[i],
                fields[i],
                default_partition_name,
                legacy_partition_name,
                only_value_in_path,
            ),
    ensures
        row_path(
            dialect,
            row,
            fields,
            default_partition_name,
            legacy_partition_name,
            only_value_in_path,
        ) matches Ok(path) && row_in_path(
            dialect,
            table_path,
            path_below(table_path, path),
            fields,
            field_names(fields),
            default_partition_name,
            only_value_in_path,
        ) == Some(row),
{
    let values = written_values(
        dialect,
        row,
        fields,
        default_partition_name,
        legacy_partition_name,
    );
    lemma_written_values(
        dialect,
        row,
        fields,
        default_partition_name,
        legacy_partition_name,
        only_value_in_path,
    );
    let keys = field_names(fields);
    law_values_read_back(dialect, table_path, keys, values, only_value_in_path);
    let read = Seq::new(
        values.len(),
        |i: int| value_read(dialect, values[i], fields[i], default_partition_name),
    );
    assert forall|i: int| 0 <= i < read.len() implies #[trigger] read[i] == Some(row[i]) by {
        assert(value_read(dialect, values[i], fields[i], default_partition_name) == Some(row[i]));
    }
    assert(read.map_values(|v: Option<Option<Seq<char>>>| v->0) =~= row);
}

/// A directory that was written for partition values is not a hidden one.
proof fn lemma_written_directory_is_not_hidden<D: PartitionDialect>(
    dialect: D,
    table_path: Seq<char>,
    keys: Seq<Seq<char>>,
    values: Seq<Seq<char>>,
    only_value_in_path: bool,
)
    requires
        escapes_cleanly(dialect),
        keys.len() == values.len(),
        keys.len() > 0,
        only_value_in_path ==> forall|i: int|
            0 <= i < values.len() ==> (#[trigger] values[i]).len() > 0,
    ensures
        !in_hidden_directory(
            dialect,
            table_path,
            path_below(
                table_path,
                joined(path_segments(dialect, keys, values, only_value_in_path), "/"@),
            ),
            keys,
            only_value_in_path,
        ),
{
    lemma_written_path(dialect, table_path, keys, values, only_value_in_path);
    let segments = path_segments(dialect, keys, values, only_value_in_path);
    assert forall|i: int| 0 <= i < segments.len() implies is_partition_segment(
        dialect,
        #[trigger] segments[i],
        i,
        keys,
        only_value_in_path,
    ) by {
        if !only_value_in_path {
            lemma_segment_value(dialect, keys[i], values[i], keys[i]);
            assert(segment_value(dialect, segments[i], keys[i]) is Some);
        }
    }
}

/// A data file that lies in the directory of its row, as the path of the row says, is planned
/// with that row, wherever the scan asks for it. This asks for what reading the row back asks
/// for, for a size that the listing gave, and for one that fits.
pub proof fn law_written_file_is_planned<D: PartitionDialect>(
    dialect: D,
    table: Table,
    filter: Option<PartitionFilter>,
    table_path: Seq<char>,
    format_extension: Seq<char>,
    row: Seq<Option<Seq<char>>>,
    path: Seq<char>,
    file_name: Seq<char>,
    file: ListedFile,
)
    requires
        escapes_cleanly(dialect),
        table.schema.wf(),
        table.schema.partition_fields@.len() > 0,
        row.len() == table.schema.partition_fields@.len(),
        distinct(texts(table.schema.partition_keys@)),
        values_only(table) == table.options.only_value_in_path,
        forall|i: int|
            0 <= i < row.len() ==> reads_back(
                dialect,
                #[trigger] row[i],
                field_views(table.schema.partition_fields@)[i],
                table.options.partition_default_name@,
                table.options.legacy_partition_name,
                table.options.only_value_in_path,
            ),
        row_path(
            dialect,
            row,
            field_views(table.schema.partition_fields@),
            table.options.partition_default_name@,
            table.options.legacy_partition_name,
            table.options.only_value_in_path,
        ) == Ok::<Seq<char>, ErrorView>(path),
        partition_asked_for(dialect, filter, row) == Ok::<bool, ErrorView>(true),
        is_data_file_name(file_name),
        !file_name.contains('/'),
        has_suffix(ascii_lower(file_name), format_extension),
        file.status.path@ == path_below(path_below(table_path, path), file_name),
        0 < file.status.size <= i64::MAX,
    ensures
        planned_file(
            dialect,
            table,
            filter,
            table_path,
            format_extension,
            Seq::empty(),
            file,
        ) == Ok::<Option<PlannedFile>, ErrorView>(
            Some(
                PlannedFile {
                    partition: row,
                    bucket_path: path_below(table_path, path),
                    file_name,
                    file_size: file.status.size as i64,
                    schema_id: table.schema.id,
                },
            ),
        ),
{
    let fields = field_views(table.schema.partition_fields@);
    let keys = texts(table.schema.partition_keys@);
    let default_name = table.options.partition_default_name@;
    let legacy = table.options.legacy_partition_name;
    let only_value = table.options.only_value_in_path;
    let directory = path_below(table_path, path);
    lemma_keys_name_the_columns(table.schema);
    assert(row_in_path(dialect, table_path, directory, fields, keys, default_name, only_value)
        == Some(row)) by {
        law_partition_path_reads_back(
            dialect,
            table_path,
            row,
            fields,
            default_name,
            legacy,
            only_value,
        );
    }
    assert(trim_end(directory, '/') == directory && !in_hidden_directory(
        dialect,
        table_path,
        directory,
        keys,
        only_value,
    )) by {
        lemma_written_values(dialect, row, fields, default_name, legacy, only_value);
        let values = written_values(dialect, row, fields, default_name, legacy);
        lemma_written_path(dialect, table_path, keys, values, only_value);
        lemma_written_directory_is_not_hidden(dialect, table_path, keys, values, only_value);
    }
    assert(parent_and_file(file.status.path@) == Some((directory, file_name))) by {
        law_file_below_is_found(directory, file_name);
    }
    assert(data_file_at(dialect, table, table_path, format_extension, file.status.path@) == Some(
        (directory, file_name),
    ));
    assert(file_partition(dialect, table, filter, table_path, directory, Seq::empty()) == Ok::<
        Option<Seq<Option<Seq<char>>>>,
        ErrorView,
    >(Some(row)));
}

/// Escaping in the manner of Hive is clean.
pub proof fn law_hive_escapes_cleanly()
    ensures
        escapes_cleanly(HiveDialect),
{
    assert forall|name: Seq<char>| #![trigger HiveDialect.escaped(name)]
        {
            &&& HiveDialect.unescaped(HiveDialect.escaped(name)) == Some(name)
            &&& !HiveDialect.escaped(name).contains('/')
            &&& !HiveDialect.escaped(name).contains('=')
            &&& HiveDialect.escaped(name).len() == 0 ==> name.len() == 0
        } by {
        law_escaping_is_undone(name);
    }
}

/// In the Hive dialect every row of character strings, whole numbers and truth values comes back
/// from its path, but for values that are the default name itself, and empty values in directories
/// named by the value alone.
pub proof fn law_hive_path_reads_back(
    table_path: Seq<char>,
    row: Seq<Option<Seq<char>>>,
    fields: Seq<DataFieldView>,
    default_partition_name: Seq<char>,
    legacy_partition_name: bool,
    only_value_in_path: bool,
)
    requires
        row.len() == fields.len(),
        fields.len() > 0,
        distinct(field_names(fields)),
        forall|i: int|
            0 <= i < row.len() ==> ((#[trigger] row[i]) matches Some(datum) ==> hive_value(
                datum,
                fields[i].data_type.kind,
            ) == Some(datum) && datum != default_partition_name),
        only_value_in_path ==> default_partition_name.len() > 0,
        only_value_in_path ==> forall|i: int|
            0 <= i < row.len() ==> #[trigger] row[i] != Some(Seq::<char>::empty()),
    ensures
        row_path(
            HiveDialect,
            row,
            fields,
            default_partition_name,
            legacy_partition_name,
            only_value_in_path,
        ) matches Ok(path) && row_in_path(
            HiveDialect,
            table_path,
            path_below(table_path, path),
            fields,
            field_names(fields),
            default_partition_name,
            only_value_in_path,
        ) == Some(row),
{
    law_hive_escapes_cleanly();
    assert forall|i: int| 0 <= i < row.len() implies reads_back(
        HiveDialect,
        #[trigger] row[i],
        fields[i],
        default_partition_name,
        legacy_partition_name,
        only_value_in_path,
    ) by {
        if only_value_in_path && row[i] is Some && row[i]->0.len() == 0 {
            assert(row[i]->0 =~= Seq::<char>::empty());
        }
    }
    law_partition_path_reads_back(
        HiveDialect,
        table_path,
        row,
        fields,
        default_partition_name,
        legacy_partition_name,
        only_value_in_path,
    );
}

/// The catalog and the directory tree agree: the row that the specification of a partition gives
/// is the row that its directory stands for. Where directories are named by the value alone, this
/// asks for values that are not empty.
pub proof fn law_hive_catalog_and_directory_agree(
    table_path: Seq<char>,
    spec: Map<Seq<char>, Seq<char>>,
    fields: Seq<DataFieldView>,
    default_partition_name: Seq<char>,
    only_value_in_path: bool,
    row: Seq<Option<Seq<char>>>,
)
    requires
        fields.len() > 0,
        distinct(field_names(fields)),
        all_ok(
            spec_values(HiveDialect, spec, fields, field_names(fields), default_partition_name),
        ) == Ok::<Seq<Option<Seq<char>>>, ErrorView>(row),
        only_value_in_path ==> forall|i: int|
            0 <= i < fields.len() ==> spec[(#[trigger] fields[i]).name].len() > 0,
    ensures
        HiveDialect.catalog_path(
            PartitionPathsView { partition_keys: field_names(fields), only_value_in_path },
            spec,
        ) matches Ok(path) && row_in_path(
            HiveDialect,
            table_path,
            path_below(table_path, path),
            fields,
            field_names(fields),
            default_partition_name,
            only_value_in_path,
        ) == Some(row),
{
    law_hive_escapes_cleanly();
    let keys = field_names(fields);
    let outcomes = spec_values(HiveDialect, spec, fields, keys, default_partition_name);
    lemma_all_ok_values(outcomes);
    let values = keys.map_values(|key: Seq<char>| spec[key]);
    let given = key_values(keys, spec);
    assert forall|i: int| 0 <= i < given.len() implies #[trigger] given[i] == Ok::<
        Seq<char>,
        ErrorView,
    >(values[i]) by {
        assert(outcomes[i] is Ok);
    }
    lemma_all_ok_is(given, values);
    assert(Seq::new(
        values.len(),
        |i: int| hive_segment(keys[i], values[i], only_value_in_path),
    ) =~= path_segments(HiveDialect, keys, values, only_value_in_path));
    assert forall|i: int| 0 <= i < values.len() && only_value_in_path implies (
    #[trigger] values[i]).len() > 0 by {
        assert(spec[fields[i].name].len() > 0);
    }
    law_values_read_back(HiveDialect, table_path, keys, values, only_value_in_path);
    let read = Seq::new(
        values.len(),
        |i: int| value_read(HiveDialect, values[i], fields[i], default_partition_name),
    );
    assert forall|i: int| 0 <= i < read.len() implies #[trigger] read[i] == Some(row[i]) by {
        assert(outcomes[i] is Ok);
        assert(outcomes[i] == Ok::<Option<Seq<char>>, ErrorView>(row[i]));
    }
    assert(read.map_values(|v: Option<Option<Seq<char>>>| v->0) =~= row);
}

proof fn lemma_column_name(fields: Seq<DataFieldView>, key: Seq<char>)
    ensures
        column_named(fields, key) matches Ok(column) ==> column.name == key,
    decreases fields.len(),
{
    if fields.len() > 0 && fields[0].name != key {
        lemma_column_name(fields.drop_first(), key);
    }
}

/// The path that is computed for an enumerated row is the path that is written for the row.
pub proof fn law_hive_computed_path_is_the_row_path(
    computer: PartitionComputerView,
    columns: Seq<DataFieldView>,
    row: Seq<Option<Seq<char>>>,
)
    requires
        all_ok(columns_named(computer.fields, computer.partition_keys)) == Ok::<
            Seq<DataFieldView>,
            ErrorView,
        >(columns),
    ensures
        HiveDialect.computed_path(computer, row) == row_path(
            HiveDialect,
            row,
            columns,
            computer.default_partition_name,
            computer.legacy_partition_name,
            false,
        ),
{
    let keys = computer.partition_keys;
    let found = columns_named(computer.fields, keys);
    lemma_all_ok_values(found);
    assert forall|i: int| 0 <= i < keys.len() implies field_names(columns)[i] == keys[i] by {
        assert(found[i] == Ok::<DataFieldView, ErrorView>(columns[i]));
        lemma_column_name(computer.fields, keys[i]);
    }
    assert(field_names(columns) =~= keys);
    let outcomes = path_values(
        HiveDialect,
        row,
        columns,
        computer.default_partition_name,
        computer.legacy_partition_name,
    );
    assert(outcomes =~= hive_path_values(row, columns, computer.default_partition_name));
    lemma_all_ok_values(outcomes);
    if all_ok(outcomes) is Ok {
        let values = all_ok(outcomes)->Ok_0;
        assert(Seq::new(values.len(), |i: int| hive_segment(keys[i], values[i], false))
            =~= path_segments(HiveDialect, keys, values, false));
    }
}

} // verus!
