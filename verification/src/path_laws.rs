//! How rows stand in paths, said of the segments themselves.

use vstd::prelude::*;

use crate::collect::{all_ok, all_some, lemma_all_ok_is, lemma_all_ok_values};
use crate::dialect::PartitionDialect;
use crate::error::ErrorView;
use crate::leading::{path_segment, path_segments};
use crate::model::DataFieldView;
use crate::partition::{field_names, first_value, named_segments, path_values, relative_to};
use crate::partition::{row_in_path, row_path, segment_value, value_read, values_in_path};
use crate::path::path_below;
use crate::round_trip::{escapes_cleanly, lemma_filter_all, lemma_joined_ends};
use crate::round_trip::{lemma_relative_to_below, lemma_split_joined};
use crate::text::{first_position, has_prefix, joined, law_joined_pieces, law_trim_end};
use crate::text::{law_trim_start, lemma_first_position, lemma_first_position_is, split_on};
use crate::text::{trim_end, trim_start};

verus! {

/// How a value of a row stands in a path: a null by the default name, any other value by its
/// spelling.
pub open spec fn spelled_in_path<D: PartitionDialect>(
    dialect: D,
    value: Option<Seq<char>>,
    field: DataFieldView,
    default_partition_name: Seq<char>,
    legacy_partition_name: bool,
) -> Option<Seq<char>> {
    if value is Some {
        dialect.formatted(
            value->0,
            field.data_type,
            default_partition_name,
            legacy_partition_name,
        )
    } else {
        Some(default_partition_name)
    }
}

/// The path of a row has a segment for each column, in the order of the columns: its name, an
/// equals sign and its value, or, where the value alone names the directory, the value; all
/// escaped, with slashes between them. There is one exactly where the row has a value for each
/// column and each value has a spelling.
pub proof fn law_row_paths<D: PartitionDialect>(
    dialect: D,
    row: Seq<Option<Seq<char>>>,
    fields: Seq<DataFieldView>,
    default_partition_name: Seq<char>,
    legacy_partition_name: bool,
    only_value_in_path: bool,
)
    requires
        escapes_cleanly(dialect),
        fields.len() > 0,
    ensures
        ({
            let outcome = row_path(
                dialect,
                row,
                fields,
                default_partition_name,
                legacy_partition_name,
                only_value_in_path,
            );
            &&& (outcome is Ok <==> forall|i: int|
                0 <= i < fields.len() ==> i < row.len() && spelled_in_path(
                    dialect,
                    row[i],
                    #[trigger] fields[i],
                    default_partition_name,
                    legacy_partition_name,
                ) is Some)
            &&& (outcome is Ok ==> split_on(outcome->Ok_0, '/').len() == fields.len() && forall|
                i: int,
            |
                0 <= i < fields.len() ==> #[trigger] split_on(outcome->Ok_0, '/')[i] == ({
                    let value = spelled_in_path(
                        dialect,
                        row[i],
                        fields[i],
                        default_partition_name,
                        legacy_partition_name,
                    )->0;
                    if only_value_in_path {
                        dialect.escaped(value)
                    } else {
                        dialect.escaped(fields[i].name) + seq!['='] + dialect.escaped(value)
                    }
                }))
        }),
{
    let outcomes = path_values(dialect, row, fields, default_partition_name, legacy_partition_name);
    lemma_all_ok_values(outcomes);
    let keys = field_names(fields);
    assert forall|i: int| 0 <= i < fields.len() implies (outcomes[i] is Ok <==> i < row.len()
        && spelled_in_path(
        dialect,
        row[i],
        #[trigger] fields[i],
        default_partition_name,
        legacy_partition_name,
    ) is Some) && (outcomes[i] is Ok ==> outcomes[i]->Ok_0 == spelled_in_path(
        dialect,
        row[i],
        fields[i],
        default_partition_name,
        legacy_partition_name,
    )->0) by {}
    if all_ok(outcomes) is Ok {
        let values = all_ok(outcomes)->Ok_0;
        let pieces = path_segments(dialect, keys, values, only_value_in_path);
        assert forall|i: int| 0 <= i < fields.len() implies outcomes[i] == Ok::<
            Seq<char>,
            ErrorView,
        >(values[i]) && keys[i] == (#[trigger] fields[i]).name by {
            assert(outcomes[i] == Ok::<Seq<char>, ErrorView>(values[i]));
        }
        assert forall|i: int| 0 <= i < pieces.len() implies !(#[trigger] pieces[i]).contains(
            '/',
        ) by {
            lemma_segment_has_no_slash(dialect, keys[i], values[i], only_value_in_path);
        }
        lemma_split_joined(pieces);
        assert forall|i: int| 0 <= i < fields.len() implies #[trigger] pieces[i] == path_segment(
            dialect,
            keys[i],
            values[i],
            only_value_in_path,
        ) && values[i] == spelled_in_path(
            dialect,
            row[i],
            fields[i],
            default_partition_name,
            legacy_partition_name,
        )->0 by {
            assert(keys[i] == fields[i].name);
        }
        assert forall|i: int| 0 <= i < fields.len() implies i < row.len() && spelled_in_path(
            dialect,
            row[i],
            #[trigger] fields[i],
            default_partition_name,
            legacy_partition_name,
        ) is Some by {
            assert(outcomes[i] is Ok);
        }
    } else if forall|i: int|
        0 <= i < fields.len() ==> i < row.len() && spelled_in_path(
            dialect,
            row[i],
            #[trigger] fields[i],
            default_partition_name,
            legacy_partition_name,
        ) is Some {
        let values = Seq::new(
            fields.len(),
            |i: int|
                spelled_in_path(
                    dialect,
                    row[i],
                    fields[i],
                    default_partition_name,
                    legacy_partition_name,
                )->0,
        );
        assert forall|i: int| 0 <= i < outcomes.len() implies #[trigger] outcomes[i] == Ok::<
            Seq<char>,
            ErrorView,
        >(values[i]) by {
            assert(spelled_in_path(
                dialect,
                row[i],
                fields[i],
                default_partition_name,
                legacy_partition_name,
            ) is Some);
        }
        lemma_all_ok_is(outcomes, values);
    }
}

proof fn lemma_segment_has_no_slash<D: PartitionDialect>(
    dialect: D,
    key: Seq<char>,
    value: Seq<char>,
    only_value_in_path: bool,
)
    requires
        escapes_cleanly(dialect),
    ensures
        !path_segment(dialect, key, value, only_value_in_path).contains('/'),
{
    let name = dialect.escaped(key);
    let text = dialect.escaped(value);
    let segment = path_segment(dialect, key, value, only_value_in_path);
    if !only_value_in_path {
        assert forall|i: int| 0 <= i < segment.len() implies segment[i] != '/' by {
            if i < name.len() {
                assert(name.contains(name[i]));
            } else if i > name.len() {
                assert(segment[i] == text[i - name.len() - 1]);
                assert(text.contains(text[i - name.len() - 1]));
            }
        }
    }
}

/// A segment gives a value for the key that stands before its first equals sign, and that value is
/// what stands behind it, both unescaped. A segment without an equals sign gives none.
pub proof fn law_segments<D: PartitionDialect>(
    dialect: D,
    before: Seq<char>,
    behind: Seq<char>,
    key: Seq<char>,
)
    requires
        !before.contains('='),
    ensures
        segment_value(dialect, before + seq!['='] + behind, key) == if dialect.unescaped(before)
            == Some(key) {
            dialect.unescaped(behind)
        } else {
            None
        },
        segment_value(dialect, before, key) is None,
{
    let segment = before + seq!['='] + behind;
    let at = before.len() as int;
    assert forall|i: int| 0 <= i < at implies before[i] != '=' by {
        assert(before.contains(before[i]));
    }
    assert forall|i: int| 0 <= i < at implies segment[i] != '=' by {
        assert(segment[i] == before[i]);
    }
    lemma_first_position_is(segment, '=', at);
    assert(segment.take(at) =~= before);
    assert(segment.skip(at + 1) =~= behind);
    lemma_first_position_is(before, '=', at);
}

/// A path is taken off the front of another one with all the slashes between the two, and those at
/// the end of either do not count.
pub proof fn law_relative_paths(
    table: Seq<char>,
    rest: Seq<char>,
    table_slashes: nat,
    between: nat,
    behind: nat,
)
    requires
        table.len() == 0 || table.last() != '/',
        rest.len() > 0,
        rest.first() != '/',
        rest.last() != '/',
    ensures
        relative_to(
            table + Seq::new(table_slashes, |i: int| '/'),
            table + Seq::new(between, |i: int| '/') + rest + Seq::new(behind, |i: int| '/'),
        ) == Some(rest),
        relative_to(
            table + Seq::new(table_slashes, |i: int| '/'),
            table + Seq::new(behind, |i: int| '/'),
        ) == Some(Seq::<char>::empty()),
{
    let path = table + Seq::new(between, |i: int| '/') + rest;
    law_trim_end(table, '/', table_slashes);
    assert(path.last() == rest.last());
    law_trim_end(path, '/', behind);
    assert(path.take(table.len() as int) =~= table);
    assert(path.skip(table.len() as int) =~= Seq::new(between, |i: int| '/') + rest);
    law_trim_start(rest, '/', between);
    law_trim_end(table, '/', behind);
    assert(table.take(table.len() as int) =~= table);
    assert(table.skip(table.len() as int) =~= Seq::<char>::empty());
}

/// A path that does not begin with the characters of another one has no rest behind it.
pub proof fn law_other_paths(table: Seq<char>, path: Seq<char>, at: int)
    requires
        table.len() == 0 || table.last() != '/',
        path.len() == 0 || path.last() != '/',
        0 <= at < table.len(),
        at >= path.len() || path[at] != table[at],
    ensures
        relative_to(table, path) is None,
{
    assert(trim_end(table, '/') == table);
    assert(trim_end(path, '/') == path);
    if has_prefix(path, table) {
        assert(path.take(table.len() as int)[at] == table[at]);
    }
}

proof fn lemma_first_value_at<D: PartitionDialect>(
    dialect: D,
    segments: Seq<Seq<char>>,
    key: Seq<char>,
    at: int,
)
    requires
        0 <= at <= segments.len(),
        forall|j: int|
            0 <= j < at ==> segment_value(dialect, #[trigger] segments[j], key) is None,
        at < segments.len() ==> segment_value(dialect, segments[at], key) is Some,
    ensures
        first_value(dialect, segments, key) == if at < segments.len() {
            segment_value(dialect, segments[at], key)
        } else {
            None
        },
    decreases segments.len(),
{
    if segments.len() > 0 && at > 0 {
        assert(segment_value(dialect, segments[0], key) is None);
        let rest = segments.drop_first();
        assert forall|j: int| 0 <= j < at - 1 implies segment_value(
            dialect,
            #[trigger] rest[j],
            key,
        ) is None by {
            assert(rest[j] == segments[j + 1]);
        }
        if at < segments.len() {
            assert(rest[at - 1] == segments[at]);
        }
        lemma_first_value_at(dialect, rest, key, at - 1);
    }
}

proof fn lemma_plain_directory(table_path: Seq<char>, segments: Seq<Seq<char>>)
    requires
        table_path.len() == 0 || table_path.last() != '/',
        segments.len() > 0,
        forall|i: int|
            0 <= i < segments.len() ==> (#[trigger] segments[i]).len() > 0
                && !segments[i].contains('/'),
    ensures
        ({
            let whole = joined(segments, "/"@);
            &&& whole.len() > 0
            &&& relative_to(table_path, table_path + seq!['/'] + whole) == Some(whole)
            &&& split_on(whole, '/') == segments
            &&& named_segments(whole) == segments
        }),
{
    let whole = joined(segments, "/"@);
    lemma_joined_ends(segments);
    lemma_split_joined(segments);
    lemma_filter_all(segments);
    assert(trim_end(table_path, '/') == table_path);
    assert(trim_start(whole, '/') == whole);
    assert(trim_end(whole, '/') == whole);
    assert(path_below(table_path, whole) == table_path + seq!['/'] + whole);
    lemma_relative_to_below(table_path, whole);
}

/// What a directory says of its partition where keys stand in the segments: the value of each key
/// is that of the first segment that gives one for it, wherever it stands and whatever stands
/// around it; where a key has none, the directory is of no partition.
pub proof fn law_rows_in_keyed_paths<D: PartitionDialect>(
    dialect: D,
    table_path: Seq<char>,
    segments: Seq<Seq<char>>,
    fields: Seq<DataFieldView>,
    keys: Seq<Seq<char>>,
    default_partition_name: Seq<char>,
    places: Seq<int>,
)
    requires
        table_path.len() == 0 || table_path.last() != '/',
        segments.len() > 0,
        forall|i: int|
            0 <= i < segments.len() ==> (#[trigger] segments[i]).len() > 0
                && !segments[i].contains('/'),
        keys.len() == fields.len(),
        places.len() == keys.len(),
        forall|i: int|
            0 <= i < keys.len() ==> 0 <= #[trigger] places[i] <= segments.len() && (places[i]
                < segments.len() ==> segment_value(dialect, segments[places[i]], keys[i]) is Some)
                && forall|j: int|
                0 <= j < places[i] ==> segment_value(dialect, #[trigger] segments[j], keys[i])
                    is None,
    ensures
        ({
            let read = row_in_path(
                dialect,
                table_path,
                table_path + seq!['/'] + joined(segments, "/"@),
                fields,
                keys,
                default_partition_name,
                false,
            );
            &&& (read is Some ==> read->0.len() == keys.len() && forall|i: int|
                0 <= i < keys.len() ==> #[trigger] places[i] < segments.len() && ({
                    let text = segment_value(dialect, segments[places[i]], keys[i])->0;
                    read->0[i] == if text == default_partition_name {
                        None
                    } else {
                        dialect.parsed(text, fields[i].data_type)
                    }
                }))
            &&& (read is Some <==> forall|i: int|
                0 <= i < keys.len() ==> #[trigger] places[i] < segments.len() && ({
                    let text = segment_value(dialect, segments[places[i]], keys[i])->0;
                    text == default_partition_name || dialect.parsed(
                        text,
                        fields[i].data_type,
                    ) is Some
                }))
        }),
{
    lemma_plain_directory(table_path, segments);
    let whole = joined(segments, "/"@);
    let found = Seq::new(keys.len(), |i: int| first_value(dialect, segments, keys[i]));
    assert forall|i: int| 0 <= i < keys.len() implies #[trigger] found[i] == if places[i]
        < segments.len() {
        segment_value(dialect, segments[places[i]], keys[i])
    } else {
        None
    } by {
        lemma_first_value_at(dialect, segments, keys[i], places[i]);
    }
    let values = found.map_values(|v: Option<Seq<char>>| v->0);
    let read = Seq::new(
        values.len(),
        |i: int| value_read(dialect, values[i], fields[i], default_partition_name),
    );
    let result = row_in_path(
        dialect,
        table_path,
        table_path + seq!['/'] + whole,
        fields,
        keys,
        default_partition_name,
        false,
    );
    let all_found = forall|i: int| 0 <= i < found.len() ==> #[trigger] found[i] is Some;
    if all_found {
        assert(values_in_path(dialect, whole, keys, false) == Some(values));
        assert(result == all_some(read));
        assert forall|i: int| 0 <= i < keys.len() implies #[trigger] places[i] < segments.len()
            && values[i] == segment_value(dialect, segments[places[i]], keys[i])->0 by {
            assert(found[i] is Some);
        }
        if forall|i: int| 0 <= i < read.len() ==> #[trigger] read[i] is Some {
            assert forall|i: int| 0 <= i < keys.len() implies #[trigger] places[i]
                < segments.len() && ({
                let text = segment_value(dialect, segments[places[i]], keys[i])->0;
                text == default_partition_name || dialect.parsed(text, fields[i].data_type) is Some
            }) by {
                assert(read[i] is Some);
            }
        } else {
            let i = choose|i: int| 0 <= i < read.len() && !(#[trigger] read[i] is Some);
            assert(places[i] < segments.len());
        }
    } else {
        let i = choose|i: int| 0 <= i < found.len() && !(#[trigger] found[i] is Some);
        assert(!(places[i] < segments.len()));
        assert(values_in_path(dialect, whole, keys, false) is None);
    }
}

/// What a directory says of its partition where values alone name the segments: the values are the
/// first segments, unescaped, in the order of the keys, and what lies deeper does not count; where
/// there are too few segments, the directory is of no partition.
pub proof fn law_rows_in_value_paths<D: PartitionDialect>(
    dialect: D,
    table_path: Seq<char>,
    segments: Seq<Seq<char>>,
    fields: Seq<DataFieldView>,
    keys: Seq<Seq<char>>,
    default_partition_name: Seq<char>,
)
    requires
        table_path.len() == 0 || table_path.last() != '/',
        segments.len() > 0,
        forall|i: int|
            0 <= i < segments.len() ==> (#[trigger] segments[i]).len() > 0
                && !segments[i].contains('/'),
        keys.len() == fields.len(),
    ensures
        ({
            let read = row_in_path(
                dialect,
                table_path,
                table_path + seq!['/'] + joined(segments, "/"@),
                fields,
                keys,
                default_partition_name,
                true,
            );
            &&& (read is Some <==> keys.len() <= segments.len() && forall|i: int|
                0 <= i < keys.len() ==> dialect.unescaped(#[trigger] segments[i]) is Some && (
                dialect.unescaped(segments[i])->0 == default_partition_name || dialect.parsed(
                    dialect.unescaped(segments[i])->0,
                    fields[i].data_type,
                ) is Some))
            &&& (read is Some ==> read->0.len() == keys.len() && forall|i: int|
                0 <= i < keys.len() ==> #[trigger] read->0[i] == if dialect.unescaped(
                    segments[i],
                )->0 == default_partition_name {
                    None
                } else {
                    dialect.parsed(dialect.unescaped(segments[i])->0, fields[i].data_type)
                })
        }),
{
    lemma_plain_directory(table_path, segments);
    let whole = joined(segments, "/"@);
    if keys.len() <= segments.len() {
        let found = Seq::new(keys.len(), |i: int| dialect.unescaped(segments[i]));
        let values = found.map_values(|v: Option<Seq<char>>| v->0);
        let read = Seq::new(
            values.len(),
            |i: int| value_read(dialect, values[i], fields[i], default_partition_name),
        );
        let result = row_in_path(
            dialect,
            table_path,
            table_path + seq!['/'] + whole,
            fields,
            keys,
            default_partition_name,
            true,
        );
        if forall|i: int| 0 <= i < found.len() ==> #[trigger] found[i] is Some {
            assert(values_in_path(dialect, whole, keys, true) == Some(values));
            assert(result == all_some(read));
            assert forall|i: int| 0 <= i < keys.len() implies dialect.unescaped(
                #[trigger] segments[i],
            ) is Some by {
                assert(found[i] is Some);
            }
            if forall|i: int| 0 <= i < read.len() ==> #[trigger] read[i] is Some {
                assert forall|i: int| 0 <= i < keys.len() implies (dialect.unescaped(
                    #[trigger] segments[i],
                )->0 == default_partition_name || dialect.parsed(
                    dialect.unescaped(segments[i])->0,
                    fields[i].data_type,
                ) is Some) by {
                    assert(read[i] is Some);
                }
            } else {
                let i = choose|i: int| 0 <= i < read.len() && !(#[trigger] read[i] is Some);
                assert(dialect.unescaped(segments[i]) is Some);
            }
        } else {
            let i = choose|i: int| 0 <= i < found.len() && !(#[trigger] found[i] is Some);
            assert(dialect.unescaped(segments[i]) is None);
            assert(values_in_path(dialect, whole, keys, true) is None);
        }
    }
}

proof fn lemma_split_between(a: Seq<char>, b: Seq<char>, c: char)
    ensures
        split_on(a + seq![c] + b, c) == split_on(a, c) + split_on(b, c),
    decreases a.len(),
{
    let whole = a + seq![c] + b;
    let at = first_position(a, c) as int;
    lemma_first_position(a, c);
    if at >= a.len() {
        lemma_first_position_is(whole, c, a.len() as int);
        assert(whole.take(a.len() as int) =~= a);
        assert(whole.skip(a.len() as int + 1) =~= b);
        assert(split_on(a, c) =~= seq![a]);
    } else {
        lemma_first_position_is(whole, c, at);
        let rest = a.skip(at + 1);
        assert(whole.take(at) =~= a.take(at));
        assert(whole.skip(at + 1) =~= rest + seq![c] + b);
        lemma_split_between(rest, b, c);
        assert(seq![a.take(at)] + (split_on(rest, c) + split_on(b, c)) =~= (seq![a.take(at)]
            + split_on(rest, c)) + split_on(b, c));
    }
}

/// The segments of a path are the pieces between its slashes that are not empty, from left to
/// right.
pub proof fn law_named_segments(a: Seq<char>, b: Seq<char>)
    ensures
        named_segments(a + seq!['/'] + b) == named_segments(a) + named_segments(b),
        !a.contains('/') && a.len() > 0 ==> named_segments(a) == seq![a],
        named_segments(Seq::empty()) == Seq::<Seq<char>>::empty(),
{
    let keep = |s: Seq<char>| s.len() > 0;
    lemma_split_between(a, b, '/');
    Seq::filter_distributes_over_add(split_on(a, '/'), split_on(b, '/'), keep);
    if !a.contains('/') && a.len() > 0 {
        lemma_split_joined(seq![a]);
        lemma_filter_all(seq![a]);
        law_joined_pieces(a, Seq::empty(), "/"@);
    }
    let none = Seq::<char>::empty();
    assert(split_on(none, '/') =~= seq![none]) by {
        lemma_first_position(none, '/');
    }
    assert(seq![none].filter(keep) =~= Seq::<Seq<char>>::empty()) by {
        reveal_with_fuel(Seq::filter, 2);
        assert(seq![none].drop_last() =~= Seq::<Seq<char>>::empty());
        assert(!keep(seq![none].last()));
    }
}

proof fn lemma_trim_end_of_two(x: Seq<char>, y: Seq<char>, c: char)
    ensures
        trim_end(x + y, c) == if trim_end(y, c).len() == 0 {
            trim_end(x, c)
        } else {
            x + trim_end(y, c)
        },
    decreases y.len(),
{
    if y.len() == 0 {
        assert(x + y =~= x);
    } else if y.last() == c {
        assert((x + y).drop_last() =~= x + y.drop_last());
        lemma_trim_end_of_two(x, y.drop_last(), c);
    }
}

proof fn lemma_trim_start_of_two(x: Seq<char>, y: Seq<char>, c: char)
    ensures
        trim_start(x + y, c) == if trim_start(x, c).len() == 0 {
            trim_start(y, c)
        } else {
            trim_start(x, c) + y
        },
    decreases x.len(),
{
    if x.len() == 0 {
        assert(x + y =~= y);
    } else if x[0] == c {
        assert((x + y).drop_first() =~= x.drop_first() + y);
        lemma_trim_start_of_two(x.drop_first(), y, c);
    }
}

/// What is left of two paths that differ in a repeated slash: the same, or again two such paths.
pub(crate) proof fn lemma_repeated_slash(
    table_path: Seq<char>,
    before: Seq<char>,
    after: Seq<char>,
) -> (parts: (Seq<char>, Seq<char>))
    ensures
        ({
            let table = trim_end(table_path, '/');
            let twice = table + before + seq!['/', '/'] + after;
            let once = table + before + seq!['/'] + after;
            let left = relative_to(table_path, twice);
            ||| trim_end(twice, '/') == trim_end(once, '/')
            ||| {
                &&& parts.0.len() > 0
                &&& trim_end(twice, '/') == table + before + seq!['/', '/'] + trim_end(after, '/')
                &&& trim_end(once, '/') == table + before + seq!['/'] + trim_end(after, '/')
                &&& left == Some(parts.0 + seq!['/', '/'] + parts.1)
                &&& relative_to(table_path, once) == Some(parts.0 + seq!['/'] + parts.1)
            }
            ||| {
                &&& trim_end(twice, '/') == table + before + seq!['/', '/'] + trim_end(after, '/')
                &&& trim_end(once, '/') == table + before + seq!['/'] + trim_end(after, '/')
                &&& left is Some
                &&& left == relative_to(table_path, once)
            }
        }),
{
    let table = trim_end(table_path, '/');
    let two = seq!['/', '/'];
    let one = seq!['/'];
    let twice = table + before + two + after;
    let once = table + before + one + after;
    let end = trim_end(after, '/');
    lemma_trim_end_of_two(table + before + two, after, '/');
    lemma_trim_end_of_two(table + before + one, after, '/');
    let start = trim_start(before, '/');
    if end.len() == 0 {
        assert((table + before + two).drop_last() =~= table + before + one);
        assert((table + before + two).last() == '/');
    } else {
        let x = table + before + two + end;
        let y = table + before + one + end;
        assert(trim_end(twice, '/') =~= x);
        assert(trim_end(once, '/') =~= y);
        assert(has_prefix(x, table)) by {
            assert(x.take(table.len() as int) =~= table);
        }
        assert(has_prefix(y, table)) by {
            assert(y.take(table.len() as int) =~= table);
        }
        assert(x.skip(table.len() as int) =~= before + (two + end));
        assert(y.skip(table.len() as int) =~= before + (one + end));
        lemma_trim_start_of_two(before, two + end, '/');
        lemma_trim_start_of_two(before, one + end, '/');
        if start.len() == 0 {
            assert((two + end).drop_first() =~= one + end);
            assert((two + end)[0] == '/');
        } else {
            assert(start + (two + end) =~= start + two + end);
            assert(start + (one + end) =~= start + one + end);
        }
    }
    (start, end)
}

/// An empty piece gives no key a value.
proof fn lemma_first_value_skips<D: PartitionDialect>(
    dialect: D,
    front: Seq<Seq<char>>,
    back: Seq<Seq<char>>,
    key: Seq<char>,
)
    ensures
        first_value(dialect, front + seq![Seq::<char>::empty()] + back, key) == first_value(
            dialect,
            front + back,
            key,
        ),
    decreases front.len(),
{
    let none = Seq::<char>::empty();
    let whole = front + seq![none] + back;
    if front.len() == 0 {
        lemma_first_position(none, '=');
        assert(whole[0] == none);
        assert(segment_value(dialect, none, key) is None);
        assert(whole.drop_first() =~= back);
        assert(front + back =~= back);
    } else {
        let rest = front.drop_first();
        assert(whole.drop_first() =~= rest + seq![none] + back);
        assert((front + back).drop_first() =~= rest + back);
        lemma_first_value_skips(dialect, rest, back, key);
    }
}

/// What a repeated slash does to the pieces of a path.
pub(crate) proof fn lemma_repeated_slash_pieces(a: Seq<char>, b: Seq<char>)
    ensures
        named_segments(a + seq!['/', '/'] + b) == named_segments(a + seq!['/'] + b),
        split_on(a + seq!['/', '/'] + b, '/') == split_on(a, '/') + seq![Seq::<char>::empty()]
            + split_on(b, '/'),
        split_on(a + seq!['/'] + b, '/') == split_on(a, '/') + split_on(b, '/'),
{
    let none = Seq::<char>::empty();
    let one = seq!['/'];
    assert(a + seq!['/', '/'] + b =~= a + one + (none + one + b));
    lemma_split_between(a, none + one + b, '/');
    lemma_split_between(none, b, '/');
    lemma_split_between(a, b, '/');
    lemma_first_position(none, '/');
    assert(split_on(none, '/') =~= seq![none]);
    assert(split_on(a, '/') + (seq![none] + split_on(b, '/')) =~= split_on(a, '/') + seq![none]
        + split_on(b, '/'));
    law_named_segments(a, none + one + b);
    law_named_segments(none, b);
    law_named_segments(a, b);
    assert(named_segments(a) + (Seq::<Seq<char>>::empty() + named_segments(b))
        =~= named_segments(a) + named_segments(b));
}

/// A slash that is repeated below the table directory says nothing of the partition, whether keys
/// stand in the segments or values alone.
pub proof fn law_repeated_slashes_say_nothing<D: PartitionDialect>(
    dialect: D,
    table_path: Seq<char>,
    before: Seq<char>,
    after: Seq<char>,
    fields: Seq<DataFieldView>,
    keys: Seq<Seq<char>>,
    default_partition_name: Seq<char>,
    only_value_in_path: bool,
)
    ensures
        row_in_path(
            dialect,
            table_path,
            trim_end(table_path, '/') + before + seq!['/', '/'] + after,
            fields,
            keys,
            default_partition_name,
            only_value_in_path,
        ) == row_in_path(
            dialect,
            table_path,
            trim_end(table_path, '/') + before + seq!['/'] + after,
            fields,
            keys,
            default_partition_name,
            only_value_in_path,
        ),
{
    let table = trim_end(table_path, '/');
    let twice = table + before + seq!['/', '/'] + after;
    let once = table + before + seq!['/'] + after;
    let (a, b) = lemma_repeated_slash(table_path, before, after);
    if relative_to(table_path, twice) != relative_to(table_path, once) {
        let x = a + seq!['/', '/'] + b;
        let y = a + seq!['/'] + b;
        lemma_repeated_slash_pieces(a, b);
        if !only_value_in_path {
            let in_x = Seq::new(
                keys.len(),
                |i: int| first_value(dialect, split_on(x, '/'), keys[i]),
            );
            let in_y = Seq::new(
                keys.len(),
                |i: int| first_value(dialect, split_on(y, '/'), keys[i]),
            );
            assert forall|i: int| 0 <= i < keys.len() implies in_x[i] == in_y[i] by {
                lemma_first_value_skips(dialect, split_on(a, '/'), split_on(b, '/'), keys[i]);
            }
            assert(in_x =~= in_y);
        }
        assert(values_in_path(dialect, x, keys, only_value_in_path) == values_in_path(
            dialect,
            y,
            keys,
            only_value_in_path,
        ));
    }
}

/// A path that does not begin with the table directory, and the table directory itself, are of no
/// partition.
pub proof fn law_paths_of_no_partition<D: PartitionDialect>(
    dialect: D,
    table_path: Seq<char>,
    path: Seq<char>,
    fields: Seq<DataFieldView>,
    keys: Seq<Seq<char>>,
    default_partition_name: Seq<char>,
    only_value_in_path: bool,
)
    requires
        trim_end(path, '/') == trim_end(table_path, '/') || !trim_end(table_path, '/').is_prefix_of(
            trim_end(path, '/'),
        ),
    ensures
        row_in_path(
            dialect,
            table_path,
            path,
            fields,
            keys,
            default_partition_name,
            only_value_in_path,
        ) is None,
{
    let table = trim_end(table_path, '/');
    let trimmed = trim_end(path, '/');
    if trimmed == table {
        assert(trimmed.skip(table.len() as int) =~= Seq::<char>::empty());
    } else if has_prefix(trimmed, table) {
        assert(table.is_prefix_of(trimmed));
    }
}

} // verus!
