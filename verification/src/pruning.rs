//! What a filter prunes is not asked for.

use vstd::prelude::*;

use crate::collect::{all_ok, lemma_all_ok_values};
use crate::dialect::PartitionDialect;
use crate::error::ErrorView;
use crate::evaluate::{column_value, law_conjuncts_hold, literal_views, truth};
use crate::hive::{columns_named, HiveDialect};
use crate::leading::{common_prefix, common_run, equality_on, filter_run, leading_path};
use crate::leading::{leading_somes, lemma_leading_somes, path_segments, pinned_literal};
use crate::leading::{pinned_spellings, row_spellings};
use crate::model::{field_views, BinaryRow, DataFieldView, Table};
use crate::partition::{field_names, lemma_keys_name_the_columns, path_values, row_path};
use crate::path::{lies_in, path_below};
use crate::predicate::{conjuncts, PartitionFilter, Predicate};
use crate::roots::{directory_roots, enumerated_roots, table_computer, whole_table};
use crate::round_trip::law_hive_computed_path_is_the_row_path;
use crate::scan::{partition_asked_for, ScanRootView};
use crate::text::{joined, lemma_trim_end, lemma_trim_start, texts, trim_end, trim_start};

verus! {

/// What is joined of all pieces continues what is joined of the first ones.
pub(crate) proof fn lemma_joined_prefix(pieces: Seq<Seq<char>>, count: int)
    requires
        0 < count < pieces.len(),
    ensures
        exists|rest: Seq<char>|
            #![trigger joined(pieces.take(count), "/"@) + seq!['/'] + rest]
            joined(pieces, "/"@) == joined(pieces.take(count), "/"@) + seq!['/'] + rest,
    decreases pieces.len(),
{
    reveal_strlit("/");
    let front = pieces.drop_last();
    let first = joined(pieces.take(count), "/"@);
    if count == pieces.len() - 1 {
        assert(front =~= pieces.take(count));
        assert(joined(pieces, "/"@) =~= first + seq!['/'] + pieces.last());
    } else {
        lemma_joined_prefix(front, count);
        assert(front.take(count) =~= pieces.take(count));
        let rest = choose|rest: Seq<char>|
            #![trigger first + seq!['/'] + rest]
            joined(front, "/"@) == first + seq!['/'] + rest;
        let whole = rest + "/"@ + pieces.last();
        assert(joined(pieces, "/"@) =~= first + seq!['/'] + whole);
    }
}

/// A path that continues another one, at a slash, lies in the directory of the other one.
proof fn lemma_continued_lies_in(parent: Seq<char>, child: Seq<char>, rest: Seq<char>)
    ensures
        lies_in(path_below(parent, child + seq!['/'] + rest), path_below(parent, child)),
{
    let whole = child + seq!['/'] + rest;
    let table = trim_end(parent, '/');
    let begun = trim_start(child, '/');
    let x = trim_end(begun, '/');
    lemma_trim_start(child, '/');
    lemma_trim_end(begun, '/');
    let all = trim_start(whole, '/');
    let y = trim_end(all, '/');
    lemma_trim_start(whole, '/');
    lemma_trim_end(all, '/');
    if x.len() == 0 {
        assert(path_below(parent, child) == table);
        if y.len() > 0 {
            assert((table + seq!['/'] + y).take((table.len() + 1) as int) =~= table + seq!['/']);
        }
    } else {
        let skipped = child.len() - begun.len();
        assert(begun.len() > 0);
        assert(whole[skipped] == child[skipped]);
        assert(all == whole.skip(skipped)) by {
            let other = whole.len() - all.len();
            if other < skipped {
                assert(whole[other] == child[other]);
            }
            if skipped < other {
                assert(whole[skipped] == '/');
            }
        }
        assert(all =~= begun + seq!['/'] + rest);
        assert(y.len() >= x.len()) by {
            if y.len() < x.len() {
                assert(all[x.len() - 1] == begun[x.len() - 1]);
                assert(x.last() == begun[x.len() - 1]);
            }
        }
        assert(y.take(x.len() as int) =~= x);
        if y.len() == x.len() {
            assert(y =~= x);
        } else {
            assert(y[x.len() as int] == '/') by {
                assert(y[x.len() as int] == all[x.len() as int]);
                if x.len() < begun.len() {
                    assert(begun[x.len() as int] == '/');
                }
            }
            let path = table + seq!['/'] + y;
            let directory = table + seq!['/'] + x;
            assert(path.take((directory.len() + 1) as int) =~= directory + seq!['/']);
        }
    }
}

/// Whether a row has, in its first columns, the values of the given spellings.
pub open spec fn begins_with<D: PartitionDialect>(
    dialect: D,
    row: Seq<Option<Seq<char>>>,
    fields: Seq<DataFieldView>,
    default_partition_name: Seq<char>,
    legacy_partition_name: bool,
    run: Seq<Seq<char>>,
) -> bool {
    let spellings = row_spellings(
        dialect,
        row,
        fields,
        default_partition_name,
        legacy_partition_name,
    );
    run.len() <= spellings.len() && forall|i: int|
        0 <= i < run.len() ==> #[trigger] spellings[i] == Some(run[i])
}

/// Reading only the directory that a predicate leads to loses nothing: the directory of every
/// row that has the pinned values lies in it.
pub proof fn law_leading_path_covers<D: PartitionDialect>(
    dialect: D,
    table_path: Seq<char>,
    fields: Seq<DataFieldView>,
    predicate: Predicate,
    default_partition_name: Seq<char>,
    legacy_partition_name: bool,
    only_value_in_path: bool,
    row: Seq<Option<Seq<char>>>,
)
    requires
        begins_with(
            dialect,
            row,
            fields,
            default_partition_name,
            legacy_partition_name,
            leading_somes(
                pinned_spellings(
                    dialect,
                    predicate,
                    fields,
                    default_partition_name,
                    legacy_partition_name,
                ),
            ),
        ),
    ensures
        leading_path(
            dialect,
            table_path,
            field_names(fields),
            fields,
            predicate,
            default_partition_name,
            legacy_partition_name,
            only_value_in_path,
        ) matches Some(root) ==> row_path(
            dialect,
            row,
            fields,
            default_partition_name,
            legacy_partition_name,
            only_value_in_path,
        ) matches Ok(path) ==> lies_in(path_below(table_path, path), root),
{
    let spellings = pinned_spellings(
        dialect,
        predicate,
        fields,
        default_partition_name,
        legacy_partition_name,
    );
    let run = leading_somes(spellings);
    lemma_leading_somes(spellings);
    let outcomes = path_values(dialect, row, fields, default_partition_name, legacy_partition_name);
    lemma_all_ok_values(outcomes);
    if run.len() > 0 && all_ok(outcomes) is Ok {
        let keys = field_names(fields);
        let values = all_ok(outcomes)->Ok_0;
        let segments = path_segments(dialect, keys, values, only_value_in_path);
        let leading = path_segments(dialect, keys, run, only_value_in_path);
        let count = run.len() as int;
        let written = row_spellings(
            dialect,
            row,
            fields,
            default_partition_name,
            legacy_partition_name,
        );
        assert forall|i: int| 0 <= i < count implies leading[i] == segments[i] by {
            assert(written[i] == Some(run[i]));
            assert(outcomes[i] == Ok::<Seq<char>, ErrorView>(values[i]));
        }
        assert(segments.take(count) =~= leading);
        if count < segments.len() {
            lemma_joined_prefix(segments, count);
            let first = joined(leading, "/"@);
            let rest = choose|rest: Seq<char>|
                #![trigger first + seq!['/'] + rest]
                joined(segments, "/"@) == first + seq!['/'] + rest;
            lemma_continued_lies_in(table_path, first, rest);
        } else {
            assert(segments =~= leading);
        }
    }
}

/// A column that the predicates pin has the pinned value in every row that meets them.
proof fn lemma_pinned(predicates: Seq<Predicate>, row: Seq<Option<Seq<char>>>, index: int)
    requires
        0 <= index,
        forall|i: int|
            0 <= i < predicates.len() ==> truth(#[trigger] predicates[i], row) == Some(true),
    ensures
        pinned_literal(predicates, index) matches Some(literal) ==> column_value(row, index)
            == Some(literal),
    decreases predicates.len(),
{
    if predicates.len() > 0 {
        let last = predicates.last();
        assert(last == predicates[predicates.len() - 1]);
        if equality_on(last, index) is Some {
            assert(truth(last, row) == Some(true));
            let literals = last->Leaf_literals;
            if literals@.len() > 0 {
                assert(literal_views(literals@)[0] == literals@[0]@);
            }
        } else {
            let front = predicates.drop_last();
            assert forall|i: int| 0 <= i < front.len() implies truth(#[trigger] front[i], row)
                == Some(true) by {
                assert(front[i] == predicates[i]);
            }
            lemma_pinned(front, row, index);
        }
    }
}

/// Every row that meets a predicate begins with the values that the predicate pins.
pub proof fn law_predicate_pins<D: PartitionDialect>(
    dialect: D,
    predicate: Predicate,
    row: Seq<Option<Seq<char>>>,
    fields: Seq<DataFieldView>,
    default_partition_name: Seq<char>,
    legacy_partition_name: bool,
)
    requires
        truth(predicate, row) == Some(true),
    ensures
        begins_with(
            dialect,
            row,
            fields,
            default_partition_name,
            legacy_partition_name,
            leading_somes(
                pinned_spellings(
                    dialect,
                    predicate,
                    fields,
                    default_partition_name,
                    legacy_partition_name,
                ),
            ),
        ),
{
    let parts = conjuncts(predicate);
    assert forall|i: int| 0 <= i < parts.len() implies truth(#[trigger] parts[i], row) == Some(
        true,
    ) by {
        law_conjuncts_hold(predicate, row, i);
    }
    let pinned = pinned_spellings(
        dialect,
        predicate,
        fields,
        default_partition_name,
        legacy_partition_name,
    );
    let run = leading_somes(pinned);
    lemma_leading_somes(pinned);
    let spellings = row_spellings(
        dialect,
        row,
        fields,
        default_partition_name,
        legacy_partition_name,
    );
    assert forall|i: int| 0 <= i < run.len() implies i < spellings.len() && #[trigger] spellings[i]
        == Some(run[i]) by {
        assert(pinned[i] == Some(run[i]));
        lemma_pinned(parts, row, i);
    }
    if run.len() > 0 {
        assert(spellings[run.len() - 1] == Some(run[run.len() - 1]));
    }
}

/// The shared beginning of two runs is a beginning of both, and none that both have is longer.
proof fn lemma_common_prefix(a: Seq<Seq<char>>, b: Seq<Seq<char>>)
    ensures
        common_prefix(a, b).len() <= a.len(),
        common_prefix(a, b).len() <= b.len(),
        common_prefix(a, b) == a.take(common_prefix(a, b).len() as int),
        common_prefix(a, b) == b.take(common_prefix(a, b).len() as int),
        common_prefix(a, b).len() < a.len() && common_prefix(a, b).len() < b.len()
            ==> a[common_prefix(a, b).len() as int] != b[common_prefix(a, b).len() as int],
    decreases a.len(),
{
    let shared = common_prefix(a, b);
    if a.len() > 0 && b.len() > 0 && a[0] == b[0] {
        let x = a.drop_first();
        let y = b.drop_first();
        lemma_common_prefix(x, y);
        let rest = common_prefix(x, y);
        let count = shared.len() as int;
        assert forall|i: int| 0 <= i < count implies shared[i] == a[i] && shared[i] == b[i] by {
            if i > 0 {
                assert(shared[i] == rest[i - 1]);
                assert(rest[i - 1] == x.take(rest.len() as int)[i - 1]);
                assert(rest[i - 1] == y.take(rest.len() as int)[i - 1]);
            }
        }
        assert(shared =~= a.take(count));
        assert(shared =~= b.take(count));
        if count < a.len() && count < b.len() {
            assert(x[count - 1] == a[count]);
            assert(y[count - 1] == b[count]);
        }
    } else {
        assert(shared =~= a.take(0));
        assert(shared =~= b.take(0));
    }
}

/// Every enumerated row begins with the values that the enumeration pins.
pub proof fn law_enumeration_pins<D: PartitionDialect>(
    dialect: D,
    rows: Seq<BinaryRow>,
    fields: Seq<DataFieldView>,
    default_partition_name: Seq<char>,
    legacy_partition_name: bool,
    run: Seq<Seq<char>>,
    i: int,
)
    requires
        common_run(dialect, rows, fields, default_partition_name, legacy_partition_name) == Ok::<
            Option<Seq<Seq<char>>>,
            ErrorView,
        >(Some(run)),
        0 <= i < rows.len(),
    ensures
        begins_with(
            dialect,
            rows[i]@,
            fields,
            default_partition_name,
            legacy_partition_name,
            run,
        ),
    decreases rows.len(),
{
    let before = common_run(
        dialect,
        rows.drop_last(),
        fields,
        default_partition_name,
        legacy_partition_name,
    );
    if run.len() == 0 {
    } else if before == Ok::<Option<Seq<Seq<char>>>, ErrorView>(Some(Seq::empty())) {
    } else {
        let last = rows.last()@;
        let spellings = row_spellings(
            dialect,
            last,
            fields,
            default_partition_name,
            legacy_partition_name,
        );
        lemma_leading_somes(spellings);
        let own = leading_somes(spellings);
        if before->Ok_0 is Some {
            let common = before->Ok_0->0;
            lemma_common_prefix(common, own);
            assert forall|j: int| 0 <= j < run.len() implies run[j] == common[j] && run[j]
                == own[j] by {
                assert(run[j] == common.take(run.len() as int)[j]);
                assert(run[j] == own.take(run.len() as int)[j]);
            }
            if i < rows.len() - 1 {
                law_enumeration_pins(
                    dialect,
                    rows.drop_last(),
                    fields,
                    default_partition_name,
                    legacy_partition_name,
                    common,
                    i,
                );
                assert(rows.drop_last()[i] == rows[i]);
            }
        } else {
            assert(rows.drop_last().len() == 0);
        }
        if i == rows.len() - 1 {
            assert forall|j: int| 0 <= j < run.len() implies #[trigger] spellings[j] == Some(
                run[j],
            ) by {
                assert(spellings[j] == Some(own[j]));
            }
        }
    }
}

/// No beginning that all enumerated rows share is longer than the one that the enumeration pins.
pub proof fn law_enumeration_pins_all<D: PartitionDialect>(
    dialect: D,
    rows: Seq<BinaryRow>,
    fields: Seq<DataFieldView>,
    default_partition_name: Seq<char>,
    legacy_partition_name: bool,
    run: Seq<Seq<char>>,
    shared: Seq<Seq<char>>,
)
    requires
        common_run(dialect, rows, fields, default_partition_name, legacy_partition_name) == Ok::<
            Option<Seq<Seq<char>>>,
            ErrorView,
        >(Some(run)),
        forall|i: int|
            0 <= i < rows.len() ==> begins_with(
                dialect,
                (#[trigger] rows[i])@,
                fields,
                default_partition_name,
                legacy_partition_name,
                shared,
            ),
    ensures
        shared.len() <= run.len(),
        shared == run.take(shared.len() as int),
    decreases rows.len(),
{
    let front = rows.drop_last();
    let before = common_run(dialect, front, fields, default_partition_name, legacy_partition_name);
    assert forall|i: int| 0 <= i < front.len() implies begins_with(
        dialect,
        (#[trigger] front[i])@,
        fields,
        default_partition_name,
        legacy_partition_name,
        shared,
    ) by {
        assert(front[i] == rows[i]);
    }
    if before == Ok::<Option<Seq<Seq<char>>>, ErrorView>(Some(Seq::empty())) {
        law_enumeration_pins_all(
            dialect,
            front,
            fields,
            default_partition_name,
            legacy_partition_name,
            run,
            shared,
        );
    } else {
        assert(rows.last() == rows[rows.len() - 1]);
        let spellings = row_spellings(
            dialect,
            rows.last()@,
            fields,
            default_partition_name,
            legacy_partition_name,
        );
        lemma_leading_somes(spellings);
        let own = leading_somes(spellings);
        if own.len() < shared.len() {
            assert(spellings[own.len() as int] == Some(shared[own.len() as int]));
        }
        assert forall|j: int| 0 <= j < shared.len() implies shared[j] == own[j] by {
            assert(spellings[j] == Some(shared[j]));
            assert(spellings[j] == Some(own[j]));
        }
        if before->Ok_0 is Some {
            let common = before->Ok_0->0;
            law_enumeration_pins_all(
                dialect,
                front,
                fields,
                default_partition_name,
                legacy_partition_name,
                common,
                shared,
            );
            lemma_common_prefix(common, own);
            if run.len() < shared.len() {
                assert(common[run.len() as int] == common.take(shared.len() as int)[run.len() as int]);
            }
            assert forall|j: int| 0 <= j < shared.len() implies shared[j] == run[j] by {
                assert(run[j] == own.take(run.len() as int)[j]);
            }
        }
        assert(shared =~= run.take(shared.len() as int));
    }
}

/// In the Hive dialect, every row that a filter asks for begins with the values that it pins.
pub proof fn law_hive_filter_pins(
    filter: PartitionFilter,
    row: Seq<Option<Seq<char>>>,
    fields: Seq<DataFieldView>,
    default_partition_name: Seq<char>,
    legacy_partition_name: bool,
    run: Seq<Seq<char>>,
)
    requires
        HiveDialect.entry_matches(filter, row) == Ok::<bool, ErrorView>(true),
        filter_run(HiveDialect, filter, fields, default_partition_name, legacy_partition_name)
            == Ok::<Seq<Seq<char>>, ErrorView>(run),
    ensures
        begins_with(HiveDialect, row, fields, default_partition_name, legacy_partition_name, run),
{
    match filter {
        PartitionFilter::Predicate(predicate) => {
            law_predicate_pins(
                HiveDialect,
                predicate,
                row,
                fields,
                default_partition_name,
                legacy_partition_name,
            );
        },
        PartitionFilter::PartitionSet { partitions } => {
            let i = choose|i: int|
                0 <= i < partitions@.len() && (#[trigger] partitions@[i])@ == row;
            law_enumeration_pins(
                HiveDialect,
                partitions@,
                fields,
                default_partition_name,
                legacy_partition_name,
                run,
                i,
            );
        },
    }
}

/// In the Hive dialect, the directory of every row that meets a predicate lies in the directory
/// that the predicate leads to.
pub proof fn law_hive_leading_path_covers(
    table_path: Seq<char>,
    fields: Seq<DataFieldView>,
    predicate: Predicate,
    default_partition_name: Seq<char>,
    legacy_partition_name: bool,
    only_value_in_path: bool,
    row: Seq<Option<Seq<char>>>,
)
    requires
        HiveDialect.entry_matches(PartitionFilter::Predicate(predicate), row) == Ok::<
            bool,
            ErrorView,
        >(true),
    ensures
        leading_path(
            HiveDialect,
            table_path,
            field_names(fields),
            fields,
            predicate,
            default_partition_name,
            legacy_partition_name,
            only_value_in_path,
        ) matches Some(root) ==> row_path(
            HiveDialect,
            row,
            fields,
            default_partition_name,
            legacy_partition_name,
            only_value_in_path,
        ) matches Ok(path) ==> lies_in(path_below(table_path, path), root),
{
    law_predicate_pins(
        HiveDialect,
        predicate,
        row,
        fields,
        default_partition_name,
        legacy_partition_name,
    );
    law_leading_path_covers(
        HiveDialect,
        table_path,
        fields,
        predicate,
        default_partition_name,
        legacy_partition_name,
        only_value_in_path,
        row,
    );
}

/// A path below a table directory lies in the table directory.
proof fn lemma_below_lies_in(table_path: Seq<char>, path: Seq<char>)
    requires
        trim_end(table_path, '/') == table_path,
    ensures
        lies_in(path_below(table_path, path), table_path),
{
    let child = trim_end(trim_start(path, '/'), '/');
    if child.len() > 0 {
        let whole = table_path + seq!['/'] + child;
        assert(whole.take((table_path.len() + 1) as int) =~= table_path + seq!['/']);
    }
}

/// Whether one of the directories that are read holds a path.
pub open spec fn is_reached(path: Seq<char>, roots: Seq<ScanRootView>) -> bool {
    exists|i: int| 0 <= i < roots.len() && lies_in(path, (#[trigger] roots[i]).path)
}

/// Where the directory tree says which partitions there are, a scan reads the directory of every
/// row that it asks for, whatever the filter prunes.
///
/// This asks that the row is one that the filter finds by its pinned values or its enumeration,
/// and that the path computed for an enumerated row is the path written for it.
pub proof fn law_scan_reaches_what_it_asks_for<D: PartitionDialect>(
    dialect: D,
    table: Table,
    filter: Option<PartitionFilter>,
    table_path: Seq<char>,
    roots: Seq<ScanRootView>,
    row: Seq<Option<Seq<char>>>,
    path: Seq<char>,
)
    requires
        table.schema.wf(),
        trim_end(table_path, '/') == table_path,
        directory_roots(dialect, table, filter, table_path) == Ok::<Seq<ScanRootView>, ErrorView>(
            roots,
        ),
        row_path(
            dialect,
            row,
            field_views(table.schema.partition_fields@),
            table.options.partition_default_name@,
            table.options.legacy_partition_name,
            table.options.only_value_in_path,
        ) == Ok::<Seq<char>, ErrorView>(path),
        filter matches Some(PartitionFilter::Predicate(predicate)) ==> begins_with(
            dialect,
            row,
            field_views(table.schema.partition_fields@),
            table.options.partition_default_name@,
            table.options.legacy_partition_name,
            leading_somes(
                pinned_spellings(
                    dialect,
                    predicate,
                    field_views(table.schema.partition_fields@),
                    table.options.partition_default_name@,
                    table.options.legacy_partition_name,
                ),
            ),
        ),
        filter matches Some(PartitionFilter::PartitionSet { partitions }) ==> {
            &&& exists|i: int| 0 <= i < partitions@.len() && (#[trigger] partitions@[i])@ == row
            &&& !table.options.only_value_in_path ==> dialect.computed_path(
                table_computer(table),
                row,
            ) == Ok::<Seq<char>, ErrorView>(path)
        },
    ensures
        is_reached(path_below(table_path, path), roots),
{
    let fields = field_views(table.schema.partition_fields@);
    let directory = path_below(table_path, path);
    lemma_keys_name_the_columns(table.schema);
    lemma_below_lies_in(table_path, path);
    if table.schema.partition_keys@.len() == 0 || filter is None {
        assert(roots[0] == whole_table(table_path));
    } else {
        match filter->0 {
            PartitionFilter::Predicate(predicate) => {
                law_leading_path_covers(
                    dialect,
                    table_path,
                    fields,
                    predicate,
                    table.options.partition_default_name@,
                    table.options.legacy_partition_name,
                    table.options.only_value_in_path,
                    row,
                );
                assert(lies_in(directory, roots[0].path));
            },
            PartitionFilter::PartitionSet { partitions } => {
                let i = choose|i: int|
                    0 <= i < partitions@.len() && (#[trigger] partitions@[i])@ == row;
                let outcomes = enumerated_roots(dialect, table, table_path, partitions@);
                lemma_all_ok_values(outcomes);
                assert(outcomes[i] == Ok::<ScanRootView, ErrorView>(roots[i]));
                assert(roots[i].path == directory);
            },
        }
    }
}

/// In the Hive dialect a scan of the directory tree reads the directory of every row that it asks
/// for.
pub proof fn law_hive_scan_reaches_what_it_asks_for(
    table: Table,
    filter: Option<PartitionFilter>,
    table_path: Seq<char>,
    roots: Seq<ScanRootView>,
    row: Seq<Option<Seq<char>>>,
    path: Seq<char>,
)
    requires
        table.schema.wf(),
        all_ok(
            columns_named(
                field_views(table.schema.fields@),
                texts(table.schema.partition_keys@),
            ),
        ) == Ok::<Seq<DataFieldView>, ErrorView>(field_views(table.schema.partition_fields@)),
        trim_end(table_path, '/') == table_path,
        directory_roots(HiveDialect, table, filter, table_path) == Ok::<
            Seq<ScanRootView>,
            ErrorView,
        >(roots),
        partition_asked_for(HiveDialect, filter, row) == Ok::<bool, ErrorView>(true),
        row_path(
            HiveDialect,
            row,
            field_views(table.schema.partition_fields@),
            table.options.partition_default_name@,
            table.options.legacy_partition_name,
            table.options.only_value_in_path,
        ) == Ok::<Seq<char>, ErrorView>(path),
    ensures
        is_reached(path_below(table_path, path), roots),
{
    let fields = field_views(table.schema.partition_fields@);
    if let Some(PartitionFilter::Predicate(predicate)) = filter {
        law_predicate_pins(
            HiveDialect,
            predicate,
            row,
            fields,
            table.options.partition_default_name@,
            table.options.legacy_partition_name,
        );
    }
    law_hive_computed_path_is_the_row_path(table_computer(table), fields, row);
    law_scan_reaches_what_it_asks_for(
        HiveDialect,
        table,
        filter,
        table_path,
        roots,
        row,
        path,
    );
}

} // verus!
