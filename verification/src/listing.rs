//! What the catalog is asked for is all that a scan asks for.

use vstd::prelude::*;

use crate::collect::{all_ok, lemma_all_ok_is, lemma_all_ok_values, lemma_present_ok_places};
use crate::collect::present_ok;
use crate::dialect::{PartitionDialect, PartitionPathsView};
use crate::error::ErrorView;
use crate::hive::{escaped_name, hive_path, hive_segment, hive_spec_path, key_values};
use crate::hive::{law_escaping_is_undone, HiveDialect};
use crate::leading::{filter_run, lemma_leading_somes, row_spellings};
use crate::model::{field_views, CatalogPartitionView, DataFieldView, Table};
use crate::partition::spec_values;
use crate::path::path_below;
use crate::predicate::PartitionFilter;
use crate::pruning::{begins_with, law_hive_filter_pins, lemma_joined_prefix};
use crate::roots::{catalog_roots, character_values, is_repeated, table_paths, wanted_listing};
use crate::round_trip::lemma_split_joined;
use crate::scan::{partition_asked_for, CatalogListingView, ScanRootView};
use crate::text::{has_prefix, joined, texts};

verus! {

/// Whether a partition is registered under the given values of the first keys.
pub open spec fn are_registered(
    spec: Map<Seq<char>, Seq<char>>,
    keys: Seq<Seq<char>>,
    values: Seq<Seq<char>>,
) -> bool {
    values.len() <= keys.len() && forall|i: int|
        0 <= i < values.len() ==> #[trigger] spec.contains_key(keys[i]) && spec[keys[i]]
            == values[i]
}

/// Whether the character strings among the first `count` values of a specification stand for
/// themselves. Nothing is said of values of other types: those may be spelled in any way that
/// parses.
pub open spec fn spells_characters_plainly<D: PartitionDialect>(
    dialect: D,
    spec: Map<Seq<char>, Seq<char>>,
    fields: Seq<DataFieldView>,
    keys: Seq<Seq<char>>,
    default_partition_name: Seq<char>,
    legacy_partition_name: bool,
    count: int,
) -> bool {
    forall|i: int|
        0 <= i < count && i < fields.len() && (#[trigger] fields[i]).data_type.kind is Character
            ==> {
            &&& dialect.parsed(spec[keys[i]], fields[i].data_type) == Some(spec[keys[i]])
            &&& dialect.formatted(
                spec[keys[i]],
                fields[i].data_type,
                default_partition_name,
                legacy_partition_name,
            ) == Some(spec[keys[i]])
        }
}

/// The values that go into a pattern are those under which every partition is registered whose
/// row begins with the run, in columns of whatever types.
pub proof fn law_pattern_values_are_registered<D: PartitionDialect>(
    dialect: D,
    spec: Map<Seq<char>, Seq<char>>,
    row: Seq<Option<Seq<char>>>,
    fields: Seq<DataFieldView>,
    keys: Seq<Seq<char>>,
    default_partition_name: Seq<char>,
    legacy_partition_name: bool,
    run: Seq<Seq<char>>,
)
    requires
        keys.len() == fields.len(),
        all_ok(spec_values(dialect, spec, fields, keys, default_partition_name)) == Ok::<
            Seq<Option<Seq<char>>>,
            ErrorView,
        >(row),
        begins_with(dialect, row, fields, default_partition_name, legacy_partition_name, run),
        spells_characters_plainly(
            dialect,
            spec,
            fields,
            keys,
            default_partition_name,
            legacy_partition_name,
            run.len() as int,
        ),
    ensures
        are_registered(spec, keys, character_values(fields, run)),
{
    let outcomes = spec_values(dialect, spec, fields, keys, default_partition_name);
    lemma_all_ok_values(outcomes);
    let marked = Seq::new(
        if fields.len() < run.len() {
            fields.len()
        } else {
            run.len()
        },
        |i: int|
            if fields[i].data_type.kind is Character {
                Some(run[i])
            } else {
                None
            },
    );
    lemma_leading_somes(marked);
    let pinned = character_values(fields, run);
    let spellings = row_spellings(
        dialect,
        row,
        fields,
        default_partition_name,
        legacy_partition_name,
    );
    assert forall|i: int| 0 <= i < pinned.len() implies #[trigger] spec.contains_key(keys[i])
        && spec[keys[i]] == pinned[i] by {
        assert(marked[i] == Some(pinned[i]));
        assert(fields[i].data_type.kind is Character);
        assert(spellings[i] == Some(run[i]));
        assert(outcomes[i] is Ok);
        assert(outcomes[i] == Ok::<Option<Seq<char>>, ErrorView>(row[i]));
    }
}

/// The leading spellings that the filter of a scan pins.
pub open spec fn scan_run<D: PartitionDialect>(
    dialect: D,
    table: Table,
    filter: Option<PartitionFilter>,
) -> Seq<Seq<char>> {
    match filter {
        None => Seq::empty(),
        Some(filter) => match filter_run(
            dialect,
            filter,
            field_views(table.schema.partition_fields@),
            table.options.partition_default_name@,
            table.options.legacy_partition_name,
        ) {
            Ok(run) => run,
            Err(_) => Seq::empty(),
        },
    }
}

/// The values that go into the pattern of the listing that a scan asks the catalog for.
pub open spec fn listing_values<D: PartitionDialect>(
    dialect: D,
    table: Table,
    filter: Option<PartitionFilter>,
) -> Seq<Seq<char>> {
    character_values(
        field_views(table.schema.partition_fields@),
        scan_run(dialect, table, filter),
    )
}

/// The row that a specification gives for a table.
pub open spec fn registered_row<D: PartitionDialect>(
    dialect: D,
    table: Table,
    spec: Map<Seq<char>, Seq<char>>,
) -> Result<Seq<Option<Seq<char>>>, ErrorView> {
    all_ok(
        spec_values(
            dialect,
            spec,
            field_views(table.schema.partition_fields@),
            texts(table.schema.partition_keys@),
            table.options.partition_default_name@,
        ),
    )
}

/// Whether a partition is one whose row begins with what the filter of a scan pins, and which is
/// registered with character strings that stand for themselves.
pub open spec fn is_pinned_registration<D: PartitionDialect>(
    dialect: D,
    table: Table,
    filter: Option<PartitionFilter>,
    spec: Map<Seq<char>, Seq<char>>,
) -> bool {
    let fields = field_views(table.schema.partition_fields@);
    let run = scan_run(dialect, table, filter);
    &&& registered_row(dialect, table, spec) matches Ok(row) && begins_with(
        dialect,
        row,
        fields,
        table.options.partition_default_name@,
        table.options.legacy_partition_name,
        run,
    )
    &&& spells_characters_plainly(
        dialect,
        spec,
        fields,
        texts(table.schema.partition_keys@),
        table.options.partition_default_name@,
        table.options.legacy_partition_name,
        run.len() as int,
    )
}

/// The listing that a scan asks the catalog for loses no partition that the scan asks for: its
/// pattern is one of values under which every such partition is registered. How the values of
/// columns that are not of characters are spelled does not count.
pub proof fn law_listing_values_are_registered<D: PartitionDialect>(
    dialect: D,
    table: Table,
    filter: Option<PartitionFilter>,
    only_value_in_path: bool,
    listing: CatalogListingView,
    spec: Map<Seq<char>, Seq<char>>,
)
    requires
        table.schema.wf(),
        wanted_listing(dialect, table, filter, only_value_in_path) == Ok::<
            CatalogListingView,
            ErrorView,
        >(listing),
        is_pinned_registration(dialect, table, filter, spec),
    ensures
        listing.pattern == if filter is Some {
            dialect.name_pattern(
                table_paths(table, only_value_in_path),
                listing_values(dialect, table, filter),
            )
        } else {
            None
        },
        are_registered(
            spec,
            texts(table.schema.partition_keys@),
            listing_values(dialect, table, filter),
        ),
{
    law_pattern_values_are_registered(
        dialect,
        spec,
        registered_row(dialect, table, spec)->Ok_0,
        field_views(table.schema.partition_fields@),
        texts(table.schema.partition_keys@),
        table.options.partition_default_name@,
        table.options.legacy_partition_name,
        scan_run(dialect, table, filter),
    );
}

/// Whether a registration makes sense, and lies below the table directory.
pub open spec fn is_valid_registration<D: PartitionDialect>(
    dialect: D,
    table: Table,
    filter: Option<PartitionFilter>,
    only_value_in_path: bool,
    partition: CatalogPartitionView,
) -> bool {
    &&& dialect.catalog_path(table_paths(table, only_value_in_path), partition.spec) is Ok
    &&& registered_row(dialect, table, partition.spec) matches Ok(row) && partition_asked_for(
        dialect,
        filter,
        row,
    ) is Ok
    &&& !partition.has_custom_location()
}

/// Whether a scan asks for a registered partition.
pub open spec fn is_asked_for<D: PartitionDialect>(
    dialect: D,
    table: Table,
    filter: Option<PartitionFilter>,
    partition: CatalogPartitionView,
) -> bool {
    registered_row(dialect, table, partition.spec) matches Ok(row) && partition_asked_for(
        dialect,
        filter,
        row,
    ) == Ok::<bool, ErrorView>(true)
}

/// Whether partitions with one directory have one row.
pub open spec fn directories_tell_rows<D: PartitionDialect>(
    dialect: D,
    table: Table,
    only_value_in_path: bool,
    partitions: Seq<CatalogPartitionView>,
) -> bool {
    let paths = table_paths(table, only_value_in_path);
    forall|i: int, j: int|
        0 <= i < partitions.len() && 0 <= j < partitions.len() && #[trigger] dialect.catalog_path(
            paths,
            partitions[i].spec,
        ) == #[trigger] dialect.catalog_path(paths, partitions[j].spec) ==> registered_row(
            dialect,
            table,
            partitions[i].spec,
        ) == registered_row(dialect, table, partitions[j].spec)
}

/// What becomes of a partition rests on those that were listed before it alone.
proof fn lemma_catalog_roots_front<D: PartitionDialect>(
    dialect: D,
    table: Table,
    filter: Option<PartitionFilter>,
    table_path: Seq<char>,
    only_value_in_path: bool,
    partitions: Seq<CatalogPartitionView>,
)
    requires
        partitions.len() > 0,
    ensures
        catalog_roots(
            dialect,
            table,
            filter,
            table_path,
            only_value_in_path,
            partitions,
        ).drop_last() == catalog_roots(
            dialect,
            table,
            filter,
            table_path,
            only_value_in_path,
            partitions.drop_last(),
        ),
{
    let front = partitions.drop_last();
    let paths = table_paths(table, only_value_in_path);
    let a = catalog_roots(
        dialect,
        table,
        filter,
        table_path,
        only_value_in_path,
        partitions,
    ).drop_last();
    let b = catalog_roots(dialect, table, filter, table_path, only_value_in_path, front);
    assert forall|i: int| 0 <= i < a.len() implies a[i] == b[i] by {
        assert(front[i] == partitions[i]);
        if is_repeated(dialect, paths, partitions, i) {
            let j = choose|j: int|
                0 <= j < i && #[trigger] dialect.catalog_path(paths, partitions[j].spec)
                    == dialect.catalog_path(paths, partitions[i].spec);
            assert(front[j] == partitions[j]);
            assert(dialect.catalog_path(paths, front[j].spec) == dialect.catalog_path(
                paths,
                front[i].spec,
            ));
        }
        if is_repeated(dialect, paths, front, i) {
            let j = choose|j: int|
                0 <= j < i && #[trigger] dialect.catalog_path(paths, front[j].spec)
                    == dialect.catalog_path(paths, front[i].spec);
            assert(front[j] == partitions[j]);
            assert(dialect.catalog_path(paths, partitions[j].spec) == dialect.catalog_path(
                paths,
                partitions[i].spec,
            ));
        }
    }
    assert(a =~= b);
}

/// What is kept of a sequence was in it, and what is to be kept of it is there.
proof fn lemma_filter_members<T>(s: Seq<T>, keep: spec_fn(T) -> bool)
    ensures
        forall|x: T| #[trigger] s.filter(keep).contains(x) <==> s.contains(x) && keep(x),
    decreases s.len(),
{
    reveal(Seq::filter);
    if s.len() > 0 {
        let front = s.drop_last();
        lemma_filter_members(front, keep);
        assert(front.push(s.last()) =~= s);
        assert forall|x: T| #[trigger] s.filter(keep).contains(x) <==> s.contains(x) && keep(x) by {
            lemma_push_contains(front, s.last(), x);
            lemma_push_contains(front.filter(keep), s.last(), x);
        }
    } else {
        assert(s.filter(keep) =~= s);
    }
}

proof fn lemma_push_contains<T>(s: Seq<T>, last: T, x: T)
    ensures
        s.push(last).contains(x) <==> s.contains(x) || x == last,
{
    let all = s.push(last);
    if s.contains(x) {
        let i = choose|i: int| 0 <= i < s.len() && s[i] == x;
        assert(all[i] == x);
    }
    if x == last {
        assert(all[s.len() as int] == x);
    }
    if all.contains(x) && x != last {
        let i = choose|i: int| 0 <= i < all.len() && all[i] == x;
        assert(s[i] == x);
    }
}

/// A listing that leaves out partitions which the scan does not ask for makes no difference to the
/// directories that are read. This asks for registrations that make sense and lie below the table
/// directory, and for directories that tell the rows apart.
pub proof fn law_narrow_listing_reads_the_same<D: PartitionDialect>(
    dialect: D,
    table: Table,
    filter: Option<PartitionFilter>,
    table_path: Seq<char>,
    only_value_in_path: bool,
    partitions: Seq<CatalogPartitionView>,
    admitted: spec_fn(CatalogPartitionView) -> bool,
)
    requires
        forall|i: int|
            0 <= i < partitions.len() ==> is_valid_registration(
                dialect,
                table,
                filter,
                only_value_in_path,
                #[trigger] partitions[i],
            ),
        directories_tell_rows(dialect, table, only_value_in_path, partitions),
        forall|i: int|
            0 <= i < partitions.len() && is_asked_for(
                dialect,
                table,
                filter,
                #[trigger] partitions[i],
            ) ==> admitted(partitions[i]),
    ensures
        present_ok(
            catalog_roots(
                dialect,
                table,
                filter,
                table_path,
                only_value_in_path,
                partitions.filter(admitted),
            ),
        ) == present_ok(
            catalog_roots(dialect, table, filter, table_path, only_value_in_path, partitions),
        ),
        present_ok(
            catalog_roots(dialect, table, filter, table_path, only_value_in_path, partitions),
        ) is Ok,
    decreases partitions.len(),
{
    reveal(Seq::filter);
    let paths = table_paths(table, only_value_in_path);
    let whole = catalog_roots(
        dialect,
        table,
        filter,
        table_path,
        only_value_in_path,
        partitions,
    );
    if partitions.len() == 0 {
        assert(partitions.filter(admitted) =~= partitions);
    } else {
        let front = partitions.drop_last();
        let last = partitions.last();
        let at = partitions.len() - 1;
        assert(last == partitions[at]);
        assert forall|i: int| 0 <= i < front.len() implies front[i] == partitions[i] by {}
        assert forall|i: int| 0 <= i < front.len() implies is_valid_registration(
            dialect,
            table,
            filter,
            only_value_in_path,
            #[trigger] front[i],
        ) by {
            assert(front[i] == partitions[i]);
        }
        assert forall|i: int|
            0 <= i < front.len() && is_asked_for(
                dialect,
                table,
                filter,
                #[trigger] front[i],
            ) implies admitted(front[i]) by {
            assert(front[i] == partitions[i]);
        }
        assert(directories_tell_rows(dialect, table, only_value_in_path, front)) by {
            assert forall|i: int, j: int|
                0 <= i < front.len() && 0 <= j < front.len() && #[trigger] dialect.catalog_path(
                    paths,
                    front[i].spec,
                ) == #[trigger] dialect.catalog_path(paths, front[j].spec) implies registered_row(
                dialect,
                table,
                front[i].spec,
            ) == registered_row(dialect, table, front[j].spec) by {
                assert(dialect.catalog_path(paths, partitions[i].spec) == dialect.catalog_path(
                    paths,
                    partitions[j].spec,
                ));
            }
        }
        law_narrow_listing_reads_the_same(
            dialect,
            table,
            filter,
            table_path,
            only_value_in_path,
            front,
            admitted,
        );
        lemma_catalog_roots_front(
            dialect,
            table,
            filter,
            table_path,
            only_value_in_path,
            partitions,
        );
        let kept = front.filter(admitted);
        lemma_filter_members(front, admitted);
        assert(is_valid_registration(dialect, table, filter, only_value_in_path, last));
        if admitted(last) {
            let narrow = kept.push(last);
            assert(partitions.filter(admitted) == narrow);
            let parts = catalog_roots(
                dialect,
                table,
                filter,
                table_path,
                only_value_in_path,
                narrow,
            );
            let n = narrow.len() - 1;
            lemma_catalog_roots_front(
                dialect,
                table,
                filter,
                table_path,
                only_value_in_path,
                narrow,
            );
            assert(narrow.drop_last() =~= kept);
            if is_repeated(dialect, paths, narrow, n) {
                let j = choose|j: int|
                    0 <= j < n && #[trigger] dialect.catalog_path(paths, narrow[j].spec)
                        == dialect.catalog_path(paths, narrow[n].spec);
                assert(kept.contains(kept[j]));
                assert(front.contains(kept[j]));
                let k = choose|k: int| 0 <= k < front.len() && front[k] == kept[j];
                assert(dialect.catalog_path(paths, partitions[k].spec) == dialect.catalog_path(
                    paths,
                    partitions[at].spec,
                ));
                assert(is_repeated(dialect, paths, partitions, at));
            }
            if is_asked_for(dialect, table, filter, last) && is_repeated(
                dialect,
                paths,
                partitions,
                at,
            ) {
                let k = choose|k: int|
                    0 <= k < at && #[trigger] dialect.catalog_path(paths, partitions[k].spec)
                        == dialect.catalog_path(paths, partitions[at].spec);
                assert(registered_row(dialect, table, partitions[k].spec) == registered_row(
                    dialect,
                    table,
                    partitions[at].spec,
                ));
                assert(is_asked_for(dialect, table, filter, partitions[k]));
                assert(front[k] == partitions[k]);
                assert(front.contains(front[k]));
                assert(kept.contains(front[k]));
                let j = choose|j: int| 0 <= j < kept.len() && kept[j] == front[k];
                assert(narrow[j] == kept[j]);
                assert(dialect.catalog_path(paths, narrow[j].spec) == dialect.catalog_path(
                    paths,
                    narrow[n].spec,
                ));
                assert(is_repeated(dialect, paths, narrow, n));
            }
            assert(parts.last() == whole.last());
        } else {
            assert(partitions.filter(admitted) == kept);
            assert(whole.last() == Ok::<Option<ScanRootView>, ErrorView>(None));
        }
    }
}

/// Whether a directory is among those that are read.
pub open spec fn is_read(path: Seq<char>, roots: Seq<ScanRootView>) -> bool {
    exists|j: int| 0 <= j < roots.len() && (#[trigger] roots[j]).path == path
}

/// The first partition with the directory of the one at `index`.
proof fn lemma_first_listed<D: PartitionDialect>(
    dialect: D,
    paths: PartitionPathsView,
    partitions: Seq<CatalogPartitionView>,
    index: int,
) -> (first: int)
    requires
        0 <= index < partitions.len(),
    ensures
        0 <= first <= index,
        dialect.catalog_path(paths, partitions[first].spec) == dialect.catalog_path(
            paths,
            partitions[index].spec,
        ),
        !is_repeated(dialect, paths, partitions, first),
    decreases index,
{
    if is_repeated(dialect, paths, partitions, index) {
        let j = choose|j: int|
            0 <= j < index && #[trigger] dialect.catalog_path(paths, partitions[j].spec)
                == dialect.catalog_path(paths, partitions[index].spec);
        lemma_first_listed(dialect, paths, partitions, j)
    } else {
        index
    }
}

/// The directory of every listed partition that a scan asks for is read.
pub proof fn law_every_partition_asked_for_is_read<D: PartitionDialect>(
    dialect: D,
    table: Table,
    filter: Option<PartitionFilter>,
    table_path: Seq<char>,
    only_value_in_path: bool,
    partitions: Seq<CatalogPartitionView>,
    roots: Seq<ScanRootView>,
    index: int,
)
    requires
        directories_tell_rows(dialect, table, only_value_in_path, partitions),
        present_ok(
            catalog_roots(dialect, table, filter, table_path, only_value_in_path, partitions),
        ) == Ok::<Seq<ScanRootView>, ErrorView>(roots),
        0 <= index < partitions.len(),
        is_asked_for(dialect, table, filter, partitions[index]),
    ensures
        dialect.catalog_path(
            table_paths(table, only_value_in_path),
            partitions[index].spec,
        ) matches Ok(path) && is_read(path_below(table_path, path), roots),
{
    let paths = table_paths(table, only_value_in_path);
    let outcomes = catalog_roots(
        dialect,
        table,
        filter,
        table_path,
        only_value_in_path,
        partitions,
    );
    let first = lemma_first_listed(dialect, paths, partitions, index);
    assert(registered_row(dialect, table, partitions[first].spec) == registered_row(
        dialect,
        table,
        partitions[index].spec,
    ));
    let indices = lemma_present_ok_places(outcomes, roots);
    if indices.contains(first) {
        let j = choose|j: int| 0 <= j < indices.len() && indices[j] == first;
        assert(outcomes[indices[j]] == Ok::<Option<ScanRootView>, ErrorView>(Some(roots[j])));
    } else {
        assert(outcomes[first] == Ok::<Option<ScanRootView>, ErrorView>(None));
    }
}

/// A catalog-managed scan reads the same directories whether the catalog answers with all its
/// partitions or with those alone that the listing asks for, however their values are spelled.
///
/// The catalog is taken to answer with every partition that the filter holds of and that is
/// registered under the values of the pattern.
pub proof fn law_listing_loses_nothing<D: PartitionDialect>(
    dialect: D,
    table: Table,
    filter: Option<PartitionFilter>,
    table_path: Seq<char>,
    only_value_in_path: bool,
    listing: CatalogListingView,
    partitions: Seq<CatalogPartitionView>,
    admitted: spec_fn(CatalogPartitionView) -> bool,
)
    requires
        table.schema.wf(),
        wanted_listing(dialect, table, filter, only_value_in_path) == Ok::<
            CatalogListingView,
            ErrorView,
        >(listing),
        forall|i: int|
            0 <= i < partitions.len() ==> is_valid_registration(
                dialect,
                table,
                filter,
                only_value_in_path,
                #[trigger] partitions[i],
            ),
        directories_tell_rows(dialect, table, only_value_in_path, partitions),
        forall|i: int|
            0 <= i < partitions.len() && is_asked_for(
                dialect,
                table,
                filter,
                #[trigger] partitions[i],
            ) ==> is_pinned_registration(dialect, table, filter, partitions[i].spec),
        forall|i: int|
            0 <= i < partitions.len() && is_asked_for(
                dialect,
                table,
                filter,
                #[trigger] partitions[i],
            ) && (listing.pattern is Some ==> are_registered(
                partitions[i].spec,
                texts(table.schema.partition_keys@),
                listing_values(dialect, table, filter),
            )) ==> admitted(partitions[i]),
    ensures
        present_ok(
            catalog_roots(
                dialect,
                table,
                filter,
                table_path,
                only_value_in_path,
                partitions.filter(admitted),
            ),
        ) == present_ok(
            catalog_roots(dialect, table, filter, table_path, only_value_in_path, partitions),
        ),
        present_ok(
            catalog_roots(dialect, table, filter, table_path, only_value_in_path, partitions),
        ) is Ok,
{
    assert forall|i: int|
        0 <= i < partitions.len() && is_asked_for(
            dialect,
            table,
            filter,
            #[trigger] partitions[i],
        ) implies admitted(partitions[i]) by {
        law_listing_values_are_registered(
            dialect,
            table,
            filter,
            only_value_in_path,
            listing,
            partitions[i].spec,
        );
    }
    law_narrow_listing_reads_the_same(
        dialect,
        table,
        filter,
        table_path,
        only_value_in_path,
        partitions,
        admitted,
    );
}

/// Whether a name is one that a pattern stands for: the pattern itself, or, where the pattern
/// ends in `/%`, a name that goes on behind that slash.
pub open spec fn covers(pattern: Seq<char>, name: Seq<char>) -> bool {
    ||| name == pattern
    ||| exists|prefix: Seq<char>|
        #![trigger prefix + "/%"@]
        pattern == prefix + "/%"@ && has_prefix(name, prefix + seq!['/'])
}

/// In the Hive dialect, the pattern of some values covers the name of every partition that is
/// registered under them.
pub proof fn law_hive_pattern_covers(
    keys: Seq<Seq<char>>,
    spec: Map<Seq<char>, Seq<char>>,
    values: Seq<Seq<char>>,
    only_value_in_path: bool,
)
    requires
        forall|i: int| 0 <= i < keys.len() ==> #[trigger] spec.contains_key(keys[i]),
        are_registered(spec, keys, values),
    ensures
        ({
            let paths = PartitionPathsView { partition_keys: keys, only_value_in_path };
            HiveDialect.catalog_name(paths, spec) matches Ok(name) && (HiveDialect.name_pattern(
                paths,
                values,
            ) matches Some(pattern) ==> covers(pattern, name))
        }),
{
    let all = keys.map_values(|key: Seq<char>| spec[key]);
    let given = key_values(keys, spec);
    assert forall|i: int| 0 <= i < given.len() implies #[trigger] given[i] == Ok::<
        Seq<char>,
        ErrorView,
    >(all[i]) by {
        assert(spec.contains_key(keys[i]));
    }
    lemma_all_ok_is(given, all);
    assert forall|i: int| 0 <= i < values.len() implies #[trigger] values[i] == all[i] by {
        assert(spec.contains_key(keys[i]));
    }
    let segments = Seq::new(all.len(), |i: int| hive_segment(keys[i], all[i], false));
    let count = values.len() as int;
    if 0 < count < keys.len() {
        let leading = Seq::new(values.len(), |i: int| hive_segment(keys[i], values[i], false));
        assert(segments.take(count) =~= leading);
        lemma_joined_prefix(segments, count);
        let prefix = joined(leading, "/"@);
        let rest = choose|rest: Seq<char>|
            #![trigger prefix + seq!['/'] + rest]
            joined(segments, "/"@) == prefix + seq!['/'] + rest;
        let name = hive_path(keys, all, false);
        assert(name == prefix + seq!['/'] + rest);
        assert(name.take((prefix.len() + 1) as int) =~= prefix + seq!['/']);
        assert(covers(prefix + "/%"@, name));
    } else if count > 0 {
        assert(values.take(keys.len() as int) =~= all);
    }
}

/// In the Hive dialect every partition that a scan asks for begins with what its filter pins, and
/// its character strings stand for themselves.
proof fn lemma_hive_pinned_registration(
    table: Table,
    filter: Option<PartitionFilter>,
    only_value_in_path: bool,
    listing: CatalogListingView,
    partition: CatalogPartitionView,
)
    requires
        wanted_listing(HiveDialect, table, filter, only_value_in_path) == Ok::<
            CatalogListingView,
            ErrorView,
        >(listing),
        is_asked_for(HiveDialect, table, filter, partition),
    ensures
        is_pinned_registration(HiveDialect, table, filter, partition.spec),
{
    let row = registered_row(HiveDialect, table, partition.spec)->Ok_0;
    if let Some(asked) = filter {
        law_hive_filter_pins(
            asked,
            row,
            field_views(table.schema.partition_fields@),
            table.options.partition_default_name@,
            table.options.legacy_partition_name,
            scan_run(HiveDialect, table, filter),
        );
    }
}

/// The listing that a scan asks the catalog for covers, in the Hive dialect, every partition that
/// the scan asks for, in columns of character strings, whole numbers and truth values alike.
pub proof fn law_hive_listing_covers(
    table: Table,
    filter: Option<PartitionFilter>,
    only_value_in_path: bool,
    listing: CatalogListingView,
    partition: CatalogPartitionView,
)
    requires
        table.schema.wf(),
        wanted_listing(HiveDialect, table, filter, only_value_in_path) == Ok::<
            CatalogListingView,
            ErrorView,
        >(listing),
        is_asked_for(HiveDialect, table, filter, partition),
    ensures
        HiveDialect.catalog_name(table_paths(table, only_value_in_path), partition.spec) matches Ok(
            name,
        ) && (listing.pattern matches Some(pattern) ==> covers(pattern, name)),
{
    let keys = texts(table.schema.partition_keys@);
    let spec = partition.spec;
    lemma_hive_pinned_registration(table, filter, only_value_in_path, listing, partition);
    law_listing_values_are_registered(
        HiveDialect,
        table,
        filter,
        only_value_in_path,
        listing,
        spec,
    );
    let outcomes = spec_values(
        HiveDialect,
        spec,
        field_views(table.schema.partition_fields@),
        keys,
        table.options.partition_default_name@,
    );
    lemma_all_ok_values(outcomes);
    assert forall|i: int| 0 <= i < keys.len() implies #[trigger] spec.contains_key(keys[i]) by {
        assert(outcomes[i] is Ok);
    }
    law_hive_pattern_covers(
        keys,
        spec,
        listing_values(HiveDialect, table, filter),
        only_value_in_path,
    );
}

/// One path comes from one value of each key, whichever of them are empty.
pub(crate) proof fn lemma_hive_path_tells_values(
    keys: Seq<Seq<char>>,
    a: Map<Seq<char>, Seq<char>>,
    b: Map<Seq<char>, Seq<char>>,
    only_value_in_path: bool,
    k: int,
)
    requires
        hive_spec_path(keys, a, only_value_in_path) is Ok,
        hive_spec_path(keys, a, only_value_in_path) == hive_spec_path(keys, b, only_value_in_path),
        0 <= k < keys.len(),
    ensures
        a.contains_key(keys[k]),
        b.contains_key(keys[k]),
        a[keys[k]] == b[keys[k]],
{
    lemma_all_ok_values(key_values(keys, a));
    lemma_all_ok_values(key_values(keys, b));
    assert(key_values(keys, a)[k] is Ok);
    assert(key_values(keys, b)[k] is Ok);
    let x = all_ok(key_values(keys, a))->Ok_0;
    let y = all_ok(key_values(keys, b))->Ok_0;
    let p = Seq::new(x.len(), |i: int| hive_segment(keys[i], x[i], only_value_in_path));
    let q = Seq::new(y.len(), |i: int| hive_segment(keys[i], y[i], only_value_in_path));
    assert forall|i: int| 0 <= i < p.len() implies !(#[trigger] p[i]).contains('/') by {
        lemma_hive_segment(keys[i], x[i], only_value_in_path);
    }
    assert forall|i: int| 0 <= i < q.len() implies !(#[trigger] q[i]).contains('/') by {
        lemma_hive_segment(keys[i], y[i], only_value_in_path);
    }
    lemma_split_joined(p);
    lemma_split_joined(q);
    assert(p[k] == q[k]);
    let name = escaped_name(keys[k]) + seq!['='];
    law_escaping_is_undone(x[k]);
    law_escaping_is_undone(y[k]);
    if !only_value_in_path {
        assert(p[k].skip(name.len() as int) =~= escaped_name(x[k]));
        assert(q[k].skip(name.len() as int) =~= escaped_name(y[k]));
    }
}

pub(crate) proof fn lemma_hive_segment(key: Seq<char>, value: Seq<char>, only_value_in_path: bool)
    ensures
        !hive_segment(key, value, only_value_in_path).contains('/'),
{
    law_escaping_is_undone(key);
    law_escaping_is_undone(value);
    let name = escaped_name(key);
    let text = escaped_name(value);
    let segment = hive_segment(key, value, only_value_in_path);
    if !only_value_in_path {
        assert forall|i: int| 0 <= i < segment.len() implies segment[i] != '/' by {
            if i < name.len() {
                assert(name.contains(name[i]));
            } else if i > name.len() {
                assert(segment[i] == text[i - name.len() - 1]);
                assert(text.contains(text[i - name.len() - 1]));
            }
        }
    }
}

/// In the Hive dialect, directories tell the rows of partitions apart.
pub proof fn law_hive_directories_tell_rows(
    table: Table,
    filter: Option<PartitionFilter>,
    only_value_in_path: bool,
    partitions: Seq<CatalogPartitionView>,
)
    requires
        table.schema.wf(),
        forall|i: int|
            0 <= i < partitions.len() ==> is_valid_registration(
                HiveDialect,
                table,
                filter,
                only_value_in_path,
                #[trigger] partitions[i],
            ),
    ensures
        directories_tell_rows(HiveDialect, table, only_value_in_path, partitions),
{
    let fields = field_views(table.schema.partition_fields@);
    let keys = texts(table.schema.partition_keys@);
    let paths = table_paths(table, only_value_in_path);
    let default_name = table.options.partition_default_name@;
    assert forall|i: int, j: int|
        0 <= i < partitions.len() && 0 <= j < partitions.len()
            && #[trigger] HiveDialect.catalog_path(paths, partitions[i].spec)
            == #[trigger] HiveDialect.catalog_path(paths, partitions[j].spec) implies registered_row(
        HiveDialect,
        table,
        partitions[i].spec,
    ) == registered_row(HiveDialect, table, partitions[j].spec) by {
        assert(is_valid_registration(
            HiveDialect,
            table,
            filter,
            only_value_in_path,
            partitions[i],
        ));
        let a = partitions[i].spec;
        let b = partitions[j].spec;
        let x = spec_values(HiveDialect, a, fields, keys, default_name);
        let y = spec_values(HiveDialect, b, fields, keys, default_name);
        assert forall|k: int| 0 <= k < x.len() implies x[k] == y[k] by {
            lemma_hive_path_tells_values(keys, a, b, only_value_in_path, k);
        }
        assert(x =~= y);
    }
}

/// In the Hive dialect, a catalog-managed scan reads the same directories whether the catalog
/// answers with all its partitions or with those alone that the filter holds of and whose names
/// the pattern covers, in columns of character strings, whole numbers and truth values alike.
pub proof fn law_hive_listing_loses_nothing(
    table: Table,
    filter: Option<PartitionFilter>,
    table_path: Seq<char>,
    only_value_in_path: bool,
    listing: CatalogListingView,
    partitions: Seq<CatalogPartitionView>,
    admitted: spec_fn(CatalogPartitionView) -> bool,
)
    requires
        table.schema.wf(),
        wanted_listing(HiveDialect, table, filter, only_value_in_path) == Ok::<
            CatalogListingView,
            ErrorView,
        >(listing),
        forall|i: int|
            0 <= i < partitions.len() ==> is_valid_registration(
                HiveDialect,
                table,
                filter,
                only_value_in_path,
                #[trigger] partitions[i],
            ),
        forall|i: int|
            0 <= i < partitions.len() && is_asked_for(
                HiveDialect,
                table,
                filter,
                #[trigger] partitions[i],
            ) && (listing.pattern matches Some(pattern) ==> (HiveDialect.catalog_name(
                table_paths(table, only_value_in_path),
                partitions[i].spec,
            ) matches Ok(name) && covers(pattern, name))) ==> admitted(partitions[i]),
    ensures
        present_ok(
            catalog_roots(
                HiveDialect,
                table,
                filter,
                table_path,
                only_value_in_path,
                partitions.filter(admitted),
            ),
        ) == present_ok(
            catalog_roots(HiveDialect, table, filter, table_path, only_value_in_path, partitions),
        ),
        present_ok(
            catalog_roots(HiveDialect, table, filter, table_path, only_value_in_path, partitions),
        ) is Ok,
{
    law_hive_directories_tell_rows(table, filter, only_value_in_path, partitions);
    assert forall|i: int|
        0 <= i < partitions.len() && is_asked_for(
            HiveDialect,
            table,
            filter,
            #[trigger] partitions[i],
        ) implies admitted(partitions[i]) by {
        law_hive_listing_covers(table, filter, only_value_in_path, listing, partitions[i]);
    }
    law_narrow_listing_reads_the_same(
        HiveDialect,
        table,
        filter,
        table_path,
        only_value_in_path,
        partitions,
        admitted,
    );
}

} // verus!
