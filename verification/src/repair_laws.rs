//! What a repair does, said of the partitions themselves.

use vstd::prelude::*;

use crate::collect::{all_ok, law_all_or_the_first_error, lemma_all_ok_is, lemma_all_ok_values};
use crate::dialect::{PartitionDialect, PartitionPathsView};
use crate::error::{Error, ErrorView};
use crate::hive::{key_values, HiveDialect};
use crate::listing::lemma_hive_path_tells_values;
use crate::model::{partition_views, CatalogPartition, CatalogPartitionView, TextMap};
use crate::order::{law_text_order_is_total, text_lt};
use crate::partition::missing_column;
use crate::repair::{by_name, custom_specs, is_repair, law_last_specification_counts};
use crate::repair::{lemma_by_name_dom, lemma_filter_at, partition_names, registered_specs};
use crate::repair::{repair_input, spec_views, strictly_ascending, RepairActions, RepairMode};
use crate::repair::RepairWriteView;

verus! {

/// Whether a specification has a value for each key.
pub open spec fn is_complete(spec: Map<Seq<char>, Seq<char>>, keys: Seq<Seq<char>>) -> bool {
    forall|k: int| 0 <= k < keys.len() ==> spec.contains_key(#[trigger] keys[k])
}

/// Whether two specifications are of one partition: they have the same value for each key.
pub open spec fn are_one_partition(
    a: Map<Seq<char>, Seq<char>>,
    b: Map<Seq<char>, Seq<char>>,
    keys: Seq<Seq<char>>,
) -> bool {
    forall|k: int| 0 <= k < keys.len() ==> a[#[trigger] keys[k]] == b[keys[k]]
}

/// In the Hive dialect a partition has a name exactly where there is a value for each key, and two
/// partitions have one name exactly where all their values are the same.
pub proof fn law_hive_names_tell_partitions(
    paths: PartitionPathsView,
    a: Map<Seq<char>, Seq<char>>,
    b: Map<Seq<char>, Seq<char>>,
)
    ensures
        HiveDialect.catalog_name(paths, a) is Ok <==> is_complete(a, paths.partition_keys),
        is_complete(a, paths.partition_keys) && is_complete(b, paths.partition_keys) ==> (
        HiveDialect.catalog_name(paths, a) == HiveDialect.catalog_name(paths, b)
            <==> are_one_partition(a, b, paths.partition_keys)),
{
    let keys = paths.partition_keys;
    lemma_complete(keys, a);
    lemma_complete(keys, b);
    if is_complete(a, keys) && is_complete(b, keys) {
        if HiveDialect.catalog_name(paths, a) == HiveDialect.catalog_name(paths, b) {
            assert forall|k: int| 0 <= k < keys.len() implies a[#[trigger] keys[k]]
                == b[keys[k]] by {
                lemma_hive_path_tells_values(keys, a, b, false, k);
            }
        }
        if are_one_partition(a, b, keys) {
            assert(key_values(keys, a) =~= key_values(keys, b)) by {
                assert forall|k: int| 0 <= k < keys.len() implies key_values(keys, a)[k]
                    == key_values(keys, b)[k] by {
                    assert(a.contains_key(keys[k]));
                    assert(b.contains_key(keys[k]));
                    assert(a[keys[k]] == b[keys[k]]);
                }
            }
        }
    }
}

proof fn lemma_complete(keys: Seq<Seq<char>>, spec: Map<Seq<char>, Seq<char>>)
    ensures
        all_ok(key_values(keys, spec)) is Ok <==> is_complete(spec, keys),
{
    let given = key_values(keys, spec);
    lemma_all_ok_values(given);
    if is_complete(spec, keys) {
        let values = keys.map_values(|key: Seq<char>| spec[key]);
        assert forall|k: int| 0 <= k < given.len() implies #[trigger] given[k] == Ok::<
            Seq<char>,
            ErrorView,
        >(values[k]) by {
            assert(spec.contains_key(keys[k]));
        }
        lemma_all_ok_is(given, values);
    }
    if all_ok(given) is Ok {
        assert forall|k: int| 0 <= k < keys.len() implies spec.contains_key(
            #[trigger] keys[k],
        ) by {
            assert(given[k] is Ok);
        }
    }
}

/// The names of complete specifications are there, in their order.
proof fn lemma_names(paths: PartitionPathsView, specs: Seq<Map<Seq<char>, Seq<char>>>)
    ensures
        all_ok(partition_names(HiveDialect, paths, specs)) is Ok <==> forall|i: int|
            0 <= i < specs.len() ==> is_complete(#[trigger] specs[i], paths.partition_keys),
        all_ok(partition_names(HiveDialect, paths, specs)) matches Ok(names) ==> names.len()
            == specs.len() && forall|i: int|
            0 <= i < specs.len() ==> HiveDialect.catalog_name(paths, #[trigger] specs[i]) == Ok::<
                Seq<char>,
                ErrorView,
            >(names[i]),
{
    let outcomes = partition_names(HiveDialect, paths, specs);
    lemma_all_ok_values(outcomes);
    assert forall|i: int| 0 <= i < specs.len() implies outcomes[i] == HiveDialect.catalog_name(
        paths,
        #[trigger] specs[i],
    ) && (outcomes[i] is Ok <==> is_complete(specs[i], paths.partition_keys)) by {
        law_hive_names_tell_partitions(paths, specs[i], specs[i]);
    }
    if all_ok(outcomes) is Ok {
        let names = all_ok(outcomes)->Ok_0;
        assert forall|i: int| 0 <= i < specs.len() implies HiveDialect.catalog_name(
            paths,
            #[trigger] specs[i],
        ) == Ok::<Seq<char>, ErrorView>(names[i]) by {
            assert(outcomes[i] == Ok::<Seq<char>, ErrorView>(names[i]));
        }
    } else if forall|i: int|
        0 <= i < specs.len() ==> is_complete(#[trigger] specs[i], paths.partition_keys) {
        let names = specs.map_values(
            |spec: Map<Seq<char>, Seq<char>>| HiveDialect.catalog_name(paths, spec)->Ok_0,
        );
        assert forall|i: int| 0 <= i < outcomes.len() implies #[trigger] outcomes[i] == Ok::<
            Seq<char>,
            ErrorView,
        >(names[i]) by {
            assert(is_complete(specs[i], paths.partition_keys));
        }
        lemma_all_ok_is(outcomes, names);
    }
}

/// An entry of an index is one of the indexed specifications, under its name.
proof fn lemma_by_name_entry(
    names: Seq<Seq<char>>,
    specs: Seq<Map<Seq<char>, Seq<char>>>,
    name: Seq<char>,
) -> (i: int)
    requires
        by_name(names, specs).contains_key(name),
        names.len() <= specs.len(),
    ensures
        0 <= i < names.len(),
        names[i] == name,
        by_name(names, specs)[name] == specs[i],
    decreases names.len(),
{
    let last = names.len() - 1;
    if names[last] == name {
        last
    } else {
        lemma_by_name_entry(names.drop_last(), specs, name)
    }
}

/// What a repair decides can be decided exactly where the table directory could be listed, if
/// partitions may be dropped, both listings came, and every specification has a value for each key.
pub proof fn law_hive_repair_succeeds(
    paths: PartitionPathsView,
    mode: RepairMode,
    table_directory: Result<(), Error>,
    discovered: Result<Vec<TextMap>, Error>,
    registered: Result<Vec<CatalogPartition>, Error>,
    r: Result<RepairActions, Error>,
)
    requires
        is_repair(r, HiveDialect, paths, mode, table_directory, discovered, registered),
    ensures
        r is Ok <==> {
            &&& mode is Add || table_directory is Ok
            &&& discovered matches Ok(specs) && forall|i: int|
                0 <= i < specs@.len() ==> is_complete(
                    (#[trigger] specs@[i])@,
                    paths.partition_keys,
                )
            &&& registered matches Ok(partitions) && forall|i: int|
                0 <= i < partitions@.len() ==> is_complete(
                    (#[trigger] partitions@[i]).spec@,
                    paths.partition_keys,
                )
        },
        mode is Drop || mode is Sync ==> (table_directory matches Err(error) ==> (r matches Err(
            given,
        ) && given@ == error@)),
        mode is Add || table_directory is Ok ==> (discovered matches Err(error) ==> (r matches Err(
            given,
        ) && given@ == error@)),
        (mode is Add || table_directory is Ok) && discovered is Ok ==> (registered matches Err(
            error,
        ) ==> (r matches Err(given) && given@ == error@)),
{
    if discovered is Ok && registered is Ok {
        let found = spec_views(discovered->Ok_0@);
        let views = partition_views(registered->Ok_0@);
        let known = registered_specs(views);
        let custom = custom_specs(views);
        lemma_names(paths, found);
        lemma_names(paths, known);
        lemma_names(paths, custom);
        assert forall|i: int| 0 <= i < found.len() implies found[i]
            == discovered->Ok_0@[i]@ by {}
        assert forall|i: int| 0 <= i < known.len() implies known[i]
            == registered->Ok_0@[i].spec@ by {}
        if forall|i: int|
            0 <= i < known.len() ==> is_complete(#[trigger] known[i], paths.partition_keys) {
            assert forall|i: int| 0 <= i < custom.len() implies is_complete(
                #[trigger] custom[i],
                paths.partition_keys,
            ) by {
                let k = lemma_custom_member(views, i);
                assert(known[k] == custom[i]);
            }
        }
        if all_ok(partition_names(HiveDialect, paths, known)) is Ok {
            assert forall|i: int| 0 <= i < registered->Ok_0@.len() implies is_complete(
                (#[trigger] registered->Ok_0@[i]).spec@,
                paths.partition_keys,
            ) by {
                assert(is_complete(known[i], paths.partition_keys));
            }
        }
        if all_ok(partition_names(HiveDialect, paths, found)) is Ok {
            assert forall|i: int| 0 <= i < discovered->Ok_0@.len() implies is_complete(
                (#[trigger] discovered->Ok_0@[i])@,
                paths.partition_keys,
            ) by {
                assert(is_complete(found[i], paths.partition_keys));
            }
        }
    }
}

/// Each custom specification is that of a partition at a location of its own.
proof fn lemma_custom_member(views: Seq<CatalogPartitionView>, i: int) -> (k: int)
    requires
        0 <= i < custom_specs(views).len(),
    ensures
        0 <= k < views.len(),
        views[k].has_custom_location(),
        custom_specs(views)[i] == views[k].spec,
    decreases views.len(),
{
    reveal(Seq::filter);
    let keep = |p: CatalogPartitionView| p.has_custom_location();
    let last = views.len() - 1;
    let front = views.drop_last();
    if keep(views[last]) && i == front.filter(keep).len() {
        last
    } else {
        assert(custom_specs(views)[i] == custom_specs(front)[i]);
        lemma_custom_member(front, i)
    }
}

proof fn lemma_custom_listed(views: Seq<CatalogPartitionView>, k: int)
    requires
        0 <= k < views.len(),
        views[k].has_custom_location(),
    ensures
        custom_specs(views).contains(views[k].spec),
{
    let keep = |p: CatalogPartitionView| p.has_custom_location();
    lemma_filter_at(views, keep, k);
    let at = views.take(k).filter(keep).len() as int;
    assert(keep(views[k]));
    assert(views.filter(keep)[at] == views[k]);
    assert(views.take(k + 1).filter(keep).len() == at + 1);
    assert(custom_specs(views)[at] == views[k].spec);
}

/// Whether one of the specifications is of the given partition.
pub open spec fn has_partition(
    specs: Seq<TextMap>,
    spec: Map<Seq<char>, Seq<char>>,
    keys: Seq<Seq<char>>,
) -> bool {
    exists|i: int| 0 <= i < specs.len() && are_one_partition((#[trigger] specs[i])@, spec, keys)
}

/// Whether the catalog holds the given partition.
pub open spec fn is_registered(
    partitions: Seq<CatalogPartition>,
    spec: Map<Seq<char>, Seq<char>>,
    keys: Seq<Seq<char>>,
) -> bool {
    exists|i: int|
        0 <= i < partitions.len() && are_one_partition(
            (#[trigger] partitions[i]).spec@,
            spec,
            keys,
        )
}

/// Whether the catalog holds the given partition at a location of its own.
pub open spec fn is_registered_elsewhere(
    partitions: Seq<CatalogPartition>,
    spec: Map<Seq<char>, Seq<char>>,
    keys: Seq<Seq<char>>,
) -> bool {
    exists|i: int|
        0 <= i < partitions.len() && are_one_partition(
            (#[trigger] partitions[i]).spec@,
            spec,
            keys,
        ) && partitions[i].options is Some && partitions[i].options->0@.contains_key("path"@)
}

/// A repair tells partitions apart by the values of all keys. Where it may register, it registers
/// what has a directory and is not registered, each partition once and in the order of the names,
/// and nothing else.
pub proof fn law_hive_repair_registers(
    paths: PartitionPathsView,
    mode: RepairMode,
    table_directory: Result<(), Error>,
    discovered: Vec<TextMap>,
    registered: Vec<CatalogPartition>,
    actions: RepairActions,
)
    requires
        is_repair(
            Ok(actions),
            HiveDialect,
            paths,
            mode,
            table_directory,
            Ok(discovered),
            Ok(registered),
        ),
    ensures
        mode is Drop ==> actions.to_register@.len() == 0,
        mode is Add || mode is Sync ==> forall|i: int|
            0 <= i < discovered@.len() ==> (has_partition(
                actions.to_register@,
                (#[trigger] discovered@[i])@,
                paths.partition_keys,
            ) <==> !is_registered(registered@, discovered@[i]@, paths.partition_keys)),
        forall|n: int|
            0 <= n < actions.to_register@.len() ==> exists|i: int|
                0 <= i < discovered@.len() && (#[trigger] discovered@[i])@ == (
                #[trigger] actions.to_register@[n])@,
        forall|m: int, n: int|
            0 <= m < n < actions.to_register@.len() ==> !are_one_partition(
                (#[trigger] actions.to_register@[m])@,
                (#[trigger] actions.to_register@[n])@,
                paths.partition_keys,
            ) && text_lt(
                HiveDialect.catalog_name(paths, actions.to_register@[m]@)->Ok_0,
                HiveDialect.catalog_name(paths, actions.to_register@[n]@)->Ok_0,
            ),
{
    let keys = paths.partition_keys;
    let input = repair_input(
        HiveDialect,
        paths,
        mode,
        table_directory,
        Ok(discovered),
        Ok(registered),
    )->Ok_0;
    let found = spec_views(discovered@);
    let known = registered_specs(partition_views(registered@));
    lemma_names(paths, found);
    lemma_names(paths, known);
    let found_names = all_ok(partition_names(HiveDialect, paths, found))->Ok_0;
    let known_names = all_ok(partition_names(HiveDialect, paths, known))->Ok_0;
    lemma_by_name_dom(found_names, found);
    lemma_by_name_dom(known_names, known);
    if mode is Add || mode is Sync {
        let wanted = input.unregistered();
        let specs = spec_views(actions.to_register@);
        let names = choose|names: Seq<Seq<char>>| #[trigger]
            strictly_ascending(names) && names.to_set() == wanted.dom() && specs
                == names.map_values(|name: Seq<char>| wanted[name]);
        lemma_index_result(paths, found, found_names, known, known_names, wanted, names, specs);
        assert forall|i: int| 0 <= i < discovered@.len() implies (has_partition(
            actions.to_register@,
            (#[trigger] discovered@[i])@,
            keys,
        ) <==> !is_registered(registered@, discovered@[i]@, keys)) by {
            assert(found[i] == discovered@[i]@);
            if has_partition(actions.to_register@, discovered@[i]@, keys) {
                let n = choose|n: int|
                    0 <= n < actions.to_register@.len() && are_one_partition(
                        (#[trigger] actions.to_register@[n])@,
                        discovered@[i]@,
                        keys,
                    );
                assert(specs[n] == actions.to_register@[n]@);
                if is_registered(registered@, discovered@[i]@, keys) {
                    let j = choose|j: int|
                        0 <= j < registered@.len() && are_one_partition(
                            (#[trigger] registered@[j]).spec@,
                            discovered@[i]@,
                            keys,
                        );
                    assert(known[j] == registered@[j].spec@);
                    lemma_one_partition(known[j], discovered@[i]@, specs[n], keys);
                }
            }
            if !is_registered(registered@, discovered@[i]@, keys) {
                assert forall|j: int| 0 <= j < known.len() implies !are_one_partition(
                    #[trigger] known[j],
                    found[i],
                    keys,
                ) by {
                    assert(known[j] == registered@[j].spec@);
                }
                let n = choose|n: int|
                    0 <= n < specs.len() && are_one_partition(#[trigger] specs[n], found[i], keys);
                assert(specs[n] == actions.to_register@[n]@);
            }
        }
        assert forall|n: int| 0 <= n < actions.to_register@.len() implies exists|i: int|
            0 <= i < discovered@.len() && (#[trigger] discovered@[i])@ == (
            #[trigger] actions.to_register@[n])@ by {
            assert(specs[n] == actions.to_register@[n]@);
            let i = choose|i: int| 0 <= i < found.len() && #[trigger] found[i] == specs[n];
            assert(found[i] == discovered@[i]@);
        }
        assert forall|m: int, n: int|
            0 <= m < n < actions.to_register@.len() implies !are_one_partition(
            (#[trigger] actions.to_register@[m])@,
            (#[trigger] actions.to_register@[n])@,
            keys,
        ) && text_lt(
            HiveDialect.catalog_name(paths, actions.to_register@[m]@)->Ok_0,
            HiveDialect.catalog_name(paths, actions.to_register@[n]@)->Ok_0,
        ) by {
            assert(text_lt(names[m], names[n]));
            assert(specs[m] == actions.to_register@[m]@);
            assert(specs[n] == actions.to_register@[n]@);
        }
    }
}

/// Whether the names are those of the specifications, one for one.
spec fn are_names(
    paths: PartitionPathsView,
    specs: Seq<Map<Seq<char>, Seq<char>>>,
    names: Seq<Seq<char>>,
) -> bool {
    names.len() == specs.len() && forall|i: int|
        0 <= i < specs.len() ==> is_complete(#[trigger] specs[i], paths.partition_keys)
            && HiveDialect.catalog_name(paths, specs[i]) == Ok::<Seq<char>, ErrorView>(names[i])
}

/// What is taken from an index, without what has one of the other names.
proof fn lemma_index_result(
    paths: PartitionPathsView,
    found: Seq<Map<Seq<char>, Seq<char>>>,
    found_names: Seq<Seq<char>>,
    known: Seq<Map<Seq<char>, Seq<char>>>,
    known_names: Seq<Seq<char>>,
    wanted: Map<Seq<char>, Map<Seq<char>, Seq<char>>>,
    names: Seq<Seq<char>>,
    specs: Seq<Map<Seq<char>, Seq<char>>>,
)
    requires
        are_names(paths, found, found_names),
        are_names(paths, known, known_names),
        wanted == by_name(found_names, found).remove_keys(known_names.to_set()),
        strictly_ascending(names),
        names.to_set() == wanted.dom(),
        specs == names.map_values(|name: Seq<char>| wanted[name]),
    ensures
        forall|n: int|
            0 <= n < specs.len() ==> exists|i: int|
                0 <= i < found.len() && #[trigger] found[i] == #[trigger] specs[n],
        forall|n: int, j: int|
            0 <= n < specs.len() && 0 <= j < known.len() ==> !are_one_partition(
                #[trigger] known[j],
                #[trigger] specs[n],
                paths.partition_keys,
            ),
        forall|i: int|
            0 <= i < found.len() && (forall|j: int|
                0 <= j < known.len() ==> !are_one_partition(
                    #[trigger] known[j],
                    found[i],
                    paths.partition_keys,
                )) ==> exists|n: int|
                0 <= n < specs.len() && are_one_partition(
                    #[trigger] specs[n],
                    #[trigger] found[i],
                    paths.partition_keys,
                ),
        forall|m: int, n: int|
            0 <= m < n < specs.len() ==> !are_one_partition(
                #[trigger] specs[m],
                #[trigger] specs[n],
                paths.partition_keys,
            ),
        forall|n: int|
            0 <= n < specs.len() ==> HiveDialect.catalog_name(paths, #[trigger] specs[n]) == Ok::<
                Seq<char>,
                ErrorView,
            >(names[n]),
{
    let keys = paths.partition_keys;
    lemma_by_name_dom(found_names, found);
    assert forall|n: int| 0 <= n < specs.len() implies exists|i: int|
        0 <= i < found.len() && #[trigger] found[i] == #[trigger] specs[n] && found_names[i]
            == names[n] && !known_names.contains(names[n]) by {
        assert(names.contains(names[n]));
        assert(names.to_set().contains(names[n]));
        assert(wanted.contains_key(names[n]));
        let i = lemma_by_name_entry(found_names, found, names[n]);
        assert(found[i] == specs[n]);
        if known_names.contains(names[n]) {
            assert(known_names.to_set().contains(names[n]));
        }
    }
    assert forall|n: int| 0 <= n < specs.len() implies HiveDialect.catalog_name(
        paths,
        #[trigger] specs[n],
    ) == Ok::<Seq<char>, ErrorView>(names[n]) by {
        let i = choose|i: int|
            0 <= i < found.len() && #[trigger] found[i] == specs[n] && found_names[i] == names[n]
                && !known_names.contains(names[n]);
        assert(is_complete(found[i], keys));
    }
    assert forall|n: int, j: int|
        0 <= n < specs.len() && 0 <= j < known.len() implies !are_one_partition(
        #[trigger] known[j],
        #[trigger] specs[n],
        keys,
    ) by {
        let i = choose|i: int|
            0 <= i < found.len() && #[trigger] found[i] == specs[n] && found_names[i] == names[n]
                && !known_names.contains(names[n]);
        law_hive_names_tell_partitions(paths, known[j], found[i]);
        assert(is_complete(known[j], keys));
        assert(is_complete(found[i], keys));
        if are_one_partition(known[j], specs[n], keys) {
            assert(known_names[j] == found_names[i]);
            assert(known_names.contains(known_names[j]));
        }
    }
    assert forall|i: int|
        0 <= i < found.len() && (forall|j: int|
            0 <= j < known.len() ==> !are_one_partition(
                #[trigger] known[j],
                found[i],
                keys,
            )) implies exists|n: int|
        0 <= n < specs.len() && are_one_partition(
            #[trigger] specs[n],
            #[trigger] found[i],
            keys,
        ) by {
        let name = found_names[i];
        assert(found_names.contains(name));
        assert(found_names.to_set().contains(name));
        assert(is_complete(found[i], keys));
        assert(HiveDialect.catalog_name(paths, found[i]) == Ok::<Seq<char>, ErrorView>(name));
        if known_names.to_set().contains(name) {
            assert(known_names.contains(name));
            let j = choose|j: int| 0 <= j < known_names.len() && known_names[j] == name;
            assert(is_complete(known[j], keys));
            assert(HiveDialect.catalog_name(paths, known[j]) == Ok::<Seq<char>, ErrorView>(name));
            law_hive_names_tell_partitions(paths, known[j], found[i]);
        }
        assert(wanted.contains_key(name));
        assert(names.to_set().contains(name));
        assert(names.contains(name));
        let n = choose|n: int| 0 <= n < names.len() && names[n] == name;
        let other = lemma_by_name_entry(found_names, found, name);
        assert(specs[n] == found[other]);
        assert(is_complete(found[other], keys));
        law_hive_names_tell_partitions(paths, found[other], found[i]);
        assert(are_one_partition(specs[n], found[i], keys));
    }
    assert forall|m: int, n: int| 0 <= m < n < specs.len() implies !are_one_partition(
        #[trigger] specs[m],
        #[trigger] specs[n],
        keys,
    ) by {
        let a = choose|i: int|
            0 <= i < found.len() && #[trigger] found[i] == specs[m] && found_names[i] == names[m]
                && !known_names.contains(names[m]);
        let b = choose|i: int|
            0 <= i < found.len() && #[trigger] found[i] == specs[n] && found_names[i] == names[n]
                && !known_names.contains(names[n]);
        assert(is_complete(found[a], keys));
        assert(is_complete(found[b], keys));
        law_hive_names_tell_partitions(paths, found[a], found[b]);
        assert(text_lt(names[m], names[n]));
        law_text_order_is_total(names[m], names[n], names[m]);
    }
}

/// Where a repair may unregister, it unregisters what is registered, has no directory, and is not
/// registered at a location of its own, each partition once and in the order of the names, and
/// nothing else.
pub proof fn law_hive_repair_unregisters(
    paths: PartitionPathsView,
    mode: RepairMode,
    table_directory: Result<(), Error>,
    discovered: Vec<TextMap>,
    registered: Vec<CatalogPartition>,
    actions: RepairActions,
)
    requires
        is_repair(
            Ok(actions),
            HiveDialect,
            paths,
            mode,
            table_directory,
            Ok(discovered),
            Ok(registered),
        ),
    ensures
        mode is Add ==> actions.to_unregister@.len() == 0,
        mode is Drop || mode is Sync ==> forall|i: int|
            0 <= i < registered@.len() ==> (has_partition(
                actions.to_unregister@,
                (#[trigger] registered@[i]).spec@,
                paths.partition_keys,
            ) <==> !has_partition(discovered@, registered@[i].spec@, paths.partition_keys)
                && !is_registered_elsewhere(
                registered@,
                registered@[i].spec@,
                paths.partition_keys,
            )),
        forall|n: int|
            0 <= n < actions.to_unregister@.len() ==> exists|i: int|
                0 <= i < registered@.len() && (#[trigger] registered@[i]).spec@ == (
                #[trigger] actions.to_unregister@[n])@,
        forall|m: int, n: int|
            0 <= m < n < actions.to_unregister@.len() ==> !are_one_partition(
                (#[trigger] actions.to_unregister@[m])@,
                (#[trigger] actions.to_unregister@[n])@,
                paths.partition_keys,
            ) && text_lt(
                HiveDialect.catalog_name(paths, actions.to_unregister@[m]@)->Ok_0,
                HiveDialect.catalog_name(paths, actions.to_unregister@[n]@)->Ok_0,
            ),
{
    let keys = paths.partition_keys;
    let input = repair_input(
        HiveDialect,
        paths,
        mode,
        table_directory,
        Ok(discovered),
        Ok(registered),
    )->Ok_0;
    let views = partition_views(registered@);
    let found = spec_views(discovered@);
    let known = registered_specs(views);
    let custom = custom_specs(views);
    lemma_names(paths, found);
    lemma_names(paths, known);
    lemma_names(paths, custom);
    let found_names = all_ok(partition_names(HiveDialect, paths, found))->Ok_0;
    let known_names = all_ok(partition_names(HiveDialect, paths, known))->Ok_0;
    let custom_names = all_ok(partition_names(HiveDialect, paths, custom))->Ok_0;
    lemma_by_name_dom(found_names, found);
    lemma_by_name_dom(known_names, known);
    let others = found + custom;
    let other_names = found_names + custom_names;
    assert(are_names(paths, others, other_names)) by {
        assert forall|i: int| 0 <= i < others.len() implies is_complete(#[trigger] others[i], keys)
            && HiveDialect.catalog_name(paths, others[i]) == Ok::<Seq<char>, ErrorView>(
            other_names[i],
        ) by {
            if i < found.len() {
                assert(others[i] == found[i]);
                assert(is_complete(found[i], keys));
            } else {
                assert(others[i] == custom[i - found.len()]);
                assert(is_complete(custom[i - found.len()], keys));
            }
        }
    }
    if mode is Drop || mode is Sync {
        let wanted = input.missing();
        let specs = spec_views(actions.to_unregister@);
        let names = choose|names: Seq<Seq<char>>| #[trigger]
            strictly_ascending(names) && names.to_set() == wanted.dom() && specs
                == names.map_values(|name: Seq<char>| wanted[name]);
        assert(found_names.to_set().union(custom_names.to_set()) =~= other_names.to_set()) by {
            assert forall|name: Seq<char>| found_names.to_set().union(
                custom_names.to_set(),
            ).contains(name) == other_names.to_set().contains(name) by {
                if found_names.contains(name) {
                    let i = choose|i: int| 0 <= i < found_names.len() && found_names[i] == name;
                    assert(other_names[i] == name);
                }
                if custom_names.contains(name) {
                    let i = choose|i: int| 0 <= i < custom_names.len() && custom_names[i] == name;
                    assert(other_names[found_names.len() + i] == name);
                }
                if other_names.contains(name) {
                    let i = choose|i: int| 0 <= i < other_names.len() && other_names[i] == name;
                    if i < found_names.len() {
                        assert(found_names[i] == name);
                    } else {
                        assert(custom_names[i - found_names.len()] == name);
                    }
                }
            }
        }
        lemma_index_result(paths, known, known_names, others, other_names, wanted, names, specs);
        assert forall|i: int| 0 <= i < registered@.len() implies (has_partition(
            actions.to_unregister@,
            (#[trigger] registered@[i]).spec@,
            keys,
        ) <==> !has_partition(discovered@, registered@[i].spec@, keys) && !is_registered_elsewhere(
            registered@,
            registered@[i].spec@,
            keys,
        )) by {
            let spec = registered@[i].spec@;
            assert(known[i] == spec);
            if has_partition(actions.to_unregister@, spec, keys) {
                let n = choose|n: int|
                    0 <= n < actions.to_unregister@.len() && are_one_partition(
                        (#[trigger] actions.to_unregister@[n])@,
                        spec,
                        keys,
                    );
                assert(specs[n] == actions.to_unregister@[n]@);
                if has_partition(discovered@, spec, keys) {
                    let j = choose|j: int|
                        0 <= j < discovered@.len() && are_one_partition(
                            (#[trigger] discovered@[j])@,
                            spec,
                            keys,
                        );
                    assert(others[j] == discovered@[j]@);
                    lemma_one_partition(others[j], spec, specs[n], keys);
                }
                if is_registered_elsewhere(registered@, spec, keys) {
                    let j = choose|j: int|
                        0 <= j < registered@.len() && are_one_partition(
                            (#[trigger] registered@[j]).spec@,
                            spec,
                            keys,
                        ) && registered@[j].options is Some
                            && registered@[j].options->0@.contains_key("path"@);
                    assert(views[j] == registered@[j]@);
                    lemma_custom_listed(views, j);
                    let k = choose|k: int| 0 <= k < custom.len() && custom[k] == views[j].spec;
                    assert(others[found.len() + k] == custom[k]);
                    lemma_one_partition(others[found.len() + k], spec, specs[n], keys);
                }
            }
            if !has_partition(discovered@, spec, keys) && !is_registered_elsewhere(
                registered@,
                spec,
                keys,
            ) {
                assert forall|j: int| 0 <= j < others.len() implies !are_one_partition(
                    #[trigger] others[j],
                    known[i],
                    keys,
                ) by {
                    if j < found.len() {
                        assert(others[j] == discovered@[j]@);
                    } else {
                        let k = lemma_custom_member(views, j - found.len());
                        assert(others[j] == views[k].spec);
                        assert(views[k] == registered@[k]@);
                        assert(registered@[k].options is Some);
                    }
                }
                let n = choose|n: int|
                    0 <= n < specs.len() && are_one_partition(#[trigger] specs[n], known[i], keys);
                assert(specs[n] == actions.to_unregister@[n]@);
            }
        }
        assert forall|n: int| 0 <= n < actions.to_unregister@.len() implies exists|i: int|
            0 <= i < registered@.len() && (#[trigger] registered@[i]).spec@ == (
            #[trigger] actions.to_unregister@[n])@ by {
            assert(specs[n] == actions.to_unregister@[n]@);
            let i = choose|i: int| 0 <= i < known.len() && #[trigger] known[i] == specs[n];
            assert(known[i] == registered@[i].spec@);
        }
        assert forall|m: int, n: int|
            0 <= m < n < actions.to_unregister@.len() implies !are_one_partition(
            (#[trigger] actions.to_unregister@[m])@,
            (#[trigger] actions.to_unregister@[n])@,
            keys,
        ) && text_lt(
            HiveDialect.catalog_name(paths, actions.to_unregister@[m]@)->Ok_0,
            HiveDialect.catalog_name(paths, actions.to_unregister@[n]@)->Ok_0,
        ) by {
            assert(text_lt(names[m], names[n]));
            assert(specs[m] == actions.to_unregister@[m]@);
            assert(specs[n] == actions.to_unregister@[n]@);
        }
    }
}

proof fn lemma_one_partition(
    a: Map<Seq<char>, Seq<char>>,
    b: Map<Seq<char>, Seq<char>>,
    c: Map<Seq<char>, Seq<char>>,
    keys: Seq<Seq<char>>,
)
    requires
        are_one_partition(a, b, keys),
        are_one_partition(c, b, keys),
    ensures
        are_one_partition(a, c, keys),
{
    assert forall|k: int| 0 <= k < keys.len() implies a[#[trigger] keys[k]] == c[keys[k]] by {
        assert(a[keys[k]] == b[keys[k]]);
        assert(c[keys[k]] == b[keys[k]]);
    }
}

/// The changes that carry a repair out are those of its two lists, each in one change and only
/// where there is something in it: first the partitions to register, where those that are there
/// already are passed over, then those to unregister.
pub proof fn law_writes_carry_out_the_actions(actions: RepairActions)
    ensures
        ({
            let register = RepairWriteView::Register {
                specs: spec_views(actions.to_register@),
                ignore_if_exists: true,
            };
            let unregister = RepairWriteView::Unregister {
                specs: spec_views(actions.to_unregister@),
            };
            &&& (actions.to_register@.len() > 0 && actions.to_unregister@.len() > 0
                ==> actions.writes() == seq![register, unregister])
            &&& (actions.to_register@.len() > 0 && actions.to_unregister@.len() == 0
                ==> actions.writes() == seq![register])
            &&& (actions.to_register@.len() == 0 && actions.to_unregister@.len() > 0
                ==> actions.writes() == seq![unregister])
            &&& (actions.to_register@.len() == 0 && actions.to_unregister@.len() == 0
                ==> actions.writes().len() == 0)
        }),
{
    let register = RepairWriteView::Register {
        specs: spec_views(actions.to_register@),
        ignore_if_exists: true,
    };
    let unregister = RepairWriteView::Unregister { specs: spec_views(actions.to_unregister@) };
    if actions.to_register@.len() > 0 && actions.to_unregister@.len() > 0 {
        assert(actions.writes() =~= seq![register, unregister]);
    }
    if actions.to_register@.len() > 0 && actions.to_unregister@.len() == 0 {
        assert(actions.writes() =~= seq![register]);
    }
    if actions.to_register@.len() == 0 && actions.to_unregister@.len() > 0 {
        assert(actions.writes() =~= seq![unregister]);
    }
}

/// Of discovered specifications of one partition, the last is the one that is registered.
pub proof fn law_hive_repair_takes_the_last(
    paths: PartitionPathsView,
    mode: RepairMode,
    table_directory: Result<(), Error>,
    discovered: Vec<TextMap>,
    registered: Vec<CatalogPartition>,
    actions: RepairActions,
    n: int,
    i: int,
)
    requires
        is_repair(
            Ok(actions),
            HiveDialect,
            paths,
            mode,
            table_directory,
            Ok(discovered),
            Ok(registered),
        ),
        0 <= n < actions.to_register@.len(),
        0 <= i < discovered@.len(),
        are_one_partition(discovered@[i]@, actions.to_register@[n]@, paths.partition_keys),
        forall|j: int|
            i < j < discovered@.len() ==> !are_one_partition(
                (#[trigger] discovered@[j])@,
                actions.to_register@[n]@,
                paths.partition_keys,
            ),
    ensures
        actions.to_register@[n]@ == discovered@[i]@,
{
    let keys = paths.partition_keys;
    let input = repair_input(
        HiveDialect,
        paths,
        mode,
        table_directory,
        Ok(discovered),
        Ok(registered),
    )->Ok_0;
    let found = spec_views(discovered@);
    let known = registered_specs(partition_views(registered@));
    lemma_names(paths, found);
    lemma_names(paths, known);
    let found_names = all_ok(partition_names(HiveDialect, paths, found))->Ok_0;
    let known_names = all_ok(partition_names(HiveDialect, paths, known))->Ok_0;
    lemma_by_name_dom(known_names, known);
    let wanted = input.unregistered();
    let specs = spec_views(actions.to_register@);
    let names = choose|names: Seq<Seq<char>>| #[trigger]
        strictly_ascending(names) && names.to_set() == wanted.dom() && specs == names.map_values(
            |name: Seq<char>| wanted[name],
        );
    assert(specs[n] == actions.to_register@[n]@);
    assert(found[i] == discovered@[i]@);
    assert forall|j: int| i < j < found.len() implies !are_one_partition(
        #[trigger] found[j],
        specs[n],
        keys,
    ) by {
        assert(found[j] == discovered@[j]@);
    }
    lemma_last(paths, found, found_names, known_names, wanted, names, specs, n, i);
}

proof fn lemma_last(
    paths: PartitionPathsView,
    found: Seq<Map<Seq<char>, Seq<char>>>,
    found_names: Seq<Seq<char>>,
    known_names: Seq<Seq<char>>,
    wanted: Map<Seq<char>, Map<Seq<char>, Seq<char>>>,
    names: Seq<Seq<char>>,
    specs: Seq<Map<Seq<char>, Seq<char>>>,
    n: int,
    i: int,
)
    requires
        are_names(paths, found, found_names),
        wanted == by_name(found_names, found).remove_keys(known_names.to_set()),
        names.to_set() == wanted.dom(),
        specs == names.map_values(|name: Seq<char>| wanted[name]),
        0 <= n < specs.len(),
        0 <= i < found.len(),
        are_one_partition(found[i], specs[n], paths.partition_keys),
        forall|j: int|
            i < j < found.len() ==> !are_one_partition(
                #[trigger] found[j],
                specs[n],
                paths.partition_keys,
            ),
    ensures
        specs[n] == found[i],
{
    lemma_by_name_dom(found_names, found);
    assert(names.contains(names[n]));
    assert(names.to_set().contains(names[n]));
    assert(wanted.contains_key(names[n]));
    let k = lemma_by_name_entry(found_names, found, names[n]);
    assert(found[k] == specs[n]);
    law_hive_names_tell_partitions(paths, found[i], found[k]);
    assert forall|j: int| i < j < found_names.len() implies #[trigger] found_names[j]
        != found_names[i] by {
        law_hive_names_tell_partitions(paths, found[j], found[k]);
    }
    law_last_specification_counts(found_names, found, i);
}

/// Whether `error` names the first key that a specification lacks.
pub open spec fn names_first_missing(
    error: ErrorView,
    spec: Map<Seq<char>, Seq<char>>,
    keys: Seq<Seq<char>>,
) -> bool {
    exists|k: int|
        0 <= k < keys.len() && error == missing_column(#[trigger] keys[k]) && !spec.contains_key(
            keys[k],
        ) && forall|j: int| 0 <= j < k ==> spec.contains_key(#[trigger] keys[j])
}

proof fn lemma_first_missing(
    paths: PartitionPathsView,
    specs: Seq<Map<Seq<char>, Seq<char>>>,
    error: ErrorView,
) -> (i: int)
    requires
        all_ok(partition_names(HiveDialect, paths, specs)) == Err::<Seq<Seq<char>>, ErrorView>(
            error,
        ),
    ensures
        0 <= i < specs.len(),
        names_first_missing(error, specs[i], paths.partition_keys),
        forall|j: int|
            0 <= j < i ==> is_complete(#[trigger] specs[j], paths.partition_keys),
{
    let keys = paths.partition_keys;
    let outcomes = partition_names(HiveDialect, paths, specs);
    law_all_or_the_first_error(outcomes);
    let i = choose|i: int|
        0 <= i < outcomes.len() && #[trigger] outcomes[i] == Err::<Seq<char>, ErrorView>(error)
            && forall|j: int| 0 <= j < i ==> #[trigger] outcomes[j] is Ok;
    let given = key_values(keys, specs[i]);
    law_all_or_the_first_error(given);
    assert(all_ok(given) == Err::<Seq<Seq<char>>, ErrorView>(error));
    let k = choose|k: int|
        0 <= k < given.len() && #[trigger] given[k] == Err::<Seq<char>, ErrorView>(error)
            && forall|j: int| 0 <= j < k ==> #[trigger] given[j] is Ok;
    assert(error == missing_column(keys[k]));
    assert forall|j: int| 0 <= j < k implies specs[i].contains_key(#[trigger] keys[j]) by {
        assert(given[j] is Ok);
    }
    assert forall|j: int| 0 <= j < i implies is_complete(#[trigger] specs[j], keys) by {
        assert(outcomes[j] is Ok);
        lemma_complete(keys, specs[j]);
    }
    i
}

/// Where both listings came and nothing can be decided, the error names the first key that is
/// missing: of a partition that is registered at a location of its own, if one of these lacks a
/// key; else of the first discovered partition that lacks one; else of the first registered one.
pub proof fn law_hive_repair_names_what_is_missing(
    paths: PartitionPathsView,
    mode: RepairMode,
    table_directory: Result<(), Error>,
    discovered: Vec<TextMap>,
    registered: Vec<CatalogPartition>,
    error: Error,
)
    requires
        is_repair(
            Err(error),
            HiveDialect,
            paths,
            mode,
            table_directory,
            Ok(discovered),
            Ok(registered),
        ),
        mode is Add || table_directory is Ok,
    ensures
        ({
            let keys = paths.partition_keys;
            let all_custom_complete = forall|i: int|
                0 <= i < registered@.len() && (#[trigger] registered@[i])@.has_custom_location()
                    ==> is_complete(registered@[i].spec@, keys);
            let all_found_complete = forall|i: int|
                0 <= i < discovered@.len() ==> is_complete((#[trigger] discovered@[i])@, keys);
            &&& (!all_custom_complete ==> exists|i: int|
                0 <= i < registered@.len() && (#[trigger] registered@[i])@.has_custom_location()
                    && names_first_missing(error@, registered@[i].spec@, keys))
            &&& (all_custom_complete && !all_found_complete ==> exists|i: int|
                0 <= i < discovered@.len() && names_first_missing(
                    error@,
                    (#[trigger] discovered@[i])@,
                    keys,
                ) && forall|j: int|
                    0 <= j < i ==> is_complete((#[trigger] discovered@[j])@, keys))
            &&& (all_custom_complete && all_found_complete ==> exists|i: int|
                0 <= i < registered@.len() && names_first_missing(
                    error@,
                    (#[trigger] registered@[i]).spec@,
                    keys,
                ) && forall|j: int|
                    0 <= j < i ==> is_complete((#[trigger] registered@[j]).spec@, keys))
        }),
{
    let keys = paths.partition_keys;
    let found = spec_views(discovered@);
    let views = partition_views(registered@);
    let known = registered_specs(views);
    let custom = custom_specs(views);
    lemma_names(paths, custom);
    lemma_names(paths, found);
    lemma_names(paths, known);
    assert forall|i: int| 0 <= i < found.len() implies found[i] == discovered@[i]@ by {}
    assert forall|i: int| 0 <= i < known.len() implies known[i] == registered@[i].spec@
        && views[i] == registered@[i]@ by {}
    if all_ok(partition_names(HiveDialect, paths, custom)) is Err {
        let i = lemma_first_missing(paths, custom, error@);
        let k = lemma_custom_member(views, i);
        assert(registered@[k]@.has_custom_location());
        assert(registered@[k].spec@ == custom[i]);
        assert(!is_complete(custom[i], keys));
    } else {
        assert forall|i: int|
            0 <= i < registered@.len() && (
            #[trigger] registered@[i])@.has_custom_location() implies is_complete(
            registered@[i].spec@,
            keys,
        ) by {
            lemma_custom_listed(views, i);
            let c = choose|c: int| 0 <= c < custom.len() && custom[c] == views[i].spec;
            assert(is_complete(custom[c], keys));
        }
        if all_ok(partition_names(HiveDialect, paths, found)) is Err {
            let i = lemma_first_missing(paths, found, error@);
            assert(names_first_missing(error@, discovered@[i]@, keys));
            assert(!is_complete(found[i], keys));
            assert forall|j: int| 0 <= j < i implies is_complete(
                (#[trigger] discovered@[j])@,
                keys,
            ) by {
                assert(is_complete(found[j], keys));
            }
        } else {
            assert forall|j: int| 0 <= j < discovered@.len() implies is_complete(
                (#[trigger] discovered@[j])@,
                keys,
            ) by {
                assert(is_complete(found[j], keys));
            }
            let i = lemma_first_missing(paths, known, error@);
            assert(names_first_missing(error@, registered@[i].spec@, keys));
            assert forall|j: int| 0 <= j < i implies is_complete(
                (#[trigger] registered@[j]).spec@,
                keys,
            ) by {
                assert(is_complete(known[j], keys));
            }
        }
    }
}

} // verus!
