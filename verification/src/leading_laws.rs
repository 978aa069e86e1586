//! What a filter pins, said of its parts.

use vstd::prelude::*;

use crate::dialect::PartitionDialect;
use crate::error::ErrorView;
use crate::evaluate::{law_conjuncts_hold, law_connectives, truth};
use crate::hive::HiveDialect;
use crate::leading::{common_run, equality_on, filter_run, leading_somes, lemma_common_run_settled};
use crate::leading::{lemma_leading_somes, pinned_literal, pinned_spellings, row_run, row_spellings};
use crate::model::{BinaryRow, DataFieldView};
use crate::predicate::{all_conjuncts, conjuncts, PartitionFilter, Predicate};
use crate::roots::character_values;

verus! {

/// The conjuncts of a conjunction are those of its parts, in the order of the parts; what is no
/// conjunction is its own conjunct.
pub proof fn law_conjuncts(
    children: Vec<Predicate>,
    a: Seq<Predicate>,
    b: Seq<Predicate>,
    predicate: Predicate,
)
    requires
        children@ == a + b,
        !(predicate is And),
    ensures
        conjuncts(predicate) == seq![predicate],
        conjuncts(Predicate::And(children)) == all_conjuncts(a) + all_conjuncts(b),
        a.len() == 1 ==> all_conjuncts(a) == conjuncts(a[0]),
        a.len() == 0 ==> all_conjuncts(a).len() == 0,
{
    lemma_all_conjuncts_add(a, b);
    if a.len() == 1 {
        assert(a.drop_first() =~= Seq::empty());
        assert(all_conjuncts(a.drop_first()) =~= Seq::empty());
        assert(conjuncts(a[0]) + Seq::empty() =~= conjuncts(a[0]));
    }
}

proof fn lemma_all_conjuncts_add(a: Seq<Predicate>, b: Seq<Predicate>)
    ensures
        all_conjuncts(a + b) == all_conjuncts(a) + all_conjuncts(b),
    decreases a.len(),
{
    if a.len() == 0 {
        assert(a + b =~= b);
        assert(all_conjuncts(a) + all_conjuncts(b) =~= all_conjuncts(b));
    } else {
        let rest = a.drop_first();
        lemma_all_conjuncts_add(rest, b);
        assert((a + b).drop_first() =~= rest + b);
        assert((a + b)[0] == a[0]);
        assert(conjuncts(a[0]) + (all_conjuncts(rest) + all_conjuncts(b)) =~= conjuncts(a[0])
            + all_conjuncts(rest) + all_conjuncts(b));
    }
}

/// A predicate holds exactly where all its conjuncts hold.
pub proof fn law_conjuncts_say_the_same(predicate: Predicate, row: Seq<Option<Seq<char>>>)
    ensures
        truth(predicate, row) == Some(true) <==> forall|i: int|
            0 <= i < conjuncts(predicate).len() ==> truth(#[trigger] conjuncts(predicate)[i], row)
                == Some(true),
    decreases predicate,
{
    if truth(predicate, row) == Some(true) {
        assert forall|i: int| 0 <= i < conjuncts(predicate).len() implies truth(
            #[trigger] conjuncts(predicate)[i],
            row,
        ) == Some(true) by {
            law_conjuncts_hold(predicate, row, i);
        }
    }
    if forall|i: int|
        0 <= i < conjuncts(predicate).len() ==> truth(#[trigger] conjuncts(predicate)[i], row)
            == Some(true) {
        match predicate {
            Predicate::And(children) => {
                assert forall|k: int| 0 <= k < children@.len() implies truth(
                    #[trigger] children@[k],
                    row,
                ) == Some(true) by {
                    let child = children@[k];
                    let before = all_conjuncts(children@.take(k));
                    let rest = children@.skip(k);
                    assert(children@ =~= children@.take(k) + rest);
                    lemma_all_conjuncts_add(children@.take(k), rest);
                    assert(rest[0] == child);
                    let own = conjuncts(child);
                    assert forall|i: int| 0 <= i < own.len() implies truth(
                        #[trigger] own[i],
                        row,
                    ) == Some(true) by {
                        assert(conjuncts(predicate)[before.len() + i] == own[i]);
                    }
                    assert(decreases_to!(children => children@[k]));
                    assert(decreases_to!(predicate => predicate->And_0));
                    assert(decreases_to!(predicate => child));
                    law_conjuncts_say_the_same(child, row);
                }
                law_connectives(children, Box::new(predicate), row);
            },
            _ => {
                assert(conjuncts(predicate)[0] == predicate);
            },
        }
    }
}

/// Whether a predicate compares a column for equality.
pub open spec fn is_equality_on(predicate: Predicate, index: int) -> bool {
    predicate is Leaf && predicate->Leaf_op is Eq && predicate->Leaf_index == index
}

/// A column is pinned by the last equality on it, to the first literal of that equality.
pub proof fn law_the_last_equality_pins(predicates: Seq<Predicate>, index: int, at: int)
    requires
        0 <= at < predicates.len(),
        is_equality_on(predicates[at], index),
        forall|j: int| at < j < predicates.len() ==> !is_equality_on(#[trigger] predicates[j], index),
    ensures
        predicates[at]->Leaf_literals@.len() > 0 ==> pinned_literal(predicates, index) == Some(
            predicates[at]->Leaf_literals@[0]@,
        ),
        predicates[at]->Leaf_literals@.len() == 0 ==> pinned_literal(predicates, index) is None,
    decreases predicates.len(),
{
    let last = predicates.len() - 1;
    if at < last {
        assert(!is_equality_on(predicates[last], index));
        let front = predicates.drop_last();
        assert forall|j: int| at < j < front.len() implies !is_equality_on(
            #[trigger] front[j],
            index,
        ) by {
            assert(front[j] == predicates[j]);
        }
        assert(front[at] == predicates[at]);
        law_the_last_equality_pins(front, index, at);
        assert(equality_on(predicates.last(), index) is None);
    }
}

/// A column on which there is no equality is not pinned.
pub proof fn law_nothing_else_pins(predicates: Seq<Predicate>, index: int)
    requires
        forall|j: int|
            0 <= j < predicates.len() ==> !is_equality_on(#[trigger] predicates[j], index),
    ensures
        pinned_literal(predicates, index) is None,
    decreases predicates.len(),
{
    if predicates.len() > 0 {
        let last = predicates.len() - 1;
        assert(!is_equality_on(predicates[last], index));
        let front = predicates.drop_last();
        assert forall|j: int| 0 <= j < front.len() implies !is_equality_on(
            #[trigger] front[j],
            index,
        ) by {
            assert(front[j] == predicates[j]);
        }
        law_nothing_else_pins(front, index);
        assert(equality_on(predicates.last(), index) is None);
    }
}

/// The values that a predicate pins, in the Hive dialect, go as far as the leading columns are
/// pinned and have spellings, and no further; each is the literal of its column.
pub proof fn law_hive_run(
    predicate: Predicate,
    fields: Seq<DataFieldView>,
    default_partition_name: Seq<char>,
    legacy_partition_name: bool,
    run: Seq<Seq<char>>,
)
    requires
        filter_run(
            HiveDialect,
            PartitionFilter::Predicate(predicate),
            fields,
            default_partition_name,
            legacy_partition_name,
        ) == Ok::<Seq<Seq<char>>, ErrorView>(run),
    ensures
        run.len() <= fields.len(),
        forall|i: int|
            0 <= i < run.len() ==> !((#[trigger] fields[i]).data_type.kind is Other)
                && pinned_literal(conjuncts(predicate), i) == Some(run[i]),
        run.len() < fields.len() ==> fields[run.len() as int].data_type.kind is Other
            || pinned_literal(conjuncts(predicate), run.len() as int) is None,
{
    let spellings = pinned_spellings(
        HiveDialect,
        predicate,
        fields,
        default_partition_name,
        legacy_partition_name,
    );
    lemma_leading_somes(spellings);
    assert(run == leading_somes(spellings));
    assert forall|i: int| 0 <= i < run.len() implies !((#[trigger] fields[i]).data_type.kind
        is Other) && pinned_literal(conjuncts(predicate), i) == Some(run[i]) by {
        assert(spellings[i] == Some(run[i]));
    }
    if run.len() < fields.len() {
        assert(spellings.len() == fields.len());
        assert(spellings[run.len() as int] is None);
    }
}

/// To ask what a predicate pins is never an error.
pub proof fn law_predicates_pin_without_fail<D: PartitionDialect>(
    dialect: D,
    predicate: Predicate,
    fields: Seq<DataFieldView>,
    default_partition_name: Seq<char>,
    legacy_partition_name: bool,
)
    ensures
        filter_run(
            dialect,
            PartitionFilter::Predicate(predicate),
            fields,
            default_partition_name,
            legacy_partition_name,
        ) is Ok,
{
}

/// The values that go into a pattern are the leading ones of character columns, as many as there
/// are in a row.
pub proof fn law_pattern_values(fields: Seq<DataFieldView>, run: Seq<Seq<char>>, count: int)
    requires
        run.len() <= fields.len(),
        0 <= count <= run.len(),
        forall|i: int| 0 <= i < count ==> (#[trigger] fields[i]).data_type.kind is Character,
        count < run.len() ==> !(fields[count].data_type.kind is Character),
    ensures
        character_values(fields, run) == run.take(count),
{
    let marked = Seq::new(
        if fields.len() < run.len() {
            fields.len()
        } else {
            run.len()
        },
        |i: int|
            if fields[i].data_type.kind is Character {
                Some(run[i])
            } else {
                None
            },
    );
    assert forall|i: int| 0 <= i < count implies #[trigger] marked[i] == Some(
        run.take(count)[i],
    ) by {
        assert(fields[i].data_type.kind is Character);
    }
    crate::leading::lemma_leading_somes_is(marked, run.take(count));
}

/// An enumeration of rows that have a value or a null for each column pins something or nothing,
/// but is no error; one without rows pins nothing.
pub proof fn law_enumeration_of_whole_rows<D: PartitionDialect>(
    dialect: D,
    rows: Seq<BinaryRow>,
    fields: Seq<DataFieldView>,
    default_partition_name: Seq<char>,
    legacy_partition_name: bool,
)
    requires
        forall|i: int| 0 <= i < rows.len() ==> (#[trigger] rows[i])@.len() >= fields.len(),
    ensures
        common_run(dialect, rows, fields, default_partition_name, legacy_partition_name) matches Ok(
            run,
        ) && (run is Some <==> rows.len() > 0),
    decreases rows.len(),
{
    if rows.len() > 0 {
        let front = rows.drop_last();
        assert forall|i: int| 0 <= i < front.len() implies (#[trigger] front[i])@.len()
            >= fields.len() by {
            assert(front[i] == rows[i]);
        }
        law_enumeration_of_whole_rows(
            dialect,
            front,
            fields,
            default_partition_name,
            legacy_partition_name,
        );
        assert(rows.last() == rows[rows.len() - 1]);
    }
}

/// A row with fewer values than there are columns is an error exactly where the run reaches its
/// end: where none of its values is null or without a spelling.
pub proof fn law_short_rows<D: PartitionDialect>(
    dialect: D,
    row: Seq<Option<Seq<char>>>,
    fields: Seq<DataFieldView>,
    default_partition_name: Seq<char>,
    legacy_partition_name: bool,
)
    ensures
        row_run(dialect, row, fields, default_partition_name, legacy_partition_name) is Err <==> {
            &&& row.len() < fields.len()
            &&& forall|i: int|
                0 <= i < row.len() ==> (#[trigger] row[i]) is Some && dialect.formatted(
                    row[i]->0,
                    fields[i].data_type,
                    default_partition_name,
                    legacy_partition_name,
                ) is Some
        },
{
    let spellings = row_spellings(
        dialect,
        row,
        fields,
        default_partition_name,
        legacy_partition_name,
    );
    lemma_leading_somes(spellings);
    let run = leading_somes(spellings);
    if row.len() < fields.len() {
        if run.len() == row.len() {
            assert forall|i: int| 0 <= i < row.len() implies (#[trigger] row[i]) is Some
                && dialect.formatted(
                row[i]->0,
                fields[i].data_type,
                default_partition_name,
                legacy_partition_name,
            ) is Some by {
                assert(spellings[i] == Some(run[i]));
            }
        } else {
            let at = run.len() as int;
            assert(spellings[at] is None);
            assert(row[at] is None || dialect.formatted(
                row[at]->0,
                fields[at].data_type,
                default_partition_name,
                legacy_partition_name,
            ) is None);
        }
    }
}

/// Once the first rows of an enumeration share nothing, it pins nothing, whatever the rows behind
/// them are: one that is too short is no error there.
pub proof fn law_rows_that_share_nothing_settle<D: PartitionDialect>(
    dialect: D,
    rows: Seq<BinaryRow>,
    count: int,
    fields: Seq<DataFieldView>,
    default_partition_name: Seq<char>,
    legacy_partition_name: bool,
)
    requires
        0 < count <= rows.len(),
        common_run(
            dialect,
            rows.take(count),
            fields,
            default_partition_name,
            legacy_partition_name,
        ) matches Ok(run) && run == Some(Seq::<Seq<char>>::empty()),
    ensures
        common_run(
            dialect,
            rows,
            fields,
            default_partition_name,
            legacy_partition_name,
        ) == Ok::<Option<Seq<Seq<char>>>, ErrorView>(Some(Seq::empty())),
{
    lemma_common_run_settled(
        dialect,
        rows,
        count,
        fields,
        default_partition_name,
        legacy_partition_name,
    );
}

/// An enumeration of no rows pins nothing; any other pins what its rows share, or fails as they do.
pub proof fn law_enumerations_pin_what_is_shared<D: PartitionDialect>(
    dialect: D,
    partitions: Vec<BinaryRow>,
    fields: Seq<DataFieldView>,
    default_partition_name: Seq<char>,
    legacy_partition_name: bool,
)
    ensures
        ({
            let run = filter_run(
                dialect,
                PartitionFilter::PartitionSet { partitions },
                fields,
                default_partition_name,
                legacy_partition_name,
            );
            let shared = common_run(
                dialect,
                partitions@,
                fields,
                default_partition_name,
                legacy_partition_name,
            );
            &&& (partitions@.len() == 0 ==> run == Ok::<Seq<Seq<char>>, ErrorView>(Seq::empty()))
            &&& (partitions@.len() > 0 ==> match shared {
                Ok(values) => values is Some && run == Ok::<Seq<Seq<char>>, ErrorView>(values->0),
                Err(error) => run == Err::<Seq<Seq<char>>, ErrorView>(error),
            })
        }),
{
}

} // verus!
