//! The leading partition values that a filter pins to a single value.
//!
//! A beginning of a partition path, and the name pattern that a catalog prunes by, can express
//! nothing but a leading run of values. A column without a pinned value ends the run, and so
//! does a value that has no spelling.

use vstd::prelude::*;
use vstd::string::*;

use crate::dialect::{text_option, PartitionDialect};
use crate::error::{Error, ErrorView};
use crate::model::{extract_datum, field_views, short_row, BinaryRow, DataField, DataFieldView};
use crate::model::Datum;
use crate::path::{join_path, path_below};
use crate::predicate::{conjuncts, PartitionFilter, Predicate, PredicateOperator};
use crate::text::{join_texts, joined, same_text, texts};

verus! {

/// What stands before the first `None`.
pub open spec fn leading_somes<T>(values: Seq<Option<T>>) -> Seq<T>
    decreases values.len(),
{
    if values.len() > 0 && values[0] is Some {
        seq![values[0]->0] + leading_somes(values.drop_first())
    } else {
        Seq::empty()
    }
}

/// The longest beginning that two runs share.
pub open spec fn common_prefix(a: Seq<Seq<char>>, b: Seq<Seq<char>>) -> Seq<Seq<char>>
    decreases a.len(),
{
    if a.len() > 0 && b.len() > 0 && a[0] == b[0] {
        seq![a[0]] + common_prefix(a.drop_first(), b.drop_first())
    } else {
        Seq::empty()
    }
}

/// The literal that an equality on a column compares with, where the predicate is one.
pub open spec fn equality_on(predicate: Predicate, index: int) -> Option<Option<Seq<char>>> {
    match predicate {
        Predicate::Leaf { index: on, op: PredicateOperator::Eq, literals, .. } => if on == index {
            Some(
                if literals@.len() > 0 {
                    Some(literals@[0]@)
                } else {
                    None
                },
            )
        } else {
            None
        },
        _ => None,
    }
}

/// The literal to which the predicates, taken together, pin a column. Where several are
/// equalities on it, the last one counts.
pub open spec fn pinned_literal(predicates: Seq<Predicate>, index: int) -> Option<Seq<char>>
    decreases predicates.len(),
{
    if predicates.len() == 0 {
        None
    } else {
        match equality_on(predicates.last(), index) {
            Some(literal) => literal,
            None => pinned_literal(predicates.drop_last(), index),
        }
    }
}

/// How the pinned value of each column is spelled, where it is pinned and has a spelling.
pub open spec fn pinned_spellings<D: PartitionDialect>(
    dialect: D,
    predicate: Predicate,
    fields: Seq<DataFieldView>,
    default_partition_name: Seq<char>,
    legacy_partition_name: bool,
) -> Seq<Option<Seq<char>>> {
    Seq::new(
        fields.len(),
        |i: int|
            match pinned_literal(conjuncts(predicate), i) {
                Some(datum) => dialect.formatted(
                    datum,
                    fields[i].data_type,
                    default_partition_name,
                    legacy_partition_name,
                ),
                None => None,
            },
    )
}

/// How each value of a row is spelled, where it is not null and has a spelling.
pub open spec fn row_spellings<D: PartitionDialect>(
    dialect: D,
    row: Seq<Option<Seq<char>>>,
    fields: Seq<DataFieldView>,
    default_partition_name: Seq<char>,
    legacy_partition_name: bool,
) -> Seq<Option<Seq<char>>> {
    Seq::new(
        if row.len() < fields.len() {
            row.len()
        } else {
            fields.len()
        },
        |i: int|
            match row[i] {
                Some(datum) => dialect.formatted(
                    datum,
                    fields[i].data_type,
                    default_partition_name,
                    legacy_partition_name,
                ),
                None => None,
            },
    )
}

/// The leading spellings of a row. A row that is too short is an error, where the run reaches
/// its end.
pub open spec fn row_run<D: PartitionDialect>(
    dialect: D,
    row: Seq<Option<Seq<char>>>,
    fields: Seq<DataFieldView>,
    default_partition_name: Seq<char>,
    legacy_partition_name: bool,
) -> Result<Seq<Seq<char>>, ErrorView> {
    let spellings = row_spellings(
        dialect,
        row,
        fields,
        default_partition_name,
        legacy_partition_name,
    );
    let run = leading_somes(spellings);
    if row.len() < fields.len() && run.len() == row.len() {
        Err(short_row())
    } else {
        Ok(run)
    }
}

/// The leading spellings that all rows share; `None` for no rows at all. Once nothing is shared,
/// the rows behind are not looked at.
pub open spec fn common_run<D: PartitionDialect>(
    dialect: D,
    rows: Seq<BinaryRow>,
    fields: Seq<DataFieldView>,
    default_partition_name: Seq<char>,
    legacy_partition_name: bool,
) -> Result<Option<Seq<Seq<char>>>, ErrorView>
    decreases rows.len(),
{
    if rows.len() == 0 {
        Ok(None)
    } else {
        let before = common_run(
            dialect,
            rows.drop_last(),
            fields,
            default_partition_name,
            legacy_partition_name,
        );
        if before is Err || before->Ok_0 == Some(Seq::<Seq<char>>::empty()) {
            before
        } else {
            match row_run(
                dialect,
                rows.last()@,
                fields,
                default_partition_name,
                legacy_partition_name,
            ) {
                Err(error) => Err(error),
                Ok(run) => Ok(
                    Some(
                        match before->Ok_0 {
                            None => run,
                            Some(common) => common_prefix(common, run),
                        },
                    ),
                ),
            }
        }
    }
}

/// The leading spellings that a filter pins.
pub open spec fn filter_run<D: PartitionDialect>(
    dialect: D,
    filter: PartitionFilter,
    fields: Seq<DataFieldView>,
    default_partition_name: Seq<char>,
    legacy_partition_name: bool,
) -> Result<Seq<Seq<char>>, ErrorView> {
    match filter {
        PartitionFilter::Predicate(predicate) => Ok(
            leading_somes(
                pinned_spellings(
                    dialect,
                    predicate,
                    fields,
                    default_partition_name,
                    legacy_partition_name,
                ),
            ),
        ),
        PartitionFilter::PartitionSet { partitions } => match common_run(
            dialect,
            partitions@,
            fields,
            default_partition_name,
            legacy_partition_name,
        ) {
            Err(error) => Err(error),
            Ok(Some(run)) => Ok(run),
            Ok(None) => Ok(Seq::empty()),
        },
    }
}

/// One segment of a partition path.
pub open spec fn path_segment<D: PartitionDialect>(
    dialect: D,
    key: Seq<char>,
    value: Seq<char>,
    only_value_in_path: bool,
) -> Seq<char> {
    if only_value_in_path {
        dialect.escaped(value)
    } else {
        dialect.escaped(key) + seq!['='] + dialect.escaped(value)
    }
}

/// The segments of a partition path, as far as there are keys and values.
pub open spec fn path_segments<D: PartitionDialect>(
    dialect: D,
    keys: Seq<Seq<char>>,
    values: Seq<Seq<char>>,
    only_value_in_path: bool,
) -> Seq<Seq<char>> {
    Seq::new(
        if keys.len() < values.len() {
            keys.len()
        } else {
            values.len()
        },
        |i: int| path_segment(dialect, keys[i], values[i], only_value_in_path),
    )
}

/// The run ends at the first value that is missing.
pub(crate) proof fn lemma_leading_somes<T>(values: Seq<Option<T>>)
    ensures
        leading_somes(values).len() <= values.len(),
        forall|i: int|
            0 <= i < leading_somes(values).len() ==> #[trigger] values[i] == Some(
                leading_somes(values)[i],
            ),
        leading_somes(values).len() < values.len()
            ==> values[leading_somes(values).len() as int] is None,
    decreases values.len(),
{
    if values.len() > 0 && values[0] is Some {
        let rest = values.drop_first();
        lemma_leading_somes(rest);
        assert forall|i: int| 0 <= i < leading_somes(values).len() implies #[trigger] values[i]
            == Some(leading_somes(values)[i]) by {
            if i > 0 {
                assert(values[i] == rest[i - 1]);
            }
        }
        if leading_somes(values).len() < values.len() {
            assert(values[leading_somes(values).len() as int] == rest[leading_somes(rest).len() as int]);
        }
    }
}

/// The run is what `run` holds, where `run` agrees with the values and ends at a missing one.
pub(crate) proof fn lemma_leading_somes_is<T>(values: Seq<Option<T>>, run: Seq<T>)
    requires
        run.len() <= values.len(),
        forall|i: int| 0 <= i < run.len() ==> #[trigger] values[i] == Some(run[i]),
        run.len() < values.len() ==> values[run.len() as int] is None,
    ensures
        leading_somes(values) == run,
{
    lemma_leading_somes(values);
    let found = leading_somes(values);
    if found.len() < run.len() {
        assert(values[found.len() as int] is None);
    }
    if run.len() < found.len() {
        assert(values[run.len() as int] == Some(found[run.len() as int]));
    }
    assert forall|i: int| 0 <= i < run.len() implies found[i] == run[i] by {
        assert(values[i] == Some(run[i]));
    }
    assert(found =~= run);
}

/// The leading run of values that a predicate pins by equalities, spelled as paths and the
/// catalog spell them.
///
/// Only the conjuncts of the predicate count. For each column the last equality decides; the run
/// ends at the first column that none pins, or whose literal has no spelling.
pub fn leading_equality_values_from_predicate<D: PartitionDialect>(
    dialect: &D,
    predicate: &Predicate,
    partition_fields: &Vec<DataField>,
    default_partition_name: &str,
    legacy_partition_name: bool,
) -> (r: Vec<String>)
    ensures
        texts(r@) == leading_somes(
            pinned_spellings(
                *dialect,
                *predicate,
                field_views(partition_fields@),
                default_partition_name@,
                legacy_partition_name,
            ),
        ),
{
    let mut pinned: Vec<Option<&Datum>> = Vec::new();
    let mut i: usize = 0;
    while i < partition_fields.len()
        invariant
            0 <= i <= partition_fields@.len(),
            pinned@.len() == i,
            forall|j: int| 0 <= j < i ==> #[trigger] pinned@[j] is None,
        decreases partition_fields@.len() - i,
    {
        pinned.push(None);
        i = i + 1;
    }
    let predicates = predicate.split_and();
    let ghost all = conjuncts(*predicate);
    let mut k: usize = 0;
    while k < predicates.len()
        invariant
            0 <= k <= predicates@.len(),
            all == conjuncts(*predicate),
            predicates@.map_values(|p: &Predicate| *p) == all,
            pinned@.len() == partition_fields@.len(),
            forall|j: int|
                0 <= j < pinned@.len() ==> datum_view(#[trigger] pinned@[j]) == pinned_literal(
                    all.take(k as int),
                    j,
                ),
        decreases predicates@.len() - k,
    {
        proof {
            assert(all[k as int] == *predicates@[k as int]);
            assert(all.take(k + 1).drop_last() =~= all.take(k as int));
        }
        let ghost before = pinned@;
        if let Predicate::Leaf { index, op, literals, .. } = predicates[k] {
            if *op == PredicateOperator::Eq {
                if *index < pinned.len() {
                    let literal = if literals.len() > 0 {
                        Some(&literals[0])
                    } else {
                        None
                    };
                    pinned.set(*index, literal);
                }
            }
        }
        proof {
            assert forall|j: int| 0 <= j < pinned@.len() implies datum_view(#[trigger] pinned@[j])
                == pinned_literal(all.take(k + 1), j) by {
                assert(datum_view(before[j]) == pinned_literal(all.take(k as int), j));
            }
        }
        k = k + 1;
    }
    assert(all.take(all.len() as int) =~= all);

    let ghost fields = field_views(partition_fields@);
    let ghost spellings = pinned_spellings(
        *dialect,
        *predicate,
        fields,
        default_partition_name@,
        legacy_partition_name,
    );
    let mut values: Vec<String> = Vec::new();
    let mut i: usize = 0;
    while i < partition_fields.len()
        invariant
            0 <= i <= partition_fields@.len(),
            pinned@.len() == partition_fields@.len(),
            all == conjuncts(*predicate),
            fields == field_views(partition_fields@),
            spellings == pinned_spellings(
                *dialect,
                *predicate,
                fields,
                default_partition_name@,
                legacy_partition_name,
            ),
            forall|j: int|
                0 <= j < pinned@.len() ==> datum_view(#[trigger] pinned@[j]) == pinned_literal(
                    all,
                    j,
                ),
            values@.len() == i,
            forall|j: int| 0 <= j < i ==> #[trigger] spellings[j] == Some(values@[j]@),
        decreases partition_fields@.len() - i,
    {
        let spelling = match pinned[i] {
            Some(datum) => dialect.format_partition_value(
                datum,
                &partition_fields[i].data_type,
                default_partition_name,
                legacy_partition_name,
            ),
            None => None,
        };
        proof {
            assert(datum_view(pinned@[i as int]) == pinned_literal(all, i as int));
            assert(fields[i as int] == partition_fields@[i as int]@);
            assert(spellings[i as int] == text_option(spelling));
        }
        match spelling {
            Some(value) => {
                values.push(value);
            },
            None => {
                proof {
                    lemma_leading_somes_is(spellings, texts(values@));
                }
                return values;
            },
        }
        i = i + 1;
    }
    proof {
        lemma_leading_somes_is(spellings, texts(values@));
    }
    values
}

/// The leading run of spelled values of a row.
fn leading_row_values<D: PartitionDialect>(
    dialect: &D,
    row: &BinaryRow,
    partition_fields: &Vec<DataField>,
    default_partition_name: &str,
    legacy_partition_name: bool,
) -> (r: Result<Vec<String>, Error>)
    ensures
        texts_result(r) == row_run(
            *dialect,
            row@,
            field_views(partition_fields@),
            default_partition_name@,
            legacy_partition_name,
        ),
{
    let ghost fields = field_views(partition_fields@);
    let ghost spellings = row_spellings(
        *dialect,
        row@,
        fields,
        default_partition_name@,
        legacy_partition_name,
    );
    let mut values: Vec<String> = Vec::new();
    let mut i: usize = 0;
    while i < partition_fields.len()
        invariant
            0 <= i <= partition_fields@.len(),
            i <= row@.len(),
            fields == field_views(partition_fields@),
            spellings == row_spellings(
                *dialect,
                row@,
                fields,
                default_partition_name@,
                legacy_partition_name,
            ),
            values@.len() == i,
            forall|j: int| 0 <= j < i ==> #[trigger] spellings[j] == Some(values@[j]@),
        decreases partition_fields@.len() - i,
    {
        match extract_datum(row, i) {
            Err(error) => {
                proof {
                    lemma_leading_somes_is(spellings, texts(values@));
                }
                return Err(error);
            },
            Ok(value) => {
                let spelling = match value {
                    Some(datum) => dialect.format_partition_value(
                        datum,
                        &partition_fields[i].data_type,
                        default_partition_name,
                        legacy_partition_name,
                    ),
                    None => None,
                };
                proof {
                    assert(fields[i as int] == partition_fields@[i as int]@);
                    assert(spellings[i as int] == text_option(spelling));
                }
                match spelling {
                    Some(value) => {
                        values.push(value);
                    },
                    None => {
                        proof {
                            lemma_leading_somes_is(spellings, texts(values@));
                        }
                        return Ok(values);
                    },
                }
            },
        }
        i = i + 1;
    }
    proof {
        lemma_leading_somes_is(spellings, texts(values@));
    }
    Ok(values)
}

/// The longest beginning that the runs share.
fn shared_prefix(a: Vec<String>, b: &Vec<String>) -> (r: Vec<String>)
    ensures
        texts(r@) == common_prefix(texts(a@), texts(b@)),
{
    let ghost x = texts(a@);
    let ghost y = texts(b@);
    let mut r: Vec<String> = Vec::new();
    let mut i: usize = 0;
    proof {
        assert(x.skip(0) =~= x);
        assert(y.skip(0) =~= y);
        assert(texts(r@) + common_prefix(x, y) =~= common_prefix(x, y));
    }
    while i < a.len() && i < b.len() && same_text(a[i].as_str(), b[i].as_str())
        invariant
            0 <= i <= a@.len(),
            i <= b@.len(),
            x == texts(a@),
            y == texts(b@),
            texts(r@) + common_prefix(x.skip(i as int), y.skip(i as int)) == common_prefix(x, y),
        decreases a@.len() - i,
    {
        let ghost before = texts(r@);
        r.push(a[i].clone());
        proof {
            let rest = common_prefix(x.skip(i + 1), y.skip(i + 1));
            assert(x.skip(i as int).drop_first() =~= x.skip(i + 1));
            assert(y.skip(i as int).drop_first() =~= y.skip(i + 1));
            assert(texts(r@) =~= before.push(x[i as int]));
            assert(before.push(x[i as int]) + rest =~= before + (seq![x[i as int]] + rest));
        }
        i = i + 1;
    }
    assert(texts(r@) =~= common_prefix(x, y));
    r
}

/// The leading run of partition values that a filter pins to a single value, in the order of the
/// partition keys, spelled as the catalog and the partition path spell them.
///
/// An enumerated set of partitions pins what all its rows agree on from the start.
pub fn leading_equality_partition_values<D: PartitionDialect>(
    dialect: &D,
    filter: &PartitionFilter,
    partition_fields: &Vec<DataField>,
    default_partition_name: &str,
    legacy_partition_name: bool,
) -> (r: Result<Vec<String>, Error>)
    ensures
        texts_result(r) == filter_run(
            *dialect,
            *filter,
            field_views(partition_fields@),
            default_partition_name@,
            legacy_partition_name,
        ),
{
    match filter {
        PartitionFilter::Predicate(predicate) => Ok(
            leading_equality_values_from_predicate(
                dialect,
                predicate,
                partition_fields,
                default_partition_name,
                legacy_partition_name,
            ),
        ),
        PartitionFilter::PartitionSet { partitions } => {
            let ghost fields = field_views(partition_fields@);
            let mut common: Option<Vec<String>> = None;
            let mut i: usize = 0;
            while i < partitions.len()
                invariant
                    0 <= i <= partitions@.len(),
                    fields == field_views(partition_fields@),
                    *filter == (PartitionFilter::PartitionSet { partitions: *partitions }),
                    common_run(
                        *dialect,
                        partitions@.take(i as int),
                        fields,
                        default_partition_name@,
                        legacy_partition_name,
                    ) == Ok::<Option<Seq<Seq<char>>>, ErrorView>(run_view(common)),
                    common matches Some(values) ==> values@.len() > 0,
                decreases partitions@.len() - i,
            {
                proof {
                    assert(partitions@.take(i + 1).drop_last() =~= partitions@.take(i as int));
                    assert(partitions@.take(i + 1).last() == partitions@[i as int]);
                    if common is Some {
                        assert(texts(common->0@).len() > 0);
                    }
                }
                match leading_row_values(
                    dialect,
                    &partitions[i],
                    partition_fields,
                    default_partition_name,
                    legacy_partition_name,
                ) {
                    Err(error) => {
                        proof {
                            lemma_common_run_settled(
                                *dialect,
                                partitions@,
                                i + 1,
                                fields,
                                default_partition_name@,
                                legacy_partition_name,
                            );
                        }
                        return Err(error);
                    },
                    Ok(values) => {
                        let shared = match common {
                            None => values,
                            Some(common) => shared_prefix(common, &values),
                        };
                        if shared.len() == 0 {
                            proof {
                                assert(texts(shared@) =~= Seq::empty());
                                lemma_common_run_settled(
                                    *dialect,
                                    partitions@,
                                    i + 1,
                                    fields,
                                    default_partition_name@,
                                    legacy_partition_name,
                                );
                            }
                            return Ok(shared);
                        }
                        common = Some(shared);
                    },
                }
                i = i + 1;
            }
            assert(partitions@.take(i as int) =~= partitions@);
            match common {
                Some(values) => Ok(values),
                None => {
                    let none: Vec<String> = Vec::new();
                    assert(texts(none@) =~= Seq::empty());
                    Ok(none)
                },
            }
        },
    }
}

/// Once an error has come up, or nothing is shared, the rows behind change nothing.
pub(crate) proof fn lemma_common_run_settled<D: PartitionDialect>(
    dialect: D,
    rows: Seq<BinaryRow>,
    upto: int,
    fields: Seq<DataFieldView>,
    default_partition_name: Seq<char>,
    legacy_partition_name: bool,
)
    requires
        0 <= upto <= rows.len(),
        ({
            let found = common_run(
                dialect,
                rows.take(upto),
                fields,
                default_partition_name,
                legacy_partition_name,
            );
            found is Err || found->Ok_0 == Some(Seq::<Seq<char>>::empty())
        }),
    ensures
        common_run(dialect, rows, fields, default_partition_name, legacy_partition_name)
            == common_run(
            dialect,
            rows.take(upto),
            fields,
            default_partition_name,
            legacy_partition_name,
        ),
    decreases rows.len(),
{
    if upto < rows.len() {
        assert(rows.drop_last().take(upto) =~= rows.take(upto));
        lemma_common_run_settled(
            dialect,
            rows.drop_last(),
            upto,
            fields,
            default_partition_name,
            legacy_partition_name,
        );
    } else {
        assert(rows.take(upto) =~= rows);
    }
}

/// The segment of a partition path for one key and value.
pub(crate) fn partition_segment<D: PartitionDialect>(
    dialect: &D,
    key: &str,
    value: &str,
    only_value_in_path: bool,
) -> (r: String)
    ensures
        r@ == path_segment(*dialect, key@, value@, only_value_in_path),
{
    if only_value_in_path {
        dialect.escape_path_name(value)
    } else {
        let mut r = dialect.escape_path_name(key);
        r.push('=');
        r.append(dialect.escape_path_name(value).as_str());
        assert(r@ =~= dialect.escaped(key@) + seq!['='] + dialect.escaped(value@));
        r
    }
}

/// The directory below which all partitions lie that a predicate can reach, where it pins the
/// leading partition columns; `None` where it does not.
pub fn leading_equality_partition_path<D: PartitionDialect>(
    dialect: &D,
    table_path: &str,
    partition_keys: &Vec<String>,
    partition_fields: &Vec<DataField>,
    predicate: &Predicate,
    default_partition_name: &str,
    legacy_partition_name: bool,
    only_value_in_path: bool,
) -> (r: Option<String>)
    ensures
        text_option(r) == leading_path(
            *dialect,
            table_path@,
            texts(partition_keys@),
            field_views(partition_fields@),
            *predicate,
            default_partition_name@,
            legacy_partition_name,
            only_value_in_path,
        ),
{
    let values = leading_equality_values_from_predicate(
        dialect,
        predicate,
        partition_fields,
        default_partition_name,
        legacy_partition_name,
    );
    assert(texts(values@).len() == values@.len());
    if values.len() == 0 {
        return None;
    }
    let ghost expected = path_segments(
        *dialect,
        texts(partition_keys@),
        texts(values@),
        only_value_in_path,
    );
    let mut segments: Vec<String> = Vec::new();
    let mut i: usize = 0;
    while i < partition_keys.len() && i < values.len()
        invariant
            0 <= i <= partition_keys@.len(),
            i <= values@.len(),
            expected == path_segments(
                *dialect,
                texts(partition_keys@),
                texts(values@),
                only_value_in_path,
            ),
            texts(segments@) == expected.take(i as int),
        decreases partition_keys@.len() - i,
    {
        let ghost before = texts(segments@);
        let segment = partition_segment(
            dialect,
            partition_keys[i].as_str(),
            values[i].as_str(),
            only_value_in_path,
        );
        segments.push(segment);
        proof {
            assert(expected[i as int] == segment@);
            assert(texts(segments@) =~= before.push(segment@));
            assert(expected.take(i + 1) =~= expected.take(i as int).push(expected[i as int]));
        }
        i = i + 1;
    }
    assert(expected.take(i as int) =~= expected);
    Some(join_path(table_path, join_texts(&segments, "/").as_str()))
}

/// The directory that a predicate leads to, where it pins the leading partition columns.
pub open spec fn leading_path<D: PartitionDialect>(
    dialect: D,
    table_path: Seq<char>,
    keys: Seq<Seq<char>>,
    fields: Seq<DataFieldView>,
    predicate: Predicate,
    default_partition_name: Seq<char>,
    legacy_partition_name: bool,
    only_value_in_path: bool,
) -> Option<Seq<char>> {
    let values = leading_somes(
        pinned_spellings(dialect, predicate, fields, default_partition_name, legacy_partition_name),
    );
    if values.len() == 0 {
        None
    } else {
        Some(
            path_below(
                table_path,
                joined(path_segments(dialect, keys, values, only_value_in_path), "/"@),
            ),
        )
    }
}

/// What a result that is a list of texts or an error says.
pub open spec fn texts_result(r: Result<Vec<String>, Error>) -> Result<Seq<Seq<char>>, ErrorView> {
    match r {
        Ok(values) => Ok(texts(values@)),
        Err(error) => Err(error@),
    }
}

/// What a run that may be missing holds.
pub open spec fn run_view(run: Option<Vec<String>>) -> Option<Seq<Seq<char>>> {
    match run {
        Some(values) => Some(texts(values@)),
        None => None,
    }
}

/// What a literal that may be missing holds.
pub open spec fn datum_view(datum: Option<&Datum>) -> Option<Seq<char>> {
    match datum {
        Some(datum) => Some(datum@),
        None => None,
    }
}

} // verus!
