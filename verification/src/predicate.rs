//! Predicates over the partition columns.

use vstd::prelude::*;

use crate::model::{row_views, BinaryRow, DataType, Datum};

verus! {

/// How a column is compared with literals.
#[derive(Debug, Clone, Copy, PartialEq, Eq, Structural)]
pub enum PredicateOperator {
    Eq,
    NotEq,
    Lt,
    LtEq,
    Gt,
    GtEq,
    IsNull,
    IsNotNull,
    In,
    NotIn,
}

/// A condition on a row of partition values.
#[derive(Debug)]
pub enum Predicate {
    And(Vec<Predicate>),
    Or(Vec<Predicate>),
    Not(Box<Predicate>),
    /// Compares the partition column at `index`, which is of the given type.
    Leaf {
        column: String,
        index: usize,
        data_type: DataType,
        op: PredicateOperator,
        literals: Vec<Datum>,
    },
}

/// The conditions that hold exactly where all of `predicate` holds: conjunctions are taken apart,
/// at any depth, from left to right.
pub open spec fn conjuncts(predicate: Predicate) -> Seq<Predicate>
    decreases predicate,
{
    match predicate {
        Predicate::And(children) => all_conjuncts(children@),
        _ => seq![predicate],
    }
}

/// The conjuncts of each predicate in turn.
pub open spec fn all_conjuncts(predicates: Seq<Predicate>) -> Seq<Predicate>
    decreases predicates,
{
    if predicates.len() == 0 {
        Seq::empty()
    } else {
        conjuncts(predicates[0]) + all_conjuncts(predicates.drop_first())
    }
}

impl Predicate {
    /// The conjuncts of the predicate.
    pub fn split_and<'a>(&'a self) -> (r: Vec<&'a Predicate>)
        ensures
            r@.map_values(|p: &Predicate| *p) == conjuncts(*self),
        decreases self,
    {
        let mut r: Vec<&'a Predicate> = Vec::new();
        match self {
            Predicate::And(children) => {
                let mut i: usize = 0;
                assert(children@.skip(0) =~= children@);
                while i < children.len()
                    invariant
                        0 <= i <= children@.len(),
                        *self == Predicate::And(*children),
                        r@.map_values(|p: &Predicate| *p) + all_conjuncts(children@.skip(i as int))
                            == all_conjuncts(children@),
                    decreases children@.len() - i,
                {
                    let ghost before = r@.map_values(|p: &Predicate| *p);
                    let ghost rest = children@.skip(i as int);
                    proof {
                        assert(rest[0] == children@[i as int]);
                        assert(rest.drop_first() =~= children@.skip(i + 1));
                        assert(decreases_to!(*children => children@[i as int]));
                        assert(decreases_to!(*self => self->And_0));
                        assert(decreases_to!(*self => children@[i as int]));
                    }
                    let mut parts = children[i].split_and();
                    let ghost added = parts@.map_values(|p: &Predicate| *p);
                    let ghost old_r = r@;
                    let ghost old_parts = parts@;
                    r.append(&mut parts);
                    proof {
                        assert(r@ =~= old_r + old_parts);
                        assert(r@.map_values(|p: &Predicate| *p) =~= before + added);
                        assert((before + added) + all_conjuncts(children@.skip(i + 1)) =~= before
                            + (added + all_conjuncts(children@.skip(i + 1))));
                    }
                    i = i + 1;
                }
                assert(children@.skip(i as int) =~= Seq::empty());
                assert(r@.map_values(|p: &Predicate| *p) =~= all_conjuncts(children@));
            },
            _ => {
                r.push(self);
                assert(r@.map_values(|p: &Predicate| *p) =~= seq![*self]);
            },
        }
        r
    }
}

/// Which partitions a query asks for.
#[derive(Debug)]
pub enum PartitionFilter {
    /// Those whose values meet a condition.
    Predicate(Predicate),
    /// Those that are enumerated, each of them once.
    PartitionSet { partitions: Vec<BinaryRow> },
}

/// The rows, each where it occurs first.
pub open spec fn first_occurrences(rows: Seq<Seq<Option<Seq<char>>>>) -> Seq<Seq<Option<Seq<char>>>>
    decreases rows.len(),
{
    if rows.len() == 0 {
        Seq::empty()
    } else {
        let before = first_occurrences(rows.drop_last());
        if before.contains(rows.last()) {
            before
        } else {
            before.push(rows.last())
        }
    }
}

impl PartitionFilter {
    /// No partition is enumerated twice.
    pub open spec fn wf(self) -> bool {
        match self {
            PartitionFilter::PartitionSet { partitions } => row_views(
                partitions@,
            ).no_duplicates(),
            PartitionFilter::Predicate(_) => true,
        }
    }

    /// The filter that enumerates the rows. What occurs again is left out.
    pub fn partition_set(rows: Vec<BinaryRow>) -> (r: PartitionFilter)
        ensures
            r.wf(),
            r matches PartitionFilter::PartitionSet { partitions } && row_views(partitions@)
                == first_occurrences(row_views(rows@)),
    {
        let ghost all = row_views(rows@);
        let mut partitions: Vec<BinaryRow> = Vec::new();
        let mut i: usize = 0;
        proof {
            assert(all.take(0) =~= Seq::empty());
            assert(row_views(partitions@) =~= Seq::empty());
        }
        while i < rows.len()
            invariant
                0 <= i <= rows@.len(),
                all == row_views(rows@),
                row_views(partitions@) == first_occurrences(all.take(i as int)),
            decreases rows@.len() - i,
        {
            let ghost before = row_views(partitions@);
            proof {
                assert(all.take(i + 1).drop_last() =~= all.take(i as int));
                assert(all.take(i + 1).last() == rows@[i as int]@);
            }
            if !holds_row(&partitions, &rows[i]) {
                partitions.push(rows[i].copy());
                assert(row_views(partitions@) =~= before.push(rows@[i as int]@));
            }
            i = i + 1;
        }
        proof {
            assert(all.take(i as int) =~= all);
            law_first_occurrences_are_the_rows(all);
        }
        PartitionFilter::PartitionSet { partitions }
    }
}

/// Whether one of the rows has the given values.
pub(crate) fn holds_row(rows: &Vec<BinaryRow>, row: &BinaryRow) -> (r: bool)
    ensures
        r == row_views(rows@).contains(row@),
{
    let mut i: usize = 0;
    while i < rows.len()
        invariant
            0 <= i <= rows@.len(),
            forall|j: int| 0 <= j < i ==> #[trigger] row_views(rows@)[j] != row@,
        decreases rows@.len() - i,
    {
        if rows[i].has_values_of(row) {
            assert(row_views(rows@)[i as int] == row@);
            return true;
        }
        i = i + 1;
    }
    false
}

/// The first occurrences are all the rows, each of them once.
pub proof fn law_first_occurrences_are_the_rows(rows: Seq<Seq<Option<Seq<char>>>>)
    ensures
        first_occurrences(rows).no_duplicates(),
        forall|row: Seq<Option<Seq<char>>>| #[trigger]
            first_occurrences(rows).contains(row) <==> rows.contains(row),
    decreases rows.len(),
{
    if rows.len() > 0 {
        let front = rows.drop_last();
        let before = first_occurrences(front);
        law_first_occurrences_are_the_rows(front);
        assert forall|row: Seq<Option<Seq<char>>>| #[trigger]
            first_occurrences(rows).contains(row) <==> rows.contains(row) by {
            if before.contains(row) {
                let i = choose|i: int| 0 <= i < before.len() && before[i] == row;
                assert(first_occurrences(rows)[i] == row);
                let k = choose|k: int| 0 <= k < front.len() && front[k] == row;
                assert(rows[k] == row);
            }
            if rows.contains(row) && !before.contains(row) {
                let k = choose|k: int| 0 <= k < rows.len() && rows[k] == row;
                if k < front.len() {
                    assert(front[k] == row);
                }
                assert(first_occurrences(rows) == before.push(row));
                assert(before.push(row)[before.len() as int] == row);
            }
            if first_occurrences(rows).contains(row) && !before.contains(row) {
                let i = choose|i: int|
                    0 <= i < first_occurrences(rows).len() && first_occurrences(rows)[i] == row;
                if i < before.len() {
                    assert(before[i] == row);
                }
                assert(row == rows[rows.len() - 1]);
            }
        }
    }
}

} // verus!
