//! Whether a row of partition values meets a predicate.
//!
//! A comparison with a null is neither true nor false, and what is neither stays so under
//! negation. Numbers come in their order, values of other types in the order of their characters.

use vstd::prelude::*;

use crate::integer::{decimal, integer_within, law_decimal_reads_back, read_integer};
use crate::model::{value_view, BinaryRow, DataType, Datum, TypeKind};
use crate::order::{law_text_order, law_text_order_is_total, text_before, text_lt};
use crate::predicate::{all_conjuncts, conjuncts, Predicate, PredicateOperator};
use crate::text::same_text;

verus! {

/// Whether both hold.
pub open spec fn both(a: Option<bool>, b: Option<bool>) -> Option<bool> {
    match (a, b) {
        (Some(x), Some(y)) => Some(x && y),
        (Some(false), None) => Some(false),
        (None, Some(false)) => Some(false),
        _ => None,
    }
}

/// Whether one of the two holds.
pub open spec fn either(a: Option<bool>, b: Option<bool>) -> Option<bool> {
    match (a, b) {
        (Some(x), Some(y)) => Some(x || y),
        (Some(true), None) => Some(true),
        (None, Some(true)) => Some(true),
        _ => None,
    }
}

/// Whether it does not hold.
pub open spec fn negated(a: Option<bool>) -> Option<bool> {
    match a {
        Some(holds) => Some(!holds),
        None => None,
    }
}

/// What the literals are.
pub open spec fn literal_views(literals: Seq<Datum>) -> Seq<Seq<char>> {
    literals.map_values(|d: Datum| d@)
}

/// Whether a value of a type comes before another one.
pub open spec fn precedes(kind: TypeKind, a: Seq<char>, b: Seq<char>) -> bool {
    match kind {
        TypeKind::Integer { min, max } => match (
            integer_within(a, min, max),
            integer_within(b, min, max),
        ) {
            (Some(x), Some(y)) => x < y,
            _ => false,
        },
        _ => text_lt(a, b),
    }
}

/// Whether a value stands to a literal as an operator says.
pub open spec fn compares(
    kind: TypeKind,
    value: Seq<char>,
    op: PredicateOperator,
    literal: Seq<char>,
) -> bool {
    match op {
        PredicateOperator::Eq => value == literal,
        PredicateOperator::NotEq => value != literal,
        PredicateOperator::Lt => precedes(kind, value, literal),
        PredicateOperator::LtEq => precedes(kind, value, literal) || value == literal,
        PredicateOperator::Gt => precedes(kind, literal, value),
        PredicateOperator::GtEq => precedes(kind, literal, value) || value == literal,
        _ => false,
    }
}

/// Whether a value meets a comparison.
pub open spec fn leaf_truth(
    kind: TypeKind,
    value: Option<Seq<char>>,
    op: PredicateOperator,
    literals: Seq<Seq<char>>,
) -> Option<bool> {
    match op {
        PredicateOperator::IsNull => Some(value is None),
        PredicateOperator::IsNotNull => Some(value is Some),
        PredicateOperator::In => match value {
            Some(value) => Some(literals.contains(value)),
            None => None,
        },
        PredicateOperator::NotIn => match value {
            Some(value) => Some(!literals.contains(value)),
            None => None,
        },
        _ => if value is Some && literals.len() > 0 {
            Some(compares(kind, value->0, op, literals[0]))
        } else {
            None
        },
    }
}

/// The value of a column; a column that the row does not have is null.
pub open spec fn column_value(row: Seq<Option<Seq<char>>>, index: int) -> Option<Seq<char>> {
    if 0 <= index < row.len() {
        row[index]
    } else {
        None
    }
}

/// Whether a row meets a predicate.
pub open spec fn truth(predicate: Predicate, row: Seq<Option<Seq<char>>>) -> Option<bool>
    decreases predicate,
{
    match predicate {
        Predicate::And(children) => all_hold(children@, row),
        Predicate::Or(children) => any_holds(children@, row),
        Predicate::Not(inner) => negated(truth(*inner, row)),
        Predicate::Leaf { index, data_type, op, literals, .. } => leaf_truth(
            data_type.kind,
            column_value(row, index as int),
            op,
            literal_views(literals@),
        ),
    }
}

/// Whether a row meets all predicates.
pub open spec fn all_hold(predicates: Seq<Predicate>, row: Seq<Option<Seq<char>>>) -> Option<bool>
    decreases predicates,
{
    if predicates.len() == 0 {
        Some(true)
    } else {
        both(truth(predicates[0], row), all_hold(predicates.drop_first(), row))
    }
}

/// Whether a row meets one of the predicates.
pub open spec fn any_holds(predicates: Seq<Predicate>, row: Seq<Option<Seq<char>>>) -> Option<bool>
    decreases predicates,
{
    if predicates.len() == 0 {
        Some(false)
    } else {
        either(truth(predicates[0], row), any_holds(predicates.drop_first(), row))
    }
}

fn and3(a: Option<bool>, b: Option<bool>) -> (r: Option<bool>)
    ensures
        r == both(a, b),
{
    match (a, b) {
        (Some(false), _) => Some(false),
        (_, Some(false)) => Some(false),
        (Some(_), Some(_)) => Some(true),
        _ => None,
    }
}

fn or3(a: Option<bool>, b: Option<bool>) -> (r: Option<bool>)
    ensures
        r == either(a, b),
{
    match (a, b) {
        (Some(true), _) => Some(true),
        (_, Some(true)) => Some(true),
        (Some(_), Some(_)) => Some(false),
        _ => None,
    }
}

/// Whether one of the literals is the value.
fn is_listed(value: &Datum, literals: &Vec<Datum>) -> (r: bool)
    ensures
        r == literal_views(literals@).contains(value@),
{
    let mut i: usize = 0;
    while i < literals.len()
        invariant
            0 <= i <= literals@.len(),
            forall|j: int| 0 <= j < i ==> #[trigger] literal_views(literals@)[j] != value@,
        decreases literals@.len() - i,
    {
        if same_text(literals[i].text.as_str(), value.text.as_str()) {
            assert(literal_views(literals@)[i as int] == value@);
            return true;
        }
        i = i + 1;
    }
    false
}

/// Whether a value of a type comes before another one.
fn comes_before(kind: TypeKind, a: &str, b: &str) -> (r: bool)
    ensures
        r == precedes(kind, a@, b@),
{
    match kind {
        TypeKind::Integer { min, max } => match (
            read_integer(a, min, max),
            read_integer(b, min, max),
        ) {
            (Some(x), Some(y)) => x < y,
            _ => false,
        },
        _ => text_before(a, b),
    }
}

fn compare_with(kind: TypeKind, value: &Datum, op: PredicateOperator, literal: &Datum) -> (r: bool)
    ensures
        r == compares(kind, value@, op, literal@),
{
    let value = value.text.as_str();
    let literal = literal.text.as_str();
    match op {
        PredicateOperator::Eq => same_text(value, literal),
        PredicateOperator::NotEq => !same_text(value, literal),
        PredicateOperator::Lt => comes_before(kind, value, literal),
        PredicateOperator::LtEq => comes_before(kind, value, literal) || same_text(value, literal),
        PredicateOperator::Gt => comes_before(kind, literal, value),
        PredicateOperator::GtEq => comes_before(kind, literal, value) || same_text(value, literal),
        _ => false,
    }
}

fn evaluate_leaf(
    kind: TypeKind,
    value: Option<&Datum>,
    op: PredicateOperator,
    literals: &Vec<Datum>,
) -> (r: Option<bool>)
    ensures
        r == leaf_truth(
            kind,
            match value {
                Some(datum) => Some(datum@),
                None => None,
            },
            op,
            literal_views(literals@),
        ),
{
    match op {
        PredicateOperator::IsNull => Some(value.is_none()),
        PredicateOperator::IsNotNull => Some(value.is_some()),
        PredicateOperator::In => match value {
            Some(value) => Some(is_listed(value, literals)),
            None => None,
        },
        PredicateOperator::NotIn => match value {
            Some(value) => Some(!is_listed(value, literals)),
            None => None,
        },
        _ => match value {
            Some(value) => if literals.len() > 0 {
                Some(compare_with(kind, value, op, &literals[0]))
            } else {
                None
            },
            None => None,
        },
    }
}

/// Decides whether a row meets a predicate; `None` where that is neither true nor false.
pub fn evaluate(predicate: &Predicate, row: &BinaryRow) -> (r: Option<bool>)
    ensures
        r == truth(*predicate, row@),
    decreases predicate,
{
    match predicate {
        Predicate::And(children) => {
            let mut r = Some(true);
            let mut i: usize = children.len();
            assert(children@.skip(i as int) =~= Seq::empty());
            while i > 0
                invariant
                    0 <= i <= children@.len(),
                    *predicate == Predicate::And(*children),
                    r == all_hold(children@.skip(i as int), row@),
                decreases i,
            {
                i = i - 1;
                proof {
                    assert(children@.skip(i as int)[0] == children@[i as int]);
                    assert(children@.skip(i as int).drop_first() =~= children@.skip(i + 1));
                    assert(decreases_to!(*children => children@[i as int]));
                    assert(decreases_to!(*predicate => predicate->And_0));
                    assert(decreases_to!(*predicate => children@[i as int]));
                }
                r = and3(evaluate(&children[i], row), r);
            }
            assert(children@.skip(0) =~= children@);
            r
        },
        Predicate::Or(children) => {
            let mut r = Some(false);
            let mut i: usize = children.len();
            assert(children@.skip(i as int) =~= Seq::empty());
            while i > 0
                invariant
                    0 <= i <= children@.len(),
                    *predicate == Predicate::Or(*children),
                    r == any_holds(children@.skip(i as int), row@),
                decreases i,
            {
                i = i - 1;
                proof {
                    assert(children@.skip(i as int)[0] == children@[i as int]);
                    assert(children@.skip(i as int).drop_first() =~= children@.skip(i + 1));
                    assert(decreases_to!(*children => children@[i as int]));
                    assert(decreases_to!(*predicate => predicate->Or_0));
                    assert(decreases_to!(*predicate => children@[i as int]));
                }
                r = or3(evaluate(&children[i], row), r);
            }
            assert(children@.skip(0) =~= children@);
            r
        },
        Predicate::Not(inner) => match evaluate(inner, row) {
            Some(holds) => Some(!holds),
            None => None,
        },
        Predicate::Leaf { index, data_type, op, literals, .. } => {
            let value = if *index < row.values.len() {
                assert(row@[*index as int] == value_view(row.values@[*index as int]));
                row.values[*index].as_ref()
            } else {
                None
            };
            evaluate_leaf(data_type.kind, value, *op, literals)
        },
    }
}

/// A row that meets a predicate meets each of its conjuncts.
pub proof fn law_conjuncts_hold(predicate: Predicate, row: Seq<Option<Seq<char>>>, i: int)
    requires
        truth(predicate, row) == Some(true),
        0 <= i < conjuncts(predicate).len(),
    ensures
        truth(conjuncts(predicate)[i], row) == Some(true),
    decreases predicate,
{
    match predicate {
        Predicate::And(children) => {
            lemma_all_conjuncts_hold(children@, row, i);
        },
        _ => {},
    }
}

proof fn lemma_all_conjuncts_hold(predicates: Seq<Predicate>, row: Seq<Option<Seq<char>>>, i: int)
    requires
        all_hold(predicates, row) == Some(true),
        0 <= i < all_conjuncts(predicates).len(),
    ensures
        truth(all_conjuncts(predicates)[i], row) == Some(true),
    decreases predicates,
{
    assert(predicates.len() > 0);
    let first = conjuncts(predicates[0]);
    if i < first.len() {
        law_conjuncts_hold(predicates[0], row, i);
    } else {
        lemma_all_conjuncts_hold(predicates.drop_first(), row, i - first.len());
    }
}

/// How a value compares with a literal. Equality is that of the texts; the other comparisons go by
/// one order, and each by both the order and the equality as its name says.
pub proof fn law_comparisons_agree(
    column: String,
    index: usize,
    data_type: DataType,
    literals: Vec<Datum>,
    row: Seq<Option<Seq<char>>>,
    a: Seq<char>,
    b: Seq<char>,
)
    requires
        index < row.len(),
        row[index as int] == Some(a),
        literals@.len() > 0,
        literals@[0]@ == b,
    ensures
        ({
            let compared = |op: PredicateOperator|
                truth(Predicate::Leaf { column, index, data_type, op, literals }, row);
            &&& compared(PredicateOperator::Eq) == Some(a == b)
            &&& compared(PredicateOperator::NotEq) == Some(a != b)
            &&& compared(PredicateOperator::Lt) is Some
            &&& compared(PredicateOperator::Gt) is Some
            &&& compared(PredicateOperator::LtEq) == Some(
                compared(PredicateOperator::Lt)->0 || a == b,
            )
            &&& compared(PredicateOperator::GtEq) == Some(
                compared(PredicateOperator::Gt)->0 || a == b,
            )
        }),
{
    assert(literal_views(literals@)[0] == b);
}

/// Values that are not numbers come in the order of their characters, whichever of the two is the
/// literal: of any two, one comes before the other or they are the same.
pub proof fn law_texts_are_compared_by_characters(
    column: String,
    index: usize,
    data_type: DataType,
    literals: Vec<Datum>,
    row: Seq<Option<Seq<char>>>,
    a: Seq<char>,
    b: Seq<char>,
)
    requires
        index < row.len(),
        row[index as int] == Some(a),
        literals@.len() > 0,
        literals@[0]@ == b,
        !(data_type.kind is Integer),
    ensures
        ({
            let compared = |op: PredicateOperator|
                truth(Predicate::Leaf { column, index, data_type, op, literals }, row);
            &&& compared(PredicateOperator::Lt) == Some(
                exists|k: int|
                    0 <= k <= a.len() && k < b.len() && #[trigger] a.take(k) == b.take(k) && (k
                        == a.len() || a[k] < b[k]),
            )
            &&& compared(PredicateOperator::Gt) == Some(
                exists|k: int|
                    0 <= k <= b.len() && k < a.len() && #[trigger] b.take(k) == a.take(k) && (k
                        == b.len() || b[k] < a[k]),
            )
            &&& compared(PredicateOperator::LtEq) == negated(compared(PredicateOperator::Gt))
            &&& compared(PredicateOperator::GtEq) == negated(compared(PredicateOperator::Lt))
        }),
{
    assert(literal_views(literals@)[0] == b);
    law_text_order(a, b);
    law_text_order(b, a);
    law_text_order_is_total(a, b, a);
    law_text_order_is_total(b, a, b);
}

/// Numbers are compared as numbers.
pub proof fn law_numbers_are_compared_as_numbers(
    column: String,
    index: usize,
    data_type: DataType,
    literals: Vec<Datum>,
    row: Seq<Option<Seq<char>>>,
    min: i64,
    max: i64,
    x: int,
    y: int,
)
    requires
        data_type.kind == (TypeKind::Integer { min, max }),
        min <= x <= max,
        min <= y <= max,
        index < row.len(),
        row[index as int] == Some(decimal(x)),
        literals@.len() > 0,
        literals@[0]@ == decimal(y),
    ensures
        ({
            let compared = |op: PredicateOperator|
                truth(Predicate::Leaf { column, index, data_type, op, literals }, row);
            &&& compared(PredicateOperator::Eq) == Some(x == y)
            &&& compared(PredicateOperator::NotEq) == Some(x != y)
            &&& compared(PredicateOperator::Lt) == Some(x < y)
            &&& compared(PredicateOperator::LtEq) == Some(x <= y)
            &&& compared(PredicateOperator::Gt) == Some(x > y)
            &&& compared(PredicateOperator::GtEq) == Some(x >= y)
        }),
{
    assert(literal_views(literals@)[0] == decimal(y));
    law_decimal_reads_back(x);
    law_decimal_reads_back(y);
}

/// A value is in a list exactly where it is one of the literals.
pub proof fn law_lists(
    column: String,
    index: usize,
    data_type: DataType,
    literals: Vec<Datum>,
    row: Seq<Option<Seq<char>>>,
    a: Seq<char>,
)
    requires
        index < row.len(),
        row[index as int] == Some(a),
    ensures
        ({
            let compared = |op: PredicateOperator|
                truth(Predicate::Leaf { column, index, data_type, op, literals }, row);
            &&& compared(PredicateOperator::In) == Some(
                exists|i: int| 0 <= i < literals@.len() && (#[trigger] literals@[i])@ == a,
            )
            &&& compared(PredicateOperator::NotIn) == negated(compared(PredicateOperator::In))
            &&& compared(PredicateOperator::IsNull) == Some(false)
            &&& compared(PredicateOperator::IsNotNull) == Some(true)
        }),
{
    let views = literal_views(literals@);
    if views.contains(a) {
        let i = choose|i: int| 0 <= i < views.len() && views[i] == a;
        assert(literals@[i]@ == a);
    }
    if exists|i: int| 0 <= i < literals@.len() && (#[trigger] literals@[i])@ == a {
        let i = choose|i: int| 0 <= i < literals@.len() && (#[trigger] literals@[i])@ == a;
        assert(views[i] == a);
    }
}

/// Of a null only that it is one can be said; every comparison with it is neither true nor false.
pub proof fn law_nulls(
    column: String,
    index: usize,
    data_type: DataType,
    op: PredicateOperator,
    literals: Vec<Datum>,
    row: Seq<Option<Seq<char>>>,
)
    requires
        index >= row.len() || row[index as int] is None,
    ensures
        truth(Predicate::Leaf { column, index, data_type, op, literals }, row) == match op {
            PredicateOperator::IsNull => Some(true),
            PredicateOperator::IsNotNull => Some(false),
            _ => None::<bool>,
        },
{
}

proof fn lemma_all_hold(predicates: Seq<Predicate>, row: Seq<Option<Seq<char>>>)
    ensures
        all_hold(predicates, row) == Some(true) <==> forall|i: int|
            0 <= i < predicates.len() ==> truth(#[trigger] predicates[i], row) == Some(true),
        all_hold(predicates, row) == Some(false) <==> exists|i: int|
            0 <= i < predicates.len() && truth(#[trigger] predicates[i], row) == Some(false),
    decreases predicates.len(),
{
    if predicates.len() > 0 {
        let rest = predicates.drop_first();
        lemma_all_hold(rest, row);
        assert forall|i: int| 0 <= i < rest.len() implies rest[i] == predicates[i + 1] by {}
        assert forall|i: int| 1 <= i < predicates.len() implies #[trigger] predicates[i]
            == rest[i - 1] by {}
        let a = truth(predicates[0], row);
        let b = all_hold(rest, row);
        if b == Some(false) {
            let i = choose|i: int|
                0 <= i < rest.len() && truth(#[trigger] rest[i], row) == Some(false);
            assert(predicates[i + 1] == rest[i]);
        }
        if exists|i: int|
            0 <= i < predicates.len() && truth(#[trigger] predicates[i], row) == Some(false) {
            let i = choose|i: int|
                0 <= i < predicates.len() && truth(#[trigger] predicates[i], row) == Some(false);
            if i > 0 {
                assert(truth(rest[i - 1], row) == Some(false));
            }
        }
        if forall|i: int|
            0 <= i < predicates.len() ==> truth(#[trigger] predicates[i], row) == Some(true) {
            assert forall|i: int| 0 <= i < rest.len() implies truth(#[trigger] rest[i], row)
                == Some(true) by {
                assert(rest[i] == predicates[i + 1]);
            }
        }
        match (a, b) {
            (Some(x), Some(y)) => {
                assert(all_hold(predicates, row) == Some(x && y));
            },
            _ => {},
        }
    }
}

proof fn lemma_any_holds(predicates: Seq<Predicate>, row: Seq<Option<Seq<char>>>)
    ensures
        any_holds(predicates, row) == Some(false) <==> forall|i: int|
            0 <= i < predicates.len() ==> truth(#[trigger] predicates[i], row) == Some(false),
        any_holds(predicates, row) == Some(true) <==> exists|i: int|
            0 <= i < predicates.len() && truth(#[trigger] predicates[i], row) == Some(true),
    decreases predicates.len(),
{
    if predicates.len() > 0 {
        let rest = predicates.drop_first();
        lemma_any_holds(rest, row);
        assert forall|i: int| 0 <= i < rest.len() implies rest[i] == predicates[i + 1] by {}
        assert forall|i: int| 1 <= i < predicates.len() implies #[trigger] predicates[i]
            == rest[i - 1] by {}
        let a = truth(predicates[0], row);
        let b = any_holds(rest, row);
        if b == Some(true) {
            let i = choose|i: int|
                0 <= i < rest.len() && truth(#[trigger] rest[i], row) == Some(true);
            assert(predicates[i + 1] == rest[i]);
        }
        if exists|i: int|
            0 <= i < predicates.len() && truth(#[trigger] predicates[i], row) == Some(true) {
            let i = choose|i: int|
                0 <= i < predicates.len() && truth(#[trigger] predicates[i], row) == Some(true);
            if i > 0 {
                assert(truth(rest[i - 1], row) == Some(true));
            }
        }
        if forall|i: int|
            0 <= i < predicates.len() ==> truth(#[trigger] predicates[i], row) == Some(false) {
            assert forall|i: int| 0 <= i < rest.len() implies truth(#[trigger] rest[i], row)
                == Some(false) by {
                assert(rest[i] == predicates[i + 1]);
            }
        }
        match (a, b) {
            (Some(x), Some(y)) => {
                assert(any_holds(predicates, row) == Some(x || y));
            },
            _ => {},
        }
    }
}

/// A conjunction holds exactly where all its parts hold, and fails exactly where one fails; a
/// disjunction holds exactly where one of its parts holds, and fails exactly where all fail; a
/// negation holds where its part fails, and fails where it holds.
pub proof fn law_connectives(
    children: Vec<Predicate>,
    inner: Box<Predicate>,
    row: Seq<Option<Seq<char>>>,
)
    ensures
        truth(Predicate::And(children), row) == Some(true) <==> forall|i: int|
            0 <= i < children@.len() ==> truth(#[trigger] children@[i], row) == Some(true),
        truth(Predicate::And(children), row) == Some(false) <==> exists|i: int|
            0 <= i < children@.len() && truth(#[trigger] children@[i], row) == Some(false),
        truth(Predicate::Or(children), row) == Some(false) <==> forall|i: int|
            0 <= i < children@.len() ==> truth(#[trigger] children@[i], row) == Some(false),
        truth(Predicate::Or(children), row) == Some(true) <==> exists|i: int|
            0 <= i < children@.len() && truth(#[trigger] children@[i], row) == Some(true),
        truth(Predicate::Not(inner), row) == Some(true) <==> truth(*inner, row) == Some(false),
        truth(Predicate::Not(inner), row) == Some(false) <==> truth(*inner, row) == Some(true),
{
    lemma_all_hold(children@, row);
    lemma_any_holds(children@, row);
    if let Some(holds) = truth(*inner, row) {
        assert(truth(Predicate::Not(inner), row) == Some(!holds));
    }
}

} // verus!
