//! Sequences of outcomes, taken together.

use vstd::prelude::*;

verus! {

/// All values, where each outcome is one; the first error otherwise.
pub open spec fn all_ok<T, E>(outcomes: Seq<Result<T, E>>) -> Result<Seq<T>, E>
    decreases outcomes.len(),
{
    if outcomes.len() == 0 {
        Ok(Seq::empty())
    } else {
        match (all_ok(outcomes.drop_last()), outcomes.last()) {
            (Err(error), _) => Err(error),
            (Ok(_), Err(error)) => Err(error),
            (Ok(values), Ok(value)) => Ok(values.push(value)),
        }
    }
}

/// The values that are there, in order, where no outcome is an error; the first error otherwise.
pub open spec fn present_ok<T, E>(outcomes: Seq<Result<Option<T>, E>>) -> Result<Seq<T>, E>
    decreases outcomes.len(),
{
    if outcomes.len() == 0 {
        Ok(Seq::empty())
    } else {
        match (present_ok(outcomes.drop_last()), outcomes.last()) {
            (Err(error), _) => Err(error),
            (Ok(_), Err(error)) => Err(error),
            (Ok(values), Ok(Some(value))) => Ok(values.push(value)),
            (Ok(values), Ok(None)) => Ok(values),
        }
    }
}

/// All values, where each one is there.
pub open spec fn all_some<T>(values: Seq<Option<T>>) -> Option<Seq<T>> {
    if forall|i: int| 0 <= i < values.len() ==> #[trigger] values[i] is Some {
        Some(values.map_values(|v: Option<T>| v->0))
    } else {
        None
    }
}

pub(crate) proof fn lemma_all_ok_step<T, E>(outcomes: Seq<Result<T, E>>, at: int)
    requires
        0 <= at < outcomes.len(),
    ensures
        all_ok(outcomes.take(at + 1)) == match (all_ok(outcomes.take(at)), outcomes[at]) {
            (Err(error), _) => Err(error),
            (Ok(_), Err(error)) => Err(error),
            (Ok(values), Ok(value)) => Ok(values.push(value)),
        },
{
    assert(outcomes.take(at + 1).drop_last() =~= outcomes.take(at));
}

/// An error stays, whatever follows it.
pub(crate) proof fn lemma_all_ok_settled<T, E>(outcomes: Seq<Result<T, E>>, upto: int)
    requires
        0 <= upto <= outcomes.len(),
        all_ok(outcomes.take(upto)) is Err,
    ensures
        all_ok(outcomes) == all_ok(outcomes.take(upto)),
    decreases outcomes.len(),
{
    if upto < outcomes.len() {
        assert(outcomes.drop_last().take(upto) =~= outcomes.take(upto));
        lemma_all_ok_settled(outcomes.drop_last(), upto);
    } else {
        assert(outcomes.take(upto) =~= outcomes);
    }
}

/// Where there is no error, every value is the one of its outcome.
pub(crate) proof fn lemma_all_ok_values<T, E>(outcomes: Seq<Result<T, E>>)
    ensures
        all_ok(outcomes) matches Ok(values) ==> {
            &&& values.len() == outcomes.len()
            &&& forall|i: int|
                0 <= i < values.len() ==> #[trigger] outcomes[i] == Ok::<T, E>(values[i])
        },
    decreases outcomes.len(),
{
    if outcomes.len() > 0 {
        lemma_all_ok_values(outcomes.drop_last());
        if let Ok(values) = all_ok(outcomes) {
            assert forall|i: int| 0 <= i < values.len() implies #[trigger] outcomes[i] == Ok::<
                T,
                E,
            >(values[i]) by {
                if i < outcomes.len() - 1 {
                    assert(outcomes[i] == outcomes.drop_last()[i]);
                }
            }
        }
    }
}

/// Where every outcome is a value, the values together are the outcome.
pub(crate) proof fn lemma_all_ok_is<T, E>(outcomes: Seq<Result<T, E>>, values: Seq<T>)
    requires
        values.len() == outcomes.len(),
        forall|i: int| 0 <= i < values.len() ==> #[trigger] outcomes[i] == Ok::<T, E>(values[i]),
    ensures
        all_ok(outcomes) == Ok::<Seq<T>, E>(values),
    decreases outcomes.len(),
{
    if outcomes.len() > 0 {
        assert forall|i: int| 0 <= i < values.drop_last().len() implies #[trigger] outcomes.drop_last()[i]
            == Ok::<T, E>(values.drop_last()[i]) by {
            assert(outcomes[i] == Ok::<T, E>(values[i]));
        }
        lemma_all_ok_is(outcomes.drop_last(), values.drop_last());
        assert(outcomes[values.len() - 1] == Ok::<T, E>(values[values.len() - 1]));
        assert(values.drop_last().push(values.last()) =~= values);
    } else {
        assert(values =~= Seq::empty());
    }
}

pub(crate) proof fn lemma_present_ok_step<T, E>(outcomes: Seq<Result<Option<T>, E>>, at: int)
    requires
        0 <= at < outcomes.len(),
    ensures
        present_ok(outcomes.take(at + 1)) == match (present_ok(outcomes.take(at)), outcomes[at]) {
            (Err(error), _) => Err(error),
            (Ok(_), Err(error)) => Err(error),
            (Ok(values), Ok(Some(value))) => Ok(values.push(value)),
            (Ok(values), Ok(None)) => Ok(values),
        },
{
    assert(outcomes.take(at + 1).drop_last() =~= outcomes.take(at));
}

/// An error stays, whatever follows it.
pub(crate) proof fn lemma_present_ok_settled<T, E>(outcomes: Seq<Result<Option<T>, E>>, upto: int)
    requires
        0 <= upto <= outcomes.len(),
        present_ok(outcomes.take(upto)) is Err,
    ensures
        present_ok(outcomes) == present_ok(outcomes.take(upto)),
    decreases outcomes.len(),
{
    if upto < outcomes.len() {
        assert(outcomes.drop_last().take(upto) =~= outcomes.take(upto));
        lemma_present_ok_settled(outcomes.drop_last(), upto);
    } else {
        assert(outcomes.take(upto) =~= outcomes);
    }
}

/// Whether `indices` are, in order, the places of those outcomes that are values.
pub open spec fn places_of_values<T, E>(
    indices: Seq<int>,
    outcomes: Seq<Result<Option<T>, E>>,
    values: Seq<T>,
) -> bool {
    &&& indices.len() == values.len()
    &&& forall|j: int|
        0 <= j < indices.len() ==> 0 <= #[trigger] indices[j] < outcomes.len()
            && outcomes[indices[j]] == Ok::<Option<T>, E>(Some(values[j]))
    &&& forall|j: int, k: int|
        0 <= j < k < indices.len() ==> #[trigger] indices[j] < #[trigger] indices[k]
    &&& forall|i: int|
        0 <= i < outcomes.len() && !indices.contains(i) ==> #[trigger] outcomes[i] == Ok::<
            Option<T>,
            E,
        >(None)
}

/// The values that are there stand at rising places, and no other place has one.
pub(crate) proof fn lemma_present_ok_places<T, E>(
    outcomes: Seq<Result<Option<T>, E>>,
    values: Seq<T>,
) -> (indices: Seq<int>)
    requires
        present_ok(outcomes) == Ok::<Seq<T>, E>(values),
    ensures
        places_of_values(indices, outcomes, values),
    decreases outcomes.len(),
{
    if outcomes.len() == 0 {
        Seq::empty()
    } else {
        let front = outcomes.drop_last();
        let last = outcomes.len() - 1;
        let before = present_ok(front)->Ok_0;
        let indices = lemma_present_ok_places(front, before);
        assert forall|j: int| 0 <= j < indices.len() implies 0 <= #[trigger] indices[j] < last
            && outcomes[indices[j]] == Ok::<Option<T>, E>(Some(before[j])) by {
            assert(front[indices[j]] == outcomes[indices[j]]);
        }
        assert forall|i: int| 0 <= i < last && !indices.contains(i) implies #[trigger] outcomes[i]
            == Ok::<Option<T>, E>(None) by {
            assert(front[i] == outcomes[i]);
        }
        if outcomes[last] == Ok::<Option<T>, E>(None) {
            indices
        } else {
            let all = indices.push(last);
            assert(all[indices.len() as int] == last);
            assert forall|i: int|
                0 <= i < outcomes.len() && !all.contains(i) implies #[trigger] outcomes[i] == Ok::<
                Option<T>,
                E,
            >(None) by {
                assert(i != last);
                if indices.contains(i) {
                    let j = choose|j: int| 0 <= j < indices.len() && indices[j] == i;
                    assert(all[j] == i);
                }
            }
            all
        }
    }
}

/// Outcomes are a value together exactly where each is one, and then each at its place; otherwise
/// they are the error that comes first.
pub proof fn law_all_or_the_first_error<T, E>(outcomes: Seq<Result<T, E>>)
    ensures
        match all_ok(outcomes) {
            Ok(values) => values.len() == outcomes.len() && forall|i: int|
                0 <= i < outcomes.len() ==> #[trigger] outcomes[i] == Ok::<T, E>(values[i]),
            Err(error) => exists|i: int|
                0 <= i < outcomes.len() && #[trigger] outcomes[i] == Err::<T, E>(error) && forall|
                    j: int,
                |
                    0 <= j < i ==> #[trigger] outcomes[j] is Ok,
        },
    decreases outcomes.len(),
{
    lemma_all_ok_values(outcomes);
    if all_ok(outcomes) is Err {
        let front = outcomes.drop_last();
        law_all_or_the_first_error(front);
        if all_ok(front) is Err {
            let error = all_ok(front)->Err_0;
            let i = choose|i: int|
                0 <= i < front.len() && #[trigger] front[i] == Err::<T, E>(error) && forall|
                    j: int,
                |
                    0 <= j < i ==> #[trigger] front[j] is Ok;
            assert(outcomes[i] == Err::<T, E>(error));
            assert forall|j: int| 0 <= j < i implies #[trigger] outcomes[j] is Ok by {
                assert(front[j] is Ok);
            }
        } else {
            let i = outcomes.len() - 1;
            assert forall|j: int| 0 <= j < i implies #[trigger] outcomes[j] is Ok by {
                assert(front[j] is Ok);
            }
            assert(outcomes[i] is Err);
        }
    }
}

/// What is there, where no outcome is an error, is all that is there, in its order.
pub proof fn law_all_that_is_there<T, E>(a: Seq<Result<Option<T>, E>>, outcome: Result<Option<T>, E>)
    ensures
        present_ok(a.push(outcome)) == match (present_ok(a), outcome) {
            (Err(error), _) => Err(error),
            (Ok(_), Err(error)) => Err(error),
            (Ok(values), Ok(None)) => Ok(values),
            (Ok(values), Ok(Some(value))) => Ok(values.push(value)),
        },
        present_ok(Seq::<Result<Option<T>, E>>::empty()) == Ok::<Seq<T>, E>(Seq::empty()),
{
    assert(a.push(outcome).drop_last() =~= a);
}

} // verus!
