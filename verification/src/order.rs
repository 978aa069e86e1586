//! The order of texts, and sorting by it.

use vstd::prelude::*;

use crate::text::chars_of;

verus! {

/// Whether `a` stands before `b`: at the first character that differs `a` has the smaller one,
/// or `a` is a proper beginning of `b`.
pub open spec fn text_lt(a: Seq<char>, b: Seq<char>) -> bool
    decreases a.len(),
{
    if b.len() == 0 {
        false
    } else if a.len() == 0 {
        true
    } else if a.first() != b.first() {
        a.first() < b.first()
    } else {
        text_lt(a.drop_first(), b.drop_first())
    }
}

/// The order of pairs of texts: by the first, then by the second.
pub open spec fn key_lt(a: (Seq<char>, Seq<char>), b: (Seq<char>, Seq<char>)) -> bool {
    text_lt(a.0, b.0) || (a.0 == b.0 && text_lt(a.1, b.1))
}

pub(crate) proof fn lemma_text_lt_irreflexive(a: Seq<char>)
    ensures
        !text_lt(a, a),
    decreases a.len(),
{
    if a.len() > 0 {
        lemma_text_lt_irreflexive(a.drop_first());
    }
}

pub(crate) proof fn lemma_text_lt_transitive(a: Seq<char>, b: Seq<char>, c: Seq<char>)
    requires
        text_lt(a, b),
        text_lt(b, c),
    ensures
        text_lt(a, c),
    decreases a.len(),
{
    if a.len() > 0 && a.first() == b.first() && b.first() == c.first() {
        lemma_text_lt_transitive(a.drop_first(), b.drop_first(), c.drop_first());
    }
}

pub(crate) proof fn lemma_text_lt_total(a: Seq<char>, b: Seq<char>)
    ensures
        text_lt(a, b) || text_lt(b, a) || a == b,
    decreases a.len(),
{
    if a.len() > 0 && b.len() > 0 && a.first() == b.first() {
        lemma_text_lt_total(a.drop_first(), b.drop_first());
        if a.drop_first() == b.drop_first() {
            assert(a == seq![a.first()] + a.drop_first());
            assert(b == seq![b.first()] + b.drop_first());
        }
    } else if a.len() == 0 && b.len() == 0 {
        assert(a == b);
    }
}

pub(crate) proof fn lemma_key_lt_irreflexive(a: (Seq<char>, Seq<char>))
    ensures
        !key_lt(a, a),
{
    lemma_text_lt_irreflexive(a.0);
    lemma_text_lt_irreflexive(a.1);
}

pub(crate) proof fn lemma_key_lt_transitive(
    a: (Seq<char>, Seq<char>),
    b: (Seq<char>, Seq<char>),
    c: (Seq<char>, Seq<char>),
)
    requires
        key_lt(a, b),
        key_lt(b, c),
    ensures
        key_lt(a, c),
{
    if text_lt(a.0, b.0) && text_lt(b.0, c.0) {
        lemma_text_lt_transitive(a.0, b.0, c.0);
    }
    if text_lt(a.1, b.1) && text_lt(b.1, c.1) {
        lemma_text_lt_transitive(a.1, b.1, c.1);
    }
}

pub(crate) proof fn lemma_key_lt_total(a: (Seq<char>, Seq<char>), b: (Seq<char>, Seq<char>))
    ensures
        key_lt(a, b) || key_lt(b, a) || a == b,
{
    lemma_text_lt_total(a.0, b.0);
    lemma_text_lt_total(a.1, b.1);
}

/// Whether `a` stands before `b`.
pub(crate) fn text_before(a: &str, b: &str) -> (r: bool)
    ensures
        r == text_lt(a@, b@),
{
    let x = chars_of(a);
    let y = chars_of(b);
    let mut i: usize = 0;
    assert(a@.skip(0) == a@);
    assert(b@.skip(0) == b@);
    while i < x.len() && i < y.len()
        invariant
            0 <= i <= x@.len(),
            i <= y@.len(),
            x@ == a@,
            y@ == b@,
            text_lt(a@, b@) == text_lt(a@.skip(i as int), b@.skip(i as int)),
        decreases x@.len() - i,
    {
        assert(a@.skip(i as int).first() == x@[i as int]);
        assert(b@.skip(i as int).first() == y@[i as int]);
        if x[i] != y[i] {
            return x[i] < y[i];
        }
        assert(a@.skip(i as int).drop_first() == a@.skip(i + 1));
        assert(b@.skip(i as int).drop_first() == b@.skip(i + 1));
        i = i + 1;
    }
    i < y.len()
}

/// Something that is sorted by a pair of texts.
pub trait Ordered {
    /// The pair of texts by which the value is sorted.
    spec fn order_key(&self) -> (Seq<char>, Seq<char>);

    /// Whether the value stands before `other`.
    fn precedes(&self, other: &Self) -> (r: bool)
        ensures
            r == key_lt(self.order_key(), other.order_key()),
    ;
}

/// The keys of the values.
pub open spec fn order_keys<T: Ordered>(values: Seq<T>) -> Seq<(Seq<char>, Seq<char>)> {
    values.map_values(|v: T| v.order_key())
}

/// Whether `positions` lists the positions of `keys` in ascending order of the keys, and equal
/// keys in the order in which they stand.
pub open spec fn ascending(positions: Seq<int>, keys: Seq<(Seq<char>, Seq<char>)>) -> bool {
    &&& positions.len() == keys.len()
    &&& forall|i: int| 0 <= i < positions.len() ==> 0 <= #[trigger] positions[i] < keys.len()
    &&& forall|i: int, j: int|
        0 <= i < j < positions.len() ==> {
            ||| key_lt(keys[#[trigger] positions[i]], keys[#[trigger] positions[j]])
            ||| keys[positions[i]] == keys[positions[j]] && positions[i] < positions[j]
        }
}

/// The values at `positions`, in that order.
pub open spec fn picked<T>(values: Seq<T>, positions: Seq<int>) -> Seq<T> {
    positions.map_values(|i: int| values[i])
}

/// Sorts by key; values with equal keys keep their order.
pub(crate) fn sort_by_key<T: Ordered>(values: Vec<T>) -> (r: Vec<T>)
    ensures
        exists|positions: Seq<int>|
            #[trigger] ascending(positions, order_keys(values@)) && r@ == picked(values@, positions),
{
    let ghost all = values@;
    let ghost keys = order_keys(all);
    let mut rest = values;
    let mut sorted: Vec<T> = Vec::new();
    let ghost mut positions: Seq<int> = Seq::empty();
    while rest.len() > 0
        invariant
            rest@.len() <= all.len(),
            rest@ == all.take(rest@.len() as int),
            keys == order_keys(all),
            positions.len() == all.len() - rest@.len(),
            sorted@ == picked(all, positions),
            forall|i: int|
                0 <= i < positions.len() ==> rest@.len() <= #[trigger] positions[i] < all.len(),
            forall|i: int, j: int|
                0 <= i < j < positions.len() ==> {
                    ||| key_lt(keys[#[trigger] positions[i]], keys[#[trigger] positions[j]])
                    ||| keys[positions[i]] == keys[positions[j]] && positions[i] < positions[j]
                },
        decreases rest@.len(),
    {
        let ghost before = rest@;
        let value = rest.pop().unwrap();
        let ghost at = rest@.len() as int;
        assert(value == all[at]);
        assert(rest@ == all.take(at));
        let mut to: usize = 0;
        let mut end: usize = sorted.len();
        while to < end
            invariant
                0 <= to <= end <= sorted@.len(),
                0 <= at < all.len(),
                value == all[at],
                keys == order_keys(all),
                sorted@ == picked(all, positions),
                forall|i: int| 0 <= i < positions.len() ==> 0 <= #[trigger] positions[i] < all.len(),
                forall|i: int, j: int|
                    0 <= i < j < positions.len() ==> {
                        ||| key_lt(keys[#[trigger] positions[i]], keys[#[trigger] positions[j]])
                        ||| keys[positions[i]] == keys[positions[j]] && positions[i] < positions[j]
                    },
                forall|i: int| 0 <= i < to ==> key_lt(keys[#[trigger] positions[i]], keys[at]),
                forall|i: int|
                    end <= i < sorted@.len() ==> !key_lt(keys[#[trigger] positions[i]], keys[at]),
            decreases end - to,
        {
            let middle = to + (end - to) / 2;
            proof {
                let m = middle as int;
                assert(sorted@[m] == all[positions[m]]);
                assert forall|i: int| 0 <= i < m && key_lt(keys[positions[m]], keys[at]) implies key_lt(
                    keys[#[trigger] positions[i]],
                    keys[at],
                ) by {
                    if key_lt(keys[positions[i]], keys[positions[m]]) {
                        lemma_key_lt_transitive(keys[positions[i]], keys[positions[m]], keys[at]);
                    }
                }
                assert forall|i: int|
                    m < i < sorted@.len() && !key_lt(keys[positions[m]], keys[at]) implies !key_lt(
                    keys[#[trigger] positions[i]],
                    keys[at],
                ) by {
                    if key_lt(keys[positions[m]], keys[positions[i]]) && key_lt(
                        keys[positions[i]],
                        keys[at],
                    ) {
                        lemma_key_lt_transitive(keys[positions[m]], keys[positions[i]], keys[at]);
                    }
                }
            }
            if sorted[middle].precedes(&value) {
                to = middle + 1;
            } else {
                end = middle;
            }
        }
        let ghost old_positions = positions;
        proof {
            if to < sorted@.len() {
                assert(sorted@[to as int] == all[positions[to as int]]);
                lemma_key_lt_total(keys[positions[to as int]], keys[at]);
            }
            assert forall|i: int| to <= i < positions.len() implies {
                ||| key_lt(keys[at], keys[#[trigger] positions[i]])
                ||| keys[at] == keys[positions[i]]
            } by {
                if i > to {
                    if key_lt(keys[at], keys[positions[to as int]]) && key_lt(
                        keys[positions[to as int]],
                        keys[positions[i]],
                    ) {
                        lemma_key_lt_transitive(
                            keys[at],
                            keys[positions[to as int]],
                            keys[positions[i]],
                        );
                    }
                }
            }
            positions = positions.insert(to as int, at);
        }
        sorted.insert(to, value);
        proof {
            assert(sorted@ == picked(all, positions));
            assert forall|i: int, j: int| 0 <= i < j < positions.len() implies {
                ||| key_lt(keys[#[trigger] positions[i]], keys[#[trigger] positions[j]])
                ||| keys[positions[i]] == keys[positions[j]] && positions[i] < positions[j]
            } by {
                let a = if i < to { i } else { i - 1 };
                let b = if j < to { j } else { j - 1 };
                if i != to {
                    assert(positions[i] == old_positions[a]);
                }
                if j != to {
                    assert(positions[j] == old_positions[b]);
                }
            }
        }
    }
    assert(ascending(positions, keys));
    sorted
}

/// Whether the value at one position comes before the value at another one.
spec fn comes_first(keys: Seq<(Seq<char>, Seq<char>)>, a: int, b: int) -> bool {
    key_lt(keys[a], keys[b]) || (keys[a] == keys[b] && a < b)
}

proof fn lemma_comes_first(keys: Seq<(Seq<char>, Seq<char>)>, a: int, b: int)
    requires
        comes_first(keys, a, b),
    ensures
        !comes_first(keys, b, a),
        a != b,
{
    lemma_key_lt_irreflexive(keys[a]);
    if key_lt(keys[a], keys[b]) && key_lt(keys[b], keys[a]) {
        lemma_key_lt_transitive(keys[a], keys[b], keys[a]);
    }
}

/// Sorting drops nothing and doubles nothing: every position is listed, and listed once.
pub proof fn law_sorting_keeps_everything(positions: Seq<int>, keys: Seq<(Seq<char>, Seq<char>)>)
    requires
        ascending(positions, keys),
    ensures
        positions.no_duplicates(),
        forall|k: int| 0 <= k < keys.len() ==> #[trigger] positions.contains(k),
{
    assert forall|i: int, j: int| 0 <= i < j < positions.len() implies positions[i]
        != positions[j] by {
        lemma_comes_first(keys, positions[i], positions[j]);
    }
    positions.unique_seq_to_set();
    vstd::set_lib::lemma_int_range(0, keys.len() as int);
    let all = vstd::set_lib::set_int_range(0, keys.len() as int);
    assert(positions.to_set().subset_of(all));
    vstd::set_lib::lemma_subset_equality(positions.to_set(), all);
    assert forall|k: int| 0 <= k < keys.len() implies #[trigger] positions.contains(k) by {
        assert(all.contains(k));
        assert(positions.to_set().contains(k));
    }
}

proof fn lemma_ascending_agree(
    a: Seq<int>,
    b: Seq<int>,
    keys: Seq<(Seq<char>, Seq<char>)>,
    upto: int,
)
    requires
        ascending(a, keys),
        ascending(b, keys),
        0 <= upto <= keys.len(),
    ensures
        a.take(upto) == b.take(upto),
    decreases upto,
{
    if upto > 0 {
        let i = upto - 1;
        lemma_ascending_agree(a, b, keys, i);
        assert forall|k: int| 0 <= k < i implies a[k] == b[k] by {
            assert(a.take(i)[k] == b.take(i)[k]);
        }
        law_sorting_keeps_everything(a, keys);
        law_sorting_keeps_everything(b, keys);
        if a[i] != b[i] {
            assert(b.contains(a[i]));
            let j = choose|j: int| 0 <= j < b.len() && b[j] == a[i];
            assert(a.contains(b[i]));
            let k = choose|k: int| 0 <= k < a.len() && a[k] == b[i];
            assert(j > i) by {
                if j < i {
                    assert(a[j] == a[i]);
                }
            }
            assert(k > i) by {
                if k < i {
                    assert(b[k] == b[i]);
                }
            }
            assert(comes_first(keys, b[i], b[j]));
            assert(comes_first(keys, a[i], a[k]));
            lemma_comes_first(keys, b[i], a[i]);
        }
        assert(a.take(upto) =~= b.take(upto));
    }
}

/// There is one way to sort.
pub proof fn law_sorting_is_unique(a: Seq<int>, b: Seq<int>, keys: Seq<(Seq<char>, Seq<char>)>)
    requires
        ascending(a, keys),
        ascending(b, keys),
    ensures
        a == b,
{
    lemma_ascending_agree(a, b, keys, keys.len() as int);
    assert(a.take(keys.len() as int) =~= a);
    assert(b.take(keys.len() as int) =~= b);
}

/// A text stands before another one exactly where, behind a beginning that both share, it ends
/// while the other one goes on, or has the smaller character.
pub proof fn law_text_order(a: Seq<char>, b: Seq<char>)
    ensures
        text_lt(a, b) <==> exists|k: int|
            0 <= k <= a.len() && k < b.len() && #[trigger] a.take(k) == b.take(k) && (k == a.len()
                || a[k] < b[k]),
    decreases a.len(),
{
    if a.len() > 0 && b.len() > 0 && a[0] == b[0] {
        let x = a.drop_first();
        let y = b.drop_first();
        law_text_order(x, y);
        if text_lt(x, y) {
            let k = choose|k: int|
                0 <= k <= x.len() && k < y.len() && #[trigger] x.take(k) == y.take(k) && (k
                    == x.len() || x[k] < y[k]);
            assert forall|i: int| 0 <= i < k + 1 implies a[i] == b[i] by {
                if i > 0 {
                    assert(x.take(k)[i - 1] == y.take(k)[i - 1]);
                }
            }
            assert(a.take(k + 1) =~= b.take(k + 1));
        }
        if exists|k: int|
            0 <= k <= a.len() && k < b.len() && #[trigger] a.take(k) == b.take(k) && (k == a.len()
                || a[k] < b[k]) {
            let k = choose|k: int|
                0 <= k <= a.len() && k < b.len() && #[trigger] a.take(k) == b.take(k) && (k
                    == a.len() || a[k] < b[k]);
            assert(k > 0);
            assert forall|i: int| 0 <= i < k - 1 implies x[i] == y[i] by {
                assert(a.take(k)[i + 1] == b.take(k)[i + 1]);
            }
            assert(x.take(k - 1) =~= y.take(k - 1));
        }
    } else {
        if text_lt(a, b) {
            assert(a.take(0) =~= b.take(0));
        }
        if exists|k: int|
            0 <= k <= a.len() && k < b.len() && #[trigger] a.take(k) == b.take(k) && (k == a.len()
                || a[k] < b[k]) {
            let k = choose|k: int|
                0 <= k <= a.len() && k < b.len() && #[trigger] a.take(k) == b.take(k) && (k
                    == a.len() || a[k] < b[k]);
            if k > 0 {
                assert(a.take(k)[0] == b.take(k)[0]);
            }
        }
    }
}

/// The order of texts is a strict total order.
pub proof fn law_text_order_is_total(a: Seq<char>, b: Seq<char>, c: Seq<char>)
    ensures
        !text_lt(a, a),
        text_lt(a, b) && text_lt(b, c) ==> text_lt(a, c),
        text_lt(a, b) || a == b || text_lt(b, a),
        !(text_lt(a, b) && text_lt(b, a)),
{
    lemma_text_lt_irreflexive(a);
    lemma_text_lt_total(a, b);
    if text_lt(a, b) && text_lt(b, c) {
        lemma_text_lt_transitive(a, b, c);
    }
    if text_lt(a, b) && text_lt(b, a) {
        lemma_text_lt_transitive(a, b, a);
    }
}

/// Pairs are ordered by their first texts, and by their second ones where the first are the same.
pub proof fn law_pair_order(a: (Seq<char>, Seq<char>), b: (Seq<char>, Seq<char>))
    ensures
        a.0 != b.0 ==> key_lt(a, b) == text_lt(a.0, b.0),
        a.0 == b.0 ==> key_lt(a, b) == text_lt(a.1, b.1),
{
    lemma_text_lt_irreflexive(a.0);
}

/// Behind sorting, no value stands before one with a smaller key, and values with one key stand in
/// the order in which they stood.
pub proof fn law_sorting_orders<T>(
    values: Seq<T>,
    positions: Seq<int>,
    keys: Seq<(Seq<char>, Seq<char>)>,
    i: int,
    j: int,
)
    requires
        ascending(positions, keys),
        values.len() == keys.len(),
        0 <= i < j < positions.len(),
    ensures
        picked(values, positions).len() == values.len(),
        picked(values, positions)[i] == values[positions[i]],
        0 <= positions[i] < values.len(),
        !key_lt(keys[positions[j]], keys[positions[i]]),
        keys[positions[i]] == keys[positions[j]] ==> positions[i] < positions[j],
{
    let a = keys[positions[i]];
    let b = keys[positions[j]];
    lemma_key_lt_irreflexive(a);
    if key_lt(a, b) && key_lt(b, a) {
        lemma_key_lt_transitive(a, b, a);
    }
}

} // verus!
