//! Consecutive numbers for labels, in the order in which the labels first occur.

use vstd::prelude::*;

verus! {

/// Place `k` holds a label that no earlier place holds.
pub open spec fn is_first(labels: Seq<usize>, k: int) -> bool {
    forall|j: int| 0 <= j < k ==> labels[j] != labels[k]
}

/// How many distinct labels other than 0 the first `k` places hold.
pub open spec fn count_new(labels: Seq<usize>, k: int) -> nat
    decreases k,
{
    if k <= 0 {
        0
    } else {
        count_new(labels, k - 1) + if labels[k - 1] != 0 && is_first(labels, k - 1) {
            1nat
        } else {
            0nat
        }
    }
}

/// The first place that holds the label of place `i`.
pub open spec fn first_place(labels: Seq<usize>, i: int) -> int {
    choose|k: int| 0 <= k <= i && labels[k] == labels[i] && is_first(labels, k)
}

/// The number of the label at place `i`: 0 for label 0, and for any other
/// label its rank among the distinct labels other than 0, counted from 1 in
/// the order of their first places.
#[verifier::opaque]
pub open spec fn number_at(labels: Seq<usize>, i: int) -> usize {
    if labels[i] == 0 {
        0
    } else {
        count_new(labels, first_place(labels, i) + 1) as usize
    }
}

/// Every label replaced by its number.
pub open spec fn renumbered(labels: Seq<usize>) -> Seq<usize> {
    Seq::new(labels.len(), |i: int| number_at(labels, i))
}

/// The count of new labels grows with the places counted, by at most one a place.
pub proof fn lemma_count_new_grows(labels: Seq<usize>, k: int, m: int)
    requires
        0 <= k <= m,
    ensures
        count_new(labels, k) <= count_new(labels, m) <= count_new(labels, k) + (m - k),
        count_new(labels, k) <= k,
    decreases m,
{
    if k < m {
        lemma_count_new_grows(labels, k, m - 1);
    } else if k > 0 {
        lemma_count_new_grows(labels, k - 1, k - 1);
        lemma_count_new_grows(labels, 0, k - 1);
    }
}

/// Every label has a first place, at or before each place that holds it.
pub proof fn lemma_first_place(labels: Seq<usize>, i: int)
    requires
        0 <= i < labels.len(),
    ensures
        0 <= first_place(labels, i) <= i,
        labels[first_place(labels, i)] == labels[i],
        is_first(labels, first_place(labels, i)),
    decreases i,
{
    if is_first(labels, i) {
        assert(0 <= i <= i && labels[i] == labels[i] && is_first(labels, i));
    } else {
        let j = choose|j: int| 0 <= j < i && labels[j] == labels[i];
        lemma_first_place(labels, j);
        let k = first_place(labels, j);
        assert(0 <= k <= i && labels[k] == labels[i] && is_first(labels, k));
    }
}

/// Places with the same label have the same first place.
pub proof fn lemma_first_place_of_label(labels: Seq<usize>, i: int, j: int)
    requires
        0 <= i < labels.len(),
        0 <= j < labels.len(),
        labels[i] == labels[j],
    ensures
        first_place(labels, i) == first_place(labels, j),
{
    lemma_first_place(labels, i);
    lemma_first_place(labels, j);
}

/// A label other than 0 gets a number from 1 up to the count of distinct
/// labels other than 0.
pub proof fn lemma_number_range(labels: Seq<usize>, i: int)
    requires
        0 <= i < labels.len(),
        labels.len() <= usize::MAX,
        labels[i] != 0,
    ensures
        number_at(labels, i) == count_new(labels, first_place(labels, i) + 1),
        1 <= number_at(labels, i) <= count_new(labels, labels.len() as int),
{
    reveal(number_at);
    lemma_first_place(labels, i);
    let k = first_place(labels, i);
    lemma_count_new_grows(labels, 0, k + 1);
    lemma_count_new_grows(labels, k + 1, labels.len() as int);
}

/// Numbering tells labels apart exactly as the labels themselves do, and
/// gives 0 to label 0 only.
pub proof fn lemma_numbers_tell_apart(labels: Seq<usize>, i: int, j: int)
    requires
        0 <= i < labels.len(),
        0 <= j < labels.len(),
        labels.len() <= usize::MAX,
    ensures
        number_at(labels, i) == number_at(labels, j) <==> labels[i] == labels[j],
        number_at(labels, i) == 0 <==> labels[i] == 0,
{
    reveal(number_at);
    lemma_first_place(labels, i);
    lemma_first_place(labels, j);
    if labels[i] != 0 {
        lemma_number_range(labels, i);
    }
    if labels[j] != 0 {
        lemma_number_range(labels, j);
    }
    if labels[i] == labels[j] {
        lemma_first_place_of_label(labels, i, j);
    } else if labels[i] != 0 && labels[j] != 0 {
        let a = first_place(labels, i);
        let b = first_place(labels, j);
        if a < b {
            lemma_count_new_grows(labels, a + 1, b);
        } else {
            assert(a != b);
            lemma_count_new_grows(labels, b + 1, a);
        }
    }
}

/// One of the first `upto` places holds the label `v`.
pub open spec fn seen(labels: Seq<usize>, upto: int, v: usize) -> bool {
    exists|j: int| 0 <= j < upto && #[trigger] labels[j] == v
}

/// The table holds the number of the label at place `j`.
pub open spec fn number_known(table: Map<usize, usize>, labels: Seq<usize>, j: int) -> bool {
    table.contains_key(labels[j]) && table[labels[j]] == number_at(labels, j)
}

/// The table holds the number of each label among the first `upto` places,
/// and no other label.
pub open spec fn numbers_known(table: Map<usize, usize>, labels: Seq<usize>, upto: int) -> bool {
    &&& forall|j: int| 0 <= j < upto ==> #[trigger] number_known(table, labels, j)
    &&& forall|v: usize| #[trigger] table.contains_key(v) ==> seen(labels, upto, v)
}

/// A label seen among the first places is seen among more of them.
proof fn lemma_seen_later(labels: Seq<usize>, upto: int, v: usize)
    requires
        0 <= upto < labels.len(),
        seen(labels, upto, v) || labels[upto] == v,
    ensures
        seen(labels, upto + 1, v),
{
    if seen(labels, upto, v) {
        let j = choose|j: int| 0 <= j < upto && #[trigger] labels[j] == v;
        assert(0 <= j < upto + 1 && labels[j] == v);
    } else {
        assert(0 <= upto < upto + 1 && labels[upto] == v);
    }
}

/// Places with the same label have the same number.
pub(crate) proof fn lemma_number_of_label(labels: Seq<usize>, i: int, j: int)
    requires
        0 <= i < labels.len(),
        0 <= j < labels.len(),
        labels[i] == labels[j],
    ensures
        number_at(labels, i) == number_at(labels, j),
{
    reveal(number_at);
    lemma_first_place_of_label(labels, i, j);
}

/// A place whose label no earlier place holds is the first place of its label.
pub(crate) proof fn lemma_first_place_is_first(labels: Seq<usize>, k: int)
    requires
        0 <= k < labels.len(),
        is_first(labels, k),
    ensures
        first_place(labels, k) == k,
{
    lemma_first_place(labels, k);
}

/// A label that the table lacks is new: it gets the next number.
pub(crate) proof fn lemma_number_new(table: Map<usize, usize>, labels: Seq<usize>, k: int)
    requires
        0 <= k < labels.len(),
        labels.len() <= usize::MAX,
        numbers_known(table, labels, k),
        labels[k] != 0,
        !table.contains_key(labels[k]),
    ensures
        count_new(labels, k) < labels.len(),
        count_new(labels, k + 1) == count_new(labels, k) + 1,
        numbers_known(
            table.insert(labels[k], (count_new(labels, k) + 1) as usize),
            labels,
            k + 1,
        ),
{
    reveal(number_at);
    lemma_count_new_grows(labels, 0, k);
    assert(is_first(labels, k)) by {
        assert forall|j: int| 0 <= j < k implies labels[j] != labels[k] by {
            assert(number_known(table, labels, j));
        }
    }
    lemma_first_place_is_first(labels, k);
    assert(number_at(labels, k) == (count_new(labels, k) + 1) as usize);
    let next = table.insert(labels[k], (count_new(labels, k) + 1) as usize);
    assert forall|j: int| 0 <= j < k + 1 implies #[trigger] number_known(next, labels, j) by {
        if j < k {
            assert(number_known(table, labels, j));
        }
    }
    assert forall|v: usize| #[trigger] next.contains_key(v) implies seen(labels, k + 1, v) by {
        if v != labels[k] {
            assert(table.contains_key(v));
        }
        lemma_seen_later(labels, k, v);
    }
}

/// A label that the table holds was seen before: its number stands.
pub(crate) proof fn lemma_number_seen(table: Map<usize, usize>, labels: Seq<usize>, k: int)
    requires
        0 <= k < labels.len(),
        numbers_known(table, labels, k),
        table.contains_key(labels[k]),
    ensures
        count_new(labels, k + 1) == count_new(labels, k),
        numbers_known(table, labels, k + 1),
        table[labels[k]] == number_at(labels, k),
{
    assert(seen(labels, k, labels[k]));
    let i = choose|j: int| 0 <= j < k && #[trigger] labels[j] == labels[k];
    assert(number_known(table, labels, i));
    lemma_number_of_label(labels, i, k);
    assert(!is_first(labels, k));
    assert(number_known(table, labels, k));
    assert forall|v: usize| #[trigger] table.contains_key(v) implies seen(labels, k + 1, v) by {
        lemma_seen_later(labels, k, v);
    }
}

/// Label 0 keeps the number 0.
pub(crate) proof fn lemma_number_zero(table: Map<usize, usize>, labels: Seq<usize>, k: int)
    requires
        0 <= k < labels.len(),
        numbers_known(table, labels, k),
        labels[k] == 0,
    ensures
        count_new(labels, k + 1) == count_new(labels, k),
        numbers_known(table.insert(0, 0), labels, k + 1),
{
    reveal(number_at);
    let next = table.insert(0, 0);
    assert forall|j: int| 0 <= j < k + 1 implies #[trigger] number_known(next, labels, j) by {
        if j < k {
            assert(number_known(table, labels, j));
        }
    }
    assert forall|v: usize| #[trigger] next.contains_key(v) implies seen(labels, k + 1, v) by {
        if v != 0 {
            assert(table.contains_key(v));
        }
        lemma_seen_later(labels, k, v);
    }
}

/// `greatest` bounds every cell and, unless it is 0, is the state of a cell.
pub open spec fn is_greatest(cells: Seq<usize>, greatest: usize) -> bool {
    &&& forall|i: int| 0 <= i < cells.len() ==> #[trigger] cells[i] <= greatest
    &&& greatest == 0 || exists|i: int| 0 <= i < cells.len() && #[trigger] cells[i] == greatest
}

/// Where the first `k` places hold a label other than 0, one of them is the
/// first place of the label that was numbered last.
pub(crate) proof fn lemma_last_number(labels: Seq<usize>, k: int)
    requires
        0 <= k <= labels.len(),
        labels.len() <= usize::MAX,
        count_new(labels, k) > 0,
    ensures
        exists|i: int|
            0 <= i < k && #[trigger] number_at(labels, i) == count_new(labels, k),
    decreases k,
{
    reveal(number_at);
    if labels[k - 1] != 0 && is_first(labels, k - 1) {
        lemma_first_place_is_first(labels, k - 1);
        lemma_count_new_grows(labels, 0, k);
        assert(number_at(labels, k - 1) == count_new(labels, k));
    } else {
        lemma_last_number(labels, k - 1);
        let i = choose|i: int|
            0 <= i < k - 1 && #[trigger] number_at(labels, i) == count_new(labels, k - 1);
        assert(number_at(labels, i) == count_new(labels, k));
    }
}

/// The numbers have no gaps: every number from 1 up to the count of
/// distinct labels other than 0 is the number of some place.
pub proof fn lemma_numbers_have_no_gaps(labels: Seq<usize>, k: int, v: int)
    requires
        0 <= k <= labels.len(),
        labels.len() <= usize::MAX,
        1 <= v <= count_new(labels, k),
    ensures
        exists|i: int| 0 <= i < k && #[trigger] number_at(labels, i) == v,
    decreases k,
{
    if count_new(labels, k - 1) >= v {
        lemma_numbers_have_no_gaps(labels, k - 1, v);
        let i = choose|i: int| 0 <= i < k - 1 && #[trigger] number_at(labels, i) == v;
        assert(0 <= i < k && number_at(labels, i) == v);
    } else {
        lemma_last_number(labels, k);
    }
}

/// The greatest number is the count of distinct labels other than 0.
pub proof fn lemma_greatest_number(labels: Seq<usize>)
    requires
        labels.len() <= usize::MAX,
    ensures
        count_new(labels, labels.len() as int) <= labels.len(),
        is_greatest(renumbered(labels), count_new(labels, labels.len() as int) as usize),
{
    reveal(number_at);
    let n = labels.len() as int;
    let numbers = renumbered(labels);
    lemma_count_new_grows(labels, 0, n);
    assert forall|i: int| 0 <= i < numbers.len() implies #[trigger] numbers[i] <= count_new(
        labels,
        n,
    ) by {
        if labels[i] != 0 {
            lemma_number_range(labels, i);
        }
    }
    if count_new(labels, n) > 0 {
        lemma_last_number(labels, n);
        let i = choose|i: int|
            0 <= i < n && #[trigger] number_at(labels, i) == count_new(labels, n);
        assert(numbers[i] == count_new(labels, n));
    }
}

/// Two labellings group the places alike: they tell the same places apart,
/// and they give label 0 to the same places.
pub open spec fn same_grouping(first: Seq<usize>, second: Seq<usize>) -> bool {
    &&& first.len() == second.len()
    &&& forall|i: int, j: int|
        0 <= i < first.len() && 0 <= j < first.len() ==> ((#[trigger] first[i]
            == #[trigger] first[j]) <==> (second[i] == second[j]))
    &&& forall|i: int| 0 <= i < first.len() ==> ((#[trigger] first[i] == 0) <==> (second[i] == 0))
}

/// Labellings that group the places alike have their new labels at the same places.
proof fn lemma_same_firsts(first: Seq<usize>, second: Seq<usize>, k: int)
    requires
        same_grouping(first, second),
        0 <= k < first.len(),
    ensures
        is_first(first, k) <==> is_first(second, k),
{
    if !is_first(first, k) {
        let j = choose|j: int| 0 <= j < k && first[j] == first[k];
        assert(second[j] == second[k]);
    }
    if !is_first(second, k) {
        let j = choose|j: int| 0 <= j < k && second[j] == second[k];
        assert(first[j] == first[k]);
    }
}

/// Labellings that group the places alike count the same new labels.
proof fn lemma_same_counts(first: Seq<usize>, second: Seq<usize>, k: int)
    requires
        same_grouping(first, second),
        0 <= k <= first.len(),
    ensures
        count_new(first, k) == count_new(second, k),
    decreases k,
{
    if k > 0 {
        lemma_same_counts(first, second, k - 1);
        lemma_same_firsts(first, second, k - 1);
        assert((first[k - 1] == 0) <==> (second[k - 1] == 0));
    }
}

/// The numbers of a labelling depend on how it groups the places, not on
/// the labels it uses: labellings that group the places alike are numbered alike.
pub proof fn lemma_numbers_ignore_representatives(first: Seq<usize>, second: Seq<usize>)
    requires
        same_grouping(first, second),
    ensures
        renumbered(first) == renumbered(second),
{
    reveal(number_at);
    assert forall|i: int| 0 <= i < first.len() implies number_at(first, i) == number_at(
        second,
        i,
    ) by {
        lemma_first_place(first, i);
        lemma_first_place(second, i);
        let p = first_place(first, i);
        let q = first_place(second, i);
        lemma_same_firsts(first, second, p);
        lemma_same_firsts(first, second, q);
        assert(second[p] == second[i]);
        assert(first[q] == first[i]);
        assert(p == q);
        lemma_same_counts(first, second, p + 1);
        assert((first[i] == 0) <==> (second[i] == 0));
    }
    assert(renumbered(first) =~= renumbered(second));
}

/// Numbering labels that are numbers already changes nothing.
pub proof fn lemma_renumbering_is_idempotent(labels: Seq<usize>)
    requires
        labels.len() <= usize::MAX,
    ensures
        renumbered(renumbered(labels)) == renumbered(labels),
{
    let numbers = renumbered(labels);
    assert forall|i: int, j: int| 0 <= i < labels.len() && 0 <= j < labels.len() implies ((
    #[trigger] labels[i] == #[trigger] labels[j]) <==> (numbers[i] == numbers[j])) by {
        lemma_numbers_tell_apart(labels, i, j);
    }
    assert forall|i: int| 0 <= i < labels.len() implies ((#[trigger] labels[i] == 0) <==> (
    numbers[i] == 0)) by {
        lemma_numbers_tell_apart(labels, i, i);
    }
    lemma_numbers_ignore_representatives(labels, numbers);
}

} // verus!
