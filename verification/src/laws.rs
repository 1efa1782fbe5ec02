//! What holds of the sorted form: it holds the elements of the input, it is
//! in order where the comparison is an order, and under a partial order it
//! exists where any two elements can be ordered, and only there.

use vstd::prelude::*;
use crate::engine::{duplicate, duplicates_are_exact, sort_result, sorted, sorts_copy};
use crate::failure::MergeResult;
use crate::merge::merged;
use crate::order::{
    comparable,
    obeys_order,
    partial_order,
    precedes,
    relation,
    total_order,
    Relation,
};

verus! {

/// Every element of `s` is not after any later one.
pub open spec fn chain<T: PartialOrd>(s: Seq<T>) -> bool {
    forall|i: int, j: int| 0 <= i < j < s.len() ==> precedes(#[trigger] s[i], #[trigger] s[j])
}

/// No element of `s` is greater than its right neighbour.
pub open spec fn non_decreasing<T: PartialOrd>(s: Seq<T>) -> bool {
    forall|i: int|
        0 <= i < s.len() - 1 ==> relation(#[trigger] s[i], s[i + 1]) != Relation::Greater
}

/// `x` is not after any element of `s`.
pub open spec fn bounds<T: PartialOrd>(x: T, s: Seq<T>) -> bool {
    forall|k: int| 0 <= k < s.len() ==> precedes(x, #[trigger] s[k])
}

proof fn lemma_first_and_rest<T>(s: Seq<T>)
    requires
        s.len() > 0,
    ensures
        s.to_multiset() == s.drop_first().to_multiset().insert(s[0]),
{
    broadcast use vstd::seq_lib::group_to_multiset_ensures;

    assert(s =~= seq![s[0]] + s.drop_first());
    vstd::seq_lib::lemma_multiset_commutative(seq![s[0]], s.drop_first());
    assert(seq![s[0]] =~= Seq::<T>::empty().push(s[0]));
    assert(Seq::<T>::empty().to_multiset().len() == 0);
    assert(s.to_multiset() =~= s.drop_first().to_multiset().insert(s[0]));
}

/// A merge holds the elements of its two runs, each as often as they do.
pub proof fn lemma_merged_permutes<T: PartialOrd>(left: Seq<T>, right: Seq<T>)
    requires
        merged(left, right) is Some,
    ensures
        merged(left, right).unwrap().to_multiset() == left.to_multiset().add(
            right.to_multiset(),
        ),
    decreases left.len() + right.len(),
{
    broadcast use vstd::seq_lib::group_to_multiset_ensures;

    let run = merged(left, right).unwrap();
    if left.len() == 0 {
        assert(left.to_multiset().len() == 0);
        assert(run.to_multiset() =~= left.to_multiset().add(right.to_multiset()));
    } else if right.len() == 0 {
        assert(right.to_multiset().len() == 0);
        assert(run.to_multiset() =~= left.to_multiset().add(right.to_multiset()));
    } else {
        lemma_first_and_rest(left);
        lemma_first_and_rest(right);
        match relation(left[0], right[0]) {
            Relation::Less => {
                let rest = merged(left.drop_first(), right).unwrap();
                lemma_merged_permutes(left.drop_first(), right);
                assert(run.drop_first() =~= rest);
                lemma_first_and_rest(run);
                assert(run.to_multiset() =~= left.to_multiset().add(right.to_multiset()));
            },
            Relation::Greater => {
                let rest = merged(left, right.drop_first()).unwrap();
                lemma_merged_permutes(left, right.drop_first());
                assert(run.drop_first() =~= rest);
                lemma_first_and_rest(run);
                assert(run.to_multiset() =~= left.to_multiset().add(right.to_multiset()));
            },
            Relation::Equal => {
                let rest = merged(left.drop_first(), right.drop_first()).unwrap();
                lemma_merged_permutes(left.drop_first(), right.drop_first());
                assert(run.drop_first().drop_first() =~= rest);
                lemma_first_and_rest(run);
                lemma_first_and_rest(run.drop_first());
                assert(run.to_multiset() =~= left.to_multiset().add(right.to_multiset()));
            },
            Relation::Incomparable => {},
        }
    }
}

/// The sorted form holds the elements of the input, each as often as the
/// input does.
pub proof fn lemma_sorted_permutes<T: PartialOrd>(s: Seq<T>)
    requires
        sorted(s) is Some,
    ensures
        sorted(s).unwrap().to_multiset() == s.to_multiset(),
    decreases s.len(),
{
    if s.len() > 1 {
        let mid = (s.len() / 2) as int;
        let left = sorted(s.take(mid)).unwrap();
        let right = sorted(s.skip(mid)).unwrap();
        lemma_sorted_permutes(s.take(mid));
        lemma_sorted_permutes(s.skip(mid));
        lemma_merged_permutes(left, right);
        assert(s.take(mid) + s.skip(mid) =~= s);
        vstd::seq_lib::lemma_multiset_commutative(s.take(mid), s.skip(mid));
    }
}

/// What a merge holds comes from one of its two runs.
proof fn lemma_merged_elements<T: PartialOrd>(left: Seq<T>, right: Seq<T>, k: int)
    requires
        merged(left, right) is Some,
        0 <= k < merged(left, right).unwrap().len(),
    ensures
        left.contains(merged(left, right).unwrap()[k]) || right.contains(
            merged(left, right).unwrap()[k],
        ),
{
    broadcast use vstd::seq_lib::group_to_multiset_ensures;

    let run = merged(left, right).unwrap();
    lemma_merged_permutes(left, right);
    assert(run.contains(run[k]));
    assert(run.to_multiset().count(run[k]) > 0);
}

/// What is not after any element of two runs is not after any element of
/// their merge.
proof fn lemma_bounds_merged<T: PartialOrd>(x: T, left: Seq<T>, right: Seq<T>)
    requires
        merged(left, right) is Some,
        bounds(x, left),
        bounds(x, right),
    ensures
        bounds(x, merged(left, right).unwrap()),
{
    let run = merged(left, right).unwrap();
    assert forall|k: int| 0 <= k < run.len() implies precedes(x, #[trigger] run[k]) by {
        lemma_merged_elements(left, right, k);
        if left.contains(run[k]) {
            let a = choose|a: int| 0 <= a < left.len() && left[a] == run[k];
            assert(precedes(x, left[a]));
        } else {
            let b = choose|b: int| 0 <= b < right.len() && right[b] == run[k];
            assert(precedes(x, right[b]));
        }
    }
}

/// In a chain the first element is not after any other, and the others are
/// a chain.
pub proof fn lemma_chain_rest<T: PartialOrd>(s: Seq<T>)
    requires
        chain(s),
        s.len() > 0,
    ensures
        chain(s.drop_first()),
        bounds(s[0], s.drop_first()),
{
    let rest = s.drop_first();
    assert forall|i: int, j: int| 0 <= i < j < rest.len() implies precedes(
        #[trigger] rest[i],
        #[trigger] rest[j],
    ) by {
        assert(precedes(s[i + 1], s[j + 1]));
    }
    assert forall|k: int| 0 <= k < rest.len() implies precedes(s[0], #[trigger] rest[k]) by {
        assert(precedes(s[0], s[k + 1]));
    }
}

proof fn lemma_chain_prepend<T: PartialOrd>(x: T, s: Seq<T>)
    requires
        chain(s),
        bounds(x, s),
    ensures
        chain(seq![x] + s),
{
    let whole = seq![x] + s;
    assert forall|i: int, j: int| 0 <= i < j < whole.len() implies precedes(
        #[trigger] whole[i],
        #[trigger] whole[j],
    ) by {
        if i == 0 {
            assert(precedes(x, s[j - 1]));
        } else {
            assert(precedes(s[i - 1], s[j - 1]));
        }
    }
}

/// What is not after `y`, while `y` is not after any element of `s`, is not
/// after any element of `s` either.
proof fn lemma_bounds_through<T: PartialOrd>(x: T, y: T, s: Seq<T>)
    requires
        partial_order::<T>(),
        precedes(x, y),
        bounds(y, s),
    ensures
        bounds(x, s),
{
    assert forall|k: int| 0 <= k < s.len() implies precedes(x, #[trigger] s[k]) by {
        assert(precedes(y, s[k]));
    }
}

/// Under a partial order the merge of two chains is a chain.
pub proof fn lemma_merged_chain<T: PartialOrd>(left: Seq<T>, right: Seq<T>)
    requires
        partial_order::<T>(),
        chain(left),
        chain(right),
        merged(left, right) is Some,
    ensures
        chain(merged(left, right).unwrap()),
    decreases left.len() + right.len(),
{
    let run = merged(left, right).unwrap();
    if left.len() > 0 && right.len() > 0 {
        let l = left[0];
        let r = right[0];
        lemma_chain_rest(left);
        lemma_chain_rest(right);
        match relation(l, r) {
            Relation::Less => {
                let rest = merged(left.drop_first(), right).unwrap();
                lemma_merged_chain(left.drop_first(), right);
                assert(precedes(l, r));
                lemma_bounds_through(l, r, right.drop_first());
                assert(bounds(l, right)) by {
                    assert forall|k: int| 0 <= k < right.len() implies precedes(
                        l,
                        #[trigger] right[k],
                    ) by {
                        if k > 0 {
                            assert(precedes(l, right.drop_first()[k - 1]));
                        }
                    }
                }
                lemma_bounds_merged(l, left.drop_first(), right);
                lemma_chain_prepend(l, rest);
            },
            Relation::Greater => {
                let rest = merged(left, right.drop_first()).unwrap();
                lemma_merged_chain(left, right.drop_first());
                assert(relation(r, l) == Relation::Less);
                assert(precedes(r, l));
                lemma_bounds_through(r, l, left.drop_first());
                assert(bounds(r, left)) by {
                    assert forall|k: int| 0 <= k < left.len() implies precedes(
                        r,
                        #[trigger] left[k],
                    ) by {
                        if k > 0 {
                            assert(precedes(r, left.drop_first()[k - 1]));
                        }
                    }
                }
                lemma_bounds_merged(r, left, right.drop_first());
                lemma_chain_prepend(r, rest);
            },
            Relation::Equal => {
                let rest = merged(left.drop_first(), right.drop_first()).unwrap();
                lemma_merged_chain(left.drop_first(), right.drop_first());
                assert(relation(r, l) == Relation::Equal);
                assert(precedes(l, r));
                assert(precedes(r, l));
                lemma_bounds_through(l, r, right.drop_first());
                lemma_bounds_through(r, l, left.drop_first());
                lemma_bounds_merged(l, left.drop_first(), right.drop_first());
                lemma_bounds_merged(r, left.drop_first(), right.drop_first());
                lemma_chain_prepend(r, rest);
                assert(bounds(l, seq![r] + rest)) by {
                    assert forall|k: int| 0 <= k < (seq![r] + rest).len() implies precedes(
                        l,
                        #[trigger] (seq![r] + rest)[k],
                    ) by {
                        if k > 0 {
                            assert(precedes(l, rest[k - 1]));
                        }
                    }
                }
                lemma_chain_prepend(l, seq![r] + rest);
                assert(run =~= seq![l] + (seq![r] + rest));
            },
            Relation::Incomparable => {},
        }
    }
}

/// Under a partial order the sorted form is a chain.
pub proof fn lemma_sorted_chain<T: PartialOrd>(s: Seq<T>)
    requires
        partial_order::<T>(),
        sorted(s) is Some,
    ensures
        chain(sorted(s).unwrap()),
    decreases s.len(),
{
    if s.len() > 1 {
        let mid = (s.len() / 2) as int;
        lemma_sorted_chain(s.take(mid));
        lemma_sorted_chain(s.skip(mid));
        lemma_merged_chain(sorted(s.take(mid)).unwrap(), sorted(s.skip(mid)).unwrap());
    }
}

/// Under a partial order two chains can be merged only where every element
/// of the one can be ordered with every element of the other.
pub proof fn lemma_merged_comparable<T: PartialOrd>(left: Seq<T>, right: Seq<T>, a: int, b: int)
    requires
        partial_order::<T>(),
        chain(left),
        chain(right),
        merged(left, right) is Some,
        0 <= a < left.len(),
        0 <= b < right.len(),
    ensures
        comparable(left[a], right[b]),
    decreases left.len() + right.len(),
{
    let l = left[0];
    let r = right[0];
    lemma_chain_rest(left);
    lemma_chain_rest(right);
    match relation(l, r) {
        Relation::Less => {
            if a > 0 {
                lemma_merged_comparable(left.drop_first(), right, a - 1, b);
            } else if b > 0 {
                assert(precedes(l, r));
                assert(precedes(r, right.drop_first()[b - 1]));
                assert(precedes(l, right[b]));
            }
        },
        Relation::Greater => {
            if b > 0 {
                lemma_merged_comparable(left, right.drop_first(), a, b - 1);
            } else if a > 0 {
                assert(relation(r, l) == Relation::Less);
                assert(precedes(r, l));
                assert(precedes(l, left.drop_first()[a - 1]));
                assert(precedes(r, left[a]));
            }
        },
        Relation::Equal => {
            if a > 0 && b > 0 {
                lemma_merged_comparable(left.drop_first(), right.drop_first(), a - 1, b - 1);
            } else if b > 0 {
                assert(precedes(l, r));
                assert(precedes(r, right.drop_first()[b - 1]));
                assert(precedes(l, right[b]));
            } else if a > 0 {
                assert(relation(r, l) == Relation::Equal);
                assert(precedes(r, l));
                assert(precedes(l, left.drop_first()[a - 1]));
                assert(precedes(r, left[a]));
            }
        },
        Relation::Incomparable => {},
    }
}

/// Under a partial order a sequence has a sorted form only where any two of
/// its elements, taken at different places, can be ordered.
pub proof fn lemma_sorted_comparable<T: PartialOrd>(s: Seq<T>, i: int, j: int)
    requires
        partial_order::<T>(),
        sorted(s) is Some,
        0 <= i < j < s.len(),
    ensures
        comparable(s[i], s[j]),
    decreases s.len(),
{
    broadcast use vstd::seq_lib::group_to_multiset_ensures;

    let mid = (s.len() / 2) as int;
    let left = sorted(s.take(mid)).unwrap();
    let right = sorted(s.skip(mid)).unwrap();
    if j < mid {
        lemma_sorted_comparable(s.take(mid), i, j);
    } else if mid <= i {
        lemma_sorted_comparable(s.skip(mid), i - mid, j - mid);
    } else {
        lemma_sorted_chain(s.take(mid));
        lemma_sorted_chain(s.skip(mid));
        lemma_sorted_permutes(s.take(mid));
        lemma_sorted_permutes(s.skip(mid));
        assert(s.take(mid).contains(s.take(mid)[i]));
        assert(left.to_multiset().count(s[i]) > 0);
        assert(left.contains(s[i]));
        assert(s.skip(mid).contains(s.skip(mid)[j - mid]));
        assert(right.to_multiset().count(s[j]) > 0);
        assert(right.contains(s[j]));
        let a = choose|a: int| 0 <= a < left.len() && left[a] == s[i];
        let b = choose|b: int| 0 <= b < right.len() && right[b] == s[j];
        lemma_merged_comparable(left, right, a, b);
    }
}

/// Under a partial order a sequence in which two elements, at different
/// places, cannot be ordered in either direction has no sorted form: the sort
/// fails.
pub proof fn lemma_incomparable_pair_fails<T: PartialOrd>(s: Seq<T>, i: int, j: int)
    requires
        partial_order::<T>(),
        0 <= i < s.len(),
        0 <= j < s.len(),
        i != j,
        !comparable(s[i], s[j]),
    ensures
        sorted(s) is None,
{
    if sorted(s) is Some {
        if i < j {
            lemma_sorted_comparable(s, i, j);
        } else {
            lemma_sorted_comparable(s, j, i);
        }
    }
}

/// Under a partial order two runs can be merged where every element of the
/// one can be ordered with every element of the other.
pub proof fn lemma_comparable_runs_merge<T: PartialOrd>(left: Seq<T>, right: Seq<T>)
    requires
        partial_order::<T>(),
        forall|a: int, b: int|
            0 <= a < left.len() && 0 <= b < right.len() ==> comparable(
                #[trigger] left[a],
                #[trigger] right[b],
            ),
    ensures
        merged(left, right) is Some,
    decreases left.len() + right.len(),
{
    if left.len() > 0 && right.len() > 0 {
        assert(comparable(left[0], right[0]));
        assert(relation(left[0], right[0]) != Relation::Incomparable);
        let lower_left = left.drop_first();
        let lower_right = right.drop_first();
        assert forall|a: int, b: int|
            0 <= a < lower_left.len() && 0 <= b < right.len() implies comparable(
            #[trigger] lower_left[a],
            #[trigger] right[b],
        ) by {
            assert(comparable(left[a + 1], right[b]));
        }
        assert forall|a: int, b: int|
            0 <= a < left.len() && 0 <= b < lower_right.len() implies comparable(
            #[trigger] left[a],
            #[trigger] lower_right[b],
        ) by {
            assert(comparable(left[a], right[b + 1]));
        }
        assert forall|a: int, b: int|
            0 <= a < lower_left.len() && 0 <= b < lower_right.len() implies comparable(
            #[trigger] lower_left[a],
            #[trigger] lower_right[b],
        ) by {
            assert(comparable(left[a + 1], right[b + 1]));
        }
        lemma_comparable_runs_merge(lower_left, right);
        lemma_comparable_runs_merge(left, lower_right);
        lemma_comparable_runs_merge(lower_left, lower_right);
    }
}

/// Under a partial order a sequence has a sorted form where any two of its
/// elements, taken at different places, can be ordered: the sort succeeds.
pub proof fn lemma_comparable_pairs_sort<T: PartialOrd>(s: Seq<T>)
    requires
        partial_order::<T>(),
        forall|i: int, j: int|
            0 <= i < j < s.len() ==> comparable(#[trigger] s[i], #[trigger] s[j]),
    ensures
        sorted(s) is Some,
    decreases s.len(),
{
    broadcast use vstd::seq_lib::group_to_multiset_ensures;

    if s.len() > 1 {
        let mid = (s.len() / 2) as int;
        let lower = s.take(mid);
        let upper = s.skip(mid);
        assert forall|i: int, j: int| 0 <= i < j < lower.len() implies comparable(
            #[trigger] lower[i],
            #[trigger] lower[j],
        ) by {
            assert(comparable(s[i], s[j]));
        }
        assert forall|i: int, j: int| 0 <= i < j < upper.len() implies comparable(
            #[trigger] upper[i],
            #[trigger] upper[j],
        ) by {
            assert(comparable(s[i + mid], s[j + mid]));
        }
        lemma_comparable_pairs_sort(lower);
        lemma_comparable_pairs_sort(upper);
        let left = sorted(lower).unwrap();
        let right = sorted(upper).unwrap();
        lemma_sorted_permutes(lower);
        lemma_sorted_permutes(upper);
        assert forall|a: int, b: int|
            0 <= a < left.len() && 0 <= b < right.len() implies comparable(
            #[trigger] left[a],
            #[trigger] right[b],
        ) by {
            assert(left.contains(left[a]));
            assert(lower.to_multiset().count(left[a]) > 0);
            assert(lower.contains(left[a]));
            assert(right.contains(right[b]));
            assert(upper.to_multiset().count(right[b]) > 0);
            assert(upper.contains(right[b]));
            let i = choose|i: int| 0 <= i < lower.len() && lower[i] == left[a];
            let j = choose|j: int| 0 <= j < upper.len() && upper[j] == right[b];
            assert(comparable(s[i], s[j + mid]));
        }
        lemma_comparable_runs_merge(left, right);
    }
}

/// Under a total order every sequence has a sorted form.
pub proof fn lemma_sorted_exists<T: PartialOrd>(s: Seq<T>)
    requires
        total_order::<T>(),
    ensures
        sorted(s) is Some,
{
    assert forall|i: int, j: int| 0 <= i < j < s.len() implies comparable(
        #[trigger] s[i],
        #[trigger] s[j],
    ) by {
        assert(relation(s[i], s[j]) != Relation::Incomparable);
    }
    lemma_comparable_pairs_sort(s);
}

/// Under a total order every sequence has a sorted form, which holds the
/// elements of the sequence, each as often as the sequence does, and in which
/// no element is greater than its right neighbour.
pub proof fn lemma_sort_orders<T: PartialOrd>(s: Seq<T>)
    requires
        total_order::<T>(),
    ensures
        sorted(s) is Some,
        sorted(s).unwrap().to_multiset() == s.to_multiset(),
        non_decreasing(sorted(s).unwrap()),
{
    lemma_sorted_exists(s);
    lemma_sorted_permutes(s);
    lemma_sorted_chain(s);
    let out = sorted(s).unwrap();
    assert forall|i: int| 0 <= i < out.len() - 1 implies relation(#[trigger] out[i], out[i + 1])
        != Relation::Greater by {
        assert(precedes(out[i], out[i + 1]));
    }
}

/// A sequence of at most one element is its own sorted form.
pub proof fn lemma_sort_keeps_short<T: PartialOrd>(s: Seq<T>)
    requires
        s.len() <= 1,
    ensures
        sorted(s) == Some(s),
{
}

/// Where the comparisons of `T` are those of `relation`, and a duplicate of
/// an element is the element itself, a sort of a copy of `input` has one
/// result only: the sorted form of `input`, or the failure where there is
/// none. So two sorts of the same input agree, whichever of them went
/// through the fan-out, and with whatever budget.
pub proof fn lemma_sorts_agree<T: Clone + PartialOrd>(
    input: Seq<T>,
    first: MergeResult<Vec<T>>,
    second: MergeResult<Vec<T>>,
)
    requires
        obeys_order::<T>(),
        duplicates_are_exact::<T>(),
        sorts_copy(input, first),
        sorts_copy(input, second),
    ensures
        match (first, second) {
            (Ok(u), Ok(v)) => u@ == v@ && sorted(input) == Some(u@),
            (Err(e), Err(f)) => e@ == f@ && sorted(input) is None,
            _ => false,
        },
{
    let work = choose|work: Seq<T>| duplicate(input, work) && #[trigger] sort_result(work, first);
    let again = choose|work: Seq<T>|
        duplicate(input, work) && #[trigger] sort_result(work, second);
    assert(work =~= input);
    assert(again =~= input);
}

} // verus!
