//! Stability: when equal elements come out in the order in which they came
//! in. A merge sends two equal elements out together, the left one first; so
//! it keeps the order of equal elements unless the left run holds a further
//! element equal to both, which then comes out after the right one.

use vstd::prelude::*;
use crate::engine::sorted;
use crate::laws::{chain, lemma_chain_rest, lemma_sorted_chain};
use crate::merge::merged;
use crate::order::{partial_order, precedes, relation, Relation};

verus! {

/// The elements of `s` that are equal to `x`, in their order in `s`.
pub open spec fn ties<T: PartialOrd>(s: Seq<T>, x: T) -> Seq<T>
    decreases s.len(),
{
    if s.len() == 0 {
        Seq::empty()
    } else if relation(s[0], x) == Relation::Equal {
        seq![s[0]] + ties(s.drop_first(), x)
    } else {
        ties(s.drop_first(), x)
    }
}

/// No two elements of `left` are equal to one element of `right`.
pub open spec fn ties_apart<T: PartialOrd>(left: Seq<T>, right: Seq<T>) -> bool {
    forall|x: T| (#[trigger] ties(left, x)).len() <= 1 || ties(right, x).len() == 0
}

/// At no split of the sort do two elements of the left half meet an equal
/// element of the right half.
pub open spec fn ties_apart_throughout<T: PartialOrd>(s: Seq<T>) -> bool
    decreases s.len(),
{
    s.len() <= 1 || {
        let mid = (s.len() / 2) as int;
        &&& ties_apart_throughout(s.take(mid))
        &&& ties_apart_throughout(s.skip(mid))
        &&& ties_apart(s.take(mid), s.skip(mid))
    }
}

/// The elements equal to `x` in two sequences, one after the other, are those
/// of the first followed by those of the second.
pub proof fn lemma_ties_of_both<T: PartialOrd>(a: Seq<T>, b: Seq<T>, x: T)
    ensures
        ties(a + b, x) == ties(a, x) + ties(b, x),
    decreases a.len(),
{
    if a.len() == 0 {
        assert(a + b =~= b);
        assert(ties(a, x) + ties(b, x) =~= ties(b, x));
    } else {
        lemma_ties_of_both(a.drop_first(), b, x);
        assert((a + b).drop_first() =~= a.drop_first() + b);
        assert(ties(a + b, x) =~= ties(a, x) + ties(b, x));
    }
}

/// Where no element of `s` is equal to `x`, `s` has no ties with `x`.
proof fn lemma_no_ties<T: PartialOrd>(s: Seq<T>, x: T)
    requires
        forall|k: int| 0 <= k < s.len() ==> relation(#[trigger] s[k], x) != Relation::Equal,
    ensures
        ties(s, x).len() == 0,
    decreases s.len(),
{
    if s.len() > 0 {
        assert(relation(s[0], x) != Relation::Equal);
        assert forall|k: int| 0 <= k < s.drop_first().len() implies relation(
            #[trigger] s.drop_first()[k],
            x,
        ) != Relation::Equal by {
            assert(relation(s[k + 1], x) != Relation::Equal);
        }
        lemma_no_ties(s.drop_first(), x);
    }
}

/// Under a partial order what is equal to an element is equal to whatever
/// that element is equal to.
proof fn lemma_equal_through<T: PartialOrd>(a: T, b: T, c: T)
    requires
        partial_order::<T>(),
        relation(a, b) == Relation::Equal,
        relation(b, c) == Relation::Equal,
    ensures
        relation(a, c) == Relation::Equal,
{
    assert(relation(b, a) == Relation::Equal);
    assert(relation(c, b) == Relation::Equal);
    assert(precedes(a, b) && precedes(b, c));
    assert(precedes(c, b) && precedes(b, a));
    assert(precedes(a, c));
    assert(precedes(c, a));
    assert(relation(a, c) == Relation::Less <==> relation(c, a) == Relation::Greater);
}

/// Under a partial order the merge of two chains keeps the order of equal
/// elements, as long as no two elements of the left chain are equal to one
/// of the right chain: the elements equal to `x` come out as those of the
/// left chain followed by those of the right one.
pub proof fn lemma_merge_stable<T: PartialOrd>(left: Seq<T>, right: Seq<T>, x: T)
    requires
        partial_order::<T>(),
        chain(left),
        chain(right),
        ties_apart(left, right),
        merged(left, right) is Some,
    ensures
        ties(merged(left, right).unwrap(), x) == ties(left, x) + ties(right, x),
    decreases left.len() + right.len(),
{
    let run = merged(left, right).unwrap();
    if left.len() == 0 {
        assert(ties(left, x) + ties(right, x) =~= ties(right, x));
    } else if right.len() == 0 {
        assert(ties(left, x) + ties(right, x) =~= ties(left, x));
    } else {
        let l = left[0];
        let r = right[0];
        let lower_left = left.drop_first();
        let lower_right = right.drop_first();
        assert(left =~= seq![l] + lower_left);
        assert(right =~= seq![r] + lower_right);
        assert forall|y: T| #[trigger] ties(lower_left, y).len() <= ties(left, y).len() by {}
        assert forall|y: T| #[trigger] ties(lower_right, y).len() <= ties(right, y).len() by {}
        lemma_chain_rest(left);
        lemma_chain_rest(right);
        match relation(l, r) {
            Relation::Less => {
                let rest = merged(lower_left, right).unwrap();
                assert(ties_apart(lower_left, right)) by {
                    assert forall|y: T| (#[trigger] ties(lower_left, y)).len() <= 1 || ties(
                        right,
                        y,
                    ).len() == 0 by {
                        assert(ties(left, y).len() <= 1 || ties(right, y).len() == 0);
                    }
                }
                lemma_merge_stable(lower_left, right, x);
                assert(run.drop_first() =~= rest);
                assert(ties(run, x) =~= ties(left, x) + ties(right, x));
            },
            Relation::Greater => {
                let rest = merged(left, lower_right).unwrap();
                assert(ties_apart(left, lower_right)) by {
                    assert forall|y: T| (#[trigger] ties(left, y)).len() <= 1 || ties(
                        lower_right,
                        y,
                    ).len() == 0 by {
                        assert(ties(left, y).len() <= 1 || ties(right, y).len() == 0);
                        assert(ties(lower_right, y).len() <= ties(right, y).len());
                    }
                }
                lemma_merge_stable(left, lower_right, x);
                assert(run.drop_first() =~= rest);
                if relation(r, x) == Relation::Equal {
                    assert forall|k: int| 0 <= k < left.len() implies relation(
                        #[trigger] left[k],
                        x,
                    ) != Relation::Equal by {
                        if relation(left[k], x) == Relation::Equal {
                            assert(relation(x, r) == Relation::Equal);
                            lemma_equal_through(left[k], x, r);
                            assert(precedes(left[k], r));
                            if k > 0 {
                                assert(precedes(l, left[k]));
                                assert(precedes(l, r));
                            }
                        }
                    }
                    lemma_no_ties(left, x);
                    assert(ties(left, x) =~= Seq::<T>::empty());
                }
                assert(ties(run, x) =~= ties(left, x) + ties(right, x));
            },
            Relation::Equal => {
                let rest = merged(lower_left, lower_right).unwrap();
                assert(ties_apart(lower_left, lower_right)) by {
                    assert forall|y: T| (#[trigger] ties(lower_left, y)).len() <= 1 || ties(
                        lower_right,
                        y,
                    ).len() == 0 by {
                        assert(ties(left, y).len() <= 1 || ties(right, y).len() == 0);
                        assert(ties(lower_right, y).len() <= ties(right, y).len());
                    }
                }
                lemma_merge_stable(lower_left, lower_right, x);
                assert(run.drop_first().drop_first() =~= rest);
                assert(run[0] == l && run.drop_first()[0] == r);
                if relation(l, x) == Relation::Equal {
                    assert(relation(r, l) == Relation::Equal);
                    lemma_equal_through(r, l, x);
                    assert(ties(left, x).len() <= 1 || ties(right, x).len() == 0);
                    assert(ties(lower_left, x) =~= Seq::<T>::empty());
                } else if relation(r, x) == Relation::Equal {
                    lemma_equal_through(l, r, x);
                }
                assert(ties(run.drop_first(), x) =~= if relation(r, x) == Relation::Equal {
                    seq![r] + ties(rest, x)
                } else {
                    ties(rest, x)
                });
                assert(ties(run, x) =~= ties(left, x) + ties(right, x));
            },
            Relation::Incomparable => {},
        }
    }
}

/// Under a partial order the sort keeps the order of equal elements, as long
/// as at no split two elements of the left half meet an equal element of the
/// right half: the elements equal to `x` come out in the order in which they
/// came in.
pub proof fn lemma_sort_stable<T: PartialOrd>(s: Seq<T>, x: T)
    requires
        partial_order::<T>(),
        ties_apart_throughout(s),
        sorted(s) is Some,
    ensures
        ties(sorted(s).unwrap(), x) == ties(s, x),
    decreases s.len(),
{
    if s.len() > 1 {
        let mid = (s.len() / 2) as int;
        let left = sorted(s.take(mid)).unwrap();
        let right = sorted(s.skip(mid)).unwrap();
        lemma_sorted_chain(s.take(mid));
        lemma_sorted_chain(s.skip(mid));
        assert(ties_apart(left, right)) by {
            assert forall|y: T| (#[trigger] ties(left, y)).len() <= 1 || ties(right, y).len()
                == 0 by {
                lemma_sort_stable(s.take(mid), y);
                lemma_sort_stable(s.skip(mid), y);
                assert(ties(s.take(mid), y).len() <= 1 || ties(s.skip(mid), y).len() == 0);
            }
        }
        lemma_sort_stable(s.take(mid), x);
        lemma_sort_stable(s.skip(mid), x);
        lemma_merge_stable(left, right, x);
        lemma_ties_of_both(s.take(mid), s.skip(mid), x);
        assert(s.take(mid) + s.skip(mid) =~= s);
    }
}

/// Where no more than two elements of `s` are equal to each other, no split
/// of the sort has two of them on the left and one on the right.
pub proof fn lemma_pairs_stay_apart<T: PartialOrd>(s: Seq<T>)
    requires
        forall|x: T| (#[trigger] ties(s, x)).len() <= 2,
    ensures
        ties_apart_throughout(s),
    decreases s.len(),
{
    if s.len() > 1 {
        let mid = (s.len() / 2) as int;
        let left = s.take(mid);
        let right = s.skip(mid);
        assert(left + right =~= s);
        assert forall|x: T|
            (#[trigger] ties(left, x)).len() + ties(right, x).len() <= 2 by {
            lemma_ties_of_both(left, right, x);
            assert(ties(s, x).len() <= 2);
        }
        assert forall|x: T| (#[trigger] ties(left, x)).len() <= 2 by {
            assert(ties(left, x).len() + ties(right, x).len() <= 2);
        }
        assert forall|x: T| (#[trigger] ties(right, x)).len() <= 2 by {
            assert(ties(left, x).len() + ties(right, x).len() <= 2);
        }
        lemma_pairs_stay_apart(left);
        lemma_pairs_stay_apart(right);
        assert forall|x: T| (#[trigger] ties(left, x)).len() <= 1 || ties(right, x).len()
            == 0 by {
            assert(ties(left, x).len() + ties(right, x).len() <= 2);
        }
    }
}

} // verus!
