//! The sequential engine: it halves the input down to single elements and
//! merges the halves back, with one scratch buffer for the whole call tree.

use vstd::prelude::*;
use crate::failure::{MergeResult, INCOMPARABLE_ELEMENTS};
use crate::merge::{holdings, lemma_part_keeps_holdings, merge, merged};
use crate::order::obeys_order;

verus! {

/// The sorted form of `s`, or `None` where two elements that a merge has to
/// order are incomparable. A sequence of at most one element is its own
/// sorted form; a longer one is split in the middle, the left half taking the
/// smaller part of an odd length, and its sorted halves are merged.
pub open spec fn sorted<T: PartialOrd>(s: Seq<T>) -> Option<Seq<T>>
    decreases s.len(),
{
    if s.len() <= 1 {
        Some(s)
    } else {
        let mid = (s.len() / 2) as int;
        match sorted(s.take(mid)) {
            Some(left) => match sorted(s.skip(mid)) {
                Some(right) => merged(left, right),
                None => None,
            },
            None => None,
        }
    }
}

/// What a sort in place owes: the sorted form in the working buffer, or a
/// failure where there is none.
pub open spec fn sort_outcome<T: PartialOrd>(
    before: Seq<T>,
    r: MergeResult<()>,
    after: Seq<T>,
) -> bool {
    match sorted(before) {
        Some(run) => r is Ok && after == run,
        None => r is Err,
    }
}

/// `copy` holds a duplicate of each element of `source`, in the same order.
pub open spec fn duplicate<T: Clone>(source: Seq<T>, copy: Seq<T>) -> bool {
    &&& copy.len() == source.len()
    &&& forall|i: int| 0 <= i < source.len() ==> cloned(source[i], #[trigger] copy[i])
}

/// What a sort of the working copy `work` owes its caller. Whatever the
/// comparisons return, a sequence that comes back holds the elements of
/// `work`, the only failure is that of incomparable elements, and a copy of
/// at most one element comes back as it is. Where the comparisons are those
/// of `relation`, the result is the sorted form of `work`, or the failure
/// where there is none.
pub open spec fn sort_result<T: PartialOrd>(work: Seq<T>, r: MergeResult<Vec<T>>) -> bool {
    &&& r matches Err(e) ==> e@ == INCOMPARABLE_ELEMENTS@
    &&& r matches Ok(v) ==> v@.to_multiset() == work.to_multiset()
    &&& work.len() <= 1 ==> (r matches Ok(v) && v@ == work)
    &&& obeys_order::<T>() ==> match sorted(work) {
        Some(run) => r matches Ok(v) && v@ == run,
        None => r is Err,
    }
}

/// What a sort of a copy of `input` owes its caller: what `sort_result` says,
/// of a working copy that holds a duplicate of each element of `input`.
pub open spec fn sorts_copy<T: Clone + PartialOrd>(input: Seq<T>, r: MergeResult<Vec<T>>) -> bool {
    exists|work: Seq<T>| duplicate(input, work) && #[trigger] sort_result(work, r)
}

/// A duplicate of an element of `T` is the element itself.
pub open spec fn duplicates_are_exact<T: Clone>() -> bool {
    forall|a: T, b: T| #[trigger] cloned(a, b) ==> a == b
}

/// Sorts `input` in place, with `temp` as the scratch buffer of every merge.
/// The two buffers hold between them what they held, also after a failure;
/// where in `temp` its elements lie afterwards is of no account, nor where in
/// either buffer after a failure.
pub fn merge_sort_internal<T: PartialOrd>(input: &mut [T], temp: &mut [T]) -> (r: MergeResult<()>)
    requires
        old(input)@.len() <= old(temp)@.len(),
    ensures
        final(input)@.len() == old(input)@.len(),
        final(temp)@.len() == old(temp)@.len(),
        holdings(final(input)@, final(temp)@) == holdings(old(input)@, old(temp)@),
        r matches Err(e) ==> e@ == INCOMPARABLE_ELEMENTS@,
        r is Ok ==> final(input)@.to_multiset() == old(input)@.to_multiset(),
        old(input)@.len() <= 1 ==> r is Ok && final(input)@ == old(input)@,
        obeys_order::<T>() ==> sort_outcome(old(input)@, r, final(input)@),
    decreases old(input)@.len(),
{
    let len = input.len();
    if len <= 1 {
        return Ok(());
    }
    let ghost all = input@;
    let ghost scratch = temp@;
    let mid = len / 2;
    let (left, right) = input.split_at_mut(mid);
    assert(all.take(mid as int) + all.skip(mid as int) =~= all);
    let sorted_left = merge_sort_internal(left, temp);
    let ghost scratch_between = temp@;
    proof {
        lemma_part_keeps_holdings(all.take(mid as int), scratch, left@, temp@, right@);
    }
    if let Err(failure) = sorted_left {
        return Err(failure);
    }
    let sorted_right = merge_sort_internal(right, temp);
    proof {
        lemma_part_keeps_holdings(all.skip(mid as int), scratch_between, right@, temp@, left@);
    }
    if let Err(failure) = sorted_right {
        return Err(failure);
    }
    proof {
        let halves = left@ + right@;
        assert(halves.take(mid as int) =~= left@);
        assert(halves.skip(mid as int) =~= right@);
        vstd::seq_lib::lemma_multiset_commutative(all.take(mid as int), all.skip(mid as int));
        vstd::seq_lib::lemma_multiset_commutative(left@, right@);
    }
    merge(input, mid, temp)
}

/// A vector with a duplicate of each element of `input`.
pub(crate) fn to_owned<T: Clone>(input: &[T]) -> (copy: Vec<T>)
    ensures
        duplicate(input@, copy@),
{
    let mut copy: Vec<T> = Vec::with_capacity(input.len());
    let mut i: usize = 0;
    while i < input.len()
        invariant
            i <= input@.len(),
            copy@.len() == i,
            forall|k: int| 0 <= k < i ==> cloned(input@[k], #[trigger] copy@[k]),
        decreases input@.len() - i,
    {
        copy.push(input[i].clone());
        i += 1;
    }
    copy
}

/// A scratch buffer for the merges of `input`: as long as `input`, and filled
/// with duplicates of its elements, so that every place of it holds a value
/// that a merge can exchange for an element.
pub(crate) fn mk_temp<T: Clone>(input: &[T]) -> (temp: Vec<T>)
    ensures
        duplicate(input@, temp@),
{
    to_owned(input)
}

/// Sorts a copy of `input` and returns it; `input` itself stays as it is.
pub fn merge_sort<T: Clone + PartialOrd>(input: &[T]) -> (r: MergeResult<Vec<T>>)
    ensures
        sorts_copy(input@, r),
{
    let mut input = to_owned(input);
    let mut temp = mk_temp(input.as_slice());
    let ghost work = input@;
    match merge_sort_internal(input.as_mut_slice(), temp.as_mut_slice()) {
        Ok(()) => {
            let r = Ok(input);
            assert(sort_result(work, r));
            r
        },
        Err(e) => {
            let r = Err(e);
            assert(sort_result(work, r));
            r
        },
    }
}

} // verus!
