//! The fan-out controller: a sort whose call tree halves a thread budget
//! together with the data. While the budget allows, the two halves of a split
//! are independent of each other, so that a worker thread may take the left
//! one; what comes out is what the sequential engine returns.
//!
//! This module decides the steps of the call tree and merges the halves; it
//! starts no thread. `merge_sort_parallel` walks the tree on the calling
//! thread. A caller with threads asks `fan_out_step` what a node does, hands
//! the left half of a split to a worker, sorts the right half meanwhile, and
//! finishes the split with `join_halves`.

use vstd::prelude::*;
use vstd::arithmetic::power2::is_pow2;
use crate::engine::{merge_sort_internal, mk_temp, sort_result, sorted, sorts_copy, to_owned};
use crate::failure::{
    MergeResult,
    INCOMPARABLE_ELEMENTS,
    INVALID_THREAD_BUDGET,
    THREAD_COMMUNICATION_FAILURE,
};
use crate::merge::{merge, merged};
use crate::order::obeys_order;

verus! {

/// A thread budget is valid where it is a power of two, 1 included.
pub open spec fn valid_thread_budget(threads: usize) -> bool {
    is_pow2(threads as int)
}

/// Whether `threads` is a valid thread budget.
pub fn is_thread_budget(threads: usize) -> (valid: bool)
    ensures
        valid == valid_thread_budget(threads),
{
    let mut rest = threads;
    while rest > 1 && rest % 2 == 0
        invariant
            is_pow2(rest as int) == is_pow2(threads as int),
        decreases rest,
    {
        proof {
            reveal(is_pow2);
        }
        rest = rest / 2;
    }
    proof {
        reveal(is_pow2);
    }
    rest == 1
}

/// What one node of the call tree does with its share of the data.
#[derive(Clone, Copy, Debug, PartialEq, Eq, Structural)]
pub enum FanOut {
    /// The sequential engine sorts the whole share on the calling thread.
    Sequential,
    /// The share is split at `mid`, and each half is sorted with a budget of
    /// `threads`.
    Split { mid: usize, threads: usize },
}

/// The step that a node with `len` elements and a budget of `threads` takes:
/// it splits in the middle and halves the budget, as long as there is more
/// than one element and more than one thread.
pub open spec fn fan_out_plan(len: usize, threads: usize) -> FanOut {
    if threads <= 1 || len <= 1 {
        FanOut::Sequential
    } else {
        FanOut::Split { mid: len / 2, threads: threads / 2 }
    }
}

/// Decides the step of a node with `len` elements and a budget of `threads`.
pub fn fan_out_step(len: usize, threads: usize) -> (step: FanOut)
    ensures
        step == fan_out_plan(len, threads),
{
    if threads <= 1 || len <= 1 {
        FanOut::Sequential
    } else {
        FanOut::Split { mid: len / 2, threads: threads / 2 }
    }
}

/// How many workers the call tree of the fan-out takes on for `len` elements
/// and a budget of `threads`: one at every split, for its left half.
pub open spec fn workers(len: usize, threads: usize) -> nat
    decreases threads,
{
    match fan_out_plan(len, threads) {
        FanOut::Sequential => 0,
        FanOut::Split { mid, threads: share } => 1 + workers(mid, share) + workers(
            (len - mid) as usize,
            share,
        ),
    }
}

/// The call tree stays within its budget: with the calling thread, no more
/// than `threads` threads ever have a share of the data.
pub proof fn lemma_workers_within_budget(len: usize, threads: usize)
    requires
        threads >= 1,
    ensures
        workers(len, threads) + 1 <= threads,
    decreases threads,
{
    if threads > 1 && len > 1 {
        let mid = (len / 2) as usize;
        let share = (threads / 2) as usize;
        lemma_workers_within_budget(mid, share);
        lemma_workers_within_budget((len - mid) as usize, share);
    }
}

/// What the call tree of the fan-out returns for `s` and a budget of
/// `threads`: the sequential engine's result at a leaf, and the merge of the
/// two halves' results at a split.
pub open spec fn fanned<T: PartialOrd>(s: Seq<T>, threads: usize) -> Option<Seq<T>>
    decreases s.len(),
{
    if threads <= 1 || s.len() <= 1 {
        sorted(s)
    } else {
        let mid = (s.len() / 2) as int;
        match fanned(s.take(mid), threads / 2) {
            Some(left) => match fanned(s.skip(mid), threads / 2) {
                Some(right) => merged(left, right),
                None => None,
            },
            None => None,
        }
    }
}

/// Whatever the budget, the fan-out returns what the sequential engine
/// returns: the same sequence, or a failure on the same inputs.
pub proof fn lemma_fan_out_is_sort<T: PartialOrd>(s: Seq<T>, threads: usize)
    ensures
        fanned(s, threads) == sorted(s),
    decreases s.len(),
{
    if threads > 1 && s.len() > 1 {
        let mid = (s.len() / 2) as int;
        lemma_fan_out_is_sort(s.take(mid), threads / 2);
        lemma_fan_out_is_sort(s.skip(mid), threads / 2);
    }
}

/// What the merge of two sorted halves owes. Whatever the comparisons return,
/// a sequence that comes back holds the elements of both halves, and the only
/// failure is that of incomparable elements. Where the comparisons are those
/// of `relation`, the result is the merge of the halves, or the failure where
/// there is none.
pub open spec fn join_result<T: PartialOrd>(
    left: Seq<T>,
    right: Seq<T>,
    r: MergeResult<Vec<T>>,
) -> bool {
    &&& r matches Err(e) ==> e@ == INCOMPARABLE_ELEMENTS@
    &&& r matches Ok(v) ==> v@.to_multiset() == (left + right).to_multiset()
    &&& obeys_order::<T>() ==> match merged(left, right) {
        Some(run) => r matches Ok(v) && v@ == run,
        None => r is Err,
    }
}

/// Joins two halves that were sorted apart into one vector and merges them.
pub fn merge_halves<T: Clone + PartialOrd>(left: Vec<T>, right: Vec<T>) -> (r: MergeResult<Vec<T>>)
    ensures
        join_result(left@, right@, r),
{
    let ghost halves = (left@, right@);
    let mut input = left;
    let mut right = right;
    let mid = input.len();
    input.append(&mut right);
    let mut temp = mk_temp(input.as_slice());
    proof {
        assert(input@.take(mid as int) =~= halves.0);
        assert(input@.skip(mid as int) =~= halves.1);
    }
    match merge(input.as_mut_slice(), mid, temp.as_mut_slice()) {
        Ok(()) => Ok(input),
        Err(e) => Err(e),
    }
}

/// Takes what the wait for a worker gave, and what the calling thread made
/// of the right half meanwhile, and finishes the split. `worker` is `None`
/// where the worker could not be joined: that is the failure of
/// communication. A worker that failed hands its failure on. One that sorted
/// the left half has its half merged with the right one.
pub fn join_halves<T: Clone + PartialOrd>(
    worker: Option<MergeResult<Vec<T>>>,
    right: Vec<T>,
) -> (r: MergeResult<Vec<T>>)
    ensures
        match worker {
            None => r matches Err(e) && e@ == THREAD_COMMUNICATION_FAILURE@,
            Some(Err(failure)) => r matches Err(e) && e@ == failure@,
            Some(Ok(left)) => join_result(left@, right@, r),
        },
{
    match worker {
        None => Err(THREAD_COMMUNICATION_FAILURE),
        Some(Err(failure)) => Err(failure),
        Some(Ok(left)) => merge_halves(left, right),
    }
}

/// What the fan-out owes for the working copy `work` and a budget of
/// `threads`: what `sort_result` says, with the call tree's result in place
/// of the sequential engine's.
pub open spec fn fan_out_result<T: PartialOrd>(
    work: Seq<T>,
    threads: usize,
    r: MergeResult<Vec<T>>,
) -> bool {
    &&& r matches Err(e) ==> e@ == INCOMPARABLE_ELEMENTS@
    &&& r matches Ok(v) ==> v@.to_multiset() == work.to_multiset()
    &&& work.len() <= 1 ==> (r matches Ok(v) && v@ == work)
    &&& obeys_order::<T>() ==> match fanned(work, threads) {
        Some(run) => r matches Ok(v) && v@ == run,
        None => r is Err,
    }
}

/// Sorts `input` along the call tree of the fan-out, on the calling thread:
/// first the left half of a split, then the right one.
fn merge_sort_parallel_internal<T: Clone + PartialOrd>(input: Vec<T>, threads: usize) -> (r:
    MergeResult<Vec<T>>)
    ensures
        fan_out_result(input@, threads, r),
    decreases input@.len(),
{
    let mut input = input;
    let ghost work = input@;
    match fan_out_step(input.len(), threads) {
        FanOut::Sequential => {
            let mut temp = mk_temp(input.as_slice());
            match merge_sort_internal(input.as_mut_slice(), temp.as_mut_slice()) {
                Ok(()) => Ok(input),
                Err(e) => Err(e),
            }
        },
        FanOut::Split { mid, threads } => {
            let right = input.split_off(mid);
            proof {
                assert(input@ =~= work.take(mid as int));
                assert(right@ =~= work.skip(mid as int));
                assert(input@ + right@ =~= work);
                vstd::seq_lib::lemma_multiset_commutative(input@, right@);
            }
            let left = merge_sort_parallel_internal(input, threads)?;
            let right = merge_sort_parallel_internal(right, threads)?;
            proof {
                vstd::seq_lib::lemma_multiset_commutative(left@, right@);
            }
            merge_halves(left, right)
        },
    }
}

/// Sorts a copy of `input` as `merge_sort` does, along the call tree of a
/// fan-out with a budget of `threads`, on the calling thread. A budget that
/// is not valid is turned down before any element is looked at.
pub fn merge_sort_parallel<T: 'static + Send + Clone + PartialOrd>(
    input: &[T],
    threads: usize,
) -> (r: MergeResult<Vec<T>>)
    ensures
        !valid_thread_budget(threads) ==> (r matches Err(e) && e@ == INVALID_THREAD_BUDGET@),
        valid_thread_budget(threads) ==> sorts_copy(input@, r),
{
    if !is_thread_budget(threads) {
        return Err(INVALID_THREAD_BUDGET);
    }
    let input = to_owned(input);
    let ghost work = input@;
    proof {
        lemma_fan_out_is_sort(work, threads);
    }
    let r = merge_sort_parallel_internal(input, threads);
    assert(sort_result(work, r));
    r
}

} // verus!
