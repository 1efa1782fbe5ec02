//! The three ways in which a sort ends without a sorted sequence.

use vstd::prelude::*;

verus! {

/// What every sorting function returns: the value, or the message of the
/// failure that ended the whole call.
pub type MergeResult<T> = Result<T, &'static str>;

/// Two elements that the merge step had to order cannot be ordered.
pub const INCOMPARABLE_ELEMENTS: &'static str = "Can't compare";

/// The thread budget is neither 1 nor a power of two.
pub const INVALID_THREAD_BUDGET: &'static str = "Threads count must be power of 2";

/// A worker thread could not be joined, or did not hand its half back.
pub const THREAD_COMMUNICATION_FAILURE: &'static str = "Recive parallel data error";

/// The three messages are pairwise different, so a caller can tell the
/// failures apart by the message alone.
pub proof fn lemma_failures_differ()
    ensures
        INCOMPARABLE_ELEMENTS@ != INVALID_THREAD_BUDGET@,
        INCOMPARABLE_ELEMENTS@ != THREAD_COMMUNICATION_FAILURE@,
        INVALID_THREAD_BUDGET@ != THREAD_COMMUNICATION_FAILURE@,
{
    reveal_strlit("Can't compare");
    reveal_strlit("Threads count must be power of 2");
    reveal_strlit("Recive parallel data error");
    assert(INCOMPARABLE_ELEMENTS@.len() == 13);
    assert(INVALID_THREAD_BUDGET@.len() == 32);
    assert(THREAD_COMMUNICATION_FAILURE@.len() == 26);
}

} // verus!
