//! The merge step: two adjacent runs of a working buffer become one, by way
//! of a scratch buffer.

use vstd::multiset::Multiset;
use vstd::prelude::*;
use crate::failure::{MergeResult, INCOMPARABLE_ELEMENTS};
use crate::order::{compare, obeys_order, relation, Relation};

verus! {

/// `head` followed by `rest`, where there is a rest.
pub open spec fn emit<T>(head: Seq<T>, rest: Option<Seq<T>>) -> Option<Seq<T>> {
    match rest {
        Some(tail) => Some(head + tail),
        None => None,
    }
}

/// The merge of two runs, or `None` where two elements that it has to order
/// are incomparable. It looks at the first element of each run: the lesser one
/// goes out; of two equal ones both go out, the left one first. When one run
/// is used up, the other follows as it is.
pub open spec fn merged<T: PartialOrd>(left: Seq<T>, right: Seq<T>) -> Option<Seq<T>>
    decreases left.len() + right.len(),
{
    if left.len() == 0 {
        Some(right)
    } else if right.len() == 0 {
        Some(left)
    } else {
        match relation(left[0], right[0]) {
            Relation::Less => emit(seq![left[0]], merged(left.drop_first(), right)),
            Relation::Greater => emit(seq![right[0]], merged(left, right.drop_first())),
            Relation::Equal => emit(
                seq![left[0], right[0]],
                merged(left.drop_first(), right.drop_first()),
            ),
            Relation::Incomparable => None,
        }
    }
}

/// What two buffers hold between them, each element as often as it lies in
/// the one and in the other together.
pub open spec fn holdings<T>(input: Seq<T>, temp: Seq<T>) -> Multiset<T> {
    input.to_multiset().add(temp.to_multiset())
}

/// A buffer of two parts, one of which has exchanged elements with a second
/// buffer, holds together with that buffer what the two held before.
pub proof fn lemma_part_keeps_holdings<T>(
    part: Seq<T>,
    temp: Seq<T>,
    part_after: Seq<T>,
    temp_after: Seq<T>,
    other: Seq<T>,
)
    requires
        holdings(part_after, temp_after) == holdings(part, temp),
    ensures
        holdings(part_after + other, temp_after) == holdings(part + other, temp),
        holdings(other + part_after, temp_after) == holdings(other + part, temp),
{
    vstd::seq_lib::lemma_multiset_commutative(part_after, other);
    vstd::seq_lib::lemma_multiset_commutative(part, other);
    vstd::seq_lib::lemma_multiset_commutative(other, part_after);
    vstd::seq_lib::lemma_multiset_commutative(other, part);
    let held = holdings(part, temp);
    assert(held =~= part_after.to_multiset().add(temp_after.to_multiset()));
    assert(holdings(part_after + other, temp_after) =~= held.add(other.to_multiset()));
    assert(holdings(part + other, temp) =~= held.add(other.to_multiset()));
    assert(holdings(other + part_after, temp_after) =~= held.add(other.to_multiset()));
    assert(holdings(other + part, temp) =~= held.add(other.to_multiset()));
}

/// Exchanges one element of a slice with one element of another.
pub fn swap_elements<T>(
    from_slice: &mut [T],
    from_index: usize,
    to_slice: &mut [T],
    to_index: usize,
)
    requires
        from_index < old(from_slice)@.len(),
        to_index < old(to_slice)@.len(),
    ensures
        final(from_slice)@ == old(from_slice)@.update(
            from_index as int,
            old(to_slice)@[to_index as int],
        ),
        final(to_slice)@ == old(to_slice)@.update(
            to_index as int,
            old(from_slice)@[from_index as int],
        ),
        holdings(final(from_slice)@, final(to_slice)@) == holdings(
            old(from_slice)@,
            old(to_slice)@,
        ),
{
    core::mem::swap(&mut from_slice[from_index], &mut to_slice[to_index]);
    proof {
        lemma_exchange_keeps_holdings(
            old(from_slice)@,
            from_index as int,
            old(to_slice)@,
            to_index as int,
        );
    }
}

/// Two buffers that exchange one element hold between them what they held.
proof fn lemma_exchange_keeps_holdings<T>(from: Seq<T>, i: int, to: Seq<T>, k: int)
    requires
        0 <= i < from.len(),
        0 <= k < to.len(),
    ensures
        holdings(from.update(i, to[k]), to.update(k, from[i])) == holdings(from, to),
{
    broadcast use vstd::seq_lib::group_to_multiset_ensures;

    assert(from.contains(from[i]));
    assert(to.contains(to[k]));
    assert(holdings(from.update(i, to[k]), to.update(k, from[i])) =~= holdings(from, to));
}

/// What a merge of the runs `left` and `right` owes: the merged run in the
/// working buffer, or a failure where the runs cannot be merged.
pub open spec fn merge_outcome<T: PartialOrd>(
    left: Seq<T>,
    right: Seq<T>,
    r: MergeResult<()>,
    after: Seq<T>,
) -> bool {
    match merged(left, right) {
        Some(run) => r is Ok && after == run,
        None => r is Err,
    }
}

/// The state of the two buffers while the runs `all[..mid]` and `all[mid..]`
/// are merged: `out` has gone out into the scratch buffer, the read cursors
/// stand at `i` and `j`, and what lies behind them is untouched.
spec fn buffers<T>(
    all: Seq<T>,
    mid: int,
    input: Seq<T>,
    temp: Seq<T>,
    out: Seq<T>,
    i: int,
    j: int,
) -> bool {
    &&& 0 <= i <= mid <= j <= all.len()
    &&& input.len() == all.len()
    &&& temp.len() >= all.len()
    &&& out.len() == i + (j - mid)
    &&& forall|k: int| i <= k < mid ==> input[k] == all[k]
    &&& forall|k: int| j <= k < all.len() ==> input[k] == all[k]
    &&& forall|k: int| 0 <= k < out.len() ==> temp[k] == out[k]
    &&& out.to_multiset() == all.take(i).to_multiset().add(all.subrange(mid, j).to_multiset())
}

/// What has gone out, followed by the merge of what is left of the two runs,
/// is the merge of the two runs.
spec fn on_course<T: PartialOrd>(all: Seq<T>, mid: int, out: Seq<T>, i: int, j: int) -> bool {
    merged(all.take(mid), all.skip(mid)) == emit(
        out,
        merged(all.subrange(i, mid), all.skip(j)),
    )
}

proof fn lemma_buffers_start<T>(all: Seq<T>, mid: int, temp: Seq<T>)
    requires
        0 <= mid <= all.len() <= temp.len(),
    ensures
        buffers(all, mid, all, temp, Seq::<T>::empty(), 0, mid),
{
    broadcast use vstd::seq_lib::group_to_multiset_ensures;

    let none = Seq::<T>::empty();
    assert(all.take(0) =~= none);
    assert(all.subrange(mid, mid) =~= none);
    assert(none.to_multiset().len() == 0);
    assert(none.to_multiset() =~= none.to_multiset().add(none.to_multiset()));
}

proof fn lemma_buffers_left<T>(
    all: Seq<T>,
    mid: int,
    input: Seq<T>,
    temp: Seq<T>,
    out: Seq<T>,
    i: int,
    j: int,
)
    requires
        buffers(all, mid, input, temp, out, i, j),
        i < mid,
    ensures
        buffers(
            all,
            mid,
            input.update(i, temp[out.len() as int]),
            temp.update(out.len() as int, input[i]),
            out.push(all[i]),
            i + 1,
            j,
        ),
{
    broadcast use vstd::seq_lib::group_to_multiset_ensures;

    assert(all.take(i + 1) =~= all.take(i).push(all[i]));
    assert(out.push(all[i]).to_multiset() =~= all.take(i + 1).to_multiset().add(
        all.subrange(mid, j).to_multiset(),
    ));
}

proof fn lemma_buffers_right<T>(
    all: Seq<T>,
    mid: int,
    input: Seq<T>,
    temp: Seq<T>,
    out: Seq<T>,
    i: int,
    j: int,
)
    requires
        buffers(all, mid, input, temp, out, i, j),
        j < all.len(),
    ensures
        buffers(
            all,
            mid,
            input.update(j, temp[out.len() as int]),
            temp.update(out.len() as int, input[j]),
            out.push(all[j]),
            i,
            j + 1,
        ),
{
    broadcast use vstd::seq_lib::group_to_multiset_ensures;

    assert(all.subrange(mid, j + 1) =~= all.subrange(mid, j).push(all[j]));
    assert(out.push(all[j]).to_multiset() =~= all.take(i).to_multiset().add(
        all.subrange(mid, j + 1).to_multiset(),
    ));
}

proof fn lemma_on_course_start<T: PartialOrd>(all: Seq<T>, mid: int)
    requires
        0 <= mid <= all.len(),
    ensures
        on_course(all, mid, Seq::<T>::empty(), 0, mid),
{
    assert(all.subrange(0, mid) =~= all.take(mid));
    let rest = merged(all.take(mid), all.skip(mid));
    if rest is Some {
        assert(Seq::<T>::empty() + rest.unwrap() =~= rest.unwrap());
    }
}

/// One step of the merge with the left element going out: it is the lesser
/// one, or the right run is used up.
proof fn lemma_on_course_left<T: PartialOrd>(all: Seq<T>, mid: int, out: Seq<T>, i: int, j: int)
    requires
        on_course(all, mid, out, i, j),
        0 <= i < mid <= j <= all.len(),
        j == all.len() || relation(all[i], all[j]) == Relation::Less,
    ensures
        on_course(all, mid, out.push(all[i]), i + 1, j),
{
    let left = all.subrange(i, mid);
    let right = all.skip(j);
    assert(left.drop_first() =~= all.subrange(i + 1, mid));
    let rest = merged(all.subrange(i + 1, mid), right);
    if j == all.len() {
        assert(merged(left, right) == Some(left));
        assert(rest == Some(all.subrange(i + 1, mid)));
        assert(out + left =~= out.push(all[i]) + all.subrange(i + 1, mid));
    } else {
        assert(merged(left, right) == emit(seq![all[i]], rest));
        if rest is Some {
            assert(out + (seq![all[i]] + rest.unwrap()) =~= out.push(all[i]) + rest.unwrap());
        }
    }
}

/// One step of the merge with the right element going out: it is the lesser
/// one, or the left run is used up.
proof fn lemma_on_course_right<T: PartialOrd>(all: Seq<T>, mid: int, out: Seq<T>, i: int, j: int)
    requires
        on_course(all, mid, out, i, j),
        0 <= i <= mid <= j < all.len(),
        i == mid || relation(all[i], all[j]) == Relation::Greater,
    ensures
        on_course(all, mid, out.push(all[j]), i, j + 1),
{
    let left = all.subrange(i, mid);
    let right = all.skip(j);
    assert(right.drop_first() =~= all.skip(j + 1));
    let rest = merged(left, all.skip(j + 1));
    if i == mid {
        assert(merged(left, right) == Some(right));
        assert(rest == Some(all.skip(j + 1)));
        assert(out + right =~= out.push(all[j]) + all.skip(j + 1));
    } else {
        assert(merged(left, right) == emit(seq![all[j]], rest));
        if rest is Some {
            assert(out + (seq![all[j]] + rest.unwrap()) =~= out.push(all[j]) + rest.unwrap());
        }
    }
}

/// One step of the merge with two equal elements going out, the left one
/// first.
proof fn lemma_on_course_both<T: PartialOrd>(all: Seq<T>, mid: int, out: Seq<T>, i: int, j: int)
    requires
        on_course(all, mid, out, i, j),
        0 <= i < mid <= j < all.len(),
        relation(all[i], all[j]) == Relation::Equal,
    ensures
        on_course(all, mid, out.push(all[i]).push(all[j]), i + 1, j + 1),
{
    let left = all.subrange(i, mid);
    let right = all.skip(j);
    assert(left.drop_first() =~= all.subrange(i + 1, mid));
    assert(right.drop_first() =~= all.skip(j + 1));
    let rest = merged(all.subrange(i + 1, mid), all.skip(j + 1));
    assert(merged(left, right) == emit(seq![all[i], all[j]], rest));
    if rest is Some {
        assert(out + (seq![all[i], all[j]] + rest.unwrap()) =~= out.push(all[i]).push(all[j])
            + rest.unwrap());
    }
}

/// Two elements that cannot be ordered end the merge.
proof fn lemma_on_course_fails<T: PartialOrd>(all: Seq<T>, mid: int, out: Seq<T>, i: int, j: int)
    requires
        on_course(all, mid, out, i, j),
        0 <= i < mid <= j < all.len(),
        relation(all[i], all[j]) == Relation::Incomparable,
    ensures
        merged(all.take(mid), all.skip(mid)) is None,
{
}

/// With both runs used up, what has gone out is the merge, and it holds the
/// elements of the two runs.
proof fn lemma_on_course_end<T: PartialOrd>(all: Seq<T>, mid: int, out: Seq<T>)
    requires
        0 <= mid <= all.len(),
    ensures
        on_course(all, mid, out, mid, all.len() as int) ==> merged(all.take(mid), all.skip(mid))
            == Some(out),
        out.to_multiset() == all.take(mid).to_multiset().add(
            all.subrange(mid, all.len() as int).to_multiset(),
        ) ==> out.to_multiset() == all.to_multiset(),
{
    assert(out + Seq::<T>::empty() =~= out);
    assert(all.take(mid) + all.subrange(mid, all.len() as int) =~= all);
    vstd::seq_lib::lemma_multiset_commutative(all.take(mid), all.subrange(mid, all.len() as int));
}

/// Merges the runs `input[..mid]` and `input[mid..]` into one run, in place.
/// The merged run is built in `temp` and then brought back. Elements only
/// change places with each other, so the two buffers hold between them what
/// they held, also after a failure; where in `temp` its elements lie
/// afterwards is of no account, nor where in either buffer after a failure.
pub fn merge<T: PartialOrd>(input: &mut [T], mid: usize, temp: &mut [T]) -> (r: MergeResult<()>)
    requires
        mid <= old(input)@.len() <= old(temp)@.len(),
    ensures
        final(input)@.len() == old(input)@.len(),
        final(temp)@.len() == old(temp)@.len(),
        holdings(final(input)@, final(temp)@) == holdings(old(input)@, old(temp)@),
        r matches Err(e) ==> e@ == INCOMPARABLE_ELEMENTS@,
        r is Ok ==> final(input)@.to_multiset() == old(input)@.to_multiset(),
        obeys_order::<T>() ==> merge_outcome(
            old(input)@.take(mid as int),
            old(input)@.skip(mid as int),
            r,
            final(input)@,
        ),
{
    let len = input.len();
    let ghost all = input@;
    let ghost scratch = temp@.len();
    let ghost mut out = Seq::<T>::empty();
    let mut p: usize = 0;
    let mut i: usize = 0;
    let mut j: usize = mid;
    proof {
        lemma_buffers_start(all, mid as int, temp@);
        lemma_on_course_start(all, mid as int);
    }
    while i < mid && j < len
        invariant
            all == old(input)@,
            len == all.len(),
            scratch == old(temp)@.len(),
            temp@.len() == scratch,
            holdings(input@, temp@) == holdings(old(input)@, old(temp)@),
            p == out.len(),
            buffers(all, mid as int, input@, temp@, out, i as int, j as int),
            obeys_order::<T>() ==> on_course(all, mid as int, out, i as int, j as int),
        decreases (mid - i) + (len - j),
    {
        match compare(&input[i], &input[j]) {
            Relation::Equal => {
                proof {
                    lemma_buffers_left(all, mid as int, input@, temp@, out, i as int, j as int);
                    if obeys_order::<T>() {
                        lemma_on_course_both(all, mid as int, out, i as int, j as int);
                    }
                    out = out.push(all[i as int]);
                }
                swap_elements(input, i, temp, p);
                p += 1;
                i += 1;
                proof {
                    lemma_buffers_right(all, mid as int, input@, temp@, out, i as int, j as int);
                    out = out.push(all[j as int]);
                }
                swap_elements(input, j, temp, p);
                p += 1;
                j += 1;
            },
            Relation::Greater => {
                proof {
                    lemma_buffers_right(all, mid as int, input@, temp@, out, i as int, j as int);
                    if obeys_order::<T>() {
                        lemma_on_course_right(all, mid as int, out, i as int, j as int);
                    }
                    out = out.push(all[j as int]);
                }
                swap_elements(input, j, temp, p);
                p += 1;
                j += 1;
            },
            Relation::Less => {
                proof {
                    lemma_buffers_left(all, mid as int, input@, temp@, out, i as int, j as int);
                    if obeys_order::<T>() {
                        lemma_on_course_left(all, mid as int, out, i as int, j as int);
                    }
                    out = out.push(all[i as int]);
                }
                swap_elements(input, i, temp, p);
                p += 1;
                i += 1;
            },
            Relation::Incomparable => {
                proof {
                    if obeys_order::<T>() {
                        lemma_on_course_fails(all, mid as int, out, i as int, j as int);
                    }
                }
                return Err(INCOMPARABLE_ELEMENTS);
            },
        }
    }
    while i < mid
        invariant
            all == old(input)@,
            len == all.len(),
            scratch == old(temp)@.len(),
            temp@.len() == scratch,
            holdings(input@, temp@) == holdings(old(input)@, old(temp)@),
            p == out.len(),
            i < mid ==> j == len,
            buffers(all, mid as int, input@, temp@, out, i as int, j as int),
            obeys_order::<T>() ==> on_course(all, mid as int, out, i as int, j as int),
        decreases mid - i,
    {
        proof {
            lemma_buffers_left(all, mid as int, input@, temp@, out, i as int, j as int);
            if obeys_order::<T>() {
                lemma_on_course_left(all, mid as int, out, i as int, j as int);
            }
            out = out.push(all[i as int]);
        }
        swap_elements(input, i, temp, p);
        p += 1;
        i += 1;
    }
    while j < len
        invariant
            all == old(input)@,
            len == all.len(),
            scratch == old(temp)@.len(),
            temp@.len() == scratch,
            holdings(input@, temp@) == holdings(old(input)@, old(temp)@),
            p == out.len(),
            i == mid,
            buffers(all, mid as int, input@, temp@, out, i as int, j as int),
            obeys_order::<T>() ==> on_course(all, mid as int, out, i as int, j as int),
        decreases len - j,
    {
        proof {
            lemma_buffers_right(all, mid as int, input@, temp@, out, i as int, j as int);
            if obeys_order::<T>() {
                lemma_on_course_right(all, mid as int, out, i as int, j as int);
            }
            out = out.push(all[j as int]);
        }
        swap_elements(input, j, temp, p);
        p += 1;
        j += 1;
    }
    proof {
        lemma_on_course_end(all, mid as int, out);
    }
    let mut k: usize = 0;
    while k < len
        invariant
            k <= len,
            len == all.len(),
            len == out.len(),
            input@.len() == len,
            temp@.len() == scratch,
            scratch >= len,
            holdings(input@, temp@) == holdings(old(input)@, old(temp)@),
            forall|x: int| 0 <= x < k ==> input@[x] == out[x],
            forall|x: int| k <= x < len ==> temp@[x] == out[x],
        decreases len - k,
    {
        assert(holdings(temp@, input@) =~= holdings(input@, temp@));
        swap_elements(temp, k, input, k);
        assert(holdings(temp@, input@) =~= holdings(input@, temp@));
        k += 1;
    }
    assert(input@ =~= out);
    Ok(())
}

} // verus!
