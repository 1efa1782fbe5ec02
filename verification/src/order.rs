//! The ordering contract: how two elements stand to each other, and what it
//! means for a type's comparison to be a partial or a total order.

use core::cmp::Ordering;
use vstd::prelude::*;
use vstd::std_specs::cmp::PartialOrdSpec;

verus! {

/// How a first element stands to a second one.
#[derive(Clone, Copy, Debug, PartialEq, Eq, Structural)]
pub enum Relation {
    /// The first comes before the second.
    Less,
    /// Neither comes before the other.
    Equal,
    /// The first comes after the second.
    Greater,
    /// The two cannot be ordered.
    Incomparable,
}

/// Whether the comparison that `T` executes is the one that `relation`
/// describes. Where it is not (floating point, for one), a comparison may
/// return anything, and contracts promise only what holds of every outcome.
pub open spec fn obeys_order<T: PartialOrd>() -> bool {
    T::obeys_partial_cmp_spec()
}

/// The relation that the outcome of a comparison stands for.
pub open spec fn relation_of(outcome: Option<Ordering>) -> Relation {
    match outcome {
        Some(Ordering::Less) => Relation::Less,
        Some(Ordering::Equal) => Relation::Equal,
        Some(Ordering::Greater) => Relation::Greater,
        None => Relation::Incomparable,
    }
}

/// The relation in which `a` stands to `b`.
pub open spec fn relation<T: PartialOrd>(a: T, b: T) -> Relation {
    relation_of(a.partial_cmp_spec(&b))
}

/// `a` is not after `b`: it is less than `b` or equal to it.
pub open spec fn precedes<T: PartialOrd>(a: T, b: T) -> bool {
    relation(a, b) == Relation::Less || relation(a, b) == Relation::Equal
}

/// `a` and `b` can be ordered in at least one direction.
pub open spec fn comparable<T: PartialOrd>(a: T, b: T) -> bool {
    relation(a, b) != Relation::Incomparable || relation(b, a) != Relation::Incomparable
}

/// The comparison of `T` is a partial order: less one way is greater the
/// other way, equal is symmetric, and "not after" is transitive.
pub open spec fn partial_order<T: PartialOrd>() -> bool {
    &&& forall|a: T, b: T|
        relation(a, b) == Relation::Less <==> #[trigger] relation(b, a) == Relation::Greater
    &&& forall|a: T, b: T|
        relation(a, b) == Relation::Equal ==> #[trigger] relation(b, a) == Relation::Equal
    &&& forall|a: T, b: T, c: T| #[trigger]
        precedes(a, b) && #[trigger] precedes(b, c) ==> precedes(a, c)
}

/// The comparison of `T` is a total order: a partial order in which any two
/// elements can be ordered.
pub open spec fn total_order<T: PartialOrd>() -> bool {
    &&& partial_order::<T>()
    &&& forall|a: T, b: T| #[trigger] relation(a, b) != Relation::Incomparable
}

/// A comparison of `a` with `b`, as `T` executes it, may have `r` for its
/// outcome.
pub open spec fn compared<T: PartialOrd>(a: T, b: T, r: Relation) -> bool {
    exists|outcome: Option<Ordering>| #[trigger]
        call_ensures(T::partial_cmp, (&a, &b), outcome) && r == relation_of(outcome)
}

/// Compares two elements: the result stands for what the comparison of `T`
/// returned, which is the relation of the two where `T` obeys its order.
pub fn compare<T: PartialOrd>(a: &T, b: &T) -> (r: Relation)
    ensures
        compared(*a, *b, r),
        obeys_order::<T>() ==> r == relation(*a, *b),
{
    match a.partial_cmp(b) {
        Some(Ordering::Less) => Relation::Less,
        Some(Ordering::Equal) => Relation::Equal,
        Some(Ordering::Greater) => Relation::Greater,
        None => Relation::Incomparable,
    }
}

} // verus!
