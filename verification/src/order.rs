//! What a queue of maxima asks of the order of its items.

use core::cmp::Ordering;
use vstd::prelude::*;
use vstd::std_specs::cmp::{PartialEqSpec, PartialOrdSpec};

verus! {

/// Whether `x` is strictly less than `y` in the order of the type.
pub open spec fn below<T: PartialOrd>(x: T, y: T) -> bool {
    x.partial_cmp_spec(&y) == Some(Ordering::Less)
}

/// Whether the order of the type is a total order that `<` and `==`
/// compute: of two items exactly one of less, equal and greater holds, and
/// less is transitive.
pub open spec fn total_order<T: PartialOrd>() -> bool {
    &&& T::obeys_eq_spec()
    &&& T::obeys_partial_cmp_spec()
    &&& forall|x: T, y: T| #[trigger] x.eq_spec(&y) <==> x == y
    &&& forall|x: T, y: T| #[trigger] below(x, y) ==> x != y && !below(y, x)
    &&& forall|x: T, y: T| !(#[trigger] below(x, y)) ==> x == y || below(y, x)
    &&& forall|x: T, y: T, z: T| #[trigger] below(x, y) && #[trigger] below(y, z) ==> below(x, z)
}

/// Whether `x < y`.
pub fn is_below<T: PartialOrd + Copy>(x: T, y: T) -> (yes: bool)
    requires
        total_order::<T>(),
    ensures
        yes == below(x, y),
{
    x < y
}

/// Whether `x == y`.
pub fn is_same<T: PartialOrd + Copy>(x: T, y: T) -> (yes: bool)
    requires
        total_order::<T>(),
    ensures
        yes == (x == y),
{
    x == y
}

/// The usual order of the 32-bit integers is a total order.
pub proof fn lemma_i32_total()
    ensures
        total_order::<i32>(),
{
}

/// The usual order of the 64-bit integers is a total order.
pub proof fn lemma_i64_total()
    ensures
        total_order::<i64>(),
{
}

/// The usual order of the unsigned 64-bit integers is a total order.
pub proof fn lemma_u64_total()
    ensures
        total_order::<u64>(),
{
}

} // verus!
