//! What the skyline asks of an item: a dominance test and an order by the
//! first coordinate of its score.

use std::cmp::Ordering;
use vstd::prelude::*;

verus! {

/// An item with a score vector that is to be maximised.
pub trait CanDominate: Sized {
    /// `self` dominates `other`. The default is the relation in which
    /// nothing dominates anything; an implementation whose `dominates` is to
    /// be verified states its own.
    open spec fn dominates_spec(&self, other: &Self) -> bool {
        false
    }

    /// A key that orders the items as the first coordinate of their scores
    /// does. The default gives all items one key; an implementation whose
    /// `compare_first_element` is to be verified states its own.
    open spec fn first(&self) -> int {
        0
    }

    /// Whether `self` dominates `other`.
    fn dominates(&self, other: &Self) -> (b: bool)
        ensures
            b == self.dominates_spec(other),
    ;

    /// Compares the first coordinates of the two scores.
    fn compare_first_element(&self, other: &Self) -> (o: Ordering)
        ensures
            o == Ordering::Less <==> self.first() < other.first(),
            o == Ordering::Greater <==> self.first() > other.first(),
    ;
}

/// Dominance is transitive among the items of `s`.
pub open spec fn transitive_on<T: CanDominate>(s: Seq<T>) -> bool {
    forall|x: T, y: T, z: T|
        s.contains(x) && s.contains(y) && s.contains(z) && #[trigger] x.dominates_spec(&y)
            && #[trigger] y.dominates_spec(&z) ==> x.dominates_spec(&z)
}

/// Among the items of `s`, the first coordinate of an item that dominates
/// another is no smaller.
pub open spec fn first_follows<T: CanDominate>(s: Seq<T>) -> bool {
    forall|x: T, y: T|
        s.contains(x) && s.contains(y) && #[trigger] x.dominates_spec(&y) ==> x.first()
            >= y.first()
}

/// Whether the first coordinate of `a` is less than that of `b`.
pub fn less_by_first<T: CanDominate>(a: &T, b: &T) -> (r: bool)
    ensures
        r == (a.first() < b.first()),
{
    match a.compare_first_element(b) {
        Ordering::Less => true,
        _ => false,
    }
}

} // verus!
