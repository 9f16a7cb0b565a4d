//! Priorities: the keys by which the consumers eligible for one event are
//! put in order.

use vstd::prelude::*;

verus! {

/// A key that orders consumers: lower keys are dispatched first. Its default
/// value is the key of every consumer that gives none of its own.
///
/// `not_after` is the order `<=` on keys. Two keys may tie without being
/// equal. An implementation that is not verified may leave `not_after` as it
/// is given here; a verified one states its order there.
pub trait ConsumerPriority: Sized + Default {
    /// Whether `self` is dispatched no later than `other`.
    open spec fn not_after(&self, other: &Self) -> bool {
        true
    }

    /// Decides `not_after`.
    fn is_not_after(&self, other: &Self) -> (b: bool)
        ensures
            b == self.not_after(other),
    ;
}

/// The keys of `P` are in order: of any two, one is not after the other, and
/// `not_after` is transitive.
pub open spec fn ordered<P: ConsumerPriority>() -> bool {
    &&& forall|a: P, b: P| #[trigger] a.not_after(&b) || b.not_after(&a)
    &&& forall|a: P, b: P, c: P|
        #[trigger] a.not_after(&b) && #[trigger] b.not_after(&c) ==> a.not_after(&c)
}

/// Keys that tie: neither is after the other.
pub open spec fn ties<P: ConsumerPriority>(a: &P, b: &P) -> bool {
    a.not_after(b) && b.not_after(a)
}

/// `a` is dispatched strictly before `b`.
pub open spec fn strictly_before<P: ConsumerPriority>(a: &P, b: &P) -> bool {
    a.not_after(b) && !b.not_after(a)
}

/// Keys in ascending order.
pub open spec fn ascending<P: ConsumerPriority>(keys: Seq<P>) -> bool {
    forall|i: int, j: int| 0 <= i < j < keys.len() ==> (#[trigger] keys[i]).not_after(#[trigger] &keys[j])
}

/// The one priority of consumers that do not care about order: every key
/// ties with every other.
#[derive(Clone, Copy, Debug, PartialEq, Eq, PartialOrd, Ord)]
pub struct DefaultPriority {}

impl Default for DefaultPriority {
    fn default() -> (p: Self)
        ensures
            p == (DefaultPriority {}),
    {
        DefaultPriority {}
    }
}

impl ConsumerPriority for DefaultPriority {
    open spec fn not_after(&self, other: &Self) -> bool {
        true
    }

    fn is_not_after(&self, other: &Self) -> (b: bool) {
        true
    }
}

/// Where `key` goes in `keys` so that the keys stay ascending and `key` comes
/// after every key it ties with: all keys before the returned place are not
/// after `key`, all keys from it on are strictly after `key`.
pub fn insertion_point<P: ConsumerPriority>(keys: &Vec<P>, key: &P) -> (place: usize)
    requires
        ordered::<P>(),
        ascending(keys@),
    ensures
        place <= keys.len(),
        forall|i: int| 0 <= i < place ==> (#[trigger] keys@[i]).not_after(key),
        forall|i: int| place <= i < keys.len() ==> strictly_before(key, #[trigger] &keys@[i]),
{
    let mut place: usize = keys.len();
    while place > 0
        invariant
            place <= keys.len(),
            ordered::<P>(),
            ascending(keys@),
            forall|i: int| place <= i < keys.len() ==> strictly_before(key, #[trigger] &keys@[i]),
        ensures
            place <= keys.len(),
            place > 0 ==> keys@[place - 1].not_after(key),
            forall|i: int| place <= i < keys.len() ==> strictly_before(key, #[trigger] &keys@[i]),
        decreases place,
    {
        if keys[place - 1].is_not_after(key) {
            break;
        }
        assert(key.not_after(&keys@[place - 1]));
        place -= 1;
    }
    proof {
        assert forall|i: int| 0 <= i < place implies (#[trigger] keys@[i]).not_after(key) by {
            if i < place - 1 {
                assert(keys@[i].not_after(&keys@[place - 1]));
            }
        }
    }
    place
}

} // verus!
