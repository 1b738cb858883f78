use crate::binary_heap::is_max_of;
use vstd::multiset::Multiset;
use vstd::prelude::*;

verus! {

/// What bounded top-k algorithms need of a heap: bulk construction from all the
/// candidates, and popping the greatest one while a condition accepts it.
pub trait Heap: Sized {
    /// The heap's internal invariant.
    spec fn inv(&self) -> bool;

    /// The elements held, with their multiplicities.
    spec fn contents(&self) -> Multiset<i32>;

    /// Builds a heap holding exactly the given elements.
    fn make(this: Vec<i32>) -> (r: Self)
        ensures
            r.inv(),
            r.contents() == this@.to_multiset(),
    ;

    /// Pops a greatest element if `predicate` accepts it; otherwise changes nothing and
    /// returns `None`.
    fn pop_if<F: FnOnce(&i32) -> bool>(&mut self, predicate: F) -> (r: Option<i32>)
        requires
            old(self).inv(),
            forall|x: &i32| predicate.requires((x,)),
        ensures
            final(self).inv(),
            r matches Some(x) ==> {
                &&& is_max_of(old(self).contents(), x)
                &&& predicate.ensures((&x,), true)
                &&& final(self).contents() == old(self).contents().remove(x)
            },
            r is None ==> *final(self) == *old(self) && (old(self).contents().len() == 0
                || exists|x: i32|
                is_max_of(old(self).contents(), x) && predicate.ensures((&x,), false)),
    ;
}

} // verus!
