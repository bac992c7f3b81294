//! Fresh-name generation interface.
use vstd::prelude::*;

verus! {

/// Statically dispatched generation of fresh names: a `Head` hint yields a
/// never-before-seen `Leaf`.
pub trait FreshGen<Head: ?Sized, Leaf> {
    fn fresh(&mut self, name_hint: &Head) -> Leaf;
}

} // verus!
