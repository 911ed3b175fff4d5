use vstd::prelude::*;
use crate::geometry::Aabb;

verus! {

/// A stored entry: an identifier and the box it occupies. Two items are equal when their
/// identifiers are.
#[derive(Clone, Copy, Debug)]
pub struct Item {
    pub bb: Aabb,
    pub id: u64,
}

impl PartialEq for Item {
    fn eq(&self, o: &Item) -> (r: bool)
        ensures
            r == (self.id == o.id),
    {
        self.id == o.id
    }
}

impl Eq for Item {
}

impl vstd::std_specs::cmp::PartialEqSpecImpl for Item {
    open spec fn obeys_eq_spec() -> bool {
        true
    }

    open spec fn eq_spec(&self, o: &Item) -> bool {
        self.id == o.id
    }
}

} // verus!
