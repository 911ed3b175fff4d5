use vstd::prelude::*;

verus! {

/// A scene that hands every call on to the object it shows.
pub struct SampleScene<T> {
    pub obj: T,
}

impl<T> SampleScene<T> {
    pub fn new(obj: T) -> (r: SampleScene<T>)
        ensures
            r.obj == obj,
    {
        SampleScene { obj }
    }
}

} // verus!
