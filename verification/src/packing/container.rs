use vstd::prelude::*;

verus! {

/// A container of inner size `length` by `width` by `height`.
pub struct Container<T> {
    pub length: T,
    pub width: T,
    pub height: T,
}

impl<T> Container<T> {
    pub fn new(length: T, width: T, height: T) -> (c: Self)
        ensures
            c.length == length,
            c.width == width,
            c.height == height,
    {
        Container { length, width, height }
    }
}

} // verus!
