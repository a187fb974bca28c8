use vstd::prelude::*;

use crate::entity::axis::Axis;

verus! {

/// A triple of scalars along X (`length`), Y (`width`) and Z (`height`):
/// the size of a box or the position of its corner.
#[derive(Copy, Debug, PartialEq)]
pub struct Vector3<T> {
    pub length: T,
    pub width: T,
    pub height: T,
}

impl<T> Vector3<T> {
    /// The component of the vector along `axis`.
    pub open spec fn along(self, axis: Axis) -> T {
        match axis {
            Axis::X => self.length,
            Axis::Y => self.width,
            Axis::Z => self.height,
        }
    }

    /// The vector whose components are the triple `(l, w, h)`.
    pub open spec fn from_triple(t: (T, T, T)) -> Vector3<T> {
        Vector3 { length: t.0, width: t.1, height: t.2 }
    }

    /// Whether every component is a value that `T::default()` may return:
    /// the origin of the container.
    pub open spec fn is_origin(self) -> bool where T: Default {
        &&& call_ensures(T::default, (), self.length)
        &&& call_ensures(T::default, (), self.width)
        &&& call_ensures(T::default, (), self.height)
    }
}

impl<T: Copy> Vector3<T> {
    pub fn new(params: (T, T, T)) -> (v: Self)
        ensures
            v == Self::from_triple(params),
    {
        Vector3 { length: params.0, width: params.1, height: params.2 }
    }

    pub fn get_by_axis(&self, axis: &Axis) -> (r: T)
        ensures
            r == self.along(*axis),
    {
        match axis {
            Axis::X => self.length,
            Axis::Y => self.width,
            Axis::Z => self.height,
        }
    }
}

impl<T: Copy> Clone for Vector3<T> {
    fn clone(&self) -> (v: Self)
        ensures
            v == *self,
    {
        *self
    }
}

impl<T: Copy + Default> Default for Vector3<T> {
    /// The origin: every component is `T::default()`.
    fn default() -> (v: Self)
        ensures
            v.is_origin(),
            v.length == v.width && v.width == v.height,
    {
        let zero = T::default();
        Vector3 { length: zero, width: zero, height: zero }
    }
}

} // verus!
