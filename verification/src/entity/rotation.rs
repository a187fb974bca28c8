use vstd::prelude::*;

verus! {

/// How an item's three sides `(l, w, h)` are laid along the axes
/// `(X, Y, Z)` of the container. The name lists the sides in axis order.
#[derive(Clone, Copy, Debug, PartialEq, Eq, Structural)]
pub enum Rotation {
    /// `(l, w, h)`
    LWH,
    /// `(w, l, h)`
    WLH,
    /// `(w, h, l)`
    WHL,
    /// `(h, l, w)`
    HLW,
    /// `(h, w, l)`
    HWL,
    /// `(l, h, w)`
    LHW,
}

impl Rotation {
    /// The sides `(l, w, h)` in the order in which this rotation lays them
    /// along X, Y and Z.
    pub open spec fn arrange<T>(self, l: T, w: T, h: T) -> (T, T, T) {
        match self {
            Rotation::LWH => (l, w, h),
            Rotation::WLH => (w, l, h),
            Rotation::WHL => (w, h, l),
            Rotation::HLW => (h, l, w),
            Rotation::HWL => (h, w, l),
            Rotation::LHW => (l, h, w),
        }
    }
}

} // verus!
