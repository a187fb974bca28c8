use vstd::prelude::*;

verus! {

/// One of the three axes of the container: `X` runs along the length,
/// `Y` along the width and `Z` along the height.
#[derive(Clone, Copy, Debug, PartialEq, Eq, Structural)]
pub enum Axis {
    X,
    Y,
    Z,
}

} // verus!
