use vstd::prelude::*;

use crate::packing::bin::{Bin, BinItem};

verus! {

/// The state of a packing heuristic over a row of bins.
pub struct NewHeuristic<T> {
    is_full: bool,
    bins: Vec<Bin<T>>,
}

/// Packs `items` into `bins` by the new heuristic, which so far packs
/// nothing: the bins are left as they are.
pub fn compute<T>(bins: &mut Vec<Bin<T>>, items: &Vec<BinItem<T>>)
    ensures
        final(bins)@ == old(bins)@,
{
}

} // verus!
