use vstd::prelude::*;

verus! {

/// An item to put into a bin: its three sides.
#[derive(Debug, PartialEq)]
pub struct BinItem<T> {
    pub width: T,
    pub height: T,
    pub depth: T,
}

impl<T: Copy> Clone for BinItem<T> {
    fn clone(&self) -> (c: Self)
        ensures
            c == *self,
    {
        BinItem { width: self.width, height: self.height, depth: self.depth }
    }
}

/// A bin of inner size `width` by `height` by `depth`, and the items put
/// into it.
pub struct Bin<T> {
    pub name: String,
    pub width: T,
    pub height: T,
    pub depth: T,
    pub items: Vec<BinItem<T>>,
}

/// `fits(width, height, depth, item)` tells whether `item` fits a bin of
/// that size; it may be called on any arguments.
pub open spec fn fits_total<T, F>(fits: F) -> bool
    where F: Fn(&T, &T, &T, &BinItem<T>) -> bool,
{
    forall|w: T, h: T, d: T, item: BinItem<T>| call_requires(fits, (&w, &h, &d, &item))
}

/// `fits` may answer `ok` for `item` and a bin of the size of `bin`.
pub open spec fn reported_fit<T, F>(fits: F, bin: Bin<T>, item: BinItem<T>, ok: bool) -> bool
    where F: Fn(&T, &T, &T, &BinItem<T>) -> bool,
{
    call_ensures(fits, (&bin.width, &bin.height, &bin.depth, &item), ok)
}

impl<T> Bin<T> {
    /// Puts `item` into the bin if `fits` says it fits; answers whether it did.
    pub fn add_item<F>(&mut self, item: BinItem<T>, fits: &F) -> (added: bool)
        where F: Fn(&T, &T, &T, &BinItem<T>) -> bool,
        requires
            fits_total(*fits),
        ensures
            reported_fit(*fits, *old(self), item, added),
            final(self).name == old(self).name,
            final(self).width == old(self).width,
            final(self).height == old(self).height,
            final(self).depth == old(self).depth,
            added ==> final(self).items@ == old(self).items@.push(item),
            !added ==> final(self).items@ == old(self).items@,
    {
        if fits(&self.width, &self.height, &self.depth, &item) {
            self.items.push(item);
            true
        } else {
            false
        }
    }
}

} // verus!
