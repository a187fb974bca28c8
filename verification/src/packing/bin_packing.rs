use vstd::prelude::*;

use crate::packing::bin::{Bin, BinItem, fits_total, reported_fit};

verus! {

/// A row of bins that items are put into.
pub struct BinPacking<T> {
    pub bins: Vec<Bin<T>>,
}

/// The items of `items` that `dest` sends to bin `b`, in their order.
pub open spec fn assigned<T>(items: Seq<BinItem<T>>, dest: Seq<int>, b: int) -> Seq<BinItem<T>>
    decreases items.len(),
{
    if items.len() == 0 || dest.len() == 0 {
        Seq::empty()
    } else {
        let rest = assigned(items.drop_last(), dest.drop_last(), b);
        if dest.last() == b {
            rest.push(items.last())
        } else {
            rest
        }
    }
}

/// `a` and `b` have the same name, size and items.
pub open spec fn same_bin<T>(a: Bin<T>, b: Bin<T>) -> bool {
    &&& a.name == b.name
    &&& a.width == b.width
    &&& a.height == b.height
    &&& a.depth == b.depth
    &&& a.items@ == b.items@
}

/// `item` went to bin `dest` of `bins` (none if `dest` is -1), the first
/// bin that `fits` said it fitted.
pub open spec fn first_fit<T, F>(fits: F, bins: Seq<Bin<T>>, item: BinItem<T>, dest: int) -> bool
    where F: Fn(&T, &T, &T, &BinItem<T>) -> bool,
{
    &&& -1 <= dest < bins.len()
    &&& forall|b: int| 0 <= b < bins.len() && (dest == -1 || b < dest)
        ==> reported_fit(fits, #[trigger] bins[b], item, false)
    &&& dest >= 0 ==> reported_fit(fits, bins[dest], item, true)
}

/// The bins of `after` are those of `before`, same name and size, each
/// holding what it held and then the items that `dest` sends to it.
pub open spec fn bins_after<T>(before: Seq<Bin<T>>, after: Seq<Bin<T>>, items: Seq<BinItem<T>>, dest: Seq<int>) -> bool {
    &&& after.len() == before.len()
    &&& forall|b: int| 0 <= b < before.len() ==> {
        &&& (#[trigger] after[b]).name == before[b].name
        &&& after[b].width == before[b].width
        &&& after[b].height == before[b].height
        &&& after[b].depth == before[b].depth
        &&& after[b].items@ == before[b].items@ + assigned(items, dest, b)
    }
}

impl<T: Copy> BinPacking<T> {
    /// Puts each item, in turn, into the first bin that it fits, if any.
    pub fn pack_items<F>(&mut self, items: Vec<BinItem<T>>, fits: &F)
        where F: Fn(&T, &T, &T, &BinItem<T>) -> bool,
        requires
            fits_total(*fits),
        ensures
            exists|dest: Seq<int>| {
                &&& dest.len() == items.len()
                &&& #[trigger] bins_after(old(self).bins@, final(self).bins@, items@, dest)
                &&& forall|i: int| 0 <= i < items.len() ==> first_fit(*fits, old(self).bins@, #[trigger] items@[i], dest[i])
            },
    {
        let ghost mut dest: Seq<int> = Seq::empty();
        let mut i: usize = 0;
        while i < items.len()
            invariant
                i <= items.len(),
                fits_total(*fits),
                dest.len() == i,
                bins_after(old(self).bins@, self.bins@, items@.subrange(0, i as int), dest),
                forall|k: int| 0 <= k < i ==> first_fit(*fits, old(self).bins@, #[trigger] items@[k], dest[k]),
            decreases items.len() - i,
        {
            let ghost before = self.bins@;
            let mut b: usize = 0;
            let mut placed = false;
            while b < self.bins.len()
                invariant_except_break
                    !placed,
                    forall|c: int| 0 <= c < before.len() ==> same_bin(#[trigger] self.bins@[c], before[c]),
                    forall|c: int| 0 <= c < b ==> reported_fit(*fits, #[trigger] old(self).bins@[c], items@[i as int], false),
                invariant
                    i < items.len(),
                    b <= self.bins.len(),
                    fits_total(*fits),
                    bins_after(old(self).bins@, before, items@.subrange(0, i as int), dest),
                    self.bins.len() == before.len(),
                ensures
                    placed ==> {
                        &&& b < before.len()
                        &&& reported_fit(*fits, old(self).bins@[b as int], items@[i as int], true)
                        &&& forall|c: int| 0 <= c < b ==> reported_fit(*fits, #[trigger] old(self).bins@[c], items@[i as int], false)
                        &&& self.bins@[b as int].items@ == before[b as int].items@.push(items@[i as int])
                        &&& self.bins@[b as int].name == before[b as int].name
                        &&& self.bins@[b as int].width == before[b as int].width
                        &&& self.bins@[b as int].height == before[b as int].height
                        &&& self.bins@[b as int].depth == before[b as int].depth
                        &&& forall|c: int| 0 <= c < before.len() && c != b ==> same_bin(#[trigger] self.bins@[c], before[c])
                    },
                    !placed ==> {
                        &&& forall|c: int| 0 <= c < before.len() ==> same_bin(#[trigger] self.bins@[c], before[c])
                        &&& forall|c: int| 0 <= c < before.len() ==> reported_fit(*fits, #[trigger] old(self).bins@[c], items@[i as int], false)
                    },
                decreases self.bins.len() - b,
            {
                let item = items[i].clone();
                proof {
                    assert(before[b as int].width == old(self).bins@[b as int].width);
                }
                if self.bins[b].add_item(item, fits) {
                    placed = true;
                    break;
                }
                b = b + 1;
            }
            proof {
                let prefix = items@.subrange(0, i as int);
                let next = items@.subrange(0, i + 1);
                let d: int = if placed { b as int } else { -1int };
                let old_dest = dest;
                dest = dest.push(d);
                assert(next.drop_last() =~= prefix);
                assert(dest.drop_last() =~= old_dest);
                assert(next.last() == items@[i as int]);
                assert forall|c: int| 0 <= c < old(self).bins@.len() implies {
                    &&& (#[trigger] self.bins@[c]).name == old(self).bins@[c].name
                    &&& self.bins@[c].width == old(self).bins@[c].width
                    &&& self.bins@[c].height == old(self).bins@[c].height
                    &&& self.bins@[c].depth == old(self).bins@[c].depth
                    &&& self.bins@[c].items@ == old(self).bins@[c].items@ + assigned(next, dest, c)
                } by {
                    assert(before[c].items@ == old(self).bins@[c].items@ + assigned(prefix, old_dest, c));
                    if !(placed && c == b) {
                        assert(same_bin(self.bins@[c], before[c]));
                    }
                    if placed && c == b {
                        assert(assigned(next, dest, c) == assigned(prefix, old_dest, c).push(items@[i as int]));
                        assert(self.bins@[c].items@ =~= old(self).bins@[c].items@ + assigned(next, dest, c));
                    } else {
                        assert(assigned(next, dest, c) == assigned(prefix, old_dest, c));
                    }
                }
                assert(bins_after(old(self).bins@, self.bins@, next, dest));
                assert(first_fit(*fits, old(self).bins@, items@[i as int], d));
            }
            i = i + 1;
        }
        assert(items@.subrange(0, items.len() as int) =~= items@);
    }
}

} // verus!
