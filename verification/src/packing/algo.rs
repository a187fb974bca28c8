use vstd::prelude::*;

use crate::packing::container::Container;
use crate::packing::item::Item;

verus! {

/// The sides of a container as one orientation lays them: `x` across, `y`
/// the direction in which layers are stacked, and `z` deep.
#[derive(Debug, PartialEq)]
pub struct Orientation<T> {
    pub x: T,
    pub y: T,
    pub z: T,
}

/// The orientation of container `c` numbered `variant`; there are six,
/// numbered 0 to 5.
pub open spec fn orientation_of<T>(c: Container<T>, variant: int) -> Option<Orientation<T>> {
    if variant == 0 {
        Some(Orientation { x: c.width, y: c.height, z: c.length })
    } else if variant == 1 {
        Some(Orientation { x: c.length, y: c.height, z: c.width })
    } else if variant == 2 {
        Some(Orientation { x: c.length, y: c.width, z: c.height })
    } else if variant == 3 {
        Some(Orientation { x: c.height, y: c.width, z: c.length })
    } else if variant == 4 {
        Some(Orientation { x: c.width, y: c.length, z: c.height })
    } else if variant == 5 {
        Some(Orientation { x: c.height, y: c.length, z: c.width })
    } else {
        None
    }
}

/// Each orientation of a container lays its three sides along the three
/// directions: `(x, y, z)` is a rearrangement of `(length, width, height)`.
pub proof fn lemma_orientation_permutes<T>(c: Container<T>, variant: int)
    requires
        0 <= variant < 6,
    ensures
        orientation_of(c, variant) matches Some(o) && seq![o.x, o.y, o.z].to_multiset()
            == seq![c.length, c.width, c.height].to_multiset(),
{
    broadcast use vstd::seq_lib::group_to_multiset_ensures;
    broadcast use vstd::multiset::group_multiset_axioms;
    let o = orientation_of(c, variant).unwrap();
    let s = seq![o.x, o.y, o.z];
    let t = seq![c.length, c.width, c.height];
    assert(s =~= seq![o.x, o.y].push(o.z));
    assert(seq![o.x, o.y] =~= seq![o.x].push(o.y));
    assert(seq![o.x] =~= Seq::<T>::empty().push(o.x));
    assert(t =~= seq![c.length, c.width].push(c.height));
    assert(seq![c.length, c.width] =~= seq![c.length].push(c.width));
    assert(seq![c.length] =~= Seq::<T>::empty().push(c.length));
    assert(Seq::<T>::empty().to_multiset() =~= vstd::multiset::Multiset::empty()) by {
        assert forall|v: T| Seq::<T>::empty().to_multiset().count(v) == 0 by {
            assert(!Seq::<T>::empty().contains(v));
        }
    }
    assert(s.to_multiset() =~= t.to_multiset());
}

/// Walks through the orientations of a container.
pub struct OrientationVariant<'a, T> {
    pub current_variant: usize,
    pub container: &'a Container<T>,
}

impl<'a, T> Clone for OrientationVariant<'a, T> {
    fn clone(&self) -> (v: Self)
        ensures
            v == *self,
    {
        OrientationVariant { current_variant: self.current_variant, container: self.container }
    }
}

impl<'a, T: Copy> OrientationVariant<'a, T> {
    /// Starts at orientation 0 of `container`.
    pub fn from_container(container: &'a Container<T>) -> (v: Self)
        ensures
            v.current_variant == 0,
            *v.container == *container,
    {
        OrientationVariant { current_variant: 0, container }
    }

    /// The orientation numbered `current_variant`, moving on to the next
    /// one; `None` once all six have been given.
    pub fn next(&mut self) -> (o: Option<Orientation<T>>)
        ensures
            *final(self).container == *old(self).container,
            o == orientation_of(*old(self).container, old(self).current_variant as int),
            old(self).current_variant < 6 ==> final(self).current_variant == old(self).current_variant + 1,
            old(self).current_variant >= 6 ==> final(self).current_variant == old(self).current_variant,
    {
        let c = self.container;
        let variant = self.current_variant;
        if variant < 6 {
            self.current_variant = variant + 1;
        }
        match variant {
            0 => Some(Orientation { x: c.width, y: c.height, z: c.length }),
            1 => Some(Orientation { x: c.length, y: c.height, z: c.width }),
            2 => Some(Orientation { x: c.length, y: c.width, z: c.height }),
            3 => Some(Orientation { x: c.height, y: c.width, z: c.length }),
            4 => Some(Orientation { x: c.width, y: c.length, z: c.height }),
            5 => Some(Orientation { x: c.height, y: c.length, z: c.width }),
            _ => None,
        }
    }
}

/// The list in which each kind of `items` stands `quantity` times in a row,
/// in the order of the kinds; kinds of quantity 0 drop out.
pub open spec fn expanded<T>(items: Seq<Item<T>>) -> Seq<Item<T>>
    decreases items.len(),
{
    if items.len() == 0 {
        Seq::empty()
    } else {
        expanded(items.drop_last()) + Seq::new(items.last().quantity as nat, |j: int| items.last())
    }
}

/// The number of items that the kinds in `items` stand for.
pub open spec fn total_quantity<T>(items: Seq<Item<T>>) -> int
    decreases items.len(),
{
    if items.len() == 0 {
        0
    } else {
        total_quantity(items.drop_last()) + items.last().quantity
    }
}

/// Expanding the kinds gives as many items as their quantities add up to.
pub proof fn lemma_expanded_len<T>(items: Seq<Item<T>>)
    ensures
        expanded(items).len() == total_quantity(items),
    decreases items.len(),
{
    if items.len() > 0 {
        lemma_expanded_len(items.drop_last());
    }
}

/// The items to pack, one by one: each kind of `item_list` repeated
/// `quantity` times.
pub fn flatten_items<T: Copy>(item_list: &Vec<Item<T>>) -> (flat: Vec<Item<T>>)
    ensures
        flat@ == expanded(item_list@),
{
    let mut flat: Vec<Item<T>> = Vec::new();
    let mut i: usize = 0;
    while i < item_list.len()
        invariant
            i <= item_list.len(),
            flat@ == expanded(item_list@.subrange(0, i as int)),
        decreases item_list.len() - i,
    {
        let item = &item_list[i];
        let ghost before = flat@;
        let mut q: usize = 0;
        while q < item.quantity
            invariant
                i < item_list.len(),
                *item == item_list@[i as int],
                q <= item.quantity,
                flat@ == before + Seq::new(q as nat, |j: int| *item),
            decreases item.quantity - q,
        {
            flat.push(item.clone());
            q = q + 1;
            assert(flat@ =~= before + Seq::new(q as nat, |j: int| *item));
        }
        proof {
            let next = item_list@.subrange(0, i + 1);
            assert(next.drop_last() =~= item_list@.subrange(0, i as int));
            assert(next.last() == *item);
        }
        i = i + 1;
    }
    assert(item_list@.subrange(0, item_list.len() as int) =~= item_list@);
    flat
}

/// The item at position `bn` of `items`, if there is one.
pub fn get_current_item<T: Copy>(items: &Vec<Item<T>>, bn: usize) -> (r: Option<Item<T>>)
    ensures
        bn < items.len() ==> r == Some(items@[bn as int]),
        bn >= items.len() ==> r is None,
{
    if bn < items.len() {
        Some(items[bn].clone())
    } else {
        None
    }
}

} // verus!
