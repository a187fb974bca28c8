use vstd::prelude::*;

use crate::entity::rotation::Rotation;
use crate::entity::vector3::Vector3;

verus! {

/// A box to be packed: its sides `dim`, the position `pos` of its corner
/// nearest the container's origin, and the rotation in which it lies.
#[derive(Debug)]
pub struct Item<T> {
    pub id: String,
    pub dim: Vector3<T>,
    pub pos: Vector3<T>,
    pub rot: Rotation,
}

impl<T> Item<T> {
    /// The extent of the item along X, Y and Z in its current rotation.
    pub open spec fn rotated_dims(self) -> Vector3<T> {
        Vector3::from_triple(self.rot.arrange(self.dim.length, self.dim.width, self.dim.height))
    }

    /// The same item, lying at `pos` in rotation `rot`.
    pub open spec fn placed(self, pos: Vector3<T>, rot: Rotation) -> Item<T> {
        Item { id: self.id, dim: self.dim, pos, rot }
    }
}

impl<T: Copy + Default> Item<T> {
    /// An item with sides `length`, `width` and `height`, at the origin and
    /// not rotated.
    pub fn new(id: String, length: T, width: T, height: T) -> (item: Self)
        ensures
            item.id == id,
            item.dim == Vector3::from_triple((length, width, height)),
            item.pos.is_origin(),
            item.rot == Rotation::LWH,
    {
        Item { id, dim: Vector3::new((length, width, height)), pos: Vector3::default(), rot: Rotation::LWH }
    }
}

impl<T: Copy> Item<T> {
    /// The item's sides along X, Y and Z, as its rotation lays them.
    pub fn dimensions(&self) -> (d: Vector3<T>)
        ensures
            d == self.rotated_dims(),
    {
        let l = self.dim.length;
        let w = self.dim.width;
        let h = self.dim.height;
        match self.rot {
            Rotation::LWH => Vector3::new((l, w, h)),
            Rotation::WLH => Vector3::new((w, l, h)),
            Rotation::WHL => Vector3::new((w, h, l)),
            Rotation::HLW => Vector3::new((h, l, w)),
            Rotation::HWL => Vector3::new((h, w, l)),
            Rotation::LHW => Vector3::new((l, h, w)),
        }
    }
}

impl<T: Copy> Clone for Item<T> {
    fn clone(&self) -> (c: Self)
        ensures
            c == *self,
    {
        Item { id: self.id.clone(), dim: self.dim, pos: self.pos, rot: self.rot }
    }
}

/// An item together with the number of copies of it to pack.
pub struct ItemSpec<T> {
    pub spec: Item<T>,
    pub qty: usize,
}

/// A rotation only rearranges the sides of an item: its extents along X,
/// Y and Z are its three sides, in some order.
pub proof fn lemma_rotation_rearranges<T>(item: Item<T>)
    ensures
        ({
            let d = item.rotated_dims();
            seq![d.length, d.width, d.height].to_multiset()
                == seq![item.dim.length, item.dim.width, item.dim.height].to_multiset()
        }),
{
    broadcast use vstd::seq_lib::group_to_multiset_ensures;
    broadcast use vstd::multiset::group_multiset_axioms;
    let d = item.rotated_dims();
    let (l, w, h) = (item.dim.length, item.dim.width, item.dim.height);
    let s = seq![d.length, d.width, d.height];
    let t = seq![l, w, h];
    assert(Seq::<T>::empty().to_multiset() =~= vstd::multiset::Multiset::empty()) by {
        assert forall|v: T| Seq::<T>::empty().to_multiset().count(v) == 0 by {
            assert(!Seq::<T>::empty().contains(v));
        }
    }
    assert(s =~= Seq::<T>::empty().push(d.length).push(d.width).push(d.height));
    assert(t =~= Seq::<T>::empty().push(l).push(w).push(h));
    assert(s.to_multiset() =~= t.to_multiset());
}

/// An item lying unrotated (`LWH`) spans its own sides along X, Y and Z;
/// so does every new item.
pub proof fn lemma_unrotated_dims<T>(item: Item<T>)
    requires
        item.rot == Rotation::LWH,
    ensures
        item.rotated_dims() == item.dim,
{
}

} // verus!
