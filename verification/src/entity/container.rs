use vstd::prelude::*;

use crate::entity::item::Item;
use crate::entity::vector3::Vector3;

verus! {

/// A container of inner size `dim` and the items placed in it so far.
#[derive(Debug)]
pub struct Container<T> {
    pub id: String,
    pub dim: Vector3<T>,
    pub items: Vec<Item<T>>,
}

impl<T> Container<T> {
    /// An empty container.
    pub fn new(id: String, dim: Vector3<T>) -> (c: Self)
        ensures
            c.id == id,
            c.dim == dim,
            c.items@ == Seq::<Item<T>>::empty(),
    {
        Container { id, dim, items: Vec::new() }
    }
}

impl<T: Copy> Clone for Container<T> {
    fn clone(&self) -> (c: Self)
        ensures
            c.id == self.id,
            c.dim == self.dim,
            c.items@ == self.items@,
    {
        let items = self.items.clone();
        assert(items@ =~= self.items@);
        Container { id: self.id.clone(), dim: self.dim, items }
    }
}

/// A kind of container together with the number of them available.
pub struct ContainerSpec<T> {
    pub spec: Container<T>,
    pub qty: usize,
}

} // verus!
