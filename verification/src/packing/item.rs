use vstd::prelude::*;

verus! {

/// The three sides of an item.
#[derive(Debug, PartialEq)]
pub struct ItemDimension<T>(pub T, pub T, pub T);

/// The position of an item's corner in the container.
#[derive(Debug, PartialEq)]
pub struct ItemCoordinate<T> {
    pub x: T,
    pub y: T,
    pub z: T,
}

/// A kind of item: its sides, how many of it there are, and, once packed,
/// the sides along the axes and the position it was packed with.
#[derive(Debug, PartialEq)]
pub struct Item<T> {
    pub quantity: usize,
    pub dim: ItemDimension<T>,
    pub pack_dim: ItemDimension<T>,
    pub coord: ItemCoordinate<T>,
}

impl<T: Copy> Clone for ItemDimension<T> {
    fn clone(&self) -> (c: Self)
        ensures
            c == *self,
    {
        ItemDimension(self.0, self.1, self.2)
    }
}

impl<T: Copy> Clone for ItemCoordinate<T> {
    fn clone(&self) -> (c: Self)
        ensures
            c == *self,
    {
        ItemCoordinate { x: self.x, y: self.y, z: self.z }
    }
}

impl<T: Copy> Clone for Item<T> {
    fn clone(&self) -> (c: Self)
        ensures
            c == *self,
    {
        Item { quantity: self.quantity, dim: self.dim.clone(), pack_dim: self.pack_dim.clone(), coord: self.coord.clone() }
    }
}

impl<T: Copy + Default> Default for ItemDimension<T> {
    /// All three sides are `T::default()`.
    fn default() -> (d: Self)
        ensures
            call_ensures(T::default, (), d.0),
            d.0 == d.1 && d.1 == d.2,
    {
        let zero = T::default();
        ItemDimension(zero, zero, zero)
    }
}

impl<T: Copy + Default> Default for ItemCoordinate<T> {
    /// The origin: all three coordinates are `T::default()`.
    fn default() -> (c: Self)
        ensures
            call_ensures(T::default, (), c.x),
            c.x == c.y && c.y == c.z,
    {
        let zero = T::default();
        ItemCoordinate { x: zero, y: zero, z: zero }
    }
}

impl<T: Copy + Default> Item<T> {
    /// `quantity` items of sides `dim1`, `dim2` and `dim3`, not yet packed.
    pub fn new(dim1: T, dim2: T, dim3: T, quantity: usize) -> (item: Self)
        ensures
            item.dim == ItemDimension(dim1, dim2, dim3),
            item.quantity == quantity,
            call_ensures(T::default, (), item.pack_dim.0),
            item.pack_dim.0 == item.pack_dim.1 && item.pack_dim.1 == item.pack_dim.2,
            call_ensures(T::default, (), item.coord.x),
            item.coord.x == item.coord.y && item.coord.y == item.coord.z,
    {
        Item {
            dim: ItemDimension(dim1, dim2, dim3),
            pack_dim: ItemDimension::default(),
            coord: ItemCoordinate::default(),
            quantity,
        }
    }
}

} // verus!
