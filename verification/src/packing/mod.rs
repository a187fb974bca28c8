pub mod algo;
pub mod bin;
pub mod bin_packing;
pub mod container;
pub mod item;

pub use algo::{Orientation, OrientationVariant};
pub use bin::{Bin, BinItem};
pub use bin_packing::BinPacking;
pub use container::Container;
pub use item::{Item, ItemCoordinate, ItemDimension};
