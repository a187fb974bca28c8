pub mod algo;
pub mod axis;
pub mod container;
pub mod error;
pub mod item;
pub mod measure;
pub mod rotation;
pub mod sort;
pub mod trace;
pub mod vector3;

pub use algo::{Algo, AlgoResult};
pub use axis::Axis;
pub use container::{Container, ContainerSpec};
pub use error::Error;
pub use item::{Item, ItemSpec};
pub use rotation::Rotation;
pub use vector3::Vector3;
