//! Tile co-ordinates on a two-dimensional grid: the coordinate value type, a
//! bijective spiral-order numbering of the plane, and grid topologies that
//! measure distance and enumerate neighbours.

pub mod coord;
pub mod spiral;
pub mod square8;

pub use coord::{Coord, CoordSystem};
pub use spiral::{rev_spiral, rev_spiral_order, spiral, spiral_order};
pub use square8::Square8;
