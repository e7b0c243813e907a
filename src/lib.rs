//! An N-dimensional grid stored in one contiguous row-major buffer.

pub mod index;
pub mod grid;
pub mod iter;

pub use grid::{Grid, IndexError};
pub use index::false_index;
pub use iter::{GridIter, GridIterMut};

