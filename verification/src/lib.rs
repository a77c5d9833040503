//! Z-order (Morton) ordering of the cells of a small square grid, and the
//! grouping of cells by the bit structure of their Morton codes.

pub mod grid;
pub mod morton;
pub mod neighbours;
pub mod zorder;
