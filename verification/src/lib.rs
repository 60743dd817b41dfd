//! Tile layouts by wave function collapse: a grid of cells, each holding the
//! tile choices still open to it, narrowed by weighted draws and by
//! propagating what the neighbours allow.

pub mod board;
pub mod castle;
pub mod colored_wires;
pub mod grid;
pub mod islands;
pub mod laws;
pub mod lemmas;
pub mod pick;
pub mod puzzle;
pub mod random;
pub mod tile;
