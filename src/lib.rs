//! Logic core of a mine-sweeping puzzle: seeded board generation, tile state,
//! cascade opening and the mine-count algebra over areas of closed tiles.

pub mod area;
pub mod board;
pub mod position;
pub mod tile;
