//! A minesweeper board and the game played on it: tiles, the laying of
//! mines, the numbers around them, the uncovering of tiles and of the empty
//! regions between them, and the course of a game from the first move to a
//! loss or a win.

pub mod game;
pub mod generate_map;
pub mod minefield;
pub mod region;
pub mod tile;
