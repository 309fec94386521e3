//! Core of a hex-grid minesweeper for two or more players.
//!
//! The library models the board as a rectangle of offset hex coordinates:
//! column `x`, row `y`, with odd rows shifted half a tile to the right, so
//! that a tile's neighbourhood depends on the parity of its row. It owns the
//! grid state machine — lazy mine placement that spares the first clicked
//! tile, neighbour adjacency, reveal with flood-fill cascade on zero-count
//! tiles, and mark toggling — together with the turn bookkeeping the caller
//! uses (scores, turn advancement, elimination). Screen-space geometry
//! (hexagon vertices, point-in-hexagon hit tests) is the presentation
//! layer's job: callers resolve a click to a coordinate pair first and hand
//! the library plain column/row indices.

pub mod counting;
pub mod hex_grid;
pub mod hex_tile;
pub mod player;

pub use hex_grid::ClickResult;
pub use hex_grid::HexGrid;
pub use hex_grid::MarkResult;
pub use hex_tile::HexTile;
pub use player::Player;
