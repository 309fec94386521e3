use vstd::prelude::*;

verus! {

/// One cell of the hexagonal board.
///
/// A tile starts hidden: not a mine, not marked, with no revealed count and
/// no owner. Mines are placed once, lazily, by the grid; a reveal fixes
/// `display` to the count of mined neighbours and `player` to the player who
/// revealed the tile (their index in the caller's turn rotation).
#[derive(Clone, Copy)]
pub struct HexTile {
    /// Whether this tile holds a mine. Set at most once per game, during
    /// mine generation, and never cleared afterwards.
    pub mine: bool,
    /// Whether the player has flagged this tile. Only meaningful while the
    /// tile is hidden: a revealed tile can no longer be marked.
    pub marked: bool,
    /// `None` while hidden; once revealed, permanently `Some(n)` where `n`
    /// is the number of mines among the tile's neighbours.
    pub display: Option<usize>,
    /// `None` while hidden; once revealed, the index of the revealing player.
    pub player: Option<usize>,
}

impl HexTile {
    /// A fresh, fully hidden tile.
    pub fn new() -> (t: HexTile)
        ensures
            t == HexTile::start(),
    {
        HexTile { mine: false, marked: false, display: None, player: None }
    }

    /// The state every tile has when the grid is created.
    pub open spec fn start() -> HexTile {
        HexTile { mine: false, marked: false, display: None, player: None }
    }

    /// A tile is revealed exactly when its neighbour count has been fixed.
    pub open spec fn is_revealed(self) -> bool {
        self.display is Some
    }
}

} // verus!
