use vstd::prelude::*;

verus! {

/// Visibility of a cell to the player.
#[derive(Debug, Clone, Copy, PartialEq, Eq, Structural)]
pub enum CellState {
    Hidden,
    Revealed,
    Flagged,
}

/// What a cell holds: nothing next to a mine, the number of adjacent mines, or a mine.
#[derive(Debug, Clone, Copy, PartialEq, Eq, Structural)]
pub enum CellContent {
    Empty,
    Number(u8),
    Mine,
}

/// One square of the grid.
#[derive(Debug, Clone, Copy, PartialEq, Eq, Structural)]
pub struct Cell {
    pub state: CellState,
    pub content: CellContent,
}

impl Cell {
    /// A cell as every new grid starts: hidden and empty.
    pub open spec fn blank() -> Cell {
        Cell { state: CellState::Hidden, content: CellContent::Empty }
    }
}

impl Default for Cell {
    fn default() -> (r: Self)
        ensures
            r == Cell::blank(),
    {
        Cell { state: CellState::Hidden, content: CellContent::Empty }
    }
}

} // verus!
