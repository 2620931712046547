//! What a cell holds and the colour it is drawn in.

use vstd::prelude::*;

verus! {

/// What one grid position holds.
#[derive(Debug, Clone, Copy, PartialEq, Eq, Hash, Structural)]
pub enum GridCellType {
    Wall,
    Empty,
    Start,
    End,
}

impl GridCellType {
    /// A marker is the start or the end cell; a grid holds one of each.
    pub open spec fn is_marker(self) -> bool {
        self == GridCellType::Start || self == GridCellType::End
    }

    /// Whether the cell holds the start or the end marker.
    pub fn marks_endpoint(self) -> (marker: bool)
        ensures
            marker == self.is_marker(),
    {
        self == GridCellType::Start || self == GridCellType::End
    }
}

/// The colour a cell is drawn in, as a name; the drawing layer turns the
/// name into whatever its toolkit paints with.
#[derive(Debug, Clone, Copy, PartialEq, Eq, Hash, Structural)]
pub enum CellColor {
    White,
    Black,
    Red,
    Green,
    Blue,
}

/// The colour of a cell type.
pub open spec fn color_of(grid_cell: GridCellType) -> CellColor {
    match grid_cell {
        GridCellType::Wall => CellColor::Black,
        GridCellType::Empty => CellColor::White,
        GridCellType::Start => CellColor::Green,
        GridCellType::End => CellColor::Red,
    }
}

/// Walls are black, the end is red, the start is green, anything else is
/// white.
pub fn get_color(grid_cell: GridCellType) -> (color: CellColor)
    ensures
        color == color_of(grid_cell),
{
    let mut color = CellColor::White;

    if grid_cell == GridCellType::Wall {
        color = CellColor::Black;
    }

    if grid_cell == GridCellType::End {
        color = CellColor::Red;
    }

    if grid_cell == GridCellType::Start {
        color = CellColor::Green;
    }

    color
}

/// The colour of a tile: blue where a route crosses an empty cell, else
/// the colour of the cell.
pub open spec fn tile_color_of(grid_cell: GridCellType, on_route: bool) -> CellColor {
    if on_route && grid_cell == GridCellType::Empty {
        CellColor::Blue
    } else {
        color_of(grid_cell)
    }
}

/// The colour to draw a tile in. A route shows in blue on the empty cells
/// it crosses; the markers keep their own colours.
pub fn get_tile_color(grid_cell: GridCellType, on_route: bool) -> (color: CellColor)
    ensures
        color == tile_color_of(grid_cell, on_route),
{
    if on_route && grid_cell == GridCellType::Empty {
        CellColor::Blue
    } else {
        get_color(grid_cell)
    }
}

} // verus!
