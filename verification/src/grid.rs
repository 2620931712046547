//! The grid, its mathematical content, and the changes it allows.

use crate::cell::GridCellType;
use vstd::prelude::*;

verus! {

/// Why a grid operation was turned down. A grid that turns an operation
/// down is left as it was.
#[derive(Debug, Clone, Copy, PartialEq, Eq, Hash, Structural)]
pub enum GridError {
    /// The number of rows or of columns is not positive.
    InvalidDimensions,
    /// The start or the end lies outside the grid, or the two coincide.
    InvalidMarker,
    /// A coordinate lies outside the grid.
    OutOfBounds,
    /// The change would leave the grid without exactly one start and one
    /// end cell.
    InvalidMutation,
}

/// The directions in which a route may leave a cell.
#[derive(Debug, Clone, Copy, PartialEq, Eq, Hash, Structural)]
pub enum Neighborhood {
    /// Up, down, left and right.
    Four,
    /// The four straight directions and the four diagonals.
    Eight,
}

/// The cell a blank grid holds at `at`: the end marker, the start marker,
/// or nothing.
pub open spec fn blank_cell(at: (i32, i32), start: (i32, i32), end: (i32, i32)) -> GridCellType {
    if at == end {
        GridCellType::End
    } else if at == start {
        GridCellType::Start
    } else {
        GridCellType::Empty
    }
}

/// The mathematical content of a grid: its size, what each cell holds,
/// where the two markers are, and how cells are connected.
#[verifier::ext_equal]
pub struct GridView {
    pub rows: int,
    pub cols: int,
    pub cells: Map<(i32, i32), GridCellType>,
    pub start: (i32, i32),
    pub end: (i32, i32),
    pub neighborhood: Neighborhood,
}

impl GridView {
    /// `at` names a cell of a grid of `rows` by `cols` cells.
    pub open spec fn inside(rows: int, cols: int, at: (i32, i32)) -> bool {
        0 <= at.0 < rows && 0 <= at.1 < cols
    }

    /// `at` names a cell of this grid.
    pub open spec fn in_bounds(self, at: (i32, i32)) -> bool {
        Self::inside(self.rows, self.cols, at)
    }

    /// Two distinct cells of a grid of `rows` by `cols` cells.
    pub open spec fn markers_fit(rows: int, cols: int, start: (i32, i32), end: (i32, i32)) -> bool {
        Self::inside(rows, cols, start) && Self::inside(rows, cols, end) && start != end
    }

    /// The grid of the given size that holds the two markers and is empty
    /// everywhere else.
    pub open spec fn blank(
        rows: int,
        cols: int,
        start: (i32, i32),
        end: (i32, i32),
        neighborhood: Neighborhood,
    ) -> GridView {
        GridView {
            rows,
            cols,
            cells: Map::new(
                |at: (i32, i32)| Self::inside(rows, cols, at),
                |at: (i32, i32)| blank_cell(at, start, end),
            ),
            start,
            end,
            neighborhood,
        }
    }

    /// This grid with the cell at `at` replaced.
    pub open spec fn with_cell(self, at: (i32, i32), cell: GridCellType) -> GridView {
        GridView { cells: self.cells.insert(at, cell), ..self }
    }

    /// This grid with the start marker taken from its cell and put on `at`.
    pub open spec fn with_start(self, at: (i32, i32)) -> GridView {
        GridView {
            cells: self.cells.insert(self.start, GridCellType::Empty).insert(
                at,
                GridCellType::Start,
            ),
            start: at,
            ..self
        }
    }

    /// This grid with the end marker taken from its cell and put on `at`.
    pub open spec fn with_end(self, at: (i32, i32)) -> GridView {
        GridView {
            cells: self.cells.insert(self.end, GridCellType::Empty).insert(at, GridCellType::End),
            end: at,
            ..self
        }
    }

    /// The cells are those inside the bounds; exactly one of them holds
    /// the start marker, the one the grid records as its start, and
    /// exactly one holds the end marker, the one it records as its end.
    pub open spec fn wf(self) -> bool {
        &&& 0 < self.rows <= i32::MAX
        &&& 0 < self.cols <= i32::MAX
        &&& forall|at: (i32, i32)| self.cells.contains_key(at) <==> self.in_bounds(at)
        &&& Self::markers_fit(self.rows, self.cols, self.start, self.end)
        &&& forall|at: (i32, i32)|
            self.in_bounds(at) ==> (#[trigger] self.cells[at] == GridCellType::Start <==> at
                == self.start)
        &&& forall|at: (i32, i32)|
            self.in_bounds(at) ==> (#[trigger] self.cells[at] == GridCellType::End <==> at
                == self.end)
    }

    /// Movement may enter `at`: it is a cell of the grid and no wall.
    pub open spec fn passable(self, at: (i32, i32)) -> bool {
        self.in_bounds(at) && self.cells[at] != GridCellType::Wall
    }
}

/// The grid after a click on `at`: the left button puts a wall on an
/// empty cell, and then the right button clears a wall. A click outside
/// the grid, or on a marker, changes nothing.
pub open spec fn clicked(grid: GridView, at: (i32, i32), left: bool, right: bool) -> GridView {
    let walled = if left && grid.in_bounds(at) && grid.cells[at] == GridCellType::Empty {
        grid.with_cell(at, GridCellType::Wall)
    } else {
        grid
    };
    if right && walled.in_bounds(at) && walled.cells[at] == GridCellType::Wall {
        walled.with_cell(at, GridCellType::Empty)
    } else {
        walled
    }
}

/// A consistent grid holds exactly one start cell and exactly one end
/// cell: the cells that hold the start marker are the recorded start and
/// no other, and likewise for the end.
pub proof fn lemma_one_start_one_end(grid: GridView)
    requires
        grid.wf(),
    ensures
        Set::new(|at: (i32, i32)| grid.in_bounds(at) && grid.cells[at] == GridCellType::Start)
            == set![grid.start],
        Set::new(|at: (i32, i32)| grid.in_bounds(at) && grid.cells[at] == GridCellType::End)
            == set![grid.end],
        grid.start != grid.end,
{
    assert(Set::new(|at: (i32, i32)| grid.in_bounds(at) && grid.cells[at] == GridCellType::Start)
        =~= set![grid.start]);
    assert(Set::new(|at: (i32, i32)| grid.in_bounds(at) && grid.cells[at] == GridCellType::End)
        =~= set![grid.end]);
}

/// A blank grid is consistent, and every cell of it but the two markers
/// is empty.
pub proof fn lemma_blank_is_empty(
    rows: int,
    cols: int,
    start: (i32, i32),
    end: (i32, i32),
    neighborhood: Neighborhood,
)
    requires
        0 < rows <= i32::MAX,
        0 < cols <= i32::MAX,
        GridView::markers_fit(rows, cols, start, end),
    ensures
        GridView::blank(rows, cols, start, end, neighborhood).wf(),
        forall|at: (i32, i32)|
            GridView::inside(rows, cols, at) && at != start && at != end ==> #[trigger] GridView::blank(
                rows,
                cols,
                start,
                end,
                neighborhood,
            ).cells[at] == GridCellType::Empty,
{
}

/// Putting a wall on a cell that holds no marker, or clearing it, keeps
/// the grid consistent and changes no other cell.
pub proof fn lemma_with_cell(grid: GridView, at: (i32, i32), cell: GridCellType)
    requires
        grid.wf(),
        grid.in_bounds(at),
        !grid.cells[at].is_marker(),
        !cell.is_marker(),
    ensures
        grid.with_cell(at, cell).wf(),
        grid.with_cell(at, cell).cells[at] == cell,
        forall|other: (i32, i32)|
            grid.in_bounds(other) && other != at ==> #[trigger] grid.with_cell(at, cell).cells[other]
                == grid.cells[other],
{
    let after = grid.with_cell(at, cell);
    assert forall|other: (i32, i32)| #[trigger]
        after.cells.contains_key(other) <==> after.in_bounds(other) by {
        assert(grid.cells.contains_key(other) <==> grid.in_bounds(other));
    }
    assert(grid.cells[at] != GridCellType::Start);
    assert(grid.cells[at] != GridCellType::End);
    assert forall|other: (i32, i32)| after.in_bounds(other) implies (#[trigger] after.cells[other]
        == GridCellType::Start <==> other == after.start) by {
        if other != at {
            assert(after.cells[other] == grid.cells[other]);
        }
    }
    assert forall|other: (i32, i32)| after.in_bounds(other) implies (#[trigger] after.cells[other]
        == GridCellType::End <==> other == after.end) by {
        if other != at {
            assert(after.cells[other] == grid.cells[other]);
        }
    }
}

/// Moving the start marker to a cell of the grid other than the end
/// keeps the grid consistent: the cell it lands on is the one start cell,
/// whatever it held before; the cell it left is empty; no other cell
/// changes.
pub proof fn lemma_with_start(grid: GridView, to: (i32, i32))
    requires
        grid.wf(),
        grid.in_bounds(to),
        to != grid.end,
    ensures
        grid.with_start(to).wf(),
        grid.with_start(to).start == to,
        grid.with_start(to).end == grid.end,
        to != grid.start ==> grid.with_start(to).cells[grid.start] == GridCellType::Empty,
        forall|other: (i32, i32)|
            grid.in_bounds(other) && other != to && other != grid.start ==> #[trigger] grid.with_start(
                to,
            ).cells[other] == grid.cells[other],
{
    let after = grid.with_start(to);
    assert forall|other: (i32, i32)| #[trigger]
        after.cells.contains_key(other) <==> after.in_bounds(other) by {
        assert(grid.cells.contains_key(other) <==> grid.in_bounds(other));
    }
    assert forall|other: (i32, i32)| after.in_bounds(other) implies (#[trigger] after.cells[other]
        == GridCellType::Start <==> other == after.start) by {
        if other != to && other != grid.start {
            assert(after.cells[other] == grid.cells[other]);
        }
    }
    assert forall|other: (i32, i32)| after.in_bounds(other) implies (#[trigger] after.cells[other]
        == GridCellType::End <==> other == after.end) by {
        if other != to && other != grid.start {
            assert(after.cells[other] == grid.cells[other]);
        }
    }
}

/// Moving the end marker to a cell of the grid other than the start
/// keeps the grid consistent: the cell it lands on is the one end cell,
/// whatever it held before; the cell it left is empty; no other cell
/// changes.
pub proof fn lemma_with_end(grid: GridView, to: (i32, i32))
    requires
        grid.wf(),
        grid.in_bounds(to),
        to != grid.start,
    ensures
        grid.with_end(to).wf(),
        grid.with_end(to).end == to,
        grid.with_end(to).start == grid.start,
        to != grid.end ==> grid.with_end(to).cells[grid.end] == GridCellType::Empty,
        forall|other: (i32, i32)|
            grid.in_bounds(other) && other != to && other != grid.end ==> #[trigger] grid.with_end(
                to,
            ).cells[other] == grid.cells[other],
{
    let after = grid.with_end(to);
    assert forall|other: (i32, i32)| #[trigger]
        after.cells.contains_key(other) <==> after.in_bounds(other) by {
        assert(grid.cells.contains_key(other) <==> grid.in_bounds(other));
    }
    assert forall|other: (i32, i32)| after.in_bounds(other) implies (#[trigger] after.cells[other]
        == GridCellType::Start <==> other == after.start) by {
        if other != to && other != grid.end {
            assert(after.cells[other] == grid.cells[other]);
        }
    }
    assert forall|other: (i32, i32)| after.in_bounds(other) implies (#[trigger] after.cells[other]
        == GridCellType::End <==> other == after.end) by {
        if other != to && other != grid.end {
            assert(after.cells[other] == grid.cells[other]);
        }
    }
}

/// A rectangular grid of cells with one start and one end marker.
#[derive(Debug)]
pub struct SearchableGrid {
    grid: Vec<Vec<GridCellType>>,
    start: (i32, i32),
    end: (i32, i32),
    rows: i32,
    cols: i32,
    neighborhood: Neighborhood,
}

impl View for SearchableGrid {
    type V = GridView;

    closed spec fn view(&self) -> GridView {
        GridView {
            rows: self.rows as int,
            cols: self.cols as int,
            cells: Map::new(
                |at: (i32, i32)| GridView::inside(self.rows as int, self.cols as int, at),
                |at: (i32, i32)| self.grid@[at.0 as int]@[at.1 as int],
            ),
            start: self.start,
            end: self.end,
            neighborhood: self.neighborhood,
        }
    }
}

/// The rows of a blank grid.
fn new_grid_vec(rows: i32, cols: i32, start: (i32, i32), end: (i32, i32)) -> (grid: Vec<
    Vec<GridCellType>,
>)
    requires
        0 <= rows,
        0 <= cols,
    ensures
        grid@.len() == rows,
        forall|r: int| 0 <= r < rows ==> (#[trigger] grid@[r])@.len() == cols,
        forall|r: int, c: int|
            0 <= r < rows && 0 <= c < cols ==> #[trigger] grid@[r]@[c] == blank_cell(
                (r as i32, c as i32),
                start,
                end,
            ),
{
    let mut grid = Vec::<Vec<GridCellType>>::new();
    let mut row: i32 = 0;
    while row < rows
        invariant
            0 <= row <= rows,
            0 <= cols,
            grid@.len() == row,
            forall|r: int| 0 <= r < row ==> (#[trigger] grid@[r])@.len() == cols,
            forall|r: int, c: int|
                0 <= r < row && 0 <= c < cols ==> #[trigger] grid@[r]@[c] == blank_cell(
                    (r as i32, c as i32),
                    start,
                    end,
                ),
        decreases rows - row,
    {
        let mut row_grid = Vec::<GridCellType>::new();
        let mut col: i32 = 0;
        while col < cols
            invariant
                0 <= col <= cols,
                0 <= row,
                row_grid@.len() == col,
                forall|c: int|
                    0 <= c < col ==> #[trigger] row_grid@[c] == blank_cell(
                        (row, c as i32),
                        start,
                        end,
                    ),
            decreases cols - col,
        {
            if row == end.0 && col == end.1 {
                row_grid.push(GridCellType::End);
            } else if row == start.0 && col == start.1 {
                row_grid.push(GridCellType::Start);
            } else {
                row_grid.push(GridCellType::Empty);
            }
            col += 1;
        }
        grid.push(row_grid);
        row += 1;
    }
    grid
}

impl SearchableGrid {
    /// The stored rows match the recorded size.
    pub closed spec fn well_shaped(&self) -> bool {
        &&& self.grid@.len() == self.rows
        &&& forall|r: int| 0 <= r < self.rows ==> (#[trigger] self.grid@[r])@.len() == self.cols
    }

    /// The grid is consistent: see [`GridView::wf`]. Every constructor
    /// establishes this and every operation keeps it.
    pub open spec fn wf(&self) -> bool {
        self.well_shaped() && self@.wf()
    }

    /// An eight-connected grid of `rows` by `cols` cells, empty but for
    /// the two markers.
    pub fn new(rows: i32, cols: i32, start: (i32, i32), end: (i32, i32)) -> (made: Result<
        SearchableGrid,
        GridError,
    >)
        ensures
            match made {
                Ok(grid) => {
                    &&& rows > 0 && cols > 0
                    &&& GridView::markers_fit(rows as int, cols as int, start, end)
                    &&& grid.wf()
                    &&& grid@ == GridView::blank(
                        rows as int,
                        cols as int,
                        start,
                        end,
                        Neighborhood::Eight,
                    )
                },
                Err(e) => {
                    if rows <= 0 || cols <= 0 {
                        e == GridError::InvalidDimensions
                    } else {
                        e == GridError::InvalidMarker && !GridView::markers_fit(
                            rows as int,
                            cols as int,
                            start,
                            end,
                        )
                    }
                },
            },
    {
        Self::with_neighborhood(rows, cols, start, end, Neighborhood::Eight)
    }

    /// A grid of `rows` by `cols` cells, empty but for the two markers,
    /// whose cells are connected as `neighborhood` says. The choice holds
    /// for the life of the grid.
    pub fn with_neighborhood(
        rows: i32,
        cols: i32,
        start: (i32, i32),
        end: (i32, i32),
        neighborhood: Neighborhood,
    ) -> (made: Result<SearchableGrid, GridError>)
        ensures
            match made {
                Ok(grid) => {
                    &&& rows > 0 && cols > 0
                    &&& GridView::markers_fit(rows as int, cols as int, start, end)
                    &&& grid.wf()
                    &&& grid@ == GridView::blank(rows as int, cols as int, start, end, neighborhood)
                },
                Err(e) => {
                    if rows <= 0 || cols <= 0 {
                        e == GridError::InvalidDimensions
                    } else {
                        e == GridError::InvalidMarker && !GridView::markers_fit(
                            rows as int,
                            cols as int,
                            start,
                            end,
                        )
                    }
                },
            },
    {
        if rows <= 0 || cols <= 0 {
            return Err(GridError::InvalidDimensions);
        }
        if !Self::fits(rows, cols, start) || !Self::fits(rows, cols, end) || (start.0 == end.0
            && start.1 == end.1) {
            return Err(GridError::InvalidMarker);
        }
        let grid = SearchableGrid {
            grid: new_grid_vec(rows, cols, start, end),
            start,
            end,
            rows,
            cols,
            neighborhood,
        };
        assert(grid@ =~= GridView::blank(rows as int, cols as int, start, end, neighborhood));
        Ok(grid)
    }

    /// Whether `at` names a cell of a grid of `rows` by `cols` cells.
    fn fits(rows: i32, cols: i32, at: (i32, i32)) -> (inside: bool)
        ensures
            inside == GridView::inside(rows as int, cols as int, at),
    {
        0 <= at.0 && at.0 < rows && 0 <= at.1 && at.1 < cols
    }

    /// The number of rows.
    pub fn rows(&self) -> (rows: i32)
        ensures
            rows == self@.rows,
    {
        self.rows
    }

    /// The number of columns.
    pub fn cols(&self) -> (cols: i32)
        ensures
            cols == self@.cols,
    {
        self.cols
    }

    /// The cell that holds the start marker.
    pub fn start(&self) -> (start: (i32, i32))
        ensures
            start == self@.start,
    {
        self.start
    }

    /// The cell that holds the end marker.
    pub fn end(&self) -> (end: (i32, i32))
        ensures
            end == self@.end,
    {
        self.end
    }

    /// How the cells of this grid are connected.
    pub fn neighborhood(&self) -> (neighborhood: Neighborhood)
        ensures
            neighborhood == self@.neighborhood,
    {
        self.neighborhood
    }

    /// Whether `at` names a cell of this grid.
    pub fn contains(&self, at: (i32, i32)) -> (inside: bool)
        ensures
            inside == self@.in_bounds(at),
    {
        Self::fits(self.rows, self.cols, at)
    }

    /// What the cell at (`row`, `col`) holds.
    pub fn get(&self, row: i32, col: i32) -> (found: Result<GridCellType, GridError>)
        requires
            self.wf(),
        ensures
            match found {
                Ok(cell) => self@.in_bounds((row, col)) && cell == self@.cells[(row, col)],
                Err(e) => e == GridError::OutOfBounds && !self@.in_bounds((row, col)),
            },
    {
        if !self.contains((row, col)) {
            return Err(GridError::OutOfBounds);
        }
        Ok(self.grid[row as usize][col as usize])
    }

    /// Puts a wall on the cell at (`row`, `col`) or clears it. The two
    /// markers are out of its reach: a cell that holds one is not
    /// overwritten, and no second marker is placed.
    pub fn set(&mut self, row: i32, col: i32, grid_cell: GridCellType) -> (done: Result<
        (),
        GridError,
    >)
        requires
            old(self).wf(),
        ensures
            final(self).wf(),
            match done {
                Ok(_) => {
                    &&& old(self)@.in_bounds((row, col))
                    &&& !old(self)@.cells[(row, col)].is_marker()
                    &&& !grid_cell.is_marker()
                    &&& final(self)@ == old(self)@.with_cell((row, col), grid_cell)
                },
                Err(e) => {
                    &&& *final(self) == *old(self)
                    &&& if !old(self)@.in_bounds((row, col)) {
                        e == GridError::OutOfBounds
                    } else {
                        e == GridError::InvalidMutation && (old(self)@.cells[(
                            row,
                            col,
                        )].is_marker() || grid_cell.is_marker())
                    }
                },
            },
    {
        if !self.contains((row, col)) {
            return Err(GridError::OutOfBounds);
        }
        if self.grid[row as usize][col as usize].marks_endpoint() || grid_cell.marks_endpoint() {
            return Err(GridError::InvalidMutation);
        }
        self.grid[row as usize][col as usize] = grid_cell;
        proof {
            assert(self@ =~= old(self)@.with_cell((row, col), grid_cell));
            lemma_with_cell(old(self)@, (row, col), grid_cell);
        }
        Ok(())
    }

    /// Makes every cell empty but for the two markers, which go to
    /// `start` and `end`.
    pub fn reset_grid(&mut self, start: (i32, i32), end: (i32, i32)) -> (done: Result<
        (),
        GridError,
    >)
        requires
            old(self).wf(),
        ensures
            final(self).wf(),
            match done {
                Ok(_) => {
                    &&& GridView::markers_fit(old(self)@.rows, old(self)@.cols, start, end)
                    &&& final(self)@ == GridView::blank(
                        old(self)@.rows,
                        old(self)@.cols,
                        start,
                        end,
                        old(self)@.neighborhood,
                    )
                },
                Err(e) => {
                    &&& *final(self) == *old(self)
                    &&& e == GridError::InvalidMarker
                    &&& !GridView::markers_fit(old(self)@.rows, old(self)@.cols, start, end)
                },
            },
    {
        if !self.contains(start) || !self.contains(end) || (start.0 == end.0 && start.1
            == end.1) {
            return Err(GridError::InvalidMarker);
        }
        self.start = start;
        self.end = end;
        self.grid = new_grid_vec(self.rows, self.cols, start, end);
        assert(self@ =~= GridView::blank(
            old(self)@.rows,
            old(self)@.cols,
            start,
            end,
            old(self)@.neighborhood,
        ));
        Ok(())
    }

    /// Moves the end marker to `end`. The cell it leaves becomes empty;
    /// the cell it lands on holds the marker whatever it held before, a
    /// wall included.
    pub fn update_end_point(&mut self, end: (i32, i32)) -> (done: Result<(), GridError>)
        requires
            old(self).wf(),
        ensures
            final(self).wf(),
            match done {
                Ok(_) => {
                    &&& old(self)@.in_bounds(end)
                    &&& end != old(self)@.start
                    &&& final(self)@ == old(self)@.with_end(end)
                },
                Err(e) => {
                    &&& *final(self) == *old(self)
                    &&& if !old(self)@.in_bounds(end) {
                        e == GridError::OutOfBounds
                    } else {
                        e == GridError::InvalidMutation && end == old(self)@.start
                    }
                },
            },
    {
        if !self.contains(end) {
            return Err(GridError::OutOfBounds);
        }
        if end.0 == self.start.0 && end.1 == self.start.1 {
            return Err(GridError::InvalidMutation);
        }
        self.grid[self.end.0 as usize][self.end.1 as usize] = GridCellType::Empty;
        self.end = end;
        self.grid[self.end.0 as usize][self.end.1 as usize] = GridCellType::End;
        assert(self@ =~= old(self)@.with_end(end));
        Ok(())
    }

    /// Moves the start marker to `start`. The cell it leaves becomes
    /// empty; the cell it lands on holds the marker whatever it held
    /// before, a wall included.
    pub fn update_start_point(&mut self, start: (i32, i32)) -> (done: Result<(), GridError>)
        requires
            old(self).wf(),
        ensures
            final(self).wf(),
            match done {
                Ok(_) => {
                    &&& old(self)@.in_bounds(start)
                    &&& start != old(self)@.end
                    &&& final(self)@ == old(self)@.with_start(start)
                },
                Err(e) => {
                    &&& *final(self) == *old(self)
                    &&& if !old(self)@.in_bounds(start) {
                        e == GridError::OutOfBounds
                    } else {
                        e == GridError::InvalidMutation && start == old(self)@.end
                    }
                },
            },
    {
        if !self.contains(start) {
            return Err(GridError::OutOfBounds);
        }
        if start.0 == self.end.0 && start.1 == self.end.1 {
            return Err(GridError::InvalidMutation);
        }
        self.grid[self.start.0 as usize][self.start.1 as usize] = GridCellType::Empty;
        self.start = start;
        self.grid[self.start.0 as usize][self.start.1 as usize] = GridCellType::Start;
        assert(self@ =~= old(self)@.with_start(start));
        Ok(())
    }

    /// What the mouse asks of the cell at (`row`, `col`): the left button
    /// puts a wall on an empty cell, the right button clears a wall, the
    /// left before the right where both are held. Says whether the grid is
    /// another than before.
    pub fn click(&mut self, row: i32, col: i32, left: bool, right: bool) -> (changed: bool)
        requires
            old(self).wf(),
        ensures
            final(self).wf(),
            final(self)@ == clicked(old(self)@, (row, col), left, right),
            changed == (final(self)@ != old(self)@),
    {
        let before = match self.get(row, col) {
            Ok(held) => held,
            Err(_) => {
                return false;
            },
        };
        let mut held = before;
        if left && held == GridCellType::Empty {
            let _ = self.set(row, col, GridCellType::Wall);
            held = GridCellType::Wall;
        }
        if right && held == GridCellType::Wall {
            let _ = self.set(row, col, GridCellType::Empty);
            held = GridCellType::Empty;
        }
        proof {
            assert(self@ =~= clicked(old(self)@, (row, col), left, right));
            assert(self@.cells[(row, col)] == held);
            if held == before {
                assert(self@ =~= old(self)@);
            }
        }
        held != before
    }
}

} // verus!
