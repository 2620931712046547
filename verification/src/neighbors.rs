//! The cells next to a cell that a route may enter.

use crate::cell::GridCellType;
use crate::grid::{GridView, Neighborhood, SearchableGrid};
use vstd::prelude::*;

verus! {

/// The directions, as (row, column) offsets, in the order in which
/// neighbours are listed: the four straight ones, then the diagonals.
pub open spec fn direction(i: int) -> (int, int) {
    if i == 0 {
        (0, 1)
    } else if i == 1 {
        (0, -1)
    } else if i == 2 {
        (1, 0)
    } else if i == 3 {
        (-1, 0)
    } else if i == 4 {
        (-1, -1)
    } else if i == 5 {
        (1, 1)
    } else if i == 6 {
        (-1, 1)
    } else {
        (1, -1)
    }
}

/// How many of the directions a neighbourhood uses: the first four, or
/// all eight.
pub open spec fn direction_count(neighborhood: Neighborhood) -> nat {
    match neighborhood {
        Neighborhood::Four => 4,
        Neighborhood::Eight => 8,
    }
}

/// One step from `from` leads to `to`: straight in a four-connected
/// grid, straight or diagonal in an eight-connected one.
pub open spec fn one_step(neighborhood: Neighborhood, from: (i32, i32), to: (i32, i32)) -> bool {
    let dr = to.0 - from.0;
    let dc = to.1 - from.1;
    match neighborhood {
        Neighborhood::Four => (dr == 0 && (dc == 1 || dc == -1)) || (dc == 0 && (dr == 1 || dr
            == -1)),
        Neighborhood::Eight => -1 <= dr <= 1 && -1 <= dc <= 1 && !(dr == 0 && dc == 0),
    }
}

/// A route may go from `from` to `to` in one move: `to` is one step away
/// and may be entered.
pub open spec fn edge(grid: GridView, from: (i32, i32), to: (i32, i32)) -> bool {
    one_step(grid.neighborhood, from, to) && grid.passable(to)
}

/// The position one step from `at` in direction `i`. It may lie outside
/// the grid.
pub open spec fn toward(at: (i32, i32), i: int) -> (int, int) {
    (at.0 + direction(i).0, at.1 + direction(i).1)
}

/// The position is a cell of the grid and no wall.
pub open spec fn enterable(grid: GridView, p: (int, int)) -> bool {
    &&& 0 <= p.0 < grid.rows
    &&& 0 <= p.1 < grid.cols
    &&& grid.cells[(p.0 as i32, p.1 as i32)] != GridCellType::Wall
}

/// The neighbours of `at` among the first `n` directions, in the order
/// of the directions.
pub open spec fn neighbors_upto(grid: GridView, at: (i32, i32), n: nat) -> Seq<(i32, i32)>
    decreases n,
{
    if n == 0 {
        Seq::empty()
    } else {
        let before = neighbors_upto(grid, at, (n - 1) as nat);
        let p = toward(at, n - 1);
        if enterable(grid, p) {
            before.push((p.0 as i32, p.1 as i32))
        } else {
            before
        }
    }
}

/// The neighbours of `at`: the cells one step away that may be entered,
/// in the order of the directions.
pub open spec fn neighbors(grid: GridView, at: (i32, i32)) -> Seq<(i32, i32)> {
    neighbors_upto(grid, at, direction_count(grid.neighborhood))
}

/// The offset of direction `i`.
fn nth_direction(i: usize) -> (d: (i32, i32))
    requires
        i < 8,
    ensures
        d.0 == direction(i as int).0,
        d.1 == direction(i as int).1,
{
    if i == 0 {
        (0, 1)
    } else if i == 1 {
        (0, -1)
    } else if i == 2 {
        (1, 0)
    } else if i == 3 {
        (-1, 0)
    } else if i == 4 {
        (-1, -1)
    } else if i == 5 {
        (1, 1)
    } else if i == 6 {
        (-1, 1)
    } else {
        (1, -1)
    }
}

/// A cell is listed among the neighbours of `at` exactly if a route may
/// go there from `at` in one move, and it is listed once. In particular
/// no wall and no position outside the grid is listed.
pub proof fn lemma_neighbors_are_edges(grid: GridView, at: (i32, i32))
    requires
        grid.wf(),
    ensures
        forall|to: (i32, i32)| #[trigger] neighbors(grid, at).contains(to) <==> edge(grid, at, to),
        neighbors(grid, at).no_duplicates(),
        neighbors(grid, at).len() <= direction_count(grid.neighborhood),
{
    reveal_with_fuel(neighbors_upto, 9);
    let listed = neighbors(grid, at);
    assert forall|to: (i32, i32)| #[trigger] listed.contains(to) <==> edge(grid, at, to) by {
        if listed.contains(to) {
            let k = choose|k: int| 0 <= k < listed.len() && listed[k] == to;
            assert(edge(grid, at, to));
        }
        if edge(grid, at, to) {
            let dr = to.0 - at.0;
            let dc = to.1 - at.1;
            let i: int = if dr == 0 && dc == 1 {
                0
            } else if dr == 0 && dc == -1 {
                1
            } else if dr == 1 && dc == 0 {
                2
            } else if dr == -1 && dc == 0 {
                3
            } else if dr == -1 && dc == -1 {
                4
            } else if dr == 1 && dc == 1 {
                5
            } else if dr == -1 && dc == 1 {
                6
            } else {
                7
            };
            assert(toward(at, i) == (to.0 as int, to.1 as int));
            lemma_listed_from(grid, at, direction_count(grid.neighborhood), i);
        }
    }
    lemma_no_duplicates_upto(grid, at, direction_count(grid.neighborhood));
}

/// An enterable position in one of the first `n` directions is listed
/// among the neighbours found in those directions.
proof fn lemma_listed_from(grid: GridView, at: (i32, i32), n: nat, i: int)
    requires
        0 <= i < n,
        enterable(grid, toward(at, i)),
        grid.rows <= i32::MAX,
        grid.cols <= i32::MAX,
    ensures
        neighbors_upto(grid, at, n).contains((toward(at, i).0 as i32, toward(at, i).1 as i32)),
    decreases n,
{
    let before = neighbors_upto(grid, at, (n - 1) as nat);
    let listed = neighbors_upto(grid, at, n);
    let to = (toward(at, i).0 as i32, toward(at, i).1 as i32);
    if i == n - 1 {
        assert(listed == before.push(to));
        assert(listed[listed.len() - 1] == to);
    } else {
        lemma_listed_from(grid, at, (n - 1) as nat, i);
        let k = choose|k: int| 0 <= k < before.len() && before[k] == to;
        assert(listed[k] == to);
    }
}

/// Every cell listed among the first `n` directions lies in one of them.
proof fn lemma_listed_origin(grid: GridView, at: (i32, i32), n: nat, k: int)
    requires
        0 <= k < neighbors_upto(grid, at, n).len(),
        grid.rows <= i32::MAX,
        grid.cols <= i32::MAX,
    ensures
        exists|i: int|
            0 <= i < n && enterable(grid, #[trigger] toward(at, i)) && toward(at, i) == (
                neighbors_upto(grid, at, n)[k].0 as int,
                neighbors_upto(grid, at, n)[k].1 as int,
            ),
    decreases n,
{
    let before = neighbors_upto(grid, at, (n - 1) as nat);
    if k < before.len() {
        lemma_listed_origin(grid, at, (n - 1) as nat, k);
        let i = choose|i: int|
            0 <= i < n - 1 && enterable(grid, #[trigger] toward(at, i)) && toward(at, i) == (
                before[k].0 as int,
                before[k].1 as int,
            );
        assert(toward(at, i) == (
            neighbors_upto(grid, at, n)[k].0 as int,
            neighbors_upto(grid, at, n)[k].1 as int,
        ));
    } else {
        assert(enterable(grid, toward(at, n - 1)));
    }
}

/// No cell is listed twice, as the eight directions lead to eight
/// different positions.
proof fn lemma_no_duplicates_upto(grid: GridView, at: (i32, i32), n: nat)
    requires
        n <= 8,
        grid.rows <= i32::MAX,
        grid.cols <= i32::MAX,
    ensures
        neighbors_upto(grid, at, n).no_duplicates(),
        neighbors_upto(grid, at, n).len() <= n,
    decreases n,
{
    if n > 0 {
        let before = neighbors_upto(grid, at, (n - 1) as nat);
        lemma_no_duplicates_upto(grid, at, (n - 1) as nat);
        let p = toward(at, n - 1);
        if enterable(grid, p) {
            let to = (p.0 as i32, p.1 as i32);
            assert forall|k: int| 0 <= k < before.len() implies before[k] != to by {
                lemma_listed_origin(grid, at, (n - 1) as nat, k);
                let i = choose|i: int|
                    0 <= i < n - 1 && enterable(grid, #[trigger] toward(at, i)) && toward(at, i)
                        == (before[k].0 as int, before[k].1 as int);
                assert(direction(i) != direction(n - 1));
            }
        }
    }
}

/// The cells next to `at` that a route may enter: those inside the grid
/// that hold no wall, straight neighbours first, and the diagonal ones
/// after them where the grid is eight-connected.
pub fn get_neighbors(at: (i32, i32), searchable_grid: &SearchableGrid) -> (found: Vec<(i32, i32)>)
    requires
        searchable_grid.wf(),
    ensures
        found@ == neighbors(searchable_grid@, at),
        found@.no_duplicates(),
        forall|to: (i32, i32)| #[trigger]
            found@.contains(to) <==> edge(searchable_grid@, at, to),
        forall|k: int| 0 <= k < found@.len() ==> searchable_grid@.passable(#[trigger] found@[k]),
{
    let mut found = Vec::<(i32, i32)>::new();
    let count: usize = match searchable_grid.neighborhood() {
        Neighborhood::Four => 4,
        Neighborhood::Eight => 8,
    };
    let mut i: usize = 0;
    while i < count
        invariant
            0 <= i <= count <= 8,
            count == direction_count(searchable_grid@.neighborhood),
            searchable_grid.wf(),
            found@ == neighbors_upto(searchable_grid@, at, i as nat),
        decreases count - i,
    {
        let dir = nth_direction(i);
        let new_row: i64 = dir.0 as i64 + at.0 as i64;
        let new_col: i64 = dir.1 as i64 + at.1 as i64;
        if new_col >= 0 && new_col < searchable_grid.cols() as i64 && new_row >= 0 && new_row
            < searchable_grid.rows() as i64 {
            let to = (new_row as i32, new_col as i32);
            match searchable_grid.get(to.0, to.1) {
                Ok(grid_cell) => {
                    if grid_cell != GridCellType::Wall {
                        found.push(to);
                    }
                },
                Err(_) => {},
            }
        }
        i += 1;
    }
    proof {
        lemma_neighbors_are_edges(searchable_grid@, at);
        assert forall|k: int| 0 <= k < found@.len() implies searchable_grid@.passable(
            #[trigger] found@[k],
        ) by {
            assert(found@.contains(found@[k]));
        }
    }
    found
}

} // verus!
