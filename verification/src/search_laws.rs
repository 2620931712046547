//! What holds of every search: it comes to an end, it finds a route
//! exactly where one exists, and what it finds depends on nothing but
//! the walls and the shape of the grid, the two ends and the heuristic.

use crate::cell::GridCellType;
use crate::grid::GridView;
use crate::heuristic::Heuristic;
use crate::neighbors::{direction_count, edge, enterable, neighbors, neighbors_upto, toward};
use crate::optimality::{
    cheapest, lemma_advance_settled, lemma_cheapest_is_shortest, lemma_initial_settled,
    lemma_outcome_cheapest, lemma_suitable_heuristic, monotone, nothing, route_cost, settled,
    shortest, suits,
};
use crate::search_model::{
    advance, after, consistent, finished, is_last_round, is_route, lemma_advance,
    lemma_initial_consistent, lemma_last_round, lemma_outcome, reachable, shortest_path,
};
use vstd::prelude::*;
use vstd::set_lib::lemma_len_subset;

verus! {

/// The cells of a grid of `rows` by `cols` cells.
pub open spec fn cells_within(rows: int, cols: int) -> Set<(i32, i32)> {
    Set::new(|at: (i32, i32)| GridView::inside(rows, cols, at))
}

/// The first `cols` cells of one row.
spec fn row_within(row: int, cols: int) -> Set<(i32, i32)> {
    Set::new(|at: (i32, i32)| at.0 == row && 0 <= at.1 < cols)
}

/// A row has finitely many cells.
proof fn lemma_row_finite(row: int, cols: int)
    requires
        0 <= cols,
    ensures
        row_within(row, cols).finite(),
    decreases cols,
{
    if cols == 0 {
        assert(row_within(row, cols) =~= Set::empty());
    } else {
        lemma_row_finite(row, cols - 1);
        let before = row_within(row, cols - 1);
        if i32::MIN <= row <= i32::MAX && cols - 1 <= i32::MAX {
            assert(row_within(row, cols) =~= before.insert((row as i32, (cols - 1) as i32)));
        } else {
            assert(row_within(row, cols) =~= before);
        }
    }
}

/// A grid has finitely many cells.
pub proof fn lemma_cells_finite(rows: int, cols: int)
    requires
        0 <= rows,
        0 <= cols,
    ensures
        cells_within(rows, cols).finite(),
    decreases rows,
{
    if rows == 0 {
        assert(cells_within(rows, cols) =~= Set::empty());
    } else {
        lemma_cells_finite(rows - 1, cols);
        lemma_row_finite(rows - 1, cols);
        assert(cells_within(rows, cols) =~= cells_within(rows - 1, cols).union(
            row_within(rows - 1, cols),
        ));
    }
}

/// As long as a search is not over, each round leaves it in a consistent
/// state and expands one more cell of the grid; with a monotone
/// heuristic the state is settled as well.
pub proof fn lemma_rounds(
    grid: GridView,
    heuristic: Heuristic,
    start: (i32, i32),
    goal: (i32, i32),
    n: nat,
)
    requires
        grid.wf(),
        grid.in_bounds(start),
        forall|j: nat| j < n ==> !finished(#[trigger] after(grid, heuristic, start, goal, j), goal),
    ensures
        consistent(grid, heuristic, start, goal, after(grid, heuristic, start, goal, n)),
        after(grid, heuristic, start, goal, n).closed.len() == n,
        after(grid, heuristic, start, goal, n).closed.subset_of(cells_within(grid.rows, grid.cols)),
        monotone(grid, heuristic, goal) ==> settled(grid, after(grid, heuristic, start, goal, n)),
    decreases n,
{
    let now = after(grid, heuristic, start, goal, n);
    if n == 0 {
        lemma_initial_consistent(grid, heuristic, start, goal);
        lemma_initial_settled(grid, heuristic, start, goal);
    } else {
        let before = after(grid, heuristic, start, goal, (n - 1) as nat);
        lemma_rounds(grid, heuristic, start, goal, (n - 1) as nat);
        assert(!finished(before, goal));
        lemma_advance(grid, heuristic, start, goal, before);
        if monotone(grid, heuristic, goal) {
            lemma_advance_settled(grid, heuristic, start, goal, before);
        }
    }
    assert forall|at: (i32, i32)| now.closed.contains(at) implies cells_within(
        grid.rows,
        grid.cols,
    ).contains(at) by {
        assert(now.g_score.contains_key(at));
        if at != start {
            assert(now.came_from.contains_key(at));
            assert(edge(grid, now.came_from[at], at));
        }
    }
}

/// The first round after which a search is over, given a round after
/// which it is.
proof fn lemma_first_finished(
    grid: GridView,
    heuristic: Heuristic,
    start: (i32, i32),
    goal: (i32, i32),
    n: nat,
) -> (first: nat)
    requires
        finished(after(grid, heuristic, start, goal, n), goal),
    ensures
        is_last_round(grid, heuristic, start, goal, first),
        first <= n,
    decreases n,
{
    if exists|j: nat| j < n && finished(#[trigger] after(grid, heuristic, start, goal, j), goal) {
        let j = choose|j: nat|
            j < n && finished(#[trigger] after(grid, heuristic, start, goal, j), goal);
        lemma_first_finished(grid, heuristic, start, goal, j)
    } else {
        n
    }
}

/// Every search comes to an end: it expands a new cell in each round,
/// and the grid has only so many.
pub proof fn lemma_search_ends(
    grid: GridView,
    heuristic: Heuristic,
    start: (i32, i32),
    goal: (i32, i32),
) -> (last: nat)
    requires
        grid.wf(),
        grid.in_bounds(start),
    ensures
        is_last_round(grid, heuristic, start, goal, last),
{
    let cells = cells_within(grid.rows, grid.cols);
    lemma_cells_finite(grid.rows, grid.cols);
    let bound = cells.len() + 1;
    if forall|j: nat| j < bound ==> !finished(#[trigger] after(grid, heuristic, start, goal, j), goal) {
        lemma_rounds(grid, heuristic, start, goal, bound);
        lemma_len_subset(after(grid, heuristic, start, goal, bound).closed, cells);
        assert(false);
    }
    let j = choose|j: nat|
        j < bound && finished(#[trigger] after(grid, heuristic, start, goal, j), goal);
    lemma_first_finished(grid, heuristic, start, goal, j)
}

/// What the search finds. It finds a route exactly where the two ends
/// are different cells of the grid and some route leads from the one to
/// the other. What it finds is then such a route: a chain of moves from
/// `start` to `goal` that names `goal` last and `start` not at all. Where
/// the heuristic suits the grid, no route costs less.
pub proof fn lemma_shortest_path(
    grid: GridView,
    heuristic: Heuristic,
    start: (i32, i32),
    goal: (i32, i32),
)
    requires
        grid.wf(),
    ensures
        shortest_path(grid, heuristic, start, goal).len() > 0 <==> grid.in_bounds(start)
            && grid.in_bounds(goal) && start != goal && reachable(grid, start, goal),
        shortest_path(grid, heuristic, start, goal).len() > 0 ==> is_route(
            grid,
            start,
            goal,
            shortest_path(grid, heuristic, start, goal),
        ),
        !shortest_path(grid, heuristic, start, goal).contains(start),
        suits(grid.neighborhood, heuristic) ==> cheapest(
            grid,
            start,
            goal,
            shortest_path(grid, heuristic, start, goal),
        ),
        suits(grid.neighborhood, heuristic) ==> shortest(
            grid,
            start,
            goal,
            shortest_path(grid, heuristic, start, goal),
        ),
{
    let path = shortest_path(grid, heuristic, start, goal);
    if grid.in_bounds(start) && grid.in_bounds(goal) {
        let n = lemma_search_ends(grid, heuristic, start, goal);
        lemma_last_round(grid, heuristic, start, goal, n);
        lemma_rounds(grid, heuristic, start, goal, n);
        let s = after(grid, heuristic, start, goal, n);
        lemma_outcome(grid, heuristic, start, goal, s);
        if suits(grid.neighborhood, heuristic) {
            lemma_suitable_heuristic(grid, heuristic, goal);
            lemma_outcome_cheapest(grid, heuristic, start, goal, s);
        }
    } else {
        assert(route_cost(start, path) == nothing());
        assert forall|other: Seq<(i32, i32)>| #[trigger]
            is_route(grid, start, goal, other) implies route_cost(start, path).le(
            route_cost(start, other),
        ) by {
            crate::optimality::lemma_route_cost_counts(start, other);
            crate::surd::lemma_nonneg_parts(route_cost(start, other).minus(nothing()));
        }
    }
    if suits(grid.neighborhood, heuristic) {
        lemma_cheapest_is_shortest(grid, start, goal, path);
    }
}

/// Two grids are alike to a search: they have the same size, their cells
/// are connected in the same way, and their walls are in the same
/// places.
pub open spec fn alike(one: GridView, other: GridView) -> bool {
    &&& one.rows == other.rows
    &&& one.cols == other.cols
    &&& one.neighborhood == other.neighborhood
    &&& forall|at: (i32, i32)|
        one.in_bounds(at) ==> (#[trigger] one.cells[at] == GridCellType::Wall <==> other.cells[at]
            == GridCellType::Wall)
}

/// On grids that are alike every cell has the same neighbours.
proof fn lemma_alike_neighbors(one: GridView, other: GridView, at: (i32, i32), n: nat)
    requires
        alike(one, other),
        one.rows <= i32::MAX,
        one.cols <= i32::MAX,
    ensures
        neighbors_upto(one, at, n) == neighbors_upto(other, at, n),
    decreases n,
{
    if n > 0 {
        lemma_alike_neighbors(one, other, at, (n - 1) as nat);
        let p = toward(at, n - 1);
        if enterable(one, p) || enterable(other, p) {
            let to = (p.0 as i32, p.1 as i32);
            assert(one.in_bounds(to));
            assert(one.cells[to] == GridCellType::Wall <==> other.cells[to] == GridCellType::Wall);
        }
    }
}

/// On grids that are alike a search goes through the same states.
proof fn lemma_alike_rounds(
    one: GridView,
    other: GridView,
    heuristic: Heuristic,
    start: (i32, i32),
    goal: (i32, i32),
    n: nat,
)
    requires
        alike(one, other),
        one.rows <= i32::MAX,
        one.cols <= i32::MAX,
    ensures
        after(one, heuristic, start, goal, n) == after(other, heuristic, start, goal, n),
    decreases n,
{
    if n > 0 {
        lemma_alike_rounds(one, other, heuristic, start, goal, (n - 1) as nat);
        let s = after(one, heuristic, start, goal, (n - 1) as nat);
        let current = s.open[crate::frontier::lowest(s.open, s.f_score)];
        lemma_alike_neighbors(one, other, current, direction_count(one.neighborhood));
        assert(neighbors(one, current) == neighbors(other, current));
        assert(advance(one, heuristic, goal, s) == advance(other, heuristic, goal, s));
    }
}

/// What a search finds depends on the size of the grid, on how its cells
/// are connected, on where its walls are, on the two ends and on the
/// heuristic, and on nothing else: on grids that are alike, and so on a
/// grid that has not changed, the same search finds the same route.
pub proof fn lemma_alike_grids_same_route(
    one: GridView,
    other: GridView,
    heuristic: Heuristic,
    start: (i32, i32),
    goal: (i32, i32),
)
    requires
        one.wf(),
        alike(one, other),
    ensures
        shortest_path(one, heuristic, start, goal) == shortest_path(other, heuristic, start, goal),
{
    if one.in_bounds(start) && one.in_bounds(goal) {
        let n = lemma_search_ends(one, heuristic, start, goal);
        assert forall|j: nat| j <= n implies after(one, heuristic, start, goal, j) == after(
            other,
            heuristic,
            start,
            goal,
            j,
        ) by {
            lemma_alike_rounds(one, other, heuristic, start, goal, j);
        }
        assert(is_last_round(other, heuristic, start, goal, n)) by {
            assert forall|j: nat| j < n implies !finished(
                #[trigger] after(other, heuristic, start, goal, j),
                goal,
            ) by {
                assert(after(one, heuristic, start, goal, j) == after(
                    other,
                    heuristic,
                    start,
                    goal,
                    j,
                ));
            }
        }
        lemma_last_round(one, heuristic, start, goal, n);
        lemma_last_round(other, heuristic, start, goal, n);
    }
}

} // verus!
