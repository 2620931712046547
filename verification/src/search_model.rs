//! The A* search as a state machine: what a search knows, what a round
//! does to it, when it is over and what it has found then; and what
//! holds of its state between any two rounds.

use crate::cell::GridCellType;
use crate::frontier::{lemma_lowest_upto, lowest};
use crate::grid::GridView;
use crate::heuristic::{estimate, step_cost, Heuristic, STRAIGHT_COST};
use crate::neighbors::{edge, lemma_neighbors_are_edges, neighbors};
use crate::route::{ancestor, chain_ends, is_chain_length, lemma_chain_length_unique, route};
use crate::surd::Surd;
use vstd::prelude::*;

verus! {

/// What a search knows between two rounds.
#[verifier::ext_equal]
pub struct SearchState {
    /// The cells found and not yet expanded, in the order in which they
    /// were found.
    pub open: Seq<(i32, i32)>,
    /// The cells expanded.
    pub closed: Set<(i32, i32)>,
    /// The cost of the cheapest way found so far from the start to a cell.
    pub g_score: Map<(i32, i32), Surd>,
    /// That cost plus the estimate of what is left to the goal.
    pub f_score: Map<(i32, i32), Surd>,
    /// The cell before a cell on the cheapest way found to it.
    pub came_from: Map<(i32, i32), (i32, i32)>,
}

/// The score of a cell: what the way to it costs and what is estimated
/// for the rest of the way, in thousandths.
pub open spec fn scored(cost: Surd, left: nat) -> Surd {
    Surd { whole: cost.whole + left, root: cost.root }
}

/// The state a search begins in: only the start is known, at no cost.
pub open spec fn initial(heuristic: Heuristic, start: (i32, i32), goal: (i32, i32)) -> SearchState {
    SearchState {
        open: seq![start],
        closed: Set::empty(),
        g_score: Map::empty().insert(start, Surd { whole: 0, root: 0 }),
        f_score: Map::empty().insert(start, scored(Surd { whole: 0, root: 0 }, estimate(heuristic, start, goal))),
        came_from: Map::empty(),
    }
}

/// The state after the open entry at position `i` was taken out to be
/// expanded.
pub open spec fn pick(s: SearchState, i: int) -> SearchState {
    SearchState { open: s.open.remove(i), closed: s.closed.insert(s.open[i]), ..s }
}

/// The state after the step from `current` to its neighbour `to` was
/// looked at: where the way over `current` is cheaper than any known way
/// to `to`, it is recorded, and `to` is entered among the open cells if
/// it is new. An expanded cell is left alone.
pub open spec fn relax(
    heuristic: Heuristic,
    goal: (i32, i32),
    s: SearchState,
    current: (i32, i32),
    to: (i32, i32),
) -> SearchState {
    let tentative = s.g_score[current].plus(step_cost(current, to));
    if s.closed.contains(to) {
        s
    } else if s.g_score.contains_key(to) && s.g_score[to].le(tentative) {
        s
    } else {
        SearchState {
            open: if s.g_score.contains_key(to) {
                s.open
            } else {
                s.open.push(to)
            },
            closed: s.closed,
            g_score: s.g_score.insert(to, tentative),
            f_score: s.f_score.insert(to, scored(tentative, estimate(heuristic, to, goal))),
            came_from: s.came_from.insert(to, current),
        }
    }
}

/// The state after the steps from `current` to the first `n` cells of
/// `found` were looked at, one after the other.
pub open spec fn relax_all(
    heuristic: Heuristic,
    goal: (i32, i32),
    s: SearchState,
    current: (i32, i32),
    found: Seq<(i32, i32)>,
    n: nat,
) -> SearchState
    decreases n,
{
    if n == 0 {
        s
    } else {
        relax(
            heuristic,
            goal,
            relax_all(heuristic, goal, s, current, found, (n - 1) as nat),
            current,
            found[n - 1],
        )
    }
}

/// The search is over: nothing is left to expand, or the goal is next.
pub open spec fn finished(s: SearchState, goal: (i32, i32)) -> bool {
    s.open.len() == 0 || s.open[lowest(s.open, s.f_score)] == goal
}

/// One round: the open cell with the lowest score is expanded, which
/// means that the steps to all its neighbours are looked at.
pub open spec fn advance(
    grid: GridView,
    heuristic: Heuristic,
    goal: (i32, i32),
    s: SearchState,
) -> SearchState {
    let i = lowest(s.open, s.f_score);
    let current = s.open[i];
    let found = neighbors(grid, current);
    relax_all(heuristic, goal, pick(s, i), current, found, found.len())
}

/// The state after `n` rounds.
pub open spec fn after(
    grid: GridView,
    heuristic: Heuristic,
    start: (i32, i32),
    goal: (i32, i32),
    n: nat,
) -> SearchState
    decreases n,
{
    if n == 0 {
        initial(heuristic, start, goal)
    } else {
        advance(grid, heuristic, goal, after(grid, heuristic, start, goal, (n - 1) as nat))
    }
}

/// The search is over after `n` rounds and not before.
pub open spec fn is_last_round(
    grid: GridView,
    heuristic: Heuristic,
    start: (i32, i32),
    goal: (i32, i32),
    n: nat,
) -> bool {
    &&& finished(after(grid, heuristic, start, goal, n), goal)
    &&& forall|j: nat| j < n ==> !finished(#[trigger] after(grid, heuristic, start, goal, j), goal)
}

/// What a search that is over has found: no route if nothing was left to
/// expand, else the route that the predecessors of the goal describe.
pub open spec fn outcome(s: SearchState, goal: (i32, i32)) -> Seq<(i32, i32)> {
    if s.open.len() == 0 {
        Seq::empty()
    } else {
        route(s.came_from, goal)
    }
}

/// The route that the search finds from `start` to `goal`: none if one of
/// the two lies outside the grid, else what the last round has found.
pub open spec fn shortest_path(
    grid: GridView,
    heuristic: Heuristic,
    start: (i32, i32),
    goal: (i32, i32),
) -> Seq<(i32, i32)> {
    if !grid.in_bounds(start) || !grid.in_bounds(goal) {
        Seq::empty()
    } else {
        let n = choose|n: nat| is_last_round(grid, heuristic, start, goal, n);
        outcome(after(grid, heuristic, start, goal, n), goal)
    }
}

/// `path` leads from `start` to `goal`: it names the cells entered one
/// after the other, each one move from the cell before, the first one
/// move from `start`, the last `goal` itself. `start` is where the route
/// begins and is not named.
pub open spec fn is_route(
    grid: GridView,
    start: (i32, i32),
    goal: (i32, i32),
    path: Seq<(i32, i32)>,
) -> bool {
    &&& path.len() > 0
    &&& edge(grid, start, path[0])
    &&& forall|i: int| 0 <= i < path.len() - 1 ==> edge(grid, #[trigger] path[i], path[i + 1])
    &&& path[path.len() - 1] == goal
}

/// Some route leads from `start` to `goal`.
pub open spec fn reachable(grid: GridView, start: (i32, i32), goal: (i32, i32)) -> bool {
    exists|path: Seq<(i32, i32)>| is_route(grid, start, goal, path)
}

/// Every cell that a route from `start` enters lies on the same side of
/// a full row of walls as `start`.
proof fn lemma_route_stays_on_side(
    grid: GridView,
    start: (i32, i32),
    goal: (i32, i32),
    path: Seq<(i32, i32)>,
    row: i32,
    k: int,
)
    requires
        grid.wf(),
        forall|col: i32|
            0 <= col < grid.cols ==> #[trigger] grid.cells[(row, col)] == GridCellType::Wall,
        start.0 != row,
        is_route(grid, start, goal, path),
        0 <= k < path.len(),
    ensures
        path[k].0 != row,
        start.0 < row <==> path[k].0 < row,
    decreases k,
{
    if k == 0 {
        assert(edge(grid, start, path[0]));
        assert(path[0].0 == row ==> path[0] == (row, path[0].1));
    } else {
        lemma_route_stays_on_side(grid, start, goal, path, row, k - 1);
        assert(edge(grid, path[k - 1], path[k - 1 + 1]));
        assert(path[k].0 == row ==> path[k] == (row, path[k].1));
    }
}

/// A full row of walls between two cells cuts one off from the other: no
/// route leads from a cell on one side of it to a cell on the other.
pub proof fn lemma_wall_row_separates(
    grid: GridView,
    start: (i32, i32),
    goal: (i32, i32),
    row: i32,
)
    requires
        grid.wf(),
        forall|col: i32|
            0 <= col < grid.cols ==> #[trigger] grid.cells[(row, col)] == GridCellType::Wall,
        start.0 < row < goal.0 || goal.0 < row < start.0,
    ensures
        !reachable(grid, start, goal),
{
    if reachable(grid, start, goal) {
        let path = choose|path: Seq<(i32, i32)>| is_route(grid, start, goal, path);
        lemma_route_stays_on_side(grid, start, goal, path, row, path.len() - 1);
    }
}

/// The books are in order: a cell has a cost exactly if it is open or
/// expanded, never both and never twice; its score is its cost plus the
/// estimate; and no way to a cell has more steps than cells were
/// expanded.
pub open spec fn tidy(heuristic: Heuristic, goal: (i32, i32), s: SearchState) -> bool {
    &&& s.closed.finite()
    &&& s.open.no_duplicates()
    &&& forall|at: (i32, i32)| #[trigger]
        s.g_score.contains_key(at) <==> (s.closed.contains(at) || s.open.contains(at))
    &&& forall|at: (i32, i32)| !(#[trigger] s.closed.contains(at) && s.open.contains(at))
    &&& forall|at: (i32, i32)| #[trigger]
        s.f_score.contains_key(at) <==> s.g_score.contains_key(at)
    &&& forall|at: (i32, i32)| #[trigger]
        s.g_score.contains_key(at) ==> s.f_score[at] == scored(
            s.g_score[at],
            estimate(heuristic, at, goal),
        )
    &&& forall|at: (i32, i32)| #[trigger]
        s.g_score.contains_key(at) ==> s.g_score[at].whole + s.g_score[at].root <= STRAIGHT_COST
            * s.closed.len()
}

/// The predecessors form a tree that hangs from the start: the start
/// costs nothing and has no predecessor; every other cell with a cost has
/// one, an expanded cell from which one move leads to it, and costs
/// what its predecessor costs plus that move.
pub open spec fn rooted(grid: GridView, start: (i32, i32), s: SearchState) -> bool {
    &&& s.g_score.contains_key(start)
    &&& s.g_score[start] == (Surd { whole: 0, root: 0 })
    &&& forall|at: (i32, i32)| #[trigger]
        s.g_score.contains_key(at) ==> s.g_score[at].whole >= 0 && s.g_score[at].root >= 0
    &&& forall|at: (i32, i32)| #[trigger]
        s.came_from.contains_key(at) <==> (s.g_score.contains_key(at) && at != start)
    &&& forall|at: (i32, i32)| #[trigger]
        s.came_from.contains_key(at) ==> {
            &&& s.closed.contains(s.came_from[at])
            &&& s.g_score.contains_key(s.came_from[at])
            &&& edge(grid, s.came_from[at], at)
            &&& s.g_score[at] == s.g_score[s.came_from[at]].plus(step_cost(s.came_from[at], at))
        }
}

/// The goal is not expanded, and every cell that one move reaches from
/// an expanded cell, `except` perhaps, has a cost.
pub open spec fn explored(
    grid: GridView,
    goal: (i32, i32),
    s: SearchState,
    except: Option<(i32, i32)>,
) -> bool {
    &&& !s.closed.contains(goal)
    &&& forall|from: (i32, i32), to: (i32, i32)|
        s.closed.contains(from) && Some(from) != except && #[trigger] edge(grid, from, to)
            ==> s.g_score.contains_key(to)
}

/// What holds of the state between any two rounds of a search.
pub open spec fn consistent(
    grid: GridView,
    heuristic: Heuristic,
    start: (i32, i32),
    goal: (i32, i32),
    s: SearchState,
) -> bool {
    &&& tidy(heuristic, goal, s)
    &&& rooted(grid, start, s)
    &&& explored(grid, goal, s, None)
}

/// A search begins in a consistent state.
pub proof fn lemma_initial_consistent(
    grid: GridView,
    heuristic: Heuristic,
    start: (i32, i32),
    goal: (i32, i32),
)
    ensures
        consistent(grid, heuristic, start, goal, initial(heuristic, start, goal)),
{
    let s = initial(heuristic, start, goal);
    assert(s.open[0] == start);
    assert forall|at: (i32, i32)| #[trigger]
        s.g_score.contains_key(at) <==> (s.closed.contains(at) || s.open.contains(at)) by {
        if s.open.contains(at) {
            let k = choose|k: int| 0 <= k < s.open.len() && s.open[k] == at;
        }
    }
}

/// Taking one entry out of a list without repetitions leaves a list
/// without repetitions that holds what the list held but that entry.
pub proof fn lemma_remove_entry(open: Seq<(i32, i32)>, i: int)
    requires
        open.no_duplicates(),
        0 <= i < open.len(),
    ensures
        open.remove(i).no_duplicates(),
        forall|at: (i32, i32)| #[trigger]
            open.remove(i).contains(at) <==> (open.contains(at) && at != open[i]),
{
    let rest = open.remove(i);
    assert forall|a: int, b: int| 0 <= a < rest.len() && 0 <= b < rest.len() && a != b implies rest[a]
        != rest[b] by {
        let a0 = if a < i {
            a
        } else {
            a + 1
        };
        let b0 = if b < i {
            b
        } else {
            b + 1
        };
        assert(rest[a] == open[a0] && rest[b] == open[b0]);
    }
    assert forall|at: (i32, i32)| #[trigger]
        rest.contains(at) <==> (open.contains(at) && at != open[i]) by {
        if rest.contains(at) {
            let k = choose|k: int| 0 <= k < rest.len() && rest[k] == at;
            let k0 = if k < i {
                k
            } else {
                k + 1
            };
            assert(open[k0] == at);
        }
        if open.contains(at) && at != open[i] {
            let k = choose|k: int| 0 <= k < open.len() && open[k] == at;
            let k1 = if k < i {
                k
            } else {
                k - 1
            };
            assert(rest[k1] == at);
        }
    }
}

/// Taking an open cell other than the goal out to expand it keeps the
/// books in order and the tree rooted; only the cells around the one
/// taken out are still to be looked at.
pub proof fn lemma_pick(
    grid: GridView,
    heuristic: Heuristic,
    start: (i32, i32),
    goal: (i32, i32),
    s: SearchState,
    i: int,
)
    requires
        consistent(grid, heuristic, start, goal, s),
        0 <= i < s.open.len(),
        s.open[i] != goal,
    ensures
        tidy(heuristic, goal, pick(s, i)),
        rooted(grid, start, pick(s, i)),
        explored(grid, goal, pick(s, i), Some(s.open[i])),
        !s.closed.contains(s.open[i]),
        pick(s, i).closed.len() == s.closed.len() + 1,
        pick(s, i).g_score.contains_key(s.open[i]),
        pick(s, i).g_score[s.open[i]].whole + pick(s, i).g_score[s.open[i]].root + STRAIGHT_COST
            <= STRAIGHT_COST * pick(s, i).closed.len(),
{
    let p = pick(s, i);
    let current = s.open[i];
    lemma_remove_entry(s.open, i);
    assert(s.open.contains(current));
    assert(s.g_score.contains_key(current));
    assert(!s.closed.contains(current));
    assert(STRAIGHT_COST * (s.closed.len() + 1) == STRAIGHT_COST * s.closed.len() + STRAIGHT_COST)
        by (nonlinear_arith);
    assert forall|at: (i32, i32)| #[trigger]
        p.g_score.contains_key(at) implies p.g_score[at].whole + p.g_score[at].root
        <= STRAIGHT_COST * p.closed.len() by {
        assert(s.g_score.contains_key(at));
    }
    assert forall|at: (i32, i32)| #[trigger]
        p.came_from.contains_key(at) implies p.closed.contains(p.came_from[at]) by {
        assert(s.came_from.contains_key(at));
    }
}

/// Looking at one step from an expanded cell keeps the books in order and
/// the tree rooted, forgets no cell, and leaves the cell stepped to with
/// a cost.
pub proof fn lemma_relax(
    grid: GridView,
    heuristic: Heuristic,
    start: (i32, i32),
    goal: (i32, i32),
    s: SearchState,
    current: (i32, i32),
    to: (i32, i32),
)
    requires
        tidy(heuristic, goal, s),
        rooted(grid, start, s),
        s.closed.contains(current),
        edge(grid, current, to),
        s.g_score[current].whole + s.g_score[current].root + STRAIGHT_COST <= STRAIGHT_COST
            * s.closed.len(),
    ensures
        tidy(heuristic, goal, relax(heuristic, goal, s, current, to)),
        rooted(grid, start, relax(heuristic, goal, s, current, to)),
        relax(heuristic, goal, s, current, to).closed == s.closed,
        relax(heuristic, goal, s, current, to).g_score.contains_key(to),
        relax(heuristic, goal, s, current, to).g_score[current] == s.g_score[current],
        forall|at: (i32, i32)|
            s.g_score.contains_key(at) ==> #[trigger] relax(
                heuristic,
                goal,
                s,
                current,
                to,
            ).g_score.contains_key(at),
{
    let r = relax(heuristic, goal, s, current, to);
    let tentative = s.g_score[current].plus(step_cost(current, to));
    assert(s.g_score.contains_key(current));
    if s.closed.contains(to) {
        assert(s.g_score.contains_key(to));
    } else if s.g_score.contains_key(to) && s.g_score[to].le(tentative) {
    } else {
        assert(to != current);
        crate::surd::lemma_nonneg_parts(tentative.minus(s.g_score[start]));
        assert(to != start);
        assert(r.g_score.contains_key(to));
        if s.g_score.contains_key(to) {
            assert(r.open == s.open);
        } else {
            assert(!s.open.contains(to));
            assert(r.open == s.open.push(to));
            assert forall|at: (i32, i32)| #[trigger]
                r.open.contains(at) <==> (s.open.contains(at) || at == to) by {
                if r.open.contains(at) {
                    let k = choose|k: int| 0 <= k < r.open.len() && r.open[k] == at;
                    if k < s.open.len() {
                        assert(s.open[k] == at);
                    }
                }
                if s.open.contains(at) {
                    let k = choose|k: int| 0 <= k < s.open.len() && s.open[k] == at;
                    assert(r.open[k] == at);
                }
                if at == to {
                    assert(r.open[s.open.len() as int] == at);
                }
            }
            assert forall|a: int, b: int|
                0 <= a < r.open.len() && 0 <= b < r.open.len() && a != b implies r.open[a]
                != r.open[b] by {
                if a == s.open.len() {
                    assert(s.open[b] == r.open[b]);
                    assert(s.open.contains(r.open[b]));
                } else if b == s.open.len() {
                    assert(s.open[a] == r.open[a]);
                    assert(s.open.contains(r.open[a]));
                }
            }
        }
        assert forall|at: (i32, i32)| #[trigger]
            r.g_score.contains_key(at) <==> (r.closed.contains(at) || r.open.contains(at)) by {
            assert(s.g_score.contains_key(at) <==> (s.closed.contains(at) || s.open.contains(at)));
        }
        assert forall|at: (i32, i32)|
            !(#[trigger] r.closed.contains(at) && r.open.contains(at)) by {
            assert(!(s.closed.contains(at) && s.open.contains(at)));
        }
        assert forall|at: (i32, i32)| #[trigger]
            r.g_score.contains_key(at) implies r.f_score[at] == scored(
            r.g_score[at],
            estimate(heuristic, at, goal),
        ) by {
            if at != to {
                assert(s.g_score.contains_key(at));
            }
        }
        assert forall|at: (i32, i32)| #[trigger]
            r.g_score.contains_key(at) implies r.g_score[at].whole + r.g_score[at].root
            <= STRAIGHT_COST * r.closed.len() by {
            if at != to {
                assert(s.g_score.contains_key(at));
            }
        }
        assert forall|at: (i32, i32)| #[trigger]
            r.g_score.contains_key(at) implies r.g_score[at].whole >= 0 && r.g_score[at].root
            >= 0 by {
            if at != to {
                assert(s.g_score.contains_key(at));
            }
        }
        assert forall|at: (i32, i32)| #[trigger]
            r.came_from.contains_key(at) <==> (r.g_score.contains_key(at) && at != start) by {
            assert(s.came_from.contains_key(at) <==> (s.g_score.contains_key(at) && at
                != start));
        }
        assert forall|at: (i32, i32)| #[trigger] r.came_from.contains_key(at) implies {
            &&& r.closed.contains(r.came_from[at])
            &&& r.g_score.contains_key(r.came_from[at])
            &&& edge(grid, r.came_from[at], at)
            &&& r.g_score[at] == r.g_score[r.came_from[at]].plus(step_cost(r.came_from[at], at))
        } by {
            if at != to {
                assert(s.came_from.contains_key(at));
                assert(s.came_from[at] != to);
            }
        }
    }
}

/// Looking at the steps from an expanded cell to the first `n` of its
/// neighbours keeps the books in order and the tree rooted, forgets no
/// cell, and leaves each of those neighbours with a cost.
pub proof fn lemma_relax_all(
    grid: GridView,
    heuristic: Heuristic,
    start: (i32, i32),
    goal: (i32, i32),
    s: SearchState,
    current: (i32, i32),
    found: Seq<(i32, i32)>,
    n: nat,
)
    requires
        tidy(heuristic, goal, s),
        rooted(grid, start, s),
        s.closed.contains(current),
        s.g_score[current].whole + s.g_score[current].root + STRAIGHT_COST <= STRAIGHT_COST
            * s.closed.len(),
        n <= found.len(),
        forall|j: int| 0 <= j < found.len() ==> edge(grid, current, #[trigger] found[j]),
    ensures
        tidy(heuristic, goal, relax_all(heuristic, goal, s, current, found, n)),
        rooted(grid, start, relax_all(heuristic, goal, s, current, found, n)),
        relax_all(heuristic, goal, s, current, found, n).closed == s.closed,
        relax_all(heuristic, goal, s, current, found, n).g_score[current] == s.g_score[current],
        forall|at: (i32, i32)|
            s.g_score.contains_key(at) ==> #[trigger] relax_all(
                heuristic,
                goal,
                s,
                current,
                found,
                n,
            ).g_score.contains_key(at),
        forall|j: int|
            0 <= j < n ==> relax_all(heuristic, goal, s, current, found, n).g_score.contains_key(
                #[trigger] found[j],
            ),
    decreases n,
{
    if n > 0 {
        let before = relax_all(heuristic, goal, s, current, found, (n - 1) as nat);
        lemma_relax_all(grid, heuristic, start, goal, s, current, found, (n - 1) as nat);
        lemma_relax(grid, heuristic, start, goal, before, current, found[n - 1]);
        let now = relax_all(heuristic, goal, s, current, found, n);
        assert(now == relax(heuristic, goal, before, current, found[n - 1]));
        assert forall|at: (i32, i32)| s.g_score.contains_key(at) implies #[trigger]
            now.g_score.contains_key(at) by {
            assert(before.g_score.contains_key(at));
        }
        assert forall|j: int| 0 <= j < n implies now.g_score.contains_key(#[trigger] found[j]) by {
            if j < n - 1 {
                assert(before.g_score.contains_key(found[j]));
            }
        }
    }
}

/// A round of a search that is not over leads from a consistent state to
/// a consistent state in which one more cell is expanded.
pub proof fn lemma_advance(
    grid: GridView,
    heuristic: Heuristic,
    start: (i32, i32),
    goal: (i32, i32),
    s: SearchState,
)
    requires
        grid.wf(),
        consistent(grid, heuristic, start, goal, s),
        !finished(s, goal),
    ensures
        consistent(grid, heuristic, start, goal, advance(grid, heuristic, goal, s)),
        advance(grid, heuristic, goal, s).closed.len() == s.closed.len() + 1,
{
    let i = lowest(s.open, s.f_score);
    lemma_lowest_upto(s.open, s.f_score, s.open.len());
    let current = s.open[i];
    let found = neighbors(grid, current);
    let p = pick(s, i);
    let next = advance(grid, heuristic, goal, s);
    lemma_pick(grid, heuristic, start, goal, s, i);
    lemma_neighbors_are_edges(grid, current);
    assert forall|j: int| 0 <= j < found.len() implies edge(grid, current, #[trigger] found[j]) by {
        assert(found.contains(found[j]));
    }
    lemma_relax_all(grid, heuristic, start, goal, p, current, found, found.len());
    assert forall|from: (i32, i32), to: (i32, i32)|
        next.closed.contains(from) && #[trigger] edge(grid, from, to) implies next.g_score.contains_key(
        to,
    ) by {
        if from == current {
            assert(found.contains(to));
            let j = choose|j: int| 0 <= j < found.len() && found[j] == to;
            assert(next.g_score.contains_key(found[j]));
        } else {
            assert(p.g_score.contains_key(to));
        }
    }
}

/// The predecessor of the cell `n` links above `at` is the cell `n` links
/// above the predecessor of `at`.
pub proof fn lemma_ancestor_shift(came_from: Map<(i32, i32), (i32, i32)>, at: (i32, i32), n: nat)
    ensures
        ancestor(came_from, at, n + 1) == ancestor(came_from, came_from[at], n),
    decreases n,
{
    reveal_with_fuel(ancestor, 2);
    if n > 0 {
        lemma_ancestor_shift(came_from, at, (n - 1) as nat);
        assert(ancestor(came_from, at, n + 1) == came_from[ancestor(came_from, at, n)]);
    }
}

/// From every cell with a cost the predecessors lead back to the start,
/// each link the reverse of one move, and every cell on the way has a
/// cost.
pub proof fn lemma_chain_to_start(
    grid: GridView,
    start: (i32, i32),
    s: SearchState,
    at: (i32, i32),
) -> (n: nat)
    requires
        rooted(grid, start, s),
        s.g_score.contains_key(at),
    ensures
        is_chain_length(s.came_from, at, n),
        ancestor(s.came_from, at, n) == start,
        n == 0 <==> at == start,
        forall|j: nat|
            j < n ==> edge(
                grid,
                ancestor(s.came_from, at, j + 1),
                #[trigger] ancestor(s.came_from, at, j),
            ),
    decreases s.g_score[at].whole + s.g_score[at].root,
{
    if at == start {
        0
    } else {
        let before = s.came_from[at];
        assert(s.came_from.contains_key(at));
        let m = lemma_chain_to_start(grid, start, s, before);
        let n = m + 1;
        assert forall|j: nat| 0 < j <= n implies ancestor(s.came_from, at, j) == ancestor(
            s.came_from,
            before,
            (j - 1) as nat,
        ) by {
            lemma_ancestor_shift(s.came_from, at, (j - 1) as nat);
        }
        assert forall|j: nat| j < n implies s.came_from.contains_key(
            #[trigger] ancestor(s.came_from, at, j),
        ) by {
            if j > 0 {
                assert(s.came_from.contains_key(ancestor(s.came_from, before, (j - 1) as nat)));
            }
        }
        assert forall|j: nat| j < n implies edge(
            grid,
            ancestor(s.came_from, at, j + 1),
            #[trigger] ancestor(s.came_from, at, j),
        ) by {
            lemma_ancestor_shift(s.came_from, at, j);
            if j > 0 {
                lemma_ancestor_shift(s.came_from, at, (j - 1) as nat);
                assert(edge(
                    grid,
                    ancestor(s.came_from, before, j),
                    ancestor(s.came_from, before, (j - 1) as nat),
                ));
            }
        }
        n
    }
}

/// Where nothing is left to expand, every cell that a route leads to
/// from the start is expanded.
pub proof fn lemma_exhausted_holds_reachable(
    grid: GridView,
    heuristic: Heuristic,
    start: (i32, i32),
    goal: (i32, i32),
    s: SearchState,
    to: (i32, i32),
    path: Seq<(i32, i32)>,
)
    requires
        consistent(grid, heuristic, start, goal, s),
        s.open.len() == 0,
        is_route(grid, start, to, path),
    ensures
        s.closed.contains(to),
    decreases path.len(),
{
    assert(forall|at: (i32, i32)| !s.open.contains(at));
    assert(s.closed.contains(start));
    if path.len() == 1 {
        assert(edge(grid, start, path[0]));
        assert(s.g_score.contains_key(to));
    } else {
        let shorter = path.drop_last();
        let via = path[path.len() - 2];
        assert(is_route(grid, start, via, shorter)) by {
            assert(shorter[0] == path[0]);
            assert forall|i: int| 0 <= i < shorter.len() - 1 implies edge(
                grid,
                #[trigger] shorter[i],
                shorter[i + 1],
            ) by {
                assert(shorter[i] == path[i] && shorter[i + 1] == path[i + 1]);
            }
        }
        lemma_exhausted_holds_reachable(grid, heuristic, start, goal, s, via, shorter);
        assert(edge(grid, path[path.len() - 2], path[path.len() - 2 + 1]));
        assert(s.g_score.contains_key(to));
    }
}

/// What a finished search in a consistent state has found is a route
/// from the start to the goal wherever one exists and the two differ,
/// and nothing otherwise. A route found names the goal last and the
/// start not at all.
pub proof fn lemma_outcome(
    grid: GridView,
    heuristic: Heuristic,
    start: (i32, i32),
    goal: (i32, i32),
    s: SearchState,
)
    requires
        consistent(grid, heuristic, start, goal, s),
        finished(s, goal),
    ensures
        s.open.len() > 0 ==> chain_ends(s.came_from, goal),
        outcome(s, goal).len() > 0 <==> start != goal && reachable(grid, start, goal),
        outcome(s, goal).len() > 0 ==> is_route(grid, start, goal, outcome(s, goal)),
        !outcome(s, goal).contains(start),
{
    let found = outcome(s, goal);
    if s.open.len() == 0 {
        if reachable(grid, start, goal) {
            let path = choose|path: Seq<(i32, i32)>| is_route(grid, start, goal, path);
            lemma_exhausted_holds_reachable(grid, heuristic, start, goal, s, goal, path);
        }
    } else {
        lemma_lowest_upto(s.open, s.f_score, s.open.len());
        assert(s.open.contains(goal));
        let n = lemma_chain_to_start(grid, start, s, goal);
        lemma_chain_length_unique(s.came_from, goal, n);
        assert(found.len() == n);
        assert forall|i: int| 0 <= i < found.len() implies found[i] != start by {
            assert(s.came_from.contains_key(ancestor(s.came_from, goal, (n - 1 - i) as nat)));
        }
        if n > 0 {
            assert(edge(
                grid,
                ancestor(s.came_from, goal, (n - 1 + 1) as nat),
                ancestor(s.came_from, goal, (n - 1) as nat),
            ));
            assert forall|i: int| 0 <= i < found.len() - 1 implies edge(
                grid,
                #[trigger] found[i],
                found[i + 1],
            ) by {
                let j = (n - 2 - i) as nat;
                assert(edge(
                    grid,
                    ancestor(s.came_from, goal, j + 1),
                    ancestor(s.came_from, goal, j),
                ));
            }
            assert(is_route(grid, start, goal, found));
        }
    }
}

/// A search has one last round, so what it finds is what the state after
/// that round holds.
pub proof fn lemma_last_round(
    grid: GridView,
    heuristic: Heuristic,
    start: (i32, i32),
    goal: (i32, i32),
    n: nat,
)
    requires
        grid.in_bounds(start),
        grid.in_bounds(goal),
        is_last_round(grid, heuristic, start, goal, n),
    ensures
        shortest_path(grid, heuristic, start, goal) == outcome(
            after(grid, heuristic, start, goal, n),
            goal,
        ),
{
    let m = choose|m: nat| is_last_round(grid, heuristic, start, goal, m);
    if m < n {
        assert(!finished(after(grid, heuristic, start, goal, m), goal));
    } else if n < m {
        assert(!finished(after(grid, heuristic, start, goal, n), goal));
    }
}

} // verus!
