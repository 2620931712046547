//! What routes cost, and why the route that a search finds is a cheapest
//! one where the heuristic suits the grid. A straight step costs a
//! thousand thousandths, a diagonal one a thousand times the square root
//! of two, and costs are compared exactly.

use crate::cell::GridCellType;
use crate::frontier::{lemma_lowest_upto, lowest};
use crate::grid::{GridView, Neighborhood};
use crate::heuristic::{
    estimate, euclidean, floor_sqrt, gap, is_floor_sqrt, lemma_floor_sqrt_exists,
    lemma_floor_sqrt_unique, manhattan, squared_distance, step_cost, Heuristic, STRAIGHT_COST,
};
use crate::neighbors::{edge, lemma_neighbors_are_edges, neighbors, one_step};
use crate::route::{ancestor, is_chain_length, lemma_chain_length_unique, route};
use crate::search_model::{
    advance, consistent, finished, initial, is_route, lemma_chain_to_start, lemma_pick,
    lemma_relax, lemma_relax_all, lemma_remove_entry, outcome, pick, relax, relax_all, rooted,
    scored, tidy, SearchState,
};
use crate::surd::{
    lemma_le_refl, lemma_le_total, lemma_le_trans, lemma_nonneg_parts, lemma_nonneg_whole, Surd,
};
use vstd::prelude::*;

verus! {

/// No cost at all.
pub open spec fn nothing() -> Surd {
    Surd { whole: 0, root: 0 }
}

/// What a route costs: the sum of the costs of its steps, the first of
/// which leaves `start`.
pub open spec fn route_cost(start: (i32, i32), path: Seq<(i32, i32)>) -> Surd
    decreases path.len(),
{
    if path.len() == 0 {
        nothing()
    } else {
        let before = path.drop_last();
        let from = if before.len() == 0 {
            start
        } else {
            before.last()
        };
        route_cost(start, before).plus(step_cost(from, path.last()))
    }
}

/// How many steps of a route are diagonal.
pub open spec fn diagonal_steps(start: (i32, i32), path: Seq<(i32, i32)>) -> nat
    decreases path.len(),
{
    if path.len() == 0 {
        0
    } else {
        let before = path.drop_last();
        let from = if before.len() == 0 {
            start
        } else {
            before.last()
        };
        if from.0 != path.last().0 && from.1 != path.last().1 {
            diagonal_steps(start, before) + 1
        } else {
            diagonal_steps(start, before)
        }
    }
}

/// A way of `s1` straight and `d1` diagonal steps is no longer than one
/// of `s2` straight and `d2` diagonal steps, where a diagonal step is
/// the square root of two times as long as a straight one.
pub open spec fn no_longer(s1: int, d1: int, s2: int, d2: int) -> bool {
    (Surd { whole: s1, root: d1 }).le(Surd { whole: s2, root: d2 })
}

/// No route from `start` to `goal` costs less than `path`.
pub open spec fn cheapest(
    grid: GridView,
    start: (i32, i32),
    goal: (i32, i32),
    path: Seq<(i32, i32)>,
) -> bool {
    forall|other: Seq<(i32, i32)>| #[trigger]
        is_route(grid, start, goal, other) ==> route_cost(start, path).le(
            route_cost(start, other),
        )
}

/// No route from `start` to `goal` is shorter than `path`, by the count
/// of their straight and of their diagonal steps.
pub open spec fn shortest(
    grid: GridView,
    start: (i32, i32),
    goal: (i32, i32),
    path: Seq<(i32, i32)>,
) -> bool {
    forall|other: Seq<(i32, i32)>| #[trigger]
        is_route(grid, start, goal, other) ==> no_longer(
            path.len() - diagonal_steps(start, path),
            diagonal_steps(start, path) as int,
            other.len() - diagonal_steps(start, other),
            diagonal_steps(start, other) as int,
        )
}

/// The heuristic never estimates more for a cell than the step to a
/// neighbour costs plus what it estimates for the neighbour.
pub open spec fn monotone(grid: GridView, heuristic: Heuristic, goal: (i32, i32)) -> bool {
    forall|from: (i32, i32), to: (i32, i32)| #[trigger]
        edge(grid, from, to) ==> scored(nothing(), estimate(heuristic, from, goal)).le(
            scored(step_cost(from, to), estimate(heuristic, to, goal)),
        )
}

/// The heuristic suits the grid: the straight-line distance suits every
/// grid; the distance along rows and columns suits a grid without
/// diagonal steps.
pub open spec fn suits(neighborhood: Neighborhood, heuristic: Heuristic) -> bool {
    heuristic == Heuristic::Euclidean || neighborhood == Neighborhood::Four
}

/// No open cell has a lower score than an expanded one.
pub open spec fn ordered(s: SearchState) -> bool {
    forall|x: (i32, i32), y: (i32, i32)|
        #[trigger] s.closed.contains(x) && #[trigger] s.open.contains(y) ==> s.f_score[x].le(
            s.f_score[y],
        )
}

/// The step from `from` to `to` has been taken into account: `to` costs
/// no more than `from` and the step together.
pub open spec fn relaxed(s: SearchState, from: (i32, i32), to: (i32, i32)) -> bool {
    s.g_score.contains_key(to) && s.g_score[to].le(s.g_score[from].plus(step_cost(from, to)))
}

/// Between two rounds of a search with a monotone heuristic: no open cell
/// has a lower score than an expanded one, and every step from an
/// expanded cell has been taken into account.
pub open spec fn settled(grid: GridView, s: SearchState) -> bool {
    &&& ordered(s)
    &&& forall|from: (i32, i32), to: (i32, i32)|
        s.closed.contains(from) && #[trigger] edge(grid, from, to) ==> relaxed(s, from, to)
}

/// While `current` is expanded and the steps to the first `n` cells of
/// `found` have been looked at: `current` has the highest score of the
/// expanded cells, and the steps from it that were looked at have been
/// taken into account, as have all steps from the other expanded cells.
pub open spec fn settling(
    grid: GridView,
    s: SearchState,
    current: (i32, i32),
    found: Seq<(i32, i32)>,
    n: nat,
) -> bool {
    &&& ordered(s)
    &&& forall|x: (i32, i32)| #[trigger]
        s.closed.contains(x) ==> s.f_score[x].le(s.f_score[current])
    &&& forall|from: (i32, i32), to: (i32, i32)|
        s.closed.contains(from) && from != current && #[trigger] edge(grid, from, to) ==> relaxed(
            s,
            from,
            to,
        )
    &&& forall|j: int| 0 <= j < n ==> relaxed(s, current, #[trigger] found[j])
}

/// The cost of a route is a thousand for each of its straight steps and
/// a thousand times the square root of two for each of its diagonal
/// steps.
pub proof fn lemma_route_cost_counts(start: (i32, i32), path: Seq<(i32, i32)>)
    ensures
        diagonal_steps(start, path) <= path.len(),
        route_cost(start, path) == (Surd {
            whole: STRAIGHT_COST * (path.len() - diagonal_steps(start, path)),
            root: STRAIGHT_COST * diagonal_steps(start, path),
        }),
    decreases path.len(),
{
    if path.len() > 0 {
        lemma_route_cost_counts(start, path.drop_last());
    }
}

/// Whether one number is no greater than another does not change when
/// both are taken a thousand times.
pub proof fn lemma_scale(x: Surd, y: Surd)
    ensures
        (Surd { whole: STRAIGHT_COST * x.whole, root: STRAIGHT_COST * x.root }).le(
            Surd { whole: STRAIGHT_COST * y.whole, root: STRAIGHT_COST * y.root },
        ) == x.le(y),
{
    reveal(Surd::nonneg);
    let a = y.whole - x.whole;
    let b = y.root - x.root;
    assert(STRAIGHT_COST == 1000);
    assert((1000 * a) * (1000 * a) == 1_000_000 * (a * a)) by (nonlinear_arith);
    assert((1000 * b) * (1000 * b) == 1_000_000 * (b * b)) by (nonlinear_arith);
}

/// A cheapest route is a shortest one: it is cheapest by the count of
/// its steps, a diagonal step counted as the square root of two straight
/// ones.
pub proof fn lemma_cheapest_is_shortest(
    grid: GridView,
    start: (i32, i32),
    goal: (i32, i32),
    path: Seq<(i32, i32)>,
)
    requires
        cheapest(grid, start, goal, path),
    ensures
        shortest(grid, start, goal, path),
{
    assert forall|other: Seq<(i32, i32)>| #[trigger]
        is_route(grid, start, goal, other) implies no_longer(
        path.len() - diagonal_steps(start, path),
        diagonal_steps(start, path) as int,
        other.len() - diagonal_steps(start, other),
        diagonal_steps(start, other) as int,
    ) by {
        lemma_route_cost_counts(start, path);
        lemma_route_cost_counts(start, other);
        lemma_scale(
            Surd {
                whole: path.len() - diagonal_steps(start, path),
                root: diagonal_steps(start, path) as int,
            },
            Surd {
                whole: other.len() - diagonal_steps(start, other),
                root: diagonal_steps(start, other) as int,
            },
        );
    }
}

/// The distance along rows and columns is monotone where no step is
/// diagonal.
pub proof fn lemma_manhattan_monotone(grid: GridView, goal: (i32, i32))
    requires
        grid.neighborhood == Neighborhood::Four,
    ensures
        monotone(grid, Heuristic::Manhattan, goal),
{
    reveal(Surd::nonneg);
    reveal(estimate);
    assert forall|from: (i32, i32), to: (i32, i32)| #[trigger] edge(grid, from, to) implies scored(
        nothing(),
        estimate(Heuristic::Manhattan, from, goal),
    ).le(scored(step_cost(from, to), estimate(Heuristic::Manhattan, to, goal))) by {
        assert(one_step(Neighborhood::Four, from, to));
    }
}

/// Squares grow with their roots.
proof fn lemma_square_grows(a: nat, b: nat)
    requires
        0 <= a <= b,
    ensures
        a * a <= b * b,
{
    assert(a * a <= b * b) by (nonlinear_arith)
        requires
            0 <= a <= b,
    ;
}

/// One straight step towards a cell shortens the straight-line distance
/// to it by no more than the step costs. `near` and `far` are the gaps
/// along the axis of the step after and before it, `side` is the gap
/// along the other axis.
proof fn lemma_straight_step_bound(near: nat, far: nat, side: nat, root_near: nat, root_far: nat)
    requires
        far <= near + 1,
        is_floor_sqrt(1_000_000 * (near * near + side * side), root_near),
        is_floor_sqrt(1_000_000 * (far * far + side * side), root_far),
    ensures
        root_far <= 1000 + root_near,
{
    if root_far > 1000 + root_near {
        let u = root_near + 1;
        let low = 1_000_000 * (near * near + side * side);
        let high = 1_000_000 * (far * far + side * side);
        lemma_square_grows(1000 + u, root_far);
        assert((1000 + u) * (1000 + u) == 1_000_000 + 2000 * u + u * u) by (nonlinear_arith);
        lemma_square_grows(far, near + 1);
        assert((near + 1) * (near + 1) == near * near + 2 * near + 1) by (nonlinear_arith);
        assert(high <= low + 1_000_000 * (2 * near + 1)) by (nonlinear_arith)
            requires
                high == 1_000_000 * (far * far + side * side),
                low == 1_000_000 * (near * near + side * side),
                far * far <= near * near + 2 * near + 1,
        ;
        assert(u * u > low);
        assert(u < 1000 * near);
        lemma_square_grows(u, 1000 * near);
        assert((1000 * near) * (1000 * near) <= low) by (nonlinear_arith)
            requires
                low == 1_000_000 * (near * near + side * side),
        ;
        assert(false);
    }
}

/// One diagonal step towards a cell shortens the rounded straight-line
/// distance to it by no more than 1415 thousandths.
proof fn lemma_diagonal_step_bound(
    near_a: nat,
    far_a: nat,
    near_b: nat,
    far_b: nat,
    root_near: nat,
    root_far: nat,
)
    requires
        far_a <= near_a + 1,
        far_b <= near_b + 1,
        is_floor_sqrt(1_000_000 * (near_a * near_a + near_b * near_b), root_near),
        is_floor_sqrt(1_000_000 * (far_a * far_a + far_b * far_b), root_far),
    ensures
        root_far <= 1415 + root_near,
{
    if root_far > 1415 + root_near {
        let u = root_near + 1;
        let low = 1_000_000 * (near_a * near_a + near_b * near_b);
        let high = 1_000_000 * (far_a * far_a + far_b * far_b);
        let sum = near_a + near_b;
        lemma_square_grows(1415 + u, root_far);
        assert((1415 + u) * (1415 + u) == 2_002_225 + 2830 * u + u * u) by (nonlinear_arith);
        lemma_square_grows(far_a, near_a + 1);
        lemma_square_grows(far_b, near_b + 1);
        assert((near_a + 1) * (near_a + 1) == near_a * near_a + 2 * near_a + 1)
            by (nonlinear_arith);
        assert((near_b + 1) * (near_b + 1) == near_b * near_b + 2 * near_b + 1)
            by (nonlinear_arith);
        assert(high <= low + 1_000_000 * (2 * sum + 2)) by (nonlinear_arith)
            requires
                high == 1_000_000 * (far_a * far_a + far_b * far_b),
                low == 1_000_000 * (near_a * near_a + near_b * near_b),
                far_a * far_a <= near_a * near_a + 2 * near_a + 1,
                far_b * far_b <= near_b * near_b + 2 * near_b + 1,
                sum == near_a + near_b,
        ;
        assert(u * u > low);
        assert(1415 * u < 1_000_000 * sum);
        lemma_square_grows(1415 * u, 1_000_000 * sum);
        assert(sum * sum <= 2 * (near_a * near_a + near_b * near_b)) by (nonlinear_arith)
            requires
                sum == near_a + near_b,
        ;
        assert((1_000_000 * sum) * (1_000_000 * sum) <= 2_000_000 * low) by (nonlinear_arith)
            requires
                sum * sum <= 2 * (near_a * near_a + near_b * near_b),
                low == 1_000_000 * (near_a * near_a + near_b * near_b),
        ;
        assert((1415 * u) * (1415 * u) == 2_002_225 * (u * u)) by (nonlinear_arith);
        assert(2_002_225 * (u * u) > 2_000_000 * low) by (nonlinear_arith)
            requires
                u * u > low,
                low >= 0,
        ;
        assert(false);
    }
}

/// The straight-line distance, shortened by a thousandth, is monotone on
/// every grid: over a straight step it falls by a thousand at most, over
/// a diagonal step by 1414 at most, which is less than a thousand times
/// the square root of two.
pub proof fn lemma_euclidean_monotone(grid: GridView, goal: (i32, i32))
    ensures
        monotone(grid, Heuristic::Euclidean, goal),
{
    reveal(Surd::nonneg);
    reveal(estimate);
    assert forall|from: (i32, i32), to: (i32, i32)| #[trigger] edge(grid, from, to) implies scored(
        nothing(),
        estimate(Heuristic::Euclidean, from, goal),
    ).le(scored(step_cost(from, to), estimate(Heuristic::Euclidean, to, goal))) by {
        let far_a = gap(from.0 as int, goal.0 as int);
        let far_b = gap(from.1 as int, goal.1 as int);
        let near_a = gap(to.0 as int, goal.0 as int);
        let near_b = gap(to.1 as int, goal.1 as int);
        let scale = STRAIGHT_COST as nat * STRAIGHT_COST as nat;
        assert(scale == 1_000_000) by (nonlinear_arith)
            requires
                scale == 1000 * 1000,
        ;
        let low = scale * squared_distance(to, goal);
        let high = scale * squared_distance(from, goal);
        lemma_floor_sqrt_exists(low);
        lemma_floor_sqrt_exists(high);
        assert(far_a <= near_a + 1);
        assert(far_b <= near_b + 1);
        let near = euclidean(to, goal);
        let far = euclidean(from, goal);
        if from.0 != to.0 && from.1 != to.1 {
            lemma_diagonal_step_bound(near_a, far_a, near_b, far_b, near, far);
            let fall = far * 999 / 1000 - near * 999 / 1000;
            assert(fall <= 1414);
            if fall > 0 {
                assert((-fall) * (-fall) <= 1414 * 1414) by (nonlinear_arith)
                    requires
                        0 < fall <= 1414,
                ;
                assert(2 * (1000 * 1000) >= 1414 * 1414) by (nonlinear_arith);
            }
        } else if from.0 != to.0 {
            assert(far_b == near_b);
            lemma_straight_step_bound(near_a, far_a, near_b, near, far);
        } else {
            assert(far_a == near_a);
            assert(near_b * near_b + near_a * near_a == near_a * near_a + near_b * near_b);
            assert(far_b * far_b + near_a * near_a == far_a * far_a + far_b * far_b);
            lemma_straight_step_bound(near_b, far_b, near_a, near, far);
        }
    }
}

/// Both heuristics estimate nothing for the way from a cell to itself.
pub proof fn lemma_estimate_at_goal(heuristic: Heuristic, goal: (i32, i32))
    ensures
        estimate(heuristic, goal, goal) == 0,
{
    reveal(estimate);
    assert(squared_distance(goal, goal) == 0) by (nonlinear_arith)
        requires
            squared_distance(goal, goal) == gap(goal.0 as int, goal.0 as int) * gap(
                goal.0 as int,
                goal.0 as int,
            ) + gap(goal.1 as int, goal.1 as int) * gap(goal.1 as int, goal.1 as int),
            gap(goal.0 as int, goal.0 as int) == 0,
            gap(goal.1 as int, goal.1 as int) == 0,
    ;
    assert(STRAIGHT_COST as nat * STRAIGHT_COST as nat * 0 == 0) by (nonlinear_arith);
    assert(0nat * 0nat == 0 && (0nat + 1) * (0nat + 1) == 1) by (nonlinear_arith);
    assert(is_floor_sqrt(0, 0));
    lemma_floor_sqrt_exists(0);
    lemma_floor_sqrt_unique(0, 0, floor_sqrt(0));
}

/// A heuristic that suits a grid is monotone on it, and estimates
/// nothing for the way from the goal to itself.
pub proof fn lemma_suitable_heuristic(grid: GridView, heuristic: Heuristic, goal: (i32, i32))
    requires
        suits(grid.neighborhood, heuristic),
    ensures
        monotone(grid, heuristic, goal),
        estimate(heuristic, goal, goal) == 0,
{
    match heuristic {
        Heuristic::Manhattan => {
            lemma_manhattan_monotone(grid, goal);
        },
        Heuristic::Euclidean => {
            lemma_euclidean_monotone(grid, goal);
        },
    }
    lemma_estimate_at_goal(heuristic, goal);
}

/// A search begins settled.
pub proof fn lemma_initial_settled(
    grid: GridView,
    heuristic: Heuristic,
    start: (i32, i32),
    goal: (i32, i32),
)
    ensures
        settled(grid, initial(heuristic, start, goal)),
{
}

/// Taking the open cell with the lowest score out to expand it leaves it
/// with the highest score of the expanded cells.
proof fn lemma_pick_settling(
    grid: GridView,
    heuristic: Heuristic,
    start: (i32, i32),
    goal: (i32, i32),
    s: SearchState,
)
    requires
        consistent(grid, heuristic, start, goal, s),
        settled(grid, s),
        !finished(s, goal),
    ensures
        settling(
            grid,
            pick(s, lowest(s.open, s.f_score)),
            s.open[lowest(s.open, s.f_score)],
            neighbors(grid, s.open[lowest(s.open, s.f_score)]),
            0,
        ),
{
    let i = lowest(s.open, s.f_score);
    let current = s.open[i];
    let p = pick(s, i);
    lemma_lowest_upto(s.open, s.f_score, s.open.len());
    lemma_remove_entry(s.open, i);
    assert(s.open.contains(current));
    assert forall|y: (i32, i32)| s.open.contains(y) implies s.f_score[current].le(s.f_score[y]) by {
        let k = choose|k: int| 0 <= k < s.open.len() && s.open[k] == y;
        assert(s.f_score[s.open[i]].le(s.f_score[s.open[k]]));
    }
    assert forall|x: (i32, i32), y: (i32, i32)|
        #[trigger] p.closed.contains(x) && #[trigger] p.open.contains(y) implies p.f_score[x].le(
        p.f_score[y],
    ) by {
        assert(s.open.contains(y));
        if x != current {
            assert(s.closed.contains(x));
        }
    }
    assert forall|x: (i32, i32)| #[trigger] p.closed.contains(x) implies p.f_score[x].le(
        p.f_score[current],
    ) by {
        if x != current {
            assert(s.closed.contains(x));
        } else {
            lemma_le_refl(p.f_score[current]);
        }
    }
    assert forall|from: (i32, i32), to: (i32, i32)|
        p.closed.contains(from) && from != current && #[trigger] edge(grid, from, to) implies relaxed(
        p,
        from,
        to,
    ) by {
        assert(s.closed.contains(from));
        assert(relaxed(s, from, to));
    }
}

/// Looking at the next step from the cell that is expanded takes that
/// step into account and undoes nothing.
proof fn lemma_relax_settling(
    grid: GridView,
    heuristic: Heuristic,
    start: (i32, i32),
    goal: (i32, i32),
    s: SearchState,
    current: (i32, i32),
    found: Seq<(i32, i32)>,
    n: nat,
)
    requires
        monotone(grid, heuristic, goal),
        tidy(heuristic, goal, s),
        rooted(grid, start, s),
        s.closed.contains(current),
        s.g_score[current].whole + s.g_score[current].root + STRAIGHT_COST <= STRAIGHT_COST
            * s.closed.len(),
        n < found.len(),
        edge(grid, current, found[n as int]),
        settling(grid, s, current, found, n),
    ensures
        settling(grid, relax(heuristic, goal, s, current, found[n as int]), current, found, n + 1),
{
    let to = found[n as int];
    let r = relax(heuristic, goal, s, current, to);
    lemma_relax(grid, heuristic, start, goal, s, current, to);
    let tentative = s.g_score[current].plus(step_cost(current, to));
    let here = estimate(heuristic, current, goal);
    let there = estimate(heuristic, to, goal);
    assert(s.g_score.contains_key(current));
    assert(s.f_score[current] == scored(s.g_score[current], here));
    // What the step adds to the score of `current` is not negative.
    assert(scored(nothing(), here).le(scored(step_cost(current, to), there)));
    assert(scored(step_cost(current, to), there).minus(scored(nothing(), here)) == scored(
        tentative,
        there,
    ).minus(s.f_score[current]));
    assert(s.f_score[current].le(scored(tentative, there)));
    if s.closed.contains(to) {
        assert(r == s);
        assert(s.g_score.contains_key(to));
        assert(s.f_score[to] == scored(s.g_score[to], there));
        assert(s.f_score[to].le(s.f_score[current]));
        lemma_le_trans(s.f_score[to], s.f_score[current], scored(tentative, there));
        assert(scored(tentative, there).minus(s.f_score[to]) == tentative.minus(s.g_score[to]));
        assert(relaxed(r, current, to));
    } else if s.g_score.contains_key(to) && s.g_score[to].le(tentative) {
        assert(r == s);
        assert(relaxed(r, current, to));
    } else {
        assert(to != current);
        assert(r.g_score[to] == tentative);
        assert(r.f_score[to] == scored(tentative, there));
        lemma_le_refl(tentative);
        assert forall|at: (i32, i32)| s.g_score.contains_key(at) implies r.g_score.contains_key(at)
            && r.g_score[at].le(s.g_score[at]) by {
            if at == to {
                lemma_le_total(s.g_score[to], tentative);
            } else {
                assert(r.g_score[at] == s.g_score[at]);
                lemma_le_refl(s.g_score[at]);
            }
        }
        assert forall|at: (i32, i32)| s.closed.contains(at) implies r.g_score[at] == s.g_score[at]
            && r.f_score[at] == s.f_score[at] by {
            assert(at != to);
        }
        assert forall|y: (i32, i32)| r.open.contains(y) implies y == to || s.open.contains(y) by {
            if !s.g_score.contains_key(to) {
                let k = choose|k: int| 0 <= k < r.open.len() && r.open[k] == y;
                if k < s.open.len() {
                    assert(s.open[k] == y);
                }
            }
        }
        assert forall|x: (i32, i32), y: (i32, i32)|
            #[trigger] r.closed.contains(x) && #[trigger] r.open.contains(y) implies r.f_score[x].le(
            r.f_score[y],
        ) by {
            assert(s.closed.contains(x));
            assert(s.f_score[x].le(s.f_score[current]));
            if y != to {
                assert(s.open.contains(y));
            } else {
                lemma_le_trans(s.f_score[x], s.f_score[current], scored(tentative, there));
            }
        }
        assert forall|from: (i32, i32), other: (i32, i32)|
            r.closed.contains(from) && from != current && #[trigger] edge(
                grid,
                from,
                other,
            ) implies relaxed(r, from, other) by {
            assert(relaxed(s, from, other));
            assert(r.g_score[other].le(s.g_score[other]));
            lemma_le_trans(
                r.g_score[other],
                s.g_score[other],
                s.g_score[from].plus(step_cost(from, other)),
            );
        }
        assert forall|j: int| 0 <= j < n + 1 implies relaxed(r, current, #[trigger] found[j]) by {
            if j < n {
                assert(relaxed(s, current, found[j]));
                assert(r.g_score[found[j]].le(s.g_score[found[j]]));
                lemma_le_trans(
                    r.g_score[found[j]],
                    s.g_score[found[j]],
                    s.g_score[current].plus(step_cost(current, found[j])),
                );
            }
        }
    }
}

/// Looking at the steps from the cell that is expanded to the first `n`
/// of its neighbours takes those steps into account.
proof fn lemma_relax_all_settling(
    grid: GridView,
    heuristic: Heuristic,
    start: (i32, i32),
    goal: (i32, i32),
    s: SearchState,
    current: (i32, i32),
    found: Seq<(i32, i32)>,
    n: nat,
)
    requires
        monotone(grid, heuristic, goal),
        tidy(heuristic, goal, s),
        rooted(grid, start, s),
        s.closed.contains(current),
        s.g_score[current].whole + s.g_score[current].root + STRAIGHT_COST <= STRAIGHT_COST
            * s.closed.len(),
        n <= found.len(),
        forall|j: int| 0 <= j < found.len() ==> edge(grid, current, #[trigger] found[j]),
        settling(grid, s, current, found, 0),
    ensures
        settling(grid, relax_all(heuristic, goal, s, current, found, n), current, found, n),
    decreases n,
{
    if n > 0 {
        let before = relax_all(heuristic, goal, s, current, found, (n - 1) as nat);
        lemma_relax_all_settling(grid, heuristic, start, goal, s, current, found, (n - 1) as nat);
        lemma_relax_all(grid, heuristic, start, goal, s, current, found, (n - 1) as nat);
        lemma_relax_settling(grid, heuristic, start, goal, before, current, found, (n - 1) as nat);
    }
}

/// With a monotone heuristic, a round of a search that is not over leads
/// from a settled state to a settled state.
pub proof fn lemma_advance_settled(
    grid: GridView,
    heuristic: Heuristic,
    start: (i32, i32),
    goal: (i32, i32),
    s: SearchState,
)
    requires
        grid.wf(),
        monotone(grid, heuristic, goal),
        consistent(grid, heuristic, start, goal, s),
        settled(grid, s),
        !finished(s, goal),
    ensures
        settled(grid, advance(grid, heuristic, goal, s)),
{
    let i = lowest(s.open, s.f_score);
    lemma_lowest_upto(s.open, s.f_score, s.open.len());
    let current = s.open[i];
    let found = neighbors(grid, current);
    let p = pick(s, i);
    let next = advance(grid, heuristic, goal, s);
    lemma_pick(grid, heuristic, start, goal, s, i);
    lemma_pick_settling(grid, heuristic, start, goal, s);
    lemma_neighbors_are_edges(grid, current);
    assert forall|j: int| 0 <= j < found.len() implies edge(grid, current, #[trigger] found[j]) by {
        assert(found.contains(found[j]));
    }
    lemma_relax_all_settling(grid, heuristic, start, goal, p, current, found, found.len());
    assert forall|from: (i32, i32), to: (i32, i32)|
        next.closed.contains(from) && #[trigger] edge(grid, from, to) implies relaxed(
        next,
        from,
        to,
    ) by {
        if from == current {
            assert(found.contains(to));
            let j = choose|j: int| 0 <= j < found.len() && found[j] == to;
            assert(relaxed(next, current, found[j]));
        }
    }
}

/// The cost of the first `i` steps of a route bounds from above the cost
/// that a settled search knows for the cell they lead to; or else, with
/// the estimate for that cell added, the score of some open cell.
proof fn lemma_bound_along(
    grid: GridView,
    heuristic: Heuristic,
    start: (i32, i32),
    goal: (i32, i32),
    s: SearchState,
    to: (i32, i32),
    other: Seq<(i32, i32)>,
    i: nat,
)
    requires
        monotone(grid, heuristic, goal),
        consistent(grid, heuristic, start, goal, s),
        settled(grid, s),
        is_route(grid, start, to, other),
        i <= other.len(),
    ensures
        ({
            let at = if i == 0 {
                start
            } else {
                other[i - 1]
            };
            let spent = route_cost(start, other.take(i as int));
            ||| s.g_score.contains_key(at) && s.g_score[at].le(spent)
            ||| exists|y: (i32, i32)|
                s.open.contains(y) && s.f_score[y].le(
                    scored(spent, estimate(heuristic, at, goal)),
                )
        }),
    decreases i,
{
    if i == 0 {
        assert(other.take(0).len() == 0);
        lemma_le_refl(nothing());
    } else {
        let before = if i == 1 {
            start
        } else {
            other[i - 2]
        };
        let at = other[i - 1];
        let prefix = other.take(i as int);
        let shorter = other.take(i - 1);
        assert(prefix.drop_last() =~= shorter);
        assert(prefix.last() == at);
        if i > 1 {
            assert(shorter.last() == before);
            assert(edge(grid, other[i - 2], other[i - 2 + 1]));
        }
        assert(edge(grid, before, at));
        let spent = route_cost(start, shorter);
        let step = step_cost(before, at);
        let here = estimate(heuristic, before, goal);
        let there = estimate(heuristic, at, goal);
        assert(route_cost(start, prefix) == spent.plus(step));
        lemma_bound_along(grid, heuristic, start, goal, s, to, other, (i - 1) as nat);
        // The estimate falls over the step by no more than the step costs.
        assert(scored(nothing(), here).le(scored(step, there)));
        assert(scored(step, there).minus(scored(nothing(), here)) == scored(
            spent.plus(step),
            there,
        ).minus(scored(spent, here)));
        assert(scored(spent, here).le(scored(spent.plus(step), there)));
        if s.g_score.contains_key(before) && s.g_score[before].le(spent) {
            if s.closed.contains(before) {
                assert(relaxed(s, before, at));
                assert(spent.plus(step).minus(s.g_score[before].plus(step)) == spent.minus(
                    s.g_score[before],
                ));
                lemma_le_trans(s.g_score[at], s.g_score[before].plus(step), spent.plus(step));
            } else {
                assert(s.open.contains(before));
                assert(s.f_score[before] == scored(s.g_score[before], here));
                assert(scored(spent, here).minus(s.f_score[before]) == spent.minus(
                    s.g_score[before],
                ));
                lemma_le_trans(
                    s.f_score[before],
                    scored(spent, here),
                    scored(spent.plus(step), there),
                );
            }
        } else {
            let y = choose|y: (i32, i32)|
                s.open.contains(y) && s.f_score[y].le(scored(spent, here));
            lemma_le_trans(s.f_score[y], scored(spent, here), scored(spent.plus(step), there));
        }
    }
}

/// The route that the predecessors describe costs what the search knows
/// as the cost of the cell it leads to.
proof fn lemma_route_cost_upto(
    grid: GridView,
    start: (i32, i32),
    s: SearchState,
    at: (i32, i32),
    n: nat,
    i: nat,
)
    requires
        rooted(grid, start, s),
        s.g_score.contains_key(at),
        is_chain_length(s.came_from, at, n),
        ancestor(s.came_from, at, n) == start,
        i <= n,
    ensures
        s.g_score.contains_key(ancestor(s.came_from, at, (n - i) as nat)),
        route_cost(start, route(s.came_from, at).take(i as int)) == s.g_score[ancestor(
            s.came_from,
            at,
            (n - i) as nat,
        )],
    decreases i,
{
    lemma_chain_length_unique(s.came_from, at, n);
    let path = route(s.came_from, at);
    if i == 0 {
        assert(path.take(0).len() == 0);
    } else {
        lemma_route_cost_upto(grid, start, s, at, n, (i - 1) as nat);
        let prefix = path.take(i as int);
        let shorter = path.take(i - 1);
        assert(prefix.drop_last() =~= shorter);
        let here = ancestor(s.came_from, at, (n - i) as nat);
        let before = ancestor(s.came_from, at, (n - i + 1) as nat);
        assert(prefix.last() == here);
        assert(s.came_from.contains_key(here));
        assert(before == s.came_from[here]) by {
            reveal_with_fuel(ancestor, 2);
        }
        if i > 1 {
            assert(shorter.last() == before);
        }
        assert(route_cost(start, prefix) == route_cost(start, shorter).plus(
            step_cost(before, here),
        ));
    }
}

/// A route that begins with the step to `next` costs that step and what
/// the rest of it costs from `next`.
pub proof fn lemma_route_cost_prepend(start: (i32, i32), next: (i32, i32), rest: Seq<(i32, i32)>)
    ensures
        route_cost(start, seq![next] + rest) == step_cost(start, next).plus(
            route_cost(next, rest),
        ),
    decreases rest.len(),
{
    let whole = seq![next] + rest;
    if rest.len() == 0 {
        assert(whole.drop_last().len() == 0);
        assert(route_cost(start, whole.drop_last()) == nothing());
        assert(whole.last() == next);
    } else {
        let shorter = rest.drop_last();
        assert(whole.drop_last() =~= seq![next] + shorter);
        assert(whole.last() == rest.last());
        lemma_route_cost_prepend(start, next, shorter);
        if shorter.len() == 0 {
            assert(whole.drop_last().last() == next);
        } else {
            assert(whole.drop_last().last() == shorter.last());
        }
    }
}

/// A step to a cell from which a route leads to the goal begins a route
/// to the goal.
pub proof fn lemma_route_prepend(
    grid: GridView,
    start: (i32, i32),
    next: (i32, i32),
    goal: (i32, i32),
    rest: Seq<(i32, i32)>,
)
    requires
        edge(grid, start, next),
        is_route(grid, next, goal, rest),
    ensures
        is_route(grid, start, goal, seq![next] + rest),
{
    let whole = seq![next] + rest;
    assert forall|i: int| 0 <= i < whole.len() - 1 implies edge(
        grid,
        #[trigger] whole[i],
        whole[i + 1],
    ) by {
        if i > 0 {
            assert(edge(grid, rest[i - 1], rest[i - 1 + 1]));
        }
    }
}

/// With a monotone heuristic, no route costs less than the heuristic
/// estimates for the way from its start to its goal, less what it
/// estimates for the goal itself.
pub proof fn lemma_estimate_bounds_cost(
    grid: GridView,
    heuristic: Heuristic,
    start: (i32, i32),
    goal: (i32, i32),
    path: Seq<(i32, i32)>,
    i: nat,
)
    requires
        monotone(grid, heuristic, goal),
        is_route(grid, start, goal, path),
        0 < i <= path.len(),
    ensures
        scored(nothing(), estimate(heuristic, start, goal)).le(
            scored(route_cost(start, path.take(i as int)), estimate(heuristic, path[i - 1], goal)),
        ),
    decreases i,
{
    let prefix = path.take(i as int);
    let shorter = path.take(i - 1);
    assert(prefix.drop_last() =~= shorter);
    assert(prefix.last() == path[i - 1]);
    let there = estimate(heuristic, path[i - 1], goal);
    if i == 1 {
        assert(route_cost(start, shorter) == nothing());
        assert(edge(grid, start, path[0]));
        assert(route_cost(start, prefix) == step_cost(start, path[0]));
    } else {
        lemma_estimate_bounds_cost(grid, heuristic, start, goal, path, (i - 1) as nat);
        assert(shorter.last() == path[i - 2]);
        assert(edge(grid, path[i - 2], path[i - 2 + 1]));
        let spent = route_cost(start, shorter);
        let step = step_cost(path[i - 2], path[i - 1]);
        let here = estimate(heuristic, path[i - 2], goal);
        assert(scored(nothing(), here).le(scored(step, there)));
        assert(scored(step, there).minus(scored(nothing(), here)) == scored(
            spent.plus(step),
            there,
        ).minus(scored(spent, here)));
        lemma_le_trans(
            scored(nothing(), estimate(heuristic, start, goal)),
            scored(spent, here),
            scored(spent.plus(step), there),
        );
    }
}

/// No cell of the grid holds a wall.
pub open spec fn without_walls(grid: GridView) -> bool {
    forall|at: (i32, i32)| grid.in_bounds(at) ==> #[trigger] grid.cells[at] != GridCellType::Wall
}

/// The cell next to `at` on the way to `goal` that goes along the column
/// first and along the row after.
pub open spec fn straight_toward(at: (i32, i32), goal: (i32, i32)) -> (i32, i32) {
    if at.0 < goal.0 {
        ((at.0 + 1) as i32, at.1)
    } else if at.0 > goal.0 {
        ((at.0 - 1) as i32, at.1)
    } else if at.1 < goal.1 {
        (at.0, (at.1 + 1) as i32)
    } else {
        (at.0, (at.1 - 1) as i32)
    }
}

/// On a grid without walls a route of straight steps leads from every
/// cell to every other, and costs what the heuristic of rows and columns
/// says.
pub proof fn lemma_straight_route(grid: GridView, at: (i32, i32), goal: (i32, i32)) -> (path: Seq<
    (i32, i32),
>)
    requires
        grid.wf(),
        without_walls(grid),
        grid.in_bounds(at),
        grid.in_bounds(goal),
        at != goal,
    ensures
        is_route(grid, at, goal, path),
        route_cost(at, path) == (Surd { whole: manhattan(at, goal) as int, root: 0 }),
    decreases manhattan(at, goal),
{
    let next = straight_toward(at, goal);
    assert(grid.in_bounds(next));
    assert(grid.cells[next] != GridCellType::Wall);
    assert(edge(grid, at, next));
    assert(manhattan(at, goal) == STRAIGHT_COST + manhattan(next, goal));
    if next == goal {
        let path = seq![goal];
        assert(path.drop_last().len() == 0);
        assert(route_cost(at, path.drop_last()) == nothing());
        assert(path.last() == goal);
        path
    } else {
        let rest = lemma_straight_route(grid, next, goal);
        lemma_route_prepend(grid, at, next, goal, rest);
        lemma_route_cost_prepend(at, next, rest);
        seq![next] + rest
    }
}

/// A route on a grid without diagonal steps has no diagonal step.
pub proof fn lemma_no_diagonal_steps(
    grid: GridView,
    start: (i32, i32),
    goal: (i32, i32),
    path: Seq<(i32, i32)>,
    i: nat,
)
    requires
        grid.neighborhood == Neighborhood::Four,
        is_route(grid, start, goal, path),
        i <= path.len(),
    ensures
        diagonal_steps(start, path.take(i as int)) == 0,
    decreases i,
{
    let prefix = path.take(i as int);
    if i == 0 {
        assert(prefix.len() == 0);
    } else {
        let shorter = path.take(i - 1);
        assert(prefix.drop_last() =~= shorter);
        assert(prefix.last() == path[i - 1]);
        lemma_no_diagonal_steps(grid, start, goal, path, (i - 1) as nat);
        if i == 1 {
            assert(edge(grid, start, path[0]));
        } else {
            assert(shorter.last() == path[i - 2]);
            assert(edge(grid, path[i - 2], path[i - 2 + 1]));
        }
    }
}

/// On a grid without walls and without diagonal steps, a cheapest route
/// between two different cells costs what the heuristic of rows and
/// columns says, and names as many cells as rows and columns lie between
/// the two.
pub proof fn lemma_open_grid_distance(
    grid: GridView,
    start: (i32, i32),
    goal: (i32, i32),
    path: Seq<(i32, i32)>,
)
    requires
        grid.wf(),
        grid.neighborhood == Neighborhood::Four,
        without_walls(grid),
        grid.in_bounds(start),
        start != goal,
        is_route(grid, start, goal, path),
        cheapest(grid, start, goal, path),
    ensures
        route_cost(start, path) == (Surd { whole: manhattan(start, goal) as int, root: 0 }),
        path.len() == gap(start.0 as int, goal.0 as int) + gap(start.1 as int, goal.1 as int),
{
    assert(path.take(path.len() as int) =~= path);
    lemma_no_diagonal_steps(grid, start, goal, path, path.len());
    lemma_route_cost_counts(start, path);
    lemma_manhattan_monotone(grid, goal);
    lemma_estimate_bounds_cost(grid, Heuristic::Manhattan, start, goal, path, path.len());
    lemma_estimate_at_goal(Heuristic::Manhattan, goal);
    assert(grid.in_bounds(goal)) by {
        assert(edge(grid, if path.len() == 1 {
            start
        } else {
            path[path.len() - 2]
        }, goal)) by {
            if path.len() > 1 {
                assert(edge(grid, path[path.len() - 2], path[path.len() - 2 + 1]));
            }
        }
    }
    let straight = lemma_straight_route(grid, start, goal);
    assert(is_route(grid, start, goal, straight));
    assert(route_cost(start, path).le(route_cost(start, straight)));
    lemma_nonneg_whole(route_cost(start, straight).minus(route_cost(start, path)));
    lemma_nonneg_whole(
        scored(route_cost(start, path), estimate(Heuristic::Manhattan, goal, goal)).minus(
            scored(nothing(), estimate(Heuristic::Manhattan, start, goal)),
        ),
    );
    reveal(estimate);
    assert(STRAIGHT_COST == 1000);
    assert(1000 * path.len() == 1000 * (gap(start.0 as int, goal.0 as int) + gap(
        start.1 as int,
        goal.1 as int,
    )));
}

/// With a monotone heuristic, the route that a settled search has found
/// when it is over is a cheapest one.
pub proof fn lemma_outcome_cheapest(
    grid: GridView,
    heuristic: Heuristic,
    start: (i32, i32),
    goal: (i32, i32),
    s: SearchState,
)
    requires
        monotone(grid, heuristic, goal),
        estimate(heuristic, goal, goal) == 0,
        consistent(grid, heuristic, start, goal, s),
        settled(grid, s),
        finished(s, goal),
    ensures
        cheapest(grid, start, goal, outcome(s, goal)),
{
    let found = outcome(s, goal);
    if s.open.len() == 0 {
        assert(route_cost(start, found) == nothing());
        assert forall|other: Seq<(i32, i32)>| #[trigger]
            is_route(grid, start, goal, other) implies route_cost(start, found).le(
            route_cost(start, other),
        ) by {
            lemma_route_cost_counts(start, other);
            lemma_nonneg_parts(route_cost(start, other).minus(nothing()));
        }
    } else {
        let i = lowest(s.open, s.f_score);
        lemma_lowest_upto(s.open, s.f_score, s.open.len());
        assert(s.open.contains(goal));
        assert(s.g_score.contains_key(goal));
        let n = lemma_chain_to_start(grid, start, s, goal);
        lemma_chain_length_unique(s.came_from, goal, n);
        lemma_route_cost_upto(grid, start, s, goal, n, n);
        assert(found.take(n as int) =~= found);
        assert(route_cost(start, found) == s.g_score[goal]);
        assert(s.f_score[goal] == scored(s.g_score[goal], 0));
        assert(s.f_score[goal] == s.g_score[goal]);
        assert forall|other: Seq<(i32, i32)>| #[trigger]
            is_route(grid, start, goal, other) implies route_cost(start, found).le(
            route_cost(start, other),
        ) by {
            lemma_bound_along(grid, heuristic, start, goal, s, goal, other, other.len());
            assert(other.take(other.len() as int) =~= other);
            let spent = route_cost(start, other);
            assert(scored(spent, 0) == spent);
            if s.g_score.contains_key(goal) && s.g_score[goal].le(spent) {
            } else {
                let y = choose|y: (i32, i32)|
                    s.open.contains(y) && s.f_score[y].le(
                        scored(spent, estimate(heuristic, goal, goal)),
                    );
                let k = choose|k: int| 0 <= k < s.open.len() && s.open[k] == y;
                assert(s.f_score[s.open[i]].le(s.f_score[s.open[k]]));
                lemma_le_trans(s.f_score[goal], s.f_score[y], spent);
            }
        }
    }
}

} // verus!
