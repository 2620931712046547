//! The A* search itself: the books it keeps, and the loop that carries
//! out round after round of the state machine.

use crate::coord_map::{CoordMap, CoordSet};
use crate::frontier::{is_first_minimum, lemma_first_minimum_is_lowest, lowest_position};
use crate::grid::SearchableGrid;
use crate::heuristic::{cost_of_step, Heuristic, STRAIGHT_COST};
use crate::neighbors::{edge, get_neighbors, neighbors};
use crate::optimality::{cheapest, shortest, suits};
use crate::search_laws::lemma_shortest_path;
use crate::search_model::{
    advance, after, consistent, finished, initial, is_route, lemma_advance,
    lemma_initial_consistent, lemma_last_round, lemma_outcome, lemma_pick, lemma_relax_all, pick,
    reachable, relax, relax_all, rooted, shortest_path, tidy, SearchState,
};
use crate::surd::{Score, Surd};
use vstd::prelude::*;

verus! {

/// The scores held are the scores meant.
pub open spec fn scores_match(held: Map<(i32, i32), Score>, meant: Map<(i32, i32), Surd>) -> bool {
    &&& forall|at: (i32, i32)| #[trigger] held.contains_key(at) <==> meant.contains_key(at)
    &&& forall|at: (i32, i32)| #[trigger] held.contains_key(at) ==> held[at]@ == meant[at]
}

/// The books of a search under way.
struct Search {
    open: Vec<(i32, i32)>,
    closed: CoordSet,
    g_score: CoordMap<Score>,
    f_score: CoordMap<Score>,
    came_from: CoordMap<(i32, i32)>,
}

impl Search {
    /// The books hold the state `s`.
    spec fn holds(&self, s: SearchState) -> bool {
        &&& self.open@ == s.open
        &&& self.closed@ == s.closed
        &&& self.closed.wf()
        &&& self.came_from@ == s.came_from
        &&& scores_match(self.g_score@, s.g_score)
        &&& scores_match(self.f_score@, s.f_score)
    }

    /// The books of a search that has not begun: only the start is
    /// known.
    fn begin(heuristic: Heuristic, start: (i32, i32), goal: (i32, i32)) -> (search: Search)
        ensures
            search.holds(initial(heuristic, start, goal)),
    {
        let mut open = Vec::<(i32, i32)>::new();
        open.push(start);
        let closed = CoordSet::new();
        let came_from = CoordMap::<(i32, i32)>::new();
        let mut g_score = CoordMap::<Score>::new();
        g_score.insert(start, Score { whole: 0, root: 0 });
        let mut f_score = CoordMap::<Score>::new();
        f_score.insert(start, Score { whole: heuristic.estimate(start, goal) as u128, root: 0 });
        let search = Search { open, closed, g_score, f_score, came_from };
        proof {
            let s = initial(heuristic, start, goal);
            assert(search.open@ =~= s.open);
            assert(search.came_from@ =~= s.came_from);
        }
        search
    }

    /// Looks at the step from the expanded cell `current`, which costs
    /// `g_current` to reach, to its neighbour `to`.
    fn relax(
        &mut self,
        heuristic: Heuristic,
        goal: (i32, i32),
        current: (i32, i32),
        g_current: Score,
        to: (i32, i32),
        Ghost(s): Ghost<SearchState>,
    )
        requires
            old(self).holds(s),
            s.g_score.contains_key(current),
            s.g_score[current] == g_current@,
            g_current.whole <= 0xffff_ffff_ffff_ffff_ffff,
            g_current.root <= 0xffff_ffff_ffff_ffff_ffff,
        ensures
            final(self).holds(relax(heuristic, goal, s, current, to)),
    {
        if self.closed.contains(to) {
            return ;
        }
        let step = cost_of_step(current, to);
        let tentative = Score {
            whole: g_current.whole + step.whole,
            root: g_current.root + step.root,
        };
        let known = self.g_score.get(to);
        let better = match known {
            Some(cost) => !cost.no_more_than(tentative),
            None => true,
        };
        if better {
            self.came_from.insert(to, current);
            self.g_score.insert(to, tentative);
            self.f_score.insert(
                to,
                Score {
                    whole: tentative.whole + heuristic.estimate(to, goal) as u128,
                    root: tentative.root,
                },
            );
            if known.is_none() {
                self.open.push(to);
            }
        }
    }
}

impl SearchableGrid {
    /// The route that an A* search finds from `start` to `goal`: the
    /// cells to enter one after the other, `goal` last. `start` is not
    /// part of the route.
    ///
    /// The search expands the open cell whose cost from the start plus
    /// estimated distance to the goal is lowest, the earliest found of
    /// several, and stops when the goal is that cell. A diagonal step
    /// costs the square root of two times what a straight step costs,
    /// and costs are compared exactly.
    ///
    /// No route is returned where none exists: where `start` or `goal`
    /// lies outside the grid, where walls cut one off from the other, and
    /// where the two are the same cell, which needs no step.
    ///
    /// The route is a cheapest one where the heuristic suits the grid:
    /// with the straight-line distance on every grid, with the distance
    /// along rows and columns on a grid without diagonal steps. It is a
    /// function of the grid, the two ends and the heuristic, so a search
    /// said again on an unchanged grid finds the same route.
    pub fn astar_shortest_path(
        &self,
        start: (i32, i32),
        goal: (i32, i32),
        h: Heuristic,
    ) -> (path: Vec<(i32, i32)>)
        requires
            self.wf(),
        ensures
            path@ == shortest_path(self@, h, start, goal),
            path@.len() > 0 <==> self@.in_bounds(start) && self@.in_bounds(goal) && start != goal
                && reachable(self@, start, goal),
            path@.len() > 0 ==> is_route(self@, start, goal, path@),
            !path@.contains(start),
            suits(self@.neighborhood, h) ==> cheapest(self@, start, goal, path@),
            suits(self@.neighborhood, h) ==> shortest(self@, start, goal, path@),
    {
        if !self.contains(start) || !self.contains(goal) {
            proof {
                lemma_shortest_path(self@, h, start, goal);
            }
            return Vec::new();
        }
        let mut search = Search::begin(h, start, goal);
        let ghost mut s = initial(h, start, goal);
        let ghost mut rounds: nat = 0;
        proof {
            lemma_initial_consistent(self@, h, start, goal);
        }
        loop
            invariant
                self.wf(),
                self@.in_bounds(start),
                self@.in_bounds(goal),
                search.holds(s),
                s == after(self@, h, start, goal, rounds),
                consistent(self@, h, start, goal, s),
                forall|j: nat| j < rounds ==> !finished(#[trigger] after(self@, h, start, goal, j), goal),
                s.closed.len() <= usize::MAX,
            decreases usize::MAX - s.closed.len(),
        {
            if search.open.len() == 0 {
                proof {
                    lemma_last_round(self@, h, start, goal, rounds);
                    lemma_shortest_path(self@, h, start, goal);
                }
                return Vec::new();
            }
            proof {
                assert forall|j: int| 0 <= j < search.open@.len() implies search.f_score@.contains_key(
                    #[trigger] search.open@[j],
                ) by {
                    assert(s.open.contains(s.open[j]));
                    assert(s.g_score.contains_key(s.open[j]));
                    assert(s.f_score.contains_key(s.open[j]));
                }
            }
            let i = lowest_position(&search.open, &search.f_score);
            proof {
                assert forall|j: int| 0 <= j < s.open.len() implies s.f_score[s.open[i as int]].le(
                    s.f_score[#[trigger] s.open[j]],
                ) by {
                    assert(search.f_score@.contains_key(search.open@[j]));
                    assert(search.f_score@.contains_key(search.open@[i as int]));
                }
                assert forall|j: int| 0 <= j < i implies !s.f_score[#[trigger] s.open[j]].le(
                    s.f_score[s.open[i as int]],
                ) by {
                    assert(search.f_score@.contains_key(search.open@[j]));
                    assert(search.f_score@.contains_key(search.open@[i as int]));
                }
                assert(is_first_minimum(s.open, s.f_score, s.open.len(), i as int));
                lemma_first_minimum_is_lowest(s.open, s.f_score, i as int);
            }
            let current = search.open[i];
            if current.0 == goal.0 && current.1 == goal.1 {
                proof {
                    lemma_last_round(self@, h, start, goal, rounds);
                    lemma_outcome(self@, h, start, goal, s);
                    lemma_shortest_path(self@, h, start, goal);
                }
                return Self::reconstruct_path(search.came_from, goal);
            }
            let ghost picked = pick(s, i as int);
            proof {
                lemma_pick(self@, h, start, goal, s, i as int);
            }
            search.open.remove(i);
            search.closed.insert(current);
            let expanded = search.closed.len();
            let g_current: Score = match search.g_score.get(current) {
                Some(cost) => cost,
                None => Score { whole: 0, root: 0 },
            };
            assert(search.holds(picked));
            assert(g_current@ == picked.g_score[current]);
            assert(g_current.whole <= 0xffff_ffff_ffff_ffff_ffff && g_current.root
                <= 0xffff_ffff_ffff_ffff_ffff) by {
                assert(picked.g_score[current].whole + picked.g_score[current].root
                    + STRAIGHT_COST <= STRAIGHT_COST * picked.closed.len());
                assert(STRAIGHT_COST * picked.closed.len() <= 1000 * 0xffff_ffff_ffff_ffff)
                    by (nonlinear_arith)
                    requires
                        picked.closed.len() <= 0xffff_ffff_ffff_ffff,
                        STRAIGHT_COST == 1000,
                ;
            }
            let found = get_neighbors(current, self);
            proof {
                assert forall|j: int| 0 <= j < found@.len() implies edge(
                    self@,
                    current,
                    #[trigger] found@[j],
                ) by {
                    assert(found@.contains(found@[j]));
                }
            }
            let mut j: usize = 0;
            while j < found.len()
                invariant
                    j <= found@.len(),
                    found@ == neighbors(self@, current),
                    forall|k: int| 0 <= k < found@.len() ==> edge(self@, current, #[trigger] found@[k]),
                    tidy(h, goal, picked),
                    rooted(self@, start, picked),
                    picked.closed.contains(current),
                    picked.g_score.contains_key(current),
                    picked.g_score[current].whole + picked.g_score[current].root + STRAIGHT_COST
                        <= STRAIGHT_COST * picked.closed.len(),
                    g_current@ == picked.g_score[current],
                    g_current.whole <= 0xffff_ffff_ffff_ffff_ffff,
                    g_current.root <= 0xffff_ffff_ffff_ffff_ffff,
                    search.holds(relax_all(h, goal, picked, current, found@, j as nat)),
                decreases found@.len() - j,
            {
                let ghost before = relax_all(h, goal, picked, current, found@, j as nat);
                proof {
                    lemma_relax_all(self@, h, start, goal, picked, current, found@, j as nat);
                }
                search.relax(h, goal, current, g_current, found[j], Ghost(before));
                j += 1;
            }
            proof {
                lemma_advance(self@, h, start, goal, s);
                assert(after(self@, h, start, goal, rounds + 1) == advance(self@, h, goal, s));
                s = advance(self@, h, goal, s);
                rounds = rounds + 1;
                assert(s.closed.len() == expanded);
            }
        }
    }
}

} // verus!
