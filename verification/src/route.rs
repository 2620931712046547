//! Routes as chains of predecessor links, and the walk back along them.

use crate::coord_map::CoordMap;
use crate::grid::SearchableGrid;
use vstd::prelude::*;
use vstd::relations::injective_on;
use vstd::set_lib::{lemma_int_range, lemma_len_subset, lemma_map_size, set_int_range};

verus! {

/// The coordinate reached from `at` by following `n` predecessor links.
pub open spec fn ancestor(came_from: Map<(i32, i32), (i32, i32)>, at: (i32, i32), n: nat) -> (
    i32,
    i32,
)
    decreases n,
{
    if n == 0 {
        at
    } else {
        came_from[ancestor(came_from, at, (n - 1) as nat)]
    }
}

/// Exactly `n` predecessor links lead from `at` to a coordinate that has
/// no predecessor.
pub open spec fn is_chain_length(
    came_from: Map<(i32, i32), (i32, i32)>,
    at: (i32, i32),
    n: nat,
) -> bool {
    &&& !came_from.contains_key(ancestor(came_from, at, n))
    &&& forall|j: nat| j < n ==> came_from.contains_key(#[trigger] ancestor(came_from, at, j))
}

/// Following predecessor links from `at` comes to an end.
pub open spec fn chain_ends(came_from: Map<(i32, i32), (i32, i32)>, at: (i32, i32)) -> bool {
    exists|n: nat| is_chain_length(came_from, at, n)
}

/// The number of predecessor links between `at` and the coordinate
/// without predecessor that they lead to.
pub open spec fn chain_length(came_from: Map<(i32, i32), (i32, i32)>, at: (i32, i32)) -> nat {
    choose|n: nat| is_chain_length(came_from, at, n)
}

/// The route that the predecessor links describe: from the coordinate
/// after the one without predecessor, in walking order, up to `at`
/// itself. The coordinate without predecessor, where the walk began, is
/// not part of it; so a coordinate without predecessor has the empty
/// route.
pub open spec fn route(came_from: Map<(i32, i32), (i32, i32)>, at: (i32, i32)) -> Seq<(i32, i32)> {
    let n = chain_length(came_from, at);
    Seq::new(n, |i: int| ancestor(came_from, at, (n - 1 - i) as nat))
}

/// A chain has one length.
pub proof fn lemma_chain_length_unique(
    came_from: Map<(i32, i32), (i32, i32)>,
    at: (i32, i32),
    n: nat,
)
    requires
        is_chain_length(came_from, at, n),
    ensures
        chain_ends(came_from, at),
        chain_length(came_from, at) == n,
{
    let m = chain_length(came_from, at);
    assert(is_chain_length(came_from, at, m));
    if m < n {
        assert(came_from.contains_key(ancestor(came_from, at, m)));
    } else if n < m {
        assert(came_from.contains_key(ancestor(came_from, at, n)));
    }
}

/// A route names the coordinate it leads to last and the coordinate
/// without predecessor, from which it sets out, not at all; each
/// coordinate it names has as predecessor the one named before it, and
/// the first has the coordinate from which the route sets out.
pub proof fn lemma_route_shape(came_from: Map<(i32, i32), (i32, i32)>, at: (i32, i32))
    requires
        chain_ends(came_from, at),
    ensures
        route(came_from, at).len() == chain_length(came_from, at),
        route(came_from, at).len() > 0 ==> route(came_from, at).last() == at,
        route(came_from, at).len() > 0 ==> came_from[route(came_from, at)[0]] == ancestor(
            came_from,
            at,
            chain_length(came_from, at),
        ),
        forall|i: int|
            0 <= i < route(came_from, at).len() ==> came_from.contains_key(
                #[trigger] route(came_from, at)[i],
            ),
        forall|i: int|
            0 <= i < route(came_from, at).len() - 1 ==> came_from[#[trigger] route(
                came_from,
                at,
            )[i + 1]] == route(came_from, at)[i],
        !route(came_from, at).contains(ancestor(came_from, at, chain_length(came_from, at))),
{
    let n = chain_length(came_from, at);
    let path = route(came_from, at);
    assert(is_chain_length(came_from, at, n));
    assert forall|i: int| 0 <= i < path.len() implies came_from.contains_key(#[trigger] path[i]) by {
        assert(came_from.contains_key(ancestor(came_from, at, (n - 1 - i) as nat)));
    }
    reveal_with_fuel(ancestor, 2);
}

/// Where a chain comes to the same coordinate twice, it goes on in the
/// same way from both places.
proof fn lemma_chain_repeats(
    came_from: Map<(i32, i32), (i32, i32)>,
    at: (i32, i32),
    i: nat,
    j: nat,
    k: nat,
)
    requires
        ancestor(came_from, at, i) == ancestor(came_from, at, j),
    ensures
        ancestor(came_from, at, i + k) == ancestor(came_from, at, j + k),
    decreases k,
{
    if k > 0 {
        lemma_chain_repeats(came_from, at, i, j, (k - 1) as nat);
        assert(ancestor(came_from, at, i + k) == came_from[ancestor(
            came_from,
            at,
            (i + k - 1) as nat,
        )]);
        assert(ancestor(came_from, at, j + k) == came_from[ancestor(
            came_from,
            at,
            (j + k - 1) as nat,
        )]);
    }
}

/// A chain that comes to an end has no more links than the map has
/// entries: it passes no coordinate twice, and every coordinate it passes
/// has an entry.
pub proof fn lemma_chain_fits(came_from: Map<(i32, i32), (i32, i32)>, at: (i32, i32), n: nat)
    requires
        came_from.dom().finite(),
        is_chain_length(came_from, at, n),
    ensures
        n <= came_from.dom().len(),
{
    let positions = set_int_range(0, n as int);
    let passed = |j: int| ancestor(came_from, at, j as nat);
    lemma_int_range(0, n as int);
    assert(injective_on(passed, positions)) by {
        assert forall|i: int, j: int|
            positions.contains(i) && positions.contains(j) && #[trigger] passed(i)
                == #[trigger] passed(j) implies i == j by {
            if i != j {
                let low = if i < j {
                    i
                } else {
                    j
                };
                let high = if i < j {
                    j
                } else {
                    i
                };
                lemma_chain_repeats(came_from, at, low as nat, high as nat, (n - high) as nat);
                assert(came_from.contains_key(ancestor(came_from, at, (low + n - high) as nat)));
            }
        }
    }
    lemma_map_size(positions, positions.map(passed), passed);
    assert(positions.map(passed).subset_of(came_from.dom())) by {
        assert forall|c: (i32, i32)| positions.map(passed).contains(c) implies came_from.dom().contains(
            c,
        ) by {
            let j = choose|j: int| positions.contains(j) && passed(j) == c;
            assert(came_from.contains_key(ancestor(came_from, at, j as nat)));
        }
    }
    lemma_len_subset(positions.map(passed), came_from.dom());
}

/// A chain with more links than the map has entries runs in a circle.
pub proof fn lemma_long_chain_never_ends(
    came_from: Map<(i32, i32), (i32, i32)>,
    at: (i32, i32),
    m: nat,
)
    requires
        came_from.dom().finite(),
        m >= came_from.dom().len(),
        forall|j: nat| j <= m ==> came_from.contains_key(#[trigger] ancestor(came_from, at, j)),
    ensures
        !chain_ends(came_from, at),
{
    if chain_ends(came_from, at) {
        let n = choose|n: nat| is_chain_length(came_from, at, n);
        lemma_chain_fits(came_from, at, n);
        assert(came_from.contains_key(ancestor(came_from, at, n)));
    }
}

impl SearchableGrid {
    /// Walks the predecessor links back from `current` to the coordinate
    /// that has none, and returns the coordinates passed in the order of
    /// the walk forward: `current` comes last, and the coordinate without
    /// predecessor is left out.
    ///
    /// A map in which the links from `current` run in a circle describes
    /// no route, and none is returned.
    pub fn reconstruct_path(came_from: CoordMap<(i32, i32)>, current: (i32, i32)) -> (total_path:
        Vec<(i32, i32)>)
        ensures
            chain_ends(came_from@, current) ==> total_path@ == route(came_from@, current),
            !chain_ends(came_from@, current) ==> total_path@.len() == 0,
            total_path@.len() > 0 ==> total_path@.last() == current,
            forall|i: int|
                0 <= i < total_path@.len() ==> came_from@.contains_key(#[trigger] total_path@[i]),
            chain_ends(came_from@, current) ==> !total_path@.contains(
                ancestor(came_from@, current, chain_length(came_from@, current)),
            ),
    {
        let limit = came_from.len();
        let mut visited = Vec::<(i32, i32)>::new();
        let mut loc_current: (i32, i32) = current;
        loop
            invariant_except_break
                loc_current == ancestor(came_from@, current, visited@.len()),
            invariant
                came_from@.dom().finite(),
                limit == came_from@.dom().len(),
                visited@.len() <= limit,
                forall|j: int|
                    0 <= j < visited@.len() ==> visited@[j] == ancestor(
                        came_from@,
                        current,
                        j as nat,
                    ),
                forall|j: nat|
                    j < visited@.len() ==> came_from@.contains_key(
                        #[trigger] ancestor(came_from@, current, j),
                    ),
            ensures
                is_chain_length(came_from@, current, visited@.len()),
            decreases limit - visited@.len(),
        {
            match came_from.get(loc_current) {
                None => {
                    break ;
                },
                Some(previous) => {
                    if visited.len() == limit {
                        proof {
                            lemma_long_chain_never_ends(came_from@, current, limit as nat);
                        }
                        return Vec::new();
                    }
                    visited.push(loc_current);
                    loc_current = previous;
                },
            }
        }
        let ghost n = visited@.len();
        proof {
            lemma_chain_length_unique(came_from@, current, n);
        }
        let mut total_path = Vec::<(i32, i32)>::new();
        let mut left: usize = visited.len();
        while left > 0
            invariant
                left <= visited@.len(),
                visited@.len() == n,
                total_path@.len() == n - left,
                forall|j: int|
                    0 <= j < visited@.len() ==> visited@[j] == ancestor(
                        came_from@,
                        current,
                        j as nat,
                    ),
                forall|i: int|
                    0 <= i < total_path@.len() ==> total_path@[i] == ancestor(
                        came_from@,
                        current,
                        (n - 1 - i) as nat,
                    ),
            decreases left,
        {
            left -= 1;
            total_path.push(visited[left]);
        }
        proof {
            assert(total_path@ =~= route(came_from@, current));
            lemma_route_shape(came_from@, current);
        }
        total_path
    }
}

} // verus!
