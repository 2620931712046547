//! Distances between cells and what steps cost, in thousandths of the
//! side of a cell.

use crate::grid::SearchableGrid;
use crate::surd::{Score, Surd};
use vstd::prelude::*;

verus! {

/// What a straight step costs. Distances are whole numbers of
/// thousandths of the side of a cell; a diagonal step costs the square
/// root of two times as much as a straight one, and costs are reckoned
/// with that root exactly.
pub const STRAIGHT_COST: u64 = 1000;

/// An estimate of the distance that is left to the goal.
#[derive(Debug, Clone, Copy, PartialEq, Eq, Hash, Structural)]
pub enum Heuristic {
    /// The distance along rows and columns.
    Manhattan,
    /// The distance along the straight line.
    Euclidean,
}

/// How far apart two numbers are.
pub open spec fn gap(a: int, b: int) -> nat {
    if a <= b {
        (b - a) as nat
    } else {
        (a - b) as nat
    }
}

/// `root` is the square root of `n`, rounded down.
pub open spec fn is_floor_sqrt(n: nat, root: nat) -> bool {
    root * root <= n < (root + 1) * (root + 1)
}

/// The square root of `n`, rounded down.
pub open spec fn floor_sqrt(n: nat) -> nat {
    choose|root: nat| is_floor_sqrt(n, root)
}

/// The rows and the columns between two cells, in thousandths.
pub open spec fn manhattan(a: (i32, i32), b: (i32, i32)) -> nat {
    STRAIGHT_COST as nat * (gap(a.0 as int, b.0 as int) + gap(a.1 as int, b.1 as int))
}

/// The square of the straight-line distance between two cells, in cells.
pub open spec fn squared_distance(a: (i32, i32), b: (i32, i32)) -> nat {
    gap(a.0 as int, b.0 as int) * gap(a.0 as int, b.0 as int) + gap(a.1 as int, b.1 as int) * gap(
        a.1 as int,
        b.1 as int,
    )
}

/// The straight-line distance between two cells, in thousandths, rounded
/// down.
pub open spec fn euclidean(a: (i32, i32), b: (i32, i32)) -> nat {
    floor_sqrt(STRAIGHT_COST as nat * STRAIGHT_COST as nat * squared_distance(a, b))
}

/// What the heuristic estimates for the way from `from` to `to`, in
/// thousandths. The distance along rows and columns is taken as it is.
/// The straight-line distance is shortened by a thousandth of itself:
/// rounded as it is, it might else fall by more over one diagonal step
/// than the step costs.
#[verifier::opaque]
pub open spec fn estimate(heuristic: Heuristic, from: (i32, i32), to: (i32, i32)) -> nat {
    match heuristic {
        Heuristic::Manhattan => manhattan(from, to),
        Heuristic::Euclidean => euclidean(from, to) * 999 / 1000,
    }
}

/// What the step between two adjacent cells costs: a thousand
/// thousandths if it is straight, a thousand times the square root of
/// two if it changes both the row and the column.
pub open spec fn step_cost(from: (i32, i32), to: (i32, i32)) -> Surd {
    if from.0 != to.0 && from.1 != to.1 {
        Surd { whole: 0, root: STRAIGHT_COST as int }
    } else {
        Surd { whole: STRAIGHT_COST as int, root: 0 }
    }
}

/// A number has one rounded-down square root.
pub proof fn lemma_floor_sqrt_unique(n: nat, r1: nat, r2: nat)
    requires
        is_floor_sqrt(n, r1),
        is_floor_sqrt(n, r2),
    ensures
        r1 == r2,
{
    if r1 < r2 {
        assert((r1 + 1) * (r1 + 1) <= r2 * r2) by (nonlinear_arith)
            requires
                r1 + 1 <= r2,
        ;
    } else if r2 < r1 {
        assert((r2 + 1) * (r2 + 1) <= r1 * r1) by (nonlinear_arith)
            requires
                r2 + 1 <= r1,
        ;
    }
}

/// Every number has a square root rounded down.
pub proof fn lemma_floor_sqrt_exists(n: nat)
    ensures
        is_floor_sqrt(n, floor_sqrt(n)),
{
    assert((n + 1) * (n + 1) > n) by (nonlinear_arith);
    lemma_floor_sqrt_below(n, n + 1);
}

/// A number whose square exceeds `n` has the rounded-down square root of
/// `n` below it.
proof fn lemma_floor_sqrt_below(n: nat, bound: nat)
    requires
        bound * bound > n,
    ensures
        exists|root: nat| root < bound && is_floor_sqrt(n, root),
        is_floor_sqrt(n, floor_sqrt(n)),
    decreases bound,
{
    assert(bound > 0) by (nonlinear_arith)
        requires
            bound * bound > n,
    ;
    let lower = (bound - 1) as nat;
    if lower * lower <= n {
        assert(is_floor_sqrt(n, lower));
    } else {
        lemma_floor_sqrt_below(n, lower);
    }
}

/// How far apart two coordinates are.
fn span(a: i32, b: i32) -> (d: u64)
    ensures
        d == gap(a as int, b as int),
        d <= 0xffff_ffff,
{
    if a <= b {
        (b as i64 - a as i64) as u64
    } else {
        (a as i64 - b as i64) as u64
    }
}

/// The square root of `n`, rounded down, for `n` below the 86th power of
/// two.
fn integer_sqrt(n: u128) -> (root: u64)
    requires
        n < 0x40_0000_0000_0000_0000_0000u128,
    ensures
        is_floor_sqrt(n as nat, root as nat),
        root == floor_sqrt(n as nat),
        root < 0x800_0000_0000,
{
    let mut low: u128 = 0;
    let mut high: u128 = 0x800_0000_0000u128;
    assert(0x800_0000_0000u128 * 0x800_0000_0000u128 == 0x40_0000_0000_0000_0000_0000u128)
        by (nonlinear_arith);
    while high - low > 1
        invariant
            low < high <= 0x800_0000_0000u128,
            low * low <= n < high * high,
        decreases high - low,
    {
        let middle: u128 = low + (high - low) / 2;
        assert(middle * middle <= 0x800_0000_0000u128 * 0x800_0000_0000u128)
            by (nonlinear_arith)
            requires
                middle <= 0x800_0000_0000u128,
        ;
        if middle * middle <= n {
            low = middle;
        } else {
            high = middle;
        }
    }
    proof {
        assert(is_floor_sqrt(n as nat, low as nat));
        lemma_floor_sqrt_unique(n as nat, low as nat, floor_sqrt(n as nat));
    }
    low as u64
}

impl SearchableGrid {
    /// The distance between two cells along rows and columns, in
    /// thousandths of a cell: a thousand times the rows plus the columns
    /// between them.
    pub fn manhatten_distance(start: (i32, i32), end: (i32, i32)) -> (distance: u64)
        ensures
            distance == manhattan(start, end),
            distance <= 0xffff_ffff_ffff,
    {
        let rows = span(start.0, end.0);
        let cols = span(start.1, end.1);
        STRAIGHT_COST * (rows + cols)
    }

    /// The distance between two cells along the straight line, in
    /// thousandths of a cell, rounded down.
    pub fn euclidean_distance(start: (i32, i32), end: (i32, i32)) -> (distance: u64)
        ensures
            distance == euclidean(start, end),
            distance < 0x800_0000_0000,
            is_floor_sqrt(
                STRAIGHT_COST as nat * STRAIGHT_COST as nat * squared_distance(start, end),
                distance as nat,
            ),
    {
        let rows = span(start.0, end.0) as u128;
        let cols = span(start.1, end.1) as u128;
        assert(rows * rows <= 0xffff_ffffu128 * 0xffff_ffffu128) by (nonlinear_arith)
            requires
                rows <= 0xffff_ffffu128,
        ;
        assert(cols * cols <= 0xffff_ffffu128 * 0xffff_ffffu128) by (nonlinear_arith)
            requires
                cols <= 0xffff_ffffu128,
        ;
        let squared: u128 = rows * rows + cols * cols;
        let scale: u128 = STRAIGHT_COST as u128 * STRAIGHT_COST as u128;
        assert(scale == 1_000_000);
        integer_sqrt(scale * squared)
    }
}

impl Heuristic {
    /// The estimate this heuristic gives for the way from `from` to `to`.
    pub fn estimate(self, from: (i32, i32), to: (i32, i32)) -> (distance: u64)
        ensures
            distance == estimate(self, from, to),
            distance <= 0xffff_ffff_ffff,
    {
        proof {
            reveal(estimate);
        }
        match self {
            Heuristic::Manhattan => SearchableGrid::manhatten_distance(from, to),
            Heuristic::Euclidean => {
                let whole = SearchableGrid::euclidean_distance(from, to);
                whole * 999 / 1000
            },
        }
    }
}

/// What the step between two adjacent cells costs.
pub fn cost_of_step(from: (i32, i32), to: (i32, i32)) -> (cost: Score)
    ensures
        cost@ == step_cost(from, to),
{
    if from.0 != to.0 && from.1 != to.1 {
        Score { whole: 0, root: STRAIGHT_COST as u128 }
    } else {
        Score { whole: STRAIGHT_COST as u128, root: 0 }
    }
}

} // verus!
