//! The open cells of a search as a priority queue: they are kept in the
//! order in which they were found, and the one to expand next is the one
//! with the lowest score, the earliest found of several.

use crate::coord_map::CoordMap;
use crate::surd::{lemma_le_total, lemma_le_trans, Score, Surd};
use vstd::prelude::*;

verus! {

/// Among the first `n` entries of `open`, the position of the one with
/// the lowest score; of several with the lowest score, the one that
/// stands first.
pub open spec fn lowest_upto(open: Seq<(i32, i32)>, f_score: Map<(i32, i32), Surd>, n: nat) -> int
    decreases n,
{
    if n <= 1 {
        0
    } else {
        let best = lowest_upto(open, f_score, (n - 1) as nat);
        if !f_score[open[best]].le(f_score[open[n - 1]]) {
            n - 1
        } else {
            best
        }
    }
}

/// The position in `open` of the entry to expand next: the one with the
/// lowest score, and of several with the lowest score the one that was
/// entered first.
pub open spec fn lowest(open: Seq<(i32, i32)>, f_score: Map<(i32, i32), Surd>) -> int {
    lowest_upto(open, f_score, open.len())
}

/// `i` is the position of an entry of `open` that no entry undercuts and
/// no earlier entry equals in score.
pub open spec fn is_first_minimum(
    open: Seq<(i32, i32)>,
    f_score: Map<(i32, i32), Surd>,
    n: nat,
    i: int,
) -> bool {
    &&& 0 <= i < n
    &&& forall|j: int| 0 <= j < n ==> f_score[open[i]].le(f_score[#[trigger] open[j]])
    &&& forall|j: int| 0 <= j < i ==> !f_score[#[trigger] open[j]].le(f_score[open[i]])
}

/// The entry chosen among the first `n` is the first of those with the
/// lowest score.
pub proof fn lemma_lowest_upto(open: Seq<(i32, i32)>, f_score: Map<(i32, i32), Surd>, n: nat)
    requires
        0 < n <= open.len(),
    ensures
        is_first_minimum(open, f_score, n, lowest_upto(open, f_score, n)),
    decreases n,
{
    if n > 1 {
        lemma_lowest_upto(open, f_score, (n - 1) as nat);
        let best = lowest_upto(open, f_score, (n - 1) as nat);
        let last = f_score[open[n - 1]];
        let low = f_score[open[best]];
        lemma_le_total(low, last);
        if !low.le(last) {
            assert forall|j: int| 0 <= j < n implies last.le(f_score[#[trigger] open[j]]) by {
                if j < n - 1 {
                    lemma_le_trans(last, low, f_score[open[j]]);
                } else {
                    lemma_le_total(last, last);
                }
            }
            assert forall|j: int| 0 <= j < n - 1 implies !f_score[#[trigger] open[j]].le(last) by {
                if f_score[open[j]].le(last) {
                    lemma_le_trans(low, f_score[open[j]], last);
                }
            }
        }
    } else {
        lemma_le_total(f_score[open[0]], f_score[open[0]]);
    }
}

/// Only one position is the first of those with the lowest score, so
/// whoever finds it has found the entry to expand next.
pub proof fn lemma_first_minimum_is_lowest(
    open: Seq<(i32, i32)>,
    f_score: Map<(i32, i32), Surd>,
    i: int,
)
    requires
        is_first_minimum(open, f_score, open.len(), i),
    ensures
        i == lowest(open, f_score),
{
    lemma_lowest_upto(open, f_score, open.len());
    let k = lowest(open, f_score);
    if i < k {
        assert(!f_score[open[i]].le(f_score[open[k]]));
        assert(f_score[open[i]].le(f_score[open[k]]));
    } else if k < i {
        assert(!f_score[open[k]].le(f_score[open[i]]));
        assert(f_score[open[k]].le(f_score[open[i]]));
    }
}

/// The position in `open` of the entry with the lowest score, the first
/// of them where several have it.
pub fn lowest_position(open: &Vec<(i32, i32)>, f_score: &CoordMap<Score>) -> (best: usize)
    requires
        open@.len() > 0,
        forall|j: int| 0 <= j < open@.len() ==> f_score@.contains_key(#[trigger] open@[j]),
    ensures
        best < open@.len(),
        forall|j: int|
            0 <= j < open@.len() ==> f_score@[open@[best as int]]@.le(
                f_score@[#[trigger] open@[j]]@,
            ),
        forall|j: int|
            0 <= j < best ==> !f_score@[#[trigger] open@[j]]@.le(f_score@[open@[best as int]]@),
{
    let mut best: usize = 0;
    let mut best_score: Score = match f_score.get(open[0]) {
        Some(score) => score,
        None => Score { whole: 0, root: 0 },
    };
    proof {
        lemma_le_total(best_score@, best_score@);
    }
    let mut i: usize = 1;
    while i < open.len()
        invariant
            1 <= i <= open@.len(),
            best < i,
            best_score == f_score@[open@[best as int]],
            forall|j: int| 0 <= j < open@.len() ==> f_score@.contains_key(#[trigger] open@[j]),
            forall|j: int| 0 <= j < i ==> best_score@.le(f_score@[#[trigger] open@[j]]@),
            forall|j: int| 0 <= j < best ==> !f_score@[#[trigger] open@[j]]@.le(best_score@),
        decreases open@.len() - i,
    {
        match f_score.get(open[i]) {
            Some(score) => {
                if !best_score.no_more_than(score) {
                    proof {
                        lemma_le_total(best_score@, score@);
                        lemma_le_total(score@, score@);
                        assert forall|j: int| 0 <= j < i + 1 implies score@.le(
                            f_score@[#[trigger] open@[j]]@,
                        ) by {
                            if j < i {
                                lemma_le_trans(score@, best_score@, f_score@[open@[j]]@);
                            }
                        }
                        assert forall|j: int| 0 <= j < i implies !f_score@[#[trigger] open@[j]]@.le(
                            score@,
                        ) by {
                            if f_score@[open@[j]]@.le(score@) {
                                lemma_le_trans(best_score@, f_score@[open@[j]]@, score@);
                            }
                        }
                    }
                    best = i;
                    best_score = score;
                }
            },
            None => {},
        }
        i += 1;
    }
    best
}

} // verus!
