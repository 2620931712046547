//! Costs as numbers of the form `whole + root·√2`, with whole numbers
//! `whole` and `root`, ordered exactly: a comparison never rounds the
//! square root of two, it compares squares.

use vstd::prelude::*;

verus! {

/// The number `whole + root·√2`.
pub struct Surd {
    pub whole: int,
    pub root: int,
}

impl Surd {
    /// The sum of two numbers.
    pub open spec fn plus(self, other: Surd) -> Surd {
        Surd { whole: self.whole + other.whole, root: self.root + other.root }
    }

    /// The difference of two numbers.
    pub open spec fn minus(self, other: Surd) -> Surd {
        Surd { whole: self.whole - other.whole, root: self.root - other.root }
    }

    /// The number is not negative. Where the two parts differ in sign,
    /// the greater of `whole²` and `2·root²` decides, which says whether
    /// `whole` or `root·√2` is the greater in size.
    #[verifier::opaque]
    pub open spec fn nonneg(self) -> bool {
        if self.whole >= 0 && self.root >= 0 {
            true
        } else if self.whole >= 0 {
            self.whole * self.whole >= 2 * (self.root * self.root)
        } else if self.root > 0 {
            2 * (self.root * self.root) >= self.whole * self.whole
        } else {
            false
        }
    }

    /// This number is no greater than the other.
    pub open spec fn le(self, other: Surd) -> bool {
        other.minus(self).nonneg()
    }
}

/// Of numbers that are not negative, the greater has the greater square.
pub proof fn lemma_square_grows(a: int, b: int)
    requires
        0 <= a <= b,
    ensures
        a * a <= b * b,
        a < b ==> a * a < b * b,
{
    assert(a * a <= b * b) by (nonlinear_arith)
        requires
            0 <= a <= b,
    ;
    if a < b {
        assert(a * a < b * b) by (nonlinear_arith)
            requires
                0 <= a < b,
        ;
    }
}

/// Where `u ≤ v·√2` and `r ≤ t·√2`, the product `u·r` is at most
/// `2·v·t`.
proof fn lemma_product_below(u: int, v: int, r: int, t: int)
    requires
        0 <= u,
        0 <= v,
        0 <= r,
        0 <= t,
        u * u <= 2 * (v * v),
        r * r <= 2 * (t * t),
    ensures
        u * r <= 2 * (v * t),
{
    if u * r > 2 * (v * t) {
        assert(0 <= 2 * (v * t)) by (nonlinear_arith)
            requires
                0 <= v,
                0 <= t,
        ;
        lemma_square_grows(2 * (v * t), u * r);
        assert((u * r) * (u * r) == (u * u) * (r * r)) by (nonlinear_arith);
        assert((2 * (v * t)) * (2 * (v * t)) == (2 * (v * v)) * (2 * (t * t))) by (nonlinear_arith);
        assert((u * u) * (r * r) <= (2 * (v * v)) * (2 * (t * t))) by (nonlinear_arith)
            requires
                0 <= u * u <= 2 * (v * v),
                0 <= r * r <= 2 * (t * t),
        ;
        assert(false);
    }
}

/// Where `u ≤ v·√2` and `r ≤ t·√2`, also `u + r ≤ (v + t)·√2`; and
/// strictly so where the first holds strictly.
proof fn lemma_sum_below(u: int, v: int, r: int, t: int)
    requires
        0 <= u,
        0 <= v,
        0 <= r,
        0 <= t,
        u * u <= 2 * (v * v),
        r * r <= 2 * (t * t),
    ensures
        (u + r) * (u + r) <= 2 * ((v + t) * (v + t)),
        u * u < 2 * (v * v) ==> (u + r) * (u + r) < 2 * ((v + t) * (v + t)),
{
    lemma_product_below(u, v, r, t);
    assert((u + r) * (u + r) == u * u + 2 * (u * r) + r * r) by (nonlinear_arith);
    assert((v + t) * (v + t) == v * v + 2 * (v * t) + t * t) by (nonlinear_arith);
}

/// Where `u ≥ v·√2` and `r ≥ t·√2`, the product `u·r` is at least
/// `2·v·t`.
proof fn lemma_product_above(u: int, v: int, r: int, t: int)
    requires
        0 <= u,
        0 <= v,
        0 <= r,
        0 <= t,
        u * u >= 2 * (v * v),
        r * r >= 2 * (t * t),
    ensures
        u * r >= 2 * (v * t),
{
    if u * r < 2 * (v * t) {
        assert(0 <= u * r) by (nonlinear_arith)
            requires
                0 <= u,
                0 <= r,
        ;
        lemma_square_grows(u * r, 2 * (v * t));
        assert((u * r) * (u * r) == (u * u) * (r * r)) by (nonlinear_arith);
        assert((2 * (v * t)) * (2 * (v * t)) == (2 * (v * v)) * (2 * (t * t))) by (nonlinear_arith);
        assert((u * u) * (r * r) >= (2 * (v * v)) * (2 * (t * t))) by (nonlinear_arith)
            requires
                u * u >= 2 * (v * v) >= 0,
                r * r >= 2 * (t * t) >= 0,
        ;
        assert(false);
    }
}

/// Where `u ≥ v·√2` and `r ≥ t·√2`, also `u + r ≥ (v + t)·√2`; and
/// strictly so where the first holds strictly.
proof fn lemma_sum_above(u: int, v: int, r: int, t: int)
    requires
        0 <= u,
        0 <= v,
        0 <= r,
        0 <= t,
        u * u >= 2 * (v * v),
        r * r >= 2 * (t * t),
    ensures
        (u + r) * (u + r) >= 2 * ((v + t) * (v + t)),
        u * u > 2 * (v * v) ==> (u + r) * (u + r) > 2 * ((v + t) * (v + t)),
{
    lemma_product_above(u, v, r, t);
    assert((u + r) * (u + r) == u * u + 2 * (u * r) + r * r) by (nonlinear_arith);
    assert((v + t) * (v + t) == v * v + 2 * (v * t) + t * t) by (nonlinear_arith);
}

/// A number and its negative have the same square.
proof fn lemma_square_of_negative(a: int)
    ensures
        (-a) * (-a) == a * a,
{
    assert((-a) * (-a) == a * a) by (nonlinear_arith);
}

/// The sum of a number with whole part `p ≥ 0` and root part `-q < 0`
/// and a number with whole part `-r < 0` and root part `t > 0`, neither
/// of them negative, is not negative.
proof fn lemma_mixed_sum(p: int, q: int, r: int, t: int)
    requires
        0 <= p,
        0 < q,
        0 < r,
        0 < t,
        p * p >= 2 * (q * q),
        2 * (t * t) >= r * r,
    ensures
        (Surd { whole: p - r, root: t - q }).nonneg(),
{
    reveal(Surd::nonneg);
    let a = p - r;
    let b = t - q;
    if a >= 0 && b >= 0 {
    } else if a >= 0 {
        // b < 0: if a were less than (q - t)·√2, p would be less than q·√2.
        if a * a < 2 * (b * b) {
            lemma_square_of_negative(b);
            lemma_sum_below(a, q - t, r, t);
            assert(a + r == p && (q - t) + t == q);
            assert(false);
        }
    } else if b > 0 {
        // a < 0: if r - p were more than (t - q)·√2, r would be more than t·√2.
        if 2 * (b * b) < a * a {
            lemma_square_of_negative(a);
            lemma_sum_above(r - p, b, p, q);
            assert((r - p) + p == r && b + q == t);
            assert(false);
        }
    } else {
        // r > p ≥ q·√2 ≥ t·√2 ≥ r cannot be.
        lemma_square_grows(p, r);
        lemma_square_grows(t, q);
        assert(false);
    }
}

/// The sum of two numbers that are not negative is not negative.
pub proof fn lemma_nonneg_sum(x: Surd, y: Surd)
    requires
        x.nonneg(),
        y.nonneg(),
    ensures
        x.plus(y).nonneg(),
{
    reveal(Surd::nonneg);
    let z = x.plus(y);
    if x.whole >= 0 && x.root >= 0 {
        if y.whole >= 0 && y.root >= 0 {
        } else if y.whole >= 0 {
            if z.root < 0 {
                lemma_square_of_negative(z.root);
                lemma_square_of_negative(y.root);
                lemma_square_grows(-z.root, -y.root);
                lemma_square_grows(y.whole, z.whole);
            }
        } else {
            if z.whole < 0 {
                lemma_square_of_negative(z.whole);
                lemma_square_of_negative(y.whole);
                lemma_square_grows(-z.whole, -y.whole);
                lemma_square_grows(y.root, z.root);
            }
        }
    } else if x.whole >= 0 {
        if y.whole >= 0 && y.root >= 0 {
            if z.root < 0 {
                lemma_square_of_negative(z.root);
                lemma_square_of_negative(x.root);
                lemma_square_grows(-z.root, -x.root);
                lemma_square_grows(x.whole, z.whole);
            }
        } else if y.whole >= 0 {
            lemma_square_of_negative(x.root);
            lemma_square_of_negative(y.root);
            lemma_square_of_negative(z.root);
            lemma_sum_above(x.whole, -x.root, y.whole, -y.root);
            assert(-z.root == (-x.root) + (-y.root));
        } else {
            lemma_square_of_negative(x.root);
            lemma_square_of_negative(y.whole);
            lemma_mixed_sum(x.whole, -x.root, -y.whole, y.root);
            assert(z == Surd { whole: x.whole - (-y.whole), root: y.root - (-x.root) });
        }
    } else {
        if y.whole >= 0 && y.root >= 0 {
            if z.whole < 0 {
                lemma_square_of_negative(z.whole);
                lemma_square_of_negative(x.whole);
                lemma_square_grows(-z.whole, -x.whole);
                lemma_square_grows(x.root, z.root);
            }
        } else if y.whole >= 0 {
            lemma_square_of_negative(y.root);
            lemma_square_of_negative(x.whole);
            lemma_mixed_sum(y.whole, -y.root, -x.whole, x.root);
            assert(z == Surd { whole: y.whole - (-x.whole), root: x.root - (-y.root) });
        } else {
            lemma_square_of_negative(x.whole);
            lemma_square_of_negative(y.whole);
            lemma_square_of_negative(z.whole);
            lemma_sum_below(-x.whole, x.root, -y.whole, y.root);
            assert(-z.whole == (-x.whole) + (-y.whole));
        }
    }
}

/// A number whose two parts are not negative is not negative.
pub proof fn lemma_nonneg_parts(x: Surd)
    requires
        x.whole >= 0,
        x.root >= 0,
    ensures
        x.nonneg(),
{
    reveal(Surd::nonneg);
}

/// A whole number is not negative in this sense exactly if it is not
/// negative.
pub proof fn lemma_nonneg_whole(x: Surd)
    requires
        x.root == 0,
    ensures
        x.nonneg() == (x.whole >= 0),
{
    reveal(Surd::nonneg);
}

/// A number is no greater than itself.
pub proof fn lemma_le_refl(x: Surd)
    ensures
        x.le(x),
{
    lemma_nonneg_parts(x.minus(x));
}

/// Of two numbers one is no greater than the other.
pub proof fn lemma_le_total(x: Surd, y: Surd)
    ensures
        x.le(y) || y.le(x),
{
    reveal(Surd::nonneg);
    let d = y.minus(x);
    let e = x.minus(y);
    assert(e.whole == -d.whole && e.root == -d.root);
    lemma_square_of_negative(d.whole);
    lemma_square_of_negative(d.root);
}

/// What is no greater than a number that is no greater than a third is
/// no greater than the third.
pub proof fn lemma_le_trans(x: Surd, y: Surd, z: Surd)
    requires
        x.le(y),
        y.le(z),
    ensures
        x.le(z),
{
    lemma_nonneg_sum(y.minus(x), z.minus(y));
    assert(y.minus(x).plus(z.minus(y)) == z.minus(x));
}

/// Adding the same to two numbers does not change which is the greater.
pub proof fn lemma_le_shift(x: Surd, y: Surd, by: Surd)
    ensures
        x.plus(by).le(y.plus(by)) == x.le(y),
{
    assert(y.plus(by).minus(x.plus(by)) == y.minus(x));
}

/// A cost as the search holds it: `whole + root·√2`, neither part
/// negative.
#[derive(Debug, Clone, Copy, PartialEq, Eq, Hash, Structural)]
pub struct Score {
    pub whole: u128,
    pub root: u128,
}

impl View for Score {
    type V = Surd;

    open spec fn view(&self) -> Surd {
        Surd { whole: self.whole as int, root: self.root as int }
    }
}

/// Whether `a ≥ b·√2` (if `at_least`) or `a ≤ b·√2` (if not), decided
/// without squaring: `a` against `b·√2` is as `2b - a` against
/// `(a - b)·√2` the other way round, and those numbers are smaller.
fn against_root_two(a: u128, b: u128, at_least: bool) -> (holds: bool)
    ensures
        holds == if at_least {
            a * a >= 2 * (b * b)
        } else {
            a * a <= 2 * (b * b)
        },
{
    let mut x = a;
    let mut y = b;
    let mut upward = at_least;
    loop
        invariant
            (if upward {
                x * x >= 2 * (y * y)
            } else {
                x * x <= 2 * (y * y)
            }) == (if at_least {
                a * a >= 2 * (b * b)
            } else {
                a * a <= 2 * (b * b)
            }),
        decreases x + y,
    {
        proof {
            if x <= y {
                lemma_square_grows(x as int, y as int);
            } else {
                lemma_square_grows(y as int, x as int);
            }
            assert(0 <= y * y) by (nonlinear_arith);
            if x - y >= y {
                lemma_square_grows(2 * y, x as int);
                assert((2 * y) * (2 * y) == 4 * (y * y)) by (nonlinear_arith);
            } else if y <= x {
                assert((2 * y - x) * (2 * y - x) - 2 * ((x - y) * (x - y)) == 2 * (y * y) - x * x)
                    by (nonlinear_arith);
            }
        }
        if upward {
            if y == 0 {
                return true;
            }
            if x < y {
                return false;
            }
            if x - y >= y {
                return true;
            }
        } else {
            if x <= y {
                return true;
            }
            if x - y >= y {
                assert(y > 0 ==> 4 * (y * y) > 2 * (y * y)) by (nonlinear_arith);
                return false;
            }
        }
        let further = y - (x - y);
        let nearer = x - y;
        x = further;
        y = nearer;
        upward = !upward;
    }
}

impl Score {
    /// Whether this cost is no greater than the other.
    pub fn no_more_than(self, other: Score) -> (holds: bool)
        ensures
            holds == self@.le(other@),
    {
        proof {
            reveal(Surd::nonneg);
            lemma_square_of_negative(other@.minus(self@).whole);
            lemma_square_of_negative(other@.minus(self@).root);
        }
        if other.whole >= self.whole {
            if other.root >= self.root {
                true
            } else {
                against_root_two(other.whole - self.whole, self.root - other.root, true)
            }
        } else {
            if other.root > self.root {
                against_root_two(self.whole - other.whole, other.root - self.root, false)
            } else {
                false
            }
        }
    }
}

} // verus!
