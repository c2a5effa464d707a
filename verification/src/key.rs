//! The scalar that coordinates are made of.

use vstd::prelude::*;

verus! {

/// A scalar usable as one coordinate of a point.
///
/// The trees need an order, sums and differences, the midpoint of two
/// scalars, squares and square roots. Every operation is total and has a
/// specification function of the same name with the suffix `_spec`; the
/// geometry of the trees is stated over those. What the trees rely on beyond
/// that is listed as proof obligations: the order is total and transitive, a
/// midpoint lies between the two scalars it was taken of, and sums of squares
/// have a root.
///
/// An implementation in unverified code gives each specification function
/// the body of the operation that it stands for, and leaves the bodies of the
/// obligations empty: they are then claims that nothing has proved.
pub trait SpatialKey: Copy {
    /// `self` is at most `other`.
    spec fn leq_spec(self, other: Self) -> bool;

    /// The sum of `self` and `rhs`.
    spec fn plus_spec(self, rhs: Self) -> Self;

    /// The difference of `self` and `rhs`.
    spec fn minus_spec(self, rhs: Self) -> Self;

    /// The scalar halfway between `self` and `other`.
    spec fn midpoint_spec(self, other: Self) -> Self;

    /// `self` times itself.
    spec fn square_spec(self) -> Self;

    /// Whether `self` has a square root.
    spec fn has_root(self) -> bool;

    /// The square root of `self`, meaningful where `self.has_root()`.
    spec fn sqrt_spec(self) -> Self;

    fn leq(&self, other: &Self) -> (r: bool)
        ensures
            r == self.leq_spec(*other),
    ;

    fn plus(self, rhs: Self) -> (r: Self)
        ensures
            r == self.plus_spec(rhs),
    ;

    fn minus(self, rhs: Self) -> (r: Self)
        ensures
            r == self.minus_spec(rhs),
    ;

    fn midpoint(self, other: Self) -> (r: Self)
        ensures
            r == self.midpoint_spec(other),
    ;

    fn square(self) -> (r: Self)
        ensures
            r == self.square_spec(),
    ;

    fn sqrt(self) -> (r: Self)
        requires
            self.has_root(),
        ensures
            r == self.sqrt_spec(),
    ;

    /// Any two scalars are comparable.
    proof fn lemma_leq_total(a: Self, b: Self)
        ensures
            a.leq_spec(b) || b.leq_spec(a),
    ;

    /// The order is transitive.
    proof fn lemma_leq_transitive(a: Self, b: Self, c: Self)
        requires
            a.leq_spec(b),
            b.leq_spec(c),
        ensures
            a.leq_spec(c),
    ;

    /// The midpoint of an ordered pair lies between its ends.
    proof fn lemma_midpoint_between(a: Self, b: Self)
        requires
            a.leq_spec(b),
        ensures
            a.leq_spec(a.midpoint_spec(b)),
            a.midpoint_spec(b).leq_spec(b),
    ;

    /// A square has a root.
    proof fn lemma_square_has_root(a: Self)
        ensures
            a.square_spec().has_root(),
    ;

    /// A sum of two scalars that have roots has a root.
    proof fn lemma_plus_has_root(a: Self, b: Self)
        requires
            a.has_root(),
            b.has_root(),
        ensures
            a.plus_spec(b).has_root(),
    ;
}

/// Whether `r` is the square root of `x` rounded up: the least natural number
/// whose square is at least `x`.
pub open spec fn is_root_up(x: int, r: int) -> bool {
    &&& 0 <= r
    &&& x <= r * r
    &&& r > 0 ==> (r - 1) * (r - 1) < x
}

/// The square root of `x` rounded up.
pub open spec fn root_up(x: int) -> int {
    choose|r: int| is_root_up(x, r)
}

/// `x` brought into the range of `i64`.
pub open spec fn clamp_i64(x: int) -> i64 {
    if x < i64::MIN {
        i64::MIN
    } else if x > i64::MAX {
        i64::MAX
    } else {
        x as i64
    }
}

/// At most one number is the root of `x` rounded up.
pub proof fn lemma_root_up_unique(x: int, r1: int, r2: int)
    requires
        is_root_up(x, r1),
        is_root_up(x, r2),
    ensures
        r1 == r2,
{
    if r1 < r2 {
        assert(r1 * r1 <= (r2 - 1) * (r2 - 1)) by (nonlinear_arith)
            requires
                0 <= r1 <= r2 - 1,
        ;
    } else if r2 < r1 {
        assert(r2 * r2 <= (r1 - 1) * (r1 - 1)) by (nonlinear_arith)
            requires
                0 <= r2 <= r1 - 1,
        ;
    }
}

/// Every number has a root rounded up, and `root_up` is it.
pub proof fn lemma_root_up_exists(x: int)
    ensures
        is_root_up(x, root_up(x)),
    decreases x,
{
    if x <= 0 {
        assert(is_root_up(x, 0));
    } else {
        lemma_root_up_exists(x - 1);
        let r = root_up(x - 1);
        assert((r + 1) * (r + 1) == r * r + 2 * r + 1) by (nonlinear_arith);
        if x <= r * r {
            assert(is_root_up(x, r));
        } else {
            assert(is_root_up(x, r + 1));
        }
    }
}

/// The root of `x` rounded up is at most a bound that is not negative
/// exactly where `x` is at most the square of the bound.
pub proof fn lemma_root_up_at_most(x: int, bound: int)
    requires
        0 <= bound,
    ensures
        root_up(x) <= bound <==> x <= bound * bound,
{
    lemma_root_up_exists(x);
    let r = root_up(x);
    if r <= bound {
        assert(r * r <= bound * bound) by (nonlinear_arith)
            requires
                0 <= r <= bound,
        ;
    } else {
        assert(bound * bound <= (r - 1) * (r - 1)) by (nonlinear_arith)
            requires
                0 <= bound <= r - 1,
        ;
    }
}

/// `num::integer::average_floor` on `i64`: the mean of the two arguments,
/// rounded towards negative infinity, computed without overflow.
#[verifier::external_body]
fn average_floor(a: i64, b: i64) -> (r: i64)
    ensures
        r == (a + b) / 2,
{
    num::integer::average_floor(a, b)
}

/// `num::checked_pow` on `i64`: `base` raised to `exp`, or `None` where that
/// power does not fit in an `i64`.
#[verifier::external_body]
fn checked_pow(base: i64, exp: usize) -> (r: Option<i64>)
    ensures
        r == (if i64::MIN <= vstd::arithmetic::power::pow(base as int, exp as nat) <= i64::MAX {
            Some(vstd::arithmetic::power::pow(base as int, exp as nat) as i64)
        } else {
            None
        }),
{
    num::checked_pow(base, exp)
}

/// `num::integer::sqrt` on `i64`: the square root of a number that is not
/// negative, rounded down.
#[verifier::external_body]
fn floor_sqrt(x: i64) -> (r: i64)
    requires
        x >= 0,
    ensures
        0 <= r,
        r * r <= x < (r + 1) * (r + 1),
{
    num::integer::sqrt(x)
}

/// Integer coordinates. Sums, differences and squares saturate at the ends of
/// the range of `i64`; the midpoint is exact and rounded down; the square
/// root is rounded up, so that comparing it with an integer radius decides
/// exactly whether a Euclidean distance is within that radius.
impl SpatialKey for i64 {
    open spec fn leq_spec(self, other: Self) -> bool {
        self <= other
    }

    open spec fn plus_spec(self, rhs: Self) -> Self {
        clamp_i64(self + rhs)
    }

    open spec fn minus_spec(self, rhs: Self) -> Self {
        clamp_i64(self - rhs)
    }

    open spec fn midpoint_spec(self, other: Self) -> Self {
        ((self + other) / 2) as i64
    }

    open spec fn square_spec(self) -> Self {
        clamp_i64(self * self)
    }

    open spec fn has_root(self) -> bool {
        self >= 0
    }

    open spec fn sqrt_spec(self) -> Self {
        root_up(self as int) as i64
    }

    fn leq(&self, other: &Self) -> (r: bool) {
        *self <= *other
    }

    fn plus(self, rhs: Self) -> (r: Self) {
        match self.checked_add(rhs) {
            Some(sum) => sum,
            None => if rhs < 0 { i64::MIN } else { i64::MAX },
        }
    }

    fn minus(self, rhs: Self) -> (r: Self) {
        match self.checked_sub(rhs) {
            Some(difference) => difference,
            None => if rhs < 0 { i64::MAX } else { i64::MIN },
        }
    }

    fn midpoint(self, other: Self) -> (r: Self) {
        average_floor(self, other)
    }

    fn square(self) -> (r: Self) {
        proof {
            vstd::arithmetic::power::lemma_square_is_pow2(self as int);
            assert(self * self >= 0) by (nonlinear_arith);
        }
        match checked_pow(self, 2) {
            Some(product) => product,
            None => i64::MAX,
        }
    }

    fn sqrt(self) -> (r: Self) {
        let down = floor_sqrt(self);
        assert(down <= 3037000499) by (nonlinear_arith)
            requires
                0 <= down,
                down * down <= i64::MAX,
        ;
        assert(down * down <= 3037000499 * 3037000499) by (nonlinear_arith)
            requires
                0 <= down <= 3037000499,
        ;
        let up = if down * down == self { down } else { down + 1 };
        proof {
            assert(is_root_up(self as int, up as int)) by (nonlinear_arith)
                requires
                    0 <= down,
                    down * down <= self < (down + 1) * (down + 1),
                    up as int == (if down * down == self { down as int } else { down + 1 }),
            ;
            lemma_root_up_unique(self as int, up as int, root_up(self as int));
        }
        up
    }

    proof fn lemma_leq_total(a: Self, b: Self) {
    }

    proof fn lemma_leq_transitive(a: Self, b: Self, c: Self) {
    }

    proof fn lemma_midpoint_between(a: Self, b: Self) {
    }

    proof fn lemma_square_has_root(a: Self) {
        assert(a * a >= 0) by (nonlinear_arith);
    }

    proof fn lemma_plus_has_root(a: Self, b: Self) {
    }
}

} // verus!
