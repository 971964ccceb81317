use vstd::prelude::*;

verus! {

/// Number of fixed-point units in one coordinate unit.
pub const ONE: i64 = 65536;

/// A complex number in fixed point: `re` and `im` count units of `1 / ONE`.
#[derive(Copy, Clone, Debug, PartialEq, Eq, Structural)]
pub struct Complex {
    pub re: i64,
    pub im: i64,
}

impl View for Complex {
    type V = (int, int);

    open spec fn view(&self) -> (int, int) {
        (self.re as int, self.im as int)
    }
}

/// The values of a sequence of complex numbers.
pub open spec fn views(s: Seq<Complex>) -> Seq<(int, int)> {
    s.map_values(|c: Complex| c@)
}

/// Division that rounds toward zero, as machine division of signed integers does.
pub open spec fn div_trunc(x: int, d: int) -> int {
    if x >= 0 {
        x / d
    } else {
        -((-x) / d)
    }
}

/// Sum of two complex numbers given as (real, imaginary) pairs.
pub open spec fn cplus(a: (int, int), b: (int, int)) -> (int, int) {
    (a.0 + b.0, a.1 + b.1)
}

/// Fixed-point product of two complex numbers, each part rounded toward zero.
pub open spec fn cmul(a: (int, int), b: (int, int)) -> (int, int) {
    (
        div_trunc(a.0 * b.0 - a.1 * b.1, ONE as int),
        div_trunc(a.0 * b.1 + a.1 * b.0, ONE as int),
    )
}

/// Squared length of a complex number.
pub open spec fn norm_sq(c: (int, int)) -> int {
    c.0 * c.0 + c.1 * c.1
}

/// `a` lies in the closed unit disc of the fixed-point plane.
pub open spec fn in_unit_disc(a: (int, int)) -> bool {
    within(a, ONE as int) && norm_sq(a) <= ONE * ONE
}

/// `a` lies on the unit circle up to the rounding of a fixed-point root of unity:
/// in the unit disc, and at least `ONE - 2` from the origin.
pub open spec fn near_unit_circle(a: (int, int)) -> bool {
    in_unit_disc(a) && (ONE - 2) * (ONE - 2) <= norm_sq(a)
}

/// Both parts of `a` lie in `[-bound, bound]`.
pub open spec fn within(a: (int, int), bound: int) -> bool {
    -bound <= a.0 <= bound && -bound <= a.1 <= bound
}

/// A product of two bounded integers is bounded by the product of the bounds.
pub proof fn lemma_mul_within(x: int, y: int, bx: int, by: int)
    requires
        -bx <= x <= bx,
        -by <= y <= by,
    ensures
        -(bx * by) <= x * y <= bx * by,
{
    if x >= 0 {
        if y >= 0 {
            assert(0 <= x * y <= bx * by) by (nonlinear_arith)
                requires
                    0 <= x <= bx,
                    0 <= y <= by,
            ;
        } else {
            assert(-(bx * by) <= x * y <= 0) by (nonlinear_arith)
                requires
                    0 <= x <= bx,
                    -by <= y < 0,
            ;
        }
    } else {
        if y >= 0 {
            assert(-(bx * by) <= x * y <= 0) by (nonlinear_arith)
                requires
                    -bx <= x < 0,
                    0 <= y <= by,
            ;
        } else {
            assert(0 <= x * y <= bx * by) by (nonlinear_arith)
                requires
                    -bx <= x < 0,
                    -by <= y < 0,
            ;
        }
    }
}

/// Dividing a value within `d * b` by `d` gives a value within `b`.
pub proof fn lemma_div_trunc_within(x: int, d: int, b: int)
    requires
        d > 0,
        b >= 0,
        -(d * b) <= x <= d * b,
    ensures
        -b <= div_trunc(x, d) <= b,
{
    let ax = if x >= 0 {
        x
    } else {
        -x
    };
    vstd::arithmetic::div_mod::lemma_div_is_ordered(ax, d * b, d);
    vstd::arithmetic::div_mod::lemma_div_by_multiple(b, d);
    vstd::arithmetic::div_mod::lemma_div_pos_is_pos(ax, d);
    assert(b * d == d * b) by (nonlinear_arith);
}

/// The product of a value within `b` by one within `ONE` is within `2 * b`.
pub proof fn lemma_cmul_within(a: (int, int), w: (int, int), b: int)
    requires
        b >= 0,
        within(a, b),
        within(w, ONE as int),
    ensures
        within(cmul(a, w), 2 * b),
{
    let one = ONE as int;
    lemma_mul_within(a.0, w.0, b, one);
    lemma_mul_within(a.1, w.1, b, one);
    lemma_mul_within(a.0, w.1, b, one);
    lemma_mul_within(a.1, w.0, b, one);
    assert(b * one + b * one == one * (2 * b)) by (nonlinear_arith);
    lemma_div_trunc_within(a.0 * w.0 - a.1 * w.1, one, 2 * b);
    lemma_div_trunc_within(a.0 * w.1 + a.1 * w.0, one, 2 * b);
}

/// Machine division rounding toward zero, for a positive divisor.
pub fn div_toward_zero(x: i128, d: i128) -> (q: i128)
    requires
        d > 0,
        x > i128::MIN,
    ensures
        q == div_trunc(x as int, d as int),
{
    if x >= 0 {
        x / d
    } else {
        let q = (-x) / d;
        proof {
            vstd::arithmetic::div_mod::lemma_div_pos_is_pos(-x, d as int);
            vstd::arithmetic::div_mod::lemma_div_is_ordered_by_denominator(-x, 1, d as int);
        }
        -q
    }
}

impl Complex {
    pub fn new(re: i64, im: i64) -> (r: Complex)
        ensures
            r@ == (re as int, im as int),
    {
        Complex { re, im }
    }

    pub fn zero() -> (r: Complex)
        ensures
            r@ == (0int, 0int),
    {
        Complex { re: 0, im: 0 }
    }

    /// Exact sum; the caller keeps both parts in range.
    pub fn plus(self, other: Complex) -> (r: Complex)
        requires
            i64::MIN <= self.re + other.re <= i64::MAX,
            i64::MIN <= self.im + other.im <= i64::MAX,
        ensures
            r@ == cplus(self@, other@),
    {
        Complex { re: self.re + other.re, im: self.im + other.im }
    }

    /// Fixed-point product by a value whose parts lie within `ONE`, such as a point
    /// of the unit circle, each part rounded toward zero.
    pub fn times(self, w: Complex) -> (r: Complex)
        requires
            within(self@, 0x1000_0000_0000),
            within(w@, ONE as int),
        ensures
            r@ == cmul(self@, w@),
    {
        proof {
            let b: int = 0x1000_0000_0000;
            lemma_cmul_within(self@, w@, b);
            lemma_mul_within(self.re as int, w.re as int, b, ONE as int);
            lemma_mul_within(self.im as int, w.im as int, b, ONE as int);
            lemma_mul_within(self.re as int, w.im as int, b, ONE as int);
            lemma_mul_within(self.im as int, w.re as int, b, ONE as int);
        }
        let x = (self.re as i128) * (w.re as i128) - (self.im as i128) * (w.im as i128);
        let y = (self.re as i128) * (w.im as i128) + (self.im as i128) * (w.re as i128);
        let re = div_toward_zero(x, ONE as i128);
        let im = div_toward_zero(y, ONE as i128);
        Complex { re: re as i64, im: im as i64 }
    }
}

} // verus!
