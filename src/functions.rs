use vstd::prelude::*;
use crate::complex::{Complex, ONE, within};

verus! {

/// Width of the square that every curve fits in, in coordinate units.
pub const FULL_SPACE: i64 = 2000;

/// Half of `FULL_SPACE`: every coordinate lies in `[-HALF_SPACE, HALF_SPACE]`.
pub const HALF_SPACE: i64 = 1000;

/// Largest number of samples per period that the curves are evaluated at.
pub const MAX_SAMPLES: u64 = 65536;

/// The closed set of periodic curves that the series can approximate.
#[derive(Copy, Clone, Debug, PartialEq, Eq, Structural)]
pub enum Function {
    Step,
    Tent,
}

/// Horizontal coordinate shared by every curve at time `t / m`: a sweep from
/// `-HALF_SPACE` to `HALF_SPACE`, rounded down.
pub open spec fn sweep(t: int, m: int) -> int {
    (FULL_SPACE * ONE * t) / m - HALF_SPACE * ONE
}

/// The step curve at time `t / m`.
pub open spec fn step_spec(t: int, m: int) -> (int, int) {
    let y = if 4 * t < m {
        0
    } else if 2 * t < m {
        HALF_SPACE * ONE
    } else if 4 * t < 3 * m {
        -HALF_SPACE * ONE
    } else {
        0
    };
    (sweep(t, m), y)
}

/// The tent curve at time `t / m`: up from the bottom to the top, then back down.
pub open spec fn tent_spec(t: int, m: int) -> (int, int) {
    let rise = (2 * FULL_SPACE * ONE * t) / m;
    let y = if 2 * t < m {
        rise - HALF_SPACE * ONE
    } else {
        3 * HALF_SPACE * ONE - rise
    };
    (sweep(t, m), y)
}

impl Function {
    /// The variant that follows `self` in the cycle of all variants.
    pub open spec fn next_spec(self) -> Function {
        match self {
            Function::Step => Function::Tent,
            Function::Tent => Function::Step,
        }
    }

    /// The value of the curve at time `t / m`.
    pub open spec fn eval(self, t: int, m: int) -> (int, int) {
        match self {
            Function::Step => step_spec(t, m),
            Function::Tent => tent_spec(t, m),
        }
    }

    /// The curve sampled at times `0 / m, 1 / m, ..., (m - 1) / m`.
    pub open spec fn samples_spec(self, m: int) -> Seq<(int, int)> {
        Seq::new(m as nat, |k: int| self.eval(k, m))
    }

    /// Cycles to the next variant.
    pub fn next(self) -> (r: Function)
        ensures
            r == self.next_spec(),
            r != self,
    {
        match self {
            Function::Step => Function::Tent,
            Function::Tent => Function::Step,
        }
    }

    /// Evaluates the curve at time `t / m`.
    pub fn execute(self, t: u64, m: u64) -> (r: Complex)
        requires
            1 <= m <= MAX_SAMPLES,
            t <= m,
        ensures
            r@ == self.eval(t as int, m as int),
            within(r@, HALF_SPACE * ONE),
    {
        match self {
            Function::Step => step(t, m),
            Function::Tent => tent(t, m),
        }
    }

    /// The curve at each of `m` evenly spaced times of one period.
    pub fn samples(self, m: u64) -> (r: Vec<Complex>)
        requires
            1 <= m <= MAX_SAMPLES,
        ensures
            r@.len() == m,
            forall|k: int| 0 <= k < m ==> (#[trigger] r@[k])@ == self.eval(k, m as int),
            forall|k: int| 0 <= k < m ==> within((#[trigger] r@[k])@, HALF_SPACE * ONE),
    {
        let mut r: Vec<Complex> = Vec::new();
        let mut k: u64 = 0;
        while k < m
            invariant
                1 <= m <= MAX_SAMPLES,
                k <= m,
                r@.len() == k,
                forall|j: int| 0 <= j < k ==> (#[trigger] r@[j])@ == self.eval(j, m as int),
                forall|j: int| 0 <= j < k ==> within((#[trigger] r@[j])@, HALF_SPACE * ONE),
            decreases m - k,
        {
            r.push(self.execute(k, m));
            k = k + 1;
        }
        r
    }
}

/// `(c * t) / m` lies in `[0, c]` when `0 <= t <= m`.
proof fn lemma_scaled_fraction(c: int, t: int, m: int)
    requires
        c >= 0,
        0 <= t <= m,
        m >= 1,
    ensures
        0 <= (c * t) / m <= c,
        2 * t >= m ==> (c * t) / m >= c / 2,
        2 * t <= m && c % 2 == 0 ==> (c * t) / m <= c / 2,
{
    vstd::arithmetic::mul::lemma_mul_inequality(t, m, c);
    assert(t * c == c * t && m * c == c * m) by (nonlinear_arith);
    vstd::arithmetic::div_mod::lemma_div_is_ordered(c * t, c * m, m);
    vstd::arithmetic::div_mod::lemma_div_by_multiple(c, m);
    assert(c * m / m == c) by {
        assert(c * m == m * c) by (nonlinear_arith);
        vstd::arithmetic::div_mod::lemma_div_multiples_vanish(c, m);
    }
    assert(c * t >= 0) by (nonlinear_arith)
        requires
            c >= 0,
            t >= 0,
    ;
    vstd::arithmetic::div_mod::lemma_div_pos_is_pos(c * t, m);
    if 2 * t <= m && c % 2 == 0 {
        let h = c / 2;
        assert(c * t <= h * m) by (nonlinear_arith)
            requires
                2 * t <= m,
                c == 2 * h,
                h >= 0,
        ;
        vstd::arithmetic::div_mod::lemma_div_is_ordered(c * t, h * m, m);
        vstd::arithmetic::div_mod::lemma_div_by_multiple(h, m);
    }
    if 2 * t >= m {
        assert(2 * (c * t) >= c * m) by (nonlinear_arith)
            requires
                2 * t >= m,
                c >= 0,
        ;
        assert((c * t) / m >= c / 2) by (nonlinear_arith)
            requires
                2 * (c * t) >= c * m,
                m >= 1,
                c >= 0,
        ;
    }
}

/// The products of the curve formulas fit in an `i64`.
proof fn lemma_product_fits(t: int)
    requires
        0 <= t <= MAX_SAMPLES,
    ensures
        0 <= 2 * FULL_SPACE * ONE * t <= 2 * FULL_SPACE * ONE * MAX_SAMPLES,
        0 <= FULL_SPACE * ONE * t <= FULL_SPACE * ONE * MAX_SAMPLES,
{
    assert(0 <= 4000 * 65536 * t <= 4000 * 65536 * 65536) by (nonlinear_arith)
        requires
            0 <= t <= 65536,
    ;
}

/// The step curve: a sweep across whose height jumps up, then down, then back.
pub fn step(t: u64, m: u64) -> (r: Complex)
    requires
        1 <= m <= MAX_SAMPLES,
        t <= m,
    ensures
        r@ == step_spec(t as int, m as int),
        within(r@, HALF_SPACE * ONE),
{
    proof {
        lemma_scaled_fraction(FULL_SPACE * ONE, t as int, m as int);
        lemma_product_fits(t as int);
    }
    let x = (FULL_SPACE * ONE * (t as i64)) / (m as i64) - HALF_SPACE * ONE;
    let y = if 4 * t < m {
        0
    } else if 2 * t < m {
        HALF_SPACE * ONE
    } else if 4 * t < 3 * m {
        -HALF_SPACE * ONE
    } else {
        0
    };
    Complex { re: x, im: y }
}

/// The tent curve: a sweep across whose height rises to the top and falls back.
pub fn tent(t: u64, m: u64) -> (r: Complex)
    requires
        1 <= m <= MAX_SAMPLES,
        t <= m,
    ensures
        r@ == tent_spec(t as int, m as int),
        within(r@, HALF_SPACE * ONE),
{
    proof {
        lemma_scaled_fraction(FULL_SPACE * ONE, t as int, m as int);
        lemma_scaled_fraction(2 * FULL_SPACE * ONE, t as int, m as int);
        lemma_product_fits(t as int);
    }
    let x = (FULL_SPACE * ONE * (t as i64)) / (m as i64) - HALF_SPACE * ONE;
    let rise = (2 * FULL_SPACE * ONE * (t as i64)) / (m as i64);
    let y = if 2 * t < m {
        rise - HALF_SPACE * ONE
    } else {
        3 * HALF_SPACE * ONE - rise
    };
    Complex { re: x, im: y }
}

} // verus!
