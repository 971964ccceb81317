use vstd::prelude::*;
use crate::complex::{
    Complex, ONE, cmul, cplus, views, in_unit_disc, near_unit_circle, norm_sq, div_trunc, div_toward_zero, within, lemma_cmul_within,
    lemma_div_trunc_within, lemma_mul_within,
};
use crate::functions::MAX_SAMPLES;
use rayon::iter::{IndexedParallelIterator, IntoParallelIterator, ParallelIterator};

verus! {

/// Bound on the indices of a series that the library evaluates; a coefficient set
/// computed from a table stays below `MAX_SAMPLES / 2`, within it.
pub const MAX_ORDER: isize = 32768;

/// Bound on both parts of every sample that a coefficient is computed from.
pub const MAX_VALUE: i64 = 0x4000_0000;

/// Bound on both parts of every coefficient of a series.
pub const MAX_COEFF: i64 = 0x8000_0000;

/// The points `e^(2 pi i j / m)` of the unit circle for `j` in `0..m`, in fixed
/// point, where `m` is the number of samples per period. The table is checked to
/// start at one, to stay near the unit circle, and to be, up to rounding, the
/// powers of its step entry coming back to one after `m` steps; which of the
/// `m`th roots of unity the step entry is, the caller chooses. Every contract over
/// a table holds for whatever entries pass those checks.
pub struct RootTable {
    roots: Vec<Complex>,
}

impl View for RootTable {
    type V = Seq<Complex>;

    closed spec fn view(&self) -> Seq<Complex> {
        self.roots@
    }
}

/// Largest difference, in units of each part, between an entry of a table of roots
/// and the entry before it times the step entry.
pub const ROOT_TOLERANCE: i64 = 8;

/// The entry after entry `j` of a table of `m` roots, wrapping to the first.
pub open spec fn next_root(j: int, m: int) -> int {
    if j + 1 == m {
        0
    } else {
        j + 1
    }
}

/// Entry `j` times the step entry `roots[next_root(0, m)]` lands within
/// `ROOT_TOLERANCE` of the next entry.
pub open spec fn follows_step(roots: Seq<Complex>, j: int) -> bool {
    let m = roots.len() as int;
    let p = cmul(roots[j]@, roots[next_root(0, m)]@);
    let w = roots[next_root(j, m)]@;
    within((w.0 - p.0, w.1 - p.1), ROOT_TOLERANCE as int)
}

/// A table of roots of unity has between one and `MAX_SAMPLES` entries; the
/// first is exactly one, every entry lies near the unit circle (of length between
/// `ONE - 2` and `ONE`), and up to rounding the entries are the successive powers
/// of the step entry, the last power coming back to one.
pub open spec fn roots_in_range(roots: Seq<Complex>) -> bool {
    &&& 1 <= roots.len() <= MAX_SAMPLES
    &&& roots[0]@ == (ONE as int, 0int)
    &&& forall|j: int| 0 <= j < roots.len() ==> near_unit_circle((#[trigger] roots[j])@)
    &&& forall|j: int| 0 <= j < roots.len() ==> #[trigger] follows_step(roots, j)
}

/// An order that a table of `m` roots can resolve: at least one, and below `m / 2`,
/// so that the indices `-order..=order` fall on distinct frequencies.
pub open spec fn order_fits(order: int, m: int) -> bool {
    1 <= order && 2 * order < m
}

/// Index into a table of `m` roots of unity of `e^(2 pi i n t / m)`.
pub open spec fn phase(n: int, t: int, m: int) -> int {
    (n * t) % m
}

/// The term `c e^(2 pi i n t / m)` of a series at time `t / m`.
pub open spec fn term_spec(c: (int, int), n: int, t: int, roots: Seq<Complex>) -> (int, int) {
    cmul(c, roots[phase(n, t, roots.len() as int)]@)
}

/// Exact product of two complex numbers, before fixed-point scaling.
pub open spec fn raw_product(a: (int, int), b: (int, int)) -> (int, int) {
    (a.0 * b.0 - a.1 * b.1, a.0 * b.1 + a.1 * b.0)
}

/// Sum over the first `k` samples of `sample_k e^(-2 pi i n k / m)`, unscaled.
pub open spec fn dft_sum(samples: Seq<(int, int)>, roots: Seq<Complex>, n: int, k: nat) -> (int, int)
    decreases k,
{
    if k == 0 {
        (0, 0)
    } else {
        cplus(
            dft_sum(samples, roots, n, (k - 1) as nat),
            raw_product(samples[k - 1], roots[phase(-n, k - 1, roots.len() as int)]@),
        )
    }
}

/// The `n`th Fourier coefficient of a curve given by `m` evenly spaced samples: the
/// mean over one period of `f(t) e^(-2 pi i n t)`, each part rounded toward zero.
/// With `m` samples the indices alias: `n + m` gives the same coefficient as `n`,
/// so only orders below `m / 2` give distinct frequencies.
pub open spec fn coefficient_spec(samples: Seq<(int, int)>, roots: Seq<Complex>, n: int) -> (int, int) {
    let s = dft_sum(samples, roots, n, roots.len());
    let d = ONE * roots.len();
    (div_trunc(s.0, d), div_trunc(s.1, d))
}

/// The coefficient set of order `order` of a curve: the pairs `(n, c_n)` for `n`
/// from `-order` to `order`, in increasing order of `n`.
pub open spec fn is_coefficient_set(
    coeffs: Seq<(isize, Complex)>,
    samples: Seq<(int, int)>,
    roots: Seq<Complex>,
    order: int,
) -> bool {
    &&& coeffs.len() == 2 * order + 1
    &&& forall|i: int|
        0 <= i < coeffs.len() ==> (#[trigger] coeffs[i]).0 == i - order && coeffs[i].1@
            == coefficient_spec(samples, roots, i - order)
}

/// The indices that a coefficient set holds.
pub open spec fn indices(coeffs: Seq<(isize, Complex)>) -> Set<int> {
    Set::new(|n: int| exists|i: int| 0 <= i < coeffs.len() && (#[trigger] coeffs[i]).0 == n)
}

/// Indices and coefficients that a series can be evaluated on without overflow.
pub open spec fn series_in_range(coeffs: Seq<(isize, Complex)>) -> bool {
    &&& coeffs.len() <= 2 * MAX_ORDER + 1
    &&& forall|i: int|
        0 <= i < coeffs.len() ==> -MAX_ORDER <= (#[trigger] coeffs[i]).0 <= MAX_ORDER
            && within(coeffs[i].1@, MAX_COEFF as int)
}

/// Sum of the first `k` terms of a series at time `t / m`.
pub open spec fn chain_sum(coeffs: Seq<(isize, Complex)>, t: int, roots: Seq<Complex>, k: nat) -> (int, int)
    decreases k,
{
    if k == 0 {
        (0, 0)
    } else {
        cplus(
            chain_sum(coeffs, t, roots, (k - 1) as nat),
            term_spec(coeffs[k - 1].1@, coeffs[k - 1].0 as int, t, roots),
        )
    }
}

/// The value of a series at time `t / m`: the sum of all its terms.
pub open spec fn total_spec(coeffs: Seq<(isize, Complex)>, t: int, roots: Seq<Complex>) -> (int, int) {
    chain_sum(coeffs, t, roots, coeffs.len())
}

/// The tips of the chain of rotating vectors: entry `i` is the sum of the terms
/// `0..=i`, in the order of the series.
pub open spec fn partial_chain_spec(coeffs: Seq<(isize, Complex)>, t: int, roots: Seq<Complex>) -> Seq<(int, int)> {
    Seq::new(coeffs.len(), |i: int| chain_sum(coeffs, t, roots, (i + 1) as nat))
}

impl RootTable {
    pub open spec fn wf(&self) -> bool {
        roots_in_range(self@)
    }

    /// Takes the points `e^(2 pi i j / m)` for `j` in `0..m` in fixed point, each
    /// part rounded toward zero so that every point stays in the unit disc;
    /// rejects a table that is empty, longer than `MAX_SAMPLES`, whose first entry
    /// is not one, that holds a point of length above `ONE` or below `ONE - 2`, or
    /// whose entries are not, up to `ROOT_TOLERANCE`, the powers of the step entry.
    pub fn new(roots: Vec<Complex>) -> (r: Option<RootTable>)
        ensures
            r.is_some() <==> roots_in_range(roots@),
            r matches Some(t) ==> t@ == roots@ && t.wf(),
    {
        if roots.len() == 0 || roots.len() > MAX_SAMPLES as usize {
            return None;
        }
        if roots[0].re != ONE || roots[0].im != 0 {
            return None;
        }
        let mut j: usize = 0;
        while j < roots.len()
            invariant
                j <= roots@.len(),
                roots@[0]@ == (ONE as int, 0int),
                forall|i: int| 0 <= i < j ==> near_unit_circle((#[trigger] roots@[i])@),
            decreases roots@.len() - j,
        {
            let w = roots[j];
            if w.re < -ONE || w.re > ONE || w.im < -ONE || w.im > ONE {
                proof {
                    assert(!near_unit_circle(roots@[j as int]@));
                }
                return None;
            }
            let x = w.re as i128;
            let y = w.im as i128;
            proof {
                lemma_mul_within(x as int, x as int, ONE as int, ONE as int);
                lemma_mul_within(y as int, y as int, ONE as int, ONE as int);
            }
            let n2 = x * x + y * y;
            let outer = (ONE as i128) * (ONE as i128);
            let inner_side = ONE as i128 - 2;
            assert(inner_side * inner_side == (ONE - 2) * (ONE - 2));
            let inner = inner_side * inner_side;
            if n2 > outer || n2 < inner {
                proof {
                    assert(!near_unit_circle(roots@[j as int]@));
                }
                return None;
            }
            j = j + 1;
        }
        let m = roots.len();
        let step = roots[if m == 1 {
            0
        } else {
            1
        }];
        let mut j: usize = 0;
        while j < m
            invariant
                m == roots@.len(),
                1 <= m <= MAX_SAMPLES,
                j <= m,
                roots@[0]@ == (ONE as int, 0int),
                forall|i: int| 0 <= i < m ==> near_unit_circle((#[trigger] roots@[i])@),
                step == roots@[next_root(0, m as int)],
                forall|i: int| 0 <= i < j ==> #[trigger] follows_step(roots@, i),
            decreases m - j,
        {
            let next = roots[if j + 1 == m {
                0
            } else {
                j + 1
            }];
            let p = roots[j].times(step);
            proof {
                lemma_cmul_within(roots@[j as int]@, step@, ONE as int);
            }
            let dx = next.re - p.re;
            let dy = next.im - p.im;
            if dx < -ROOT_TOLERANCE || dx > ROOT_TOLERANCE || dy < -ROOT_TOLERANCE || dy > ROOT_TOLERANCE {
                proof {
                    assert(!follows_step(roots@, j as int));
                }
                return None;
            }
            j = j + 1;
        }
        Some(RootTable { roots })
    }

    /// Number of samples per period.
    pub fn len(&self) -> (r: u64)
        requires
            self.wf(),
        ensures
            r == self@.len(),
    {
        self.roots.len() as u64
    }

    /// The root `e^(2 pi i j / m)`.
    pub fn root(&self, j: usize) -> (r: Complex)
        requires
            j < self@.len(),
        ensures
            r == self@[j as int],
    {
        self.roots[j]
    }
}

/// `(-a) % m` written with the remainder of `a`.
pub proof fn lemma_neg_mod(a: int, m: int)
    requires
        a >= 0,
        m > 0,
    ensures
        (-a) % m == (if a % m == 0 {
            0
        } else {
            m - a % m
        }),
{
    vstd::arithmetic::div_mod::lemma_fundamental_div_mod(a, m);
    vstd::arithmetic::div_mod::lemma_mod_bound(a, m);
    let q = a / m;
    let r = a % m;
    if r == 0 {
        assert(-a == (-q) * m + 0) by (nonlinear_arith)
            requires
                a == m * q + r,
                r == 0,
        ;
        vstd::arithmetic::div_mod::lemma_fundamental_div_mod_converse_mod(-a, m, -q, 0);
    } else {
        assert(-a == (-q - 1) * m + (m - r)) by (nonlinear_arith)
            requires
                a == m * q + r,
        ;
        vstd::arithmetic::div_mod::lemma_fundamental_div_mod_converse_mod(-a, m, -q - 1, m - r);
    }
}

/// The entry of a table of `m` roots of unity that holds `e^(2 pi i n t / m)`.
pub fn phase_index(n: isize, t: u64, m: u64) -> (r: usize)
    requires
        1 <= m <= MAX_SAMPLES,
        t <= m,
        -MAX_ORDER <= n <= MAX_ORDER,
    ensures
        r == phase(n as int, t as int, m as int),
        r < m,
{
    let a: u64 = if n >= 0 {
        n as u64
    } else {
        (-n) as u64
    };
    let am = a % m;
    let nm: u64 = if n >= 0 || am == 0 {
        am
    } else {
        m - am
    };
    proof {
        if n < 0 {
            lemma_neg_mod(a as int, m as int);
        }
        assert(nm == (n as int) % (m as int));
        vstd::arithmetic::div_mod::lemma_mul_mod_noop_left(n as int, t as int, m as int);
        assert(nm * t <= 65536 * 65536) by (nonlinear_arith)
            requires
                nm < 65536,
                t <= 65536,
        ;
    }
    let r = (nm * t) % m;
    r as usize
}

/// Bound on `dft_sum` over samples within `MAX_VALUE` and roots within `ONE`.
proof fn lemma_dft_sum_within(samples: Seq<(int, int)>, roots: Seq<Complex>, n: int, k: nat)
    requires
        roots_in_range(roots),
        k <= samples.len(),
        forall|j: int| 0 <= j < samples.len() ==> within(#[trigger] samples[j], MAX_VALUE as int),
    ensures
        within(dft_sum(samples, roots, n, k), k as int * 0x8000_0000_0000),
    decreases k,
{
    if k > 0 {
        lemma_dft_sum_within(samples, roots, n, (k - 1) as nat);
        lemma_raw_product_within(samples[k - 1], roots[phase(-n, k - 1, roots.len() as int)]@);
        vstd::arithmetic::div_mod::lemma_mod_bound(-n * (k - 1), roots.len() as int);
    }
}

/// A sample within `MAX_VALUE` times a root within `ONE` is within `MAX_INTEGRAND`.
proof fn lemma_raw_product_within(s: (int, int), w: (int, int))
    requires
        within(s, MAX_VALUE as int),
        within(w, ONE as int),
    ensures
        within(raw_product(s, w), 0x8000_0000_0000),
{
    lemma_mul_within(s.0, w.0, MAX_VALUE as int, ONE as int);
    lemma_mul_within(s.1, w.1, MAX_VALUE as int, ONE as int);
    lemma_mul_within(s.0, w.1, MAX_VALUE as int, ONE as int);
    lemma_mul_within(s.1, w.0, MAX_VALUE as int, ONE as int);
}

/// Bound on each integrand value handed to `integrate`.
pub const MAX_INTEGRAND: i128 = 0x8000_0000_0000;

/// Sum of the first `k` values.
pub open spec fn sum_of(values: Seq<i128>, k: nat) -> int
    decreases k,
{
    if k == 0 {
        0
    } else {
        sum_of(values, (k - 1) as nat) + values[k - 1]
    }
}

/// A sum of `k` values within `MAX_INTEGRAND` is within `k * MAX_INTEGRAND`.
proof fn lemma_sum_of_within(values: Seq<i128>, k: nat)
    requires
        k <= values.len(),
        forall|j: int| 0 <= j < values.len() ==> -MAX_INTEGRAND <= #[trigger] values[j] <= MAX_INTEGRAND,
    ensures
        -(k * MAX_INTEGRAND) <= sum_of(values, k) <= k * MAX_INTEGRAND,
    decreases k,
{
    if k > 0 {
        lemma_sum_of_within(values, (k - 1) as nat);
    }
}

/// Integral over one period of a periodic integrand, sampled at the `m` times
/// `j / m` of the period, by the trapezoidal rule with step `1 / m`. The sample at
/// the end of the period equals the first, so the rule is the mean of the samples;
/// the mean is divided by `scale` and rounded toward zero.
pub fn integrate(values: &[i128], scale: i128) -> (r: i128)
    requires
        1 <= values@.len() <= MAX_SAMPLES,
        1 <= scale <= ONE,
        forall|j: int| 0 <= j < values@.len() ==> -MAX_INTEGRAND <= #[trigger] values@[j] <= MAX_INTEGRAND,
    ensures
        r == div_trunc(sum_of(values@, values@.len()), scale * values@.len()),
{
    let mut acc: i128 = 0;
    let mut k: usize = 0;
    while k < values.len()
        invariant
            values@.len() <= MAX_SAMPLES,
            forall|j: int| 0 <= j < values@.len() ==> -MAX_INTEGRAND <= #[trigger] values@[j] <= MAX_INTEGRAND,
            k <= values@.len(),
            acc == sum_of(values@, k as nat),
        decreases values@.len() - k,
    {
        proof {
            lemma_sum_of_within(values@, k as nat);
            lemma_sum_of_within(values@, (k + 1) as nat);
        }
        acc = acc + values[k];
        k = k + 1;
    }
    let len = values.len() as i128;
    proof {
        lemma_sum_of_within(values@, k as nat);
        assert(1 <= scale * len <= 0x1_0000 * 0x1_0000) by (nonlinear_arith)
            requires
                1 <= scale <= 0x1_0000,
                1 <= len <= 0x1_0000,
        ;
    }
    div_toward_zero(acc, scale * len)
}

/// The sums of a sequence of integrand values are the parts of `dft_sum`.
proof fn lemma_sum_of_dft(
    re: Seq<i128>,
    im: Seq<i128>,
    samples: Seq<(int, int)>,
    roots: Seq<Complex>,
    n: int,
    k: nat,
)
    requires
        k <= re.len(),
        k <= im.len(),
        forall|j: int|
            0 <= j < k ==> (#[trigger] re[j] as int, im[j] as int) == raw_product(
                samples[j],
                roots[phase(-n, j, roots.len() as int)]@,
            ),
    ensures
        (sum_of(re, k), sum_of(im, k)) == dft_sum(samples, roots, n, k),
    decreases k,
{
    if k > 0 {
        lemma_sum_of_dft(re, im, samples, roots, n, (k - 1) as nat);
        assert((re[k - 1] as int, im[k - 1] as int) == raw_product(
            samples[k - 1],
            roots[phase(-n, k - 1, roots.len() as int)]@,
        ));
    }
}

/// Calculates the `n`th Fourier coefficient of the curve sampled at `samples`, at
/// the times `j / m` of one period: the integral over the period of
/// `f(t) e^(-2 pi i n t)`, its real and imaginary parts each by `integrate`.
pub fn calculate_fourier_coefficient(samples: &[Complex], table: &RootTable, n: isize) -> (r: Complex)
    requires
        table.wf(),
        samples_in_range(views(samples@), table@),
        -(table@.len() as int) < 2 * n < table@.len(),
    ensures
        r@ == coefficient_spec(views(samples@), table@, n as int),
        within(r@, MAX_COEFF as int),
{
    let m = table.len();
    let mut re_values: Vec<i128> = Vec::new();
    let mut im_values: Vec<i128> = Vec::new();
    let mut k: u64 = 0;
    while k < m
        invariant
            table.wf(),
            m == table@.len(),
            samples_in_range(views(samples@), table@),
            -MAX_ORDER <= n <= MAX_ORDER,
            k <= m,
            re_values@.len() == k,
            im_values@.len() == k,
            forall|j: int|
                0 <= j < k ==> (#[trigger] re_values@[j] as int, im_values@[j] as int) == raw_product(
                    views(samples@)[j],
                    table@[phase(-n as int, j, m as int)]@,
                ),
            forall|j: int| 0 <= j < k ==> -MAX_INTEGRAND <= #[trigger] re_values@[j] <= MAX_INTEGRAND,
            forall|j: int| 0 <= j < k ==> -MAX_INTEGRAND <= #[trigger] im_values@[j] <= MAX_INTEGRAND,
        decreases m - k,
    {
        let j = phase_index(-n, k, m);
        let w = table.root(j);
        let s = samples[k as usize];
        proof {
            assert(views(samples@)[k as int] == s@);
            assert(within(w@, ONE as int));
            lemma_raw_product_within(s@, w@);
            lemma_mul_within(s.re as int, w.re as int, MAX_VALUE as int, ONE as int);
            lemma_mul_within(s.im as int, w.im as int, MAX_VALUE as int, ONE as int);
            lemma_mul_within(s.re as int, w.im as int, MAX_VALUE as int, ONE as int);
            lemma_mul_within(s.im as int, w.re as int, MAX_VALUE as int, ONE as int);
        }
        re_values.push((s.re as i128) * (w.re as i128) - (s.im as i128) * (w.im as i128));
        im_values.push((s.re as i128) * (w.im as i128) + (s.im as i128) * (w.re as i128));
        k = k + 1;
    }
    let re = integrate(re_values.as_slice(), ONE as i128);
    let im = integrate(im_values.as_slice(), ONE as i128);
    proof {
        lemma_sum_of_dft(re_values@, im_values@, views(samples@), table@, n as int, m as nat);
        lemma_dft_sum_within(views(samples@), table@, n as int, m as nat);
        assert(m * 0x8000_0000_0000 == (ONE * m) * 0x8000_0000) by (nonlinear_arith);
        let s = dft_sum(views(samples@), table@, n as int, m as nat);
        lemma_div_trunc_within(s.0, ONE * m, MAX_COEFF as int);
        lemma_div_trunc_within(s.1, ONE * m, MAX_COEFF as int);
    }
    Complex { re: re as i64, im: im as i64 }
}

/// Bound on `chain_sum` over a series whose coefficients lie within `MAX_COEFF`.
pub proof fn lemma_chain_sum_within(coeffs: Seq<(isize, Complex)>, t: int, roots: Seq<Complex>, k: nat)
    requires
        roots_in_range(roots),
        series_in_range(coeffs),
        0 <= t,
        k <= coeffs.len(),
    ensures
        within(chain_sum(coeffs, t, roots, k), k as int * 0x1_0000_0000),
    decreases k,
{
    if k > 0 {
        lemma_chain_sum_within(coeffs, t, roots, (k - 1) as nat);
        let c = coeffs[k - 1];
        vstd::arithmetic::div_mod::lemma_mod_bound(c.0 as int * t, roots.len() as int);
        lemma_cmul_within(c.1@, roots[phase(c.0 as int, t, roots.len() as int)]@, MAX_COEFF as int);
    }
}

/// The term `c e^(2 pi i n t / m)` of a series at time `t / m`.
pub fn eval_term(coefficient: Complex, n: isize, t: u64, table: &RootTable) -> (r: Complex)
    requires
        table.wf(),
        t <= table@.len(),
        -MAX_ORDER <= n <= MAX_ORDER,
        within(coefficient@, MAX_COEFF as int),
    ensures
        r@ == term_spec(coefficient@, n as int, t as int, table@),
        within(r@, 2 * MAX_COEFF),
        norm_sq(r@) <= norm_sq(coefficient@),
        norm_sq(coefficient@) * ((ONE - 2) * (ONE - 2)) < padded_norm_sq(r@) * (ONE * ONE),
{
    let j = phase_index(n, t, table.len());
    let w = table.root(j);
    proof {
        lemma_cmul_within(coefficient@, w@, MAX_COEFF as int);
        lemma_cmul_length(coefficient@, w@);
    }
    coefficient.times(w)
}

/// The value of the series at time `t / m`: the sum of all its terms.
pub fn superposition(coefficients: &[(isize, Complex)], t: u64, table: &RootTable) -> (r: Complex)
    requires
        table.wf(),
        t <= table@.len(),
        series_in_range(coefficients@),
    ensures
        r@ == total_spec(coefficients@, t as int, table@),
{
    let mut sum = Complex::zero();
    let mut i: usize = 0;
    while i < coefficients.len()
        invariant
            table.wf(),
            t <= table@.len(),
            series_in_range(coefficients@),
            i <= coefficients@.len(),
            sum@ == chain_sum(coefficients@, t as int, table@, i as nat),
        decreases coefficients@.len() - i,
    {
        proof {
            lemma_chain_sum_within(coefficients@, t as int, table@, (i + 1) as nat);
        }
        let (n, c) = coefficients[i];
        sum = sum.plus(eval_term(c, n, t, table));
        i = i + 1;
    }
    sum
}

/// The tips of the chain of rotating vectors at time `t / m`: entry `i` is the sum
/// of the terms `0..=i` of the series, so the chain starts at the first term's tip
/// (drawn from the origin) and ends at the value of the series.
pub fn partial_chain(coefficients: &[(isize, Complex)], t: u64, table: &RootTable) -> (r: Vec<Complex>)
    requires
        table.wf(),
        t <= table@.len(),
        series_in_range(coefficients@),
    ensures
        r@.len() == coefficients@.len(),
        forall|i: int|
            0 <= i < r@.len() ==> (#[trigger] r@[i])@ == partial_chain_spec(coefficients@, t as int, table@)[i],
{
    let mut chain: Vec<Complex> = Vec::new();
    let mut sum = Complex::zero();
    let mut i: usize = 0;
    while i < coefficients.len()
        invariant
            table.wf(),
            t <= table@.len(),
            series_in_range(coefficients@),
            i <= coefficients@.len(),
            chain@.len() == i,
            sum@ == chain_sum(coefficients@, t as int, table@, i as nat),
            forall|j: int|
                0 <= j < i ==> (#[trigger] chain@[j])@ == chain_sum(coefficients@, t as int, table@, (j + 1) as nat),
        decreases coefficients@.len() - i,
    {
        proof {
            lemma_chain_sum_within(coefficients@, t as int, table@, (i + 1) as nat);
        }
        let (n, c) = coefficients[i];
        sum = sum.plus(eval_term(c, n, t, table));
        chain.push(sum);
        i = i + 1;
    }
    chain
}

/// The last tip of the chain of rotating vectors is the value of the series, at
/// every time and for every series.
pub proof fn lemma_chain_ends_at_total(coeffs: Seq<(isize, Complex)>, t: int, roots: Seq<Complex>)
    requires
        coeffs.len() > 0,
    ensures
        partial_chain_spec(coeffs, t, roots).last() == total_spec(coeffs, t, roots),
{
}

/// Every partial sum of a series takes the same value at both ends of the period.
proof fn lemma_chain_sum_periodic(coeffs: Seq<(isize, Complex)>, roots: Seq<Complex>, k: nat)
    requires
        roots.len() >= 1,
        k <= coeffs.len(),
    ensures
        chain_sum(coeffs, 0, roots, k) == chain_sum(coeffs, roots.len() as int, roots, k),
    decreases k,
{
    if k > 0 {
        lemma_chain_sum_periodic(coeffs, roots, (k - 1) as nat);
        let n = coeffs[k - 1].0 as int;
        let m = roots.len() as int;
        vstd::arithmetic::div_mod::lemma_mod_multiples_basic(n, m);
        assert(n * 0 == 0);
        vstd::arithmetic::div_mod::lemma_small_mod(0, m as nat);
        assert(phase(n, 0, m) == phase(n, m, m));
    }
}

/// A series takes the same value at the start and at the end of its period.
pub proof fn lemma_total_periodic(coeffs: Seq<(isize, Complex)>, roots: Seq<Complex>)
    requires
        roots.len() >= 1,
    ensures
        total_spec(coeffs, 0, roots) == total_spec(coeffs, roots.len() as int, roots),
{
    lemma_chain_sum_periodic(coeffs, roots, coeffs.len());
}

/// Samples that a coefficient set can be computed from: one per root, each within
/// `MAX_VALUE` in both parts.
pub open spec fn samples_in_range(samples: Seq<(int, int)>, roots: Seq<Complex>) -> bool {
    &&& samples.len() == roots.len()
    &&& forall|j: int| 0 <= j < samples.len() ==> within(#[trigger] samples[j], MAX_VALUE as int)
}

/// The entry at position `i` of the coefficient set of order `order`: the index
/// `i - order` and its coefficient.
pub fn coefficient_slot(samples: &Vec<Complex>, table: &RootTable, order: isize, i: usize) -> (r: (
    isize,
    Complex,
))
    requires
        table.wf(),
        samples_in_range(views(samples@), table@),
        order_fits(order as int, table@.len() as int),
        i < 2 * order + 1,
    ensures
        r.0 == i - order,
        r.1@ == coefficient_spec(views(samples@), table@, i - order),
        within(r.1@, MAX_COEFF as int),
{
    let n = i as isize - order;
    (n, calculate_fourier_coefficient(samples.as_slice(), table, n))
}

/// Relies on rayon's `into_par_iter` over a range of `usize`, `map` and
/// `collect_into_vec`: the range is indexed, and the result for each index of the
/// range is stored at that index, whatever order the workers finish in.
#[verifier::external_body]
fn par_coefficient_slots(samples: &Vec<Complex>, table: &RootTable, order: isize, len: usize) -> (r: Vec<(
    isize,
    Complex,
)>)
    requires
        table.wf(),
        samples_in_range(views(samples@), table@),
        order_fits(order as int, table@.len() as int),
        len == 2 * order + 1,
    ensures
        r@.len() == len,
        forall|i: int|
            0 <= i < len ==> (#[trigger] r@[i]).0 == i - order && r@[i].1@ == coefficient_spec(
                views(samples@),
                table@,
                i - order,
            ) && within(r@[i].1@, MAX_COEFF as int),
{
    let mut r = Vec::new();
    (0..len).into_par_iter().map(|i| coefficient_slot(samples, table, order, i)).collect_into_vec(
        &mut r,
    );
    r
}

/// The coefficients `c_n` for `n` from `-order` to `order` of the curve sampled at
/// `samples`, computed in parallel and placed by index.
pub fn coefficient_set(samples: &Vec<Complex>, table: &RootTable, order: isize) -> (r: Vec<(isize, Complex)>)
    requires
        table.wf(),
        samples_in_range(views(samples@), table@),
        order_fits(order as int, table@.len() as int),
    ensures
        is_coefficient_set(r@, views(samples@), table@, order as int),
        series_in_range(r@),
{
    let len = (2 * order + 1) as usize;
    let r = par_coefficient_slots(samples, table, order, len);
    proof {
        assert forall|i: int| 0 <= i < r@.len() implies -MAX_ORDER <= (#[trigger] r@[i]).0 <= MAX_ORDER
            && within(r@[i].1@, MAX_COEFF as int) by {}
    }
    r
}

/// A coefficient set of order `order >= 1` has `2 * order + 1` entries, and its
/// indices are exactly the integers from `-order` to `order`.
pub proof fn lemma_coefficient_set_indices(
    coeffs: Seq<(isize, Complex)>,
    samples: Seq<(int, int)>,
    roots: Seq<Complex>,
    order: int,
)
    requires
        order >= 1,
        is_coefficient_set(coeffs, samples, roots, order),
    ensures
        coeffs.len() == 2 * order + 1,
        indices(coeffs) == Set::new(|n: int| -order <= n <= order),
{
    assert forall|n: int| #[trigger] indices(coeffs).contains(n) <==> -order <= n <= order by {
        if -order <= n <= order {
            assert(coeffs[n + order].0 == n);
        }
    }
    assert(indices(coeffs) =~= Set::new(|n: int| -order <= n <= order));
}

/// The coefficient set is a function of the samples, the table and the order alone:
/// two computations from the same inputs give the same set.
pub proof fn lemma_coefficient_set_deterministic(
    a: Seq<(isize, Complex)>,
    b: Seq<(isize, Complex)>,
    samples: Seq<(int, int)>,
    roots: Seq<Complex>,
    order: int,
)
    requires
        is_coefficient_set(a, samples, roots, order),
        is_coefficient_set(b, samples, roots, order),
    ensures
        a == b,
{
    assert forall|i: int| 0 <= i < a.len() implies #[trigger] a[i] == b[i] by {
        assert(a[i].1@ == b[i].1@);
    }
    assert(a =~= b);
}

/// The squared length of an exact product is the product of the squared lengths.
proof fn lemma_norm_sq_product(a: (int, int), b: (int, int))
    ensures
        norm_sq(raw_product(a, b)) == norm_sq(a) * norm_sq(b),
{
    lemma_two_squares(a.0, a.1, b.0, b.1);
}

/// The two-square identity, and the Lagrange identity behind Cauchy-Schwarz.
proof fn lemma_two_squares(p: int, q: int, u: int, v: int)
    ensures
        (p * u - q * v) * (p * u - q * v) + (p * v + q * u) * (p * v + q * u) == (p * p + q * q) * (u * u
            + v * v),
        (p * p + q * q) * (u * u + v * v) - (p * u + q * v) * (p * u + q * v) == (p * v - q * u) * (p * v
            - q * u),
{
    let pu = p * u;
    let qv = q * v;
    let pv = p * v;
    let qu = q * u;
    assert(pu * pu == (p * p) * (u * u)) by (nonlinear_arith)
        requires
            pu == p * u,
    ;
    assert(qv * qv == (q * q) * (v * v)) by (nonlinear_arith)
        requires
            qv == q * v,
    ;
    assert(pv * pv == (p * p) * (v * v)) by (nonlinear_arith)
        requires
            pv == p * v,
    ;
    assert(qu * qu == (q * q) * (u * u)) by (nonlinear_arith)
        requires
            qu == q * u,
    ;
    assert(pu * qv == pv * qu) by (nonlinear_arith)
        requires
            pu == p * u,
            qv == q * v,
            pv == p * v,
            qu == q * u,
    ;
    assert((pu - qv) * (pu - qv) == pu * pu - 2 * (pu * qv) + qv * qv) by (nonlinear_arith);
    assert((pv + qu) * (pv + qu) == pv * pv + 2 * (pv * qu) + qu * qu) by (nonlinear_arith);
    assert((pu + qv) * (pu + qv) == pu * pu + 2 * (pu * qv) + qv * qv) by (nonlinear_arith);
    assert((pv - qu) * (pv - qu) == pv * pv - 2 * (pv * qu) + qu * qu) by (nonlinear_arith);
    assert((p * p + q * q) * (u * u + v * v) == (p * p) * (u * u) + (p * p) * (v * v) + (q * q) * (u * u)
        + (q * q) * (v * v)) by (nonlinear_arith);
}

/// Triangle inequality on squared lengths: if `|s| <= x` and `|t| <= y` then
/// `|s + t| <= x + y`.
proof fn lemma_norm_sq_triangle(s: (int, int), t: (int, int), x: int, y: int)
    requires
        x >= 0,
        y >= 0,
        norm_sq(s) <= x * x,
        norm_sq(t) <= y * y,
    ensures
        norm_sq(cplus(s, t)) <= (x + y) * (x + y),
{
    let dot = s.0 * t.0 + s.1 * t.1;
    lemma_two_squares(s.0, s.1, t.0, t.1);
    let cross = s.0 * t.1 - s.1 * t.0;
    assert(cross * cross >= 0) by (nonlinear_arith);
    assert(dot * dot <= norm_sq(s) * norm_sq(t));
    assert(norm_sq(s) >= 0 && norm_sq(t) >= 0) by (nonlinear_arith);
    assert(norm_sq(s) * norm_sq(t) <= (x * x) * (y * y)) by (nonlinear_arith)
        requires
            0 <= norm_sq(s) <= x * x,
            0 <= norm_sq(t) <= y * y,
    ;
    assert(dot <= x * y) by (nonlinear_arith)
        requires
            dot * dot <= (x * x) * (y * y),
            x >= 0,
            y >= 0,
    ;
    assert(norm_sq(cplus(s, t)) == norm_sq(s) + 2 * dot + norm_sq(t)) by (nonlinear_arith)
        requires
            dot == s.0 * t.0 + s.1 * t.1,
    ;
    assert((x + y) * (x + y) == x * x + 2 * (x * y) + y * y) by (nonlinear_arith);
}

proof fn lemma_dft_sum_norm(samples: Seq<(int, int)>, roots: Seq<Complex>, n: int, r: int, k: nat)
    requires
        roots_in_range(roots),
        r >= 0,
        k <= samples.len(),
        forall|j: int| 0 <= j < samples.len() ==> norm_sq(#[trigger] samples[j]) <= r * r,
    ensures
        norm_sq(dft_sum(samples, roots, n, k)) <= (k * (r * ONE)) * (k * (r * ONE)),
    decreases k,
{
    if k == 0 {
        assert(norm_sq(dft_sum(samples, roots, n, 0)) == 0);
    } else {
        let km = (k - 1) as nat;
        lemma_dft_sum_norm(samples, roots, n, r, km);
        let m = roots.len() as int;
        vstd::arithmetic::div_mod::lemma_mod_bound(-n * (k - 1), m);
        let w = roots[phase(-n, k - 1, m)]@;
        let a = samples[k - 1];
        lemma_norm_sq_product(a, w);
        let one = ONE as int;
        assert(norm_sq(a) >= 0 && norm_sq(w) >= 0) by (nonlinear_arith);
        assert(norm_sq(a) * norm_sq(w) <= (r * one) * (r * one)) by (nonlinear_arith)
            requires
                0 <= norm_sq(a) <= r * r,
                0 <= norm_sq(w) <= one * one,
        ;
        assert(km * (r * one) >= 0) by (nonlinear_arith)
            requires
                r >= 0,
                one >= 0,
        ;
        lemma_norm_sq_triangle(dft_sum(samples, roots, n, km), raw_product(a, w), km * (r * one), r * one);
        assert(km * (r * one) + r * one == k * (r * one)) by (nonlinear_arith)
            requires
                km + 1 == k,
        ;
    }
}

/// `|div_trunc(x, d)| * d <= |x|`, squared.
proof fn lemma_div_trunc_sq(x: int, d: int)
    requires
        d > 0,
    ensures
        (div_trunc(x, d) * d) * (div_trunc(x, d) * d) <= x * x,
{
    let ax = if x >= 0 {
        x
    } else {
        -x
    };
    vstd::arithmetic::div_mod::lemma_fundamental_div_mod(ax, d);
    vstd::arithmetic::div_mod::lemma_mod_bound(ax, d);
    vstd::arithmetic::div_mod::lemma_div_pos_is_pos(ax, d);
    let q = ax / d;
    assert(0 <= q * d <= ax) by (nonlinear_arith)
        requires
            ax == d * q + ax % d,
            0 <= ax % d,
            q >= 0,
            d > 0,
    ;
    assert((q * d) * (q * d) <= ax * ax) by (nonlinear_arith)
        requires
            0 <= q * d <= ax,
    ;
    assert(div_trunc(x, d) * d == q * d || div_trunc(x, d) * d == -(q * d)) by (nonlinear_arith)
        requires
            div_trunc(x, d) == q || div_trunc(x, d) == -q,
    ;
    assert(ax * ax == x * x) by (nonlinear_arith)
        requires
            ax == x || ax == -x,
    ;
    assert((-(q * d)) * (-(q * d)) == (q * d) * (q * d)) by (nonlinear_arith);
}

/// A coefficient is no longer than the curve is far from the origin: if every
/// sample has length at most `r`, so has every coefficient computed from a table
/// of points in the unit disc.
pub proof fn lemma_coefficient_within_radius(samples: Seq<(int, int)>, roots: Seq<Complex>, n: int, r: int)
    requires
        roots_in_range(roots),
        samples.len() == roots.len(),
        r >= 0,
        forall|j: int| 0 <= j < samples.len() ==> norm_sq(#[trigger] samples[j]) <= r * r,
    ensures
        norm_sq(coefficient_spec(samples, roots, n)) <= r * r,
{
    let m = roots.len();
    let one = ONE as int;
    lemma_dft_sum_norm(samples, roots, n, r, m);
    let s = dft_sum(samples, roots, n, m);
    let d = one * m;
    let c = coefficient_spec(samples, roots, n);
    lemma_div_trunc_sq(s.0, d);
    lemma_div_trunc_sq(s.1, d);
    assert((m * (r * one)) * (m * (r * one)) == (d * d) * (r * r)) by (nonlinear_arith)
        requires
            d == one * m,
    ;
    assert((c.0 * c.0 + c.1 * c.1) * (d * d) <= s.0 * s.0 + s.1 * s.1) by (nonlinear_arith)
        requires
            (c.0 * d) * (c.0 * d) <= s.0 * s.0,
            (c.1 * d) * (c.1 * d) <= s.1 * s.1,
    ;
    assert(d > 0) by (nonlinear_arith)
        requires
            d == one * m,
            one == 65536,
            m >= 1,
    ;
    assert(norm_sq(c) <= r * r) by (nonlinear_arith)
        requires
            norm_sq(c) * (d * d) <= (d * d) * (r * r),
            d > 0,
    ;
}

/// Squared length of `a` with each part moved one unit away from zero.
pub open spec fn padded_norm_sq(a: (int, int)) -> int {
    let x = if a.0 >= 0 {
        a.0 + 1
    } else {
        1 - a.0
    };
    let y = if a.1 >= 0 {
        a.1 + 1
    } else {
        1 - a.1
    };
    x * x + y * y
}

/// Rounding toward zero loses less than one unit: `(|div_trunc(x, d)| + 1) * d > |x|`,
/// squared.
proof fn lemma_div_trunc_upper_sq(x: int, d: int)
    requires
        d > 0,
    ensures
        ({
            let q = div_trunc(x, d);
            let aq = if q >= 0 {
                q
            } else {
                -q
            };
            ((aq + 1) * d) * ((aq + 1) * d) > x * x
        }),
{
    let ax = if x >= 0 {
        x
    } else {
        -x
    };
    vstd::arithmetic::div_mod::lemma_fundamental_div_mod(ax, d);
    vstd::arithmetic::div_mod::lemma_mod_bound(ax, d);
    vstd::arithmetic::div_mod::lemma_div_pos_is_pos(ax, d);
    let q = ax / d;
    assert((q + 1) * d > ax) by (nonlinear_arith)
        requires
            ax == d * q + ax % d,
            ax % d < d,
    ;
    assert(((q + 1) * d) * ((q + 1) * d) > ax * ax) by (nonlinear_arith)
        requires
            (q + 1) * d > ax,
            ax >= 0,
    ;
    assert(ax * ax == x * x) by (nonlinear_arith)
        requires
            ax == x || ax == -x,
    ;
}

/// Rotating by a table entry keeps a length: the result is no longer than `c`, and
/// moved one unit per part away from zero it is longer than `c` scaled by
/// `(ONE - 2) / ONE`.
pub proof fn lemma_cmul_length(c: (int, int), w: (int, int))
    requires
        near_unit_circle(w),
    ensures
        norm_sq(cmul(c, w)) <= norm_sq(c),
        norm_sq(c) * ((ONE - 2) * (ONE - 2)) < padded_norm_sq(cmul(c, w)) * (ONE * ONE),
{
    let p = raw_product(c, w);
    let t = cmul(c, w);
    let one = ONE as int;
    lemma_norm_sq_product(c, w);
    lemma_div_trunc_sq(p.0, one);
    lemma_div_trunc_sq(p.1, one);
    lemma_div_trunc_upper_sq(p.0, one);
    lemma_div_trunc_upper_sq(p.1, one);
    let nc = norm_sq(c);
    let nw = norm_sq(w);
    assert(nc >= 0) by (nonlinear_arith)
        requires
            nc == c.0 * c.0 + c.1 * c.1,
    ;
    assert((t.0 * t.0 + t.1 * t.1) * (one * one) <= p.0 * p.0 + p.1 * p.1) by (nonlinear_arith)
        requires
            (t.0 * one) * (t.0 * one) <= p.0 * p.0,
            (t.1 * one) * (t.1 * one) <= p.1 * p.1,
    ;
    assert(nc * nw <= nc * (one * one)) by (nonlinear_arith)
        requires
            nc >= 0,
            nw <= one * one,
    ;
    assert(norm_sq(t) <= nc) by (nonlinear_arith)
        requires
            norm_sq(t) * (one * one) <= nc * (one * one),
            one == 65536,
    ;
    assert(nc * ((one - 2) * (one - 2)) <= nc * nw) by (nonlinear_arith)
        requires
            nc >= 0,
            (one - 2) * (one - 2) <= nw,
    ;
    let x = if t.0 >= 0 {
        t.0 + 1
    } else {
        1 - t.0
    };
    let y = if t.1 >= 0 {
        t.1 + 1
    } else {
        1 - t.1
    };
    assert(padded_norm_sq(t) * (one * one) == (x * one) * (x * one) + (y * one) * (y * one))
        by (nonlinear_arith)
        requires
            padded_norm_sq(t) == x * x + y * y,
    ;
}

} // verus!
