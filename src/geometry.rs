use vstd::prelude::*;
use crate::complex::{Complex, norm_sq, within};
use crate::series::{
    RootTable, MAX_COEFF, chain_sum, series_in_range, superposition, eval_term, term_spec,
    total_spec, lemma_chain_sum_within,
};

verus! {

/// One rotating vector of the chain: a line from `start` to `end`, and the circle
/// of radius `radius` around `start` that the vector sweeps.
#[derive(Copy, Clone, Debug, PartialEq, Eq, Structural)]
pub struct Segment {
    pub start: Complex,
    pub end: Complex,
    pub radius: u64,
}

/// `r` is the square root of `v`, rounded down.
pub open spec fn is_sqrt_floor(r: int, v: int) -> bool {
    r * r <= v < (r + 1) * (r + 1)
}

/// `segs` is the chain of rotating vectors of the series at time `t / m`, one
/// segment per term in the order of the series: segment `i` runs from the sum of
/// the terms before `i` (the origin for the first) to the sum of the terms up to
/// `i`, and its radius is the length of term `i`, rounded down.
pub open spec fn is_epicycle_chain(
    segs: Seq<Segment>,
    coeffs: Seq<(isize, Complex)>,
    t: int,
    roots: Seq<Complex>,
) -> bool {
    &&& segs.len() == coeffs.len()
    &&& forall|i: int|
        0 <= i < segs.len() ==> {
            &&& (#[trigger] segs[i]).start@ == chain_sum(coeffs, t, roots, i as nat)
            &&& segs[i].end@ == chain_sum(coeffs, t, roots, (i + 1) as nat)
            &&& is_sqrt_floor(segs[i].radius as int, norm_sq(term_spec(coeffs[i].1@, coeffs[i].0 as int, t, roots)))
        }
}

/// `pts` is the trace of the series from time `0` to time `end / m`: the series at
/// the times `trace_time(j)` that do not pass `end`, in increasing order, then once
/// more exactly at the current time `now / m`.
pub open spec fn is_trace(
    pts: Seq<Complex>,
    coeffs: Seq<(isize, Complex)>,
    roots: Seq<Complex>,
    end: int,
    density: int,
    now: int,
) -> bool {
    &&& pts.len() == trace_count(end, density, roots.len() as int) + 1
    &&& forall|j: int|
        0 <= j < pts.len() - 1 ==> (#[trigger] pts[j])@ == total_spec(
            coeffs,
            trace_time(j, density, roots.len() as int),
            roots,
        )
    &&& pts.last()@ == total_spec(coeffs, now, roots)
}

/// Square root rounded down, by bisection.
pub fn isqrt(v: u128) -> (r: u64)
    requires
        v < 0x4_0000_0000_0000_0000,
    ensures
        is_sqrt_floor(r as int, v as int),
{
    let mut lo: u64 = 0;
    let mut hi: u64 = 0x2_0000_0000;
    while hi - lo > 1
        invariant
            lo < hi <= 0x2_0000_0000,
            lo * lo <= v,
            v < hi * hi,
        decreases hi - lo,
    {
        let mid = lo + (hi - lo) / 2;
        assert(mid * mid <= 0x2_0000_0000 * 0x2_0000_0000) by (nonlinear_arith)
            requires
                mid <= 0x2_0000_0000,
        ;
        if (mid as u128) * (mid as u128) <= v {
            lo = mid;
        } else {
            hi = mid;
        }
    }
    lo
}

/// The length of a term of a series, rounded down.
pub fn term_length(term: Complex) -> (r: u64)
    requires
        within(term@, 2 * MAX_COEFF),
    ensures
        is_sqrt_floor(r as int, norm_sq(term@)),
{
    let x = term.re as i128;
    let y = term.im as i128;
    proof {
        crate::complex::lemma_mul_within(x as int, x as int, 2 * MAX_COEFF, 2 * MAX_COEFF);
        crate::complex::lemma_mul_within(y as int, y as int, 2 * MAX_COEFF, 2 * MAX_COEFF);
        assert(x * x >= 0 && y * y >= 0) by (nonlinear_arith);
    }
    let v = (x * x + y * y) as u128;
    isqrt(v)
}

/// The segments of the chain of rotating vectors at time `t / m`, one per term in
/// the order of the series: segment `i` runs from the sum of the terms before `i`
/// (the origin for the first) to the sum of the terms up to `i`, and its circle has
/// the length of term `i` as radius.
pub fn epicycles(coefficients: &[(isize, Complex)], t: u64, table: &RootTable) -> (r: Vec<Segment>)
    requires
        table.wf(),
        t <= table@.len(),
        series_in_range(coefficients@),
    ensures
        is_epicycle_chain(r@, coefficients@, t as int, table@),
{
    let mut segments: Vec<Segment> = Vec::new();
    let mut last = Complex::zero();
    let mut i: usize = 0;
    while i < coefficients.len()
        invariant
            table.wf(),
            t <= table@.len(),
            series_in_range(coefficients@),
            i <= coefficients@.len(),
            segments@.len() == i,
            last@ == chain_sum(coefficients@, t as int, table@, i as nat),
            forall|j: int|
                0 <= j < i ==> {
                    &&& (#[trigger] segments@[j]).start@ == chain_sum(coefficients@, t as int, table@, j as nat)
                    &&& segments@[j].end@ == chain_sum(coefficients@, t as int, table@, (j + 1) as nat)
                    &&& is_sqrt_floor(
                        segments@[j].radius as int,
                        norm_sq(term_spec(coefficients@[j].1@, coefficients@[j].0 as int, t as int, table@)),
                    )
                },
        decreases coefficients@.len() - i,
    {
        proof {
            lemma_chain_sum_within(coefficients@, t as int, table@, (i + 1) as nat);
        }
        let (n, c) = coefficients[i];
        let term = eval_term(c, n, t, table);
        let next = last.plus(term);
        segments.push(Segment { start: last, end: next, radius: term_length(term) });
        last = next;
        i = i + 1;
    }
    segments
}

/// The `j`th of `density` evenly spaced sample times of a period of `m` steps.
pub open spec fn trace_time(j: int, density: int, m: int) -> int {
    (j * m) / density
}

/// Number of evenly spaced samples, out of `density` per period, from time `0` up
/// to time `end / m`, both ends included.
pub open spec fn trace_count(end: int, density: int, m: int) -> int {
    (end * density) / m + 1
}

proof fn lemma_trace_time_bound(j: int, end: int, density: int, m: int)
    requires
        1 <= density,
        1 <= m,
        0 <= end <= m,
        0 <= j < trace_count(end, density, m),
    ensures
        0 <= trace_time(j, density, m) <= end,
        j * m <= end * density,
{
    let k = (end * density) / m;
    vstd::arithmetic::div_mod::lemma_fundamental_div_mod(end * density, m);
    vstd::arithmetic::div_mod::lemma_mod_bound(end * density, m);
    assert(j * m <= end * density) by (nonlinear_arith)
        requires
            j <= k,
            m * k <= end * density,
            m >= 1,
    ;
    assert(end * density == density * end) by (nonlinear_arith);
    assert(j * m >= 0) by (nonlinear_arith)
        requires
            j >= 0,
            m >= 1,
    ;
    vstd::arithmetic::div_mod::lemma_div_is_ordered(j * m, density * end, density);
    vstd::arithmetic::div_mod::lemma_div_by_multiple(end, density);
    assert(end * density == density * end) by (nonlinear_arith);
    vstd::arithmetic::div_mod::lemma_div_pos_is_pos(j * m, density);
    assert((density * end) / density == end) by {
        vstd::arithmetic::div_mod::lemma_div_multiples_vanish(end, density);
    }
}

/// The trace of the series from time `0` to time `end / m`: the series sampled at
/// the times `trace_time(j)` for `j` from `0` up to the last one not past `end`, in
/// increasing order, then once more exactly at the current time `now / m`.
pub fn trace(coefficients: &[(isize, Complex)], table: &RootTable, end: u64, density: u64, now: u64) -> (r: Vec<
    Complex,
>)
    requires
        table.wf(),
        end <= table@.len(),
        now <= table@.len(),
        1 <= density <= 0x1_0000_0000,
        series_in_range(coefficients@),
    ensures
        is_trace(r@, coefficients@, table@, end as int, density as int, now as int),
{
    let m = table.len();
    proof {
        assert(end * density <= 0x1_0000 * 0x1_0000_0000) by (nonlinear_arith)
            requires
                end <= 0x1_0000,
                density <= 0x1_0000_0000,
        ;
    }
    let count = (end * density) / m + 1;
    let mut points: Vec<Complex> = Vec::new();
    let mut j: u64 = 0;
    while j < count
        invariant
            table.wf(),
            m == table@.len(),
            end <= m,
            1 <= density <= 0x1_0000_0000,
            series_in_range(coefficients@),
            count == trace_count(end as int, density as int, m as int),
            j <= count,
            points@.len() == j,
            forall|i: int|
                0 <= i < j ==> (#[trigger] points@[i])@ == total_spec(
                    coefficients@,
                    trace_time(i, density as int, m as int),
                    table@,
                ),
        decreases count - j,
    {
        proof {
            lemma_trace_time_bound(j as int, end as int, density as int, m as int);
            assert(end * density <= 0x1_0000 * 0x1_0000_0000) by (nonlinear_arith)
                requires
                    end <= 0x1_0000,
                    density <= 0x1_0000_0000,
            ;
            assert(j * m <= 0x1_0000_0000 * 0x1_0000) by (nonlinear_arith)
                requires
                    j * m <= end * density,
                    end * density <= 0x1_0000 * 0x1_0000_0000,
            ;
        }
        let t = (j * m) / density;
        points.push(superposition(coefficients, t, table));
        j = j + 1;
    }
    points.push(superposition(coefficients, now, table));
    points
}

} // verus!
