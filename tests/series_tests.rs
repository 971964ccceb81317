use fourier::complex::{div_toward_zero, Complex, ONE};
use fourier::functions::{step, tent, Function, HALF_SPACE};
use fourier::geometry::{epicycles, isqrt, term_length, trace};
use fourier::series::{
    calculate_fourier_coefficient, coefficient_set, eval_term, integrate, partial_chain, phase_index,
    superposition, RootTable,
};

fn unit_roots(m: usize) -> Vec<Complex> {
    (0..m)
        .map(|j| {
            let angle = 2.0 * std::f64::consts::PI * j as f64 / m as f64;
            Complex::new(
                (angle.cos() * ONE as f64) as i64,
                (angle.sin() * ONE as f64) as i64,
            )
        })
        .collect()
}

fn table(m: usize) -> RootTable {
    RootTable::new(unit_roots(m)).unwrap()
}

fn units(v: i64) -> i64 {
    v * ONE
}

#[test]
fn next_cycles_through_variants() {
    assert_eq!(Function::Step.next(), Function::Tent);
    assert_eq!(Function::Tent.next(), Function::Step);
    assert_eq!(Function::Step.next().next(), Function::Step);
}

#[test]
fn step_curve_values() {
    assert_eq!(step(0, 8), Complex::new(units(-1000), 0));
    assert_eq!(step(1, 8), Complex::new(units(-750), 0));
    assert_eq!(step(2, 8), Complex::new(units(-500), units(HALF_SPACE)));
    assert_eq!(step(4, 8), Complex::new(0, units(-HALF_SPACE)));
    assert_eq!(step(6, 8), Complex::new(units(500), 0));
    assert_eq!(step(8, 8), Complex::new(units(1000), 0));
}

#[test]
fn tent_curve_values() {
    assert_eq!(tent(0, 8), Complex::new(units(-1000), units(-1000)));
    assert_eq!(tent(2, 8), Complex::new(units(-500), 0));
    assert_eq!(tent(4, 8), Complex::new(0, units(1000)));
    assert_eq!(tent(6, 8), Complex::new(units(500), 0));
    assert_eq!(tent(8, 8), Complex::new(units(1000), units(-1000)));
}

#[test]
fn execute_dispatches_on_variant() {
    assert_eq!(Function::Step.execute(3, 8), step(3, 8));
    assert_eq!(Function::Tent.execute(3, 8), tent(3, 8));
    let samples = Function::Tent.samples(8);
    assert_eq!(samples.len(), 8);
    assert_eq!(samples[4], tent(4, 8));
}

#[test]
fn division_rounds_toward_zero() {
    assert_eq!(div_toward_zero(7, 2), 3);
    assert_eq!(div_toward_zero(-7, 2), -3);
    assert_eq!(div_toward_zero(-8, 2), -4);
}

#[test]
fn fixed_point_product_and_sum() {
    let a = Complex::new(2 * ONE, 0);
    let i = Complex::new(0, ONE);
    assert_eq!(a.times(i), Complex::new(0, 2 * ONE));
    assert_eq!(Complex::new(-3, 5).times(Complex::new(ONE / 2, 0)), Complex::new(-1, 2));
    assert_eq!(Complex::new(1, 2).plus(Complex::new(3, -4)), Complex::new(4, -2));
}

#[test]
fn root_table_rejects_bad_input() {
    assert!(RootTable::new(vec![]).is_none());
    assert!(RootTable::new(vec![Complex::new(ONE + 1, 0)]).is_none());
    assert!(RootTable::new(vec![Complex::new(0, -ONE - 1)]).is_none());
    assert!(RootTable::new(vec![Complex::new(ONE, ONE)]).is_none());
    let one = Complex::new(ONE, 0);
    assert!(RootTable::new(vec![one, Complex::new(46341, -46341)]).is_none());
    assert!(RootTable::new(vec![Complex::new(0, 0)]).is_none());
    assert!(RootTable::new(vec![one, Complex::new(0, 0)]).is_none());
    assert!(RootTable::new(vec![one, Complex::new(0, ONE - 3)]).is_none());
    assert!(RootTable::new(vec![Complex::new(0, ONE), one]).is_none());
    assert!(RootTable::new(vec![one]).is_some());
    assert!(RootTable::new(vec![one, Complex::new(-ONE, 0)]).is_some());
    let quarter = vec![one, Complex::new(0, ONE), Complex::new(-ONE, 0), Complex::new(0, -ONE)];
    assert!(RootTable::new(quarter).is_some());
    // Not the powers of the step entry: i squared is not one.
    assert!(RootTable::new(vec![one, Complex::new(0, ONE)]).is_none());
    assert!(RootTable::new(vec![one, Complex::new(46340, -46340)]).is_none());
    let mut bent = unit_roots(16);
    bent[5].re += 20;
    assert!(RootTable::new(bent).is_none());
    assert!(RootTable::new(unit_roots(8)).is_some());
    assert!(RootTable::new(unit_roots(4096)).is_some());
    assert!(RootTable::new(unit_roots(65536)).is_some());
    let t = RootTable::new(vec![Complex::new(ONE, 0), Complex::new(-ONE, 0)]).unwrap();
    assert_eq!(t.len(), 2);
    assert_eq!(t.root(1), Complex::new(-ONE, 0));
}

#[test]
fn phase_index_wraps_negative_frequencies() {
    assert_eq!(phase_index(-1, 1, 8), 7);
    assert_eq!(phase_index(3, 5, 8), 7);
    assert_eq!(phase_index(-3, 5, 8), 1);
    assert_eq!(phase_index(5, 8, 8), 0);
    assert_eq!(phase_index(0, 3, 8), 0);
}

#[test]
fn coefficient_set_has_symmetric_indices() {
    let tb = table(64);
    let samples = Function::Step.samples(64);
    for order in [1isize, 3, 7] {
        let set = coefficient_set(&samples, &tb, order);
        assert_eq!(set.len() as isize, 2 * order + 1);
        let indices: Vec<isize> = set.iter().map(|(n, _)| *n).collect();
        let expected: Vec<isize> = (-order..=order).collect();
        assert_eq!(indices, expected);
    }
}

#[test]
fn coefficient_set_matches_single_coefficients() {
    let tb = table(32);
    let samples = Function::Tent.samples(32);
    let set = coefficient_set(&samples, &tb, 4);
    for (n, c) in &set {
        assert_eq!(*c, calculate_fourier_coefficient(&samples, &tb, *n));
    }
}

#[test]
fn unit_circle_has_single_coefficient() {
    let m = 256;
    let tb = table(m);
    let samples = unit_roots(m);
    let set = coefficient_set(&samples, &tb, 5);
    for (n, c) in &set {
        if *n == 1 {
            assert!((c.re - ONE).abs() <= 8, "c1 = {:?}", c);
            assert!(c.im.abs() <= 8, "c1 = {:?}", c);
        } else {
            assert!(c.re.abs() <= 8 && c.im.abs() <= 8, "c{} = {:?}", n, c);
        }
    }
}

#[test]
fn constant_curve_has_only_mean() {
    let m = 16;
    let tb = table(m);
    let samples = vec![Complex::new(3 * ONE, -2 * ONE); m];
    assert_eq!(calculate_fourier_coefficient(&samples, &tb, 0), Complex::new(3 * ONE, -2 * ONE));
    let c1 = calculate_fourier_coefficient(&samples, &tb, 1);
    assert!(c1.re.abs() <= 4 && c1.im.abs() <= 4);
}

#[test]
fn eval_term_rotates_by_table_entry() {
    let tb = table(16);
    let one = Complex::new(ONE, 0);
    assert_eq!(eval_term(one, 1, 4, &tb), tb.root(4));
    assert_eq!(eval_term(one, -1, 4, &tb), tb.root(12));
    assert_eq!(eval_term(one, 3, 0, &tb), one);
    assert_eq!(eval_term(Complex::new(2 * ONE, 0), 1, 4, &tb), Complex::new(0, 2 * ONE));
}

#[test]
fn chain_ends_at_superposition() {
    let tb = table(64);
    let samples = Function::Tent.samples(64);
    let set = coefficient_set(&samples, &tb, 6);
    for t in [0u64, 5, 17, 40, 64] {
        let chain = partial_chain(&set, t, &tb);
        assert_eq!(chain.len(), set.len());
        assert_eq!(*chain.last().unwrap(), superposition(&set, t, &tb));
        assert_eq!(chain[0], eval_term(set[0].1, set[0].0, t, &tb));
    }
}

#[test]
fn superposition_is_periodic() {
    let tb = table(64);
    let samples = Function::Step.samples(64);
    let set = coefficient_set(&samples, &tb, 8);
    assert_eq!(superposition(&set, 0, &tb), superposition(&set, 64, &tb));
}

#[test]
fn superposition_of_empty_series_is_origin() {
    let tb = table(8);
    assert_eq!(superposition(&[], 3, &tb), Complex::new(0, 0));
    assert!(partial_chain(&[], 3, &tb).is_empty());
}

#[test]
fn superposition_approximates_curve() {
    let m = 512;
    let tb = table(m);
    let samples = Function::Tent.samples(m as u64);
    let set = coefficient_set(&samples, &tb, 24);
    let at = superposition(&set, 128, &tb);
    let want = tent(128, m as u64);
    assert!((at.re - want.re).abs() < 40 * ONE, "{:?} vs {:?}", at, want);
    assert!((at.im - want.im).abs() < 40 * ONE, "{:?} vs {:?}", at, want);
}

#[test]
fn integer_square_root() {
    assert_eq!(isqrt(0), 0);
    assert_eq!(isqrt(1), 1);
    assert_eq!(isqrt(15), 3);
    assert_eq!(isqrt(16), 4);
    assert_eq!(isqrt(17), 4);
    assert_eq!(isqrt((1u128 << 64) - 1), (1u64 << 32) - 1);
    assert_eq!(term_length(Complex::new(3, -4)), 5);
    assert_eq!(term_length(Complex::new(-6, 0)), 6);
}

#[test]
fn epicycle_segments_chain_tip_to_tail() {
    let tb = table(16);
    let set = vec![(-1isize, Complex::new(ONE, 0)), (1isize, Complex::new(0, 2 * ONE))];
    let segs = epicycles(&set, 4, &tb);
    assert_eq!(segs.len(), 2);
    assert_eq!(segs[0].start, Complex::new(0, 0));
    assert_eq!(segs[0].end, eval_term(set[0].1, -1, 4, &tb));
    assert_eq!(segs[1].start, segs[0].end);
    assert_eq!(segs[1].end, superposition(&set, 4, &tb));
    assert_eq!(segs[0].radius, ONE as u64);
    assert_eq!(segs[1].radius, 2 * ONE as u64);
}

#[test]
fn trace_samples_up_to_end() {
    let tb = table(16);
    let set = vec![(1isize, Complex::new(ONE, 0))];
    let pts = trace(&set, &tb, 8, 4, 8);
    assert_eq!(pts.len(), 4);
    assert_eq!(pts[0], superposition(&set, 0, &tb));
    assert_eq!(pts[1], superposition(&set, 4, &tb));
    assert_eq!(pts[2], superposition(&set, 8, &tb));
    assert_eq!(pts[3], superposition(&set, 8, &tb));
    let partial = trace(&set, &tb, 7, 4, 7);
    assert_eq!(partial.len(), 3);
    assert_eq!(partial[2], superposition(&set, 7, &tb));
    let start = trace(&set, &tb, 0, 4, 0);
    assert_eq!(start.len(), 2);
    let full = trace(&set, &tb, 16, 4, 3);
    assert_eq!(full.len(), 6);
    assert_eq!(full[4], superposition(&set, 16, &tb));
    assert_eq!(full[5], superposition(&set, 3, &tb));
}

#[test]
fn integrate_takes_mean_over_period() {
    assert_eq!(integrate(&[10, 20, 30, 40], 1), 25);
    assert_eq!(integrate(&[-7], 2), -3);
    assert_eq!(integrate(&[7, 0], 2), 1);
    let ones = vec![3 * (ONE as i128) * (ONE as i128); 4];
    assert_eq!(integrate(&ones, ONE as i128), 3 * ONE as i128);
}

#[test]
fn coefficients_are_no_longer_than_the_curve() {
    let m = 128;
    let tb = table(m);
    let samples = Function::Tent.samples(m as u64);
    let r2 = samples
        .iter()
        .map(|c| (c.re as i128).pow(2) + (c.im as i128).pow(2))
        .max()
        .unwrap();
    for (_, c) in coefficient_set(&samples, &tb, 20) {
        assert!((c.re as i128).pow(2) + (c.im as i128).pow(2) <= r2);
    }
    let circle = unit_roots(m);
    let c1 = calculate_fourier_coefficient(&circle, &tb, 1);
    assert!((c1.re as i128).pow(2) + (c1.im as i128).pow(2) <= (ONE as i128).pow(2));
}

#[test]
fn term_keeps_coefficient_length() {
    let tb = table(64);
    let c = Complex::new(3 * ONE + 17, -5 * ONE);
    let len2 = |z: Complex| (z.re as i128).pow(2) + (z.im as i128).pow(2);
    for t in 0..=64u64 {
        for n in [-31isize, -3, 0, 1, 7, 31] {
            let term = eval_term(c, n, t, &tb);
            assert!(len2(term) <= len2(c));
            let pad = (term.re.abs() as i128 + 1).pow(2) + (term.im.abs() as i128 + 1).pow(2);
            let one = ONE as i128;
            assert!(len2(c) * (one - 2).pow(2) < pad * one * one, "n = {}, t = {}", n, t);
            let r = term_length(term) as i128;
            let rc = term_length(c) as i128;
            assert!(r <= rc && r + 16 >= rc, "n = {}, t = {}: {} vs {}", n, t, r, rc);
        }
    }
}
