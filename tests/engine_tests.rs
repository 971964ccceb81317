use fourier::complex::{Complex, ONE};
use fourier::fourier::{Fourier, OrderError};
use fourier::functions::Function;
use fourier::series::{coefficient_set, superposition, RootTable, MAX_ORDER};
use fourier::visualize::{Visualizer, FINE, MAX_ZOOM, TICKS_PER_LAP};

fn table(m: usize) -> RootTable {
    let roots = (0..m)
        .map(|j| {
            let angle = 2.0 * std::f64::consts::PI * j as f64 / m as f64;
            Complex::new(
                (angle.cos() * ONE as f64) as i64,
                (angle.sin() * ONE as f64) as i64,
            )
        })
        .collect();
    RootTable::new(roots).unwrap()
}

#[test]
fn new_engine_holds_series_of_curve() {
    let f = Fourier::new(Function::Tent, 4, table(32));
    assert_eq!(f.n(), 4);
    assert_eq!(f.f(), Function::Tent);
    assert_eq!(f.samples_per_period(), 32);
    let expected = coefficient_set(&Function::Tent.samples(32), &table(32), 4);
    assert_eq!(f.coefficients_slice(), expected.as_slice());
}

#[test]
fn recomputation_is_deterministic() {
    let a = Fourier::new(Function::Step, 6, table(64));
    let b = Fourier::new(Function::Step, 6, table(64));
    assert_eq!(a.coefficients_slice(), b.coefficients_slice());
    let mut c = Fourier::new(Function::Step, 2, table(64));
    c.set_n(6).unwrap();
    assert_eq!(a.coefficients_slice(), c.coefficients_slice());
}

#[test]
fn set_n_rejects_out_of_range_orders() {
    let mut f = Fourier::new(Function::Step, 3, table(16));
    let before = f.coefficients_slice().to_vec();
    assert_eq!(f.set_n(0), Err(OrderError::InvalidOrder));
    assert_eq!(f.set_n(-4), Err(OrderError::InvalidOrder));
    assert_eq!(f.set_n(MAX_ORDER + 1), Err(OrderError::OrderTooLarge));
    assert_eq!(f.set_n(8), Err(OrderError::OrderTooLarge));
    assert_eq!(f.n(), 3);
    assert_eq!(f.coefficients_slice(), before.as_slice());
    assert_eq!(f.set_n(5), Ok(()));
    assert_eq!(f.n(), 5);
    assert_eq!(f.coefficients_slice().len(), 11);
}

#[test]
fn change_n_keeps_order_at_least_one() {
    let mut f = Fourier::new(Function::Tent, 2, table(16));
    f.change_n(-2);
    assert_eq!(f.n(), 2);
    f.change_n(-1);
    assert_eq!(f.n(), 1);
    f.change_n(2);
    assert_eq!(f.n(), 3);
    assert_eq!(f.coefficients_slice().len(), 7);
    f.change_n(0);
    assert_eq!(f.n(), 3);
}

#[test]
fn next_f_switches_curve_and_series() {
    let mut f = Fourier::new(Function::Tent, 3, table(32));
    f.next_f();
    assert_eq!(f.f(), Function::Step);
    let fresh = Fourier::new(Function::Step, 3, table(32));
    assert_eq!(f.coefficients_slice(), fresh.coefficients_slice());
    f.set_f(Function::Tent);
    assert_eq!(f.f(), Function::Tent);
}

#[test]
fn engine_outputs_agree_with_series() {
    let f = Fourier::new(Function::Step, 4, table(32));
    let tip = f.value_at(10);
    assert_eq!(tip, superposition(f.coefficients_slice(), 10, &table(32)));
    let segs = f.vector_segments(10);
    assert_eq!(segs.len(), 9);
    assert_eq!(segs.last().unwrap().end, tip);
    let path = f.path_points(16, 8, 16);
    assert_eq!(path.len(), 6);
    assert_eq!(*path.last().unwrap(), f.value_at(16));
}

#[test]
fn visualizer_starts_at_rest() {
    let v = Visualizer::new(Function::Tent, 4, table(32));
    assert_eq!(v.progress_steps(), 0);
    assert!(!v.drawing_completed());
    assert_eq!(v.zoom_factor(), 1);
    assert_eq!(v.lap_steps(), 32 * FINE);
    assert_eq!(v.speed_steps() as u64, 32 * FINE / TICKS_PER_LAP);
    assert!(!v.camera_follows_tip());
}

#[test]
fn ticks_accumulate_below_one_period() {
    let mut v = Visualizer::new(Function::Tent, 2, table(8));
    let lap = v.lap_steps() as i64;
    let s = lap / 10 + 3;
    v.set_speed(s);
    for k in 1..=9i64 {
        assert!(!v.tick());
        assert_eq!(v.progress_steps() as i64, k * s);
        assert!(!v.drawing_completed());
    }
    assert!(v.tick());
    assert_eq!(v.progress_steps() as i64, 10 * s - lap);
    assert!(v.drawing_completed());
    assert!(!v.tick());
    assert!(v.drawing_completed());
}

#[test]
fn negative_speed_wraps_backwards() {
    let mut v = Visualizer::new(Function::Step, 2, table(8));
    let lap = v.lap_steps() as i64;
    v.set_speed(-5);
    assert!(v.tick());
    assert_eq!(v.progress_steps() as i64, lap - 5);
    assert!(v.drawing_completed());
    assert!(!v.tick());
    assert_eq!(v.progress_steps() as i64, lap - 10);
}

#[test]
fn function_and_order_changes_reset_progress() {
    let mut v = Visualizer::new(Function::Tent, 3, table(16));
    let lap = v.lap_steps() as i64;
    v.set_speed(lap / 2 + 1);
    v.tick();
    v.tick();
    assert!(v.drawing_completed());
    v.next_f();
    assert_eq!(v.progress_steps(), 0);
    assert!(!v.drawing_completed());
    assert_eq!(v.fourier().f(), Function::Step);

    v.tick();
    v.tick();
    v.set_f(Function::Tent);
    assert_eq!(v.progress_steps(), 0);
    assert!(!v.drawing_completed());

    v.tick();
    v.tick();
    assert_eq!(v.set_n(5), Ok(()));
    assert_eq!(v.progress_steps(), 0);
    assert!(!v.drawing_completed());
    assert_eq!(v.fourier().n(), 5);

    v.tick();
    v.change_n(2);
    assert_eq!(v.progress_steps(), 0);
    assert_eq!(v.fourier().n(), 7);
}

#[test]
fn rejected_order_leaves_animation_unchanged() {
    let mut v = Visualizer::new(Function::Tent, 3, table(16));
    v.tick();
    let progress = v.progress_steps();
    let before = v.fourier().coefficients_slice().to_vec();
    assert_eq!(v.set_n(0), Err(OrderError::InvalidOrder));
    assert_eq!(v.fourier().n(), 3);
    assert_eq!(v.fourier().coefficients_slice(), before.as_slice());
    assert_eq!(v.progress_steps(), progress);
    v.change_n(-3);
    assert_eq!(v.fourier().n(), 3);
    assert_eq!(v.progress_steps(), progress);
}

#[test]
fn speed_changes_scale_speed() {
    let mut v = Visualizer::new(Function::Tent, 1, table(8));
    let lap = v.lap_steps() as i64;
    v.set_speed(10);
    v.speed_up();
    assert_eq!(v.speed_steps(), 20);
    v.slow_down();
    v.slow_down();
    assert_eq!(v.speed_steps(), 5);
    v.slow_down();
    assert_eq!(v.speed_steps(), 2);
    v.set_speed(-7);
    v.slow_down();
    assert_eq!(v.speed_steps(), -3);
    v.set_speed(lap / 2 + 1);
    v.speed_up();
    assert_eq!(v.speed_steps(), lap + 2);
    v.set_speed(-lap);
    v.speed_up();
    assert_eq!(v.speed_steps(), -2 * lap);
    v.set_speed(i64::MAX / 2 + 1);
    v.speed_up();
    assert_eq!(v.speed_steps(), i64::MAX);
    v.set_speed(i64::MIN / 2 - 1);
    v.speed_up();
    assert_eq!(v.speed_steps(), i64::MIN);
}

#[test]
fn slow_down_stops_at_one_step() {
    let mut v = Visualizer::new(Function::Tent, 1, table(8));
    v.set_speed(3);
    v.slow_down();
    assert_eq!(v.speed_steps(), 1);
    v.slow_down();
    assert_eq!(v.speed_steps(), 1);
    v.speed_up();
    assert_eq!(v.speed_steps(), 2);
    v.set_speed(-1);
    v.slow_down();
    assert_eq!(v.speed_steps(), -1);
    v.set_speed(0);
    v.slow_down();
    assert_eq!(v.speed_steps(), 0);
    let mut w = Visualizer::new(Function::Tent, 1, table(8));
    for _ in 0..80 {
        w.slow_down();
    }
    assert_eq!(w.speed_steps(), 1);
    w.speed_up();
    assert_eq!(w.speed_steps(), 2);
}

#[test]
fn speeds_beyond_one_period_wrap_modulo() {
    let mut v = Visualizer::new(Function::Step, 1, table(8));
    let lap = v.lap_steps() as i64;
    v.set_speed(3 * lap + 5);
    assert!(v.tick());
    assert_eq!(v.progress_steps(), 5);
    v.set_speed(lap);
    assert!(v.tick());
    assert_eq!(v.progress_steps(), 5);
    v.set_speed(i64::MIN);
    assert!(v.tick());
    let expected = (5i128 + i64::MIN as i128).rem_euclid(lap as i128) as u64;
    assert_eq!(v.progress_steps(), expected);
    v.set_speed(i64::MAX);
    v.tick();
    assert!(v.progress_steps() < lap as u64);
}

#[test]
fn trace_density_is_capped_at_samples_per_period() {
    let mut v = Visualizer::new(Function::Step, 2, table(16));
    let lap = v.lap_steps() as i64;
    v.set_speed(lap / 2);
    v.tick();
    assert_eq!(v.time(), 8);
    assert_eq!(v.trace(4).len(), 4);
    assert_eq!(v.trace(1000).len(), 10);
    v.zoom_in();
    assert_eq!(v.trace(4).len(), 6);
    assert_eq!(v.trace(1000).len(), 10);
}

#[test]
fn zoom_doubles_and_halves() {
    let mut v = Visualizer::new(Function::Tent, 1, table(8));
    v.zoom_out();
    assert_eq!(v.zoom_factor(), 1);
    v.zoom_in();
    assert_eq!(v.zoom_factor(), 2);
    assert!(v.camera_follows_tip());
    v.zoom_in();
    v.zoom_out();
    v.zoom_out();
    assert_eq!(v.zoom_factor(), 1);
    v.set_zoom(MAX_ZOOM);
    v.zoom_in();
    assert_eq!(v.zoom_factor(), MAX_ZOOM);
}

#[test]
fn frame_geometry_follows_progress() {
    let mut v = Visualizer::new(Function::Step, 4, table(32));
    let lap = v.lap_steps() as i64;
    v.set_speed(lap / 4);
    v.tick();
    assert_eq!(v.time(), 8);
    let tip = v.tip();
    assert_eq!(tip, v.fourier().value_at(8));
    let segs = v.epicycles();
    assert_eq!(segs.len(), 9);
    assert_eq!(segs[0].start, Complex::new(0, 0));
    assert_eq!(segs.last().unwrap().end, tip);
    let open = v.trace(32);
    assert_eq!(v.trace(16).len(), 6);
    assert_eq!(open.len(), 10);
    assert_eq!(*open.last().unwrap(), tip);
    for _ in 0..4 {
        v.tick();
    }
    assert!(v.drawing_completed());
    assert_eq!(v.time(), 8);
    let closed = v.trace(32);
    assert_eq!(closed.len(), 34);
    assert_eq!(closed[32], v.fourier().value_at(32));
    assert_eq!(closed[0], closed[32]);
    assert_eq!(*closed.last().unwrap(), v.tip());
}

#[test]
fn orders_stop_below_half_the_samples() {
    let mut f = Fourier::new(Function::Step, 3, table(8));
    assert_eq!(f.set_n(4), Err(OrderError::OrderTooLarge));
    assert_eq!(f.n(), 3);
    f.change_n(1);
    assert_eq!(f.n(), 3);
    f.change_n(-2);
    assert_eq!(f.n(), 1);
    let mut v = Visualizer::new(Function::Tent, 3, table(8));
    v.tick();
    let progress = v.progress_steps();
    assert_eq!(v.set_n(5), Err(OrderError::OrderTooLarge));
    v.change_n(2);
    assert_eq!(v.fourier().n(), 3);
    assert_eq!(v.progress_steps(), progress);
}
