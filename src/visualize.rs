use vstd::prelude::*;
use crate::complex::Complex;
use crate::fourier::{Fourier, OrderError};
use crate::functions::Function;
use crate::geometry::{Segment, is_epicycle_chain, is_trace};
use crate::series::{RootTable, order_fits, total_spec, lemma_neg_mod};

verus! {

/// Steps of progress between two consecutive samples of the curve.
pub const FINE: u64 = 65536;

/// Ticks that one period takes at the starting speed.
pub const TICKS_PER_LAP: u64 = 600;

/// Largest zoom factor.
pub const MAX_ZOOM: u16 = 32768;

/// Progress after one tick: the sum taken modulo the length of a period.
pub open spec fn tick_progress(progress: int, speed: int, lap: int) -> int {
    (progress + speed) % lap
}

/// A tick wraps when the sum leaves `[0, lap)`, across either end.
pub open spec fn tick_wraps(progress: int, speed: int, lap: int) -> bool {
    progress + speed < 0 || progress + speed >= lap
}

/// Progress after `k` ticks at speed `speed`, from `start`.
pub open spec fn progress_after(start: int, speed: int, lap: int, k: nat) -> int
    decreases k,
{
    if k == 0 {
        start
    } else {
        tick_progress(progress_after(start, speed, lap, (k - 1) as nat), speed, lap)
    }
}

/// The animation: a curve with its series, the progress through the current
/// period, the speed, whether a full period has been traced since the last reset,
/// and the zoom factor of the view.
pub struct Visualizer {
    fourier: Fourier,
    progress: u64,
    progress_increase: i64,
    drawing_completed: bool,
    zoom_factor: u16,
}

impl Visualizer {
    /// The curve and its series.
    pub closed spec fn engine(&self) -> Fourier {
        self.fourier
    }

    /// Progress through the period, in steps of `1 / (m * FINE)` of a period.
    pub closed spec fn progress(&self) -> int {
        self.progress as int
    }

    /// Change of progress per tick.
    pub closed spec fn speed(&self) -> int {
        self.progress_increase as int
    }

    /// Whether a full period has been traced since the last reset.
    pub closed spec fn lap_completed(&self) -> bool {
        self.drawing_completed
    }

    /// The zoom factor of the view.
    pub closed spec fn zoom(&self) -> int {
        self.zoom_factor as int
    }

    /// Steps of progress in one period.
    pub open spec fn lap(&self) -> int {
        self.engine().roots().len() * FINE
    }

    /// The time of the series that the progress stands at, in samples.
    pub open spec fn time_spec(&self) -> int {
        self.progress() / FINE as int
    }

    pub closed spec fn wf(&self) -> bool {
        &&& self.fourier.wf()
        &&& self.progress < self.lap()
        &&& 1 <= self.zoom_factor <= MAX_ZOOM
    }

    /// What a well-formed animation offers its callers.
    pub proof fn lemma_wf(&self)
        requires
            self.wf(),
        ensures
            self.engine().wf(),
            0 <= self.progress() < self.lap(),
            1 <= self.zoom() <= MAX_ZOOM,
            1 <= self.engine().roots().len() <= crate::functions::MAX_SAMPLES,
    {
        self.fourier.lemma_wf();
    }

    /// The animation at its start: progress zero, no period traced, no zoom, and a
    /// speed of one period per `TICKS_PER_LAP` ticks.
    pub fn new(f: Function, n: isize, table: RootTable) -> (r: Visualizer)
        requires
            table.wf(),
            order_fits(n as int, table@.len() as int),
        ensures
            r.wf(),
            r.engine().consistent(),
            r.engine().function() == f,
            r.engine().order() == n,
            r.engine().roots() == table@,
            r.progress() == 0,
            !r.lap_completed(),
            r.speed() == r.lap() / TICKS_PER_LAP as int,
            r.zoom() == 1,
    {
        let fourier = Fourier::new(f, n, table);
        proof {
            fourier.lemma_wf();
        }
        let lap = fourier.samples_per_period() * FINE;
        Visualizer {
            fourier,
            progress: 0,
            progress_increase: (lap / TICKS_PER_LAP) as i64,
            drawing_completed: false,
            zoom_factor: 1,
        }
    }

    pub fn fourier(&self) -> (r: &Fourier)
        ensures
            *r == self.engine(),
    {
        &self.fourier
    }

    pub fn progress_steps(&self) -> (r: u64)
        ensures
            r == self.progress(),
    {
        self.progress
    }

    pub fn speed_steps(&self) -> (r: i64)
        ensures
            r == self.speed(),
    {
        self.progress_increase
    }

    pub fn drawing_completed(&self) -> (r: bool)
        ensures
            r == self.lap_completed(),
    {
        self.drawing_completed
    }

    pub fn zoom_factor(&self) -> (r: u16)
        ensures
            r == self.zoom(),
    {
        self.zoom_factor
    }

    /// Steps of progress in one period.
    pub fn lap_steps(&self) -> (r: u64)
        requires
            self.wf(),
        ensures
            r == self.lap(),
    {
        proof {
            self.lemma_wf();
        }
        self.fourier.samples_per_period() * FINE
    }

    /// Advances the progress by the speed, modulo one period. Returns whether the
    /// step crossed the end or the start of the period; from that step on, a full
    /// period counts as traced.
    pub fn tick(&mut self) -> (wrapped: bool)
        requires
            old(self).wf(),
        ensures
            final(self).wf(),
            final(self).progress() == tick_progress(old(self).progress(), old(self).speed(), old(self).lap()),
            wrapped == tick_wraps(old(self).progress(), old(self).speed(), old(self).lap()),
            final(self).lap_completed() == (old(self).lap_completed() || wrapped),
            final(self).engine() == old(self).engine(),
            final(self).speed() == old(self).speed(),
            final(self).zoom() == old(self).zoom(),
    {
        proof {
            self.lemma_wf();
        }
        let lap = self.lap_steps() as i128;
        let raw: i128 = self.progress as i128 + self.progress_increase as i128;
        let wrapped = raw < 0 || raw >= lap;
        let next: i128 = if raw >= 0 {
            raw % lap
        } else {
            let a = (-raw) % lap;
            proof {
                lemma_neg_mod(-raw, lap as int);
            }
            if a == 0 {
                0
            } else {
                lap - a
            }
        };
        proof {
            vstd::arithmetic::div_mod::lemma_mod_bound(raw as int, lap as int);
        }
        self.progress = next as u64;
        if wrapped {
            self.drawing_completed = true;
        }
        wrapped
    }

    /// Sets the order and recomputes the series, starting the period over; a refused
    /// order leaves everything as it was.
    pub fn set_n(&mut self, n: isize) -> (r: Result<(), OrderError>)
        requires
            old(self).wf(),
        ensures
            final(self).wf(),
            n < 1 ==> r == Err::<(), OrderError>(OrderError::InvalidOrder) && *final(self) == *old(self),
            n >= 1 && 2 * n >= old(self).engine().roots().len() ==> r == Err::<(), OrderError>(
                OrderError::OrderTooLarge,
            ) && *final(self) == *old(self),
            order_fits(n as int, old(self).engine().roots().len() as int) ==> {
                &&& r is Ok
                &&& final(self).engine().order() == n
                &&& final(self).engine().function() == old(self).engine().function()
                &&& final(self).engine().roots() == old(self).engine().roots()
                &&& final(self).engine().consistent()
                &&& final(self).progress() == 0
                &&& !final(self).lap_completed()
                &&& final(self).speed() == old(self).speed()
                &&& final(self).zoom() == old(self).zoom()
            },
    {
        let r = self.fourier.set_n(n);
        if r.is_ok() {
            self.progress = 0;
            self.drawing_completed = false;
        }
        r
    }

    /// Moves the order by `change` and starts the period over, when the new order
    /// stays at least one and below half the number of samples per period; otherwise
    /// leaves everything as it was.
    pub fn change_n(&mut self, change: isize)
        requires
            old(self).wf(),
        ensures
            final(self).wf(),
            change != 0 && order_fits(
                old(self).engine().order() + change,
                old(self).engine().roots().len() as int,
            ) ==> {
                &&& final(self).engine().order() == old(self).engine().order() + change
                &&& final(self).engine().function() == old(self).engine().function()
                &&& final(self).engine().roots() == old(self).engine().roots()
                &&& final(self).engine().consistent()
                &&& final(self).progress() == 0
                &&& !final(self).lap_completed()
                &&& final(self).speed() == old(self).speed()
                &&& final(self).zoom() == old(self).zoom()
            },
            !(change != 0 && order_fits(
                old(self).engine().order() + change,
                old(self).engine().roots().len() as int,
            )) ==> *final(self) == *old(self),
    {
        let before = self.fourier.n();
        self.fourier.change_n(change);
        if self.fourier.n() != before {
            self.progress = 0;
            self.drawing_completed = false;
        }
    }

    /// Replaces the curve, recomputes the series and starts the period over.
    pub fn set_f(&mut self, f: Function)
        requires
            old(self).wf(),
        ensures
            final(self).wf(),
            final(self).engine().function() == f,
            final(self).engine().order() == old(self).engine().order(),
            final(self).engine().roots() == old(self).engine().roots(),
            final(self).engine().consistent(),
            final(self).progress() == 0,
            !final(self).lap_completed(),
            final(self).speed() == old(self).speed(),
            final(self).zoom() == old(self).zoom(),
    {
        self.fourier.set_f(f);
        self.progress = 0;
        self.drawing_completed = false;
    }

    /// Moves on to the next curve, recomputes the series and starts the period over.
    pub fn next_f(&mut self)
        requires
            old(self).wf(),
        ensures
            final(self).wf(),
            final(self).engine().function() == old(self).engine().function().next_spec(),
            final(self).engine().order() == old(self).engine().order(),
            final(self).engine().roots() == old(self).engine().roots(),
            final(self).engine().consistent(),
            final(self).progress() == 0,
            !final(self).lap_completed(),
            final(self).speed() == old(self).speed(),
            final(self).zoom() == old(self).zoom(),
    {
        self.fourier.next_f();
        self.progress = 0;
        self.drawing_completed = false;
    }

    /// Sets the speed, in steps of progress per tick; a negative speed runs the
    /// animation backwards, and a speed of a period or more per tick skips whole
    /// periods.
    pub fn set_speed(&mut self, speed: i64)
        requires
            old(self).wf(),
        ensures
            final(self).wf(),
            final(self).speed() == speed,
            final(self).engine() == old(self).engine(),
            final(self).progress() == old(self).progress(),
            final(self).lap_completed() == old(self).lap_completed(),
            final(self).zoom() == old(self).zoom(),
    {
        self.progress_increase = speed;
    }

    /// Doubles the speed; a speed whose double does not fit in an `i64` saturates at
    /// the limit of its sign.
    pub fn speed_up(&mut self)
        requires
            old(self).wf(),
        ensures
            final(self).wf(),
            final(self).speed() == (if 2 * old(self).speed() > i64::MAX {
                i64::MAX as int
            } else if 2 * old(self).speed() < i64::MIN {
                i64::MIN as int
            } else {
                2 * old(self).speed()
            }),
            final(self).engine() == old(self).engine(),
            final(self).progress() == old(self).progress(),
            final(self).lap_completed() == old(self).lap_completed(),
            final(self).zoom() == old(self).zoom(),
    {
        proof {
            self.lemma_wf();
        }
        let s = self.progress_increase;
        self.progress_increase = if s > i64::MAX / 2 {
            i64::MAX
        } else if s < i64::MIN / 2 {
            i64::MIN
        } else {
            2 * s
        };
    }

    /// Halves the speed, rounding toward zero, but stops at a size of one step per
    /// tick so that `speed_up` can bring the animation back.
    pub fn slow_down(&mut self)
        requires
            old(self).wf(),
        ensures
            final(self).wf(),
            final(self).speed() == (if -1 <= old(self).speed() <= 1 {
                old(self).speed()
            } else {
                crate::complex::div_trunc(old(self).speed(), 2)
            }),
            final(self).engine() == old(self).engine(),
            final(self).progress() == old(self).progress(),
            final(self).lap_completed() == old(self).lap_completed(),
            final(self).zoom() == old(self).zoom(),
    {
        proof {
            self.lemma_wf();
        }
        let s = self.progress_increase;
        self.progress_increase = if -1 <= s && s <= 1 {
            s
        } else if s >= 0 {
            s / 2
        } else {
            (-((-(s as i128)) / 2)) as i64
        };
    }

    /// Sets the zoom factor; the view follows the tip of the chain when it is
    /// above one.
    pub fn set_zoom(&mut self, zoom: u16)
        requires
            old(self).wf(),
            1 <= zoom <= MAX_ZOOM,
        ensures
            final(self).wf(),
            final(self).zoom() == zoom,
            final(self).engine() == old(self).engine(),
            final(self).progress() == old(self).progress(),
            final(self).speed() == old(self).speed(),
            final(self).lap_completed() == old(self).lap_completed(),
    {
        self.zoom_factor = zoom;
    }

    /// Doubles the zoom factor, up to `MAX_ZOOM`.
    pub fn zoom_in(&mut self)
        requires
            old(self).wf(),
        ensures
            final(self).wf(),
            final(self).zoom() == (if 2 * old(self).zoom() > MAX_ZOOM {
                MAX_ZOOM as int
            } else {
                2 * old(self).zoom()
            }),
            final(self).engine() == old(self).engine(),
            final(self).progress() == old(self).progress(),
            final(self).speed() == old(self).speed(),
            final(self).lap_completed() == old(self).lap_completed(),
    {
        if self.zoom_factor <= MAX_ZOOM / 2 {
            self.zoom_factor = self.zoom_factor * 2;
        } else {
            self.zoom_factor = MAX_ZOOM;
        }
    }

    /// Halves the zoom factor, rounding down, but not below one.
    pub fn zoom_out(&mut self)
        requires
            old(self).wf(),
        ensures
            final(self).wf(),
            final(self).zoom() == (if old(self).zoom() > 1 {
                old(self).zoom() / 2
            } else {
                1
            }),
            final(self).engine() == old(self).engine(),
            final(self).progress() == old(self).progress(),
            final(self).speed() == old(self).speed(),
            final(self).lap_completed() == old(self).lap_completed(),
    {
        if self.zoom_factor > 1 {
            self.zoom_factor = self.zoom_factor / 2;
        }
    }

    /// The view follows the tip of the chain when zoomed in, and stays centred
    /// otherwise.
    pub fn camera_follows_tip(&self) -> (r: bool)
        ensures
            r == (self.zoom() > 1),
    {
        self.zoom_factor > 1
    }

    /// The time of the series, in samples, that the progress stands at.
    pub fn time(&self) -> (r: u64)
        requires
            self.wf(),
        ensures
            r == self.time_spec(),
            r <= self.engine().roots().len(),
    {
        proof {
            self.lemma_wf();
            vstd::arithmetic::div_mod::lemma_div_is_ordered(self.progress(), self.lap(), FINE as int);
            vstd::arithmetic::div_mod::lemma_div_by_multiple(self.engine().roots().len() as int, FINE as int);
        }
        self.progress / FINE
    }

    /// The end of the trace: the whole period once one has been traced, else the
    /// current time.
    pub open spec fn trace_end(&self) -> int {
        if self.lap_completed() {
            self.engine().roots().len() as int
        } else {
            self.time_spec()
        }
    }

    /// Samples of the trace per period: `points_per_period` at zoom factor one, and
    /// that many times the zoom factor when zoomed in, so that the trace stays smooth;
    /// never more than the `m` samples per period that the series is evaluated at,
    /// since a finer grid would only repeat points.
    pub open spec fn trace_density(&self, points_per_period: int) -> int {
        let scaled = points_per_period * self.zoom();
        if scaled > self.engine().roots().len() {
            self.engine().roots().len() as int
        } else {
            scaled
        }
    }

    /// The trace of the series up to `trace_end`, sampled `trace_density` times per
    /// period, with a last point exactly at the current time.
    pub fn trace(&self, points_per_period: u64) -> (r: Vec<Complex>)
        requires
            self.wf(),
            1 <= points_per_period <= 0x1_0000,
        ensures
            is_trace(
                r@,
                self.engine().coefficients(),
                self.engine().roots(),
                self.trace_end(),
                self.trace_density(points_per_period as int),
                self.time_spec(),
            ),
    {
        proof {
            self.lemma_wf();
            assert(1 <= points_per_period * self.zoom() <= 0x1_0000 * 0x8000) by (nonlinear_arith)
                requires
                    1 <= points_per_period <= 0x1_0000,
                    1 <= self.zoom() <= 0x8000,
            ;
        }
        let scaled = points_per_period * self.zoom_factor as u64;
        let m = self.fourier.samples_per_period();
        let density = if scaled > m {
            m
        } else {
            scaled
        };
        let now = self.time();
        let end = if self.drawing_completed {
            self.fourier.samples_per_period()
        } else {
            now
        };
        self.fourier.path_points(end, density, now)
    }

    /// The chain of rotating vectors at the current time.
    pub fn epicycles(&self) -> (r: Vec<Segment>)
        requires
            self.wf(),
        ensures
            is_epicycle_chain(r@, self.engine().coefficients(), self.time_spec(), self.engine().roots()),
    {
        let t = self.time();
        self.fourier.vector_segments(t)
    }

    /// The tip of the chain of rotating vectors: the value of the series now.
    pub fn tip(&self) -> (r: Complex)
        requires
            self.wf(),
        ensures
            r@ == total_spec(self.engine().coefficients(), self.time_spec(), self.engine().roots()),
    {
        let t = self.time();
        self.fourier.value_at(t)
    }
}

/// From progress zero, `k` ticks at a speed `s >= 0` with `k * s` short of a period
/// reach progress `k * s` exactly, and none of them wraps.
pub proof fn lemma_ticks_accumulate(speed: int, lap: int, k: nat)
    requires
        lap >= 1,
        0 <= speed,
        k * speed < lap,
    ensures
        progress_after(0, speed, lap, k) == k * speed,
        forall|j: nat| j < k ==> !tick_wraps(#[trigger] progress_after(0, speed, lap, j), speed, lap),
    decreases k,
{
    if k > 0 {
        let j = (k - 1) as nat;
        assert(j * speed <= k * speed) by (nonlinear_arith)
            requires
                j < k,
                speed >= 0,
        ;
        lemma_ticks_accumulate(speed, lap, j);
        assert(j * speed + speed == k * speed) by (nonlinear_arith)
            requires
                j + 1 == k,
        ;
        assert(j * speed >= 0) by (nonlinear_arith)
            requires
                speed >= 0,
        ;
        vstd::arithmetic::div_mod::lemma_small_mod((k * speed) as nat, lap as nat);
        assert(progress_after(0, speed, lap, k) == tick_progress(
            progress_after(0, speed, lap, j),
            speed,
            lap,
        ));
        assert forall|i: nat| i < k implies !tick_wraps(#[trigger] progress_after(0, speed, lap, i), speed, lap) by {
            if i < j {
            } else {
                assert(i == j);
            }
        }
    } else {
        assert(k * speed == 0) by (nonlinear_arith)
            requires
                k == 0,
        ;
    }
}

/// From progress zero at a speed `s > 0`, the tick that carries the accumulated
/// progress `k * s` past a full period is the one that wraps.
pub proof fn lemma_tick_wraps_on_crossing(speed: int, lap: int, k: nat)
    requires
        lap >= 1,
        0 < speed,
        k * speed < lap,
        lap <= (k + 1) * speed,
    ensures
        tick_wraps(progress_after(0, speed, lap, k), speed, lap),
{
    lemma_ticks_accumulate(speed, lap, k);
    assert(k * speed + speed == (k + 1) * speed) by (nonlinear_arith);
}

} // verus!
