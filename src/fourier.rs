use vstd::prelude::*;
use crate::complex::{Complex, ONE, views};
use crate::functions::{Function, HALF_SPACE};
use crate::geometry::{Segment, epicycles, is_epicycle_chain, is_trace, trace};
use crate::series::{
    RootTable, MAX_VALUE, coefficient_set, is_coefficient_set, order_fits, series_in_range,
    superposition, total_spec,
};

verus! {

/// Why a requested order was refused.
#[derive(Copy, Clone, Debug, PartialEq, Eq, Structural)]
pub enum OrderError {
    /// The order is below one.
    InvalidOrder,
    /// Twice the order reaches the number of samples per period: the indices would
    /// alias, `n + m` standing for the same frequency as `n`.
    OrderTooLarge,
}

/// `coeffs` is the coefficient set of order `order` of the curve `f`, sampled at
/// one point per entry of `roots`.
pub open spec fn is_series_of(coeffs: Seq<(isize, Complex)>, f: Function, roots: Seq<Complex>, order: int) -> bool {
    is_coefficient_set(coeffs, f.samples_spec(roots.len() as int), roots, order)
}

/// A curve together with its truncated Fourier series. The series is replaced as a
/// whole whenever the curve or the order changes.
pub struct Fourier {
    f: Function,
    coefficient_cache: Vec<(isize, Complex)>,
    n: isize,
    table: RootTable,
}

impl Fourier {
    /// The current curve.
    pub closed spec fn function(&self) -> Function {
        self.f
    }

    /// The current order `N`: the series has the indices `-N..=N`.
    pub closed spec fn order(&self) -> int {
        self.n as int
    }

    /// The coefficients `(n, c_n)` held, in increasing order of `n`.
    pub closed spec fn coefficients(&self) -> Seq<(isize, Complex)> {
        self.coefficient_cache@
    }

    /// The table of roots of unity; its length is the number of samples per period.
    pub closed spec fn roots(&self) -> Seq<Complex> {
        self.table@
    }

    pub closed spec fn wf(&self) -> bool {
        &&& self.table.wf()
        &&& order_fits(self.n as int, self.table@.len() as int)
        &&& is_coefficient_set(
            self.coefficient_cache@,
            self.f.samples_spec(self.table@.len() as int),
            self.table@,
            self.n as int,
        )
        &&& series_in_range(self.coefficient_cache@)
    }

    /// The coefficients held are those of the current curve and order.
    pub open spec fn consistent(&self) -> bool {
        &&& order_fits(self.order(), self.roots().len() as int)
        &&& is_series_of(self.coefficients(), self.function(), self.roots(), self.order())
    }

    /// What a well-formed engine offers its callers.
    pub proof fn lemma_wf(&self)
        requires
            self.wf(),
        ensures
            self.consistent(),
            series_in_range(self.coefficients()),
            self.coefficients().len() == 2 * self.order() + 1,
            crate::series::roots_in_range(self.roots()),
    {
    }

    /// Computes the series of order `n` of `f`, with one sample per entry of `table`.
    pub fn new(f: Function, n: isize, table: RootTable) -> (r: Fourier)
        requires
            table.wf(),
            order_fits(n as int, table@.len() as int),
        ensures
            r.wf(),
            r.consistent(),
            r.function() == f,
            r.order() == n,
            r.roots() == table@,
    {
        let mut r = Fourier { f, coefficient_cache: Vec::new(), n, table };
        r.update_cache();
        r
    }

    /// Samples the curve and recomputes the whole series.
    fn update_cache(&mut self)
        requires
            old(self).table.wf(),
            order_fits(old(self).n as int, old(self).table@.len() as int),
        ensures
            final(self).wf(),
            final(self).f == old(self).f,
            final(self).n == old(self).n,
            final(self).table@ == old(self).table@,
    {
        let m = self.table.len();
        let samples = self.f.samples(m);
        proof {
            assert(views(samples@) =~= self.f.samples_spec(m as int));
            assert(HALF_SPACE * ONE <= MAX_VALUE);
        }
        self.coefficient_cache = coefficient_set(&samples, &self.table, self.n);
    }

    /// The current order.
    pub fn n(&self) -> (r: isize)
        requires
            self.wf(),
        ensures
            r == self.order(),
    {
        self.n
    }

    /// The current curve.
    pub fn f(&self) -> (r: Function)
        ensures
            r == self.function(),
    {
        self.f
    }

    /// Number of samples per period.
    pub fn samples_per_period(&self) -> (r: u64)
        requires
            self.wf(),
        ensures
            r == self.roots().len(),
    {
        self.table.len()
    }

    /// The coefficients `(n, c_n)` of the series, in increasing order of `n`.
    pub fn coefficients_slice(&self) -> (r: &[(isize, Complex)])
        ensures
            r@ == self.coefficients(),
    {
        self.coefficient_cache.as_slice()
    }

    /// Sets the order to `n` and recomputes the series; an order below one, or whose
    /// double reaches the number of samples per period, is refused and leaves
    /// everything as it was.
    pub fn set_n(&mut self, n: isize) -> (r: Result<(), OrderError>)
        requires
            old(self).wf(),
        ensures
            final(self).wf(),
            n < 1 ==> r == Err::<(), OrderError>(OrderError::InvalidOrder) && *final(self) == *old(self),
            n >= 1 && 2 * n >= old(self).roots().len() ==> r == Err::<(), OrderError>(
                OrderError::OrderTooLarge,
            ) && *final(self) == *old(self),
            order_fits(n as int, old(self).roots().len() as int) ==> {
                &&& r is Ok
                &&& final(self).order() == n
                &&& final(self).function() == old(self).function()
                &&& final(self).roots() == old(self).roots()
                &&& final(self).consistent()
            },
    {
        if n < 1 {
            return Err(OrderError::InvalidOrder);
        }
        if 2 * (n as i128) >= self.table.len() as i128 {
            return Err(OrderError::OrderTooLarge);
        }
        self.n = n;
        self.update_cache();
        proof {
            self.lemma_wf();
        }
        Ok(())
    }

    /// Moves the order by `change`, when the result stays at least one and below half
    /// the number of samples per period; otherwise, or for no change, leaves
    /// everything as it was.
    pub fn change_n(&mut self, change: isize)
        requires
            old(self).wf(),
        ensures
            final(self).wf(),
            change != 0 && order_fits(old(self).order() + change, old(self).roots().len() as int) ==> {
                &&& final(self).order() == old(self).order() + change
                &&& final(self).function() == old(self).function()
                &&& final(self).roots() == old(self).roots()
                &&& final(self).consistent()
            },
            !(change != 0 && order_fits(old(self).order() + change, old(self).roots().len() as int))
                ==> *final(self) == *old(self),
    {
        let target = self.n as i128 + change as i128;
        if change == 0 || target < 1 || 2 * target >= self.table.len() as i128 {
            return;
        }
        let _ = self.set_n(target as isize);
    }

    /// Replaces the curve and recomputes the series.
    pub fn set_f(&mut self, f: Function)
        requires
            old(self).wf(),
        ensures
            final(self).wf(),
            final(self).function() == f,
            final(self).order() == old(self).order(),
            final(self).roots() == old(self).roots(),
            final(self).consistent(),
    {
        self.f = f;
        self.update_cache();
        proof {
            self.lemma_wf();
        }
    }

    /// Moves on to the next curve and recomputes the series.
    pub fn next_f(&mut self)
        requires
            old(self).wf(),
        ensures
            final(self).wf(),
            final(self).function() == old(self).function().next_spec(),
            final(self).order() == old(self).order(),
            final(self).roots() == old(self).roots(),
            final(self).consistent(),
    {
        let f = self.f.next();
        self.set_f(f);
    }

    /// The value of the series at time `t / m`: the tip of the chain of vectors.
    pub fn value_at(&self, t: u64) -> (r: Complex)
        requires
            self.wf(),
            t <= self.roots().len(),
        ensures
            r@ == total_spec(self.coefficients(), t as int, self.roots()),
    {
        superposition(self.coefficient_cache.as_slice(), t, &self.table)
    }

    /// The trace of the series from time `0` to time `end / m`, sampled `density`
    /// times per period, with a last point exactly at time `now / m`.
    pub fn path_points(&self, end: u64, density: u64, now: u64) -> (r: Vec<Complex>)
        requires
            self.wf(),
            end <= self.roots().len(),
            now <= self.roots().len(),
            1 <= density <= 0x1_0000_0000,
        ensures
            is_trace(r@, self.coefficients(), self.roots(), end as int, density as int, now as int),
    {
        trace(self.coefficient_cache.as_slice(), &self.table, end, density, now)
    }

    /// The chain of rotating vectors at time `t / m`, in the order of the series.
    pub fn vector_segments(&self, t: u64) -> (r: Vec<Segment>)
        requires
            self.wf(),
            t <= self.roots().len(),
        ensures
            is_epicycle_chain(r@, self.coefficients(), t as int, self.roots()),
    {
        epicycles(self.coefficient_cache.as_slice(), t, &self.table)
    }
}

/// The series held is a function of the curve, the order and the table alone:
/// two engines that agree on those hold the same coefficients, however the
/// computation of the terms was scheduled.
pub proof fn lemma_series_deterministic(a: &Fourier, b: &Fourier)
    requires
        a.consistent(),
        b.consistent(),
        a.function() == b.function(),
        a.order() == b.order(),
        a.roots() == b.roots(),
    ensures
        a.coefficients() == b.coefficients(),
{
    crate::series::lemma_coefficient_set_deterministic(
        a.coefficients(),
        b.coefficients(),
        a.function().samples_spec(a.roots().len() as int),
        a.roots(),
        a.order(),
    );
}

} // verus!
