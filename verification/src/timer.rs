//! Timers that fire again and again, at a fixed period.

use vstd::arithmetic::div_mod::{
    lemma_div_is_ordered, lemma_fundamental_div_mod, lemma_fundamental_div_mod_converse,
    lemma_mod_multiples_vanish,
};
use vstd::prelude::*;

verus! {

/// A timer that runs again and again, in nanoseconds.
#[derive(Clone, Copy, Debug, PartialEq, Eq, Structural)]
pub struct Ticker {
    /// The time since it last fired, as far as it is not a whole period.
    pub elapsed: u64,
    pub period: u64,
}

impl Ticker {
    /// It is within its period.
    pub open spec fn wf(self) -> bool {
        self.elapsed < self.period
    }

    /// It reaches the end of its period within some time.
    pub open spec fn fires(self, delta: u64) -> bool {
        self.elapsed + delta >= self.period
    }

    /// The timer some time later: what goes beyond whole periods is kept.
    pub open spec fn later(self, delta: u64) -> Ticker {
        Ticker {
            elapsed: ((self.elapsed + delta) % (self.period as int)) as u64,
            period: self.period,
        }
    }

    /// A timer at the start of its period.
    pub fn new(period: u64) -> (r: Self)
        requires
            period > 0,
        ensures
            r == (Ticker { elapsed: 0, period }),
            r.wf(),
    {
        Ticker { elapsed: 0, period }
    }

    /// Lets time pass, and tells whether the timer fired. It fires once, however
    /// many periods went by.
    pub fn tick(&mut self, delta: u64) -> (fired: bool)
        requires
            old(self).wf(),
        ensures
            fired == old(self).fires(delta),
            *final(self) == old(self).later(delta),
            final(self).elapsed == (old(self).elapsed + delta) % (old(self).period as int),
            final(self).wf(),
    {
        let total: u128 = self.elapsed as u128 + delta as u128;
        let period: u128 = self.period as u128;
        self.elapsed = (total % period) as u64;
        total >= period
    }
}

/// The time that went by in several steps.
pub open spec fn total(deltas: Seq<u64>) -> int
    decreases deltas.len(),
{
    if deltas.len() == 0 {
        0
    } else {
        total(deltas.drop_last()) + deltas.last()
    }
}

/// A new timer, after several steps.
pub open spec fn ticked(period: u64, deltas: Seq<u64>) -> Ticker
    decreases deltas.len(),
{
    if deltas.len() == 0 {
        Ticker { elapsed: 0, period }
    } else {
        ticked(period, deltas.drop_last()).later(deltas.last())
    }
}

/// How often a new timer fires in several steps.
pub open spec fn firings(period: u64, deltas: Seq<u64>) -> nat
    decreases deltas.len(),
{
    if deltas.len() == 0 {
        0
    } else {
        firings(period, deltas.drop_last()) + if ticked(period, deltas.drop_last()).fires(
            deltas.last(),
        ) {
            1nat
        } else {
            0nat
        }
    }
}

/// A timer loses no time: it is as far into its period as the whole time is
/// beyond whole periods.
pub proof fn law_ticker_keeps_time(period: u64, deltas: Seq<u64>)
    requires
        period > 0,
    ensures
        total(deltas) >= 0,
        ticked(period, deltas).period == period,
        ticked(period, deltas).elapsed == total(deltas) % (period as int),
        ticked(period, deltas).wf(),
    decreases deltas.len(),
{
    if deltas.len() > 0 {
        let front = deltas.drop_last();
        let p = period as int;
        law_ticker_keeps_time(period, front);
        lemma_fundamental_div_mod(total(front), p);
        lemma_mod_multiples_vanish(
            total(front) / p,
            total(front) % p + deltas.last(),
            p,
        );
    } else {
        assert(0int % (period as int) == 0) by (nonlinear_arith)
            requires
                period > 0,
        ;
    }
}

/// A timer fires at exactly the steps in which the whole time reaches a further
/// multiple of the period.
pub proof fn law_ticker_fires_at_multiples(period: u64, deltas: Seq<u64>, delta: u64)
    requires
        period > 0,
    ensures
        ticked(period, deltas).fires(delta) <==> (total(deltas) + delta) / (period as int) > total(
            deltas,
        ) / (period as int),
        ticked(period, deltas).fires(delta) && delta <= period ==> (total(deltas) + delta) / (
        period as int) == total(deltas) / (period as int) + 1,
{
    let p = period as int;
    let before = total(deltas);
    let after = before + delta;
    let q = before / p;
    law_ticker_keeps_time(period, deltas);
    lemma_fundamental_div_mod(before, p);
    let e = before % p;
    assert(p * (q + 1) == p * q + p) by (nonlinear_arith);
    if e + delta < p {
        assert(p * q == q * p) by (nonlinear_arith);
        lemma_fundamental_div_mod_converse(after, p, q, e + delta);
    } else {
        assert((q + 1) * p == p * q + p) by (nonlinear_arith);
        lemma_fundamental_div_mod_converse((q + 1) * p, p, q + 1, 0);
        lemma_div_is_ordered((q + 1) * p, after, p);
        if delta <= period {
            lemma_fundamental_div_mod_converse(after, p, q + 1, e + delta - p);
        }
    }
}

/// A timer fires no oftener than whole periods go by, and as often, where no step
/// is longer than a period.
pub proof fn law_ticker_fires_each_period(period: u64, deltas: Seq<u64>)
    requires
        period > 0,
    ensures
        firings(period, deltas) <= total(deltas) / (period as int),
        (forall|i: int| 0 <= i < deltas.len() ==> #[trigger] deltas[i] <= period) ==> firings(
            period,
            deltas,
        ) == total(deltas) / (period as int),
    decreases deltas.len(),
{
    let p = period as int;
    if deltas.len() > 0 {
        let front = deltas.drop_last();
        law_ticker_fires_each_period(period, front);
        law_ticker_fires_at_multiples(period, front, deltas.last());
        law_ticker_keeps_time(period, front);
        lemma_div_is_ordered(total(front), total(deltas), p);
        if forall|i: int| 0 <= i < deltas.len() ==> #[trigger] deltas[i] <= period {
            assert forall|i: int| 0 <= i < front.len() implies #[trigger] front[i] <= period by {
                assert(deltas[i] <= period);
            }
            assert(deltas[deltas.len() - 1] <= period);
        }
    } else {
        lemma_fundamental_div_mod_converse(0, p, 0, 0);
    }
}

} // verus!
