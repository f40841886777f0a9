use vstd::prelude::*;

verus! {

use vstd::arithmetic::div_mod::{
    lemma_add_mod_noop_right, lemma_fundamental_div_mod, lemma_fundamental_div_mod_converse,
};

/// One whole event in the fixed-point time scale used by `ArrivalProcess`:
/// values carry 32 fractional bits, so `FP_ONE` stands for 1.0.
pub const FP_ONE: u64 = 0x1_0000_0000;

/// Stateful generator that turns a stream of sampled inter-arrival gaps into
/// a non-negative integer number of events per call, carrying the fractional
/// remainder so that no fraction of an event is ever lost or invented across
/// calls. The gap fed to each call is the sampled time advance for one step,
/// in `FP_ONE` fixed point; for a Poisson approximation the caller samples it
/// as rate times an exponential variate.
pub struct ArrivalProcess {
    acc: u64,
}

/// Sum of a sequence of gaps, as an unbounded integer.
pub open spec fn gap_sum(gaps: Seq<u64>) -> int
    decreases gaps.len(),
{
    if gaps.len() == 0 {
        0
    } else {
        gaps[0] + gap_sum(gaps.drop_first())
    }
}

/// The accumulator left after feeding `gaps` one call at a time, starting
/// from `acc0`, exactly as `ArrivalProcess::draw` advances it.
pub open spec fn run_acc(acc0: int, gaps: Seq<u64>) -> int
    decreases gaps.len(),
{
    if gaps.len() == 0 {
        acc0
    } else {
        run_acc((acc0 + gaps[0]) % (FP_ONE as int), gaps.drop_first())
    }
}

/// The total event count returned over feeding `gaps` one call at a time,
/// starting from `acc0`, exactly as `ArrivalProcess::draw` counts them.
pub open spec fn run_total(acc0: int, gaps: Seq<u64>) -> int
    decreases gaps.len(),
{
    if gaps.len() == 0 {
        0
    } else {
        (acc0 + gaps[0]) / (FP_ONE as int) + run_total(
            (acc0 + gaps[0]) % (FP_ONE as int),
            gaps.drop_first(),
        )
    }
}

impl ArrivalProcess {
    /// Fractional leftover arrival time, in `FP_ONE` fixed point.
    pub closed spec fn acc(self) -> u64 {
        self.acc
    }

    /// The leftover is a proper fraction: strictly below one whole event.
    pub open spec fn wf(self) -> bool {
        self.acc() < FP_ONE
    }

    /// A fresh process holds no leftover arrival time.
    pub fn new() -> (p: ArrivalProcess)
        ensures
            p.wf(),
            p.acc() == 0,
    {
        ArrivalProcess { acc: 0 }
    }

    /// Adds one sampled gap to the accumulator and returns how many whole
    /// events the accumulator advanced by, keeping the fractional remainder.
    /// A zero gap (in particular, a rate of zero) yields zero events and
    /// leaves the process untouched.
    pub fn draw(&mut self, gap: u64) -> (count: u64)
        requires
            old(self).wf(),
            gap <= u64::MAX - FP_ONE,
        ensures
            final(self).wf(),
            count * FP_ONE + final(self).acc() == old(self).acc() + gap,
            count == (old(self).acc() + gap) / (FP_ONE as int),
            final(self).acc() == (old(self).acc() + gap) % (FP_ONE as int),
            gap == 0 ==> count == 0 && *final(self) == *old(self),
    {
        let total: u64 = self.acc + gap;
        let count: u64 = total >> 32u64;
        self.acc = total & (FP_ONE - 1);
        proof {
            assert(total >> 32u64 == total / FP_ONE) by (bit_vector);
            assert(total & 0xffff_ffffu64 == total % FP_ONE) by (bit_vector);
            lemma_fundamental_div_mod(total as int, FP_ONE as int);
        }
        count
    }
}

/// The deterministic core of seeded reproducibility: the count and the new
/// accumulator that satisfy a draw's contract are unique, so they are
/// functions of the old accumulator and the gap alone — two processes in
/// equal states fed equal gaps return equal counts and stay equal.
pub proof fn lemma_draw_deterministic(acc: u64, gap: u64, c1: u64, a1: u64, c2: u64, a2: u64)
    requires
        c1 * FP_ONE + a1 == acc + gap,
        a1 < FP_ONE,
        c2 * FP_ONE + a2 == acc + gap,
        a2 < FP_ONE,
    ensures
        c1 == c2,
        a1 == a2,
{
    lemma_fundamental_div_mod_converse(acc + gap, FP_ONE as int, c1 as int, a1 as int);
    lemma_fundamental_div_mod_converse(acc + gap, FP_ONE as int, c2 as int, a2 as int);
}

/// Long-run accuracy of the arrival process: over any sequence of draws the
/// whole events reported and the fractional leftover together account for
/// exactly the accumulated gap time, so the reported total never strays from
/// the accumulated time by as much as one event. Averaged over many calls,
/// the event rate therefore converges to the mean sampled gap rate.
pub proof fn lemma_long_run(acc0: int, gaps: Seq<u64>)
    requires
        0 <= acc0 < FP_ONE,
    ensures
        run_acc(acc0, gaps) == (acc0 + gap_sum(gaps)) % (FP_ONE as int),
        run_total(acc0, gaps) * FP_ONE == acc0 + gap_sum(gaps) - run_acc(acc0, gaps),
        0 <= run_acc(acc0, gaps) < FP_ONE,
    decreases gaps.len(),
{
    let m = FP_ONE as int;
    if gaps.len() == 0 {
        assert(acc0 % m == acc0);
    } else {
        let g0 = gaps[0] as int;
        let a1 = (acc0 + g0) % m;
        let t0 = (acc0 + g0) / m;
        let rest = gaps.drop_first();
        lemma_fundamental_div_mod(acc0 + g0, m);
        lemma_long_run(a1, rest);
        lemma_add_mod_noop_right(gap_sum(rest), acc0 + g0, m);
        assert(run_acc(acc0, gaps) == (a1 + gap_sum(rest)) % m);
        assert((gap_sum(rest) + a1) % m == (gap_sum(rest) + (acc0 + g0)) % m);
        assert(run_total(acc0, gaps) * m == (t0 + run_total(a1, rest)) * m);
        assert((t0 + run_total(a1, rest)) * m == t0 * m + run_total(a1, rest) * m)
            by (nonlinear_arith);
    }
}

} // verus!
