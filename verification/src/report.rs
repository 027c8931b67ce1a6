//! From a timed run to a bandwidth figure, and from repeated trials to the one
//! figure that is reported.
//!
//! A figure is kept as what was measured: bytes moved and nanoseconds taken.
//! Two figures are compared exactly, by cross-multiplication, and a figure is
//! rounded only where it is shown.

use vstd::prelude::*;

verus! {

/// Nanoseconds in one second.
pub const NANOS_PER_SECOND: u128 = 1_000_000_000;

/// Bytes in one GiB, the unit in which bandwidth is shown.
pub const BYTES_PER_GIB: u128 = 1_073_741_824;

/// How often one configuration is timed: once, and three more times.
pub const TRIALS_PER_CONFIGURATION: usize = 4;

/// Why a timed run gives no bandwidth figure.
#[derive(Clone, Copy, Debug, PartialEq, Eq, Structural)]
pub enum MeasureError {
    /// The clock showed no time passing, so there is nothing to divide by.
    ZeroElapsed,
}

/// A bandwidth: `bytes` bytes in `nanos` nanoseconds. It stands for the exact
/// quotient of the two, so a slow run is never taken for no run at all.
#[derive(Clone, Copy, Debug, PartialEq, Eq, Structural)]
pub struct Rate {
    pub bytes: u64,
    pub nanos: u64,
}

impl Rate {
    /// A rate divides by its time, which therefore is not zero.
    pub open spec fn well_formed(self) -> bool {
        self.nanos > 0
    }

    /// More than nothing was moved: the quotient is above zero.
    pub open spec fn is_positive(self) -> bool {
        self.bytes > 0
    }

    /// `self` is a strictly higher bandwidth than `other`.
    pub open spec fn faster_than(self, other: Rate) -> bool {
        self.bytes * other.nanos > other.bytes * self.nanos
    }

    /// `self` is no lower a bandwidth than `other`.
    pub open spec fn at_least(self, other: Rate) -> bool {
        self.bytes * other.nanos >= other.bytes * self.nanos
    }

    /// Whole bytes per second, the fraction dropped.
    pub open spec fn whole_bytes_per_second(self) -> int {
        self.bytes * 1_000_000_000 / (self.nanos as int)
    }

    /// The rate in whole bytes per second, rounded down: at most one byte per
    /// second below the exact quotient.
    pub fn bytes_per_second(&self) -> (rate: u128)
        requires
            self.well_formed(),
        ensures
            rate == self.whole_bytes_per_second(),
            rate * self.nanos <= self.bytes * 1_000_000_000 < (rate + 1) * self.nanos,
    {
        let scaled: u128 = (self.bytes as u128) * NANOS_PER_SECOND;
        let rate: u128 = scaled / (self.nanos as u128);
        proof {
            let n = scaled as int;
            let d = self.nanos as int;
            assert(0 <= n / d <= n && (n / d) * d <= n < (n / d + 1) * d) by (nonlinear_arith)
                requires
                    n >= 0,
                    d > 0,
            ;
        }
        rate
    }
}

/// `numerator / denominator` rounded to the nearest whole number, a half
/// rounded up.
pub open spec fn rounded_quotient(numerator: int, denominator: int) -> int {
    (2 * numerator + denominator) / (2 * denominator)
}

/// Every rate of `samples` is well formed.
pub open spec fn all_well_formed(samples: Seq<Rate>) -> bool {
    forall|i: int| 0 <= i < samples.len() ==> (#[trigger] samples[i]).well_formed()
}

/// The sample at index `at` is the best of `samples`: none is faster, and it
/// is the first of those that are as fast.
pub open spec fn is_best(samples: Seq<Rate>, at: int) -> bool {
    &&& 0 <= at < samples.len()
    &&& forall|i: int| 0 <= i < samples.len() ==> samples[at].at_least(#[trigger] samples[i])
    &&& forall|i: int| 0 <= i < at ==> samples[at].faster_than(#[trigger] samples[i])
}

/// The bandwidth of a run that moved `bytes_moved` bytes in `elapsed_nanos`
/// nanoseconds. A run that took no time at all has no bandwidth: it is
/// reported as an error, and nothing is divided. Every other run has the
/// figure that was measured, which is positive as soon as a byte was moved.
pub fn bandwidth(bytes_moved: usize, elapsed_nanos: u64) -> (result: Result<Rate, MeasureError>)
    ensures
        elapsed_nanos == 0 <==> result == Err::<Rate, MeasureError>(MeasureError::ZeroElapsed),
        elapsed_nanos > 0 ==> result == Ok::<Rate, MeasureError>(
            (Rate { bytes: bytes_moved as u64, nanos: elapsed_nanos }),
        ),
        result matches Ok(rate) ==> rate.well_formed() && rate.bytes == bytes_moved,
        bytes_moved > 0 && elapsed_nanos > 0 ==> (result matches Ok(rate) && rate.is_positive()),
{
    if elapsed_nanos == 0 {
        return Err(MeasureError::ZeroElapsed);
    }
    Ok(Rate { bytes: bytes_moved as u64, nanos: elapsed_nanos })
}

/// Divides and rounds to the nearest whole number, a half rounded up.
pub fn divide_rounding(numerator: u128, denominator: u128) -> (quotient: u128)
    requires
        denominator > 0,
    ensures
        quotient == rounded_quotient(numerator as int, denominator as int),
{
    let whole: u128 = numerator / denominator;
    let rest: u128 = numerator % denominator;
    proof {
        let n = numerator as int;
        let d = denominator as int;
        let q = whole as int;
        let r = rest as int;
        assert(n == q * d + r && 0 <= r < d && q <= n) by (nonlinear_arith)
            requires
                n >= 0,
                d > 0,
                q == n / d,
                r == n % d,
        ;
        assert(2 * r >= d ==> (2 * n + d) / (2 * d) == q + 1) by (nonlinear_arith)
            requires
                n == q * d + r,
                0 <= r < d,
        ;
        assert(2 * r < d ==> (2 * n + d) / (2 * d) == q) by (nonlinear_arith)
            requires
                n == q * d + r,
                0 <= r < d,
        ;
        assert(2 * r >= d ==> q < n) by (nonlinear_arith)
            requires
                n == q * d + r,
                0 <= r < d,
                q >= 0,
        ;
    }
    if rest >= denominator - rest {
        whole + 1
    } else {
        whole
    }
}

/// A bandwidth as it is shown: in GiB per second, counted in `parts` parts of
/// one (10 for tenths, 100 for hundredths). The exact quotient is rounded
/// once, to the nearest part.
pub fn in_gib(rate: Rate, parts: u8) -> (shown: u128)
    requires
        rate.well_formed(),
    ensures
        shown == rounded_quotient(
            rate.bytes * 1_000_000_000 * parts,
            rate.nanos * 1_073_741_824,
        ),
{
    let per_second: u128 = (rate.bytes as u128) * NANOS_PER_SECOND;
    let scale: u128 = parts as u128;
    assert(per_second * scale <= per_second * 255) by (nonlinear_arith)
        requires
            0 <= scale <= 255,
            per_second >= 0,
    ;
    let numerator: u128 = per_second * scale;
    let denominator: u128 = (rate.nanos as u128) * BYTES_PER_GIB;
    divide_rounding(numerator, denominator)
}

/// A time of `elapsed_nanos` nanoseconds as it is shown: in ten-thousandths
/// of a second, rounded to the nearest.
pub fn in_ten_thousandths_of_a_second(elapsed_nanos: u64) -> (shown: u128)
    ensures
        shown == rounded_quotient(elapsed_nanos as int, 100_000),
{
    divide_rounding(elapsed_nanos as u128, 100_000)
}

/// The better of the best figure so far and a new one: a slower trial is
/// taken for noise and never lowers what is reported. Of two equal figures
/// the earlier one stays.
pub fn keep_best(best: Rate, candidate: Rate) -> (kept: Rate)
    ensures
        kept == if candidate.faster_than(best) {
            candidate
        } else {
            best
        },
{
    proof {
        lemma_product_fits(candidate.bytes, best.nanos);
        lemma_product_fits(best.bytes, candidate.nanos);
    }
    let ours: u128 = (candidate.bytes as u128) * (best.nanos as u128);
    let theirs: u128 = (best.bytes as u128) * (candidate.nanos as u128);
    if ours > theirs {
        candidate
    } else {
        best
    }
}

/// The figure reported for one configuration: the best of its trials.
/// Without a single trial there is none.
pub fn best_of(samples: &[Rate]) -> (best: Option<Rate>)
    requires
        all_well_formed(samples@),
    ensures
        samples@.len() == 0 <==> best is None,
        best matches Some(figure) ==> exists|at: int|
            is_best(samples@, at) && figure == #[trigger] samples@[at],
{
    if samples.len() == 0 {
        return None;
    }
    let mut best: Rate = samples[0];
    let mut seen: usize = 1;
    let ghost mut at: int = 0;
    proof {
        lemma_same_rate(samples@[0]);
        assert(samples@.take(1)[0] == best);
    }
    while seen < samples.len()
        invariant
            1 <= seen <= samples@.len(),
            all_well_formed(samples@),
            is_best(samples@.take(seen as int), at),
            best == samples@[at],
        decreases samples@.len() - seen,
    {
        let ghost before = samples@.take(seen as int);
        proof {
            assert(samples@.take(seen + 1) =~= before.push(samples@[seen as int]));
            assert(before[at] == samples@[at]);
            lemma_best_never_drops(before, samples@[seen as int], at);
            if samples@[seen as int].faster_than(best) {
                at = seen as int;
            }
        }
        best = keep_best(best, samples[seen]);
        seen += 1;
    }
    assert(samples@.take(seen as int) =~= samples@);
    Some(best)
}

/// The figures of the trials that were timed, in their order; a trial that
/// took no time has none.
pub open spec fn successes(trials: Seq<Result<Rate, MeasureError>>) -> Seq<Rate>
    decreases trials.len(),
{
    if trials.len() == 0 {
        Seq::empty()
    } else {
        let earlier = successes(trials.drop_last());
        match trials.last() {
            Ok(rate) => earlier.push(rate),
            Err(_) => earlier,
        }
    }
}

/// Every figure among `trials` is well formed.
pub open spec fn all_timed_well_formed(trials: Seq<Result<Rate, MeasureError>>) -> bool {
    forall|i: int|
        0 <= i < trials.len() ==> ((#[trigger] trials[i]) matches Ok(rate) ==> rate.well_formed())
}

/// The figure reported for one configuration from the outcomes of its
/// trials. A trial is either a clean measurement or it is discarded: one that
/// took no time is left out, never repeated, and the best of the others is
/// reported. Where none is left, the configuration has no figure and the
/// timing error is reported in its place.
pub fn best_of_trials(trials: &[Result<Rate, MeasureError>]) -> (result: Result<Rate, MeasureError>)
    requires
        all_timed_well_formed(trials@),
    ensures
        successes(trials@).len() == 0 <==> result == Err::<Rate, MeasureError>(
            MeasureError::ZeroElapsed,
        ),
        result matches Ok(figure) ==> exists|at: int|
            is_best(successes(trials@), at) && figure == #[trigger] successes(trials@)[at],
{
    let mut samples: Vec<Rate> = Vec::new();
    let mut seen: usize = 0;
    while seen < trials.len()
        invariant
            seen <= trials@.len(),
            all_timed_well_formed(trials@),
            all_well_formed(samples@),
            samples@ == successes(trials@.take(seen as int)),
        decreases trials@.len() - seen,
    {
        proof {
            assert(trials@.take(seen + 1).drop_last() =~= trials@.take(seen as int));
        }
        match trials[seen] {
            Ok(rate) => {
                samples.push(rate);
            },
            Err(_) => {},
        }
        seen += 1;
    }
    assert(trials@.take(seen as int) =~= trials@);
    match best_of(samples.as_slice()) {
        Some(figure) => Ok(figure),
        None => Err(MeasureError::ZeroElapsed),
    }
}

/// The product of two 64-bit numbers fits in 128 bits.
proof fn lemma_product_fits(left: u64, right: u64)
    ensures
        left * right <= u128::MAX,
{
    assert(left * right <= 0xffff_ffff_ffff_ffff * 0xffff_ffff_ffff_ffff) by (nonlinear_arith)
        requires
            0 <= left <= 0xffff_ffff_ffff_ffff,
            0 <= right <= 0xffff_ffff_ffff_ffff,
    ;
}

/// A rate is as fast as itself.
pub proof fn lemma_same_rate(rate: Rate)
    ensures
        rate.at_least(rate),
        !rate.faster_than(rate),
{
}

/// A rate that is faster than a second one, which is at least as fast as a
/// third, is faster than the third.
pub proof fn lemma_faster_carries_over(first: Rate, second: Rate, third: Rate)
    requires
        first.well_formed(),
        second.well_formed(),
        third.well_formed(),
        first.faster_than(second),
        second.at_least(third),
    ensures
        first.faster_than(third),
        first.at_least(third),
{
    let (a, x) = (first.bytes as int, first.nanos as int);
    let (b, y) = (second.bytes as int, second.nanos as int);
    let (c, z) = (third.bytes as int, third.nanos as int);
    assert(a * y * z > b * x * z) by (nonlinear_arith)
        requires
            a * y > b * x,
            z > 0,
    ;
    assert(b * z * x >= c * y * x) by (nonlinear_arith)
        requires
            b * z >= c * y,
            x > 0,
    ;
    assert(b * x * z == b * z * x) by (nonlinear_arith);
    assert(a * y * z == (a * z) * y) by (nonlinear_arith);
    assert(c * y * x == (c * x) * y) by (nonlinear_arith);
    assert(a * z > c * x) by (nonlinear_arith)
        requires
            (a * z) * y > (c * x) * y,
            y > 0,
    ;
}

/// One more trial moves the best figure to the new trial where that one is
/// faster, and leaves it where it was otherwise: the reported figure never
/// drops.
pub proof fn lemma_best_never_drops(samples: Seq<Rate>, extra: Rate, at: int)
    requires
        all_well_formed(samples),
        extra.well_formed(),
        is_best(samples, at),
    ensures
        is_best(
            samples.push(extra),
            if extra.faster_than(samples[at]) {
                samples.len() as int
            } else {
                at
            },
        ),
        extra.faster_than(samples[at]) ==> extra.at_least(samples[at]),
{
    let longer = samples.push(extra);
    let best = samples[at];
    if extra.faster_than(best) {
        let last = samples.len() as int;
        assert(longer[last] == extra);
        lemma_same_rate(extra);
        assert forall|i: int| 0 <= i < last implies extra.faster_than(#[trigger] longer[i])
            && extra.at_least(longer[i]) by {
            assert(longer[i] == samples[i]);
            assert(best.at_least(samples[i]));
            lemma_faster_carries_over(extra, best, samples[i]);
        }
        lemma_faster_carries_over(extra, best, best);
    } else {
        assert(longer[at] == best);
        assert forall|i: int| 0 <= i < longer.len() implies longer[at].at_least(
            #[trigger] longer[i],
        ) by {
            if i < samples.len() {
                assert(longer[i] == samples[i]);
            }
        }
        assert forall|i: int| 0 <= i < at implies longer[at].faster_than(#[trigger] longer[i]) by {
            assert(longer[i] == samples[i]);
        }
    }
}

/// A list of trials has only one best figure.
pub proof fn lemma_best_is_unique(samples: Seq<Rate>, first: int, second: int)
    requires
        is_best(samples, first),
        is_best(samples, second),
    ensures
        first == second,
{
    if first < second {
        assert(samples[second].faster_than(samples[first]));
        assert(samples[first].at_least(samples[second]));
    } else if second < first {
        assert(samples[first].faster_than(samples[second]));
        assert(samples[second].at_least(samples[first]));
    }
}

} // verus!
