use vstd::prelude::*;

use crate::types::{Baseline, Calculation, Metric, RunnerError, Sample};

verus! {

/// Sigma multipliers are written in thousandths of a standard deviation.
pub const SIGMA_SCALE: u64 = 1000;

/// The multiplier of a comparison run: three standard deviations.
pub const DEFAULT_SIGMA_MILLI: u32 = 3000;

/// `mean + sigma * stddev` in thousandths of a nanosecond, for a sigma given
/// in thousandths.
pub open spec fn threshold_of(mean: u64, stddev: u64, sigma_milli: u32) -> int {
    mean * SIGMA_SCALE + sigma_milli * stddev
}

/// A value is a regression when it lies strictly above the threshold.
pub open spec fn is_regression(value: u64, threshold_scaled: int) -> bool {
    value * SIGMA_SCALE > threshold_scaled
}

/// `c` is what checking sample `s` against baseline `b` gives.
pub open spec fn is_calculation_of(c: Calculation, s: Sample, b: Baseline, sigma_milli: u32) -> bool {
    &&& c.version == b.version
    &&& c.metric@ == b.metric@
    &&& c.ts == s.ts
    &&& c.sigma_milli == sigma_milli
    &&& c.mean == b.measurement.mean
    &&& c.stddev == b.measurement.stddev
    &&& c.threshold_scaled == threshold_of(c.mean, c.stddev, c.sigma_milli)
    &&& c.regression == is_regression(s.value, c.threshold_scaled as int)
}

/// Checks one sample against one baseline. The two are trusted to share a
/// metric: this is not checked.
pub fn calculate_regression(sample: &Sample, baseline: &Baseline, sigma_milli: u32) -> (r:
    Calculation)
    ensures
        is_calculation_of(r, *sample, *baseline, sigma_milli),
{
    let mean = baseline.measurement.mean;
    let stddev = baseline.measurement.stddev;
    proof {
        assert(sigma_milli * stddev <= 0xffff_ffff * 0xffff_ffff_ffff_ffffu64) by (nonlinear_arith)
            requires
                sigma_milli <= 0xffff_ffff,
                stddev <= 0xffff_ffff_ffff_ffffu64,
        ;
        assert(mean * SIGMA_SCALE <= 0xffff_ffff_ffff_ffffu64 * 1000);
    }
    let scaled_mean = (mean as u128) * (SIGMA_SCALE as u128);
    let threshold = scaled_mean + (sigma_milli as u128) * (stddev as u128);
    Calculation {
        version: baseline.version,
        metric: baseline.metric.duplicate(),
        regression: (sample.value as u128) * (SIGMA_SCALE as u128) > threshold,
        ts: sample.ts,
        sigma_milli,
        mean,
        stddev,
        threshold_scaled: threshold,
    }
}

/// The index of the last sample for metric `m`, or -1 when none has it: a
/// later sample for a metric replaces an earlier one.
pub open spec fn last_sample_for(samples: Seq<Sample>, m: (Seq<char>, Seq<char>)) -> int
    decreases samples.len(),
{
    if samples.len() == 0 {
        -1
    } else if samples.last().metric@ == m {
        samples.len() - 1
    } else {
        last_sample_for(samples.drop_last(), m)
    }
}

/// The pairs (baseline index, sample index) that a comparison checks, in the
/// order of the baselines: each baseline whose metric has a sample, with the
/// last sample for that metric.
pub open spec fn matched_pairs(samples: Seq<Sample>, baselines: Seq<Baseline>) -> Seq<(int, int)>
    decreases baselines.len(),
{
    if baselines.len() == 0 {
        Seq::empty()
    } else {
        let earlier = matched_pairs(samples, baselines.drop_last());
        let j = last_sample_for(samples, baselines.last().metric@);
        if j >= 0 {
            earlier.push((baselines.len() - 1, j))
        } else {
            earlier
        }
    }
}

/// `cs` holds, for each matched pair in order, the calculation of its sample
/// against its baseline.
pub open spec fn are_calculations_of(
    cs: Seq<Calculation>,
    samples: Seq<Sample>,
    baselines: Seq<Baseline>,
    sigma_milli: u32,
) -> bool {
    let pairs = matched_pairs(samples, baselines);
    &&& cs.len() == pairs.len()
    &&& forall|k: int|
        0 <= k < cs.len() ==> #[trigger] is_calculation_of(
            cs[k],
            samples[pairs[k].1],
            baselines[pairs[k].0],
            sigma_milli,
        )
}

/// With several samples for one metric, the last one wins: the sample that a
/// baseline is checked against has its metric, and no later sample has.
pub proof fn lemma_last_sample_for(samples: Seq<Sample>, m: (Seq<char>, Seq<char>))
    ensures
        -1 <= last_sample_for(samples, m) < samples.len(),
        last_sample_for(samples, m) >= 0 ==> samples[last_sample_for(samples, m)].metric@ == m,
        forall|i: int|
            last_sample_for(samples, m) < i < samples.len() ==> #[trigger] samples[i].metric@
                != m,
    decreases samples.len(),
{
    if samples.len() > 0 && samples.last().metric@ != m {
        lemma_last_sample_for(samples.drop_last(), m);
        assert forall|i: int|
            last_sample_for(samples, m) < i < samples.len() implies #[trigger] samples[i].metric@
                != m by {
            if i < samples.len() - 1 {
                assert(samples.drop_last()[i] == samples[i]);
            }
        }
    }
}

/// A comparison gives at most one calculation per baseline, and one exactly
/// for each baseline whose metric has a sample: the matched pairs name the
/// baselines in strictly increasing order, each with a sample of its own
/// metric, and leave out no baseline whose metric has a sample.
pub proof fn lemma_matched_pairs(samples: Seq<Sample>, baselines: Seq<Baseline>)
    ensures
        matched_pairs(samples, baselines).len() <= baselines.len(),
        forall|k: int|
            0 <= k < matched_pairs(samples, baselines).len() ==> {
                let p = #[trigger] matched_pairs(samples, baselines)[k];
                &&& 0 <= p.0 < baselines.len()
                &&& 0 <= p.1 < samples.len()
                &&& p.1 == last_sample_for(samples, baselines[p.0].metric@)
                &&& samples[p.1].metric@ == baselines[p.0].metric@
            },
        forall|k1: int, k2: int|
            0 <= k1 < k2 < matched_pairs(samples, baselines).len() ==> (#[trigger] matched_pairs(
                samples,
                baselines,
            )[k1]).0 < (#[trigger] matched_pairs(samples, baselines)[k2]).0,
        forall|j: int|
            0 <= j < baselines.len() && last_sample_for(samples, #[trigger] baselines[j].metric@)
                >= 0 ==> exists|k: int|
                0 <= k < matched_pairs(samples, baselines).len() && (#[trigger] matched_pairs(
                    samples,
                    baselines,
                )[k]).0 == j,
    decreases baselines.len(),
{
    if baselines.len() > 0 {
        let earlier = baselines.drop_last();
        lemma_matched_pairs(samples, earlier);
        let last = baselines.len() - 1;
        lemma_last_sample_for(samples, baselines[last].metric@);
        let pairs = matched_pairs(samples, baselines);
        let prev = matched_pairs(samples, earlier);
        assert forall|k: int| 0 <= k < prev.len() implies pairs[k] == prev[k]
            && baselines[prev[k].0] == earlier[prev[k].0] by {}
        assert forall|j: int|
            0 <= j < baselines.len() && last_sample_for(samples, #[trigger] baselines[j].metric@)
                >= 0 implies exists|k: int| 0 <= k < pairs.len() && (#[trigger] pairs[k]).0 == j by {
            if j < last {
                assert(earlier[j] == baselines[j]);
                let k = choose|k: int| 0 <= k < prev.len() && (#[trigger] prev[k]).0 == j;
                assert(pairs[k] == prev[k]);
            } else {
                assert(pairs[prev.len() as int].0 == j);
            }
        }
    }
}

/// No two samples share a metric.
pub open spec fn distinct_metrics(samples: Seq<Sample>) -> bool {
    forall|i: int, j: int|
        0 <= i < j < samples.len() ==> (#[trigger] samples[i]).metric@ != (#[trigger] samples[
            j]).metric@
}

/// `a` and `b` hold the same samples, in any order.
pub open spec fn same_samples(a: Seq<Sample>, b: Seq<Sample>) -> bool {
    &&& forall|i: int| 0 <= i < a.len() ==> b.contains(#[trigger] a[i])
    &&& forall|j: int| 0 <= j < b.len() ==> a.contains(#[trigger] b[j])
}

proof fn lemma_same_last_sample(a: Seq<Sample>, b: Seq<Sample>, m: (Seq<char>, Seq<char>))
    requires
        distinct_metrics(a),
        same_samples(a, b),
    ensures
        (last_sample_for(a, m) >= 0) == (last_sample_for(b, m) >= 0),
        last_sample_for(a, m) >= 0 ==> a[last_sample_for(a, m)] == b[last_sample_for(b, m)],
{
    lemma_last_sample_for(a, m);
    lemma_last_sample_for(b, m);
    let la = last_sample_for(a, m);
    let lb = last_sample_for(b, m);
    if la >= 0 {
        assert(b.contains(a[la]));
        let j = choose|j: int| 0 <= j < b.len() && b[j] == a[la];
        assert(b[j].metric@ == m);
        assert(lb >= j);
        assert(a.contains(b[lb]));
        let i = choose|i: int| 0 <= i < a.len() && a[i] == b[lb];
        if i != la {
            if i < la {
                assert(a[i].metric@ != a[la].metric@);
            } else {
                assert(a[la].metric@ != a[i].metric@);
            }
        }
    } else if lb >= 0 {
        assert(a.contains(b[lb]));
        let i = choose|i: int| 0 <= i < a.len() && a[i] == b[lb];
        assert(a[i].metric@ != m);
    }
}

/// When no two samples share a metric, the order of the samples does not
/// matter: the same baselines are checked, in the same order, against the
/// same samples.
pub proof fn lemma_sample_order_irrelevant(a: Seq<Sample>, b: Seq<Sample>, baselines: Seq<Baseline>)
    requires
        distinct_metrics(a),
        same_samples(a, b),
    ensures
        matched_pairs(a, baselines).len() == matched_pairs(b, baselines).len(),
        forall|k: int|
            0 <= k < matched_pairs(a, baselines).len() ==> {
                let p = #[trigger] matched_pairs(a, baselines)[k];
                let q = matched_pairs(b, baselines)[k];
                p.0 == q.0 && a[p.1] == b[q.1]
            },
    decreases baselines.len(),
{
    if baselines.len() > 0 {
        lemma_sample_order_irrelevant(a, b, baselines.drop_last());
        lemma_same_last_sample(a, b, baselines.last().metric@);
        let pa = matched_pairs(a, baselines.drop_last());
        let pb = matched_pairs(b, baselines.drop_last());
        assert forall|k: int| 0 <= k < pa.len() implies matched_pairs(a, baselines)[k] == pa[k]
            && matched_pairs(b, baselines)[k] == pb[k] by {}
    }
}

/// The index of the last sample for `metric`, if any.
fn last_sample_index(samples: &[Sample], metric: &Metric) -> (r: Option<usize>)
    ensures
        match r {
            Some(j) => j == last_sample_for(samples@, metric@),
            None => last_sample_for(samples@, metric@) == -1,
        },
{
    let mut i: usize = samples.len();
    assert(samples@.subrange(0, i as int) =~= samples@);
    while i > 0
        invariant
            i <= samples@.len(),
            last_sample_for(samples@, metric@) == last_sample_for(
                samples@.subrange(0, i as int),
                metric@,
            ),
        decreases i,
    {
        let ghost prefix = samples@.subrange(0, i as int);
        assert(prefix.drop_last() =~= samples@.subrange(0, i - 1));
        if samples[i - 1].metric.same_as(metric) {
            return Some(i - 1);
        }
        i = i - 1;
    }
    None
}

/// Checks every baseline against the last sample for its metric. Baselines
/// without a sample, and samples without a baseline, give nothing. The
/// results follow the order of the baselines.
pub fn calculate_regressions(samples: &[Sample], baselines: &[Baseline], sigma_milli: u32) -> (r:
    Vec<Calculation>)
    ensures
        are_calculations_of(r@, samples@, baselines@, sigma_milli),
{
    let mut out: Vec<Calculation> = Vec::new();
    let mut i: usize = 0;
    while i < baselines.len()
        invariant
            i <= baselines@.len(),
            are_calculations_of(out@, samples@, baselines@.subrange(0, i as int), sigma_milli),
        decreases baselines@.len() - i,
    {
        let ghost before = baselines@.subrange(0, i as int);
        let ghost after = baselines@.subrange(0, i + 1);
        assert(after.drop_last() =~= before);
        let baseline = &baselines[i];
        proof {
            lemma_matched_pairs(samples@, after);
            lemma_matched_pairs(samples@, before);
            lemma_last_sample_for(samples@, baseline.metric@);
        }
        match last_sample_index(samples, &baseline.metric) {
            Some(j) => {
                let c = calculate_regression(&samples[j], baseline, sigma_milli);
                out.push(c);
            },
            None => {},
        }
        proof {
            let pairs = matched_pairs(samples@, after);
            assert forall|k: int| 0 <= k < out@.len() implies #[trigger] is_calculation_of(
                out@[k],
                samples@[pairs[k].1],
                after[pairs[k].0],
                sigma_milli,
            ) by {
                assert(after[pairs[k].0] == baselines@[pairs[k].0]);
                if k < matched_pairs(samples@, before).len() {
                    assert(before[pairs[k].0] == baselines@[pairs[k].0]);
                }
            }
        }
        i = i + 1;
    }
    assert(baselines@.subrange(0, baselines@.len() as int) =~= baselines@);
    out
}

/// A comparison run with three standard deviations, over what the baseline
/// loader and the sampler returned. Their first failure, baselines first, is
/// handed back as it is.
pub fn regressions(
    baselines: Result<Vec<Baseline>, RunnerError>,
    samples: Result<Vec<Sample>, RunnerError>,
) -> (r: Result<Vec<Calculation>, RunnerError>)
    ensures
        match (baselines, samples) {
            (Err(e), _) => r == Err::<Vec<Calculation>, RunnerError>(e),
            (Ok(_), Err(e)) => r == Err::<Vec<Calculation>, RunnerError>(e),
            (Ok(bs), Ok(ss)) => r matches Ok(cs) && are_calculations_of(
                cs@,
                ss@,
                bs@,
                DEFAULT_SIGMA_MILLI,
            ),
        },
{
    let baselines = match baselines {
        Ok(bs) => bs,
        Err(e) => return Err(e),
    };
    let samples = match samples {
        Ok(ss) => ss,
        Err(e) => return Err(e),
    };
    Ok(calculate_regressions(samples.as_slice(), baselines.as_slice(), DEFAULT_SIGMA_MILLI))
}

} // verus!
