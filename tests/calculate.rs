use runner::calculate::{
    calculate_regression, calculate_regressions, regressions, DEFAULT_SIGMA_MILLI, SIGMA_SCALE,
};
use runner::types::{Baseline, Calculation, Measurement, Metric, RunnerError, Sample, Timestamp};
use runner::version::Version;

const SECOND: u64 = 1_000_000_000;

fn metric(name: &str, project: &str) -> Metric {
    Metric {
        name: name.to_owned(),
        project_name: project.to_owned(),
    }
}

fn baseline_for(metric: Metric, mean: u64, stddev: u64) -> Baseline {
    Baseline {
        version: Version::new(9, 9, 9),
        metric,
        ts: Timestamp { unix_nanos: 1_600_000_000_000_000_000 },
        measurement: Measurement {
            command: "some command".to_owned(),
            mean,
            stddev,
            median: SECOND,
            user: SECOND,
            system: SECOND,
            min: 0,
            max: 2 * SECOND,
            times: vec![],
        },
    }
}

fn sample_for(metric: Metric, value: u64, unix_nanos: i64) -> Sample {
    Sample {
        metric,
        value,
        ts: Timestamp { unix_nanos },
    }
}

#[test]
fn detects_3sigma_regression() {
    let metric = metric("test", "detects 3 sigma");
    let baseline = baseline_for(metric.duplicate(), SECOND, SECOND / 10);
    let sample = sample_for(metric, 1_310_000_000, 7);

    let calculations = calculate_regressions(&[sample], &[baseline], 3000);

    let regressions: Vec<&Calculation> =
        calculations.iter().filter(|calc| calc.regression).collect();

    // expect one regression for the mean being outside the 3 sigma
    println!("{:#?}", regressions);
    assert_eq!(regressions.len(), 1);
}

#[test]
fn passes_near_3sigma() {
    let metric = metric("test", "passes near 3 sigma");
    let baseline = baseline_for(metric.duplicate(), SECOND, SECOND / 10);
    let sample = sample_for(metric, 1_290_000_000, 7);

    let calculations = calculate_regressions(&[sample], &[baseline], 3000);

    let regressions: Vec<&Calculation> =
        calculations.iter().filter(|calc| calc.regression).collect();

    // expect no regressions
    println!("{:#?}", regressions);
    assert!(regressions.is_empty());
}

#[test]
fn regression_carries_baseline_and_sample_fields() {
    let m = metric("test", "fields");
    let baseline = baseline_for(m.duplicate(), SECOND, SECOND / 10);
    let sample = sample_for(m.duplicate(), 1_310_000_000, 42);
    let c = calculate_regression(&sample, &baseline, 3000);
    assert!(c.regression);
    assert_eq!(c.version, Version::new(9, 9, 9));
    assert!(c.metric == m);
    assert_eq!(c.ts, Timestamp { unix_nanos: 42 });
    assert_eq!(c.sigma_milli, 3000);
    assert_eq!(c.mean, SECOND);
    assert_eq!(c.stddev, SECOND / 10);
    // 1.30 s in thousandths of a nanosecond
    assert_eq!(c.threshold_scaled, 1_300_000_000_000);
}

#[test]
fn value_at_threshold_is_no_regression() {
    let m = metric("edge", "boundary");
    let baseline = baseline_for(m.duplicate(), SECOND, SECOND / 10);
    let at = calculate_regression(&sample_for(m.duplicate(), 1_300_000_000, 0), &baseline, 3000);
    assert!(!at.regression);
    let above = calculate_regression(&sample_for(m.duplicate(), 1_300_000_001, 0), &baseline, 3000);
    assert!(above.regression);
}

#[test]
fn fractional_sigma_threshold_is_exact() {
    let m = metric("edge", "fractional");
    // 2.5 sigma of 3 ns above 10 ns is 17.5 ns
    let baseline = baseline_for(m.duplicate(), 10, 3);
    let c = calculate_regression(&sample_for(m.duplicate(), 17, 0), &baseline, 2500);
    assert_eq!(c.threshold_scaled, 17_500);
    assert!(!c.regression);
    let c = calculate_regression(&sample_for(m.duplicate(), 18, 0), &baseline, 2500);
    assert!(c.regression);
}

#[test]
fn zero_sigma_flags_anything_above_mean() {
    let m = metric("edge", "zero sigma");
    let baseline = baseline_for(m.duplicate(), SECOND, SECOND);
    let c = calculate_regression(&sample_for(m.duplicate(), SECOND + 1, 0), &baseline, 0);
    assert_eq!(c.threshold_scaled, (SECOND as u128) * (SIGMA_SCALE as u128));
    assert!(c.regression);
}

#[test]
fn largest_inputs_do_not_overflow() {
    let m = metric("edge", "largest");
    let baseline = baseline_for(m.duplicate(), u64::MAX, u64::MAX);
    let c = calculate_regression(&sample_for(m.duplicate(), u64::MAX, 0), &baseline, u32::MAX);
    let expected = (u64::MAX as u128) * 1000 + (u32::MAX as u128) * (u64::MAX as u128);
    assert_eq!(c.threshold_scaled, expected);
    assert!(!c.regression);
}

#[test]
fn sample_without_baseline_gives_nothing() {
    let baseline = baseline_for(metric("a", "p"), SECOND, 0);
    let sample = sample_for(metric("b", "p"), 5 * SECOND, 0);
    assert!(calculate_regressions(&[sample], &[baseline], 3000).is_empty());
}

#[test]
fn metric_needs_both_name_and_project() {
    let baseline = baseline_for(metric("a", "p"), SECOND, 0);
    let sample = sample_for(metric("a", "q"), 5 * SECOND, 0);
    assert!(calculate_regressions(&[sample], &[baseline], 3000).is_empty());
}

#[test]
fn empty_inputs_give_nothing() {
    let baseline = baseline_for(metric("a", "p"), SECOND, 0);
    let sample = sample_for(metric("a", "p"), SECOND, 0);
    assert!(calculate_regressions(&[], &[], 3000).is_empty());
    assert!(calculate_regressions(&[sample], &[], 3000).is_empty());
    assert!(calculate_regressions(&[], &[baseline], 3000).is_empty());
}

#[test]
fn one_calculation_per_matched_baseline_in_baseline_order() {
    let baselines = [
        baseline_for(metric("c", "p"), SECOND, 0),
        baseline_for(metric("none", "p"), SECOND, 0),
        baseline_for(metric("a", "p"), SECOND, 0),
    ];
    let samples = [
        sample_for(metric("a", "p"), 2 * SECOND, 1),
        sample_for(metric("c", "p"), SECOND, 2),
        sample_for(metric("x", "p"), SECOND, 3),
    ];
    let out = calculate_regressions(&samples, &baselines, 3000);
    assert_eq!(out.len(), 2);
    assert!(out[0].metric == metric("c", "p"));
    assert_eq!(out[0].ts, Timestamp { unix_nanos: 2 });
    assert!(!out[0].regression);
    assert!(out[1].metric == metric("a", "p"));
    assert_eq!(out[1].ts, Timestamp { unix_nanos: 1 });
    assert!(out[1].regression);
}

#[test]
fn last_sample_for_a_metric_wins() {
    let baselines = [baseline_for(metric("a", "p"), SECOND, 0)];
    let samples = [
        sample_for(metric("a", "p"), 2 * SECOND, 1),
        sample_for(metric("a", "p"), SECOND / 2, 2),
    ];
    let out = calculate_regressions(&samples, &baselines, 3000);
    assert_eq!(out.len(), 1);
    assert_eq!(out[0].ts, Timestamp { unix_nanos: 2 });
    assert!(!out[0].regression);
}

#[test]
fn duplicate_baselines_each_give_a_calculation() {
    let baselines = [
        baseline_for(metric("a", "p"), SECOND, 0),
        baseline_for(metric("a", "p"), 3 * SECOND, 0),
    ];
    let samples = [sample_for(metric("a", "p"), 2 * SECOND, 1)];
    let out = calculate_regressions(&samples, &baselines, 3000);
    assert_eq!(out.len(), 2);
    assert!(out[0].regression);
    assert!(!out[1].regression);
}

#[test]
fn sample_order_does_not_matter() {
    let baselines = [
        baseline_for(metric("a", "p"), SECOND, 0),
        baseline_for(metric("b", "p"), SECOND, 0),
    ];
    let forward = [
        sample_for(metric("a", "p"), 2 * SECOND, 1),
        sample_for(metric("b", "p"), SECOND, 2),
    ];
    let backward = [
        sample_for(metric("b", "p"), SECOND, 2),
        sample_for(metric("a", "p"), 2 * SECOND, 1),
    ];
    let x = calculate_regressions(&forward, &baselines, 3000);
    let y = calculate_regressions(&backward, &baselines, 3000);
    assert_eq!(x.len(), y.len());
    for (c, d) in x.iter().zip(y.iter()) {
        assert!(c.metric == d.metric);
        assert_eq!(c.ts, d.ts);
        assert_eq!(c.regression, d.regression);
        assert_eq!(c.threshold_scaled, d.threshold_scaled);
    }
}

#[test]
fn regressions_uses_three_sigma() {
    assert_eq!(DEFAULT_SIGMA_MILLI, 3000);
    let m = metric("test", "run");
    let baselines = vec![baseline_for(m.duplicate(), SECOND, SECOND / 10)];
    let samples = vec![sample_for(m.duplicate(), 1_310_000_000, 0)];
    let out = regressions(Ok(baselines), Ok(samples)).unwrap();
    assert_eq!(out.len(), 1);
    assert!(out[0].regression);
    assert_eq!(out[0].sigma_milli, 3000);
    assert_eq!(out[0].threshold_scaled, 1_300_000_000_000);
}

#[test]
fn regressions_passes_baseline_error_on() {
    let samples = vec![sample_for(metric("a", "p"), SECOND, 0)];
    match regressions(Err(RunnerError::BaselineLoad("no dir".to_owned())), Ok(samples)) {
        Err(RunnerError::BaselineLoad(text)) => assert_eq!(text, "no dir"),
        other => panic!("unexpected {:?}", other),
    }
    match regressions(
        Err(RunnerError::BaselineLoad("first".to_owned())),
        Err(RunnerError::Sampling("second".to_owned())),
    ) {
        Err(RunnerError::BaselineLoad(text)) => assert_eq!(text, "first"),
        other => panic!("unexpected {:?}", other),
    }
}

#[test]
fn regressions_passes_sampling_error_on() {
    let baselines = vec![baseline_for(metric("a", "p"), SECOND, 0)];
    match regressions(Ok(baselines), Err(RunnerError::Sampling("failed".to_owned()))) {
        Err(RunnerError::Sampling(text)) => assert_eq!(text, "failed"),
        other => panic!("unexpected {:?}", other),
    }
}

#[test]
fn regressions_with_no_overlap_is_empty() {
    let baselines = vec![baseline_for(metric("a", "p"), SECOND, 0)];
    let samples = vec![sample_for(metric("b", "p"), SECOND, 0)];
    assert!(regressions(Ok(baselines), Ok(samples)).unwrap().is_empty());
}
