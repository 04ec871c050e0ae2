use vstd::prelude::*;

use crate::version::Version;

verus! {

/// A point in time, as nanoseconds since the Unix epoch.
#[derive(Clone, Copy, Debug, PartialEq, Eq, Structural)]
pub struct Timestamp {
    pub unix_nanos: i64,
}

/// A named performance indicator scoped to a project; the join key between
/// samples and baselines.
#[derive(Debug)]
pub struct Metric {
    pub name: String,
    pub project_name: String,
}

impl View for Metric {
    type V = (Seq<char>, Seq<char>);

    open spec fn view(&self) -> (Seq<char>, Seq<char>) {
        (self.name@, self.project_name@)
    }
}

impl Metric {
    pub fn new(name: String, project_name: String) -> (r: Metric)
        ensures
            r.name == name,
            r.project_name == project_name,
    {
        Metric { name, project_name }
    }

    /// A copy of this metric with the same name and project.
    pub fn duplicate(&self) -> (r: Metric)
        ensures
            r@ == self@,
    {
        Metric { name: self.name.clone(), project_name: self.project_name.clone() }
    }

    /// Whether two metrics name the same indicator of the same project.
    pub fn same_as(&self, other: &Metric) -> (r: bool)
        ensures
            r == (self@ == other@),
    {
        self.name == other.name && self.project_name == other.project_name
    }
}

impl PartialEq for Metric {
    fn eq(&self, other: &Metric) -> (r: bool) {
        self.same_as(other)
    }
}

impl vstd::std_specs::cmp::PartialEqSpecImpl for Metric {
    open spec fn obeys_eq_spec() -> bool {
        true
    }

    open spec fn eq_spec(&self, other: &Metric) -> bool {
        self@ == other@
    }
}

/// A summary of a benchmark's timing distribution. Durations are in
/// nanoseconds; only `mean` and `stddev` take part in regression detection.
#[derive(Debug)]
pub struct Measurement {
    pub command: String,
    pub mean: u64,
    pub stddev: u64,
    pub median: u64,
    pub user: u64,
    pub system: u64,
    pub min: u64,
    pub max: u64,
    pub times: Vec<u64>,
}

/// A historical reference for one metric, recorded at one version.
#[derive(Debug)]
pub struct Baseline {
    pub version: Version,
    pub metric: Metric,
    pub ts: Timestamp,
    pub measurement: Measurement,
}

/// One freshly measured value, in nanoseconds, for a metric.
#[derive(Debug)]
pub struct Sample {
    pub metric: Metric,
    pub value: u64,
    pub ts: Timestamp,
}

/// The outcome of checking one sample against the baseline of its metric.
///
/// `sigma_milli` is the multiplier in thousandths of a standard deviation,
/// and `threshold_scaled` is `mean + sigma * stddev` in thousandths of a
/// nanosecond, which keeps it exact.
#[derive(Debug)]
pub struct Calculation {
    pub version: Version,
    pub metric: Metric,
    pub regression: bool,
    pub ts: Timestamp,
    pub sigma_milli: u32,
    pub mean: u64,
    pub stddev: u64,
    pub threshold_scaled: u128,
}

/// Why a comparison run could not take place.
#[derive(Debug)]
pub enum RunnerError {
    /// The baselines could not be loaded; the text says why.
    BaselineLoad(String),
    /// The samples could not be taken; the text says why.
    Sampling(String),
}

} // verus!
