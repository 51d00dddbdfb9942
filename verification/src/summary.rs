//! Structured bench summary: the typed counterpart of the subms JSON shape.
//!
//! Build one with [`crate::bench::summarize`] (or `summarize_lean` for the
//! sample-free variant), then hand it to the presenters in [`crate::bench`].

use vstd::prelude::*;

use crate::strmap::StrMap;
use crate::text::str_eq;

verus! {

/// Per-stage summary: one `stages.<name>` entry of the JSON shape.
///
/// `samples_ns` carries the downsampled chronological timeline (absent for a
/// lean summary). `jitter_score` is in ten-thousandths (`0..=10000` stands
/// for `0.0..=1.0`).
#[derive(Clone, Debug)]
pub struct SubMsStageSummary {
    pub name: String,
    pub count: usize,
    pub p50_ns: u64,
    pub p99_ns: u64,
    pub p999_ns: u64,
    pub max_ns: u64,
    pub mean_ns: u64,
    pub stddev_ns: u64,
    pub cdf_buckets_ns: Vec<u64>,
    pub jitter_score: u64,
    pub samples_ns: Option<Vec<u64>>,
}

/// Typed summary of one bench run. Stage order is registration order.
///
/// `cpu_core` / `cpu_affinity` record where the run was placed, when the
/// caller knows it.
pub struct SubMsBenchSummary {
    pub workload: String,
    pub lang: String,
    pub timestamp: String,
    pub cpu_core: Option<u32>,
    pub cpu_affinity: Option<String>,
    pub inputs: StrMap,
    pub meta: StrMap,
    pub stages: Vec<SubMsStageSummary>,
}

/// Index of the first summary stage named `name`, if any.
pub open spec fn first_summary_stage(stages: Seq<SubMsStageSummary>, name: Seq<char>) -> Option<
    int,
> {
    if exists|i: int| 0 <= i < stages.len() && #[trigger] stages[i].name@ == name {
        Some(
            choose|i: int|
                0 <= i < stages.len() && #[trigger] stages[i].name@ == name && forall|j: int|
                    0 <= j < i ==> #[trigger] stages[j].name@ != name,
        )
    } else {
        None
    }
}

impl SubMsBenchSummary {
    /// The first stage named `name`.
    pub fn stage(&self, name: &str) -> (r: Option<&SubMsStageSummary>)
        ensures
            match first_summary_stage(self.stages@, name@) {
                Some(i) => 0 <= i < self.stages@.len() && self.stages@[i].name@ == name@ && r == Some(
                    &self.stages@[i],
                ),
                None => r is None && forall|j: int|
                    0 <= j < self.stages@.len() ==> #[trigger] self.stages@[j].name@ != name@,
            },
    {
        let mut i: usize = 0;
        while i < self.stages.len()
            invariant
                i <= self.stages@.len(),
                forall|j: int| 0 <= j < i ==> #[trigger] self.stages@[j].name@ != name@,
            decreases self.stages@.len() - i,
        {
            if str_eq(self.stages[i].name.as_str(), name) {
                proof {
                    let s = self.stages@;
                    let k = choose|k: int|
                        0 <= k < s.len() && #[trigger] s[k].name@ == name@ && forall|j: int|
                            0 <= j < k ==> #[trigger] s[j].name@ != name@;
                    assert(s[i as int].name@ == name@);
                    if k < i {
                        assert(s[k].name@ != name@);
                    }
                    if k > i {
                        assert(s[i as int].name@ != name@);
                    }
                }
                return Some(&self.stages[i]);
            }
            i += 1;
        }
        None
    }
}

/// A collection of runs that share a workload but vary an input
/// (`varied_input_key`; `None` labels runs by ordinal).
pub struct SubMsBenchSweep {
    pub workload: String,
    pub lang: String,
    pub varied_input_key: Option<String>,
    pub runs: Vec<SubMsBenchSummary>,
}

} // verus!
