//! Baseline-versus-candidate comparison of two summaries: the stages that
//! pair up by name (in candidate order), each paired metric's nanosecond
//! delta, and the stages only one side has. Percentages and the regression
//! verdict are derived from these integers by the caller.

use vstd::prelude::*;

use crate::summary::{first_summary_stage, SubMsBenchSummary, SubMsStageSummary};

verus! {

/// One metric of a paired stage.
#[derive(Clone, Debug)]
pub struct SubMsMetricDelta {
    /// `p50`, `p99`, `p99.9`, `max` or `mean`.
    pub metric: String,
    pub baseline_ns: u64,
    pub candidate_ns: u64,
    /// `candidate_ns - baseline_ns`, each read as an `i64`.
    pub delta_ns: i64,
}

/// The metric deltas of one stage both summaries have.
#[derive(Clone, Debug)]
pub struct SubMsStageDelta {
    pub stage: String,
    pub metrics: Vec<SubMsMetricDelta>,
}

/// The integer side of a summary diff.
#[derive(Clone, Debug)]
pub struct SubMsBenchDelta {
    pub baseline_workload: String,
    pub candidate_workload: String,
    /// The candidate's language.
    pub lang: String,
    pub stages: Vec<SubMsStageDelta>,
    /// Baseline stage names the candidate lacks, in baseline order.
    pub baseline_only_stages: Vec<String>,
    /// Candidate stage names the baseline lacks, in candidate order.
    pub candidate_only_stages: Vec<String>,
}

/// The compared metrics' names, in order.
pub open spec fn metric_names() -> Seq<Seq<char>> {
    seq!["p50"@, "p99"@, "p99.9"@, "max"@, "mean"@]
}

/// A stage's compared metrics, in the order of [`metric_names`].
pub open spec fn metric_values(st: SubMsStageSummary) -> Seq<u64> {
    seq![st.p50_ns, st.p99_ns, st.p999_ns, st.max_ns, st.mean_ns]
}

/// `c - b` taken as `i64`s (each `u64` read as the `i64` with the same
/// bits), as the delta is computed.
pub open spec fn delta_of(b: u64, c: u64) -> int {
    (c as i64) - (b as i64)
}

/// Every metric delta of stage `base` against stage `cand` fits in an
/// `i64`.
pub open spec fn deltas_fit(base: SubMsStageSummary, cand: SubMsStageSummary) -> bool {
    forall|k: int|
        0 <= k < 5 ==> i64::MIN <= #[trigger] delta_of(metric_values(base)[k], metric_values(cand)[k])
            <= i64::MAX
}

/// For every candidate stage the baseline has, the metric deltas fit in an
/// `i64`.
pub open spec fn pairs_fit(bs: Seq<SubMsStageSummary>, cs: Seq<SubMsStageSummary>) -> bool {
    forall|ci: int|
        0 <= ci < cs.len() ==> match first_summary_stage(bs, #[trigger] cs[ci].name@) {
            Some(b) => deltas_fit(bs[b], cs[ci]),
            None => true,
        }
}

/// `m` compares metric `name`: `b` against `c`.
pub open spec fn metric_delta_of(m: SubMsMetricDelta, name: Seq<char>, b: u64, c: u64) -> bool {
    &&& m.metric@ == name
    &&& m.baseline_ns == b
    &&& m.candidate_ns == c
    &&& m.delta_ns == delta_of(b, c)
}

/// `sd` compares stage `base` against stage `cand`, metric by metric.
pub open spec fn stage_delta_of(sd: SubMsStageDelta, base: SubMsStageSummary, cand: SubMsStageSummary) -> bool {
    &&& sd.stage@ == base.name@
    &&& sd.metrics@.len() == 5
    &&& forall|k: int|
        0 <= k < 5 ==> metric_delta_of(
            #[trigger] sd.metrics@[k],
            metric_names()[k],
            metric_values(base)[k],
            metric_values(cand)[k],
        )
}

/// The (baseline index, candidate index) pairs among the first `n`
/// candidate stages: each candidate stage with the first baseline stage of
/// its name.
pub open spec fn paired(base: Seq<SubMsStageSummary>, cand: Seq<SubMsStageSummary>, n: nat) -> Seq<
    (int, int),
>
    decreases n,
{
    if n == 0 || n > cand.len() {
        Seq::empty()
    } else {
        let rest = paired(base, cand, (n - 1) as nat);
        match first_summary_stage(base, cand[n - 1].name@) {
            Some(b) => rest.push((b, n - 1)),
            None => rest,
        }
    }
}

/// `deltas` compares the stage pairs `prs` of `bs` and `cs`, pair by pair.
pub open spec fn deltas_match(
    deltas: Seq<SubMsStageDelta>,
    prs: Seq<(int, int)>,
    bs: Seq<SubMsStageSummary>,
    cs: Seq<SubMsStageSummary>,
) -> bool {
    &&& deltas.len() == prs.len()
    &&& forall|t: int|
        0 <= t < deltas.len() ==> 0 <= (#[trigger] prs[t]).0 < bs.len() && 0 <= prs[t].1 < cs.len()
            && stage_delta_of(deltas[t], bs[prs[t].0], cs[prs[t].1])
}

/// Whether some stage is named `name`.
pub open spec fn has_name(stages: Seq<SubMsStageSummary>, name: Seq<char>) -> bool {
    exists|j: int| 0 <= j < stages.len() && #[trigger] stages[j].name@ == name
}

/// The names of the first `n` stages of `a` that `b` has no stage for.
pub open spec fn only_in(a: Seq<SubMsStageSummary>, b: Seq<SubMsStageSummary>, n: nat) -> Seq<Seq<char>>
    decreases n,
{
    if n == 0 || n > a.len() {
        Seq::empty()
    } else {
        let rest = only_in(a, b, (n - 1) as nat);
        if has_name(b, a[n - 1].name@) {
            rest
        } else {
            rest.push(a[n - 1].name@)
        }
    }
}

/// The views of a list of names.
pub open spec fn names_view(v: Seq<String>) -> Seq<Seq<char>> {
    v.map_values(|s: String| s@)
}

fn metric_delta(name: &str, b: u64, c: u64) -> (m: SubMsMetricDelta)
    requires
        i64::MIN <= delta_of(b, c) <= i64::MAX,
    ensures
        metric_delta_of(m, name@, b, c),
{
    SubMsMetricDelta {
        metric: name.to_string(),
        baseline_ns: b,
        candidate_ns: c,
        delta_ns: (c as i64) - (b as i64),
    }
}

fn stage_delta(base: &SubMsStageSummary, cand: &SubMsStageSummary) -> (sd: SubMsStageDelta)
    requires
        deltas_fit(*base, *cand),
    ensures
        stage_delta_of(sd, *base, *cand),
{
    assert(i64::MIN <= delta_of(metric_values(*base)[0], metric_values(*cand)[0]) <= i64::MAX);
    assert(i64::MIN <= delta_of(metric_values(*base)[1], metric_values(*cand)[1]) <= i64::MAX);
    assert(i64::MIN <= delta_of(metric_values(*base)[2], metric_values(*cand)[2]) <= i64::MAX);
    assert(i64::MIN <= delta_of(metric_values(*base)[3], metric_values(*cand)[3]) <= i64::MAX);
    assert(i64::MIN <= delta_of(metric_values(*base)[4], metric_values(*cand)[4]) <= i64::MAX);
    let mut metrics: Vec<SubMsMetricDelta> = Vec::new();
    metrics.push(metric_delta("p50", base.p50_ns, cand.p50_ns));
    metrics.push(metric_delta("p99", base.p99_ns, cand.p99_ns));
    metrics.push(metric_delta("p99.9", base.p999_ns, cand.p999_ns));
    metrics.push(metric_delta("max", base.max_ns, cand.max_ns));
    metrics.push(metric_delta("mean", base.mean_ns, cand.mean_ns));
    let sd = SubMsStageDelta { stage: base.name.clone(), metrics };
    assert forall|k: int| 0 <= k < 5 implies metric_delta_of(
        #[trigger] sd.metrics@[k],
        metric_names()[k],
        metric_values(*base)[k],
        metric_values(*cand)[k],
    ) by {}
    sd
}

/// The names of `a`'s stages that `b` has no stage for, in `a`'s order.
fn names_only_in(a: &SubMsBenchSummary, b: &SubMsBenchSummary) -> (r: Vec<String>)
    ensures
        names_view(r@) == only_in(a.stages@, b.stages@, a.stages@.len()),
{
    let mut out: Vec<String> = Vec::new();
    let mut i: usize = 0;
    while i < a.stages.len()
        invariant
            i <= a.stages@.len(),
            names_view(out@) == only_in(a.stages@, b.stages@, i as nat),
        decreases a.stages@.len() - i,
    {
        let name = &a.stages[i].name;
        let found = b.stage(name.as_str()).is_some();
        assert(found == has_name(b.stages@, name@)) by {
            if has_name(b.stages@, name@) {
                let j = choose|j: int| 0 <= j < b.stages@.len() && #[trigger] b.stages@[j].name@ == name@;
                assert(b.stages@[j].name@ == name@);
            }
        }
        if !found {
            let ghost o0 = out@;
            out.push(name.clone());
            assert(names_view(out@) =~= names_view(o0).push(name@));
        }
        i += 1;
    }
    out
}

/// Compare `candidate` against `baseline`: each candidate stage that the
/// baseline has (first stage of that name) gives a stage delta, in
/// candidate order, with its p50 / p99 / p99.9 / max / mean deltas; and the
/// stage names only one side has, each in its own order.
#[verifier::rlimit(60)]
#[verifier::spinoff_prover]
pub fn diff_deltas(baseline: &SubMsBenchSummary, candidate: &SubMsBenchSummary) -> (r: SubMsBenchDelta)
    requires
        pairs_fit(baseline.stages@, candidate.stages@),
    ensures
        r.baseline_workload@ == baseline.workload@,
        r.candidate_workload@ == candidate.workload@,
        r.lang@ == candidate.lang@,
        deltas_match(
            r.stages@,
            paired(baseline.stages@, candidate.stages@, candidate.stages@.len()),
            baseline.stages@,
            candidate.stages@,
        ),
        names_view(r.baseline_only_stages@) == only_in(baseline.stages@, candidate.stages@, baseline.stages@.len()),
        names_view(r.candidate_only_stages@) == only_in(candidate.stages@, baseline.stages@, candidate.stages@.len()),
{
    let ghost bs = baseline.stages@;
    let ghost cs = candidate.stages@;
    let mut stages: Vec<SubMsStageDelta> = Vec::new();
    let mut i: usize = 0;
    while i < candidate.stages.len()
        invariant
            bs == baseline.stages@,
            cs == candidate.stages@,
            pairs_fit(bs, cs),
            i <= cs.len(),
            deltas_match(stages@, paired(bs, cs, i as nat), bs, cs),
        decreases cs.len() - i,
    {
        let cand = &candidate.stages[i];
        let ghost before = paired(bs, cs, i as nat);
        match baseline.stage(cand.name.as_str()) {
            Some(base) => {
                let ghost b = first_summary_stage(bs, cand.name@)->0;
                assert(deltas_fit(bs[b], cs[i as int]));
                let sd = stage_delta(base, cand);
                let ghost s0 = stages@;
                stages.push(sd);
                let ghost after = before.push((b, i as int));
                assert(paired(bs, cs, i as nat + 1) == after);
                assert forall|t: int| 0 <= t < stages@.len() implies 0 <= (#[trigger] after[t]).0 < bs.len()
                    && 0 <= after[t].1 < cs.len() && stage_delta_of(stages@[t], bs[after[t].0], cs[after[t].1]) by {
                    if t < s0.len() {
                        assert(stages@[t] == s0[t]);
                        assert(after[t] == before[t]);
                    }
                }
            },
            None => {
                assert(paired(bs, cs, i as nat + 1) == before);
            },
        }
        i += 1;
    }
    SubMsBenchDelta {
        baseline_workload: baseline.workload.clone(),
        candidate_workload: candidate.workload.clone(),
        lang: candidate.lang.clone(),
        stages,
        baseline_only_stages: names_only_in(baseline, candidate),
        candidate_only_stages: names_only_in(candidate, baseline),
    }
}

} // verus!
