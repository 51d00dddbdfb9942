//! Summaries of a harness run: per-stage percentiles, mean, spread,
//! histogram and jitter, the downsampled timeline, rolling windows and
//! sweeps. The presenters in [`crate::render`] consume these; none of them
//! recompute statistics.

use vstd::prelude::*;
use vstd::relations::{sorted_by, total_ordering};

use crate::harness::{SubMsPerfHarness, SubMsStage};
use crate::stats::{
    bucket_count, cdf_buckets, is_jitter_e4, is_stddev, jitter_score, lemma_stddev_jitter_unique,
    mean, mean_of,
    percentile, percentile_index, percentile_of, sorted, stddev, sum,
};
use crate::strmap::StrMap;
use crate::summary::{SubMsBenchSummary, SubMsStageSummary};
use crate::text::{dec, dec_string};
use crate::harness::iso8601;
use crate::recipe::{benchmark, benchmarked, harness_for, SubMsBenchParams, SubMsRecipe};
use crate::render::{summary_json_of, summary_to_json};
use crate::summary::{first_summary_stage, SubMsBenchSweep};
use crate::harness::first_stage_named;
use crate::text::{push_dec, push_str};

verus! {

// ---------------------------------------------------------------------
// Ordering the samples
// ---------------------------------------------------------------------

/// The samples in ascending order.
pub open spec fn ascending(s: Seq<u64>) -> Seq<u64> {
    s.sort_by(|a: u64, b: u64| a <= b)
}

/// `slice::sort_unstable` on `u64`s: afterwards the vector is in ascending
/// order and holds the same values as before, each as often.
#[verifier::external_body]
fn sort_unstable_u64(v: &mut Vec<u64>)
    ensures
        sorted(final(v)@),
        final(v)@.to_multiset() == old(v)@.to_multiset(),
{
    v.sort_unstable();
}

proof fn lemma_ascending_unique(s: Seq<u64>, t: Seq<u64>)
    requires
        sorted(t),
        t.to_multiset() == s.to_multiset(),
    ensures
        t == ascending(s),
{
    let leq = |a: u64, b: u64| a <= b;
    assert(total_ordering(leq));
    s.lemma_sort_by_ensures(leq);
    assert(sorted_by(t, leq));
    vstd::seq_lib::lemma_sorted_unique(t, s.sort_by(leq), leq);
}

/// A copy of the samples in ascending order.
pub fn sorted_copy(s: &[u64]) -> (r: Vec<u64>)
    ensures
        r@ == ascending(s@),
{
    let mut v = vstd::slice::slice_to_vec(s);
    sort_unstable_u64(&mut v);
    proof {
        lemma_ascending_unique(s@, v@);
    }
    v
}

// ---------------------------------------------------------------------
// Maximum
// ---------------------------------------------------------------------

/// The largest sample; `0` for none.
pub open spec fn max_of(s: Seq<u64>) -> u64
    decreases s.len(),
{
    if s.len() == 0 {
        0
    } else {
        let m = max_of(s.drop_last());
        if s.last() > m {
            s.last()
        } else {
            m
        }
    }
}

pub(crate) fn max_sample(s: &[u64]) -> (r: u64)
    ensures
        r == max_of(s@),
{
    let mut m: u64 = 0;
    let mut i: usize = 0;
    while i < s.len()
        invariant
            i <= s@.len(),
            m == max_of(s@.take(i as int)),
        decreases s@.len() - i,
    {
        assert(s@.take(i as int + 1).drop_last() == s@.take(i as int));
        if s[i] > m {
            m = s[i];
        }
        i += 1;
    }
    assert(s@.take(s@.len() as int) == s@);
    m
}

proof fn lemma_max_of_bounds(s: Seq<u64>)
    ensures
        forall|i: int| 0 <= i < s.len() ==> #[trigger] s[i] <= max_of(s),
        s.len() > 0 ==> s.contains(max_of(s)),
        sum(s) <= s.len() * max_of(s),
    decreases s.len(),
{
    if s.len() > 0 {
        let d = s.drop_last();
        lemma_max_of_bounds(d);
        assert forall|i: int| 0 <= i < s.len() implies #[trigger] s[i] <= max_of(s) by {
            if i < d.len() {
                assert(s[i] == d[i]);
            }
        }
        if max_of(s) == s.last() {
            assert(s[s.len() - 1] == max_of(s));
        } else {
            let j = choose|j: int| 0 <= j < d.len() && d[j] == max_of(d);
            assert(s[j] == d[j]);
        }
        assert(sum(s) == sum(d) + s.last());
        assert(d.len() * max_of(d) <= d.len() * max_of(s)) by (nonlinear_arith)
            requires
                max_of(d) <= max_of(s),
        ;
        assert(s.len() * max_of(s) == d.len() * max_of(s) + max_of(s)) by (nonlinear_arith)
            requires
                s.len() == d.len() + 1,
        ;
    }
}

/// The summary statistics are ordered: p50 <= p99 <= p99.9 <= max, and the
/// mean is at most the max.
pub proof fn lemma_percentiles_ordered(c: Seq<u64>)
    ensures
        percentile_of(ascending(c), 50, 100) <= percentile_of(ascending(c), 99, 100),
        percentile_of(ascending(c), 99, 100) <= percentile_of(ascending(c), 999, 1000),
        percentile_of(ascending(c), 999, 1000) <= max_of(c),
        mean_of(c) <= max_of(c),
{
    let leq = |a: u64, b: u64| a <= b;
    assert(total_ordering(leq));
    c.lemma_sort_by_ensures(leq);
    let t = ascending(c);
    assert(t.len() == c.len()) by {
        c.to_multiset_ensures();
        t.to_multiset_ensures();
    }
    lemma_max_of_bounds(c);
    let n = c.len();
    if n > 0 {
        assert forall|i: int, j: int| 0 <= i <= j < t.len() implies t[i] <= t[j] by {
            if i < j {
                assert(leq(t[i], t[j]));
            }
        }
        assert(sorted(t));
        assert(n * 50 / 100 <= n * 99 / 100) by (nonlinear_arith);
        assert(n * 99 / 100 <= n * 999 / 1000) by (nonlinear_arith);
        let i1 = percentile_index(n, 50, 100);
        let i2 = percentile_index(n, 99, 100);
        let i3 = percentile_index(n, 999, 1000);
        assert(i1 <= i2 <= i3 < n);
        assert(t[i1 as int] <= t[i2 as int]);
        assert(t[i2 as int] <= t[i3 as int]);
        c.to_multiset_ensures();
        t.to_multiset_ensures();
        assert(t.contains(t[i3 as int]));
        assert(c.contains(t[i3 as int]));
        let j = choose|j: int| 0 <= j < c.len() && c[j] == t[i3 as int];
        assert(c[j] <= max_of(c));
        assert(sum(c) / n <= max_of(c)) by (nonlinear_arith)
            requires
                sum(c) <= n * max_of(c),
                n > 0,
        ;
    }
}

/// Every stage summary is ordered: p50 <= p99 <= p99.9 <= max, and its
/// mean is at most its max.
pub proof fn lemma_stage_summary_ordered(st: SubMsStageSummary, name: Seq<char>, c: Seq<u64>, with_samples: bool, cap: nat)
    requires
        stage_summary_of(st, name, c, with_samples, cap),
    ensures
        st.p50_ns <= st.p99_ns <= st.p999_ns <= st.max_ns,
        st.mean_ns <= st.max_ns,
{
    lemma_percentiles_ordered(c);
}

// ---------------------------------------------------------------------
// Downsampling
// ---------------------------------------------------------------------

/// The stride that thins `n` points to at most `cap` (`cap == 0` counts as
/// 1): `ceil(n / cap)`, and 1 for no points.
pub open spec fn downsample_step(n: nat, cap: nat) -> nat {
    let c = if cap == 0 {
        1
    } else {
        cap
    };
    if n == 0 {
        1
    } else {
        (n + c - 1) as nat / c
    }
}

/// Every `step`-th point from the first, `step` as above.
pub open spec fn downsample_of(s: Seq<u64>, cap: nat) -> Seq<u64> {
    let step = downsample_step(s.len(), cap);
    Seq::new((s.len() + step - 1) as nat / step, |i: int| s[i * step])
}

proof fn lemma_stride_index(i: int, step: int, n: int)
    requires
        step >= 1,
        0 <= i,
        i < (n + step - 1) / step,
    ensures
        i * step < n,
{
    assert(i * step < n) by (nonlinear_arith)
        requires
            step >= 1,
            0 <= i,
            i < (n + step - 1) / step,
    ;
}

/// Downsampling keeps at most `max(cap, 1)` points, and every point when
/// `cap` is at least the count.
pub proof fn lemma_downsample_len(s: Seq<u64>, cap: nat)
    ensures
        downsample_of(s, cap).len() <= if cap == 0 {
            1
        } else {
            cap
        },
        cap >= s.len() ==> downsample_of(s, cap) == s,
{
    let n = s.len();
    let c: nat = if cap == 0 {
        1
    } else {
        cap
    };
    let step = downsample_step(n, cap);
    if n > 0 {
        assert(step >= 1 && step * c >= n) by (nonlinear_arith)
            requires
                c >= 1,
                n >= 1,
                step == (n + c - 1) as nat / c,
        ;
        assert((n + step - 1) as nat / step <= c) by (nonlinear_arith)
            requires
                step >= 1,
                c >= 1,
                step * c >= n,
        ;
        if cap >= n {
            assert(step == 1) by (nonlinear_arith)
                requires
                    c >= n,
                    n >= 1,
                    step == (n + c - 1) as nat / c,
            ;
            assert((n + step - 1) as nat == n);
            assert(n / 1 == n);
            assert((n + step - 1) as nat / step == n);
            assert forall|i: int| 0 <= i < n implies #[trigger] downsample_of(s, cap)[i] == s[i] by {
                assert(i * step == i);
            }
            assert(downsample_of(s, cap) =~= s);
        }
    } else {
        assert(downsample_of(s, cap) =~= s);
    }
}

/// Evenly spaced downsample to at most `cap` points (`cap == 0` counts as
/// 1), chronological order kept: every `ceil(len / cap)`-th point from the
/// first.
pub fn downsample(chronological: &[u64], cap: usize) -> (r: Vec<u64>)
    ensures
        r@ == downsample_of(chronological@, cap as nat),
        r@.len() <= if cap == 0 {
            1
        } else {
            cap
        },
        cap >= chronological@.len() ==> r@ == chronological@,
{
    proof {
        lemma_downsample_len(chronological@, cap as nat);
    }
    let n = chronological.len();
    let c = if cap == 0 {
        1
    } else {
        cap
    };
    let step = if n == 0 {
        1
    } else {
        (n - 1) / c + 1
    };
    assert(n > 0 ==> step as nat == (n + c - 1) as nat / (c as nat)) by (nonlinear_arith)
        requires
            c >= 1,
            n > 0 ==> step == (n - 1) / (c as int) + 1,
    ;
    let ghost want = downsample_of(chronological@, cap as nat);
    assert(step == downsample_step(n as nat, cap as nat));
    let count: usize = if n == 0 {
        0
    } else {
        (n - 1) / step + 1
    };
    assert(count == (n + step - 1) as nat / step as nat) by (nonlinear_arith)
        requires
            step >= 1,
            n == 0 ==> count == 0,
            n > 0 ==> count == (n - 1) / (step as int) + 1,
    ;
    let mut out: Vec<u64> = Vec::new();
    let mut k: usize = 0;
    while k < count
        invariant
            n == chronological@.len(),
            step >= 1,
            count == want.len(),
            want == downsample_of(chronological@, cap as nat),
            step == downsample_step(n as nat, cap as nat),
            k <= count,
            out@ == want.take(k as int),
        decreases count - k,
    {
        proof {
            lemma_stride_index(k as int, step as int, n as int);
            assert(want.take(k as int + 1) == want.take(k as int).push(want[k as int]));
        }
        out.push(chronological[k * step]);
        k += 1;
    }
    assert(want.take(want.len() as int) == want);
    out
}

// ---------------------------------------------------------------------
// One stage
// ---------------------------------------------------------------------

/// What a stage summary holds for the chronological samples `c` of a stage
/// named `name`: count, p50 / p99 / p99.9 of the ascending samples, max,
/// mean, standard deviation, the 64-bucket log2 histogram, the jitter score,
/// and the timeline downsampled to `cap` points when `with_samples`.
pub open spec fn stage_summary_of(
    st: SubMsStageSummary,
    name: Seq<char>,
    c: Seq<u64>,
    with_samples: bool,
    cap: nat,
) -> bool {
    &&& st.name@ == name
    &&& st.count == c.len()
    &&& st.p50_ns == percentile_of(ascending(c), 50, 100)
    &&& st.p99_ns == percentile_of(ascending(c), 99, 100)
    &&& st.p999_ns == percentile_of(ascending(c), 999, 1000)
    &&& st.max_ns == max_of(c)
    &&& st.mean_ns == mean_of(c)
    &&& is_stddev(st.stddev_ns, c)
    &&& st.cdf_buckets_ns@.len() == 64
    &&& forall|b: int| 0 <= b < 64 ==> #[trigger] st.cdf_buckets_ns@[b] == bucket_count(c, b as nat)
    &&& is_jitter_e4(st.jitter_score, c)
    &&& if with_samples {
        st.samples_ns matches Some(v) && v@ == downsample_of(c, cap)
    } else {
        st.samples_ns is None
    }
}

fn summarize_stage(name: &str, chronological: &[u64], include_samples: bool, sample_cap: usize) -> (r:
    SubMsStageSummary)
    requires
        sum(chronological@) <= u64::MAX,
    ensures
        stage_summary_of(r, name@, chronological@, include_samples, sample_cap as nat),
{
    let sorted = sorted_copy(chronological);
    let samples_ns = if include_samples {
        Some(downsample(chronological, sample_cap))
    } else {
        None
    };
    let buckets = cdf_buckets(chronological);
    SubMsStageSummary {
        name: name.to_string(),
        count: chronological.len(),
        p50_ns: percentile(sorted.as_slice(), 50, 100),
        p99_ns: percentile(sorted.as_slice(), 99, 100),
        p999_ns: percentile(sorted.as_slice(), 999, 1000),
        max_ns: max_sample(chronological),
        mean_ns: mean(chronological),
        stddev_ns: stddev(chronological),
        cdf_buckets_ns: buckets,
        jitter_score: jitter_score(chronological),
        samples_ns,
    }
}

// ---------------------------------------------------------------------
// Whole-run summaries
// ---------------------------------------------------------------------

/// Every stage's samples add up within `u64` (what the mean needs).
pub open spec fn sums_fit(h: SubMsPerfHarness) -> bool {
    forall|i: int|
        0 <= i < h.stages_view().len() ==> sum(#[trigger] h.stages_view()[i].samples_view())
            <= u64::MAX
}

/// The samples a summary reads after discarding the first `skip` warmup
/// samples (all of them when the stage holds no more than that).
pub open spec fn trimmed(c: Seq<u64>, skip: nat) -> Seq<u64> {
    if skip < c.len() {
        c.skip(skip as int)
    } else {
        Seq::empty()
    }
}

/// The samples each stage keeps after `skip` warmup samples add up within
/// `u64`.
pub open spec fn kept_sums_fit(h: SubMsPerfHarness, skip: nat) -> bool {
    forall|i: int|
        0 <= i < h.stages_view().len() ==> sum(trimmed(#[trigger] h.stages_view()[i].samples_view(), skip))
            <= u64::MAX
}

/// Every window of width `w` of every stage adds up within `u64`.
pub open spec fn windows_fit(h: SubMsPerfHarness, w: nat) -> bool {
    forall|i: int, k: nat|
        0 <= i < h.stages_view().len() ==> sum(
            #[trigger] window_slice(h.stages_view()[i].samples_view(), k, w),
        ) <= u64::MAX
}

/// Whole-stage sums that fit leave every kept part within `u64` too.
pub proof fn lemma_sums_fit_kept(h: SubMsPerfHarness, skip: nat)
    requires
        sums_fit(h),
    ensures
        kept_sums_fit(h, skip),
{
    assert forall|i: int| 0 <= i < h.stages_view().len() implies sum(
        trimmed(#[trigger] h.stages_view()[i].samples_view(), skip),
    ) <= u64::MAX by {
        let c = h.stages_view()[i].samples_view();
        if skip < c.len() {
            lemma_sum_skip(c, skip as int);
        } else {
            assert(sum(Seq::<u64>::empty()) == 0);
        }
    }
}

/// `r` summarizes harness `h` stage by stage (in registration order), each
/// stage read after `skip` warmup samples, with the timeline when
/// `with_samples`, downsampled to the harness's cap; identity, inputs and
/// meta copied; no CPU placement; a timestamp of the system clock.
pub open spec fn summary_of(r: SubMsBenchSummary, h: SubMsPerfHarness, with_samples: bool, skip: nat) -> bool {
    &&& r.workload@ == h.workload_view()
    &&& r.lang@ == h.lang_view()
    &&& exists|secs: u64| r.timestamp@ == iso8601(secs as nat)
    &&& r.cpu_core is None
    &&& r.cpu_affinity is None
    &&& r.inputs.entries_view() == h.inputs_entries()
    &&& r.meta.entries_view() == h.meta_entries()
    &&& r.stages@.len() == h.stages_view().len()
    &&& forall|i: int|
        0 <= i < r.stages@.len() ==> stage_summary_of(
            #[trigger] r.stages@[i],
            h.stages_view()[i].name_view(),
            trimmed(h.stages_view()[i].samples_view(), skip),
            with_samples,
            h.sample_cap_view() as nat,
        )
}

/// A lean summary is the full one without timelines: summarized from the
/// same harness, the two name the same workload, language, inputs and meta,
/// and every stage agrees on name, count, percentiles, max, mean, standard
/// deviation, histogram and jitter; the lean one has no timeline.
pub proof fn lemma_lean_is_full_without_timeline(
    full: SubMsBenchSummary,
    lean: SubMsBenchSummary,
    h: SubMsPerfHarness,
)
    requires
        summary_of(full, h, true, 0),
        summary_of(lean, h, false, 0),
    ensures
        lean.workload@ == full.workload@,
        lean.lang@ == full.lang@,
        lean.inputs.entries_view() == full.inputs.entries_view(),
        lean.meta.entries_view() == full.meta.entries_view(),
        lean.stages@.len() == full.stages@.len(),
        forall|i: int|
            #![trigger lean.stages@[i]]
            0 <= i < lean.stages@.len() ==> {
                let a = full.stages@[i];
                let b = lean.stages@[i];
                &&& b.name@ == a.name@
                &&& b.count == a.count
                &&& b.p50_ns == a.p50_ns
                &&& b.p99_ns == a.p99_ns
                &&& b.p999_ns == a.p999_ns
                &&& b.max_ns == a.max_ns
                &&& b.mean_ns == a.mean_ns
                &&& b.stddev_ns == a.stddev_ns
                &&& b.cdf_buckets_ns@ == a.cdf_buckets_ns@
                &&& b.jitter_score == a.jitter_score
                &&& b.samples_ns is None
            },
{
    assert forall|i: int| #![trigger lean.stages@[i]] 0 <= i < lean.stages@.len() implies {
        let a = full.stages@[i];
        let b = lean.stages@[i];
        &&& b.stddev_ns == a.stddev_ns
        &&& b.cdf_buckets_ns@ == a.cdf_buckets_ns@
        &&& b.jitter_score == a.jitter_score
    } by {
        let a = full.stages@[i];
        let b = lean.stages@[i];
        let c = trimmed(h.stages_view()[i].samples_view(), 0);
        assert(stage_summary_of(a, h.stages_view()[i].name_view(), c, true, h.sample_cap_view() as nat));
        assert(stage_summary_of(b, h.stages_view()[i].name_view(), c, false, h.sample_cap_view() as nat));
        lemma_stddev_jitter_unique(c, a.stddev_ns, b.stddev_ns, a.jitter_score, b.jitter_score);
        assert(b.cdf_buckets_ns@ =~= a.cdf_buckets_ns@);
    }
}

proof fn lemma_sum_skip(s: Seq<u64>, k: int)
    requires
        0 <= k <= s.len(),
    ensures
        sum(s.skip(k)) <= sum(s),
    decreases s.len(),
{
    if s.len() > 0 && k < s.len() {
        lemma_sum_skip(s.drop_last(), k);
        assert(s.skip(k).drop_last() == s.drop_last().skip(k));
        assert(s.skip(k).last() == s.last());
    } else {
        assert(s.skip(k).len() == 0);
    }
}

fn summarize_internal(h: &SubMsPerfHarness, include_samples: bool, skip_warmup: usize) -> (r:
    SubMsBenchSummary)
    requires
        kept_sums_fit(*h, skip_warmup as nat),
    ensures
        summary_of(r, *h, include_samples, skip_warmup as nat),
{
    let stages_in = h.stages();
    let cap = h.sample_cap();
    let mut stages: Vec<SubMsStageSummary> = Vec::new();
    let mut i: usize = 0;
    while i < stages_in.len()
        invariant
            stages_in@ == h.stages_view(),
            cap == h.sample_cap_view(),
            kept_sums_fit(*h, skip_warmup as nat),
            i <= stages_in@.len(),
            stages@.len() == i,
            forall|j: int|
                0 <= j < i ==> stage_summary_of(
                    #[trigger] stages@[j],
                    h.stages_view()[j].name_view(),
                    trimmed(h.stages_view()[j].samples_view(), skip_warmup as nat),
                    include_samples,
                    cap as nat,
                ),
        decreases stages_in@.len() - i,
    {
        let st: &SubMsStage = &stages_in[i];
        let all = st.samples();
        let ghost full = st.samples_view();
        assert(sum(trimmed(full, skip_warmup as nat)) <= u64::MAX);
        let k = if skip_warmup < all.len() {
            skip_warmup
        } else {
            all.len()
        };
        let part = vstd::slice::slice_subrange(all, k, all.len());
        assert(part@ =~= trimmed(full, skip_warmup as nat));
        assert(part@ == trimmed(full, skip_warmup as nat));
        let ss = summarize_stage(st.name(), part, include_samples, cap);
        stages.push(ss);
        i += 1;
    }
    SubMsBenchSummary {
        workload: h.workload().to_string(),
        lang: h.lang().to_string(),
        timestamp: h.timestamp(),
        cpu_core: None,
        cpu_affinity: None,
        inputs: h.inputs().copy(),
        meta: h.meta().copy(),
        stages,
    }
}

/// The summary of a run: every stage with its timeline downsampled to the
/// harness's sample cap, in registration order. Fires the registered
/// observer's `on_summarize` once with the result.
pub fn summarize(h: &SubMsPerfHarness) -> (r: SubMsBenchSummary)
    requires
        sums_fit(*h),
    ensures
        summary_of(r, *h, true, 0),
{
    proof {
        lemma_sums_fit_kept(*h, 0);
    }
    let summary = summarize_internal(h, true, 0);
    match h.observer() {
        Some(obs) => obs.on_summarize(&summary),
        None => {},
    }
    summary
}

/// The summary without the per-stage timelines.
pub fn summarize_lean(h: &SubMsPerfHarness) -> (r: SubMsBenchSummary)
    requires
        sums_fit(*h),
    ensures
        summary_of(r, *h, false, 0),
{
    proof {
        lemma_sums_fit_kept(*h, 0);
    }
    summarize_internal(h, false, 0)
}

/// The summary with the first `skip_warmup` samples of each stage discarded
/// (a stage with no more than that is summarized as empty) before anything
/// is computed; the timeline is the trimmed one.
pub fn summarize_skipping(h: &SubMsPerfHarness, skip_warmup: usize) -> (r: SubMsBenchSummary)
    requires
        kept_sums_fit(*h, skip_warmup as nat),
    ensures
        summary_of(r, *h, true, skip_warmup as nat),
{
    summarize_internal(h, true, skip_warmup)
}

// ---------------------------------------------------------------------
// Rolling windows
// ---------------------------------------------------------------------

/// The longest stage's sample count.
pub open spec fn max_stage_len(stages: Seq<SubMsStage>) -> nat
    decreases stages.len(),
{
    if stages.len() == 0 {
        0
    } else {
        let m = max_stage_len(stages.drop_last());
        let l = stages.last().samples_view().len();
        if l > m {
            l
        } else {
            m
        }
    }
}

/// The samples of window `k` of width `w`: positions `k*w .. k*w + w`,
/// clipped to the buffer (empty when the buffer is shorter).
pub open spec fn window_slice(c: Seq<u64>, k: nat, w: nat) -> Seq<u64> {
    let start = k * w;
    if start < c.len() {
        c.subrange(start as int, if start + w < c.len() {
            (start + w) as int
        } else {
            c.len() as int
        })
    } else {
        Seq::empty()
    }
}

/// `r` is window `k` (of width `w`) of harness `h`: every stage summarized
/// without timeline over its window's samples (cap 500), the inputs extended
/// with `__window_index` = `k` and `__window_size` = `w`.
pub open spec fn window_summary_of(r: SubMsBenchSummary, h: SubMsPerfHarness, k: nat, w: nat) -> bool {
    &&& r.workload@ == h.workload_view()
    &&& r.lang@ == h.lang_view()
    &&& exists|secs: u64| r.timestamp@ == iso8601(secs as nat)
    &&& r.cpu_core is None
    &&& r.cpu_affinity is None
    &&& r.inputs.map_view() == h.inputs_view().insert("__window_index"@, dec(k)).insert(
        "__window_size"@,
        dec(w),
    )
    &&& r.meta.entries_view() == h.meta_entries()
    &&& r.stages@.len() == h.stages_view().len()
    &&& forall|i: int|
        0 <= i < r.stages@.len() ==> stage_summary_of(
            #[trigger] r.stages@[i],
            h.stages_view()[i].name_view(),
            window_slice(h.stages_view()[i].samples_view(), k, w),
            false,
            500,
        )
}

proof fn lemma_max_stage_len(stages: Seq<SubMsStage>)
    ensures
        forall|i: int|
            0 <= i < stages.len() ==> (#[trigger] stages[i]).samples_view().len() <= max_stage_len(
                stages,
            ),
        stages.len() > 0 ==> exists|i: int|
            0 <= i < stages.len() && (#[trigger] stages[i]).samples_view().len() == max_stage_len(
                stages,
            ),
    decreases stages.len(),
{
    if stages.len() > 0 {
        lemma_max_stage_len(stages.drop_last());
        let l = stages.last().samples_view().len();
        if stages.len() > 1 && l <= max_stage_len(stages.drop_last()) {
            let j = choose|j: int|
                0 <= j < stages.drop_last().len() && (#[trigger] stages.drop_last()[j]).samples_view().len()
                    == max_stage_len(stages.drop_last());
            assert(stages[j] == stages.drop_last()[j]);
        }
        assert forall|i: int| 0 <= i < stages.len() implies (#[trigger] stages[i]).samples_view().len()
            <= max_stage_len(stages) by {
            if i < stages.len() - 1 {
                assert(stages[i] == stages.drop_last()[i]);
            }
        }
        assert(stages[stages.len() - 1] == stages.last());
    }
}

fn longest_stage(h: &SubMsPerfHarness) -> (r: usize)
    ensures
        r == max_stage_len(h.stages_view()),
{
    let st = h.stages();
    let mut m: usize = 0;
    let mut i: usize = 0;
    while i < st.len()
        invariant
            st@ == h.stages_view(),
            i <= st@.len(),
            m == max_stage_len(st@.take(i as int)),
        decreases st@.len() - i,
    {
        assert(st@.take(i as int + 1).drop_last() == st@.take(i as int));
        let l = st[i].samples().len();
        if l > m {
            m = l;
        }
        i += 1;
    }
    assert(st@.take(st@.len() as int) == st@);
    m
}

/// Slice each stage's chronological buffer into windows of `window` samples
/// (`0` counts as 1) and summarize each window: as many windows as the
/// longest stage needs, none for a harness without samples.
pub fn summarize_windowed(h: &SubMsPerfHarness, window: usize) -> (r: Vec<SubMsBenchSummary>)
    requires
        windows_fit(
            *h,
            if window == 0 {
                1nat
            } else {
                window as nat
            },
        ),
    ensures
        ({
            let w = if window == 0 {
                1nat
            } else {
                window as nat
            };
            &&& r@.len() == (max_stage_len(h.stages_view()) + w - 1) as nat / w
            &&& forall|k: int| 0 <= k < r@.len() ==> window_summary_of(#[trigger] r@[k], *h, k as nat, w)
        }),
{
    let w: usize = if window == 0 {
        1
    } else {
        window
    };
    let max_len = longest_stage(h);
    let mut out: Vec<SubMsBenchSummary> = Vec::new();
    if max_len == 0 {
        assert((max_len + w - 1) as nat / (w as nat) == 0) by (nonlinear_arith)
            requires
                max_len == 0,
                w >= 1,
        ;
        return out;
    }
    let n_windows: usize = (max_len - 1) / w + 1;
    assert(n_windows == (max_len + w - 1) as nat / (w as nat)) by (nonlinear_arith)
        requires
            w >= 1,
            max_len >= 1,
            n_windows == (max_len - 1) / (w as int) + 1,
    ;
    proof {
        lemma_max_stage_len(h.stages_view());
    }
    let st = h.stages();
    let mut k: usize = 0;
    while k < n_windows
        invariant
            st@ == h.stages_view(),
            windows_fit(*h, w as nat),
            w >= 1,
            w == (if window == 0 {
                1nat
            } else {
                window as nat
            }),
            max_len == max_stage_len(h.stages_view()),
            max_len >= 1,
            n_windows == (max_len - 1) / (w as int) + 1,
            k <= n_windows,
            out@.len() == k,
            forall|j: int| 0 <= j < k ==> window_summary_of(#[trigger] out@[j], *h, j as nat, w as nat),
        decreases n_windows - k,
    {
        assert(k * w < max_len) by (nonlinear_arith)
            requires
                k < n_windows,
                n_windows == (max_len - 1) / (w as int) + 1,
                w >= 1,
                max_len >= 1,
        ;
        let start: usize = k * w;
        let mut stages: Vec<SubMsStageSummary> = Vec::new();
        let mut i: usize = 0;
        while i < st.len()
            invariant
                st@ == h.stages_view(),
                windows_fit(*h, w as nat),
                w >= 1,
                start == k * w,
                i <= st@.len(),
                stages@.len() == i,
                forall|j: int|
                    0 <= j < i ==> stage_summary_of(
                        #[trigger] stages@[j],
                        h.stages_view()[j].name_view(),
                        window_slice(h.stages_view()[j].samples_view(), k as nat, w as nat),
                        false,
                        500,
                    ),
            decreases st@.len() - i,
        {
            let samples = st[i].samples();
            let ghost full = st@[i as int].samples_view();
            assert(sum(window_slice(full, k as nat, w as nat)) <= u64::MAX);
            let part: &[u64] = if start < samples.len() {
                let end = if samples.len() - start > w {
                    start + w
                } else {
                    samples.len()
                };
                vstd::slice::slice_subrange(samples, start, end)
            } else {
                assert(window_slice(full, k as nat, w as nat) == Seq::<u64>::empty());
                &[]
            };
            assert(part@ == window_slice(full, k as nat, w as nat));
            let ss = summarize_stage(st[i].name(), part, false, 500);
            stages.push(ss);
            i += 1;
        }
        let mut inputs = h.inputs().copy();
        let idx = dec_string(k as u64);
        let size = dec_string(w as u64);
        inputs.insert("__window_index", idx.as_str());
        inputs.insert("__window_size", size.as_str());
        let summary = SubMsBenchSummary {
            workload: h.workload().to_string(),
            lang: h.lang().to_string(),
            timestamp: h.timestamp(),
            cpu_core: None,
            cpu_affinity: None,
            inputs,
            meta: h.meta().copy(),
            stages,
        };
        out.push(summary);
        k += 1;
    }
    out
}

// ---------------------------------------------------------------------
// p99 assertions
// ---------------------------------------------------------------------

/// A single stage-level p99 bound.
#[derive(Debug, Clone, Copy)]
pub struct SubMsBenchAssertion {
    /// Stage name as registered with the harness.
    pub stage: &'static str,
    /// Upper bound, ns.
    pub p99_ns_max: u64,
}

/// Something a p99 can be read off by stage name: a summary, or the raw
/// harness.
pub trait SubMsAssertionTarget {
    /// The p99 of the stage named `stage`, if there is one.
    spec fn p99_for(&self, stage: Seq<char>) -> Option<u64>;

    fn lookup_p99_ns(&self, stage: &str) -> (r: Option<u64>)
        ensures
            r == self.p99_for(stage@),
    ;
}

impl SubMsAssertionTarget for SubMsBenchSummary {
    open spec fn p99_for(&self, stage: Seq<char>) -> Option<u64> {
        match first_summary_stage(self.stages@, stage) {
            Some(i) => Some(self.stages@[i].p99_ns),
            None => None,
        }
    }

    fn lookup_p99_ns(&self, stage: &str) -> (r: Option<u64>) {
        match self.stage(stage) {
            Some(s) => Some(s.p99_ns),
            None => None,
        }
    }
}

impl SubMsAssertionTarget for SubMsPerfHarness {
    open spec fn p99_for(&self, stage: Seq<char>) -> Option<u64> {
        match first_stage_named(self.stages_view(), stage) {
            Some(i) => Some(percentile_of(ascending(self.stages_view()[i].samples_view()), 99, 100)),
            None => None,
        }
    }

    fn lookup_p99_ns(&self, stage: &str) -> (r: Option<u64>) {
        match self.stage_by_name(stage) {
            Some(st) => {
                let sorted = sorted_copy(st.samples());
                Some(percentile(sorted.as_slice(), 99, 100))
            },
            None => None,
        }
    }
}

/// `stage '<name>' not found`.
pub open spec fn missing_stage_msg(name: Seq<char>) -> Seq<char> {
    "stage '"@ + name + "' not found"@
}

/// `stage '<name>' p99 = <p99> ns exceeded limit <max> ns`.
pub open spec fn exceeded_msg(name: Seq<char>, p99: u64, max: u64) -> Seq<char> {
    "stage '"@ + name + "' p99 = "@ + dec(p99 as nat) + " ns exceeded limit "@ + dec(max as nat)
        + " ns"@
}

/// The outcome of checking the bounds from the `i`-th on, in order: the
/// first stage that is missing or over its bound fails the check.
pub open spec fn p99_check<T: SubMsAssertionTarget + ?Sized>(
    t: &T,
    a: Seq<SubMsBenchAssertion>,
    i: int,
) -> Result<(), Seq<char>>
    decreases a.len() - i,
{
    if i < 0 || i >= a.len() {
        Ok(())
    } else {
        match t.p99_for(a[i].stage@) {
            None => Err(missing_stage_msg(a[i].stage@)),
            Some(p) => if p > a[i].p99_ns_max {
                Err(exceeded_msg(a[i].stage@, p, a[i].p99_ns_max))
            } else {
                p99_check(t, a, i + 1)
            },
        }
    }
}

/// The check passes exactly when every bound from the `i`-th on names a
/// stage the target has and that stage's p99 is within it.
pub proof fn lemma_p99_check_passes<T: SubMsAssertionTarget + ?Sized>(
    t: &T,
    a: Seq<SubMsBenchAssertion>,
    i: int,
)
    requires
        0 <= i <= a.len(),
    ensures
        p99_check(t, a, i) is Ok <==> forall|j: int|
            i <= j < a.len() ==> (t.p99_for(#[trigger] a[j].stage@) matches Some(p) && p <= a[j].p99_ns_max),
    decreases a.len() - i,
{
    if i < a.len() {
        lemma_p99_check_passes(t, a, i + 1);
    }
}

/// `Err` on the first stage that exceeds its p99 bound or is missing.
pub fn assert_p99_under<T: SubMsAssertionTarget + ?Sized>(
    target: &T,
    assertions: &[SubMsBenchAssertion],
) -> (r: Result<(), String>)
    ensures
        match r {
            Ok(()) => p99_check(target, assertions@, 0) == Ok::<(), Seq<char>>(()),
            Err(e) => p99_check(target, assertions@, 0) == Err::<(), Seq<char>>(e@),
        },
{
    let mut i: usize = 0;
    while i < assertions.len()
        invariant
            i <= assertions@.len(),
            p99_check(target, assertions@, 0) == p99_check(target, assertions@, i as int),
        decreases assertions@.len() - i,
    {
        let a = assertions[i];
        match target.lookup_p99_ns(a.stage) {
            None => {
                let mut msg = String::new();
                push_str(&mut msg, "stage '");
                push_str(&mut msg, a.stage);
                push_str(&mut msg, "' not found");
                assert(msg@ =~= missing_stage_msg(a.stage@));
                return Err(msg);
            },
            Some(p99) => {
                if p99 > a.p99_ns_max {
                    let mut msg = String::new();
                    push_str(&mut msg, "stage '");
                    push_str(&mut msg, a.stage);
                    push_str(&mut msg, "' p99 = ");
                    push_dec(&mut msg, p99);
                    push_str(&mut msg, " ns exceeded limit ");
                    push_dec(&mut msg, a.p99_ns_max);
                    push_str(&mut msg, " ns");
                    assert(msg@ =~= exceeded_msg(a.stage@, p99, a.p99_ns_max));
                    return Err(msg);
                }
            },
        }
        i += 1;
    }
    Ok(())
}

// ---------------------------------------------------------------------
// Runs and sweeps
// ---------------------------------------------------------------------

/// Alias of [`crate::recipe::benchmark`].
pub fn run_bench<R: SubMsRecipe + ?Sized>(recipe: &R, params: &SubMsBenchParams) -> (h:
    SubMsPerfHarness)
    ensures
        sums_fit(h),
        exists|name: Seq<char>| benchmarked(recipe, name, *params, h),
{
    benchmark(recipe, params)
}

/// `s` is the full summary of a run of `recipe` with `params` in a harness
/// set up for workload `name`.
pub open spec fn summarizes_run_of<R: SubMsRecipe + ?Sized>(
    recipe: &R,
    name: Seq<char>,
    params: SubMsBenchParams,
    s: SubMsBenchSummary,
) -> bool {
    exists|h: SubMsPerfHarness| benchmarked(recipe, name, params, h) && summary_of(s, h, true, 0)
}

/// Run the recipe once per parameter set, summarize each run, and bundle the
/// summaries (language `rust`, the varied input's name if given).
pub fn run_sweep<R: SubMsRecipe + ?Sized>(
    recipe: &R,
    params_list: &[SubMsBenchParams],
    varied_input_key: Option<&str>,
) -> (r: SubMsBenchSweep)
    ensures
        r.runs@.len() == params_list@.len(),
        forall|i: int|
            0 <= i < r.runs@.len() ==> summarizes_run_of(
                recipe,
                r.workload@,
                params_list@[i],
                #[trigger] r.runs@[i],
            ),
        r.lang@ == "rust"@,
        match varied_input_key {
            Some(k) => r.varied_input_key matches Some(v) && v@ == k@,
            None => r.varied_input_key is None,
        },
{
    let name = recipe.name();
    let mut runs: Vec<SubMsBenchSummary> = Vec::new();
    let mut i: usize = 0;
    while i < params_list.len()
        invariant
            i <= params_list@.len(),
            runs@.len() == i,
            recipe.named(name@),
            forall|t: int|
                0 <= t < runs@.len() ==> summarizes_run_of(
                    recipe,
                    name@,
                    params_list@[t],
                    #[trigger] runs@[t],
                ),
        decreases params_list@.len() - i,
    {
        let mut h = harness_for(name, &params_list[i]);
        let ghost h0 = h;
        recipe.run(&mut h, &params_list[i]);
        assert(benchmarked(recipe, name@, params_list@[i as int], h));
        let s = summarize(&h);
        let ghost r0 = runs@;
        runs.push(s);
        assert forall|t: int| 0 <= t < runs@.len() implies summarizes_run_of(
            recipe,
            name@,
            params_list@[t],
            #[trigger] runs@[t],
        ) by {
            if t < r0.len() {
                assert(runs@[t] == r0[t]);
            } else {
                assert(summary_of(runs@[t], h, true, 0));
            }
        }
        i += 1;
    }
    SubMsBenchSweep {
        workload: name.to_string(),
        lang: "rust".to_string(),
        varied_input_key: match varied_input_key {
            Some(k) => Some(k.to_string()),
            None => None,
        },
        runs,
    }
}

/// Bundle pre-computed summaries into a sweep named after the first one.
pub fn summarize_sweep(summaries: Vec<SubMsBenchSummary>, varied_input_key: Option<&str>) -> (r:
    SubMsBenchSweep)
    requires
        summaries@.len() > 0,
    ensures
        r.workload@ == summaries@[0].workload@,
        r.lang@ == summaries@[0].lang@,
        r.runs@ == summaries@,
        match varied_input_key {
            Some(k) => r.varied_input_key matches Some(v) && v@ == k@,
            None => r.varied_input_key is None,
        },
{
    let workload = summaries[0].workload.clone();
    let lang = summaries[0].lang.clone();
    SubMsBenchSweep {
        workload,
        lang,
        varied_input_key: match varied_input_key {
            Some(k) => Some(k.to_string()),
            None => None,
        },
        runs: summaries,
    }
}

impl SubMsPerfHarness {
    /// Summarize the run (see [`summarize`]) and write it in the standard JSON
    /// shape, then a newline.
    pub fn write_json(&self, out: &mut Vec<u8>) -> (r: Result<(), std::io::Error>)
        requires
            sums_fit(*self),
        ensures
            r is Ok,
            exists|s: SubMsBenchSummary|
                summary_of(s, *self, true, 0) && final(out)@ == old(out)@
                    + vstd::utf8::encode_utf8(#[trigger] summary_json_of(s).push('\n')),
    {
        let s = summarize(self);
        summary_to_json(&s, out)
    }
}

} // verus!
