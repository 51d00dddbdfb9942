use subms::render::push_cpu_json;
use subms::stats::percentile;
use subms::{
    SubMsBenchAssertion, SubMsBenchParams, SubMsPerfHarness, SubMsRecipe, assert_p99_under,
    benchmark, downsample, format_ns, print_summary, print_sweep, run_bench, run_sweep, summarize,
    summarize_lean, summarize_skipping, summarize_sweep, summarize_windowed, summary_to_json,
    sweep_to_json,
};

struct FixedSubMsRecipe;
impl SubMsRecipe for FixedSubMsRecipe {
    fn name(&self) -> &str {
        "fixed-recipe"
    }
    fn run(&self, h: &mut SubMsPerfHarness, _params: &SubMsBenchParams) {
        let s = h.stage("step", 4);
        s.record(100);
        s.record(200);
        s.record(300);
        s.record(400);
    }
}

/// Records 100 linearly increasing samples into one stage.
struct ManySamplesRecipe;
impl SubMsRecipe for ManySamplesRecipe {
    fn name(&self) -> &str {
        "many-samples"
    }
    fn run(&self, h: &mut SubMsPerfHarness, _params: &SubMsBenchParams) {
        let s = h.stage("op", 100);
        for i in 0..100 {
            s.record((i + 1) * 100);
        }
    }
}

#[test]
fn bench_percentile_empty_is_zero() {
    assert_eq!(percentile(&[], 50, 100), 0);
}

#[test]
fn bench_percentile_single_value() {
    assert_eq!(percentile(&[42], 0, 1), 42);
    assert_eq!(percentile(&[42], 50, 100), 42);
    assert_eq!(percentile(&[42], 1, 1), 42);
}

#[test]
fn bench_percentile_known_distribution() {
    let v: Vec<u64> = (1..=100).collect();
    assert_eq!(percentile(&v, 50, 100), 51);
    assert_eq!(percentile(&v, 99, 100), 100);
    assert_eq!(percentile(&v, 999, 1000), 100);
    assert_eq!(percentile(&v, 1, 1), 100);
}

#[test]
fn bench_run_bench_drives_recipe_through_harness() {
    let p = SubMsBenchParams::default();
    let h = run_bench(&FixedSubMsRecipe, &p);
    let stage = h.stage_by_name("step").expect("step recorded");
    assert_eq!(stage.samples().len(), 4);
}

#[test]
fn bench_summarize_populates_percentiles_and_samples() {
    let p = SubMsBenchParams::default();
    let h = run_bench(&FixedSubMsRecipe, &p);
    let s = summarize(&h);
    assert_eq!(s.stages.len(), 1);
    let st = &s.stages[0];
    assert_eq!(st.name, "step");
    assert_eq!(st.count, 4);
    assert_eq!(st.p50_ns, 300);
    assert_eq!(st.p99_ns, 400);
    assert_eq!(st.max_ns, 400);
    assert_eq!(st.mean_ns, 250);
    assert_eq!(st.samples_ns.as_ref().unwrap().len(), 4);
}

#[test]
fn bench_summarize_lean_drops_samples() {
    let p = SubMsBenchParams::default();
    let h = run_bench(&FixedSubMsRecipe, &p);
    let s = summarize_lean(&h);
    assert!(s.stages[0].samples_ns.is_none());
}

#[test]
fn bench_cpu_json_emits_object_or_null() {
    let mut a = String::new();
    push_cpu_json(&mut a, Some(1), Some("1"));
    assert_eq!(a, r#"{"core":1,"affinity":"1"}"#);
    let mut b = String::new();
    push_cpu_json(&mut b, Some(0), Some("0-1"));
    assert_eq!(b, r#"{"core":0,"affinity":"0-1"}"#);
    let mut c = String::new();
    push_cpu_json(&mut c, None, None);
    assert_eq!(c, "null");
}

#[test]
fn bench_downsample_respects_cap() {
    let full: Vec<u64> = (0..2000).collect();
    assert_eq!(downsample(&full, 500).len(), 500);
    assert_eq!(downsample(&full, 5000).len(), 2000);
    assert_eq!(downsample(&full, 2000).len(), 2000);
    assert_eq!(downsample(&full, 0).len(), 1);
    assert!(downsample(&[], 500).is_empty());
}

#[test]
fn bench_benchmark_threads_sample_cap_onto_harness() {
    let p = SubMsBenchParams {
        entries: 4,
        warmup: 0,
        seed: 0,
        sample_cap: 12_345,
    };
    let h = benchmark(&FixedSubMsRecipe, &p);
    assert_eq!(h.sample_cap(), 12_345);
    let hd = benchmark(&FixedSubMsRecipe, &SubMsBenchParams::default());
    assert_eq!(hd.sample_cap(), 500);
}

#[test]
fn bench_assert_p99_under_passes_when_below_limit() {
    let p = SubMsBenchParams::default();
    let h = run_bench(&FixedSubMsRecipe, &p);
    let s = summarize_lean(&h);
    assert_p99_under(
        &s,
        &[SubMsBenchAssertion {
            stage: "step",
            p99_ns_max: 400,
        }],
    )
    .expect("p99=400 should satisfy max=400");
}

#[test]
fn bench_assert_p99_under_errors_when_above_limit() {
    let p = SubMsBenchParams::default();
    let h = run_bench(&FixedSubMsRecipe, &p);
    let s = summarize_lean(&h);
    let err = assert_p99_under(
        &s,
        &[SubMsBenchAssertion {
            stage: "step",
            p99_ns_max: 399,
        }],
    )
    .unwrap_err();
    assert!(err.contains("step"));
    assert!(err.contains("400"));
    assert!(err.contains("399"));
}

#[test]
fn bench_assert_p99_under_errors_when_stage_missing() {
    let p = SubMsBenchParams::default();
    let h = run_bench(&FixedSubMsRecipe, &p);
    let s = summarize_lean(&h);
    let err = assert_p99_under(
        &s,
        &[SubMsBenchAssertion {
            stage: "ghost",
            p99_ns_max: 1,
        }],
    )
    .unwrap_err();
    assert!(err.contains("ghost"));
    assert!(err.contains("not found"));
}

#[test]
fn bench_format_ns_uses_three_unit_tiers() {
    assert_eq!(format_ns(0), "0ns");
    assert_eq!(format_ns(999), "999ns");
    assert_eq!(format_ns(1_000), "1.0us");
    assert_eq!(format_ns(36_000), "36.0us");
    assert_eq!(format_ns(999_999), "1000.0us");
    assert_eq!(format_ns(1_000_000), "1.00ms");
    assert_eq!(format_ns(3_590_000), "3.59ms");
}

#[test]
fn bench_run_sweep_runs_recipe_once_per_params_set() {
    let params = vec![
        SubMsBenchParams {
            entries: 4,
            warmup: 0,
            seed: 0,
            sample_cap: 500,
        },
        SubMsBenchParams {
            entries: 4,
            warmup: 0,
            seed: 1,
            sample_cap: 500,
        },
    ];
    let sweep = run_sweep(&FixedSubMsRecipe, &params, Some("seed"));
    assert_eq!(sweep.runs.len(), 2);
    assert_eq!(sweep.varied_input_key.as_deref(), Some("seed"));
    assert_eq!(sweep.runs[0].stages[0].name, "step");
    assert_eq!(sweep.runs[1].stages[0].name, "step");
}

#[test]
fn bench_summarize_sweep_bundles_existing_summaries() {
    let p = SubMsBenchParams::default();
    let a = summarize(&run_bench(&FixedSubMsRecipe, &p));
    let b = summarize(&run_bench(&FixedSubMsRecipe, &p));
    let sweep = summarize_sweep(vec![a, b], Some("entries"));
    assert_eq!(sweep.runs.len(), 2);
    assert_eq!(sweep.workload, "fixed-recipe");
    assert_eq!(sweep.lang, "rust");
}

#[test]
fn bench_print_sweep_pivots_by_stage_and_labels_rows() {
    let params = vec![
        SubMsBenchParams {
            entries: 4,
            warmup: 0,
            seed: 0,
            sample_cap: 500,
        },
        SubMsBenchParams {
            entries: 4,
            warmup: 0,
            seed: 0,
            sample_cap: 500,
        },
    ];
    let sweep = run_sweep(&FixedSubMsRecipe, &params, None);
    let mut buf = Vec::new();
    print_sweep(&sweep, &mut buf).unwrap();
    let out = String::from_utf8(buf).unwrap();
    assert!(out.contains("stage: step"));
    assert!(out.contains("run 1"));
    assert!(out.contains("run 2"));
}

#[test]
fn bench_sweep_to_json_emits_array() {
    let params = vec![
        SubMsBenchParams {
            entries: 4,
            warmup: 0,
            seed: 0,
            sample_cap: 500,
        },
        SubMsBenchParams {
            entries: 4,
            warmup: 0,
            seed: 0,
            sample_cap: 500,
        },
    ];
    let sweep = run_sweep(&FixedSubMsRecipe, &params, Some("seed"));
    let mut buf = Vec::new();
    sweep_to_json(&sweep, &mut buf).unwrap();
    let out = String::from_utf8(buf).unwrap();
    assert!(out.starts_with('['));
    assert!(out.contains("\"workload\":\"fixed-recipe\""));
    assert!(out.contains("\"stages\":{"));
}

#[test]
fn bench_print_summary_produces_aligned_table() {
    let p = SubMsBenchParams::default();
    let h = run_bench(&FixedSubMsRecipe, &p);
    let s = summarize_lean(&h);
    let mut buf = Vec::new();
    print_summary(&s, &mut buf).unwrap();
    let out = String::from_utf8(buf).unwrap();
    assert!(out.contains("stage"));
    assert!(out.contains("p99"));
    assert!(out.contains("step"));
}

#[test]
fn bench_summarize_windowed_splits_into_correct_number_of_buckets() {
    let p = SubMsBenchParams::default();
    let h = run_bench(&ManySamplesRecipe, &p);
    let windows = summarize_windowed(&h, 20);
    assert_eq!(windows.len(), 5);
    for (i, w) in windows.iter().enumerate() {
        assert_eq!(
            w.inputs.get("__window_index").map(String::as_str),
            Some(i.to_string().as_str())
        );
        assert_eq!(
            w.inputs.get("__window_size").map(String::as_str),
            Some("20")
        );
    }
}

#[test]
fn bench_summarize_windowed_p99_monotonic_for_monotonic_input() {
    let p = SubMsBenchParams::default();
    let h = run_bench(&ManySamplesRecipe, &p);
    let windows = summarize_windowed(&h, 25);
    let p99s: Vec<u64> = windows.iter().map(|w| w.stages[0].p99_ns).collect();
    for pair in p99s.windows(2) {
        assert!(
            pair[1] >= pair[0],
            "p99 not monotonic: {} -> {}",
            pair[0],
            pair[1]
        );
    }
}

#[test]
fn bench_summarize_windowed_empty_harness_returns_empty_vec() {
    let h = SubMsPerfHarness::new("empty", "rust");
    let windows = summarize_windowed(&h, 10);
    assert!(windows.is_empty());
}

#[test]
fn bench_summarize_windowed_zero_window_treated_as_one() {
    let p = SubMsBenchParams::default();
    let h = run_bench(&ManySamplesRecipe, &p);
    let windows = summarize_windowed(&h, 0);
    assert_eq!(windows.len(), 100);
}

#[test]
fn bench_summary_to_json_emits_cdf_buckets_ns_field() {
    let p = SubMsBenchParams::default();
    let s = summarize(&run_bench(&FixedSubMsRecipe, &p));
    let mut buf = Vec::new();
    summary_to_json(&s, &mut buf).unwrap();
    let out = String::from_utf8(buf).unwrap();
    assert!(
        out.contains("\"cdf_buckets_ns\":["),
        "summary JSON must include cdf_buckets_ns: {}",
        out
    );
}

#[test]
fn bench_summary_to_json_emits_jitter_score_field() {
    let p = SubMsBenchParams::default();
    let s = summarize(&run_bench(&FixedSubMsRecipe, &p));
    let mut buf = Vec::new();
    summary_to_json(&s, &mut buf).unwrap();
    let out = String::from_utf8(buf).unwrap();
    assert!(
        out.contains("\"jitter_score\":"),
        "summary JSON must include jitter_score: {}",
        out
    );
}

#[test]
fn bench_summary_to_json_emits_stddev_ns_field() {
    let p = SubMsBenchParams::default();
    let s = summarize(&run_bench(&FixedSubMsRecipe, &p));
    let mut buf = Vec::new();
    summary_to_json(&s, &mut buf).unwrap();
    let out = String::from_utf8(buf).unwrap();
    assert!(
        out.contains("\"stddev_ns\":"),
        "summary JSON must include stddev_ns: {}",
        out
    );
}

#[test]
fn bench_summarize_populates_cdf_buckets_64_long() {
    let p = SubMsBenchParams::default();
    let s = summarize(&run_bench(&FixedSubMsRecipe, &p));
    assert_eq!(s.stages[0].cdf_buckets_ns.len(), 64);
    let total: u64 = s.stages[0].cdf_buckets_ns.iter().sum();
    assert_eq!(total as usize, s.stages[0].count);
}

#[test]
fn bench_summarize_populates_jitter_score_in_unit_interval() {
    let p = SubMsBenchParams::default();
    let s = summarize(&run_bench(&FixedSubMsRecipe, &p));
    let jit = s.stages[0].jitter_score as f64 / 10_000.0;
    assert!(
        (0.0..=1.0).contains(&jit),
        "jitter_score out of [0, 1]: {}",
        jit
    );
}

#[test]
fn bench_tests_percentile_empty_is_zero() {
    assert_eq!(percentile(&[], 50, 100), 0);
}

#[test]
fn bench_tests_percentile_single_value() {
    assert_eq!(percentile(&[42], 0, 1), 42);
    assert_eq!(percentile(&[42], 50, 100), 42);
    assert_eq!(percentile(&[42], 1, 1), 42);
}

#[test]
fn bench_tests_percentile_known_distribution() {
    let v: Vec<u64> = (1..=100).collect();
    assert_eq!(percentile(&v, 50, 100), 51);
    assert_eq!(percentile(&v, 99, 100), 100);
    assert_eq!(percentile(&v, 999, 1000), 100);
    assert_eq!(percentile(&v, 1, 1), 100);
}

#[test]
fn bench_tests_run_bench_drives_recipe_through_harness() {
    let p = SubMsBenchParams::default();
    let h = run_bench(&FixedSubMsRecipe, &p);
    let stage = h.stage_by_name("step").expect("step recorded");
    assert_eq!(stage.samples().len(), 4);
}

#[test]
fn bench_tests_summarize_populates_percentiles_and_samples() {
    let p = SubMsBenchParams::default();
    let h = run_bench(&FixedSubMsRecipe, &p);
    let s = summarize(&h);
    assert_eq!(s.stages.len(), 1);
    let st = &s.stages[0];
    assert_eq!(st.name, "step");
    assert_eq!(st.count, 4);
    assert_eq!(st.p50_ns, 300);
    assert_eq!(st.p99_ns, 400);
    assert_eq!(st.max_ns, 400);
    assert_eq!(st.mean_ns, 250);
    assert_eq!(st.samples_ns.as_ref().unwrap().len(), 4);
}

#[test]
fn bench_tests_summarize_lean_drops_samples() {
    let p = SubMsBenchParams::default();
    let h = run_bench(&FixedSubMsRecipe, &p);
    let s = summarize_lean(&h);
    assert!(s.stages[0].samples_ns.is_none());
}

#[test]
fn bench_tests_cpu_json_emits_object_or_null() {
    let mut a = String::new();
    push_cpu_json(&mut a, Some(1), Some("1"));
    assert_eq!(a, r#"{"core":1,"affinity":"1"}"#);
    let mut b = String::new();
    push_cpu_json(&mut b, Some(0), Some("0-1"));
    assert_eq!(b, r#"{"core":0,"affinity":"0-1"}"#);
    let mut c = String::new();
    push_cpu_json(&mut c, None, None);
    assert_eq!(c, "null");
}

#[test]
fn bench_tests_downsample_respects_cap() {
    let full: Vec<u64> = (0..2000).collect();
    assert_eq!(downsample(&full, 500).len(), 500);
    assert_eq!(downsample(&full, 5000).len(), 2000);
    assert_eq!(downsample(&full, 2000).len(), 2000);
    assert_eq!(downsample(&full, 0).len(), 1);
    assert!(downsample(&[], 500).is_empty());
}

#[test]
fn bench_tests_benchmark_threads_sample_cap_onto_harness() {
    let p = SubMsBenchParams {
        entries: 4,
        warmup: 0,
        seed: 0,
        sample_cap: 12_345,
    };
    let h = benchmark(&FixedSubMsRecipe, &p);
    assert_eq!(h.sample_cap(), 12_345);
    let hd = benchmark(&FixedSubMsRecipe, &SubMsBenchParams::default());
    assert_eq!(hd.sample_cap(), 500);
}

#[test]
fn bench_tests_assert_p99_under_passes_when_below_limit() {
    let p = SubMsBenchParams::default();
    let h = run_bench(&FixedSubMsRecipe, &p);
    let s = summarize_lean(&h);
    assert_p99_under(
        &s,
        &[SubMsBenchAssertion {
            stage: "step",
            p99_ns_max: 400,
        }],
    )
    .expect("p99=400 should satisfy max=400");
}

#[test]
fn bench_tests_assert_p99_under_errors_when_above_limit() {
    let p = SubMsBenchParams::default();
    let h = run_bench(&FixedSubMsRecipe, &p);
    let s = summarize_lean(&h);
    let err = assert_p99_under(
        &s,
        &[SubMsBenchAssertion {
            stage: "step",
            p99_ns_max: 399,
        }],
    )
    .unwrap_err();
    assert!(err.contains("step"));
    assert!(err.contains("400"));
    assert!(err.contains("399"));
}

#[test]
fn bench_tests_assert_p99_under_errors_when_stage_missing() {
    let p = SubMsBenchParams::default();
    let h = run_bench(&FixedSubMsRecipe, &p);
    let s = summarize_lean(&h);
    let err = assert_p99_under(
        &s,
        &[SubMsBenchAssertion {
            stage: "ghost",
            p99_ns_max: 1,
        }],
    )
    .unwrap_err();
    assert!(err.contains("ghost"));
    assert!(err.contains("not found"));
}

#[test]
fn bench_tests_format_ns_uses_three_unit_tiers() {
    assert_eq!(format_ns(0), "0ns");
    assert_eq!(format_ns(999), "999ns");
    assert_eq!(format_ns(1_000), "1.0us");
    assert_eq!(format_ns(36_000), "36.0us");
    assert_eq!(format_ns(999_999), "1000.0us");
    assert_eq!(format_ns(1_000_000), "1.00ms");
    assert_eq!(format_ns(3_590_000), "3.59ms");
}

#[test]
fn bench_tests_run_sweep_runs_recipe_once_per_params_set() {
    let params = vec![
        SubMsBenchParams {
            entries: 4,
            warmup: 0,
            seed: 0,
            sample_cap: 500,
        },
        SubMsBenchParams {
            entries: 4,
            warmup: 0,
            seed: 1,
            sample_cap: 500,
        },
    ];
    let sweep = run_sweep(&FixedSubMsRecipe, &params, Some("seed"));
    assert_eq!(sweep.runs.len(), 2);
    assert_eq!(sweep.varied_input_key.as_deref(), Some("seed"));
    assert_eq!(sweep.runs[0].stages[0].name, "step");
    assert_eq!(sweep.runs[1].stages[0].name, "step");
}

#[test]
fn bench_tests_summarize_sweep_bundles_existing_summaries() {
    let p = SubMsBenchParams::default();
    let a = summarize(&run_bench(&FixedSubMsRecipe, &p));
    let b = summarize(&run_bench(&FixedSubMsRecipe, &p));
    let sweep = summarize_sweep(vec![a, b], Some("entries"));
    assert_eq!(sweep.runs.len(), 2);
    assert_eq!(sweep.workload, "fixed-recipe");
    assert_eq!(sweep.lang, "rust");
}

#[test]
fn bench_tests_print_sweep_pivots_by_stage_and_labels_rows() {
    let params = vec![
        SubMsBenchParams {
            entries: 4,
            warmup: 0,
            seed: 0,
            sample_cap: 500,
        },
        SubMsBenchParams {
            entries: 4,
            warmup: 0,
            seed: 0,
            sample_cap: 500,
        },
    ];
    let sweep = run_sweep(&FixedSubMsRecipe, &params, None);
    let mut buf = Vec::new();
    print_sweep(&sweep, &mut buf).unwrap();
    let out = String::from_utf8(buf).unwrap();
    assert!(out.contains("stage: step"));
    assert!(out.contains("run 1"));
    assert!(out.contains("run 2"));
}

#[test]
fn bench_tests_sweep_to_json_emits_array() {
    let params = vec![
        SubMsBenchParams {
            entries: 4,
            warmup: 0,
            seed: 0,
            sample_cap: 500,
        },
        SubMsBenchParams {
            entries: 4,
            warmup: 0,
            seed: 0,
            sample_cap: 500,
        },
    ];
    let sweep = run_sweep(&FixedSubMsRecipe, &params, Some("seed"));
    let mut buf = Vec::new();
    sweep_to_json(&sweep, &mut buf).unwrap();
    let out = String::from_utf8(buf).unwrap();
    assert!(out.starts_with('['));
    assert!(out.contains("\"workload\":\"fixed-recipe\""));
    assert!(out.contains("\"stages\":{"));
}

#[test]
fn bench_tests_print_summary_produces_aligned_table() {
    let p = SubMsBenchParams::default();
    let h = run_bench(&FixedSubMsRecipe, &p);
    let s = summarize_lean(&h);
    let mut buf = Vec::new();
    print_summary(&s, &mut buf).unwrap();
    let out = String::from_utf8(buf).unwrap();
    assert!(out.contains("stage"));
    assert!(out.contains("p99"));
    assert!(out.contains("step"));
}

#[test]
fn bench_tests_summarize_windowed_splits_into_correct_number_of_buckets() {
    let p = SubMsBenchParams::default();
    let h = run_bench(&ManySamplesRecipe, &p);
    let windows = summarize_windowed(&h, 20);
    assert_eq!(windows.len(), 5);
    for (i, w) in windows.iter().enumerate() {
        assert_eq!(
            w.inputs.get("__window_index").map(String::as_str),
            Some(i.to_string().as_str())
        );
        assert_eq!(
            w.inputs.get("__window_size").map(String::as_str),
            Some("20")
        );
    }
}

#[test]
fn bench_tests_summarize_windowed_p99_monotonic_for_monotonic_input() {
    let p = SubMsBenchParams::default();
    let h = run_bench(&ManySamplesRecipe, &p);
    let windows = summarize_windowed(&h, 25);
    let p99s: Vec<u64> = windows.iter().map(|w| w.stages[0].p99_ns).collect();
    for pair in p99s.windows(2) {
        assert!(
            pair[1] >= pair[0],
            "p99 not monotonic: {} -> {}",
            pair[0],
            pair[1]
        );
    }
}

#[test]
fn bench_tests_summarize_windowed_empty_harness_returns_empty_vec() {
    let h = SubMsPerfHarness::new("empty", "rust");
    let windows = summarize_windowed(&h, 10);
    assert!(windows.is_empty());
}

#[test]
fn bench_tests_summarize_windowed_zero_window_treated_as_one() {
    let p = SubMsBenchParams::default();
    let h = run_bench(&ManySamplesRecipe, &p);
    let windows = summarize_windowed(&h, 0);
    assert_eq!(windows.len(), 100);
}

#[test]
fn bench_tests_summary_to_json_emits_cdf_buckets_ns_field() {
    let p = SubMsBenchParams::default();
    let s = summarize(&run_bench(&FixedSubMsRecipe, &p));
    let mut buf = Vec::new();
    summary_to_json(&s, &mut buf).unwrap();
    let out = String::from_utf8(buf).unwrap();
    assert!(
        out.contains("\"cdf_buckets_ns\":["),
        "summary JSON must include cdf_buckets_ns: {}",
        out
    );
}

#[test]
fn bench_tests_summary_to_json_emits_jitter_score_field() {
    let p = SubMsBenchParams::default();
    let s = summarize(&run_bench(&FixedSubMsRecipe, &p));
    let mut buf = Vec::new();
    summary_to_json(&s, &mut buf).unwrap();
    let out = String::from_utf8(buf).unwrap();
    assert!(
        out.contains("\"jitter_score\":"),
        "summary JSON must include jitter_score: {}",
        out
    );
}

#[test]
fn bench_tests_summary_to_json_emits_stddev_ns_field() {
    let p = SubMsBenchParams::default();
    let s = summarize(&run_bench(&FixedSubMsRecipe, &p));
    let mut buf = Vec::new();
    summary_to_json(&s, &mut buf).unwrap();
    let out = String::from_utf8(buf).unwrap();
    assert!(
        out.contains("\"stddev_ns\":"),
        "summary JSON must include stddev_ns: {}",
        out
    );
}

#[test]
fn bench_tests_summarize_populates_cdf_buckets_64_long() {
    let p = SubMsBenchParams::default();
    let s = summarize(&run_bench(&FixedSubMsRecipe, &p));
    assert_eq!(s.stages[0].cdf_buckets_ns.len(), 64);
    let total: u64 = s.stages[0].cdf_buckets_ns.iter().sum();
    assert_eq!(total as usize, s.stages[0].count);
}

#[test]
fn bench_tests_summarize_populates_jitter_score_in_unit_interval() {
    let p = SubMsBenchParams::default();
    let s = summarize(&run_bench(&FixedSubMsRecipe, &p));
    let jit = s.stages[0].jitter_score as f64 / 10_000.0;
    assert!(
        (0.0..=1.0).contains(&jit),
        "jitter_score out of [0, 1]: {}",
        jit
    );
}

#[test]
fn summary_statistics_are_ordered() {
    let mut h = SubMsPerfHarness::new("order", "rust");
    let s = h.stage("op", 257);
    let mut x: u64 = 7;
    for _ in 0..257 {
        x = (x * 1103515245 + 12345) % 1_000_003;
        s.record(x);
    }
    let summary = summarize(&h);
    let st = &summary.stages[0];
    assert!(st.p50_ns <= st.p99_ns);
    assert!(st.p99_ns <= st.p999_ns);
    assert!(st.p999_ns <= st.max_ns);
    assert!(st.mean_ns <= st.max_ns);
    assert_eq!(st.count, 257);
}

#[test]
fn downsample_never_exceeds_the_cap() {
    let full: Vec<u64> = (0..3000).collect();
    let d = downsample(&full, 600);
    assert_eq!(d.len(), 600);
    assert_eq!(&d[..3], &[0, 5, 10]);
    assert_eq!(downsample(&full, 2001).len(), 1500);
    assert_eq!(downsample(&full, 0), vec![0]);
    assert_eq!(downsample(&[7, 8, 9], 2), vec![7, 9]);
    assert_eq!(downsample(&(0..2001).collect::<Vec<u64>>(), 500).len(), 401);
}

#[test]
fn summarize_skipping_discards_the_warmup_samples() {
    let mut h = SubMsPerfHarness::new("skip", "rust");
    let s = h.stage("short", 1);
    s.record(10);
    let t = h.stage("long", 8);
    for v in [1000u64, 1000, 1, 2, 3, 4, 5, 6] {
        t.record(v);
    }
    let summary = summarize_skipping(&h, 2);
    assert_eq!(summary.stages[0].count, 0);
    assert_eq!(summary.stages[1].count, 6);
    assert_eq!(summary.stages[1].max_ns, 6);
    assert_eq!(summary.stages[1].samples_ns.as_ref().unwrap(), &vec![1, 2, 3, 4, 5, 6]);
    let all = summarize_skipping(&h, 5);
    assert_eq!(all.stages[0].count, 0);
    assert_eq!(all.stages[1].count, 3);
}

/// Records one sample into each of three stages.
struct ThreeStagesRecipe;
impl SubMsRecipe for ThreeStagesRecipe {
    fn name(&self) -> &str {
        "three-stages"
    }
    fn run(&self, h: &mut SubMsPerfHarness, _params: &SubMsBenchParams) {
        h.stage("parse", 1).record(999);
        h.stage("apply", 1).record(36_000);
        h.stage("flush", 1).record(3_590_000);
    }
}

#[test]
fn print_summary_has_a_header_and_one_line_per_stage() {
    let h = run_bench(&ThreeStagesRecipe, &SubMsBenchParams::default());
    let s = summarize_lean(&h);
    let mut buf = Vec::new();
    print_summary(&s, &mut buf).unwrap();
    let out = String::from_utf8(buf).unwrap();
    assert_eq!(out.matches('\n').count(), 4);
    assert!(out.ends_with('\n'));
    let lines: Vec<&str> = out.lines().collect();
    assert!(lines[1].contains("parse"));
    assert!(lines[2].contains("apply"));
    assert!(lines[3].contains("flush"));
}

#[test]
fn print_sweep_has_one_block_per_stage_and_one_row_per_run() {
    let params = vec![SubMsBenchParams::default(), SubMsBenchParams::default()];
    let sw = run_sweep(&ThreeStagesRecipe, &params, None);
    let mut buf = Vec::new();
    print_sweep(&sw, &mut buf).unwrap();
    let out = String::from_utf8(buf).unwrap();
    assert_eq!(out.matches('\n').count(), 3 * (2 + 3));
    assert_eq!(out.matches("stage: ").count(), 3);
    assert_eq!(out.matches("run 2").count(), 3);
}

#[test]
fn lean_summary_is_the_full_one_without_timelines() {
    let h = run_bench(&ManySamplesRecipe, &SubMsBenchParams::default());
    let full = summarize(&h);
    let lean = summarize_lean(&h);
    assert_eq!(lean.workload, full.workload);
    assert_eq!(lean.stages.len(), full.stages.len());
    for (a, b) in full.stages.iter().zip(lean.stages.iter()) {
        assert_eq!(b.name, a.name);
        assert_eq!(b.count, a.count);
        assert_eq!((b.p50_ns, b.p99_ns, b.p999_ns), (a.p50_ns, a.p99_ns, a.p999_ns));
        assert_eq!((b.max_ns, b.mean_ns, b.stddev_ns), (a.max_ns, a.mean_ns, a.stddev_ns));
        assert_eq!(b.cdf_buckets_ns, a.cdf_buckets_ns);
        assert_eq!(b.jitter_score, a.jitter_score);
        assert!(a.samples_ns.is_some());
        assert!(b.samples_ns.is_none());
    }
}

#[test]
fn windows_are_summed_one_at_a_time() {
    let mut h = SubMsPerfHarness::new("w", "rust");
    let s = h.stage("op", 2);
    s.record(1u64 << 63);
    s.record(1u64 << 63);
    let w = summarize_windowed(&h, 1);
    assert_eq!(w.len(), 2);
    assert_eq!(w[0].stages[0].mean_ns, 1u64 << 63);
    assert_eq!(w[1].stages[0].max_ns, 1u64 << 63);
}

#[test]
fn skipping_sums_only_the_kept_samples() {
    let mut h = SubMsPerfHarness::new("w", "rust");
    let st = h.stage("op", 4);
    st.record(1u64 << 63);
    st.record(1u64 << 63);
    st.record(7);
    st.record(9);
    let s = summarize_skipping(&h, 2);
    assert_eq!(s.stages[0].count, 2);
    assert_eq!(s.stages[0].mean_ns, 8);
    assert_eq!(s.stages[0].max_ns, 9);
}

#[test]
fn summary_json_parses_back_with_its_keys_in_order() {
    let h = run_bench(&ThreeStagesRecipe, &SubMsBenchParams::default());
    let s = summarize(&h);
    let mut buf = Vec::new();
    summary_to_json(&s, &mut buf).unwrap();
    let text = String::from_utf8(buf).unwrap();
    let v = subms::parse_json(&text).unwrap();
    let subms::Json::Obj(top) = v else { panic!("not an object") };
    let keys: Vec<&str> = top.iter().map(|(k, _)| k.as_str()).collect();
    assert_eq!(keys, vec!["workload", "lang", "timestamp", "inputs", "meta", "cpu", "stages"]);
    let subms::Json::Obj(stages) = &top[6].1 else { panic!("stages not an object") };
    let names: Vec<&str> = stages.iter().map(|(k, _)| k.as_str()).collect();
    assert_eq!(names, vec!["parse", "apply", "flush"]);
    let subms::Json::Obj(first) = &stages[0].1 else { panic!("stage not an object") };
    let fields: Vec<&str> = first.iter().map(|(k, _)| k.as_str()).collect();
    assert_eq!(
        fields,
        vec![
            "count", "p50_ns", "p99_ns", "p999_ns", "max_ns", "mean_ns", "stddev_ns",
            "jitter_score", "cdf_buckets_ns", "samples_ns"
        ]
    );
}

#[test]
fn sweep_json_parses_back_as_an_array_of_runs() {
    let params = vec![SubMsBenchParams::default(), SubMsBenchParams::default()];
    let sw = run_sweep(&ThreeStagesRecipe, &params, None);
    let mut buf = Vec::new();
    sweep_to_json(&sw, &mut buf).unwrap();
    let text = String::from_utf8(buf).unwrap();
    let v = subms::parse_json(&text).unwrap();
    let subms::Json::Arr(runs) = v else { panic!("not an array") };
    assert_eq!(runs.len(), 2);
    assert!(matches!(runs[1], subms::Json::Obj(_)));
}

#[test]
fn growth_round_latencies_are_p50_p99_and_max() {
    let samples: Vec<u64> = (1..=100u64).rev().collect();
    assert_eq!(subms::growth::round_latencies(&samples), (51, 100, 100));
    assert_eq!(subms::growth::round_latencies(&[]), (0, 0, 0));
}
