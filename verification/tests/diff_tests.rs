use subms::{SubMsPerfHarness, diff_deltas, summarize_lean};

fn summary_of(stages: &[(&str, &[u64])]) -> subms::SubMsBenchSummary {
    let mut h = SubMsPerfHarness::new("explicit", "rust");
    for (name, values) in stages {
        let s = h.stage(name, values.len());
        for v in values.iter() {
            s.record(*v);
        }
    }
    summarize_lean(&h)
}

#[test]
fn diff_deltas_compare_each_metric() {
    let base = summary_of(&[("put", &[100, 200, 300, 400])]);
    let cand = summary_of(&[("put", &[110, 220, 330, 440])]);
    let d = diff_deltas(&base, &cand);
    assert_eq!(d.stages.len(), 1);
    let put = &d.stages[0];
    assert_eq!(put.stage, "put");
    let names: Vec<&str> = put.metrics.iter().map(|m| m.metric.as_str()).collect();
    assert_eq!(names, vec!["p50", "p99", "p99.9", "max", "mean"]);
    let deltas: Vec<i64> = put.metrics.iter().map(|m| m.delta_ns).collect();
    assert_eq!(deltas, vec![30, 40, 40, 40, 25]);
    assert_eq!(put.metrics[0].baseline_ns, 300);
    assert_eq!(put.metrics[0].candidate_ns, 330);
    assert!(d.baseline_only_stages.is_empty());
    assert!(d.candidate_only_stages.is_empty());
    assert_eq!(d.baseline_workload, "explicit");
    assert_eq!(d.lang, "rust");
}

#[test]
fn diff_deltas_go_negative_when_candidate_is_faster() {
    let base = summary_of(&[("put", &[200, 400, 600, 800])]);
    let cand = summary_of(&[("put", &[100, 200, 300, 400])]);
    let d = diff_deltas(&base, &cand);
    assert!(d.stages[0].metrics.iter().all(|m| m.delta_ns < 0));
    assert_eq!(d.stages[0].metrics[3].delta_ns, -400);
}

#[test]
fn diff_deltas_list_one_sided_stages_in_order() {
    let base = summary_of(&[("a", &[1]), ("b", &[2]), ("d", &[4])]);
    let cand = summary_of(&[("c", &[3]), ("b", &[5]), ("e", &[6])]);
    let d = diff_deltas(&base, &cand);
    assert_eq!(d.stages.len(), 1);
    assert_eq!(d.stages[0].stage, "b");
    assert_eq!(d.stages[0].metrics[3].delta_ns, 3);
    assert_eq!(d.baseline_only_stages, vec!["a".to_string(), "d".to_string()]);
    assert_eq!(d.candidate_only_stages, vec!["c".to_string(), "e".to_string()]);
}
