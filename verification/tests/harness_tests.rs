use std::sync::{Arc, Mutex};

use subms::{
    ObservationCtx, SubMsBenchSummary, SubMsObserver, SubMsPerfHarness, SubMsStageKind, summarize,
};

#[test]
fn subms_tests_round_trip_smoke() {
    let mut h = SubMsPerfHarness::new("toy", "rust");
    h.input("entries", "1000");
    h.input("bloom_mode", "on");
    h.add_meta("sstables", "1");

    let s = h.stage("work", 1000);
    for i in 0..1000u64 {
        s.record(i * 10);
    }

    let mut buf = Vec::new();
    h.write_json(&mut buf).unwrap();
    let json = String::from_utf8(buf).unwrap();

    assert!(json.starts_with('{'));
    assert!(json.contains("\"workload\":\"toy\""));
    assert!(json.contains("\"lang\":\"rust\""));
    assert!(json.contains("\"inputs\""));
    assert!(json.contains("\"entries\":\"1000\""));
    assert!(json.contains("\"work\":{"));
    assert!(json.contains("\"count\":1000"));
    assert!(json.contains("\"samples_ns\":["));
}

#[test]
fn subms_tests_percentiles_make_sense() {
    let mut h = SubMsPerfHarness::new("perc", "rust");
    let s = h.stage("op", 100);
    for i in 0..100u64 {
        s.record(i);
    }

    let mut buf = Vec::new();
    h.write_json(&mut buf).unwrap();
    let json = String::from_utf8(buf).unwrap();

    assert!(json.contains("\"p50_ns\":50"));
    assert!(json.contains("\"max_ns\":99"));
}

#[test]
fn warm_then_time_records_measured_only() {
    let mut h = SubMsPerfHarness::new("warm", "rust");
    let s = h.stage("op", 8);
    let mut calls = 0usize;
    let mut last_idx = 0usize;
    s.warm_then_time(100, 8, |i| {
        calls += 1;
        last_idx = i;
    });
    assert_eq!(calls, 108, "op ran for warmup + measured iterations");
    assert_eq!(
        s.samples().len(),
        8,
        "only the measured pass produced samples"
    );
    assert_eq!(last_idx, 7, "measured pass walks 0..measured-1");
}

/// One captured record.
#[derive(Clone, Debug, PartialEq, Eq)]
struct Captured {
    stage: String,
    ns: u64,
    kind: SubMsStageKind,
    workload: String,
    lang: String,
}

/// Test observer that records every call.
#[derive(Default)]
struct RecordingObserver {
    records: Mutex<Vec<Captured>>,
    summaries: Mutex<u32>,
}

impl SubMsObserver for RecordingObserver {
    fn on_record(&self, ctx: &ObservationCtx, ns: u64) {
        self.records.lock().unwrap().push(Captured {
            stage: ctx.stage.to_string(),
            ns,
            kind: ctx.stage_kind,
            workload: ctx.workload.to_string(),
            lang: ctx.lang.to_string(),
        });
    }
    fn on_summarize(&self, _summary: &SubMsBenchSummary) {
        *self.summaries.lock().unwrap() += 1;
    }
}

#[test]
fn observer_default_noop_does_not_change_behaviour() {
    let mut h = SubMsPerfHarness::new("noop", "rust");
    let s = h.stage("op", 4);
    s.record(100);
    s.record(200);
    assert_eq!(s.samples().len(), 2);
    let summary = summarize(&h);
    assert_eq!(summary.stages.len(), 1);
}

#[test]
fn observer_fires_on_record_and_time() {
    let obs = Arc::new(RecordingObserver::default());
    let mut h = SubMsPerfHarness::new("rec", "rust").with_observer(obs.clone());
    let s = h.stage("op", 4);
    s.record(42);
    s.time(|| {});
    let captured = obs.records.lock().unwrap().clone();
    assert_eq!(captured.len(), 2, "record + time each fire once");
    assert_eq!(captured[0].stage, "op");
    assert_eq!(captured[0].ns, 42);
    assert_eq!(captured[0].workload, "rec");
    assert_eq!(captured[0].lang, "rust");
    assert_eq!(captured[1].stage, "op");
}

#[test]
fn observer_fires_on_warm_then_time_only_for_measured_pass() {
    let obs = Arc::new(RecordingObserver::default());
    let mut h = SubMsPerfHarness::new("warm", "rust").with_observer(obs.clone());
    let s = h.stage("op", 8);
    s.warm_then_time(50, 8, |_| {});
    let n = obs.records.lock().unwrap().len();
    assert_eq!(n, 8, "observer fires only on the measured pass");
}

#[test]
fn observer_records_carry_declared_stage_kind() {
    let obs = Arc::new(RecordingObserver::default());
    let mut h = SubMsPerfHarness::new("kind", "rust").with_observer(obs.clone());
    h.stage("put", 4)
        .with_kind(SubMsStageKind::HotPath)
        .record(10);
    h.stage("compact", 4)
        .with_kind(SubMsStageKind::BatchOp)
        .record(20);
    let captured = obs.records.lock().unwrap().clone();
    assert_eq!(captured[0].kind, SubMsStageKind::HotPath);
    assert_eq!(captured[1].kind, SubMsStageKind::BatchOp);
}

#[test]
fn observer_fires_on_summarize_exactly_once() {
    let obs = Arc::new(RecordingObserver::default());
    let mut h = SubMsPerfHarness::new("sum", "rust").with_observer(obs.clone());
    let s = h.stage("op", 4);
    s.record(1);
    s.record(2);
    let _summary = summarize(&h);
    assert_eq!(*obs.summaries.lock().unwrap(), 1);
}

#[test]
fn set_observer_updates_already_created_stages() {
    let mut h = SubMsPerfHarness::new("late", "rust");
    let s = h.stage("op", 4);
    s.record(1);
    let obs = Arc::new(RecordingObserver::default());
    h.set_observer(Some(obs.clone()));
    h.stage_mut("op").unwrap().record(2);
    let captured = obs.records.lock().unwrap().clone();
    assert_eq!(captured.len(), 1, "only the post-install record fires");
    assert_eq!(captured[0].ns, 2);
}
