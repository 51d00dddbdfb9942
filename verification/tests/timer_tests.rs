use subms::SubMsTimer;

#[test]
fn timer_reset_clears_checkpoints() {
    let mut t = SubMsTimer::new("x");
    t.mark("a");
    t.mark("b");
    t.reset();
    assert!(t.checkpoints().is_empty());
    assert!(!t.is_stopped());
}

#[test]
fn timer_lap_is_alias_of_mark() {
    let mut t = SubMsTimer::new("x");
    t.lap("a");
    assert_eq!(t.checkpoints().len(), 1);
    assert_eq!(t.checkpoints()[0].label, "a");
}

#[test]
fn timer_print_emits_header_and_checkpoints() {
    let mut t = SubMsTimer::new("parse");
    t.mark("a");
    t.stop("done");
    let mut buf = Vec::new();
    t.print(&mut buf).unwrap();
    let out = String::from_utf8(buf).unwrap();
    assert!(out.contains("timer \"parse\""));
    assert!(out.contains("a"));
    assert!(out.contains("done *"));
}

#[test]
fn timer_measure_ns_propagates_closure_return_value() {
    let (val, _ns) = SubMsTimer::measure_ns(|| 42);
    assert_eq!(val, 42);
}

#[test]
fn timer_measure_ns_returns_zero_or_positive_for_noop() {
    let (_, elapsed) = SubMsTimer::measure_ns(|| {});
    assert!(
        elapsed < 1_000_000,
        "no-op shouldn't take >= 1ms: {}",
        elapsed
    );
}

#[test]
fn timer_tests_reset_clears_checkpoints() {
    let mut t = SubMsTimer::new("x");
    t.mark("a");
    t.mark("b");
    t.reset();
    assert!(t.checkpoints().is_empty());
    assert!(!t.is_stopped());
}

#[test]
fn timer_tests_lap_is_alias_of_mark() {
    let mut t = SubMsTimer::new("x");
    t.lap("a");
    assert_eq!(t.checkpoints().len(), 1);
    assert_eq!(t.checkpoints()[0].label, "a");
}

#[test]
fn timer_tests_print_emits_header_and_checkpoints() {
    let mut t = SubMsTimer::new("parse");
    t.mark("a");
    t.stop("done");
    let mut buf = Vec::new();
    t.print(&mut buf).unwrap();
    let out = String::from_utf8(buf).unwrap();
    assert!(out.contains("timer \"parse\""));
    assert!(out.contains("a"));
    assert!(out.contains("done *"));
}

#[test]
fn timer_tests_measure_ns_propagates_closure_return_value() {
    let (val, _ns) = SubMsTimer::measure_ns(|| 42);
    assert_eq!(val, 42);
}

#[test]
fn timer_tests_measure_ns_returns_zero_or_positive_for_noop() {
    let (_, elapsed) = SubMsTimer::measure_ns(|| {});
    assert!(
        elapsed < 1_000_000,
        "no-op shouldn't take >= 1ms: {}",
        elapsed
    );
}

#[test]
fn timer_stop_freezes_and_marks_last_checkpoint() {
    let mut t = SubMsTimer::new("x");
    t.mark("a");
    t.stop("done");
    assert!(t.is_stopped());
    let e1 = t.elapsed_ns();
    let e2 = t.elapsed_ns();
    assert_eq!(e1, e2, "elapsed should freeze after stop");
    assert!(t.checkpoints().last().unwrap().is_stop);
    assert!(!t.checkpoints()[0].is_stop);
}

#[test]
fn timer_print_lays_out_rows() {
    let mut t = SubMsTimer::unnamed();
    t.mark("headers-read");
    t.stop("served");
    let mut buf = Vec::new();
    t.print(&mut buf).unwrap();
    let out = String::from_utf8(buf).unwrap();
    let lines: Vec<&str> = out.lines().collect();
    assert_eq!(lines.len(), 3);
    assert!(lines[0].starts_with("timer \"\"  total="));
    assert!(lines[1].starts_with("  headers-read        +"));
    assert!(lines[2].starts_with("  served *            +"));
}

#[test]
fn checkpoints_are_in_time_order_and_chain() {
    let mut t = SubMsTimer::new("chain");
    let a = t.mark("a");
    let b = t.mark("b");
    let c = t.stop("c");
    assert!(a <= b && b <= c);
    let cps = t.checkpoints();
    assert_eq!(cps[0].since_last_ns, a);
    assert_eq!(cps[1].since_last_ns, b - a);
    assert_eq!(cps[2].since_last_ns, c - b);
    t.start();
    let d = t.mark("d");
    assert_eq!(t.checkpoints()[0].since_last_ns, d);
}
