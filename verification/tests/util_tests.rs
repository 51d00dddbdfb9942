use subms::SubMsLcg;

#[test]
fn util_lcg_is_deterministic() {
    let mut a = SubMsLcg::new(42);
    let mut b = SubMsLcg::new(42);
    for _ in 0..1000 {
        assert_eq!(a.next_u32(), b.next_u32());
    }
}

#[test]
fn util_lcg_bounded_stays_in_range() {
    let mut rng = SubMsLcg::new(7);
    for _ in 0..10_000 {
        assert!(rng.bounded(100) < 100);
    }
}

#[test]
fn util_lcg_bounded_zero_is_safe() {
    let mut rng = SubMsLcg::new(7);
    assert_eq!(rng.bounded(0), 0);
}

#[test]
fn util_tests_lcg_is_deterministic() {
    let mut a = SubMsLcg::new(42);
    let mut b = SubMsLcg::new(42);
    for _ in 0..1000 {
        assert_eq!(a.next_u32(), b.next_u32());
    }
}

#[test]
fn util_tests_lcg_bounded_stays_in_range() {
    let mut rng = SubMsLcg::new(7);
    for _ in 0..10_000 {
        assert!(rng.bounded(100) < 100);
    }
}

#[test]
fn util_tests_lcg_bounded_zero_is_safe() {
    let mut rng = SubMsLcg::new(7);
    assert_eq!(rng.bounded(0), 0);
}

#[test]
fn lcg_first_draw_matches_the_recurrence() {
    // seed 0 becomes state 1; one step is 1 * a + c.
    let mut rng = SubMsLcg::new(0);
    let state: u64 = 6364136223846793005u64.wrapping_add(1442695040888963407);
    assert_eq!(rng.next_u32(), (state >> 32) as u32);
}
