use subms::{
    Json, KeyMap, SubMsFeatureCategory, SubMsFeatureManifest, SubMsP99Source, SubMsStageClass,
    classify_feature, parse_json, roll_up_stages,
};

#[test]
fn classifies_flat_above_base_as_hot_path() {
    let sweep = [(1_024usize, 300u64), (65_536usize, 320u64)];
    let (cat, _) = classify_feature(&sweep, Some(50), None);
    assert_eq!(cat, SubMsFeatureCategory::HotPath);
}

#[test]
fn classifies_linear_growth_as_structural() {
    let sweep = [(1_024usize, 1_000u64), (65_536usize, 64_000u64)];
    let (cat, _) = classify_feature(&sweep, None, None);
    assert_eq!(cat, SubMsFeatureCategory::Structure);
}

#[test]
fn log_n_growth_stays_hot_path() {
    // p99 grows ~6x (log2 of 64x) - well under the 0.5*63 structural bar.
    let sweep = [(1_024usize, 100u64), (65_536usize, 600u64)];
    let (cat, _) = classify_feature(&sweep, Some(50), None);
    assert_eq!(cat, SubMsFeatureCategory::HotPath);
}

#[test]
fn no_workload_is_auxiliary() {
    let (cat, _) = classify_feature(&[], Some(300), None);
    assert_eq!(cat, SubMsFeatureCategory::Auxiliary);
}

#[test]
fn no_delta_from_base_is_auxiliary() {
    // Flat and within 10% of base -> measured non-effect.
    let sweep = [(1_024usize, 305u64), (65_536usize, 308u64)];
    let (cat, _) = classify_feature(&sweep, Some(300), None);
    assert_eq!(cat, SubMsFeatureCategory::Auxiliary);
}

#[test]
fn override_wins() {
    let sweep = [(1_024usize, 1_000u64), (65_536usize, 64_000u64)];
    let (cat, why) = classify_feature(&sweep, None, Some(SubMsFeatureCategory::HotPath));
    assert_eq!(cat, SubMsFeatureCategory::HotPath);
    assert!(why.contains("override"));
}

#[test]
fn merge_preserves_unknown_fields() {
    let existing = r#"{
      "lang": "rust",
      "customTop": 42,
      "features": {
        "counting": { "perf": "auxiliary", "note": "keep me", "p99ByStage": { "add": 1 } },
        "other": { "perf": "hot-path" }
      }
    }"#;
    let mut m = SubMsFeatureManifest::load_str("rust", existing);
    let mut p99 = KeyMap::<u64>::new();
    p99.insert("add", 320u64);
    p99.insert("remove", 355u64);
    m.set_feature("counting", SubMsFeatureCategory::HotPath, &p99, "measured");
    let out = m.to_json();
    assert!(out.contains("\"perf\": \"hot-path\""));
    assert!(out.contains("\"remove\": 355"));
    assert!(out.contains("\"note\": \"keep me\""));
    assert!(out.contains("\"customTop\": 42"));
    assert!(out.contains("\"other\""));
    assert_eq!(
        m.category_of("counting"),
        Some(SubMsFeatureCategory::HotPath)
    );
}

#[test]
fn structural_feature_drops_p99() {
    let mut m = SubMsFeatureManifest::new("rust");
    let mut p99 = KeyMap::<u64>::new();
    p99.insert("serialize", 5_000u64);
    m.set_feature("serialize", SubMsFeatureCategory::HotPath, &p99, "x");
    m.set_feature(
        "serialize",
        SubMsFeatureCategory::Structure,
        &KeyMap::<u64>::new(),
        "O(n)+",
    );
    let out = m.to_json();
    assert!(out.contains("\"perf\": \"structural\""));
    assert!(!out.contains("p99ByStage"));
}

#[test]
fn round_trips_number_precision() {
    let existing = r#"{"features":{"f":{"p99ByStage":{"add":9007199254740993}}}}"#;
    let m = SubMsFeatureManifest::load_str("rust", existing);
    assert!(m.to_json().contains("9007199254740993"));
}

#[test]
fn merge_preserves_deep_third_party_structures() {
    let existing = r#"{
      "lang": "rust",
      "schemaVersion": 3,
      "vendor": { "name": "acme", "tags": ["a", "b"], "nested": { "deep": [1, 2, 3] } },
      "features": {
        "counting": {
          "perf": "auxiliary",
          "owner": "team-x",
          "customArr": [{ "k": "v" }, 7, true, null],
          "p99ByStage": { "add": 1 }
        },
        "scalable": { "perf": "hot-path", "vendorNote": "do not drop" }
      }
    }"#;
    let mut m = SubMsFeatureManifest::load_str("rust", existing);
    let mut p99 = KeyMap::<u64>::new();
    p99.insert("add", 320u64);
    m.set_feature("counting", SubMsFeatureCategory::HotPath, &p99, "measured");
    let s = m.to_json();

    assert!(matches!(parse_json(&s), Ok(Json::Obj(_))));
    assert!(s.contains("\"schemaVersion\": 3"));
    assert!(s.contains("\"name\": \"acme\""));
    assert!(s.contains("\"deep\": ["));
    assert!(s.contains("\"customArr\""));
    assert!(s.contains("\"owner\": \"team-x\""));
    assert!(s.contains("null"));
    assert!(s.contains("true"));
    assert!(s.contains("\"vendorNote\": \"do not drop\""));
    assert_eq!(
        m.category_of("counting"),
        Some(SubMsFeatureCategory::HotPath)
    );
    assert_eq!(
        m.category_of("scalable"),
        Some(SubMsFeatureCategory::HotPath)
    );
    assert!(s.contains("\"add\": 320"));
}

#[test]
fn repeated_merges_are_lossless() {
    let mut m = SubMsFeatureManifest::load_str("rust", r#"{"vendor":{"x":1},"features":{}}"#);
    for (name, cat) in [
        ("a", SubMsFeatureCategory::HotPath),
        ("b", SubMsFeatureCategory::Structure),
        ("c", SubMsFeatureCategory::Auxiliary),
    ] {
        m.set_feature(name, cat, &KeyMap::<u64>::new(), "r");
    }
    let mut p99 = KeyMap::<u64>::new();
    p99.insert("op", 42u64);
    m.set_feature("a", SubMsFeatureCategory::HotPath, &p99, "r2");
    let s = m.to_json();
    assert!(s.contains("\"vendor\""));
    assert!(s.contains("\"x\": 1"));
    assert_eq!(m.category_of("a"), Some(SubMsFeatureCategory::HotPath));
    assert_eq!(m.category_of("b"), Some(SubMsFeatureCategory::Structure));
    assert_eq!(m.category_of("c"), Some(SubMsFeatureCategory::Auxiliary));
    assert!(s.contains("\"op\": 42"));
}

#[test]
fn sample_features_classify_correctly() {
    // Realistic archetypes: the harness decides each from its measured shape,
    // proving the taxonomy is an output, not a hand-authored label.
    let base = Some(300u64);
    let cases: [(&str, Vec<(usize, u64)>, SubMsFeatureCategory); 5] = [
        (
            "counting",
            vec![(1_024, 350), (16_384, 360), (262_144, 372)],
            SubMsFeatureCategory::HotPath,
        ),
        (
            "serialize",
            vec![(1_024, 12_000), (16_384, 190_000), (262_144, 3_050_000)],
            SubMsFeatureCategory::Structure,
        ),
        ("serde", vec![], SubMsFeatureCategory::Auxiliary),
        (
            "metrics",
            vec![(1_024, 308), (262_144, 312)],
            SubMsFeatureCategory::Auxiliary,
        ),
        (
            "persistent",
            vec![(1_024, 400), (262_144, 900)],
            SubMsFeatureCategory::Structure,
        ),
    ];
    let mut m = SubMsFeatureManifest::new("rust");
    for (name, sweep, expect) in &cases {
        let ovr = if *name == "persistent" {
            Some(SubMsFeatureCategory::Structure)
        } else {
            None
        };
        let (cat, reason) = classify_feature(sweep, base, ovr);
        assert_eq!(cat, *expect, "feature {name}: {reason}");
        let mut p99 = KeyMap::<u64>::new();
        if cat == SubMsFeatureCategory::HotPath {
            if let Some((_, v)) = sweep.last() {
                p99.insert("op", *v);
            }
        }
        m.set_feature(name, cat, &p99, &reason);
    }
    assert_eq!(
        m.category_of("counting"),
        Some(SubMsFeatureCategory::HotPath)
    );
    assert_eq!(
        m.category_of("serialize"),
        Some(SubMsFeatureCategory::Structure)
    );
    assert_eq!(
        m.category_of("serde"),
        Some(SubMsFeatureCategory::Auxiliary)
    );
    assert_eq!(
        m.category_of("metrics"),
        Some(SubMsFeatureCategory::Auxiliary)
    );
    assert_eq!(
        m.category_of("persistent"),
        Some(SubMsFeatureCategory::Structure)
    );
}

#[test]
fn malformed_input_never_crashes_and_stays_writable() {
    for bad in [
        "",
        "   ",
        "not json",
        "[1,2,3]",
        "{\"features\":",
        "42",
        "null",
        "\"a string\"",
    ] {
        let mut m = SubMsFeatureManifest::load_str("rust", bad);
        assert!(
            matches!(parse_json(&m.to_json()), Ok(Json::Obj(_))),
            "bad input {bad:?} did not yield a valid object"
        );
        m.set_feature("f", SubMsFeatureCategory::HotPath, &KeyMap::<u64>::new(), "r");
        assert_eq!(m.category_of("f"), Some(SubMsFeatureCategory::HotPath));
    }
}

#[test]
fn only_the_target_feature_changes() {
    let existing = r#"{"lang":"rust","features":{
        "a":{"perf":"hot-path","note":"A keep","p99ByStage":{"op":11}},
        "b":{"perf":"auxiliary","note":"B keep"}
    }}"#;
    let mut m = SubMsFeatureManifest::load_str("rust", existing);
    let mut p99 = KeyMap::<u64>::new();
    p99.insert("op", 22u64);
    m.set_feature("b", SubMsFeatureCategory::HotPath, &p99, "measured");
    let out = m.to_json();
    assert!(out.contains("\"note\": \"A keep\""));
    assert!(out.contains("\"op\": 11"));
    assert!(out.contains("\"note\": \"B keep\""));
    assert!(out.contains("\"op\": 22"));
    assert_eq!(m.category_of("a"), Some(SubMsFeatureCategory::HotPath));
}

#[test]
fn reclassify_keeps_custom_fields_drops_p99() {
    let existing = r#"{"features":{"f":{"perf":"hot-path","owner":"me","p99ByStage":{"op":5}}}}"#;
    let mut m = SubMsFeatureManifest::load_str("rust", existing);
    m.set_feature(
        "f",
        SubMsFeatureCategory::Structure,
        &KeyMap::<u64>::new(),
        "O(n)+",
    );
    let out = m.to_json();
    assert!(out.contains("\"owner\": \"me\""));
    assert!(!out.contains("p99ByStage"));
    assert!(out.contains("\"perf\": \"structural\""));
}

#[test]
fn set_feature_is_idempotent() {
    let mut a = SubMsFeatureManifest::load_str("rust", r#"{"vendor":1,"features":{}}"#);
    let mut b = SubMsFeatureManifest::load_str("rust", r#"{"vendor":1,"features":{}}"#);
    let mut p99 = KeyMap::<u64>::new();
    p99.insert("op", 7u64);
    a.set_feature("f", SubMsFeatureCategory::HotPath, &p99, "r");
    b.set_feature("f", SubMsFeatureCategory::HotPath, &p99, "r");
    b.set_feature("f", SubMsFeatureCategory::HotPath, &p99, "r");
    assert_eq!(a.to_json(), b.to_json());
}

#[test]
fn degenerate_features_preserves_other_top_level_keys() {
    let existing = r#"{"lang":"rust","vendor":{"keep":true},"features":42}"#;
    let mut m = SubMsFeatureManifest::load_str("rust", existing);
    m.set_feature("f", SubMsFeatureCategory::HotPath, &KeyMap::<u64>::new(), "r");
    let out = m.to_json();
    assert!(out.contains("\"keep\": true"));
    assert_eq!(m.category_of("f"), Some(SubMsFeatureCategory::HotPath));
}

#[test]
fn saved_manifest_loads_back_identically() {
    let existing = r#"{"vendor": {"x": [1, -2.5e3, "q\"uote"]}, "features": {"keep": {"perf": "auxiliary", "note": "n"}}}"#;
    let mut m = SubMsFeatureManifest::load_str("rust", existing);
    let mut p99 = KeyMap::new();
    p99.insert("get", 1200u64);
    m.set_feature("cache", SubMsFeatureCategory::HotPath, &p99, "flat");
    let text = m.to_json();
    let again = SubMsFeatureManifest::load_str("rust", &text);
    assert_eq!(again.to_json(), text);
    assert_eq!(again.category_of("cache"), Some(SubMsFeatureCategory::HotPath));
    assert_eq!(again.category_of("keep"), Some(SubMsFeatureCategory::Auxiliary));
}

#[test]
fn rating_one_feature_leaves_the_others_alone() {
    let mut m = SubMsFeatureManifest::load_str(
        "rust",
        r#"{"top": 1, "features": {"a": {"perf": "reported", "x": 2}, "b": {"perf": "structural"}}}"#,
    );
    let before = parse_json(&m.to_json()).unwrap();
    m.set_feature("a", SubMsFeatureCategory::Indeterminate, &KeyMap::new(), "close call");
    let after = parse_json(&m.to_json()).unwrap();
    assert_eq!(after.get("top"), before.get("top"));
    let fb = before.get("features").unwrap();
    let fa = after.get("features").unwrap();
    assert_eq!(fa.get("b"), fb.get("b"));
    assert_eq!(fa.get("a").unwrap().get("x"), fb.get("a").unwrap().get("x"));
    assert_eq!(m.category_of("a"), Some(SubMsFeatureCategory::Indeterminate));
}

#[test]
fn category_wire_values_round_trip() {
    for c in [
        SubMsFeatureCategory::HotPath,
        SubMsFeatureCategory::Structure,
        SubMsFeatureCategory::Auxiliary,
        SubMsFeatureCategory::Reported,
        SubMsFeatureCategory::Indeterminate,
    ] {
        assert_eq!(SubMsFeatureCategory::from_wire(c.as_str()), Some(c));
    }
}

#[test]
fn per_stage_rating_reads_back_stage_by_stage() {
    let mut m = SubMsFeatureManifest::new("rust");
    let mut stages = KeyMap::new();
    stages.insert(
        "get",
        SubMsStageClass { p99_ns: 1_200, category: SubMsFeatureCategory::HotPath, reason: "flat".to_string() },
    );
    stages.insert(
        "snapshot",
        SubMsStageClass {
            p99_ns: 44_000_000,
            category: SubMsFeatureCategory::Reported,
            reason: "above the claim line".to_string(),
        },
    );
    assert_eq!(roll_up_stages(&stages), SubMsFeatureCategory::Reported);
    m.set_feature_stages("concurrent-reads", &stages, "per stage");
    assert_eq!(m.category_of("concurrent-reads"), Some(SubMsFeatureCategory::Reported));
    assert_eq!(m.stage_category("concurrent-reads", "get"), Some(SubMsFeatureCategory::HotPath));
    assert_eq!(
        m.stage_category("concurrent-reads", "snapshot"),
        Some(SubMsFeatureCategory::Reported)
    );
    assert_eq!(m.stage_category("concurrent-reads", "put"), None);
    let again = SubMsFeatureManifest::load_str("rust", &m.to_json());
    assert_eq!(again.to_json(), m.to_json());
}

#[test]
fn provenance_stamp_reads_back() {
    let mut m = SubMsFeatureManifest::new("rust");
    assert_eq!(m.p99_source(), SubMsP99Source::Local);
    m.set_p99_source(SubMsP99Source::Fleet, Some("box-7"));
    assert_eq!(m.p99_source(), SubMsP99Source::Fleet);
    assert_eq!(m.p99_source_ref(), Some("box-7"));
    m.set_p99_source(SubMsP99Source::Local, Some("ignored"));
    assert_eq!(m.p99_source(), SubMsP99Source::Local);
    assert_eq!(m.p99_source_ref(), None);
}

#[test]
fn rating_keeps_every_member_in_its_place() {
    let existing = r#"{"first":1,"features":{"x":{"perf":"auxiliary"},"y":{}},"last":2}"#;
    let mut m = SubMsFeatureManifest::load_str("rust", existing);
    m.set_feature("x", SubMsFeatureCategory::HotPath, &KeyMap::<u64>::new(), "r");
    m.set_feature("z", SubMsFeatureCategory::Auxiliary, &KeyMap::<u64>::new(), "new");
    let out = m.to_json();
    let at = |k: &str| out.find(k).unwrap();
    assert!(at("\"first\"") < at("\"features\""));
    assert!(at("\"features\"") < at("\"last\""));
    assert!(at("\"x\"") < at("\"y\""));
    assert!(at("\"y\"") < at("\"z\""));
}

#[test]
fn provenance_stamp_keeps_members_in_place() {
    let existing = r#"{"a":1,"p99_source":"local","b":2}"#;
    let mut m = SubMsFeatureManifest::load_str("rust", existing);
    m.set_p99_source(SubMsP99Source::Fleet, Some("box-7"));
    let out = m.to_json();
    let at = |k: &str| out.find(k).unwrap();
    assert!(at("\"a\"") < at("\"p99_source\""));
    assert!(at("\"p99_source\"") < at("\"b\""));
    assert!(at("\"b\"") < at("\"p99_source_ref\""));
    assert_eq!(m.p99_source_ref(), Some("box-7"));
}

#[test]
fn ratio_text_is_the_binary64_quotient_rounded() {
    // 23 / 20 is just below 1.15 in binary64, so it prints as 1.1.
    let (cat, why) = classify_feature(&[(10, 20), (11, 23)], None, None);
    assert_eq!(cat, SubMsFeatureCategory::Structure);
    assert_eq!(
        why,
        "p99 scales with size (1.1x over 1x N) - O(n)+, excluded from per-op claim"
    );
}

#[test]
fn needed_growth_text_is_the_binary64_sum_rounded() {
    // 0.5 * (1.1 - 1.0) + 1.0 is just above 1.05 in binary64.
    let (cat, why) = classify_feature(&[(10, 100), (11, 105)], None, None);
    assert_eq!(cat, SubMsFeatureCategory::Indeterminate);
    assert_eq!(
        why,
        "p99 grew 1.1x over 1x N, against 1.1x needed for structural - too close to call"
    );
}

#[test]
fn excess_percent_text_is_the_binary64_product_rounded() {
    // (1055 / 1000 - 1) * 100 is just below 5.5 in binary64.
    let (cat, why) = classify_feature(&[(1000, 1055)], Some(1000), None);
    assert_eq!(cat, SubMsFeatureCategory::Indeterminate);
    assert_eq!(
        why,
        "flat p99 1055ns is 5% over base 1000ns, against a 10% hot-path guard - too close to call"
    );
}
