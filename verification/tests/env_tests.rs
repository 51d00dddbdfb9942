use subms::{SubMsAppEnv, SubMsAppRegion, env_bool, env_i64, env_or, env_u64};

#[test]
fn app_env_parses_canonical_lowercase() {
    assert_eq!(SubMsAppEnv::parse("local"), SubMsAppEnv::Local);
    assert_eq!(SubMsAppEnv::parse("dev"), SubMsAppEnv::Dev);
    assert_eq!(SubMsAppEnv::parse("uat"), SubMsAppEnv::Uat);
    assert_eq!(SubMsAppEnv::parse("prod"), SubMsAppEnv::Prod);
}

#[test]
fn app_env_parses_mixed_case() {
    assert_eq!(SubMsAppEnv::parse("LOCAL"), SubMsAppEnv::Local);
    assert_eq!(SubMsAppEnv::parse("Dev"), SubMsAppEnv::Dev);
    assert_eq!(SubMsAppEnv::parse("PROD"), SubMsAppEnv::Prod);
    assert_eq!(SubMsAppEnv::parse("uAt"), SubMsAppEnv::Uat);
}

#[test]
fn app_env_parses_synonyms() {
    assert_eq!(SubMsAppEnv::parse("development"), SubMsAppEnv::Dev);
    assert_eq!(SubMsAppEnv::parse("production"), SubMsAppEnv::Prod);
    assert_eq!(SubMsAppEnv::parse("staging"), SubMsAppEnv::Uat);
    assert_eq!(SubMsAppEnv::parse("stage"), SubMsAppEnv::Uat);
}

#[test]
fn app_env_trims_whitespace() {
    assert_eq!(SubMsAppEnv::parse("  prod  "), SubMsAppEnv::Prod);
    assert_eq!(SubMsAppEnv::parse("\tdev\n"), SubMsAppEnv::Dev);
}

#[test]
fn app_env_unknown_falls_back_to_local() {
    assert_eq!(SubMsAppEnv::parse(""), SubMsAppEnv::Local);
    assert_eq!(SubMsAppEnv::parse("nonsense"), SubMsAppEnv::Local);
    assert_eq!(SubMsAppEnv::parse("preprod"), SubMsAppEnv::Local);
}

#[test]
fn app_env_default_is_local() {
    assert_eq!(SubMsAppEnv::default(), SubMsAppEnv::Local);
}

#[test]
fn app_env_as_str_and_display_match() {
    assert_eq!(SubMsAppEnv::Local.as_str(), "local");
    assert_eq!(SubMsAppEnv::Prod.as_str(), "prod");
    assert_eq!(SubMsAppEnv::Uat.to_string(), "uat");
    assert_eq!(SubMsAppEnv::Dev.to_string(), "dev");
}

#[test]
fn app_region_parses_canonical() {
    assert_eq!(SubMsAppRegion::parse("na"), SubMsAppRegion::Na);
    assert_eq!(SubMsAppRegion::parse("latam"), SubMsAppRegion::Latam);
    assert_eq!(SubMsAppRegion::parse("emea"), SubMsAppRegion::Emea);
    assert_eq!(SubMsAppRegion::parse("apac"), SubMsAppRegion::Apac);
}

#[test]
fn app_region_parses_mixed_case() {
    assert_eq!(SubMsAppRegion::parse("NA"), SubMsAppRegion::Na);
    assert_eq!(SubMsAppRegion::parse("EMEA"), SubMsAppRegion::Emea);
    assert_eq!(SubMsAppRegion::parse("ApAc"), SubMsAppRegion::Apac);
}

#[test]
fn app_region_parses_synonyms() {
    assert_eq!(SubMsAppRegion::parse("north-america"), SubMsAppRegion::Na);
    assert_eq!(SubMsAppRegion::parse("north_america"), SubMsAppRegion::Na);
    assert_eq!(SubMsAppRegion::parse("namer"), SubMsAppRegion::Na);
    assert_eq!(SubMsAppRegion::parse("lat-am"), SubMsAppRegion::Latam);
    assert_eq!(
        SubMsAppRegion::parse("latin-america"),
        SubMsAppRegion::Latam
    );
    assert_eq!(SubMsAppRegion::parse("asia-pacific"), SubMsAppRegion::Apac);
}

#[test]
fn app_region_unknown_falls_back_to_unknown() {
    assert_eq!(SubMsAppRegion::parse(""), SubMsAppRegion::Unknown);
    assert_eq!(SubMsAppRegion::parse("moon"), SubMsAppRegion::Unknown);
    assert_eq!(SubMsAppRegion::parse("antarctica"), SubMsAppRegion::Unknown);
}

#[test]
fn app_region_default_is_unknown() {
    assert_eq!(SubMsAppRegion::default(), SubMsAppRegion::Unknown);
}

#[test]
fn app_region_as_str_and_display_match() {
    assert_eq!(SubMsAppRegion::Na.as_str(), "na");
    assert_eq!(SubMsAppRegion::Latam.as_str(), "latam");
    assert_eq!(SubMsAppRegion::Emea.to_string(), "emea");
    assert_eq!(SubMsAppRegion::Unknown.to_string(), "unknown");
}

#[test]
fn env_or_falls_back_when_unset() {
    assert_eq!(env_or(None, "fallback"), "fallback");
}

#[test]
fn env_values_empty_counts_as_absent() {
    assert_eq!(env_or(Some(""), "fallback"), "fallback");
    assert_eq!(env_or(Some("set"), "fallback"), "set");
    assert!(env_bool(Some(""), true));
    assert_eq!(env_u64(Some(""), 5), 5);
    assert_eq!(SubMsAppEnv::from_env(Some("")), SubMsAppEnv::Local);
    assert_eq!(SubMsAppEnv::from_env(Some("prod")), SubMsAppEnv::Prod);
    assert_eq!(SubMsAppRegion::from_env(Some("emea")), SubMsAppRegion::Emea);
    assert_eq!(SubMsAppRegion::from_env(None), SubMsAppRegion::Unknown);
}

#[test]
fn env_bool_values_truthy_falsy_and_garbage() {
    for v in ["true", "TRUE", "1", "yes", "on", " ON "] {
        assert!(env_bool(Some(v), false), "expected true for {v:?}");
    }
    for v in ["false", "FALSE", "0", "no", "off"] {
        assert!(!env_bool(Some(v), true), "expected false for {v:?}");
    }
    assert!(env_bool(Some("maybe"), true));
    assert!(!env_bool(Some("maybe"), false));
}

#[test]
fn env_integer_values_parse_or_fall_back() {
    assert_eq!(env_i64(Some("-12345"), 0), -12345);
    assert_eq!(env_i64(Some(" 42 "), 0), 42);
    assert_eq!(env_i64(Some("twelve"), 7), 7);
    assert_eq!(env_u64(Some("9000"), 0), 9000);
    assert_eq!(env_u64(Some("-1"), 3), 3);
}
