use subms::{SubMsAppEnv, SubMsAppRegion, stat_core_of, status_allowed_cores};

fn stat_line(comm: &str) -> String {
    let fields: Vec<String> = (3..=52).map(|f| f.to_string()).collect();
    format!("4242 ({}) {}\n", comm, fields.join(" "))
}

#[test]
fn stat_core_is_the_processor_field() {
    assert_eq!(stat_core_of(&stat_line("bench")), Some(39));
}

#[test]
fn stat_core_reads_after_the_last_paren() {
    assert_eq!(stat_core_of(&stat_line("odd ) name (x)")), Some(39));
}

#[test]
fn stat_core_is_none_for_short_or_foreign_text() {
    assert_eq!(stat_core_of("4242 (bench) R 1 2 3"), None);
    assert_eq!(stat_core_of("no parens at all"), None);
    assert_eq!(stat_core_of(""), None);
}

#[test]
fn status_allowed_cores_reads_the_labelled_line() {
    let status = "Name:\tbench\nCpus_allowed:\tff\nCpus_allowed_list:\t0-3,6\r\nMems_allowed_list:\t0\n";
    assert_eq!(status_allowed_cores(status), Some("0-3,6".to_string()));
    assert_eq!(status_allowed_cores("Name:\tbench\n"), None);
    assert_eq!(status_allowed_cores("Cpus_allowed_list:"), Some(String::new()));
}

#[test]
fn app_env_and_region_round_trip_their_names() {
    for e in [SubMsAppEnv::Local, SubMsAppEnv::Dev, SubMsAppEnv::Uat, SubMsAppEnv::Prod] {
        assert_eq!(SubMsAppEnv::parse(e.as_str()), e);
    }
    for r in [
        SubMsAppRegion::Na,
        SubMsAppRegion::Latam,
        SubMsAppRegion::Emea,
        SubMsAppRegion::Apac,
        SubMsAppRegion::Unknown,
    ] {
        assert_eq!(SubMsAppRegion::parse(r.as_str()), r);
    }
}
