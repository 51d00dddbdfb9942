use subms::json::{remove_member, set_member};
use subms::{Json, SubMsTimer, parse_json};

fn sample() -> Json {
    parse_json(
        r#"{"a": 1, "b": [true, false, null, "x\"y\\z\n\u0001", -2.5e3], "c": {"d": {}, "e": []}}"#,
    )
    .unwrap()
}

#[test]
fn pretty_text_parses_back_to_the_same_value() {
    let v = sample();
    let text = v.to_pretty();
    assert!(text.ends_with('\n'));
    let back = parse_json(&text).unwrap();
    assert_eq!(back, v);
    assert_eq!(back.to_pretty(), text);
}

#[test]
fn pretty_layout_is_two_space_indented() {
    let v = parse_json(r#"{"k": [1, {"z": "w"}], "e": {}}"#).unwrap();
    assert_eq!(
        v.to_pretty(),
        "{\n  \"k\": [\n    1,\n    {\n      \"z\": \"w\"\n    }\n  ],\n  \"e\": {}\n}\n"
    );
}

#[test]
fn set_then_get_reads_the_new_value_and_keeps_the_rest() {
    let mut v = sample();
    let obj = v.as_object_mut().unwrap();
    set_member(obj, "a", Json::Num("7".to_string()));
    set_member(obj, "new", Json::Bool(true));
    assert_eq!(v.get("a"), Some(&Json::Num("7".to_string())));
    assert_eq!(v.get("new"), Some(&Json::Bool(true)));
    assert_eq!(v.get("c"), sample().get("c"));
    let keys: Vec<String> = match &v {
        Json::Obj(p) => p.iter().map(|(k, _)| k.clone()).collect(),
        _ => Vec::new(),
    };
    assert_eq!(keys, vec!["a", "b", "c", "new"]);
}

#[test]
fn remove_then_get_reads_nothing_and_keeps_the_rest() {
    let mut v = sample();
    remove_member(v.as_object_mut().unwrap(), "b");
    assert_eq!(v.get("b"), None);
    assert_eq!(v.get("a"), Some(&Json::Num("1".to_string())));
}

#[test]
fn parse_errors_name_the_byte_offset() {
    assert_eq!(parse_json("{\"a\" 1}").unwrap_err(), "expected ':' at 5");
    assert_eq!(parse_json("[1 2]").unwrap_err(), "expected ',' or ']' at 3");
    assert_eq!(parse_json("1 x").unwrap_err(), "trailing input at byte 2");
    assert_eq!(parse_json("").unwrap_err(), "unexpected end of input");
}

#[test]
fn stopped_timer_elapsed_is_what_stop_returned() {
    let mut t = SubMsTimer::new("freeze");
    t.mark("a");
    let at_stop = t.stop("done");
    assert!(t.is_stopped());
    assert_eq!(t.elapsed_ns(), at_stop);
    t.mark("after");
    assert_eq!(t.elapsed_ns(), at_stop);
    assert_eq!(t.checkpoints()[1].since_start_ns, at_stop);
}
