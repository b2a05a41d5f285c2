use ratelimiter::config::{Config, RateConfig, HARDCODED_TTL};

fn expect_err(input: &str, msg: &str) {
    match Config::try_from(input) {
        Ok(_) => panic!("expected an error for {:?}", input),
        Err(e) => assert_eq!(e.msg, msg),
    }
}

#[test]
fn valid_two_configs() {
    let cfg = Config::try_from("foo=100:1 minute,bar=1000:30 seconds").expect("valid config");
    assert_eq!(cfg.ttl_seconds(), HARDCODED_TTL);
    assert_eq!(cfg.len(), 2);
    let foo = cfg.get("foo").expect("foo present");
    assert_eq!(foo.name, "foo");
    assert_eq!(foo.count, 100);
    assert_eq!(foo.window_secs, 60);
    assert_eq!(foo.window_nanos, 0);
    let bar = cfg.get("bar").expect("bar present");
    assert_eq!(bar.name, "bar");
    assert_eq!(bar.count, 1000);
    assert_eq!(bar.window_secs, 30);
    assert!(cfg.get("foobar").is_none());
}

#[test]
fn empty_config() {
    expect_err("", "no name in rate");
}

#[test]
fn no_name_separator() {
    expect_err("100:1m", "no name in rate");
}

#[test]
fn no_val_separator() {
    expect_err("foo=100", "no count in rate");
}

#[test]
fn bad_duration() {
    expect_err(
        "foo=100:50 minuten",
        r#"parse window: UnknownUnitError: "minuten" is not a known unit"#,
    );
}

#[test]
fn bad_count() {
    let e = Config::try_from("foo=abc:1 minute").err().expect("count must be numeric");
    assert!(e.msg.starts_with("parse rate count: "), "{}", e.msg);
    assert!(e.msg.len() > "parse rate count: ".len());
}

#[test]
fn first_failing_entry_reported() {
    expect_err("foo=1:1 minute,bar,baz=5", "no name in rate");
}

#[test]
fn later_entry_replaces_earlier() {
    let cfg = Config::try_from("foo=1:1 minute,foo=7:2 minutes").unwrap();
    assert_eq!(cfg.len(), 1);
    let foo = cfg.get("foo").unwrap();
    assert_eq!(foo.count, 7);
    assert_eq!(foo.window_secs, 120);
}

#[test]
fn name_is_piece_before_last_equals() {
    let rc = RateConfig::try_from("a=b=3:10 seconds").unwrap();
    assert_eq!(rc.name, "b");
    assert_eq!(rc.count, 3);
    assert_eq!(rc.window_secs, 10);
}

#[test]
fn count_is_piece_before_last_colon() {
    let rc = RateConfig::try_from("x=9:4:5 seconds").unwrap();
    assert_eq!(rc.count, 4);
    assert_eq!(rc.window_secs, 5);
}

#[test]
fn window_error_comes_before_missing_count() {
    let e = RateConfig::try_from("foo=50 minuten").err().unwrap();
    assert!(e.msg.starts_with("parse window: "), "{}", e.msg);
}

#[test]
fn from_fields_builds_each_outcome() {
    let ok = RateConfig::from_fields("n", Ok((3, 5)), Some(Ok(9))).unwrap();
    assert_eq!((ok.name.as_str(), ok.count, ok.window_secs, ok.window_nanos), ("n", 9, 3, 5));
    let e = RateConfig::from_fields("n", Err("w".to_string()), None).err().unwrap();
    assert_eq!(e.msg, "parse window: w");
    let e = RateConfig::from_fields("n", Ok((3, 0)), None).err().unwrap();
    assert_eq!(e.msg, "no count in rate");
    let e = RateConfig::from_fields("n", Ok((3, 0)), Some(Err("c".to_string()))).err().unwrap();
    assert_eq!(e.msg, "parse rate count: c");
}
