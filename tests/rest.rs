use ratelimiter::config::{Config, HARDCODED_TTL};
use ratelimiter::local::{DEFAULT_PARTITIONS, DEFAULT_SWEEP};
use ratelimiter::rest::{respond, Handler, BAD_REQUEST};

fn two_collections() -> Handler {
    Handler::new(Config::try_from("foo=100:1 minute,bar=1000:30 seconds").unwrap())
}

#[test]
fn test_new_handler() {
    let handler = two_collections();
    let foo = handler.cache("foo").expect("no cache with key foo");
    assert_eq!(foo.ttl(), 30);
    assert_eq!(foo.window(), 60);
    assert_eq!(foo.partition_count(), DEFAULT_PARTITIONS);
    assert_eq!(foo.sweep(), DEFAULT_SWEEP);
    let bar = handler.cache("bar").expect("no cache with key foo");
    assert_eq!(bar.ttl(), HARDCODED_TTL);
    assert_eq!(bar.window(), 30);
    assert_eq!(handler.caches().len(), 2);
}

fn allow_two_after(count: usize) -> bool {
    let handler = Handler::new(Config::try_from("foo=2:60 seconds").unwrap());
    let mut limited = true;
    for _ in 0..count {
        let resp = handler.handle(Some("foo"), Some("foobar")).ok().expect("unexpected handler error");
        limited = resp.allowed;
    }
    limited
}

#[test]
fn handle_rate_one_request() {
    assert!(allow_two_after(1));
}

#[test]
fn handle_rate_two_requests() {
    assert!(allow_two_after(2));
}

#[test]
fn handle_rate_three_requests() {
    assert!(!allow_two_after(3));
}

#[test]
fn handle_missing_collection_parameter() {
    let e = two_collections().handle(None, Some("foo")).err().expect("did not error as expected");
    assert_eq!(e.code, BAD_REQUEST);
    assert!(e.msg.contains("missing collection parameter"));
}

#[test]
fn handle_missing_key_parameter() {
    let e = two_collections().handle(Some("foo"), None).err().expect("did not error as expected");
    assert_eq!(e.code, BAD_REQUEST);
    assert!(e.msg.contains("missing key parameter"));
}

#[test]
fn handle_invalid_collection_parameter() {
    let e = two_collections().handle(Some("foobar"), Some("bar")).err().expect("did not error");
    assert_eq!(e.code, BAD_REQUEST);
    assert!(e.msg.contains("cannot find cache for collection parameter foobar"));
}

#[test]
fn allowed_up_to_and_including_limit() {
    assert!(respond(0, 0).allowed);
    assert!(respond(5, 5).allowed);
    assert!(!respond(6, 5).allowed);
    assert!(respond(1, u64::MAX).allowed);
}

#[test]
fn keys_are_counted_separately() {
    let handler = Handler::new(Config::try_from("foo=1:60 seconds").unwrap());
    assert!(handler.handle(Some("foo"), Some("a")).ok().unwrap().allowed);
    assert!(handler.handle(Some("foo"), Some("b")).ok().unwrap().allowed);
    assert!(!handler.handle(Some("foo"), Some("a")).ok().unwrap().allowed);
}
