use ratelimiter::matcher::{ContextLinker, LinkerEntry};

fn entry(name: &str, contexts: &[&str]) -> LinkerEntry {
    LinkerEntry {
        name: name.to_string(),
        contexts: contexts.iter().map(|c| c.to_string()).collect(),
        count: 10,
        ttl_seconds: 60,
    }
}

fn contexts_of(linker: &ContextLinker, name: &str) -> Vec<String> {
    linker.get_context(name).expect("linker present").contexts.clone()
}

#[test]
fn context_linker_one_linker_no_context_match() {
    let linker = ContextLinker::from_linkers(&vec![entry("foo", &["bar"])], 30);
    assert_eq!(contexts_of(&linker, "foo"), Vec::<String>::new());
    assert_eq!(linker.get_context("foo").unwrap().rate, 10);
    assert_eq!(linker.get_ttls(), vec![("foo".to_string(), 60)]);
    assert_eq!(linker.sweep(), 30);
}

#[test]
fn context_linker_two_linkers_one_context_ref() {
    let linker =
        ContextLinker::from_linkers(&vec![entry("foo", &["bar"]), entry("bar", &["foobar"])], 30);
    assert_eq!(contexts_of(&linker, "foo"), vec!["bar".to_string()]);
    assert_eq!(contexts_of(&linker, "bar"), Vec::<String>::new());
    let mut ttls = linker.get_ttls();
    ttls.sort();
    assert_eq!(ttls, vec![("bar".to_string(), 60), ("foo".to_string(), 60)]);
}

#[test]
fn context_linker_three_linkers_with_references() {
    let linker = ContextLinker::from_linkers(
        &vec![entry("foo", &["bar"]), entry("bar", &["foo"]), entry("foobar", &["foo", "bar"])],
        30,
    );
    assert_eq!(contexts_of(&linker, "foo"), vec!["bar".to_string()]);
    assert_eq!(contexts_of(&linker, "bar"), vec!["foo".to_string()]);
    assert_eq!(contexts_of(&linker, "foobar"), vec!["foo".to_string(), "bar".to_string()]);
    assert_eq!(linker.get_ttls().len(), 3);
    assert!(linker.get_context("nope").is_none());
}

#[test]
fn later_linker_replaces_earlier() {
    let mut second = entry("foo", &["foo", "x"]);
    second.count = 3;
    second.ttl_seconds = 7;
    let linker = ContextLinker::from_linkers(&vec![entry("foo", &[]), second], 5);
    assert_eq!(linker.get_context("foo").unwrap().rate, 3);
    assert_eq!(contexts_of(&linker, "foo"), vec!["foo".to_string()]);
    assert_eq!(linker.get_ttls(), vec![("foo".to_string(), 7)]);
}
