use ratelimiter::keymap::{Key, KeyMap};

struct Case {
    name: &'static str,
    key: Key<'static>,
    create: bool,
    val: u64,
}

#[test]
fn test_get_or_create() {
    let mut km = KeyMap::new(60);

    let testcases = vec![
        Case { key: Key { k: "foo", ts: 10000 }, create: true, val: 1, name: "first foo" },
        Case { key: Key { k: "foo", ts: 10005 }, create: true, val: 2, name: "foo in same window" },
        Case {
            key: Key { k: "foo", ts: 10006 },
            create: false,
            val: 2,
            name: "foo in same window, no update",
        },
        Case { key: Key { k: "foo", ts: 10151 }, create: true, val: 3, name: "foo in new window" },
        Case {
            key: Key { k: "foo", ts: 10200 },
            create: false,
            val: 3,
            name: "foo in new window, no update",
        },
        Case { key: Key { k: "bar", ts: 10100 }, create: false, val: 0, name: "bar, no update" },
        Case { key: Key { k: "bar", ts: 10100 }, create: true, val: 1, name: "bar, update" },
    ];

    for tc in testcases {
        let val = km.get_or_create(tc.key, tc.create);
        assert_eq!(val, tc.val, "val {} does not match expected val for case '{}'", val, tc.name)
    }
}

fn keymap_lru_case(vals: Vec<(&'static str, Vec<u64>)>, len: usize) {
    let mut km = KeyMap::new(30);
    for (k, v) in vals {
        for vv in v {
            km.get_or_create(Key { k, ts: vv }, true);
        }
    }
    km.lru(30);
    assert_eq!(km.len(), len, "length does not match");
}

#[test]
fn keymap_lru_delete_1_keep_2() {
    keymap_lru_case(
        vec![("foo", vec![10, 20, 25]), ("bar", vec![10, 20, 50]), ("foobar", vec![40, 50, 60])],
        2,
    );
}

#[test]
fn keymap_lru_delete_all() {
    keymap_lru_case(
        vec![("foo", vec![10, 20, 25]), ("bar", vec![10, 20, 22]), ("foobar", vec![5, 1, 28])],
        0,
    );
}

#[test]
fn keymap_lru_delete_none() {
    keymap_lru_case(
        vec![("foo", vec![40, 50, 55]), ("bar", vec![32, 37, 50]), ("foobar", vec![40, 50, 60])],
        3,
    );
}

#[test]
fn lookup_of_absent_key_creates_nothing() {
    let mut km = KeyMap::new(60);
    assert_eq!(km.get_or_create(Key { k: "ghost", ts: 5 }, false), 0);
    assert_eq!(km.len(), 0);
    assert_eq!(km.get_or_create(Key { k: "ghost", ts: 5 }, false), 0);
    assert_eq!(km.len(), 0);
}

#[test]
fn lookup_is_repeatable() {
    let mut km = KeyMap::new(60);
    km.get_or_create(Key { k: "a", ts: 100 }, true);
    km.get_or_create(Key { k: "a", ts: 300 }, true);
    let first = km.get_or_create(Key { k: "a", ts: 999 }, false);
    let second = km.get_or_create(Key { k: "a", ts: 5 }, false);
    assert_eq!(first, 2);
    assert_eq!(first, second);
    assert_eq!(km.len(), 1);
}

#[test]
fn two_close_events_add_two() {
    let mut km = KeyMap::new(60);
    km.get_or_create(Key { k: "a", ts: 0 }, true);
    let before = km.get_or_create(Key { k: "a", ts: 0 }, false);
    km.get_or_create(Key { k: "a", ts: 500 }, true);
    let after = km.get_or_create(Key { k: "a", ts: 559 }, true);
    assert_eq!(after, before + 2);
}

#[test]
fn events_within_one_window_count_all() {
    let mut km = KeyMap::new(60);
    for t in [1000u64, 1030, 1010, 1059, 1001, 1020, 1040, 1000, 1005, 1050] {
        km.get_or_create(Key { k: "foo", ts: t }, true);
    }
    assert_eq!(km.get_or_create(Key { k: "foo", ts: 0 }, false), 10);
}

#[test]
fn sweep_drops_only_expired_keys() {
    let mut km = KeyMap::new(5);
    km.get_or_create(Key { k: "old", ts: 10 }, true);
    km.get_or_create(Key { k: "mixed", ts: 10 }, true);
    km.get_or_create(Key { k: "mixed", ts: 40 }, true);
    km.lru(30);
    assert_eq!(km.len(), 1);
    assert_eq!(km.get_or_create(Key { k: "old", ts: 0 }, false), 0);
    assert_eq!(km.get_or_create(Key { k: "mixed", ts: 0 }, false), 1);
}
