use ratelimiter::local::{
    partition_for_hash, sweep_cutoff, CacheError, CacheErrorKind, Local, DEFAULT_PARTITIONS,
    DEFAULT_SWEEP, DEFAULT_TTL,
};

#[test]
fn test_new_local() {
    let local = Local::new(5, 30, DEFAULT_SWEEP, DEFAULT_SWEEP);
    assert_eq!(local.partition_count(), 5);
    assert_eq!(local.ttl(), 30);

    let local = Local::default();
    assert_eq!(local.partition_count(), DEFAULT_PARTITIONS);
    assert_eq!(local.ttl(), DEFAULT_TTL);
}

struct Case {
    name: &'static str,
    key: &'static str,
    create: bool,
    val: u64,
}

#[test]
fn local_test_get_or_create() {
    let testcases = vec![
        Case { name: "create foo", key: "foo", create: true, val: 1 },
        Case { name: "update foo", key: "foo", create: true, val: 2 },
        Case { name: "create bar", key: "bar", create: true, val: 1 },
        Case { name: "get foobar", key: "foobar", create: false, val: 0 },
    ];

    let local = Local::new(10, 30, DEFAULT_SWEEP, DEFAULT_SWEEP);
    for tc in testcases {
        let val = local.get_or_create(tc.key, tc.create);
        let inner = val.unwrap();
        assert_eq!(inner, tc.val, "incorrect value {} for {}", inner, tc.name);
    }
}

#[test]
fn sweep_with_frozen_clock() {
    let local = Local::new(2, 30, 5, 1);
    let cases: Vec<(&str, Vec<u64>, u64)> =
        vec![("foo", vec![10, 15, 35], 1), ("bar", vec![20, 22, 35], 1)];
    for (k, stamps, _) in &cases {
        for t in stamps {
            local.set_clock(*t);
            local.get_or_create(k, true).unwrap();
        }
    }
    local.set_clock(60);
    local.lru();
    for (k, _, expected) in &cases {
        assert_eq!(local.get_or_create(k, false).unwrap(), *expected, "key {}", k);
    }
}

#[test]
fn sweep_removes_everything_expired() {
    let local = Local::new(2, 30, 5, 1);
    for t in [10u64, 15, 20] {
        local.set_clock(t);
        local.get_or_create("foo", true).unwrap();
    }
    local.set_clock(60);
    local.lru();
    assert_eq!(local.get_or_create("foo", false).unwrap(), 0);
}

#[test]
fn sweep_keeps_recent_values() {
    let local = Local::new(2, 30, 5, 1);
    for t in [30u64, 35, 40] {
        local.set_clock(t);
        local.get_or_create("foo", true).unwrap();
    }
    local.set_clock(60);
    local.lru();
    assert_eq!(local.get_or_create("foo", false).unwrap(), 3);
}

#[test]
fn sweep_before_ttl_elapsed_keeps_all() {
    assert_eq!(sweep_cutoff(10, 30), 0);
    assert_eq!(sweep_cutoff(60, 30), 30);
    let local = Local::with_clock(3, 300, 60, 60, 5);
    assert_eq!(local.clock(), 5);
    local.get_or_create("k", true).unwrap();
    local.lru();
    assert_eq!(local.get_or_create("k", false).unwrap(), 1);
}

#[test]
fn partition_uses_low_bits_of_hash() {
    assert_eq!(partition_for_hash(0x1_0000_0007, 5), 2);
    assert_eq!(partition_for_hash(u64::MAX, 1024), 1023);
    assert_eq!(partition_for_hash(41, 10), 1);
}

#[test]
fn partition_index_is_stable_and_hashed() {
    let local = Local::new(1024, 300, 60, 60);
    let a = local.partition_index("foo");
    assert_eq!(a, local.partition_index("foo"));
    assert!(a < 1024);
    let spread: std::collections::HashSet<usize> =
        ["a", "b", "c", "d", "e", "f", "g", "h"].iter().map(|k| local.partition_index(k)).collect();
    assert!(spread.len() > 1);
}

#[test]
fn zero_partitions_rejected() {
    let r = Local::try_new(0, 30, 60, 60);
    assert!(matches!(r, Err(CacheError { kind: CacheErrorKind::ConfigInvalid })));
    let ok = Local::try_new(4, 30, 60, 60).unwrap();
    assert_eq!(ok.partition_count(), 4);
    assert_eq!(ok.window(), 60);
    assert_eq!(ok.sweep(), 60);
}

#[test]
fn clock_starts_at_wall_time() {
    let local = Local::new(1, 30, 60, 60);
    assert!(local.clock() > 1_600_000_000);
}

#[test]
fn test_get_or_create_concurrent() {
    let local = std::sync::Arc::new(Local::new(10, 30, DEFAULT_SWEEP, DEFAULT_SWEEP));
    let rt = tokio::runtime::Builder::new_multi_thread()
        .worker_threads(4)
        .build()
        .expect("runtime");

    rt.block_on(async {
        let mut tasks = Vec::new();
        for _ in 0..10 {
            let lp = local.clone();
            tasks.push(tokio::task::spawn_blocking(move || {
                if let Err(e) = lp.get_or_create("foo", true) {
                    panic!("failed to get get_or_create: {:?}", e);
                }
            }));
        }
        for t in tasks {
            t.await.expect("task panicked");
        }
    });

    let val = local.get_or_create("foo", false).expect("failed to get Local lock");

    assert_eq!(val, 10);
}
