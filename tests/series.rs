use ratelimiter::local::DEFAULT_SWEEP;
use ratelimiter::series::TTLValues;

#[test]
fn test_new_ttlvalue() {
    let val = TTLValues::default();
    assert_eq!(val.window(), DEFAULT_SWEEP);

    let val = TTLValues::new(100);
    assert_eq!(val.window(), 100);
}

#[test]
fn test_get_inner() {
    let mut val = TTLValues::default();
    val.inc(1000);
    val.inc(1010);
    assert_eq!(val.get_inner(1000), 2, "actual bucket");
    assert_eq!(val.get_inner(1050), 2, "within bucket");
    assert_eq!(val.get_inner(1100), 0, "outside bucket");
}

#[test]
fn test_inc_and_get() {
    let mut val = TTLValues::default();
    val.inc(1000);
    assert_eq!(val.inc_and_get(1000), 2);
    assert_eq!(val.inc_and_get(2000), 3)
}

struct GetCase {
    name: &'static str,
    inc: u64,
    val: u64,
}

#[test]
fn test_get() {
    let mut val = TTLValues::new(1000);
    let testcases = vec![
        GetCase { name: "initial bucket", inc: 1000, val: 1 },
        GetCase { name: "same bucket", inc: 1200, val: 2 },
        GetCase { name: "new bucket", inc: 2000, val: 3 },
        GetCase { name: "several buckets forward", inc: 7890, val: 4 },
    ];

    for tc in testcases {
        val.inc(tc.inc);
        let actual = val.get();
        assert_eq!(actual, tc.val, "val {} did not match for {}", actual, tc.name)
    }
}

struct IncCase {
    name: &'static str,
    inc: u64,
    get: u64,
    val: u64,
}

#[test]
fn test_inc() {
    let mut val = TTLValues::new(1000);
    let testcases = vec![
        IncCase { name: "initial bucket", inc: 1000, val: 1, get: 1000 },
        IncCase { name: "same bucket", inc: 1200, val: 2, get: 1000 },
        IncCase { name: "new bucket", inc: 2000, val: 1, get: 2000 },
        IncCase { name: "test bucket edge", inc: 2999, val: 2, get: 2000 },
    ];

    for tc in testcases {
        val.inc(tc.inc);
        let actual = val.get_inner(tc.get);
        assert_eq!(actual, tc.val, "val {} did not match for {}", actual, tc.name)
    }
}

fn lru_case(vals: Vec<u64>, cutoff: u64, len: usize) {
    let mut ttl_val = TTLValues::new(5);
    for v in vals {
        ttl_val.inc(v);
    }
    ttl_val.lru(cutoff);
    assert_eq!(ttl_val.bucket_count(), len);
}

#[test]
fn ttl_values_lru_empty() {
    lru_case(vec![], 50, 0);
}

#[test]
fn ttl_values_delete_2_keep_1() {
    lru_case(vec![10, 20, 50], 30, 1);
}

#[test]
fn ttl_values_delete_none() {
    lru_case(vec![40, 50, 60], 30, 3);
}

#[test]
fn ttl_values_delete_all() {
    lru_case(vec![10, 20, 25], 30, 0);
}

#[test]
fn coalesced_buckets_hold_counts() {
    let mut val = TTLValues::new(1000);
    for t in [1000, 1200, 2000, 2999] {
        val.inc(t);
    }
    assert_eq!(val.get(), 4);
    assert_eq!(val.bucket_count(), 2);
    assert_eq!(val.get_inner(1000), 2);
    assert_eq!(val.get_inner(2000), 2);
}

#[test]
fn trim_keeps_only_late_bucket() {
    let mut val = TTLValues::new(5);
    for t in [10, 20, 50] {
        val.inc(t);
    }
    val.lru(30);
    assert_eq!(val.bucket_count(), 1);
    assert_eq!(val.get(), 1);
    assert_eq!(val.get_inner(50), 1);
}

#[test]
fn exact_window_opens_new_bucket() {
    let mut val = TTLValues::new(60);
    val.inc(100);
    assert_eq!(val.inc(160), 1);
    assert_eq!(val.bucket_count(), 2);
    assert_eq!(val.inc(219), 2);
    assert_eq!(val.bucket_count(), 2);
}

#[test]
fn trim_keeps_bucket_at_cutoff() {
    let mut val = TTLValues::new(5);
    val.inc(30);
    val.inc(40);
    val.lru(30);
    assert_eq!(val.bucket_count(), 2);
    val.lru(31);
    assert_eq!(val.bucket_count(), 1);
    assert_eq!(val.get(), 1);
}

#[test]
fn total_counts_every_event() {
    let mut val = TTLValues::new(7);
    let stamps = [5u64, 3, 100, 1, 50, 50, 51, 200, 0];
    for (i, t) in stamps.iter().enumerate() {
        assert_eq!(val.inc_and_get(*t), i as u64 + 1);
    }
    assert_eq!(val.get(), stamps.len() as u64);
}

#[test]
fn late_event_opens_earlier_bucket() {
    let mut val = TTLValues::new(50);
    val.inc(100);
    val.inc(40);
    assert_eq!(val.bucket_count(), 2);
    assert_eq!(val.get_inner(40), 1);
    val.inc(100);
    assert_eq!(val.get(), 3);
    assert!(!val.is_empty());
    val.lru(1000);
    assert!(val.is_empty());
}

#[test]
fn rising_clock_keeps_buckets_a_window_apart() {
    let mut val = TTLValues::new(10);
    for t in [0u64, 5, 9, 12, 21, 25, 40] {
        val.inc(t);
    }
    // buckets start at 0 (0, 5, 9), 12 (12, 21), 25 (25) and 40 (40)
    assert_eq!(val.bucket_count(), 4);
    assert_eq!(val.get_inner(0), 3);
    assert_eq!(val.get_inner(40), 1);
    assert_eq!(val.get_inner(45), 1);
    assert_eq!(val.get(), 7);
    val.lru(12);
    assert_eq!(val.bucket_count(), 3);
    assert_eq!(val.get(), 4);
    val.lru(13);
    assert_eq!(val.get(), 2);
}
