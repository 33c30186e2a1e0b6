use kernelwhisper::storage::{ClickHouseStore, InsightLog};

#[test]
fn latest_returns_newest_in_order() {
    let mut log = InsightLog::new();
    for i in 0..10 {
        log.put(i);
    }
    assert_eq!(log.latest(3), &[7, 8, 9]);
    assert_eq!(log.latest(50).len(), 10);
    assert_eq!(log.latest(0).len(), 0);
    assert_eq!(log.len(), 10);
}

#[test]
fn read_after_write() {
    let mut log = InsightLog::new();
    log.put("a".to_string());
    log.put("b".to_string());
    assert_eq!(log.latest(1), &["b".to_string()]);
    let empty: InsightLog<u8> = InsightLog::new();
    assert!(empty.latest(5).is_empty());
}

#[test]
fn clickhouse_store_builds() {
    let _store = ClickHouseStore::new("http://localhost:8123");
}
