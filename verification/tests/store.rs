use kvs::DiskOp;
use kvs::KvStore;
use kvs::KvsError;
use kvs::Segment;

/// Applies queued disk operations to a simulated directory, as a host
/// program would apply them to real files. Returns the largest number of
/// files the directory held at any point while applying them.
fn apply_ops(disk: &mut Vec<(u64, Vec<u8>)>, ops: Vec<DiskOp>) -> usize {
    let mut max_files = disk.len();
    for op in ops {
        match op {
            DiskOp::Create { gen } => {
                assert!(disk.iter().all(|(g, _)| *g != gen));
                disk.push((gen, Vec::new()));
            }
            DiskOp::Append { gen, bytes } => {
                let entry = disk.iter_mut().find(|(g, _)| *g == gen).expect("append to absent file");
                entry.1.extend_from_slice(&bytes);
            }
            DiskOp::Delete { gen } => {
                let before = disk.len();
                disk.retain(|(g, _)| *g != gen);
                assert_eq!(before, disk.len() + 1);
            }
        }
        max_files = max_files.max(disk.len());
    }
    disk.sort_by_key(|(g, _)| *g);
    max_files
}

fn disk_to_segments(disk: &[(u64, Vec<u8>)]) -> Vec<Segment> {
    disk.iter().map(|(gen, data)| Segment { gen: *gen, data: data.clone() }).collect()
}

fn fresh() -> KvStore {
    KvStore::open(Vec::new()).expect("fresh store opens")
}

fn reopen(store: KvStore) -> KvStore {
    let segments = store.into_segments();
    KvStore::open(segments).expect("reopen succeeds")
}

#[test]
fn fresh_store_set_and_get() {
    let mut store = fresh();
    store.set("a".to_string(), "1".to_string()).unwrap();
    assert_eq!(store.get("a".to_string()).unwrap(), Some("1".to_string()));
    assert_eq!(store.get("b".to_string()).unwrap(), None);
}

#[test]
fn overwrite_then_reopen() {
    let mut store = fresh();
    store.set("a".to_string(), "1".to_string()).unwrap();
    store.set("a".to_string(), "2".to_string()).unwrap();
    assert_eq!(store.get("a".to_string()).unwrap(), Some("2".to_string()));
    let mut store = reopen(store);
    assert_eq!(store.get("a".to_string()).unwrap(), Some("2".to_string()));
}

#[test]
fn remove_then_remove_again() {
    let mut store = fresh();
    store.set("a".to_string(), "1".to_string()).unwrap();
    assert!(store.remove("a".to_string()).is_ok());
    assert_eq!(store.get("a".to_string()).unwrap(), None);
    assert_eq!(store.remove("a".to_string()), Err(KvsError::KeyNotFound));
}

#[test]
fn set_reopen_get_round_trip() {
    let mut store = fresh();
    store.set("answer".to_string(), "42".to_string()).unwrap();
    let mut store = reopen(store);
    assert_eq!(store.get("answer".to_string()).unwrap(), Some("42".to_string()));
}

#[test]
fn mixed_operations_survive_reopen() {
    let mut store = fresh();
    store.set("a".to_string(), "1".to_string()).unwrap();
    store.set("b".to_string(), "2".to_string()).unwrap();
    store.set("a".to_string(), "3".to_string()).unwrap();
    store.remove("b".to_string()).unwrap();
    store.set("c".to_string(), "4".to_string()).unwrap();
    let mut store = reopen(store);
    assert_eq!(store.get("a".to_string()).unwrap(), Some("3".to_string()));
    assert_eq!(store.get("b".to_string()).unwrap(), None);
    assert_eq!(store.get("c".to_string()).unwrap(), Some("4".to_string()));
    assert_eq!(store.reclaimable() > 0, true);
    let reclaim_before = store.reclaimable();
    let store2 = reopen(store);
    assert_eq!(store2.reclaimable(), reclaim_before);
}

#[test]
fn distinct_keys_do_not_interfere() {
    let mut store = fresh();
    store.set("k".to_string(), "v".to_string()).unwrap();
    store.set("other".to_string(), "x".to_string()).unwrap();
    store.remove("other".to_string()).unwrap();
    store.set("third".to_string(), "y".to_string()).unwrap();
    assert_eq!(store.get("k".to_string()).unwrap(), Some("v".to_string()));
    store.set("k".to_string(), "w".to_string()).unwrap();
    assert_eq!(store.get("k".to_string()).unwrap(), Some("w".to_string()));
    store.remove("k".to_string()).unwrap();
    assert_eq!(store.get("k".to_string()).unwrap(), None);
}

#[test]
fn pending_ops_mirror_the_store() {
    let mut disk: Vec<(u64, Vec<u8>)> = Vec::new();
    let mut store = fresh();
    let _ = apply_ops(&mut disk, store.take_pending());
    store.set("a".to_string(), "1".to_string()).unwrap();
    store.set("b".to_string(), "2".to_string()).unwrap();
    store.remove("a".to_string()).unwrap();
    let _ = apply_ops(&mut disk, store.take_pending());
    let mut store2 = KvStore::open(disk_to_segments(&disk)).expect("opens from mirrored disk");
    assert_eq!(store2.get("a".to_string()).unwrap(), None);
    assert_eq!(store2.get("b".to_string()).unwrap(), Some("2".to_string()));
}

#[test]
fn compaction_advances_generation_and_keeps_one_segment() {
    let mut store = fresh();
    let gen0 = store.generation();
    let value = "v".repeat(1024);
    store.set("k".to_string(), value.clone()).unwrap();
    let mut rounds = 0u32;
    while store.generation() == gen0 {
        store.set("k".to_string(), value.clone()).unwrap();
        rounds += 1;
        assert!(rounds < 10_000, "compaction never triggered");
    }
    assert_eq!(store.generation(), gen0 + 1);
    assert_eq!(store.segment_count(), 1);
    assert_eq!(store.reclaimable(), 0);
    assert_eq!(store.disk_size(), store.live_size());
    assert_eq!(store.get("k".to_string()).unwrap(), Some(value));
}

#[test]
fn compaction_preserves_the_mapping() {
    let mut store = fresh();
    let value = "v".repeat(1024);
    for i in 0..20 {
        store.set(format!("key{}", i), format!("val{}", i)).unwrap();
    }
    let gen0 = store.generation();
    let mut rounds = 0u32;
    while store.generation() == gen0 {
        store.set("churn".to_string(), value.clone()).unwrap();
        rounds += 1;
        assert!(rounds < 10_000, "compaction never triggered");
    }
    for i in 0..20 {
        assert_eq!(store.get(format!("key{}", i)).unwrap(), Some(format!("val{}", i)));
    }
    assert_eq!(store.get("churn".to_string()).unwrap(), Some(value));
    assert_eq!(store.get("missing".to_string()).unwrap(), None);
}

#[test]
fn many_writes_stay_within_twice_the_live_size() {
    let mut disk: Vec<(u64, Vec<u8>)> = Vec::new();
    let mut max_files = 0usize;
    let mut store = fresh();
    max_files = max_files.max(apply_ops(&mut disk, store.take_pending()));
    let value = "x".repeat(100);
    for round in 0..3 {
        for i in 0..10_000u32 {
            let v = format!("{}{}", value, round);
            store.set(format!("key{}", i), v).unwrap();
            if i % 1000 == 0 {
                max_files = max_files.max(apply_ops(&mut disk, store.take_pending()));
            }
        }
        max_files = max_files.max(apply_ops(&mut disk, store.take_pending()));
    }
    // While compaction is being mirrored, the new and the old segments
    // briefly coexist in the directory.
    assert!(max_files >= 2, "never saw two segments at once");
    let total: u64 = disk.iter().map(|(_, d)| d.len() as u64).sum();
    assert_eq!(total, store.disk_size());
    let clean: u64 = (0..10_000u32)
        .map(|i| {
            kvs::encode_record(&kvs::KvsCommands::Put {
                key: format!("key{}", i),
                value: format!("{}2", value),
            })
            .len() as u64
        })
        .sum();
    assert!(total <= 2 * clean, "directory {} exceeds twice the clean dump {}", total, clean);
    assert_eq!(store.get("key123".to_string()).unwrap(), Some(format!("{}2", value)));
}

#[test]
fn truncated_tail_fails_strict_reopen() {
    let mut store = fresh();
    store.set("a".to_string(), "1".to_string()).unwrap();
    store.set("b".to_string(), "2".to_string()).unwrap();
    let mut segments = store.into_segments();
    let last = segments.last_mut().unwrap();
    last.data.pop();
    match KvStore::open(segments) {
        Err(KvsError::Serde) => {}
        other => panic!("expected a Serde failure, got {:?}", other.is_ok()),
    }
}

#[test]
fn stray_get_record_fails_recovery() {
    let rec = kvs::encode_record(&kvs::KvsCommands::Get { key: "a".to_string() });
    let segments = vec![Segment { gen: 1, data: rec }];
    match KvStore::open(segments) {
        Err(KvsError::UnexpectedCommandType) => {}
        other => panic!("expected UnexpectedCommandType, got {:?}", other.is_ok()),
    }
}

#[test]
fn reclaimable_counts_shadowed_and_removed_bytes() {
    let mut store = fresh();
    assert_eq!(store.reclaimable(), 0);
    store.set("a".to_string(), "1".to_string()).unwrap();
    assert_eq!(store.reclaimable(), 0);
    let first_len =
        kvs::encode_record(&kvs::KvsCommands::Put { key: "a".to_string(), value: "1".to_string() })
            .len() as u64;
    store.set("a".to_string(), "22".to_string()).unwrap();
    assert_eq!(store.reclaimable(), first_len);
    let second_len = kvs::encode_record(&kvs::KvsCommands::Put {
        key: "a".to_string(),
        value: "22".to_string(),
    })
    .len() as u64;
    let remove_len =
        kvs::encode_record(&kvs::KvsCommands::Remove { key: "a".to_string() }).len() as u64;
    store.remove("a".to_string()).unwrap();
    assert_eq!(store.reclaimable(), first_len + second_len + remove_len);
}
