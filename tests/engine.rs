use kvlog::error::StorageError;
use kvlog::index::Index;
use kvlog::segment::{Segment, WalOperation, WalSegment};
use kvlog::storage::{SetOutcome, Storage};

fn empty_engine() -> Storage {
    Storage::new(Vec::new(), Vec::new()).unwrap()
}

fn wal_of(ops: &[WalOperation]) -> Vec<u8> {
    let mut wal = WalSegment::new(Vec::new());
    for op in ops {
        wal.log_operation(op).unwrap();
    }
    wal.as_bytes().to_vec()
}

fn put(key: &str, value: &str) -> WalOperation {
    WalOperation::Put { key: key.to_string(), value: value.to_string() }
}

fn del(key: &str) -> WalOperation {
    WalOperation::Delete { key: key.to_string() }
}

#[test]
fn index_insert_get_remove() {
    let mut index = Index::new();
    assert_eq!(index.get_offset("a"), None);
    index.insert("a", 7);
    index.insert("b", 9);
    assert_eq!(index.get_offset("a"), Some(7));
    index.insert("a", 12);
    assert_eq!(index.get_offset("a"), Some(12));
    assert_eq!(index.get_offset("b"), Some(9));
    index.remove("a");
    assert_eq!(index.get_offset("a"), None);
    assert_eq!(index.get_offset("b"), Some(9));
    index.remove("missing");
    assert_eq!(index.get_offset("b"), Some(9));
}

#[test]
fn segment_record_frame_bytes() {
    let mut segment = Segment::new(Vec::new());
    assert_eq!(segment.set("a", "1"), Ok(0));
    assert_eq!(segment.as_bytes(), &[4u8, 0, 0, 0, 1, b'a', 1, b'1'][..]);
    assert_eq!(segment.write_offset(), 8);
    assert_eq!(segment.set("key", ""), Ok(8));
    assert_eq!(&segment.as_bytes()[8..], &[5u8, 0, 0, 0, 3, b'k', b'e', b'y', 0][..]);
}

#[test]
fn segment_offset_starts_at_existing_length() {
    let mut segment = Segment::new(vec![1, 2, 3]);
    assert_eq!(segment.write_offset(), 3);
    assert_eq!(segment.set("k", "v"), Ok(3));
}

#[test]
fn segment_get_reads_back() {
    let mut segment = Segment::new(Vec::new());
    let o1 = segment.set("user1", "data1").unwrap();
    let o2 = segment.set("user2", "data2").unwrap();
    let r1 = segment.get(o1).unwrap().unwrap();
    let r2 = segment.get(o2).unwrap().unwrap();
    assert_eq!((r1.key.as_str(), r1.value.as_str()), ("user1", "data1"));
    assert_eq!((r2.key.as_str(), r2.value.as_str()), ("user2", "data2"));
}

#[test]
fn segment_get_past_end_is_eof() {
    let mut segment = Segment::new(Vec::new());
    segment.set("a", "1").unwrap();
    assert!(matches!(segment.get(100), Err(StorageError::UnexpectedEof)));
    assert!(matches!(segment.get(6), Err(StorageError::UnexpectedEof)));
    let torn = Segment::new(vec![9, 0, 0, 0, 1, b'a']);
    assert!(matches!(torn.get(0), Err(StorageError::UnexpectedEof)));
}

#[test]
fn segment_get_bad_payload_is_corrupt() {
    let segment = Segment::new(vec![2, 0, 0, 0, 5, b'a']);
    assert!(matches!(segment.get(0), Err(StorageError::CorruptFrame)));
    let trailing = Segment::new(vec![5, 0, 0, 0, 1, b'a', 1, b'b', 0]);
    assert!(matches!(trailing.get(0), Err(StorageError::CorruptFrame)));
}

#[test]
fn segment_delete_appends_tombstone() {
    let mut segment = Segment::new(Vec::new());
    let o = segment.set("a", "1").unwrap();
    segment.delete(o);
    assert_eq!(segment.write_offset(), 8 + 4 + 9);
    let t = segment.get(8).unwrap().unwrap();
    assert_eq!((t.key.as_str(), t.value.as_str()), ("deleted", ""));
    let r = segment.get(o).unwrap().unwrap();
    assert_eq!(r.value, "1");
}

#[test]
fn wal_frames_and_reads_in_order() {
    let mut wal = WalSegment::new(Vec::new());
    wal.log_operation(&put("a", "1")).unwrap();
    assert_eq!(wal.as_bytes(), &[5u8, 0, 0, 0, 0, 1, b'a', 1, b'1'][..]);
    wal.log_operation(&del("a")).unwrap();
    assert_eq!(&wal.as_bytes()[9..], &[3u8, 0, 0, 0, 1, 1, b'a'][..]);
    let ops = wal.read_operations().unwrap();
    assert_eq!(ops.len(), 2);
    assert!(matches!(&ops[0], WalOperation::Put { key, value } if key == "a" && value == "1"));
    assert!(matches!(&ops[1], WalOperation::Delete { key } if key == "a"));
}

#[test]
fn wal_torn_tail_ends_the_log() {
    let mut bytes = wal_of(&[put("a", "1"), put("b", "2")]);
    bytes.pop();
    let wal = WalSegment::new(bytes);
    let ops = wal.read_operations().unwrap();
    assert_eq!(ops.len(), 1);
    assert!(matches!(&ops[0], WalOperation::Put { key, .. } if key == "a"));
    let header_only = WalSegment::new(vec![5, 0]);
    assert_eq!(header_only.read_operations().unwrap().len(), 0);
}

#[test]
fn wal_unknown_tag_is_corrupt() {
    let wal = WalSegment::new(vec![2, 0, 0, 0, 7, 0]);
    assert!(matches!(wal.read_operations(), Err(StorageError::CorruptFrame)));
    assert!(matches!(Storage::new(Vec::new(), vec![2, 0, 0, 0, 7, 0]), Err(StorageError::CorruptFrame)));
}

#[test]
fn wal_clear_empties() {
    let mut wal = WalSegment::new(wal_of(&[put("a", "1")]));
    wal.clear();
    assert!(wal.as_bytes().is_empty());
    assert_eq!(wal.read_operations().unwrap().len(), 0);
}

#[test]
fn set_then_get_round_trip() {
    let mut s = empty_engine();
    assert_eq!(s.set("k", "hello world"), Ok(SetOutcome::Applied(0)));
    assert_eq!(s.get("k").unwrap(), Some("hello world".to_string()));
    s.set("k", "again").unwrap();
    assert_eq!(s.get("k").unwrap(), Some("again".to_string()));
    s.set("empty", "").unwrap();
    assert_eq!(s.get("empty").unwrap(), Some(String::new()));
    s.set("ключ", "значение").unwrap();
    assert_eq!(s.get("ключ").unwrap(), Some("значение".to_string()));
}

#[test]
fn delete_hides_key() {
    let mut s = empty_engine();
    s.set("k", "v").unwrap();
    s.delete("k").unwrap();
    assert_eq!(s.get("k").unwrap(), None);
    s.delete("never").unwrap();
    assert_eq!(s.get("never").unwrap(), None);
}

#[test]
fn delete_of_absent_key_writes_nothing() {
    let mut s = empty_engine();
    s.set("k", "v").unwrap();
    let before = s.segment_bytes().to_vec();
    s.delete("other").unwrap();
    assert_eq!(s.segment_bytes(), &before[..]);
}

#[test]
fn offsets_increase_and_read_back() {
    let mut s = empty_engine();
    let o1 = match s.set("a", "1").unwrap() {
        SetOutcome::Applied(o) => o,
        SetOutcome::Buffered => panic!("not in a transaction"),
    };
    let o2 = match s.set("b", "2").unwrap() {
        SetOutcome::Applied(o) => o,
        SetOutcome::Buffered => panic!("not in a transaction"),
    };
    assert!(o1 < o2);
    assert_eq!(o2, 8);
    let r1 = s.read_record(o1).unwrap().unwrap();
    let r2 = s.read_record(o2).unwrap().unwrap();
    assert_eq!((r1.key.as_str(), r1.value.as_str()), ("a", "1"));
    assert_eq!((r2.key.as_str(), r2.value.as_str()), ("b", "2"));
}

#[test]
fn transaction_writes_hidden_until_commit() {
    let mut s = empty_engine();
    s.set("a", "old").unwrap();
    s.set("b", "keep").unwrap();
    s.begin_transaction().unwrap();
    assert_eq!(s.set("a", "new"), Ok(SetOutcome::Buffered));
    s.set("c", "1").unwrap();
    s.delete("b").unwrap();
    s.set("c", "2").unwrap();
    assert_eq!(s.get("a").unwrap(), Some("old".to_string()));
    assert_eq!(s.get("b").unwrap(), Some("keep".to_string()));
    assert_eq!(s.get("c").unwrap(), None);
    s.commit().unwrap();
    assert!(!s.in_transaction());
    assert!(s.wal_bytes().is_empty());
    assert_eq!(s.get("a").unwrap(), Some("new".to_string()));
    assert_eq!(s.get("b").unwrap(), None);
    assert_eq!(s.get("c").unwrap(), Some("2".to_string()));
}

#[test]
fn rollback_restores_state() {
    let mut s = empty_engine();
    s.set("a", "1").unwrap();
    let log_before = s.segment_bytes().to_vec();
    s.begin_transaction().unwrap();
    s.set("a", "2").unwrap();
    s.delete("a").unwrap();
    s.set("z", "9").unwrap();
    assert!(!s.wal_bytes().is_empty());
    s.rollback();
    assert!(!s.in_transaction());
    assert!(s.wal_bytes().is_empty());
    assert_eq!(s.segment_bytes(), &log_before[..]);
    assert_eq!(s.get("a").unwrap(), Some("1".to_string()));
    assert_eq!(s.get("z").unwrap(), None);
}

#[test]
fn begin_twice_fails() {
    let mut s = empty_engine();
    s.begin_transaction().unwrap();
    s.set("a", "1").unwrap();
    assert_eq!(s.begin_transaction(), Err(StorageError::TransactionAlreadyActive));
    assert!(s.in_transaction());
    s.commit().unwrap();
    assert_eq!(s.get("a").unwrap(), Some("1".to_string()));
}

#[test]
fn commit_without_transaction_fails() {
    let mut s = empty_engine();
    s.set("a", "1").unwrap();
    assert_eq!(s.commit(), Err(StorageError::NoActiveTransaction));
    assert_eq!(s.get("a").unwrap(), Some("1".to_string()));
}

#[test]
fn recovery_replays_wal() {
    let wal = wal_of(&[put("a", "1"), put("b", "2"), del("a")]);
    let s = Storage::new(Vec::new(), wal).unwrap();
    assert_eq!(s.get("a").unwrap(), None);
    assert_eq!(s.get("b").unwrap(), Some("2".to_string()));
    assert!(s.wal_bytes().is_empty());
    assert!(!s.in_transaction());
}

#[test]
fn recovery_ignores_torn_final_frame() {
    let mut wal = wal_of(&[put("a", "1"), put("b", "2")]);
    wal.truncate(wal.len() - 2);
    let s = Storage::new(Vec::new(), wal).unwrap();
    assert_eq!(s.get("a").unwrap(), Some("1".to_string()));
    assert_eq!(s.get("b").unwrap(), None);
    assert!(s.wal_bytes().is_empty());
}

#[test]
fn reopen_clean_is_identical() {
    let mut s = empty_engine();
    s.set("a", "1").unwrap();
    s.set("b", "2").unwrap();
    let log = s.segment_bytes().to_vec();
    let first = Storage::new(log.clone(), Vec::new()).unwrap();
    let second = Storage::new(first.segment_bytes().to_vec(), first.wal_bytes().to_vec()).unwrap();
    assert_eq!(first.segment_bytes(), &log[..]);
    assert_eq!(second.segment_bytes(), first.segment_bytes());
    for key in ["a", "b", "c"] {
        assert_eq!(first.get(key).unwrap(), second.get(key).unwrap());
    }
}

#[test]
fn crash_after_commit_logged_recovers() {
    let mut s = empty_engine();
    s.set("x", "0").unwrap();
    s.begin_transaction().unwrap();
    s.set("x", "1").unwrap();
    s.set("y", "2").unwrap();
    let log = s.segment_bytes().to_vec();
    let wal = s.wal_bytes().to_vec();
    let mut r = Storage::new(log, wal).unwrap();
    assert_eq!(r.get("y").unwrap(), Some("2".to_string()));
    r.set("x", "3").unwrap();
    assert_eq!(r.get("x").unwrap(), Some("3".to_string()));
}

#[test]
fn transaction_scenario_user_delete() {
    let mut s = empty_engine();
    s.set("user1", "data1").unwrap();
    s.set("user2", "data2").unwrap();
    s.begin_transaction().unwrap();
    s.delete("user2").unwrap();
    assert_eq!(s.get("user2").unwrap(), Some("data2".to_string()));
    s.commit().unwrap();
    assert_eq!(s.get("user2").unwrap(), None);
    assert_eq!(s.get("user1").unwrap(), Some("data1".to_string()));
}

#[test]
fn error_messages() {
    assert_eq!(StorageError::NoActiveTransaction.message(), "no active transaction");
    assert_eq!(StorageError::TransactionAlreadyActive.message(), "transaction already in progress");
}

#[test]
fn wal_huge_declared_string_length_is_corrupt() {
    let wal = vec![10, 0, 0, 0, 0, 0xFD, 0xFF, 0xFF, 0xFF, 0xFF, 0xFF, 0xFF, 0xFF, 0xFF];
    assert!(matches!(Storage::new(Vec::new(), wal.clone()), Err(StorageError::CorruptFrame)));
    assert!(matches!(WalSegment::new(wal).read_operations(), Err(StorageError::CorruptFrame)));
}

#[test]
fn record_huge_declared_string_length_is_corrupt() {
    let log = vec![9, 0, 0, 0, 0xFD, 0xFF, 0xFF, 0xFF, 0xFF, 0xFF, 0xFF, 0xFF, 0xFF];
    let s = Storage::new(log.clone(), Vec::new()).unwrap();
    assert!(matches!(s.read_record(0), Err(StorageError::CorruptFrame)));
    assert!(matches!(Segment::new(log).get(0), Err(StorageError::CorruptFrame)));
}

#[test]
fn staged_writes_extend_wal_bytes() {
    let mut s = empty_engine();
    s.set("a", "1").unwrap();
    assert!(s.wal_bytes().is_empty());
    s.begin_transaction().unwrap();
    s.set("a", "2").unwrap();
    assert_eq!(s.wal_bytes(), &[5u8, 0, 0, 0, 0, 1, b'a', 1, b'2'][..]);
    s.delete("a").unwrap();
    assert_eq!(&s.wal_bytes()[9..], &[3u8, 0, 0, 0, 1, 1, b'a'][..]);
}
