use kvs::Effect;
use kvs::KvError;
use kvs::KvStore;
use kvs::Record;
use kvs::codec::encode;

/// A simulated log directory: slot `g` holds file `<g>.log` (slot 0 is the
/// compactor's staging file), `None` when the file does not exist.
fn apply(disk: &mut Vec<Option<Vec<u8>>>, effects: Vec<Effect>) {
    for e in effects {
        match e {
            Effect::Truncate { generation } => {
                while disk.len() <= generation {
                    disk.push(None);
                }
                disk[generation] = Some(Vec::new());
            }
            Effect::Append { generation, bytes } => {
                match &mut disk[generation] {
                    Some(f) => f.extend(bytes),
                    None => panic!("append to a missing file"),
                }
            }
            Effect::Delete { generation } => {
                if generation < disk.len() {
                    disk[generation] = None;
                }
            }
            Effect::Rename { from, to } => {
                let moved = disk[from].take().expect("rename of a missing file");
                while disk.len() <= to {
                    disk.push(None);
                }
                disk[to] = Some(moved);
            }
        }
    }
}

/// The startup scan: contents of `1.log`, `2.log`, ... up to the first
/// missing or empty file.
fn scan(disk: &[Option<Vec<u8>>]) -> Vec<Vec<u8>> {
    let mut out = Vec::new();
    for f in disk.iter().skip(1) {
        match f {
            Some(bytes) if !bytes.is_empty() => out.push(bytes.clone()),
            _ => break,
        }
    }
    out
}

fn s(x: &str) -> String {
    x.to_string()
}

#[test]
fn set_then_get_round_trip() {
    let mut store = KvStore::open(Vec::new()).unwrap();
    store.set(s("key1"), s("value1")).unwrap();
    assert_eq!(store.get(s("key1")).unwrap(), Some(s("value1")));
}

#[test]
fn get_missing_returns_none() {
    let store = KvStore::open(Vec::new()).unwrap();
    assert_eq!(store.get(s("nothing")).unwrap(), None);
}

#[test]
fn overwrite_keeps_latest_value() {
    let mut store = KvStore::open(Vec::new()).unwrap();
    store.set(s("k"), s("v1")).unwrap();
    store.set(s("k"), s("v2")).unwrap();
    assert_eq!(store.get(s("k")).unwrap(), Some(s("v2")));
}

#[test]
fn remove_makes_key_invisible() {
    let mut store = KvStore::open(Vec::new()).unwrap();
    store.set(s("k"), s("v")).unwrap();
    store.remove(s("k")).unwrap();
    assert_eq!(store.get(s("k")).unwrap(), None);
}

#[test]
fn remove_of_absent_key_fails() {
    let mut store = KvStore::open(Vec::new()).unwrap();
    match store.remove(s("ghost")) {
        Err(KvError::KeyNotFound { key }) => assert_eq!(key, s("ghost")),
        _ => panic!("expected KeyNotFound"),
    }
    store.set(s("k"), s("v")).unwrap();
    store.remove(s("k")).unwrap();
    assert!(matches!(
        store.remove(s("k")),
        Err(KvError::KeyNotFound { .. })
    ));
}

#[test]
fn close_and_reopen_scenario() {
    let mut disk: Vec<Option<Vec<u8>>> = Vec::new();
    let mut store = KvStore::open(Vec::new()).unwrap();
    store.set(s("a"), s("1")).unwrap();
    store.set(s("b"), s("2")).unwrap();
    store.remove(s("a")).unwrap();
    apply(&mut disk, store.take_effects());
    drop(store);

    let mut reopened = KvStore::open(scan(&disk)).unwrap();
    assert_eq!(reopened.get(s("a")).unwrap(), None);
    assert_eq!(reopened.get(s("b")).unwrap(), Some(s("2")));
    // overwriting after recovery still works
    reopened.set(s("b"), s("3")).unwrap();
    assert_eq!(reopened.get(s("b")).unwrap(), Some(s("3")));
}

#[test]
fn reopening_without_writes_is_idempotent() {
    let mut disk: Vec<Option<Vec<u8>>> = Vec::new();
    let mut store = KvStore::open(Vec::new()).unwrap();
    for i in 0..20 {
        store.set(format!("key{}", i), format!("value{}", i)).unwrap();
    }
    store.remove(s("key7")).unwrap();
    apply(&mut disk, store.take_effects());

    let mut once = KvStore::open(scan(&disk)).unwrap();
    apply(&mut disk, once.take_effects());
    let twice = KvStore::open(scan(&disk)).unwrap();
    for i in 0..20 {
        let expected = if i == 7 { None } else { Some(format!("value{}", i)) };
        assert_eq!(once.get(format!("key{}", i)).unwrap(), expected);
        assert_eq!(twice.get(format!("key{}", i)).unwrap(), expected);
    }
}

#[test]
fn rotation_splits_the_log_and_keeps_all_keys() {
    let mut disk: Vec<Option<Vec<u8>>> = Vec::new();
    let mut store = KvStore::open(Vec::new()).unwrap();
    let filler = "x".repeat(1024);
    for i in 0..1100 {
        store.set(format!("key{}", i), filler.clone()).unwrap();
    }
    assert!(store.segment_count() >= 2, "the size cap must force rotation");
    assert_eq!(store.get(s("key0")).unwrap(), Some(filler.clone()));
    assert_eq!(store.get(s("key550")).unwrap(), Some(filler.clone()));
    assert_eq!(store.get(s("key1099")).unwrap(), Some(filler.clone()));

    apply(&mut disk, store.take_effects());
    assert!(disk.iter().skip(1).filter(|f| f.is_some()).count() >= 2);
    let reopened = KvStore::open(scan(&disk)).unwrap();
    assert_eq!(reopened.get(s("key0")).unwrap(), Some(filler.clone()));
    assert_eq!(reopened.get(s("key1099")).unwrap(), Some(filler));
}

#[test]
fn compaction_reclaims_overwritten_space() {
    let mut disk: Vec<Option<Vec<u8>>> = Vec::new();
    let mut store = KvStore::open(Vec::new()).unwrap();
    let filler = "y".repeat(100 * 1024);
    for i in 0..13 {
        store.set(s("big"), format!("{}{}", i, filler)).unwrap();
        // the threshold check runs after every write
        assert!(store.garbage_bytes() < 1024 * 1024);
    }
    // eleven overwritten 100 KiB records crossed the 1 MiB threshold, so a
    // compaction ran: only the live record remains
    let mut total = 0;
    for i in 0..store.segment_count() {
        total += store.segment_size(i);
    }
    assert!(total < 300 * 1024, "compaction must shrink the log, size {}", total);
    assert_eq!(store.get(s("big")).unwrap(), Some(format!("{}{}", 12, filler)));

    apply(&mut disk, store.take_effects());
    // the staging file was adopted as generation 1; every older file is gone
    assert!(disk[0].is_none());
    assert!(disk[1].is_some());
    for f in disk.iter().skip(2) {
        assert!(f.is_none() || f.as_ref().unwrap().is_empty());
    }
    let reopened = KvStore::open(scan(&disk)).unwrap();
    assert_eq!(reopened.get(s("big")).unwrap(), Some(format!("{}{}", 12, filler)));
}

#[test]
fn malformed_tail_is_treated_as_end_of_log() {
    let mut disk: Vec<Option<Vec<u8>>> = Vec::new();
    let mut store = KvStore::open(Vec::new()).unwrap();
    store.set(s("safe"), s("kept")).unwrap();
    apply(&mut disk, store.take_effects());
    // a crash half-way through an append leaves a torn record behind
    disk[1].as_mut().unwrap().extend(b"{\"Set\":{\"ke".to_vec());

    let reopened = KvStore::open(scan(&disk)).unwrap();
    assert_eq!(reopened.get(s("safe")).unwrap(), Some(s("kept")));
}

#[test]
fn value_that_is_not_utf8_reports_corruption() {
    let rec = Record::Put { key: b"k".to_vec(), value: vec![0xff, 0xfe] };
    let file = encode(&rec);
    let store = KvStore::open(vec![file]).unwrap();
    assert!(matches!(store.get(s("k")), Err(KvError::CorruptRecord)));
}

#[test]
fn non_ascii_keys_and_values_round_trip_as_utf8() {
    let mut store = KvStore::open(Vec::new()).unwrap();
    store.set(s("\u{e9}"), s("\u{3c0}")).unwrap();
    assert_eq!(store.get(s("\u{e9}")).unwrap(), Some(s("\u{3c0}")));
    // 15 prefix + 2 key bytes + 11 separator + 2 value bytes + 3 suffix
    assert_eq!(store.segment_size(0), 33);
}

#[test]
fn garbage_counts_superseded_record_bytes() {
    let mut store = KvStore::open(Vec::new()).unwrap();
    store.set(s("k"), s("aa")).unwrap();
    assert_eq!(store.garbage_bytes(), 0);
    store.set(s("k"), s("bb")).unwrap();
    // the first record, 32 bytes on disk, is now garbage
    assert_eq!(store.garbage_bytes(), 32);
    store.remove(s("k")).unwrap();
    assert_eq!(store.garbage_bytes(), 64);
}

#[test]
fn take_effects_drains_the_journal() {
    let mut store = KvStore::open(Vec::new()).unwrap();
    store.set(s("k"), s("v")).unwrap();
    let first = store.take_effects();
    assert!(!first.is_empty());
    let second = store.take_effects();
    assert!(second.is_empty());
}

#[test]
fn empty_key_and_value_round_trip() {
    let mut store = KvStore::open(Vec::new()).unwrap();
    store.set(s(""), s("")).unwrap();
    assert_eq!(store.get(s("")).unwrap(), Some(s("")));
    store.set(s(""), s("x")).unwrap();
    assert_eq!(store.get(s("")).unwrap(), Some(s("x")));
}

#[test]
fn keys_needing_escapes_survive_reopen() {
    let mut disk: Vec<Option<Vec<u8>>> = Vec::new();
    let mut store = KvStore::open(Vec::new()).unwrap();
    store.set(s("quote\" slash\\ tab\t"), s("line\nfeed")).unwrap();
    apply(&mut disk, store.take_effects());
    let reopened = KvStore::open(scan(&disk)).unwrap();
    assert_eq!(
        reopened.get(s("quote\" slash\\ tab\t")).unwrap(),
        Some(s("line\nfeed"))
    );
}

#[test]
fn replayed_remove_of_absent_key_is_pure_garbage() {
    // a Remove record whose key was never set can never be read back, so
    // recovery counts its own bytes as reclaimable at once
    let rec = Record::Remove { key: b"z".to_vec() };
    let file = encode(&rec);
    let n = file.len() as u64;
    let store = KvStore::open(vec![file]).unwrap();
    assert_eq!(store.garbage_bytes(), n);
    assert_eq!(store.get(s("z")).unwrap(), None);
}

#[test]
fn corrupt_bytes_fail_open() {
    // a record boundary holding bytes no record can begin with is real
    // corruption, not a torn tail, and recovery refuses the log
    let mut file = encode(&Record::Put { key: b"k".to_vec(), value: b"v".to_vec() });
    file.extend(b"!!!not a record".to_vec());
    assert!(matches!(
        KvStore::open(vec![file]),
        Err(KvError::CorruptRecord)
    ));
}
