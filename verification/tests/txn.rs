use mini_lsm::key_hash::is_hashable;
use mini_lsm::lsm_storage::{LoggedStorage, StoredRange, TxnStorage, WriteBatchRecord};
use mini_lsm::mvcc::txn::{Transaction, TxnError, TxnIterator};
use mini_lsm::mvcc::LsmMvccInner;
use mini_lsm::skip_map::KeyBound;
use std::cell::{Cell, RefCell};

/// Versions in memory, each as key, timestamp and value.
struct MemStorage {
    versions: RefCell<Vec<(Vec<u8>, u64, Vec<u8>)>>,
    fail: Cell<bool>,
    /// How many scans it still answers.
    scans_left: Cell<usize>,
    /// How many scans it was asked for.
    scans: Cell<usize>,
    /// How many pairs of a range can be read before the reading fails.
    readable: Cell<usize>,
    /// How many batches it was handed.
    batches: Cell<usize>,
}

impl MemStorage {
    fn new() -> Self {
        MemStorage {
            versions: RefCell::new(Vec::new()),
            fail: Cell::new(false),
            scans_left: Cell::new(usize::MAX),
            scans: Cell::new(0),
            readable: Cell::new(usize::MAX),
            batches: Cell::new(0),
        }
    }

    fn with(rows: &[(&str, u64, &str)]) -> Self {
        let s = Self::new();
        for (k, ts, v) in rows {
            s.versions.borrow_mut().push((k.as_bytes().to_vec(), *ts, v.as_bytes().to_vec()));
        }
        s
    }

    fn newest(&self, key: &[u8], read_ts: u64) -> Option<Vec<u8>> {
        self.versions
            .borrow()
            .iter()
            .filter(|(k, ts, _)| k == key && *ts <= read_ts)
            .max_by_key(|(_, ts, _)| *ts)
            .map(|(_, _, v)| v.clone())
            .filter(|v| !v.is_empty())
    }
}

fn within(lower: KeyBound, upper: KeyBound, k: &[u8]) -> bool {
    let low = match lower {
        KeyBound::Included(b) => k >= b,
        KeyBound::Excluded(b) => k > b,
        KeyBound::Unbounded => true,
    };
    let high = match upper {
        KeyBound::Included(b) => k <= b,
        KeyBound::Excluded(b) => k < b,
        KeyBound::Unbounded => true,
    };
    low && high
}

impl TxnStorage for &MemStorage {
    type Error = String;

    fn get_with_ts(&self, key: &[u8], read_ts: u64) -> Result<Option<Vec<u8>>, String> {
        if self.fail.get() {
            return Err("get".to_string());
        }
        Ok(self.newest(key, read_ts))
    }

    fn scan_with_ts(
        &self,
        lower: KeyBound,
        upper: KeyBound,
        read_ts: u64,
    ) -> Result<StoredRange<String>, String> {
        self.scans.set(self.scans.get() + 1);
        if self.fail.get() || self.scans_left.get() == 0 {
            return Err("scan".to_string());
        }
        self.scans_left.set(self.scans_left.get() - 1);
        let mut keys: Vec<Vec<u8>> =
            self.versions.borrow().iter().map(|(k, _, _)| k.clone()).collect();
        keys.sort();
        keys.dedup();
        let mut pairs: Vec<(Vec<u8>, Vec<u8>)> = keys
            .into_iter()
            .filter(|k| within(lower, upper, k))
            .filter_map(|k| self.newest(&k, read_ts).map(|v| (k, v)))
            .collect();
        let mut failure = None;
        if pairs.len() > self.readable.get() {
            pairs.truncate(self.readable.get());
            failure = Some("torn".to_string());
        }
        Ok(StoredRange { pairs, failure })
    }

    fn write_batch_inner(
        &self,
        latest: u64,
        records: &Vec<WriteBatchRecord>,
    ) -> Result<u64, String> {
        self.batches.set(self.batches.get() + 1);
        if self.fail.get() {
            return Err("write".to_string());
        }
        let ts = latest + 1;
        for record in records {
            let WriteBatchRecord::Put(k, v) = record;
            self.versions.borrow_mut().push((k.clone(), ts, v.clone()));
        }
        Ok(ts)
    }
}

fn on(s: &MemStorage) -> LoggedStorage<&MemStorage> {
    LoggedStorage::new(s)
}

fn drain(mut iter: TxnIterator<String>, txn: &Transaction) -> Vec<(String, String)> {
    let mut rows = Vec::new();
    while iter.is_valid() {
        rows.push((
            String::from_utf8(iter.key().clone()).unwrap(),
            String::from_utf8(iter.value().clone()).unwrap(),
        ));
        assert!(iter.next(txn).is_ok());
    }
    rows
}

fn rows(expected: &[(&str, &str)]) -> Vec<(String, String)> {
    expected.iter().map(|(k, v)| (k.to_string(), v.to_string())).collect()
}

fn all(txn: &mut Transaction, s: &MemStorage) -> Vec<(String, String)> {
    match txn.scan(&mut on(s), KeyBound::Unbounded, KeyBound::Unbounded) {
        Ok(iter) => drain(iter, txn),
        Err(_) => panic!("scan failed"),
    }
}

#[test]
fn get_reads_the_snapshot() {
    let s = MemStorage::with(&[("k", 1, "one"), ("k", 5, "five")]);
    let mut txn = Transaction::new(4);
    assert_eq!(txn.get(&mut on(&s), b"k").unwrap(), Some(b"one".to_vec()));
    assert_eq!(txn.get(&mut on(&s), b"x").unwrap(), None);
    s.fail.set(true);
    assert_eq!(txn.get(&mut on(&s), b"k").unwrap_err(), "get");
}

#[test]
fn own_writes_come_first() {
    let s = MemStorage::with(&[("k", 1, "stored")]);
    let mut txn = Transaction::new(1);
    txn.put(b"k", b"first");
    txn.put(b"k", b"second");
    txn.put(b"other", b"x");
    assert_eq!(txn.get(&mut on(&s), b"k").unwrap(), Some(b"second".to_vec()));
    txn.delete(b"k");
    assert_eq!(txn.get(&mut on(&s), b"k").unwrap(), None);
    assert_eq!(txn.get(&mut on(&s), b"other").unwrap(), Some(b"x".to_vec()));
    txn.put(b"k", b"");
    assert_eq!(txn.get(&mut on(&s), b"k").unwrap(), None);
}

#[test]
fn own_reads_do_not_ask_the_storage() {
    let s = MemStorage::new();
    s.fail.set(true);
    let mut txn = Transaction::new(1);
    txn.put(b"k", b"v");
    assert_eq!(txn.get(&mut on(&s), b"k").unwrap(), Some(b"v".to_vec()));
}

#[test]
fn scan_merges_own_writes_with_the_snapshot() {
    let s = MemStorage::with(&[("a", 1, "a1"), ("b", 1, "b1"), ("c", 9, "late"), ("d", 1, "d1")]);
    let mut txn = Transaction::new(5);
    txn.put(b"b", b"mine");
    txn.delete(b"d");
    txn.put(b"e", b"e1");
    assert_eq!(all(&mut txn, &s), rows(&[("a", "a1"), ("b", "mine"), ("e", "e1")]));
}

#[test]
fn scan_respects_its_bounds() {
    let s = MemStorage::with(&[("a", 1, "1"), ("b", 1, "2"), ("c", 1, "3"), ("d", 1, "4")]);
    let mut txn = Transaction::new(1);
    txn.put(b"aa", b"x");
    txn.put(b"c", b"y");
    txn.put(b"z", b"z");
    let iter = txn.scan(&mut on(&s), KeyBound::Excluded(b"a"), KeyBound::Included(b"c")).ok().unwrap();
    assert_eq!(iter.num_active_iterators(), 2);
    assert_eq!(drain(iter, &txn), rows(&[("aa", "x"), ("b", "2"), ("c", "y")]));
    let iter = txn.scan(&mut on(&s), KeyBound::Included(b"c"), KeyBound::Excluded(b"d")).ok().unwrap();
    assert_eq!(drain(iter, &txn), rows(&[("c", "y")]));
    let iter = txn.scan(&mut on(&s), KeyBound::Included(b"d"), KeyBound::Included(b"a")).ok().unwrap();
    assert_eq!(drain(iter, &txn), rows(&[]));
}

#[test]
fn scan_agrees_with_get() {
    let s = MemStorage::with(&[("a", 1, "1"), ("b", 1, "2"), ("c", 1, "3")]);
    let mut txn = Transaction::new(1);
    txn.delete(b"a");
    txn.put(b"b", b"9");
    let seen = all(&mut txn, &s);
    for k in ["a", "b", "c", "d"] {
        let by_scan = seen.iter().find(|(key, _)| key == k).map(|(_, v)| v.as_bytes().to_vec());
        assert_eq!(txn.get(&mut on(&s), k.as_bytes()).unwrap(), by_scan);
    }
}

#[test]
fn a_write_under_the_empty_key_hides_the_others_from_scans() {
    let s = MemStorage::with(&[("b", 1, "stored")]);
    let mut txn = Transaction::new(1);
    txn.put(b"", b"empty");
    txn.put(b"a", b"1");
    assert_eq!(all(&mut txn, &s), rows(&[("b", "stored")]));
    assert_eq!(txn.get(&mut on(&s), b"a").unwrap(), Some(b"1".to_vec()));
    let iter = txn.scan(&mut on(&s), KeyBound::Excluded(b""), KeyBound::Unbounded).ok().unwrap();
    assert_eq!(drain(iter, &txn), rows(&[("a", "1"), ("b", "stored")]));
}

#[test]
fn scan_reports_the_storage_error() {
    let s = MemStorage::new();
    s.fail.set(true);
    let mut txn = Transaction::new(1);
    match txn.scan(&mut on(&s), KeyBound::Unbounded, KeyBound::Unbounded) {
        Err(TxnError::Storage(e)) => assert_eq!(e, "scan"),
        _ => panic!("expected an error"),
    }
}

#[test]
fn scan_asks_twice_and_reports_the_second_error_too() {
    let s = MemStorage::with(&[("a", 1, "x")]);
    let mut mvcc = LsmMvccInner::new(1);
    let mut reader = mvcc.new_txn();
    s.scans_left.set(1);
    match reader.scan(&mut on(&s), KeyBound::Unbounded, KeyBound::Unbounded) {
        Err(TxnError::Storage(e)) => assert_eq!(e, "scan"),
        _ => panic!("expected an error"),
    }
    // The keys of the first answer are remembered all the same.
    let mut writer = mvcc.new_txn();
    writer.put(b"a", b"w");
    assert!(writer.commit(&mut mvcc, &mut on(&s)).is_ok());
    reader.put(b"z", b"1");
    assert!(matches!(reader.commit(&mut mvcc, &mut on(&s)), Err(TxnError::NotSerializable)));
}

#[test]
fn scan_asks_exactly_twice() {
    let s = MemStorage::with(&[("a", 1, "x")]);
    let mut txn = Transaction::new(1);
    assert!(txn.scan(&mut on(&s), KeyBound::Unbounded, KeyBound::Unbounded).is_ok());
    assert_eq!(s.scans.get(), 2);
    s.fail.set(true);
    assert!(txn.scan(&mut on(&s), KeyBound::Unbounded, KeyBound::Unbounded).is_err());
    assert_eq!(s.scans.get(), 3);
}

#[test]
fn a_scan_that_fails_midway_keeps_the_keys_before() {
    let s = MemStorage::with(&[("a", 1, "x"), ("b", 1, "y"), ("c", 1, "z")]);
    for (key, refused) in [(b"b", true), (b"c", false)] {
        let mut mvcc = LsmMvccInner::new(1);
        let mut reader = mvcc.new_txn();
        s.readable.set(2);
        match reader.scan(&mut on(&s), KeyBound::Unbounded, KeyBound::Unbounded) {
            Err(TxnError::Storage(e)) => assert_eq!(e, "torn"),
            _ => panic!("expected an error"),
        }
        let mut writer = mvcc.new_txn();
        writer.put(key, b"w");
        assert!(writer.commit(&mut mvcc, &mut on(&s)).is_ok());
        reader.put(b"z", b"1");
        assert_eq!(reader.prepare_commit(&mut mvcc).is_none(), refused);
    }
}

#[test]
fn passing_over_deletions_again_changes_nothing() {
    let s = MemStorage::with(&[("a", 1, "1"), ("b", 1, "2"), ("c", 1, "3")]);
    let mut txn = Transaction::new(1);
    txn.delete(b"a");
    txn.delete(b"b");
    let mut iter = txn.scan(&mut on(&s), KeyBound::Unbounded, KeyBound::Unbounded).ok().unwrap();
    assert_eq!(iter.key(), b"c");
    assert!(iter.move_to_non_delete().is_ok());
    assert_eq!(iter.key(), b"c");
    assert!(iter.next(&txn).is_ok());
    assert!(iter.move_to_non_delete().is_ok());
    assert!(!iter.is_valid());
}

#[test]
fn iterators_take_in_later_writes() {
    let s = MemStorage::with(&[("b", 1, "b1"), ("d", 1, "d1"), ("f", 1, "f1")]);
    let mut txn = Transaction::new(1);
    txn.put(b"a", b"a1");
    txn.put(b"c", b"c1");
    txn.put(b"e", b"e1");
    let upper = KeyBound::Included(b"g");
    let mut iter = txn.scan(&mut on(&s), KeyBound::Unbounded, upper).ok().unwrap();
    let mut seen = Vec::new();
    while iter.is_valid() {
        let key = String::from_utf8(iter.key().clone()).unwrap();
        seen.push((key.clone(), String::from_utf8(iter.value().clone()).unwrap()));
        if key == "a" {
            // Behind the next own write: a change, a deletion, a new key, and one out of range.
            txn.put(b"c", b"c2");
            txn.delete(b"e");
            txn.put(b"g", b"g2");
            txn.put(b"h", b"h2");
        }
        if key == "b" {
            // The own write under `c` is up next already; it stays as it was, and a new key before
            // it comes too late.
            txn.put(b"bb", b"late");
            txn.put(b"c", b"c3");
            txn.delete(b"f");
        }
        assert!(iter.next(&txn).is_ok());
    }
    assert_eq!(
        seen,
        rows(&[("a", "a1"), ("b", "b1"), ("c", "c2"), ("d", "d1"), ("g", "g2")])
    );
}

#[test]
fn a_range_is_remembered_and_iterated_over() {
    let range = || StoredRange::<String> {
        pairs: vec![(b"a".to_vec(), b"1".to_vec()), (b"b".to_vec(), b"2".to_vec())],
        failure: None,
    };
    let mut mvcc = LsmMvccInner::new(1);
    let mut reader = mvcc.new_txn();
    reader.delete(b"a");
    let seen = reader.scan_over(KeyBound::Unbounded, KeyBound::Unbounded, range()).ok().unwrap();
    assert_eq!(drain(seen, &reader), rows(&[("b", "2")]));
    assert!(reader.remember_range(KeyBound::Unbounded, KeyBound::Unbounded, range()).is_ok());
    for (key, refused) in [(b"a", false), (b"b", true)] {
        let s = MemStorage::new();
        let mut writer = mvcc.new_txn();
        writer.put(key, b"w");
        assert!(writer.commit(&mut mvcc, &mut on(&s)).is_ok());
        assert_eq!(reader.prepare_commit(&mut mvcc).is_none(), refused);
    }
}

#[test]
fn long_and_short_keys_are_hashable() {
    assert!(is_hashable(b""));
    assert!(is_hashable(b"abcd"));
    assert!(is_hashable(b"hello world"));
    assert!(is_hashable(&[0xff; 4]));
    assert!(is_hashable(&[0xff; 25]));
    assert!(!is_hashable(&[0xff; 5]));
    assert!(!is_hashable(&[0xff; 12]));
}

#[test]
fn scan_reports_a_key_that_cannot_be_hashed() {
    let s = MemStorage::new();
    s.versions.borrow_mut().push((b"a".to_vec(), 1, b"v".to_vec()));
    s.versions.borrow_mut().push((vec![0xff; 8], 1, b"v".to_vec()));
    let mut mvcc = LsmMvccInner::new(1);
    let mut txn = mvcc.new_txn();
    let r = txn.scan(&mut on(&s), KeyBound::Unbounded, KeyBound::Unbounded);
    assert!(matches!(r, Err(TxnError::KeyNotHashable)));
    // The keys before it are remembered.
    let mut writer = mvcc.new_txn();
    writer.put(b"a", b"w");
    assert!(writer.commit(&mut mvcc, &mut on(&s)).is_ok());
    txn.put(b"z", b"1");
    assert!(txn.prepare_commit(&mut mvcc).is_none());
}

#[test]
fn commit_writes_one_batch_in_order() {
    let s = MemStorage::new();
    let mut mvcc = LsmMvccInner::new(6);
    let mut txn = mvcc.new_txn();
    txn.put(b"c", b"3");
    txn.put(b"a", b"1");
    txn.delete(b"b");
    assert!(txn.commit(&mut mvcc, &mut on(&s)).is_ok());
    assert!(txn.is_committed());
    assert_eq!(s.batches.get(), 1);
    assert_eq!(
        *s.versions.borrow(),
        vec![
            (b"a".to_vec(), 8, b"1".to_vec()),
            (b"b".to_vec(), 8, b"".to_vec()),
            (b"c".to_vec(), 8, b"3".to_vec())
        ]
    );
    assert_eq!(mvcc.latest_commit_ts(), 8);
}

#[test]
fn stale_reads_are_refused() {
    let s = MemStorage::with(&[("a", 1, "x"), ("b", 1, "y")]);
    let mut mvcc = LsmMvccInner::new(1);
    let mut t1 = mvcc.new_txn();
    let mut t2 = mvcc.new_txn();
    t1.get(&mut on(&s), b"a").unwrap();
    t1.put(b"b", b"t1");
    t2.get(&mut on(&s), b"b").unwrap();
    t2.put(b"a", b"t2");
    assert!(t1.commit(&mut mvcc, &mut on(&s)).is_ok());
    let latest = mvcc.latest_commit_ts();
    assert!(matches!(t2.commit(&mut mvcc, &mut on(&s)), Err(TxnError::NotSerializable)));
    assert!(!t2.is_committed());
    assert_eq!(mvcc.latest_commit_ts(), latest + 1);
    // Nothing of the refused transaction was handed over, and it is still open.
    assert_eq!(s.batches.get(), 1);
    assert_eq!(t2.get(&mut on(&s), b"a").unwrap(), Some(b"t2".to_vec()));
    assert_eq!(s.newest(b"a", u64::MAX), Some(b"x".to_vec()));
}

#[test]
fn scanned_keys_count_as_read() {
    let s = MemStorage::with(&[("a", 1, "x"), ("b", 1, "y")]);
    let mut mvcc = LsmMvccInner::new(1);
    let mut t1 = mvcc.new_txn();
    let mut t2 = mvcc.new_txn();
    let _ = all(&mut t1, &s);
    t1.put(b"z", b"1");
    t2.put(b"b", b"2");
    assert!(t2.commit(&mut mvcc, &mut on(&s)).is_ok());
    assert!(matches!(t1.commit(&mut mvcc, &mut on(&s)), Err(TxnError::NotSerializable)));
}

#[test]
fn unrelated_writes_do_not_conflict() {
    let s = MemStorage::with(&[("a", 1, "x"), ("b", 1, "y")]);
    let mut mvcc = LsmMvccInner::new(1);
    let mut t1 = mvcc.new_txn();
    let mut t2 = mvcc.new_txn();
    t1.get(&mut on(&s), b"a").unwrap();
    t1.put(b"a", b"1");
    t2.get(&mut on(&s), b"b").unwrap();
    t2.put(b"b", b"2");
    assert!(t1.commit(&mut mvcc, &mut on(&s)).is_ok());
    assert!(t2.commit(&mut mvcc, &mut on(&s)).is_ok());
}

#[test]
fn read_only_and_blind_transactions_are_not_refused() {
    let s = MemStorage::with(&[("a", 1, "x")]);
    let mut mvcc = LsmMvccInner::new(1);
    let mut reader = mvcc.new_txn();
    let mut blind = mvcc.new_txn();
    let mut writer = mvcc.new_txn();
    reader.get(&mut on(&s), b"a").unwrap();
    assert!(!reader.has_writes());
    blind.put(b"a", b"blind");
    assert!(blind.has_writes());
    writer.put(b"a", b"w");
    assert!(writer.commit(&mut mvcc, &mut on(&s)).is_ok());
    assert!(reader.commit(&mut mvcc, &mut on(&s)).is_ok());
    assert!(blind.commit(&mut mvcc, &mut on(&s)).is_ok());
}

#[test]
fn commits_before_a_transaction_began_do_not_conflict() {
    let s = MemStorage::with(&[("a", 1, "x")]);
    let mut mvcc = LsmMvccInner::new(1);
    let mut early = mvcc.new_txn();
    early.put(b"a", b"early");
    assert!(early.commit(&mut mvcc, &mut on(&s)).is_ok());
    let mut late = mvcc.new_txn();
    assert_eq!(late.get(&mut on(&s), b"a").unwrap(), Some(b"early".to_vec()));
    late.put(b"b", b"late");
    assert!(late.commit(&mut mvcc, &mut on(&s)).is_ok());
}

#[test]
fn forgetting_old_commits_keeps_those_that_matter() {
    let s = MemStorage::new();
    let mut mvcc = LsmMvccInner::new(1);
    let mut old = mvcc.new_txn();
    old.put(b"a", b"1");
    assert!(old.commit(&mut mvcc, &mut on(&s)).is_ok());
    old.release(&mut mvcc);
    let mut reader = mvcc.new_txn();
    reader.get(&mut on(&s), b"a").unwrap();
    let mut writer = mvcc.new_txn();
    writer.put(b"a", b"2");
    assert!(writer.commit(&mut mvcc, &mut on(&s)).is_ok());
    writer.release(&mut mvcc);
    reader.put(b"b", b"3");
    assert!(matches!(reader.commit(&mut mvcc, &mut on(&s)), Err(TxnError::NotSerializable)));
}

#[test]
fn commit_reports_the_storage_error() {
    let s = MemStorage::new();
    let mut mvcc = LsmMvccInner::new(1);
    let mut txn = mvcc.new_txn();
    txn.put(b"a", b"1");
    s.fail.set(true);
    match txn.commit(&mut mvcc, &mut on(&s)) {
        Err(TxnError::Storage(e)) => assert_eq!(e, "write"),
        _ => panic!("expected an error"),
    }
    assert!(!txn.is_committed());
    s.fail.set(false);
    assert!(txn.commit(&mut mvcc, &mut on(&s)).is_ok());
}

#[test]
fn prepare_and_finish_make_a_commit() {
    let mut mvcc = LsmMvccInner::new(3);
    let mut txn = mvcc.new_txn();
    txn.put(b"k", b"v");
    let records = txn.prepare_commit(&mut mvcc).unwrap();
    assert_eq!(records.len(), 1);
    assert_eq!(mvcc.latest_commit_ts(), 4);
    txn.finish_commit(&mut mvcc, 5);
    assert!(txn.is_committed());
}
