use mini_lsm::iterators::{MergeIterator, StorageIterator, TwoMergeIterator};
use mini_lsm::key::{compare_bytes, Key, KeyOrder, StorageKey};
use mini_lsm::lsm_storage::StoredRange;
use mini_lsm::mvcc::txn::{SnapshotIterator, Transaction, TxnIterator, TxnLocalIterator};
use mini_lsm::skip_map::KeyBound;
use mini_lsm::table::{
    Entry, ReadError, SsTable, SsTableBuilder, SsTableIterator, SstConcatIterator,
};
use std::sync::Arc;

type Row = (String, u64, String);

fn row(k: &str, ts: u64, v: &str) -> Row {
    (k.to_string(), ts, v.to_string())
}

fn table(id: usize, rows: &[Row]) -> Arc<SsTable> {
    let entries = rows
        .iter()
        .map(|(k, ts, v)| {
            Entry::new(Key::new(k.as_bytes().to_vec(), *ts), v.as_bytes().to_vec())
        })
        .collect();
    Arc::new(SsTable::new(id, entries))
}

fn drain<I: StorageIterator<KeyType = Key>>(mut iter: I) -> Vec<Row> {
    let mut rows = Vec::new();
    while iter.is_valid() {
        let k = String::from_utf8(iter.key().key_ref().to_vec()).unwrap();
        let v = String::from_utf8(iter.value().clone()).unwrap();
        rows.push((k, iter.key().ts(), v));
        assert!(iter.next().is_ok());
    }
    rows
}

fn pairs(rows: &[(&str, &str)]) -> Vec<(Vec<u8>, Vec<u8>)> {
    rows.iter().map(|(k, v)| (k.as_bytes().to_vec(), v.as_bytes().to_vec())).collect()
}

#[test]
fn bytes_compare_like_slices() {
    let samples: Vec<&[u8]> = vec![b"", b"a", b"aa", b"ab", b"b", b"\xff", b"\xff\x00"];
    for a in &samples {
        for b in &samples {
            let expected = if a < b {
                KeyOrder::Less
            } else if a == b {
                KeyOrder::Equal
            } else {
                KeyOrder::Greater
            };
            assert_eq!(compare_bytes(a, b), expected);
        }
    }
}

#[test]
fn newer_versions_come_first() {
    let old = Key::new(b"k".to_vec(), 1);
    let new = Key::new(b"k".to_vec(), 2);
    let other = Key::new(b"l".to_vec(), 9);
    assert_eq!(new.compare(&old), KeyOrder::Less);
    assert_eq!(old.compare(&new), KeyOrder::Greater);
    assert_eq!(old.compare(&old.duplicate()), KeyOrder::Equal);
    assert_eq!(old.compare(&other), KeyOrder::Less);
}

#[test]
fn two_merge_prefers_the_first() {
    let a = table(1, &[row("a", 2, "a2"), row("b", 5, "first")]);
    let b = table(2, &[row("a", 1, "a1"), row("b", 5, "second"), row("c", 1, "c1")]);
    let iter = TwoMergeIterator::create(
        SsTableIterator::create_and_seek_to_first(a).unwrap(),
        SsTableIterator::create_and_seek_to_first(b).unwrap(),
    );
    assert_eq!(iter.num_active_iterators(), 2);
    assert_eq!(
        drain(iter),
        vec![row("a", 2, "a2"), row("a", 1, "a1"), row("b", 5, "first"), row("c", 1, "c1")]
    );
}

#[test]
fn merge_prefers_the_earlier() {
    let iters: Vec<SsTableIterator> = [
        table(1, &[row("b", 3, "b3"), row("d", 1, "newest")]),
        table(2, &[row("a", 1, "a1"), row("d", 1, "middle")]),
        table(3, &[]),
        table(4, &[row("b", 4, "b4"), row("d", 1, "oldest"), row("e", 1, "e1")]),
    ]
    .into_iter()
    .map(|t| SsTableIterator::create_and_seek_to_first(t).unwrap())
    .collect();
    let iter = MergeIterator::create(iters);
    assert_eq!(iter.num_active_iterators(), 4);
    assert_eq!(
        drain(iter),
        vec![
            row("a", 1, "a1"),
            row("b", 4, "b4"),
            row("b", 3, "b3"),
            row("d", 1, "newest"),
            row("e", 1, "e1")
        ]
    );
}

#[test]
fn merge_of_nothing_is_empty() {
    let iter: MergeIterator<SsTableIterator> = MergeIterator::create(Vec::new());
    assert!(!iter.is_valid());
    assert_eq!(iter.num_active_iterators(), 0);
}

#[test]
fn concat_passes_over_empty_tables() {
    let tables = vec![
        table(1, &[]),
        table(2, &[row("a", 1, "x")]),
        table(3, &[]),
        table(4, &[row("b", 2, "y"), row("b", 1, "z")]),
        table(5, &[]),
    ];
    let iter = SstConcatIterator::create_and_seek_to_first(tables).unwrap();
    assert_eq!(drain(iter), vec![row("a", 1, "x"), row("b", 2, "y"), row("b", 1, "z")]);
}

#[test]
fn builder_keeps_what_is_added() {
    let mut builder = SsTableBuilder::new(4096);
    assert_eq!(builder.block_size(), 4096);
    builder.add(&Key::new(b"k".to_vec(), 3), b"v");
    builder.add(&Key::new(b"k".to_vec(), 2), b"");
    assert_eq!(builder.entries().len(), 2);
    let sst = builder.build(11);
    assert_eq!(sst.sst_id(), 11);
    assert_eq!(sst.entries()[0].key().key_ref(), b"k");
    assert_eq!(sst.entries()[0].key().ts(), 3);
    assert_eq!(sst.entries()[0].value(), b"v");
    assert!(sst.entries()[1].value().is_empty());
}

fn broken(id: usize, rows: &[Row], reason: &str) -> Arc<SsTable> {
    let entries = rows
        .iter()
        .map(|(k, ts, v)| {
            Entry::new(Key::new(k.as_bytes().to_vec(), *ts), v.as_bytes().to_vec())
        })
        .collect();
    let failure = ReadError { reason: Arc::new(reason.to_string()) };
    Arc::new(SsTable::with_failure(id, entries, failure))
}

/// What an iterator yields, and why it stops.
fn drain_to_failure<I>(mut iter: I) -> (Vec<Row>, Option<String>)
where
    I: StorageIterator<KeyType = Key, Error = ReadError>,
{
    let mut rows = Vec::new();
    while iter.is_valid() {
        let k = String::from_utf8(iter.key().key_ref().to_vec()).unwrap();
        let v = String::from_utf8(iter.value().clone()).unwrap();
        rows.push((k, iter.key().ts(), v));
        if let Err(e) = iter.next() {
            return (rows, Some(e.reason.to_string()));
        }
    }
    (rows, None)
}

#[test]
fn iterators_report_where_a_table_cannot_be_read_on() {
    let t = broken(1, &[row("a", 1, "x"), row("b", 1, "y")], "block 2");
    let iter = SsTableIterator::create_and_seek_to_first(t).unwrap();
    assert_eq!(
        drain_to_failure(iter),
        (vec![row("a", 1, "x"), row("b", 1, "y")], Some("block 2".to_string()))
    );
    match SsTableIterator::create_and_seek_to_first(broken(1, &[], "block 0")) {
        Err(e) => assert_eq!(*e.reason, "block 0"),
        Ok(_) => panic!("expected an error"),
    }
}

#[test]
fn concat_stops_at_the_first_table_that_cannot_be_read_on() {
    let tables = vec![
        table(1, &[row("a", 1, "x")]),
        table(2, &[]),
        broken(3, &[], "third"),
        table(4, &[row("b", 1, "y")]),
    ];
    let iter = SstConcatIterator::create_and_seek_to_first(tables).unwrap();
    assert_eq!(drain_to_failure(iter), (vec![row("a", 1, "x")], Some("third".to_string())));
    let tables = vec![table(1, &[]), broken(2, &[], "second"), broken(3, &[], "third")];
    match SstConcatIterator::create_and_seek_to_first(tables) {
        Err(e) => assert_eq!(*e.reason, "second"),
        Ok(_) => panic!("expected an error"),
    }
}

#[test]
fn merges_stop_behind_the_pair_that_cannot_be_passed() {
    let a = broken(1, &[row("a", 1, "1"), row("c", 1, "3")], "first");
    let b = table(2, &[row("b", 1, "2"), row("d", 1, "4")]);
    let iter = TwoMergeIterator::create(
        SsTableIterator::create_and_seek_to_first(a.clone()).unwrap(),
        SsTableIterator::create_and_seek_to_first(b.clone()).unwrap(),
    );
    let seen = vec![row("a", 1, "1"), row("b", 1, "2"), row("c", 1, "3")];
    assert_eq!(drain_to_failure(iter), (seen.clone(), Some("first".to_string())));
    let iters = vec![
        SsTableIterator::create_and_seek_to_first(b).unwrap(),
        SsTableIterator::create_and_seek_to_first(a).unwrap(),
    ];
    assert_eq!(drain_to_failure(MergeIterator::create(iters)), (seen, Some("first".to_string())));
    // Under one key the later run is passed first.
    let earlier = broken(1, &[row("k", 1, "x")], "earlier");
    let later = broken(2, &[row("k", 1, "y")], "later");
    let iters = vec![
        SsTableIterator::create_and_seek_to_first(earlier).unwrap(),
        SsTableIterator::create_and_seek_to_first(later).unwrap(),
    ];
    assert_eq!(
        drain_to_failure(MergeIterator::create(iters)),
        (vec![row("k", 1, "x")], Some("later".to_string()))
    );
}

#[test]
fn local_iterator_ends_at_an_empty_key() {
    let mut iter: TxnLocalIterator<String> =
        TxnLocalIterator::create(pairs(&[("a", "1"), ("", "x"), ("b", "2")]));
    assert!(iter.is_valid());
    assert_eq!(iter.key(), b"a");
    assert_eq!(iter.value(), b"1");
    assert_eq!(iter.num_active_iterators(), 1);
    assert!(iter.next().is_ok());
    assert!(!iter.is_valid());
    let none: TxnLocalIterator<String> = TxnLocalIterator::create(Vec::new());
    assert!(!none.is_valid());
}

#[test]
fn txn_iterator_passes_over_deletions() {
    let mut txn = Transaction::new(1);
    txn.delete(b"a");
    txn.put(b"b", b"new");
    txn.delete(b"d");
    let local: TxnLocalIterator<String> =
        TxnLocalIterator::create(pairs(&[("a", ""), ("b", "new"), ("d", "")]));
    let stored = SnapshotIterator::create(StoredRange {
        pairs: pairs(&[("a", "old"), ("b", "old"), ("c", "kept"), ("d", "old")]),
        failure: None,
    })
    .ok()
    .unwrap();
    let merged = TwoMergeIterator::create(local, stored);
    let mut iter = TxnIterator::create(merged, KeyBound::Unbounded).ok().unwrap();
    assert_eq!(iter.num_active_iterators(), 2);
    assert_eq!((iter.key().clone(), iter.value().clone()), (b"b".to_vec(), b"new".to_vec()));
    assert!(iter.next(&txn).is_ok());
    assert_eq!((iter.key().clone(), iter.value().clone()), (b"c".to_vec(), b"kept".to_vec()));
    assert!(iter.next(&txn).is_ok());
    assert!(!iter.is_valid());
}

#[test]
fn txn_iterator_reports_where_the_storage_cannot_be_read_on() {
    let txn = Transaction::new(1);
    let range = |rows: &[(&str, &str)]| StoredRange {
        pairs: pairs(rows),
        failure: Some("torn".to_string()),
    };
    let mut iter = txn
        .scan_over(KeyBound::Unbounded, KeyBound::Unbounded, range(&[("a", "1"), ("b", "2")]))
        .ok()
        .unwrap();
    assert!(iter.next(&txn).is_ok());
    assert_eq!(iter.key(), b"b");
    assert_eq!(iter.next(&txn), Err("torn".to_string()));
    // Where no pair that is not deleted can be reached, there is no iterator.
    for rows in [vec![], vec![("a", "")]] {
        let r = txn.scan_over(KeyBound::Unbounded, KeyBound::Unbounded, range(&rows));
        assert_eq!(r.err(), Some("torn".to_string()));
    }
}
