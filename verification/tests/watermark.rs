use mini_lsm::mvcc::watermark::Watermark;
use mini_lsm::mvcc::LsmMvccInner;

#[test]
fn watermark_of_no_readers() {
    let w = Watermark::new();
    assert_eq!(w.watermark(), None);
    assert_eq!(w.num_retained_snapshots(), 0);
    assert_eq!(Watermark::default().watermark(), None);
}

#[test]
fn watermark_is_the_oldest_reader() {
    let mut w = Watermark::new();
    w.add_reader(7);
    assert_eq!(w.watermark(), Some(7));
    w.add_reader(3);
    assert_eq!(w.watermark(), Some(3));
    w.add_reader(9);
    assert_eq!(w.watermark(), Some(3));
    assert_eq!(w.num_retained_snapshots(), 3);
    w.remove_reader(3);
    assert_eq!(w.watermark(), Some(7));
}

#[test]
fn readers_at_one_timestamp_are_counted() {
    let mut w = Watermark::new();
    w.add_reader(0);
    for _ in 0..1000 {
        w.add_reader(5);
    }
    assert_eq!(w.num_retained_snapshots(), 2);
    w.remove_reader(0);
    for _ in 0..999 {
        w.remove_reader(5);
        assert_eq!(w.watermark(), Some(5));
    }
    w.remove_reader(5);
    assert_eq!(w.watermark(), None);
    assert_eq!(w.num_retained_snapshots(), 0);
}

#[test]
fn largest_timestamps() {
    let mut w = Watermark::new();
    w.add_reader(u64::MAX);
    assert_eq!(w.watermark(), Some(u64::MAX));
    w.add_reader(0);
    assert_eq!(w.watermark(), Some(0));
}

#[test]
fn mvcc_watermark_without_readers_is_the_latest_commit() {
    let mut mvcc = LsmMvccInner::new(41);
    assert_eq!(mvcc.watermark(), 41);
    mvcc.update_commit_ts(42);
    assert_eq!(mvcc.latest_commit_ts(), 42);
    assert_eq!(mvcc.watermark(), 42);
    mvcc.add_reader(17);
    assert_eq!(mvcc.watermark(), 17);
    mvcc.remove_reader(17);
    assert_eq!(mvcc.watermark(), 42);
}

#[test]
fn release_gives_the_watermark_back() {
    let mut mvcc = LsmMvccInner::new(10);
    let txn = mvcc.new_txn();
    assert_eq!(txn.read_ts(), 10);
    mvcc.update_commit_ts(20);
    assert_eq!(mvcc.watermark(), 10);
    txn.release(&mut mvcc);
    assert_eq!(mvcc.watermark(), 20);
}

#[test]
fn readers_are_counted_by_timestamp() {
    let mut w = Watermark::new();
    assert_eq!(w.reader_count(3), 0);
    w.add_reader(3);
    w.add_reader(3);
    w.add_reader(5);
    assert_eq!((w.reader_count(3), w.reader_count(5)), (2, 1));
    w.remove_reader(3);
    assert_eq!(w.reader_count(3), 1);
}
