use mini_lsm::compact::install::{full_compaction_state, remove_files, table_ids};
use mini_lsm::compact::retention::merge_decision;
use mini_lsm::compact::{
    CompactionController, CompactionError, CompactionOptions, CompactionTask,
    LeveledCompactionTask, LeveledPolicy,
    SimpleLeveledCompactionTask, SimpleLeveledPolicy, TieredCompactionTask, TieredPolicy,
};
use mini_lsm::key::Key;
use mini_lsm::lsm_storage::{
    LoggedTables, LsmStorageInner, LsmStorageOptions, LsmStorageState, TableStore,
};
use mini_lsm::mvcc::LsmMvccInner;
use mini_lsm::table::{Entry, ReadError, SsTable, SsTableBuilder};
use std::cell::{Cell, RefCell};
use std::collections::HashMap;
use std::sync::Arc;

/// A store that keeps a log of what it was asked, and fails on demand.
struct LogStore {
    next: Cell<usize>,
    log: RefCell<Vec<String>>,
    fail: RefCell<String>,
}

impl LogStore {
    fn new(next: usize) -> Self {
        LogStore {
            next: Cell::new(next),
            log: RefCell::new(Vec::new()),
            fail: RefCell::new(String::new()),
        }
    }

    fn say(&self, what: String) -> Result<(), String> {
        if *self.fail.borrow() == what {
            return Err(what);
        }
        self.log.borrow_mut().push(what);
        Ok(())
    }
}

impl TableStore for &LogStore {
    type Error = String;

    fn next_sst_id(&self) -> usize {
        let id = self.next.get();
        self.next.set(id + 1);
        id
    }

    fn estimated_size(&self, builder: &SsTableBuilder) -> usize {
        builder.entries().len() * 10
    }

    fn write_sst(&self, table: &SsTable) -> Result<(), String> {
        self.say(format!("write {}", table.sst_id()))
    }

    fn add_compaction_record(
        &self,
        _task: &CompactionTask,
        output: &Vec<usize>,
    ) -> Result<(), String> {
        self.say(format!("record {:?}", output))
    }

    fn remove_sst_file(&self, sst_id: usize) -> Result<(), String> {
        self.say(format!("remove {}", sst_id))
    }

    fn sync_dir(&self) -> Result<(), String> {
        self.say("sync".to_string())
    }

    fn force_flush_next_imm_memtable(
        &self,
        state: &LsmStorageState,
    ) -> Result<LsmStorageState, String> {
        self.say("flush".to_string())?;
        let mut next = state.clone();
        let id = next.imm_memtables.pop().unwrap();
        next.l0_sstables.insert(0, id);
        Ok(next)
    }
}

/// Compacts level 0 into level 1, and gives up the tables `del` besides those that it compacted.
struct Policy {
    del: Vec<usize>,
}

impl SimpleLeveledPolicy for Policy {
    fn generate_compaction_task(
        &self,
        snapshot: &LsmStorageState,
    ) -> Option<SimpleLeveledCompactionTask> {
        if snapshot.l0_sstables.is_empty() {
            return None;
        }
        Some(SimpleLeveledCompactionTask {
            upper_level: None,
            upper_level_sst_ids: snapshot.l0_sstables.clone(),
            lower_level: 1,
            lower_level_sst_ids: snapshot.levels[0].1.clone(),
            is_lower_level_bottom_level: true,
        })
    }

    fn apply_compaction_result(
        &self,
        snapshot: &LsmStorageState,
        task: &SimpleLeveledCompactionTask,
        output: &[usize],
    ) -> (LsmStorageState, Vec<usize>) {
        let mut state = snapshot.clone();
        let mut del = task.upper_level_sst_ids.clone();
        del.extend(task.lower_level_sst_ids.iter());
        del.extend(self.del.iter());
        state.l0_sstables.clear();
        state.levels[0].1 = output.to_vec();
        (state, del)
    }
}

impl LeveledPolicy for Policy {
    fn generate_compaction_task(
        &self,
        _snapshot: &LsmStorageState,
    ) -> Option<LeveledCompactionTask> {
        Some(leveled(Some(1), &[1], &[2]))
    }

    fn apply_compaction_result(
        &self,
        snapshot: &LsmStorageState,
        _task: &LeveledCompactionTask,
        output: &[usize],
        in_recovery: bool,
    ) -> (LsmStorageState, Vec<usize>) {
        let mut del = output.to_vec();
        if in_recovery {
            del.clear();
        }
        (snapshot.clone(), del)
    }
}

impl TieredPolicy for Policy {
    fn generate_compaction_task(&self, _snapshot: &LsmStorageState) -> Option<TieredCompactionTask> {
        None
    }

    fn apply_compaction_result(
        &self,
        snapshot: &LsmStorageState,
        _task: &TieredCompactionTask,
        _output: &[usize],
    ) -> (LsmStorageState, Vec<usize>) {
        (snapshot.clone(), vec![7])
    }
}

type Controller = CompactionController<Policy, Policy, Policy>;
type Inner = LsmStorageInner<Controller>;
type Row = (String, u64, String);

fn reason(e: CompactionError<String>) -> String {
    match e {
        CompactionError::UnknownTable => "unknown table".to_string(),
        CompactionError::Read(e) => format!("read {}", e.reason),
        CompactionError::Storage(e) => e,
    }
}

/// A store together with the disk that it works on.
struct Store {
    inner: Inner,
    disk: LogStore,
}

impl Store {
    fn compact(&self, task: &CompactionTask) -> Result<Vec<Arc<SsTable>>, String> {
        self.inner.compact(&mut LoggedTables::new(&self.disk), task).map_err(reason)
    }

    fn force_full_compaction(&mut self) -> Result<(), String> {
        self.inner.force_full_compaction(&mut LoggedTables::new(&self.disk)).map_err(reason)
    }

    fn trigger_compaction(&mut self) -> Result<(), CompactionError<String>> {
        self.inner.trigger_compaction(&mut LoggedTables::new(&self.disk))
    }

    fn trigger_flush(&mut self) -> Result<(), String> {
        self.inner.trigger_flush(&mut LoggedTables::new(&self.disk))
    }
}

fn row(k: &str, ts: u64, v: &str) -> Row {
    (k.to_string(), ts, v.to_string())
}

fn table(id: usize, rows: &[Row]) -> Arc<SsTable> {
    let entries = rows
        .iter()
        .map(|(k, ts, v)| {
            Entry::new(Key::new(k.as_bytes().to_vec(), *ts), v.as_bytes().to_vec())
        })
        .collect();
    Arc::new(SsTable::new(id, entries))
}

fn contents(t: &Arc<SsTable>) -> Vec<Row> {
    t.entries()
        .iter()
        .map(|e| {
            (
                String::from_utf8(e.key().key_ref().to_vec()).unwrap(),
                e.key().ts(),
                String::from_utf8(e.value().clone()).unwrap(),
            )
        })
        .collect()
}

fn state(tables: Vec<Arc<SsTable>>, l0: &[usize], levels: &[(usize, &[usize])]) -> LsmStorageState {
    let mut sstables = HashMap::new();
    for t in tables {
        sstables.insert(t.sst_id(), t);
    }
    LsmStorageState {
        l0_sstables: l0.to_vec(),
        levels: levels.iter().map(|(n, ids)| (*n, ids.to_vec())).collect(),
        sstables,
        imm_memtables: Vec::new(),
    }
}

fn store(state: LsmStorageState, watermark: u64, target: usize, controller: Controller) -> Store {
    let inner = LsmStorageInner {
        state,
        compaction_controller: controller,
        mvcc: Some(LsmMvccInner::new(watermark)),
        options: LsmStorageOptions {
            block_size: 4096,
            target_sst_size: target,
            num_memtable_limit: 2,
        },
    };
    Store { inner, disk: LogStore::new(100) }
}

fn simple() -> Controller {
    CompactionController::Simple(Policy { del: Vec::new() })
}

fn leveled(upper_level: Option<usize>, upper: &[usize], lower: &[usize]) -> LeveledCompactionTask {
    LeveledCompactionTask {
        upper_level,
        upper_level_sst_ids: upper.to_vec(),
        lower_level: 2,
        lower_level_sst_ids: lower.to_vec(),
        is_lower_level_bottom_level: false,
    }
}

fn full(l0: &[usize], l1: &[usize]) -> CompactionTask {
    CompactionTask::ForceFullCompaction { l0_sstables: l0.to_vec(), l1_sstables: l1.to_vec() }
}

/// The newest version of a key at a timestamp over some tables, by brute force.
fn read(tables: &[Arc<SsTable>], key: &str, ts: u64) -> Option<String> {
    tables
        .iter()
        .flat_map(contents)
        .filter(|(k, t, _)| k == key && *t <= ts)
        .max_by_key(|(_, t, _)| *t)
        .map(|(_, _, v)| v)
        .filter(|v| !v.is_empty())
}

#[test]
fn decisions_of_the_merge() {
    let prev = Key::new(b"a".to_vec(), 8);
    let same = Key::new(b"a".to_vec(), 5);
    let new = Key::new(b"b".to_vec(), 5);
    // Newer than the watermark: kept, deletions too.
    assert_eq!(merge_decision(Some(&prev), &same, b"", 4, true, 0, 10), (false, true));
    // What is read at the watermark: kept unless it is a deletion.
    assert_eq!(merge_decision(Some(&prev), &same, b"v", 5, true, 0, 10), (false, true));
    assert_eq!(merge_decision(Some(&prev), &same, b"", 5, true, 0, 10), (false, false));
    // Hidden at the watermark.
    assert_eq!(merge_decision(Some(&prev), &same, b"v", 8, true, 0, 10), (false, false));
    // Tables end between user keys only, once they are large enough.
    assert_eq!(merge_decision(Some(&prev), &same, b"v", 5, true, 99, 10), (false, true));
    assert_eq!(merge_decision(Some(&prev), &new, b"v", 5, true, 10, 10), (true, true));
    assert_eq!(merge_decision(Some(&prev), &new, b"v", 5, true, 9, 10), (false, true));
    // Tables do not end before they hold something.
    assert_eq!(merge_decision(Some(&prev), &new, b"v", 5, false, 10, 10), (false, true));
    assert_eq!(merge_decision(None, &new, b"", 5, false, 0, 10), (false, false));
    assert_eq!(merge_decision(None, &new, b"v", 5, false, 0, 0), (false, true));
}

#[test]
fn compaction_drops_what_no_reader_sees() {
    let t = table(
        1,
        &[
            row("a", 9, "a9"),
            row("a", 5, "a5"),
            row("a", 3, "a3"),
            row("b", 4, ""),
            row("b", 2, "b2"),
            row("c", 8, ""),
            row("c", 1, "c1"),
        ],
    );
    let s = store(state(vec![t], &[1], &[(1, &[])]), 5, 1000, simple());
    let out = s.compact(&full(&[1], &[])).unwrap();
    assert_eq!(out.len(), 1);
    assert_eq!(out[0].sst_id(), 100);
    assert_eq!(
        contents(&out[0]),
        vec![row("a", 9, "a9"), row("a", 5, "a5"), row("c", 8, ""), row("c", 1, "c1")]
    );
}

#[test]
fn compaction_keeps_every_read_from_the_watermark_on() {
    let l0a = table(1, &[row("a", 9, "a9"), row("b", 7, ""), row("d", 6, "d6")]);
    let l0b = table(2, &[row("a", 5, "a5"), row("c", 4, ""), row("d", 5, "")]);
    let l1 = table(3, &[row("a", 2, "a2"), row("b", 1, "b1"), row("c", 1, "c1"), row("d", 1, "d1")]);
    let inputs = vec![l0a.clone(), l0b.clone(), l1.clone()];
    let s = store(state(inputs.clone(), &[1, 2], &[(1, &[3])]), 5, 20, simple());
    let out = s.compact(&full(&[1, 2], &[3])).unwrap();
    for key in ["a", "b", "c", "d", "e"] {
        for ts in 5..12 {
            assert_eq!(read(&out, key, ts), read(&inputs, key, ts));
        }
    }
}

#[test]
fn compacting_again_changes_nothing() {
    let t = table(1, &[row("a", 9, "a9"), row("a", 5, "a5"), row("a", 3, "x"), row("b", 4, "")]);
    let s = store(state(vec![t], &[1], &[(1, &[])]), 5, 1000, simple());
    let once = s.compact(&full(&[1], &[])).unwrap();
    let s2 = store(state(once.clone(), &[100], &[(1, &[])]), 5, 1000, simple());
    let twice = s2.compact(&full(&[100], &[])).unwrap();
    assert_eq!(contents(&once[0]), contents(&twice[0]));
}

#[test]
fn compactions_add_up() {
    let t = table(
        1,
        &[row("a", 9, "a9"), row("a", 5, ""), row("a", 3, "a3"), row("b", 6, ""), row("b", 2, "b2")],
    );
    for early in 0..10 {
        for late in early..10 {
            let s = store(state(vec![t.clone()], &[1], &[(1, &[])]), early, 1000, simple());
            let first = s.compact(&full(&[1], &[])).unwrap();
            let ids = table_ids(&first);
            let s = store(state(first, &ids, &[(1, &[])]), late, 1000, simple());
            let second = s.compact(&full(&ids, &[])).unwrap();
            let s = store(state(vec![t.clone()], &[1], &[(1, &[])]), late, 1000, simple());
            let direct = s.compact(&full(&[1], &[])).unwrap();
            let rows = |ts: Vec<Arc<SsTable>>| ts.iter().flat_map(contents).collect::<Vec<Row>>();
            assert_eq!(rows(second), rows(direct));
        }
    }
}

#[test]
fn tables_are_cut_between_user_keys() {
    let t = table(
        1,
        &[
            row("a", 3, "1"),
            row("a", 2, "2"),
            row("a", 1, "3"),
            row("b", 1, "4"),
            row("c", 1, "5"),
            row("d", 1, "6"),
        ],
    );
    let s = store(state(vec![t], &[1], &[(1, &[])]), 0, 20, simple());
    let out = s.compact(&full(&[1], &[])).unwrap();
    assert_eq!(table_ids(&out), vec![100, 101, 102]);
    assert_eq!(contents(&out[0]), vec![row("a", 3, "1"), row("a", 2, "2"), row("a", 1, "3")]);
    assert_eq!(contents(&out[1]), vec![row("b", 1, "4"), row("c", 1, "5")]);
    assert_eq!(contents(&out[2]), vec![row("d", 1, "6")]);
}

#[test]
fn compaction_of_nothing_does_nothing() {
    let s = store(state(vec![table(1, &[])], &[1], &[(1, &[])]), 5, 1000, simple());
    assert!(s.compact(&full(&[1], &[])).unwrap().is_empty());
    assert!(s.disk.log.borrow().is_empty());
    assert_eq!(s.disk.next.get(), 100);
}

#[test]
fn compaction_without_survivors_makes_no_table() {
    let t = table(1, &[row("a", 1, ""), row("b", 2, ""), row("c", 3, "")]);
    for target in [0, 1, 1000] {
        let s = store(state(vec![t.clone()], &[1], &[(1, &[])]), 5, target, simple());
        assert!(s.compact(&full(&[1], &[])).unwrap().is_empty());
        assert!(s.disk.log.borrow().is_empty());
        assert_eq!(s.disk.next.get(), 100);
    }
}

#[test]
fn no_table_is_empty_where_the_last_versions_are_dropped() {
    let t = table(1, &[row("a", 1, "1"), row("b", 1, ""), row("c", 1, ""), row("d", 1, "")]);
    for target in [0, 1, 10, 1000] {
        let s = store(state(vec![t.clone()], &[1], &[(1, &[])]), 5, target, simple());
        let out = s.compact(&full(&[1], &[])).unwrap();
        assert_eq!(out.len(), 1);
        assert_eq!(contents(&out[0]), vec![row("a", 1, "1")]);
    }
}

#[test]
fn a_later_watermark_keeps_less() {
    let t = table(
        1,
        &[row("a", 9, "a9"), row("a", 5, ""), row("a", 3, "a3"), row("b", 4, "b4"), row("b", 2, "")],
    );
    let mut before: Option<Vec<Row>> = None;
    for watermark in 0..12 {
        let s = store(state(vec![t.clone()], &[1], &[(1, &[])]), watermark, 1000, simple());
        let out = s.compact(&full(&[1], &[])).unwrap();
        let kept: Vec<Row> = out.iter().flat_map(contents).collect();
        if let Some(more) = before {
            assert!(kept.iter().all(|r| more.contains(r)));
        }
        before = Some(kept);
    }
    assert_eq!(before, Some(vec![row("a", 9, "a9"), row("b", 4, "b4")]));
}

#[test]
fn compaction_reports_a_failed_write() {
    let t = table(1, &[row("a", 1, "1"), row("b", 1, "2"), row("c", 1, "3")]);
    let s = store(state(vec![t], &[1], &[(1, &[])]), 0, 10, simple());
    *s.disk.fail.borrow_mut() = "write 101".to_string();
    assert_eq!(s.compact(&full(&[1], &[])).unwrap_err(), "write 101");
    assert_eq!(*s.disk.log.borrow(), vec!["write 100".to_string()]);
}

/// A table of which only some rows can be read.
fn broken(id: usize, rows: &[Row], reason: &str) -> Arc<SsTable> {
    let entries = rows
        .iter()
        .map(|(k, ts, v)| {
            Entry::new(Key::new(k.as_bytes().to_vec(), *ts), v.as_bytes().to_vec())
        })
        .collect();
    let failure = ReadError { reason: Arc::new(reason.to_string()) };
    Arc::new(SsTable::with_failure(id, entries, failure))
}

#[test]
fn compaction_reports_a_table_that_cannot_be_read_on() {
    let rows = [row("a", 1, "1"), row("b", 1, "2"), row("c", 1, "3")];
    let t = broken(1, &rows, "torn");
    // With small tables those that are finished before the reading fails are written.
    for (target, written) in [(1000, 0), (10, 2)] {
        let mut s = store(state(vec![t.clone()], &[1], &[(1, &[])]), 0, target, simple());
        assert_eq!(s.compact(&full(&[1], &[])).unwrap_err(), "read torn");
        assert_eq!(s.disk.log.borrow().len(), written);
        match s.trigger_compaction() {
            Err(CompactionError::Read(e)) => assert_eq!(*e.reason, "torn"),
            _ => panic!("expected an error"),
        }
        assert_eq!(s.inner.state.l0_sstables, vec![1]);
        assert!(s.disk.log.borrow().iter().all(|x| x.starts_with("write")));
    }
}

#[test]
fn compaction_of_tables_that_cannot_be_started_does_nothing() {
    let good = table(1, &[row("a", 1, "1")]);
    let l0 = broken(2, &[], "l0");
    let l1 = broken(3, &[], "l1");
    let st = || state(vec![good.clone(), l0.clone(), l1.clone()], &[1, 2], &[(1, &[3])]);
    let s = store(st(), 0, 1000, simple());
    assert_eq!(s.compact(&full(&[1, 2], &[3])).unwrap_err(), "read l0");
    assert_eq!(s.compact(&full(&[1], &[3])).unwrap_err(), "read l1");
    let task = CompactionTask::Leveled(leveled(Some(1), &[3], &[2]));
    assert_eq!(s.compact(&task).unwrap_err(), "read l1");
    let task = CompactionTask::Tiered(TieredCompactionTask {
        tiers: vec![(1, vec![1]), (2, vec![2]), (3, vec![3])],
        bottom_tier_included: true,
    });
    assert_eq!(s.compact(&task).unwrap_err(), "read l0");
    assert!(s.disk.log.borrow().is_empty());
    assert_eq!(s.disk.next.get(), 100);
    let mut s = store(st(), 0, 1000, simple());
    assert_eq!(s.force_full_compaction().unwrap_err(), "read l0");
    assert_eq!(s.inner.state.l0_sstables, vec![1, 2]);
}

#[test]
fn a_round_can_be_gone_through_step_by_step() {
    let a = table(1, &[row("a", 2, "a2")]);
    let mut s = store(state(vec![a], &[1], &[(1, &[])]), 9, 1000, simple());
    let task = s.inner.compaction_controller.generate_compaction_task(&s.inner.state).unwrap();
    let output = s.compact(&task).unwrap();
    let reply = s.inner.arrange_output(&task, &output);
    assert!(reply.0.sstables.contains_key(&100));
    assert_eq!(reply.1, vec![1]);
    let gone = s.inner.install_reply::<String>(reply).unwrap();
    assert_eq!(table_ids(&gone), vec![1]);
    assert_eq!(s.inner.state.levels, vec![(1, vec![100])]);
    assert!(remove_files(&mut LoggedTables::new(&s.disk), &gone).is_ok());
    let log = s.disk.log.borrow();
    assert_eq!(*log, vec!["write 100".to_string(), "remove 1".to_string(), "sync".to_string()]);
}

#[test]
fn newer_tables_of_level_0_take_precedence() {
    let newer = table(1, &[row("k", 1, "newer")]);
    let older = table(2, &[row("k", 1, "older")]);
    let l1 = table(3, &[row("k", 1, "oldest")]);
    let s = store(state(vec![newer, older, l1], &[1, 2], &[(1, &[3])]), 0, 100, simple());
    let out = s.inner.merge_l0_l1(&mut LoggedTables::new(&s.disk), &[1, 2], &[3]).unwrap();
    assert_eq!(contents(&out[0]), vec![row("k", 1, "newer")]);
    let out = s.inner.merge_levels(&mut LoggedTables::new(&s.disk), &[2], &[3]).unwrap();
    assert_eq!(contents(&out[0]), vec![row("k", 1, "older")]);
}

#[test]
fn ids_of_each_kind_of_task() {
    let s = store(state(Vec::new(), &[], &[]), 0, 10, simple());
    let task = full(&[1], &[2]);
    assert_eq!(s.inner.l0_l1_ids(&task), Some((&vec![1], &vec![2])));
    assert_eq!(s.inner.level_ids(&task), None);
    let task = CompactionTask::Leveled(leveled(None, &[3], &[4]));
    assert_eq!(s.inner.l0_l1_ids(&task), Some((&vec![3], &vec![4])));
    assert_eq!(s.inner.level_ids(&task), None);
    let task = CompactionTask::Leveled(leveled(Some(1), &[3], &[4]));
    assert_eq!(s.inner.l0_l1_ids(&task), None);
    assert_eq!(s.inner.level_ids(&task), Some((&vec![3], &vec![4])));
    let task = CompactionTask::Tiered(TieredCompactionTask {
        tiers: Vec::new(),
        bottom_tier_included: true,
    });
    assert_eq!(s.inner.l0_l1_ids(&task), None);
    assert_eq!(s.inner.level_ids(&task), None);
}

#[test]
fn tiers_are_merged_newest_first() {
    let a = table(1, &[row("a", 1, "new")]);
    let b = table(2, &[row("b", 1, "new")]);
    let c = table(3, &[row("a", 1, "old"), row("c", 1, "old")]);
    let s = store(state(vec![a, b, c], &[], &[]), 0, 1000, simple());
    let task = CompactionTask::Tiered(TieredCompactionTask {
        tiers: vec![(9, vec![1, 2]), (3, vec![3])],
        bottom_tier_included: true,
    });
    let out = s.compact(&task).unwrap();
    assert_eq!(
        contents(&out[0]),
        vec![row("a", 1, "new"), row("b", 1, "new"), row("c", 1, "old")]
    );
    assert!(task.compact_to_bottom_level());
}

#[test]
fn bottom_level_of_each_kind_of_task() {
    assert!(full(&[], &[]).compact_to_bottom_level());
    assert!(!CompactionTask::Leveled(leveled(None, &[], &[])).compact_to_bottom_level());
    let simple_task = SimpleLeveledPolicy::generate_compaction_task(
        &Policy { del: Vec::new() },
        &state(Vec::new(), &[1], &[(1, &[])]),
    );
    assert!(CompactionTask::Simple(simple_task.unwrap()).compact_to_bottom_level());
}

#[test]
fn full_compaction_replaces_level_1() {
    let a = table(1, &[row("a", 2, "a2")]);
    let b = table(2, &[row("a", 1, "a1"), row("b", 1, "b1")]);
    let c = table(3, &[row("c", 1, "c1")]);
    let mut s = store(state(vec![a, b, c], &[1], &[(1, &[2]), (2, &[3])]), 9, 1000, simple());
    assert!(s.force_full_compaction().is_ok());
    assert!(s.inner.state.l0_sstables.is_empty());
    assert_eq!(s.inner.state.levels, vec![(1, vec![100]), (2, vec![3])]);
    let mut ids: Vec<usize> = s.inner.state.sstables.keys().copied().collect();
    ids.sort();
    // Every table that is left is arranged once, under its own identifier.
    assert_eq!(ids, vec![3, 100]);
    assert!(s.inner.state.sstables.iter().all(|(id, t)| t.sst_id() == *id));
    assert_eq!(contents(&s.inner.state.sstables[&100]), vec![row("a", 2, "a2"), row("b", 1, "b1")]);
}

#[test]
fn full_compaction_that_fails_changes_nothing() {
    let a = table(1, &[row("a", 2, "a2")]);
    let mut s = store(state(vec![a], &[1], &[(1, &[])]), 9, 1000, simple());
    *s.disk.fail.borrow_mut() = "write 100".to_string();
    assert_eq!(s.force_full_compaction().unwrap_err(), "write 100");
    assert_eq!(s.inner.state.l0_sstables, vec![1]);
    assert!(s.inner.state.sstables.contains_key(&1));
}

#[test]
fn full_compaction_keeps_tables_that_came_later() {
    let now = state(
        vec![table(1, &[]), table(2, &[]), table(5, &[])],
        &[5, 1],
        &[(1, &[2])],
    );
    let made = vec![table(8, &[row("a", 1, "x")])];
    let next = full_compaction_state(&now, &[1], &[2], &made);
    assert_eq!(next.l0_sstables, vec![5]);
    assert_eq!(next.levels, vec![(1, vec![8])]);
    let mut ids: Vec<usize> = next.sstables.keys().copied().collect();
    ids.sort();
    assert_eq!(ids, vec![5, 8]);
}

#[test]
fn del_tables_takes_tables_out() {
    let mut st = state(vec![table(1, &[]), table(2, &[]), table(3, &[])], &[], &[]);
    let gone = Inner::del_tables::<String>(vec![3, 1], &mut st).unwrap();
    assert_eq!(table_ids(&gone), vec![3, 1]);
    assert_eq!(st.sstables.keys().copied().collect::<Vec<usize>>(), vec![2]);
}

#[test]
fn trigger_compaction_runs_a_round() {
    let a = table(1, &[row("a", 2, "a2")]);
    let b = table(2, &[row("a", 1, "a1")]);
    let mut s = store(state(vec![a, b], &[1], &[(1, &[2])]), 9, 1000, simple());
    assert!(s.trigger_compaction().is_ok());
    assert!(s.inner.state.l0_sstables.is_empty());
    assert_eq!(s.inner.state.levels, vec![(1, vec![100])]);
    assert_eq!(s.inner.state.sstables.keys().copied().collect::<Vec<usize>>(), vec![100]);
    let log: Vec<String> = ["write 100", "record [100]", "remove 1", "remove 2", "sync"]
        .iter()
        .map(|x| x.to_string())
        .collect();
    assert_eq!(*s.disk.log.borrow(), log);
    // With nothing to compact, a round does nothing.
    assert!(s.trigger_compaction().is_ok());
    assert_eq!(s.disk.log.borrow().len(), 5);
    assert_eq!(s.disk.next.get(), 101);
}

#[test]
fn trigger_compaction_stops_at_the_first_failure() {
    for (fail, logged) in [("write 100", 0usize), ("record [100]", 1), ("remove 2", 3), ("sync", 4)] {
        let a = table(1, &[row("a", 2, "a2")]);
        let b = table(2, &[row("a", 1, "a1")]);
        let mut s = store(state(vec![a, b], &[1], &[(1, &[2])]), 9, 1000, simple());
        *s.disk.fail.borrow_mut() = fail.to_string();
        match s.trigger_compaction() {
            Err(CompactionError::Storage(e)) => assert_eq!(e, fail),
            _ => panic!("expected an error"),
        }
        assert_eq!(s.disk.log.borrow().len(), logged);
        let removed = s.disk.log.borrow().iter().filter(|x| x.starts_with("remove")).count();
        assert_eq!(removed, logged.saturating_sub(2));
        assert_eq!(s.inner.state.l0_sstables.is_empty(), logged > 0);
    }
}

#[test]
fn policies_that_name_unknown_tables_change_nothing() {
    let a = table(1, &[row("a", 2, "a2")]);
    let mut s = store(state(vec![a.clone()], &[1, 7], &[(1, &[])]), 9, 1000, simple());
    assert!(matches!(s.trigger_compaction(), Err(CompactionError::UnknownTable)));
    assert!(s.disk.log.borrow().is_empty());
    for extra in [7, 1] {
        let controller = CompactionController::Simple(Policy { del: vec![extra] });
        let mut s = store(state(vec![a.clone()], &[1], &[(1, &[])]), 9, 1000, controller);
        assert!(matches!(s.trigger_compaction(), Err(CompactionError::UnknownTable)));
        assert_eq!(s.inner.state.l0_sstables, vec![1]);
        assert!(s.inner.state.sstables.contains_key(&1));
    }
}

#[test]
fn controllers_dispatch_to_their_policy() {
    let st = state(vec![table(1, &[]), table(2, &[])], &[1], &[(1, &[2])]);
    let c: Controller = CompactionController::Leveled(Policy { del: Vec::new() });
    let task = c.generate_compaction_task(&st).unwrap();
    assert!(matches!(&task, CompactionTask::Leveled(t) if t.upper_level == Some(1)));
    assert_eq!(c.apply_compaction_result(&st, &task, &[4], false).1, vec![4]);
    assert!(c.apply_compaction_result(&st, &task, &[4], true).1.is_empty());
    let c: Controller = CompactionController::Tiered(Policy { del: Vec::new() });
    assert!(c.generate_compaction_task(&st).is_none());
    let task = CompactionTask::Tiered(TieredCompactionTask {
        tiers: Vec::new(),
        bottom_tier_included: false,
    });
    assert_eq!(c.apply_compaction_result(&st, &task, &[], false).1, vec![7]);
    assert_eq!(c.apply_compaction_result(&st, &task, &[], true).1, vec![7]);
    assert!(!c.flush_to_l0());
    assert!(simple().flush_to_l0());
    let none: Controller = CompactionController::NoCompaction;
    assert!(none.flush_to_l0());
}

#[test]
fn only_compacting_stores_compact_in_the_background() {
    type Options = CompactionOptions<u8, u8, u8>;
    assert!(Options::Leveled(1).compacts_in_background());
    assert!(Options::Tiered(1).compacts_in_background());
    assert!(Options::Simple(1).compacts_in_background());
    assert!(!Options::NoCompaction.compacts_in_background());
    assert!(matches!(Options::Tiered(7).clone(), Options::Tiered(7)));
    assert!(matches!(Options::NoCompaction.clone(), Options::NoCompaction));
}

#[test]
fn trigger_flush_waits_for_the_limit() {
    let mut st = state(Vec::new(), &[], &[]);
    st.imm_memtables = vec![5];
    let mut s = store(st, 0, 10, simple());
    assert!(s.trigger_flush().is_ok());
    assert!(s.disk.log.borrow().is_empty());
    assert_eq!(s.inner.state.imm_memtables, vec![5]);
    s.inner.state.imm_memtables = vec![6, 5];
    assert!(s.trigger_flush().is_ok());
    assert_eq!(s.inner.state.imm_memtables, vec![6]);
    assert_eq!(*s.disk.log.borrow(), vec!["flush".to_string()]);
    assert_eq!(s.inner.state.l0_sstables, vec![5]);
    s.inner.state.imm_memtables = vec![7, 6];
    *s.disk.fail.borrow_mut() = "flush".to_string();
    assert_eq!(s.trigger_flush().unwrap_err(), "flush");
    assert_eq!(s.inner.state.imm_memtables, vec![7, 6]);
}

#[test]
fn finished_tables_go_behind_the_others() {
    let s = store(state(Vec::new(), &[], &[]), 0, 10, simple());
    let mut done = vec![table(1, &[])];
    let mut builder = SsTableBuilder::new(1);
    builder.add(&Key::new(b"k".to_vec(), 1), b"v");
    let next = s.inner.finalize_builder(&mut LoggedTables::new(&s.disk), builder, &mut done).unwrap();
    assert!(next.entries().is_empty());
    assert_eq!(next.block_size(), 4096);
    assert_eq!(table_ids(&done), vec![1, 100]);
    assert_eq!(contents(&done[1]), vec![row("k", 1, "v")]);
}

#[test]
fn a_transaction_in_progress_reads_the_same_after_a_compaction() {
    let l0 = table(1, &[row("a", 8, "a8"), row("a", 4, "a4"), row("b", 7, "")]);
    let l1 = table(2, &[row("a", 1, "a1"), row("b", 2, "b2")]);
    let inputs = vec![l0, l1];
    let mut s = store(state(inputs.clone(), &[1], &[(1, &[2])]), 5, 1000, simple());
    let txn = s.inner.mvcc.as_mut().unwrap().new_txn();
    s.inner.mvcc.as_mut().unwrap().update_commit_ts(9);
    let out = s.compact(&full(&[1], &[2])).unwrap();
    assert_eq!(read(&out, "a", txn.read_ts()), Some("a4".to_string()));
    assert_eq!(read(&out, "b", txn.read_ts()), Some("b2".to_string()));
    assert_eq!(read(&out, "b", 9), None);
    assert_eq!(read(&inputs, "b", 9), None);
}

#[test]
fn a_dropped_deletion_no_longer_hides_a_deeper_level() {
    let l0 = table(1, &[row("a", 4, ""), row("b", 4, "b4")]);
    let deeper = table(3, &[row("a", 1, "a1"), row("b", 1, "b1")]);
    let s = store(state(vec![l0.clone(), deeper.clone()], &[1], &[(1, &[]), (2, &[3])]), 5, 99, simple());
    let mut after = s.compact(&full(&[1], &[])).unwrap();
    after.push(deeper.clone());
    let before = vec![l0, deeper];
    assert_eq!(read(&before, "b", 6), read(&after, "b", 6));
    assert_eq!(read(&before, "a", 6), None);
    assert_eq!(read(&after, "a", 6), Some("a1".to_string()));
}

#[test]
fn deleting_new_tables_undoes_inserting_them() {
    let mut s = store(
        state(vec![table(1, &[row("k", 1, "v")])], &[1], &[(1, &[])]),
        0,
        1000,
        CompactionController::Leveled(Policy { del: Vec::new() }),
    );
    let task = CompactionTask::Leveled(leveled(Some(1), &[1], &[]));
    let out = s.compact(&task).unwrap();
    // This policy gives up exactly the tables that were just made.
    assert!(s.inner.install_compaction(&mut LoggedTables::new(&s.disk), &task, &out).is_ok());
    assert_eq!(s.inner.state.sstables.keys().copied().collect::<Vec<usize>>(), vec![1]);
    assert_eq!(s.inner.state.l0_sstables, vec![1]);
}
