//! The state of the store, and what the library asks of the storage underneath.
use crate::compact::CompactionTask;
use crate::iterators::{Item, Run};
#[allow(unused_imports)]
use crate::key::{KeyView, TS_DEFAULT};
use crate::mvcc::LsmMvccInner;
#[allow(unused_imports)]
use crate::skip_map::pair_items;
use crate::skip_map::{BoundView, KeyBound};
use crate::table::{SsTable, SsTableBuilder};
use std::collections::HashMap;
use std::sync::Arc;
use vstd::prelude::*;

verus! {

/// One write of a batch.
#[derive(Debug)]
pub enum WriteBatchRecord {
    /// Stores a value under a user key; an empty value deletes the key.
    Put(Vec<u8>, Vec<u8>),
}

/// The writes of a batch as items of a run.
pub open spec fn record_items(records: Seq<WriteBatchRecord>) -> Seq<Item> {
    records.map_values(
        |record: WriteBatchRecord|
            match record {
                WriteBatchRecord::Put(key, value) => Item {
                    key: KeyView { user: key@, ts: TS_DEFAULT },
                    value: value@,
                },
            },
    )
}

/// What can be read of a range of user keys: pairs in order, and the error that stops the reading
/// behind them, if the range is not read to its end.
#[derive(Debug)]
pub struct StoredRange<E> {
    pub pairs: Vec<(Vec<u8>, Vec<u8>)>,
    pub failure: Option<E>,
}

impl<E> StoredRange<E> {
    /// The range as a run.
    pub open spec fn run(&self) -> Run<E> {
        Run { items: pair_items(self.pairs@), end: self.failure }
    }
}

/// What transactions ask of the storage underneath.
pub trait TxnStorage {
    /// Why a request failed.
    type Error;

    /// The newest value under `key` that was written at `read_ts` or before.
    fn get_with_ts(&self, key: &[u8], read_ts: u64) -> Result<Option<Vec<u8>>, Self::Error>;

    /// The pairs within a range of user keys, in order, as of `read_ts`, as far as they can be
    /// read.
    fn scan_with_ts(&self, lower: KeyBound, upper: KeyBound, read_ts: u64) -> Result<
        StoredRange<Self::Error>,
        Self::Error,
    >;

    /// Writes a batch at a timestamp after `latest`, and tells the timestamp.
    fn write_batch_inner(&self, latest: u64, records: &Vec<WriteBatchRecord>) -> Result<
        u64,
        Self::Error,
    >;
}

/// What compaction and flushing ask of the storage underneath.
pub trait TableStore {
    /// Why a request failed.
    type Error;

    /// An identifier for a new table.
    fn next_sst_id(&self) -> usize;

    /// How large the data is that a builder has encoded so far.
    fn estimated_size(&self, builder: &SsTableBuilder) -> usize;

    /// Makes a table durable.
    fn write_sst(&self, table: &SsTable) -> Result<(), Self::Error>;

    /// Records a compaction and the tables that it made.
    fn add_compaction_record(&self, task: &CompactionTask, output: &Vec<usize>) -> Result<
        (),
        Self::Error,
    >;

    /// Removes a table's file.
    fn remove_sst_file(&self, sst_id: usize) -> Result<(), Self::Error>;

    /// Makes the removal and creation of files durable.
    fn sync_dir(&self) -> Result<(), Self::Error>;

    /// Flushes the oldest memtable that waits for it, and tells the state that results.
    fn force_flush_next_imm_memtable(&self, state: &LsmStorageState) -> Result<
        LsmStorageState,
        Self::Error,
    >;
}

/// What was done to the tables underneath, with the answer where there was one.
#[verifier::ext_equal]
pub enum TableAction<E> {
    /// An identifier was drawn.
    DrewId(usize),
    /// A table was handed over to be made durable.
    Wrote(SsTable, Result<(), E>),
    /// A compaction was recorded, with the tables that it made.
    Recorded(CompactionTask, Seq<usize>, Result<(), E>),
    /// A table's file was removed.
    RemovedFile(usize, Result<(), E>),
    /// The directory was synced.
    Synced(Result<(), E>),
    /// The oldest memtable of a state was flushed.
    Flushed(LsmStorageState, Result<LsmStorageState, E>),
}

/// Whether a store may have answered as an action says.
pub open spec fn table_answer<S: TableStore>(store: S, action: TableAction<S::Error>) -> bool {
    match action {
        TableAction::DrewId(id) => call_ensures(S::next_sst_id, (&store,), id),
        TableAction::Wrote(table, r) => call_ensures(S::write_sst, (&store, &table), r),
        TableAction::Recorded(task, ids, r) => exists|output: Vec<usize>|
            output@ == ids && #[trigger] call_ensures(
                S::add_compaction_record,
                (&store, &task, &output),
                r,
            ),
        TableAction::RemovedFile(id, r) => call_ensures(S::remove_sst_file, (&store, id), r),
        TableAction::Synced(r) => call_ensures(S::sync_dir, (&store,), r),
        TableAction::Flushed(state, r) => call_ensures(
            S::force_flush_next_imm_memtable,
            (&store, &state),
            r,
        ),
    }
}

/// The tables underneath, with a log of everything that was done to them. They can be reached
/// only through the log.
pub struct LoggedTables<S: TableStore> {
    store: S,
    log: Ghost<Seq<TableAction<S::Error>>>,
}

/// Whether exactly `actions` were done between two points in time, in this order, and answered as
/// they say.
pub open spec fn did<S: TableStore>(
    before: LoggedTables<S>,
    after: LoggedTables<S>,
    actions: Seq<TableAction<S::Error>>,
) -> bool {
    &&& after.store() == before.store()
    &&& after.log() == before.log() + actions
    &&& forall|i: int|
        0 <= i < actions.len() ==> table_answer(before.store(), #[trigger] actions[i])
}

/// What was done up to some point and what was done after it.
pub proof fn lemma_did_both<S: TableStore>(
    before: LoggedTables<S>,
    between: LoggedTables<S>,
    after: LoggedTables<S>,
    first: Seq<TableAction<S::Error>>,
    second: Seq<TableAction<S::Error>>,
)
    requires
        did(before, between, first),
        did(between, after, second),
    ensures
        did(before, after, first + second),
{
    let both = first + second;
    assert(after.log() =~= before.log() + both);
    assert forall|i: int| 0 <= i < both.len() implies table_answer(
        before.store(),
        #[trigger] both[i],
    ) by {
        if i < first.len() {
            assert(both[i] == first[i]);
        } else {
            assert(both[i] == second[i - first.len()]);
        }
    }
}

/// What the log says was done was done, in that order and behind what was done before, and each
/// answer that it holds is one that the store may have given to that very request.
pub proof fn law_tables_log_is_true<S: TableStore>(
    before: LoggedTables<S>,
    after: LoggedTables<S>,
    actions: Seq<TableAction<S::Error>>,
    i: int,
)
    requires
        did(before, after, actions),
        0 <= i < actions.len(),
    ensures
        after.store() == before.store(),
        after.log().len() == before.log().len() + actions.len(),
        after.log()[before.log().len() + i] == actions[i],
        forall|k: int|
            0 <= k < before.log().len() ==> #[trigger] after.log()[k] == before.log()[k],
        actions[i] matches TableAction::DrewId(id) ==> call_ensures(
            S::next_sst_id,
            (&before.store(),),
            id,
        ),
        actions[i] matches TableAction::Wrote(table, r) ==> call_ensures(
            S::write_sst,
            (&before.store(), &table),
            r,
        ),
        actions[i] matches TableAction::Recorded(task, ids, r) ==> exists|output: Vec<usize>|
            output@ == ids && #[trigger] call_ensures(
                S::add_compaction_record,
                (&before.store(), &task, &output),
                r,
            ),
        actions[i] matches TableAction::RemovedFile(id, r) ==> call_ensures(
            S::remove_sst_file,
            (&before.store(), id),
            r,
        ),
        actions[i] matches TableAction::Synced(r) ==> call_ensures(
            S::sync_dir,
            (&before.store(),),
            r,
        ),
        actions[i] matches TableAction::Flushed(state, r) ==> call_ensures(
            S::force_flush_next_imm_memtable,
            (&before.store(), &state),
            r,
        ),
{
    assert(table_answer(before.store(), actions[i]));
}

impl<S: TableStore> LoggedTables<S> {
    /// The tables underneath.
    pub closed spec fn store(&self) -> S {
        self.store
    }

    /// What was done to them.
    pub closed spec fn log(&self) -> Seq<TableAction<S::Error>> {
        self.log@
    }

    /// Tables to which nothing has been done yet.
    pub fn new(store: S) -> (r: Self)
        ensures
            r.store() == store,
            r.log() == Seq::<TableAction<S::Error>>::empty(),
    {
        LoggedTables { store, log: Ghost(Seq::empty()) }
    }

    /// Draws an identifier for a new table.
    pub fn next_sst_id(&mut self) -> (r: usize)
        ensures
            did(*old(self), *final(self), seq![TableAction::DrewId(r)]),
    {
        let r: usize = self.store.next_sst_id();
        self.log = Ghost(self.log@.push(TableAction::DrewId(r)));
        assert(self.log() =~= old(self).log() + seq![TableAction::DrewId(r)]);
        r
    }

    /// Asks how large the data is that a builder has encoded so far. This does nothing to the
    /// tables.
    pub fn estimated_size(&self, builder: &SsTableBuilder) -> (r: usize)
        ensures
            call_ensures(S::estimated_size, (&self.store(), builder), r),
    {
        self.store.estimated_size(builder)
    }

    /// Makes a table durable.
    pub fn write_sst(&mut self, table: &SsTable) -> (r: Result<(), S::Error>)
        ensures
            did(*old(self), *final(self), seq![TableAction::Wrote(*table, r)]),
    {
        let r = self.store.write_sst(table);
        self.log = Ghost(self.log@.push(TableAction::Wrote(*table, r)));
        assert(self.log() =~= old(self).log() + seq![TableAction::Wrote(*table, r)]);
        r
    }

    /// Records a compaction and the tables that it made.
    pub fn add_compaction_record(
        &mut self,
        task: &CompactionTask,
        output: &Vec<usize>,
    ) -> (r: Result<(), S::Error>)
        ensures
            did(*old(self), *final(self), seq![TableAction::Recorded(*task, output@, r)]),
    {
        let r = self.store.add_compaction_record(task, output);
        self.log = Ghost(self.log@.push(TableAction::Recorded(*task, output@, r)));
        assert(self.log() =~= old(self).log() + seq![TableAction::Recorded(*task, output@, r)]);
        r
    }

    /// Removes a table's file.
    pub fn remove_sst_file(&mut self, sst_id: usize) -> (r: Result<(), S::Error>)
        ensures
            did(*old(self), *final(self), seq![TableAction::RemovedFile(sst_id, r)]),
    {
        let r = self.store.remove_sst_file(sst_id);
        self.log = Ghost(self.log@.push(TableAction::RemovedFile(sst_id, r)));
        assert(self.log() =~= old(self).log() + seq![TableAction::RemovedFile(sst_id, r)]);
        r
    }

    /// Makes the removal and creation of files durable.
    pub fn sync_dir(&mut self) -> (r: Result<(), S::Error>)
        ensures
            did(*old(self), *final(self), seq![TableAction::Synced(r)]),
    {
        let r = self.store.sync_dir();
        self.log = Ghost(self.log@.push(TableAction::Synced(r)));
        assert(self.log() =~= old(self).log() + seq![TableAction::Synced(r)]);
        r
    }

    /// Flushes the oldest memtable that waits for it.
    pub fn force_flush_next_imm_memtable(&mut self, state: &LsmStorageState) -> (r: Result<
        LsmStorageState,
        S::Error,
    >)
        ensures
            did(*old(self), *final(self), seq![TableAction::Flushed(*state, r)]),
    {
        let r = self.store.force_flush_next_imm_memtable(state);
        self.log = Ghost(self.log@.push(TableAction::Flushed(*state, r)));
        assert(self.log() =~= old(self).log() + seq![TableAction::Flushed(*state, r)]);
        r
    }
}

/// What was asked of the storage under transactions, with the answer.
#[verifier::ext_equal]
pub enum StorageAction<E> {
    /// The value under a key was read as of a timestamp.
    Got(Seq<u8>, u64, Result<Option<Vec<u8>>, E>),
    /// A range of keys was read as of a timestamp.
    Scanned(BoundView, BoundView, u64, Result<StoredRange<E>, E>),
    /// A batch was handed over to be written after the newest timestamp.
    Wrote(u64, Seq<Item>, Result<u64, E>),
}

/// Whether a storage may have answered as an action says.
pub open spec fn storage_answer<S: TxnStorage>(
    storage: S,
    action: StorageAction<S::Error>,
) -> bool {
    match action {
        StorageAction::Got(key, read_ts, r) => exists|k: &[u8]|
            k@ == key && #[trigger] call_ensures(S::get_with_ts, (&storage, k, read_ts), r),
        StorageAction::Scanned(lower, upper, read_ts, r) => exists|l: KeyBound, u: KeyBound|
            l@ == lower && u@ == upper && #[trigger] call_ensures(
                S::scan_with_ts,
                (&storage, l, u, read_ts),
                r,
            ),
        StorageAction::Wrote(latest, batch, r) => exists|records: Vec<WriteBatchRecord>|
            record_items(records@) == batch && #[trigger] call_ensures(
                S::write_batch_inner,
                (&storage, latest, &records),
                r,
            ),
    }
}

/// The storage under transactions, with a log of everything that was asked of it. It can be
/// reached only through the log.
pub struct LoggedStorage<S: TxnStorage> {
    storage: S,
    log: Ghost<Seq<StorageAction<S::Error>>>,
}

/// Whether exactly `actions` were asked between two points in time, in this order, and answered as
/// they say.
pub open spec fn asked<S: TxnStorage>(
    before: LoggedStorage<S>,
    after: LoggedStorage<S>,
    actions: Seq<StorageAction<S::Error>>,
) -> bool {
    &&& after.storage() == before.storage()
    &&& after.log() == before.log() + actions
    &&& forall|i: int|
        0 <= i < actions.len() ==> storage_answer(before.storage(), #[trigger] actions[i])
}

/// What was asked up to some point and what was asked after it.
pub proof fn lemma_asked_both<S: TxnStorage>(
    before: LoggedStorage<S>,
    between: LoggedStorage<S>,
    after: LoggedStorage<S>,
    first: Seq<StorageAction<S::Error>>,
    second: Seq<StorageAction<S::Error>>,
)
    requires
        asked(before, between, first),
        asked(between, after, second),
    ensures
        asked(before, after, first + second),
{
    let both = first + second;
    assert(after.log() =~= before.log() + both);
    assert forall|i: int| 0 <= i < both.len() implies storage_answer(
        before.storage(),
        #[trigger] both[i],
    ) by {
        if i < first.len() {
            assert(both[i] == first[i]);
        } else {
            assert(both[i] == second[i - first.len()]);
        }
    }
}

/// What the log says was asked was asked, in that order and behind what was asked before, and each
/// answer that it holds is one that the storage may have given to that very request.
pub proof fn law_storage_log_is_true<S: TxnStorage>(
    before: LoggedStorage<S>,
    after: LoggedStorage<S>,
    actions: Seq<StorageAction<S::Error>>,
    i: int,
)
    requires
        asked(before, after, actions),
        0 <= i < actions.len(),
    ensures
        after.storage() == before.storage(),
        after.log().len() == before.log().len() + actions.len(),
        after.log()[before.log().len() + i] == actions[i],
        forall|k: int|
            0 <= k < before.log().len() ==> #[trigger] after.log()[k] == before.log()[k],
        actions[i] matches StorageAction::Got(key, read_ts, r) ==> exists|k: &[u8]|
            k@ == key && #[trigger] call_ensures(
                S::get_with_ts,
                (&before.storage(), k, read_ts),
                r,
            ),
        actions[i] matches StorageAction::Scanned(lower, upper, read_ts, r) ==> exists|
            l: KeyBound,
            u: KeyBound,
        |
            l@ == lower && u@ == upper && #[trigger] call_ensures(
                S::scan_with_ts,
                (&before.storage(), l, u, read_ts),
                r,
            ),
        actions[i] matches StorageAction::Wrote(latest, batch, r) ==> exists|
            records: Vec<WriteBatchRecord>,
        |
            record_items(records@) == batch && #[trigger] call_ensures(
                S::write_batch_inner,
                (&before.storage(), latest, &records),
                r,
            ),
{
    assert(storage_answer(before.storage(), actions[i]));
}

impl<S: TxnStorage> LoggedStorage<S> {
    /// The storage underneath.
    pub closed spec fn storage(&self) -> S {
        self.storage
    }

    /// What was asked of it.
    pub closed spec fn log(&self) -> Seq<StorageAction<S::Error>> {
        self.log@
    }

    /// A storage of which nothing has been asked yet.
    pub fn new(storage: S) -> (r: Self)
        ensures
            r.storage() == storage,
            r.log() == Seq::<StorageAction<S::Error>>::empty(),
    {
        LoggedStorage { storage, log: Ghost(Seq::empty()) }
    }

    /// Reads the newest value under `key` that was written at `read_ts` or before.
    pub fn get_with_ts(&mut self, key: &[u8], read_ts: u64) -> (r: Result<
        Option<Vec<u8>>,
        S::Error,
    >)
        ensures
            asked(*old(self), *final(self), seq![StorageAction::Got(key@, read_ts, r)]),
    {
        let r = self.storage.get_with_ts(key, read_ts);
        let ghost answer = r;
        assert(call_ensures(S::get_with_ts, (&self.storage, key, read_ts), answer));
        self.log = Ghost(self.log@.push(StorageAction::Got(key@, read_ts, r)));
        assert(self.log() =~= old(self).log() + seq![StorageAction::Got(key@, read_ts, r)]);
        r
    }

    /// Reads the pairs within a range of user keys, in order, as of `read_ts`.
    pub fn scan_with_ts(&mut self, lower: KeyBound, upper: KeyBound, read_ts: u64) -> (r: Result<
        StoredRange<S::Error>,
        S::Error,
    >)
        ensures
            asked(
                *old(self),
                *final(self),
                seq![StorageAction::Scanned(lower@, upper@, read_ts, r)],
            ),
    {
        let r = self.storage.scan_with_ts(lower, upper, read_ts);
        let ghost answer = r;
        assert(call_ensures(S::scan_with_ts, (&self.storage, lower, upper, read_ts), answer));
        let ghost action = StorageAction::Scanned(lower@, upper@, read_ts, answer);
        self.log = Ghost(self.log@.push(action));
        assert(self.log() =~= old(self).log() + seq![action]);
        r
    }

    /// Hands a batch over to be written at a timestamp after `latest`.
    pub fn write_batch_inner(&mut self, latest: u64, records: &Vec<WriteBatchRecord>) -> (r: Result<
        u64,
        S::Error,
    >)
        ensures
            asked(
                *old(self),
                *final(self),
                seq![StorageAction::Wrote(latest, record_items(records@), r)],
            ),
    {
        let r = self.storage.write_batch_inner(latest, records);
        let ghost answer = r;
        assert(call_ensures(S::write_batch_inner, (&self.storage, latest, records), answer));
        let ghost action = StorageAction::Wrote(latest, record_items(records@), answer);
        self.log = Ghost(self.log@.push(action));
        assert(self.log() =~= old(self).log() + seq![action]);
        r
    }
}

/// The state of the store.
#[verifier::ext_equal]
pub struct StateView {
    pub l0_sstables: Seq<usize>,
    pub levels: Seq<(usize, Seq<usize>)>,
    pub sstables: Map<usize, Arc<SsTable>>,
    pub imm_memtables: Seq<usize>,
}

/// The state of the store: which tables there are, and how they are arranged.
pub struct LsmStorageState {
    /// The identifiers of the tables of level 0, the newest first.
    pub l0_sstables: Vec<usize>,
    /// Each further level, or each tier, under its number: the identifiers of its tables, by
    /// increasing keys.
    pub levels: Vec<(usize, Vec<usize>)>,
    /// The tables by identifier.
    pub sstables: HashMap<usize, Arc<SsTable>>,
    /// The identifiers of the memtables that wait to be flushed, the newest first.
    pub imm_memtables: Vec<usize>,
}

/// Levels as values of the specification.
pub open spec fn level_views(levels: Seq<(usize, Vec<usize>)>) -> Seq<(usize, Seq<usize>)> {
    levels.map_values(|level: (usize, Vec<usize>)| (level.0, level.1@))
}

impl View for LsmStorageState {
    type V = StateView;

    open spec fn view(&self) -> StateView {
        StateView {
            l0_sstables: self.l0_sstables@,
            levels: level_views(self.levels@),
            sstables: self.sstables@,
            imm_memtables: self.imm_memtables@,
        }
    }
}

/// Copies a list of identifiers.
pub(crate) fn copy_ids(ids: &[usize]) -> (r: Vec<usize>)
    ensures
        r@ == ids@,
{
    let mut r: Vec<usize> = Vec::new();
    let mut i: usize = 0;
    while i < ids.len()
        invariant
            i <= ids@.len(),
            r@ == ids@.take(i as int),
        decreases ids@.len() - i,
    {
        r.push(ids[i]);
        assert(ids@.take(i + 1) =~= ids@.take(i as int).push(ids@[i as int]));
        i = i + 1;
    }
    assert(ids@.take(i as int) =~= ids@);
    r
}

/// Copies the levels.
fn copy_levels(levels: &Vec<(usize, Vec<usize>)>) -> (r: Vec<(usize, Vec<usize>)>)
    ensures
        level_views(r@) == level_views(levels@),
{
    let mut r: Vec<(usize, Vec<usize>)> = Vec::new();
    let mut i: usize = 0;
    while i < levels.len()
        invariant
            i <= levels@.len(),
            level_views(r@) =~= level_views(levels@).take(i as int),
        decreases levels@.len() - i,
    {
        let ghost before = r@;
        r.push((levels[i].0, copy_ids(levels[i].1.as_slice())));
        proof {
            let level = level_views(levels@)[i as int];
            assert(level_views(r@) =~= level_views(before).push(level));
            assert(level_views(levels@).take(i + 1) =~= level_views(levels@).take(i as int).push(
                level,
            ));
        }
        i = i + 1;
    }
    assert(level_views(levels@).take(i as int) =~= level_views(levels@));
    r
}

impl Clone for LsmStorageState {
    fn clone(&self) -> (r: Self)
        ensures
            r@ == self@,
    {
        LsmStorageState {
            l0_sstables: copy_ids(self.l0_sstables.as_slice()),
            levels: copy_levels(&self.levels),
            sstables: self.sstables.clone(),
            imm_memtables: copy_ids(self.imm_memtables.as_slice()),
        }
    }
}

/// The sizes that the store works with.
#[derive(Clone, Copy, Debug)]
pub struct LsmStorageOptions {
    /// The size that the blocks of a table aim at.
    pub block_size: usize,
    /// The size at which a table of a compaction is finished.
    pub target_sst_size: usize,
    /// How many memtables may wait before they are flushed.
    pub num_memtable_limit: usize,
}

/// The store: its state, its concurrency control, and how it compacts.
pub struct LsmStorageInner<C> {
    pub state: LsmStorageState,
    pub compaction_controller: C,
    pub mvcc: Option<LsmMvccInner>,
    pub options: LsmStorageOptions,
}

} // verus!
