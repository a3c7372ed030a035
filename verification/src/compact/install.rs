//! What becomes of the state of the store once a compaction is done, and the rounds that the
//! background work goes in.
#[allow(unused_imports)]
use crate::compact::merge::{compacted, input_result};
#[allow(unused_imports)]
use crate::compact::tasks::{
    known, l0_run, level_run, pair_input, tables_of, task_input, task_known,
};
#[allow(unused_imports)]
use crate::iterators::{two_merge, Item, Run};
use crate::compact::tasks::has_task_tables;
use crate::compact::{
    CompactionController, CompactionError, CompactionTask, LeveledPolicy, SimpleLeveledPolicy,
    TieredPolicy,
};
use crate::lsm_storage::{copy_ids, LoggedTables, LsmStorageInner, LsmStorageState, TableStore};
#[allow(unused_imports)]
use crate::lsm_storage::{did, lemma_did_both, level_views, StateView, TableAction};
#[allow(unused_imports)]
use crate::table::ReadError;
use crate::table::SsTable;
use std::sync::Arc;
use vstd::prelude::*;

verus! {

broadcast use vstd::std_specs::hash::group_hash_axioms;

/// The identifiers of some tables.
pub open spec fn ids_of(tables: Seq<Arc<SsTable>>) -> Seq<usize> {
    tables.map_values(|t: Arc<SsTable>| t.id())
}

/// A map of tables with more tables put in, each under its identifier.
pub open spec fn insert_tables(
    map: Map<usize, Arc<SsTable>>,
    tables: Seq<Arc<SsTable>>,
) -> Map<usize, Arc<SsTable>>
    decreases tables.len(),
{
    if tables.len() == 0 {
        map
    } else {
        insert_tables(map, tables.drop_last()).insert(tables.last().id(), tables.last())
    }
}

/// A state with more tables, which are not arranged yet.
pub open spec fn with_tables(state: StateView, tables: Seq<Arc<SsTable>>) -> StateView {
    StateView { sstables: insert_tables(state.sstables, tables), ..state }
}

/// A state without some of its tables.
pub open spec fn without_tables(state: StateView, ids: Seq<usize>) -> StateView {
    StateView { sstables: state.sstables.remove_keys(ids.to_set()), ..state }
}

/// What level 0 and level 1 hold together.
pub open spec fn full_run(state: StateView) -> Seq<Item> {
    two_merge(l0_run(state, state.l0_sstables), level_run(state, state.levels[0].1))
}

/// What level 0 and level 1 hold together, as far as it can be read.
pub open spec fn full_input(state: StateView) -> Result<Run<ReadError>, ReadError> {
    pair_input(state, true, state.l0_sstables, state.levels[0].1)
}

/// The state once the tables `l0` and `l1` have been compacted into `tables`: what `l0` names is
/// gone from level 0, and level 1 is made of the new tables.
pub open spec fn after_full_compaction(
    state: StateView,
    l0: Seq<usize>,
    l1: Seq<usize>,
    tables: Seq<Arc<SsTable>>,
) -> StateView {
    StateView {
        l0_sstables: state.l0_sstables.filter(|id: usize| !l0.contains(id)),
        levels: state.levels.update(0, (state.levels[0].0, ids_of(tables))),
        sstables: insert_tables(state.sstables.remove_keys((l0 + l1).to_set()), tables),
        imm_memtables: state.imm_memtables,
    }
}

/// Whether two stores differ at most in their state.
pub open spec fn same_but_state<C>(a: LsmStorageInner<C>, b: LsmStorageInner<C>) -> bool {
    &&& a.mvcc == b.mvcc
    &&& a.options == b.options
    &&& a.compaction_controller == b.compaction_controller
}

/// Whether a list of identifiers holds one.
fn contains_id(ids: &[usize], id: usize) -> (r: bool)
    ensures
        r == ids@.contains(id),
{
    let mut i: usize = 0;
    while i < ids.len()
        invariant
            i <= ids@.len(),
            forall|j: int| 0 <= j < i ==> ids@[j] != id,
        decreases ids@.len() - i,
    {
        if ids[i] == id {
            return true;
        }
        i = i + 1;
    }
    false
}

/// The identifiers that are not among those that are gone.
fn retain_others(ids: &[usize], gone: &[usize]) -> (r: Vec<usize>)
    ensures
        r@ == ids@.filter(|id: usize| !gone@.contains(id)),
{
    let mut r: Vec<usize> = Vec::new();
    let mut i: usize = 0;
    let ghost stays = |id: usize| !gone@.contains(id);
    assert(ids@.take(0).filter(stays) =~= Seq::<usize>::empty()) by {
        reveal(Seq::filter);
    }
    while i < ids.len()
        invariant
            i <= ids@.len(),
            stays == (|id: usize| !gone@.contains(id)),
            r@ == ids@.take(i as int).filter(stays),
        decreases ids@.len() - i,
    {
        proof {
            reveal(Seq::filter);
            assert(ids@.take(i + 1).drop_last() =~= ids@.take(i as int));
        }
        if !contains_id(gone, ids[i]) {
            r.push(ids[i]);
        }
        i = i + 1;
    }
    assert(ids@.take(i as int) =~= ids@);
    r
}

/// The identifiers of some tables.
pub fn table_ids(tables: &Vec<Arc<SsTable>>) -> (r: Vec<usize>)
    ensures
        r@ == ids_of(tables@),
{
    let mut r: Vec<usize> = Vec::new();
    let mut i: usize = 0;
    while i < tables.len()
        invariant
            i <= tables@.len(),
            r@ =~= ids_of(tables@).take(i as int),
        decreases tables@.len() - i,
    {
        r.push(tables[i].sst_id());
        i = i + 1;
    }
    assert(ids_of(tables@).take(i as int) =~= ids_of(tables@));
    r
}

/// Puts tables into a state, each under its identifier.
fn put_tables(state: &mut LsmStorageState, tables: &Vec<Arc<SsTable>>)
    ensures
        final(state)@ == with_tables(old(state)@, tables@),
{
    let mut i: usize = 0;
    assert(tables@.take(0) =~= Seq::<Arc<SsTable>>::empty());
    while i < tables.len()
        invariant
            i <= tables@.len(),
            state@ == with_tables(old(state)@, tables@.take(i as int)),
        decreases tables@.len() - i,
    {
        state.sstables.insert(tables[i].sst_id(), tables[i].clone());
        assert(tables@.take(i + 1).drop_last() =~= tables@.take(i as int));
        i = i + 1;
    }
    assert(tables@.take(i as int) =~= tables@);
}

/// Takes tables out of a state; those that are not there are passed over.
fn drop_tables(state: &mut LsmStorageState, ids: &[usize])
    ensures
        final(state)@ == without_tables(old(state)@, ids@),
{
    let mut i: usize = 0;
    assert(state.sstables@ =~= old(state).sstables@.remove_keys(ids@.take(0).to_set()));
    while i < ids.len()
        invariant
            i <= ids@.len(),
            state@ == without_tables(old(state)@, ids@.take(i as int)),
        decreases ids@.len() - i,
    {
        state.sstables.remove(&ids[i]);
        proof {
            lemma_remove_one_more(old(state).sstables@, ids@, i as int);
        }
        i = i + 1;
    }
    assert(ids@.take(i as int) =~= ids@);
}

/// Taking out one more table.
proof fn lemma_remove_one_more(map: Map<usize, Arc<SsTable>>, ids: Seq<usize>, i: int)
    requires
        0 <= i < ids.len(),
    ensures
        map.remove_keys(ids.take(i).to_set()).remove(ids[i]) == map.remove_keys(
            ids.take(i + 1).to_set(),
        ),
{
    let fewer = ids.take(i);
    let more = ids.take(i + 1);
    assert forall|id: usize| more.contains(id) <==> (fewer.contains(id) || id == ids[i]) by {
        if fewer.contains(id) {
            let k = choose|k: int| 0 <= k < fewer.len() && fewer[k] == id;
            assert(more[k] == id);
        }
        assert(more[i] == ids[i]);
        if more.contains(id) && id != ids[i] {
            let k = choose|k: int| 0 <= k < more.len() && more[k] == id;
            assert(fewer[k] == id);
        }
    }
    assert(map.remove_keys(fewer.to_set()).remove(ids[i]) =~= map.remove_keys(more.to_set()));
}

/// The state once tables of level 0 and of level 1 have been compacted into others. Tables that
/// came to level 0 in the meantime stay there.
pub fn full_compaction_state(
    state: &LsmStorageState,
    l0_sstables: &[usize],
    l1_sstables: &[usize],
    new_ssts: &Vec<Arc<SsTable>>,
) -> (r: LsmStorageState)
    requires
        state@.levels.len() > 0,
    ensures
        r@ == after_full_compaction(state@, l0_sstables@, l1_sstables@, new_ssts@),
{
    let mut new_state = state.clone();
    new_state.l0_sstables = retain_others(state.l0_sstables.as_slice(), l0_sstables);
    assert(level_views(state.levels@).len() == state.levels@.len());
    assert(level_views(new_state.levels@).len() == new_state.levels@.len());
    let number: usize = state.levels[0].0;
    let ghost before = new_state.levels@;
    new_state.levels.set(0, (number, table_ids(new_ssts)));
    proof {
        let level = (number, ids_of(new_ssts@));
        assert(level_views(new_state.levels@) =~= level_views(before).update(0, level));
        assert(state@.levels[0].0 == number);
    }
    drop_tables(&mut new_state, l0_sstables);
    drop_tables(&mut new_state, l1_sstables);
    assert(state.sstables@.remove_keys(l0_sstables@.to_set()).remove_keys(l1_sstables@.to_set())
        =~= state.sstables@.remove_keys((l0_sstables@ + l1_sstables@).to_set())) by {
        assert forall|id: usize| (l0_sstables@ + l1_sstables@).contains(id) <==> (
        l0_sstables@.contains(id) || l1_sstables@.contains(id)) by {
            let all = l0_sstables@ + l1_sstables@;
            let n = l0_sstables@.len() as int;
            if l0_sstables@.contains(id) {
                let k = choose|k: int| 0 <= k < n && l0_sstables@[k] == id;
                assert(all[k] == id);
            }
            if l1_sstables@.contains(id) {
                let k = choose|k: int| 0 <= k < l1_sstables@.len() && l1_sstables@[k] == id;
                assert(all[n + k] == id);
            }
            if all.contains(id) {
                let k = choose|k: int| 0 <= k < all.len() && all[k] == id;
                if k < n {
                    assert(l0_sstables@[k] == id);
                } else {
                    assert(l1_sstables@[k - n] == id);
                }
            }
        }
    }
    put_tables(&mut new_state, new_ssts);
    new_state
}

/// Whether a list of identifiers names tables of a state, none of them twice.
pub open spec fn deletable(state: StateView, ids: Seq<usize>) -> bool {
    known(state, ids) && ids.no_duplicates()
}

/// Whether a list of identifiers names tables of a state, none of them twice.
fn is_deletable(state: &LsmStorageState, ids: &[usize]) -> (r: bool)
    ensures
        r == deletable(state@, ids@),
{
    let mut i: usize = 0;
    while i < ids.len()
        invariant
            i <= ids@.len(),
            forall|j: int| 0 <= j < i ==> state@.sstables.contains_key(#[trigger] ids@[j]),
            forall|j: int, k: int| 0 <= j < k < i ==> ids@[j] != ids@[k],
        decreases ids@.len() - i,
    {
        if !state.sstables.contains_key(&ids[i]) {
            assert(!state@.sstables.contains_key(ids@[i as int]));
            return false;
        }
        let mut j: usize = 0;
        while j < i
            invariant
                j <= i < ids@.len(),
                forall|k: int| 0 <= k < j ==> ids@[k] != ids@[i as int],
            decreases i - j,
        {
            if ids[j] == ids[i] {
                return false;
            }
            j = j + 1;
        }
        i = i + 1;
    }
    true
}

/// What is done to remove the files of tables, all with success.
pub open spec fn removals<E>(ids: Seq<usize>) -> Seq<TableAction<E>> {
    ids.map_values(|id: usize| TableAction::RemovedFile(id, Ok(())))
}

/// Whether removing the files of tables, and making that durable, does `actions` and ends with
/// `r`: files are removed in order until one cannot be, and only once all are gone is the
/// directory synced.
pub open spec fn cleanup_result<E>(
    ids: Seq<usize>,
    actions: Seq<TableAction<E>>,
    r: Result<(), E>,
) -> bool {
    ||| actions == removals(ids).push(TableAction::Synced(r))
    ||| r is Err && exists|n: int|
        0 <= n < ids.len() && actions == #[trigger] removals(ids.take(n)).push(
            TableAction::RemovedFile(ids[n], r),
        )
}

/// Whether recording a compaction and cleaning up after it does `actions` and ends with `r`: the
/// compaction is recorded once, and files are removed only after it is.
pub open spec fn record_result<E>(
    task: CompactionTask,
    output: Seq<usize>,
    removed: Seq<usize>,
    actions: Seq<TableAction<E>>,
    r: Result<(), E>,
) -> bool {
    ||| r is Err && actions == seq![TableAction::Recorded(task, output, r)]
    ||| exists|rest: Seq<TableAction<E>>|
        {
            &&& #[trigger] cleanup_result(removed, rest, r)
            &&& actions == seq![TableAction::Recorded(task, output, Ok(()))] + rest
        }
}

/// The result of a round of compaction for a result of the storage underneath.
pub open spec fn storage_result<E>(r: Result<(), E>) -> Result<(), CompactionError<E>> {
    match r {
        Ok(()) => Ok(()),
        Err(e) => Err(CompactionError::Storage(e)),
    }
}

/// How a round of compaction goes on from the policy's reply to its result: the new state is
/// installed without the tables that it no longer needs, the compaction is recorded, and the
/// files of those tables are removed. A reply that gives up tables which are not there changes
/// nothing.
pub open spec fn reply_outcome<C, E>(
    before: LsmStorageInner<C>,
    after: LsmStorageInner<C>,
    task: &CompactionTask,
    output: Seq<usize>,
    reply: (LsmStorageState, Vec<usize>),
    actions: Seq<TableAction<E>>,
    r: Result<(), CompactionError<E>>,
) -> bool {
    if deletable(reply.0@, reply.1@) {
        &&& after.state@ == without_tables(reply.0@, reply.1@)
        &&& exists|done: Result<(), E>|
            {
                &&& #[trigger] record_result(
                    *task,
                    output,
                    ids_of(tables_of(reply.0@, reply.1@)),
                    actions,
                    done,
                )
                &&& r == storage_result(done)
            }
    } else {
        &&& after.state@ == before.state@
        &&& actions == Seq::<TableAction<E>>::empty()
        &&& r == Err::<(), CompactionError<E>>(CompactionError::UnknownTable)
    }
}

/// Removes the files of tables that are no longer needed, and makes that durable.
pub fn remove_files<S: TableStore>(
    store: &mut LoggedTables<S>,
    tables: &Vec<Arc<SsTable>>,
) -> (r: Result<(), S::Error>)
    ensures
        exists|actions: Seq<TableAction<S::Error>>|
            #[trigger] did(*old(store), *final(store), actions) && cleanup_result(
                ids_of(tables@),
                actions,
                r,
            ),
{
    let ghost ids = ids_of(tables@);
    let mut i: usize = 0;
    proof {
        assert(removals::<S::Error>(ids.take(0)) =~= Seq::empty());
        assert(store.log() =~= store.log() + removals::<S::Error>(ids.take(0)));
    }
    while i < tables.len()
        invariant
            i <= tables@.len(),
            ids == ids_of(tables@),
            did(*old(store), *store, removals(ids.take(i as int))),
        decreases tables@.len() - i,
    {
        let ghost between = *store;
        let ghost gone = removals::<S::Error>(ids.take(i as int));
        let id: usize = tables[i].sst_id();
        let removed = store.remove_sst_file(id);
        let ghost answer = removed;
        proof {
            let last = TableAction::RemovedFile(id, answer);
            assert(ids[i as int] == id);
            lemma_did_both(*old(store), between, *store, gone, seq![last]);
            assert(gone + seq![last] =~= gone.push(last));
            assert(ids.take(i + 1) =~= ids.take(i as int).push(id));
        }
        match removed {
            Ok(done) => {
                assert(done == ());
                assert(removals::<S::Error>(ids.take(i + 1)) =~= gone.push(
                    TableAction::RemovedFile(id, Ok(())),
                ));
            },
            Err(e) => {
                let ghost last = TableAction::RemovedFile(id, answer);
                assert(cleanup_result(ids, gone.push(last), answer));
                return Err(e);
            },
        }
        i = i + 1;
    }
    let ghost between = *store;
    let synced = store.sync_dir();
    proof {
        let gone = removals::<S::Error>(ids);
        assert(ids.take(i as int) =~= ids);
        lemma_did_both(*old(store), between, *store, gone, seq![TableAction::Synced(synced)]);
        assert(gone + seq![TableAction::Synced(synced)] =~= gone.push(TableAction::Synced(synced)));
        assert(cleanup_result(ids, gone.push(TableAction::Synced(synced)), synced));
    }
    synced
}

impl<C> LsmStorageInner<C> {
    /// Compacts all of level 0 and level 1 into a new level 1.
    pub fn force_full_compaction<S: TableStore>(
        &mut self,
        store: &mut LoggedTables<S>,
    ) -> (r: Result<(), CompactionError<S::Error>>)
        requires
            old(self).state@.levels.len() > 0,
            known(old(self).state@, old(self).state@.l0_sstables),
            known(old(self).state@, old(self).state@.levels[0].1),
            old(self).mvcc matches Some(mvcc) && mvcc.wf(),
        ensures
            same_but_state(*old(self), *final(self)),
            exists|result: Result<Vec<Arc<SsTable>>, CompactionError<S::Error>>|
                {
                    &&& #[trigger] compacted(
                        *old(self),
                        full_input(old(self).state@),
                        *old(store),
                        *final(store),
                        result,
                    )
                    &&& match result {
                        Ok(tables) => r is Ok && final(self).state@ == after_full_compaction(
                            old(self).state@,
                            old(self).state@.l0_sstables,
                            old(self).state@.levels[0].1,
                            tables@,
                        ),
                        Err(e) => r == Err::<(), CompactionError<S::Error>>(e)
                            && final(self).state@ == old(self).state@,
                    }
                },
    {
        assert(level_views(self.state.levels@).len() == self.state.levels@.len());
        let l0_sstables = copy_ids(self.state.l0_sstables.as_slice());
        let l1_sstables = copy_ids(self.state.levels[0].1.as_slice());
        let task = CompactionTask::ForceFullCompaction {
            l0_sstables: copy_ids(l0_sstables.as_slice()),
            l1_sstables: copy_ids(l1_sstables.as_slice()),
        };
        let outcome = self.compact(store, &task);
        let ghost result = outcome;
        assert(compacted(*old(self), full_input(old(self).state@), *old(store), *store, result));
        match outcome {
            Ok(new_ssts) => {
                self.state =
                full_compaction_state(
                    &self.state,
                    l0_sstables.as_slice(),
                    l1_sstables.as_slice(),
                    &new_ssts,
                );
                Ok(())
            },
            Err(e) => Err(e),
        }
    }

    /// Takes tables out of a state, and returns them.
    pub fn del_tables<E>(sst_ids: Vec<usize>, snapshot: &mut LsmStorageState) -> (r: Result<
        Vec<Arc<SsTable>>,
        E,
    >)
        requires
            deletable(old(snapshot)@, sst_ids@),
        ensures
            final(snapshot)@ == without_tables(old(snapshot)@, sst_ids@),
            r matches Ok(tables) && tables@ == tables_of(old(snapshot)@, sst_ids@),
    {
        let mut deleted_tables: Vec<Arc<SsTable>> = Vec::new();
        let mut i: usize = 0;
        assert(snapshot.sstables@ =~= old(snapshot).sstables@.remove_keys(
            sst_ids@.take(0).to_set(),
        ));
        while i < sst_ids.len()
            invariant
                i <= sst_ids@.len(),
                deletable(old(snapshot)@, sst_ids@),
                snapshot@ == without_tables(old(snapshot)@, sst_ids@.take(i as int)),
                deleted_tables@ =~= tables_of(old(snapshot)@, sst_ids@).take(i as int),
            decreases sst_ids@.len() - i,
        {
            let id: usize = sst_ids[i];
            assert(old(snapshot)@.sstables.contains_key(sst_ids@[i as int]));
            assert(!sst_ids@.take(i as int).contains(id));
            let table = snapshot.sstables.remove(&id).unwrap();
            deleted_tables.push(table);
            proof {
                lemma_remove_one_more(old(snapshot).sstables@, sst_ids@, i as int);
            }
            i = i + 1;
        }
        assert(sst_ids@.take(i as int) =~= sst_ids@);
        assert(tables_of(old(snapshot)@, sst_ids@).take(i as int) =~= tables_of(
            old(snapshot)@,
            sst_ids@,
        ));
        Ok(deleted_tables)
    }

    /// Installs the state of the policy's reply without the tables that it gives up, and returns
    /// those tables. A reply that gives up tables which are not there changes nothing.
    pub fn install_reply<E>(&mut self, reply: (LsmStorageState, Vec<usize>)) -> (r: Result<
        Vec<Arc<SsTable>>,
        CompactionError<E>,
    >)
        ensures
            same_but_state(*old(self), *final(self)),
            if deletable(reply.0@, reply.1@) {
                &&& final(self).state@ == without_tables(reply.0@, reply.1@)
                &&& r matches Ok(tables) && tables@ == tables_of(reply.0@, reply.1@)
            } else {
                &&& *final(self) == *old(self)
                &&& r == Err::<Vec<Arc<SsTable>>, CompactionError<E>>(CompactionError::UnknownTable)
            },
    {
        let (new_state, del) = reply;
        let mut snapshot = new_state;
        if !is_deletable(&snapshot, del.as_slice()) {
            return Err(CompactionError::UnknownTable);
        }
        let tables = Self::del_tables::<CompactionError<E>>(del, &mut snapshot);
        self.state = snapshot;
        tables
    }

    /// Goes on with the policy's reply to the result of a compaction: installs the new state,
    /// records the compaction, and removes the files of the tables that are no longer needed.
    pub fn accept_reply<S: TableStore>(
        &mut self,
        store: &mut LoggedTables<S>,
        task: &CompactionTask,
        output: &Vec<usize>,
        reply: (LsmStorageState, Vec<usize>),
    ) -> (r: Result<(), CompactionError<S::Error>>)
        ensures
            same_but_state(*old(self), *final(self)),
            exists|actions: Seq<TableAction<S::Error>>|
                #[trigger] did(*old(store), *final(store), actions) && reply_outcome(
                    *old(self),
                    *final(self),
                    task,
                    output@,
                    reply,
                    actions,
                    r,
                ),
    {
        let ssts_to_remove = match self.install_reply(reply) {
            Ok(tables) => tables,
            Err(e) => {
                assert(store.log() =~= store.log() + Seq::<TableAction<S::Error>>::empty());
                assert(did(*old(store), *store, Seq::empty()));
                return Err(e);
            },
        };
        let recorded = store.add_compaction_record(task, output);
        let ghost answer = recorded;
        let ghost between = *store;
        let ghost removed = ids_of(ssts_to_remove@);
        match recorded {
            Ok(done) => {
                assert(done == ());
                let cleaned = remove_files(store, &ssts_to_remove);
                let ghost end = cleaned;
                proof {
                    let first = seq![TableAction::Recorded(*task, output@, Ok::<(), S::Error>(()))];
                    let rest = choose|rest: Seq<TableAction<S::Error>>|
                        #[trigger] did(between, *store, rest) && cleanup_result(removed, rest, end);
                    lemma_did_both(*old(store), between, *store, first, rest);
                    assert(cleanup_result(removed, rest, end));
                    assert(record_result(*task, output@, removed, first + rest, end));
                }
                match cleaned {
                    Ok(done) => {
                        assert(done == ());
                        Ok(())
                    },
                    Err(e) => Err(CompactionError::Storage(e)),
                }
            },
            Err(e) => {
                assert(record_result(
                    *task,
                    output@,
                    removed,
                    seq![TableAction::Recorded(*task, output@, answer)],
                    answer,
                ));
                Err(CompactionError::Storage(e))
            },
        }
    }

    /// Flushes a memtable if as many wait as may wait.
    pub fn trigger_flush<S: TableStore>(&mut self, store: &mut LoggedTables<S>) -> (r: Result<
        (),
        S::Error,
    >)
        ensures
            same_but_state(*old(self), *final(self)),
            old(self).state@.imm_memtables.len() < old(self).options.num_memtable_limit ==> {
                &&& r is Ok
                &&& final(self).state@ == old(self).state@
                &&& *final(store) == *old(store)
            },
            old(self).state@.imm_memtables.len() >= old(self).options.num_memtable_limit
                ==> match r {
                Ok(()) => did(
                    *old(store),
                    *final(store),
                    seq![TableAction::Flushed(old(self).state, Ok(final(self).state))],
                ),
                Err(e) => final(self).state@ == old(self).state@ && did(
                    *old(store),
                    *final(store),
                    seq![TableAction::Flushed(old(self).state, Err(e))],
                ),
            },
    {
        if self.state.imm_memtables.len() >= self.options.num_memtable_limit {
            match store.force_flush_next_imm_memtable(&self.state) {
                Ok(state) => {
                    self.state = state;
                },
                Err(e) => {
                    return Err(e);
                },
            }
        }
        Ok(())
    }
}

/// Whether the policy may answer with `reply` when it is to arrange the tables that a task has
/// made: it is shown the state that holds them, and their identifiers.
pub open spec fn arranged_output<L: LeveledPolicy, T: TieredPolicy, P: SimpleLeveledPolicy>(
    inner: LsmStorageInner<CompactionController<L, T, P>>,
    task: &CompactionTask,
    tables: Seq<Arc<SsTable>>,
    reply: (LsmStorageState, Vec<usize>),
) -> bool {
    exists|snapshot: LsmStorageState, ids: &[usize]|
        {
            &&& snapshot@ == with_tables(inner.state@, tables)
            &&& ids@ == ids_of(tables)
            &&& #[trigger] inner.compaction_controller.arranges(&snapshot, task, ids, false, reply)
        }
}

/// How a round of compaction goes on from the tables that the task has made: the policy arranges
/// them, and its reply decides the rest.
pub open spec fn install_outcome<L: LeveledPolicy, T: TieredPolicy, P: SimpleLeveledPolicy, E>(
    before: LsmStorageInner<CompactionController<L, T, P>>,
    after: LsmStorageInner<CompactionController<L, T, P>>,
    task: &CompactionTask,
    tables: Seq<Arc<SsTable>>,
    actions: Seq<TableAction<E>>,
    r: Result<(), CompactionError<E>>,
) -> bool {
    exists|reply: (LsmStorageState, Vec<usize>)|
        {
            &&& #[trigger] arranged_output(before, task, tables, reply)
            &&& reply_outcome(before, after, task, ids_of(tables), reply, actions, r)
        }
}

/// How a round of compaction ends for a task, having done `actions`: nothing changes unless the
/// task can be carried out and its tables are written, and nothing at all is done unless it can be
/// carried out.
pub open spec fn task_outcome<
    S: TableStore,
    L: LeveledPolicy,
    T: TieredPolicy,
    P: SimpleLeveledPolicy,
>(
    before: LsmStorageInner<CompactionController<L, T, P>>,
    after: LsmStorageInner<CompactionController<L, T, P>>,
    store: S,
    task: &CompactionTask,
    actions: Seq<TableAction<S::Error>>,
    r: Result<(), CompactionError<S::Error>>,
) -> bool {
    if task_known(before.state@, task) {
        exists|
            writes: Seq<TableAction<S::Error>>,
            result: Result<Vec<Arc<SsTable>>, CompactionError<S::Error>>,
        |
            {
                &&& #[trigger] input_result(
                    before,
                    store,
                    task_input(before.state@, task),
                    writes,
                    result,
                )
                &&& match result {
                    Ok(tables) => exists|rest: Seq<TableAction<S::Error>>|
                        {
                            &&& #[trigger] install_outcome(before, after, task, tables@, rest, r)
                            &&& actions == writes + rest
                        },
                    Err(e) => {
                        &&& after.state@ == before.state@
                        &&& actions == writes
                        &&& r == Err::<(), CompactionError<S::Error>>(e)
                    },
                }
            }
    } else {
        &&& after.state@ == before.state@
        &&& actions == Seq::<TableAction<S::Error>>::empty()
        &&& r == Err::<(), CompactionError<S::Error>>(CompactionError::UnknownTable)
    }
}

/// How a round of compaction ends for what the policy wants compacted, having done `actions`.
pub open spec fn plan_outcome<
    S: TableStore,
    L: LeveledPolicy,
    T: TieredPolicy,
    P: SimpleLeveledPolicy,
>(
    before: LsmStorageInner<CompactionController<L, T, P>>,
    after: LsmStorageInner<CompactionController<L, T, P>>,
    store: S,
    plan: Option<CompactionTask>,
    actions: Seq<TableAction<S::Error>>,
    r: Result<(), CompactionError<S::Error>>,
) -> bool {
    match plan {
        None => {
            &&& after.state@ == before.state@
            &&& actions == Seq::<TableAction<S::Error>>::empty()
            &&& r is Ok
        },
        Some(task) => task_outcome(before, after, store, &task, actions, r),
    }
}

impl<L: LeveledPolicy, T: TieredPolicy, P: SimpleLeveledPolicy> LsmStorageInner<
    CompactionController<L, T, P>,
> {
    /// Asks the policy to arrange the tables that a task of its own kind has made.
    pub fn arrange_output(&self, task: &CompactionTask, output: &Vec<Arc<SsTable>>) -> (r: (
        LsmStorageState,
        Vec<usize>,
    ))
        requires
            self.compaction_controller.fits(task),
        ensures
            arranged_output(*self, task, output@, r),
    {
        let output_ids = table_ids(output);
        let mut snapshot = self.state.clone();
        put_tables(&mut snapshot, output);
        let ids = output_ids.as_slice();
        let reply = self.compaction_controller.apply_compaction_result(
            &snapshot,
            task,
            ids,
            false,
        );
        let ghost answer = reply;
        assert(self.compaction_controller.arranges(&snapshot, task, ids, false, answer));
        reply
    }

    /// Installs the tables that a task of the policy's own kind has made.
    pub fn install_compaction<S: TableStore>(
        &mut self,
        store: &mut LoggedTables<S>,
        task: &CompactionTask,
        output: &Vec<Arc<SsTable>>,
    ) -> (r: Result<(), CompactionError<S::Error>>)
        requires
            old(self).compaction_controller.fits(task),
        ensures
            same_but_state(*old(self), *final(self)),
            exists|actions: Seq<TableAction<S::Error>>|
                #[trigger] did(*old(store), *final(store), actions) && install_outcome(
                    *old(self),
                    *final(self),
                    task,
                    output@,
                    actions,
                    r,
                ),
    {
        let reply = self.arrange_output(task, output);
        let ghost answer = reply;
        let output_ids = table_ids(output);
        let r = self.accept_reply(store, task, &output_ids, reply);
        proof {
            let actions = choose|actions: Seq<TableAction<S::Error>>|
                #[trigger] did(*old(store), *store, actions) && reply_outcome(
                    *old(self),
                    *self,
                    task,
                    output_ids@,
                    answer,
                    actions,
                    r,
                );
            assert(arranged_output(*old(self), task, output@, answer));
            assert(install_outcome(*old(self), *self, task, output@, actions, r));
        }
        r
    }

    /// Carries out a task of the policy's own kind, and installs what comes of it.
    pub fn run_task<S: TableStore>(
        &mut self,
        store: &mut LoggedTables<S>,
        task: &CompactionTask,
    ) -> (r: Result<(), CompactionError<S::Error>>)
        requires
            old(self).compaction_controller.fits(task),
            old(self).mvcc matches Some(mvcc) && mvcc.wf(),
        ensures
            same_but_state(*old(self), *final(self)),
            exists|actions: Seq<TableAction<S::Error>>|
                #[trigger] did(*old(store), *final(store), actions) && task_outcome(
                    *old(self),
                    *final(self),
                    old(store).store(),
                    task,
                    actions,
                    r,
                ),
    {
        if !has_task_tables(&self.state, task) {
            assert(store.log() =~= store.log() + Seq::<TableAction<S::Error>>::empty());
            assert(did(*old(store), *store, Seq::empty()));
            return Err(CompactionError::UnknownTable);
        }
        let outcome = self.compact(store, task);
        let ghost result = outcome;
        let ghost between = *store;
        let ghost input = task_input(old(self).state@, task);
        let ghost writes = choose|writes: Seq<TableAction<S::Error>>|
            #[trigger] did(*old(store), between, writes) && input_result(
                *old(self),
                old(store).store(),
                input,
                writes,
                result,
            );
        assert(compacted(*old(self), input, *old(store), between, result));
        assert(input_result(*old(self), old(store).store(), input, writes, result));
        match outcome {
            Ok(output) => {
                let r = self.install_compaction(store, task, &output);
                proof {
                    let rest = choose|rest: Seq<TableAction<S::Error>>|
                        #[trigger] did(between, *store, rest) && install_outcome(
                            *old(self),
                            *self,
                            task,
                            output@,
                            rest,
                            r,
                        );
                    lemma_did_both(*old(store), between, *store, writes, rest);
                    assert(install_outcome(*old(self), *self, task, output@, rest, r));
                    assert(task_outcome(
                        *old(self),
                        *self,
                        old(store).store(),
                        task,
                        writes + rest,
                        r,
                    ));
                }
                r
            },
            Err(e) => {
                let r = Err(e);
                assert(task_outcome(*old(self), *self, old(store).store(), task, writes, r));
                r
            },
        }
    }

    /// One round of compaction: asks the policy for a task, carries it out, and installs what
    /// comes of it.
    pub fn trigger_compaction<S: TableStore>(&mut self, store: &mut LoggedTables<S>) -> (r: Result<
        (),
        CompactionError<S::Error>,
    >)
        requires
            !(old(self).compaction_controller is NoCompaction),
            old(self).mvcc matches Some(mvcc) && mvcc.wf(),
        ensures
            same_but_state(*old(self), *final(self)),
            exists|plan: Option<CompactionTask>, actions: Seq<TableAction<S::Error>>|
                {
                    &&& #[trigger] old(self).compaction_controller.plans(&old(self).state, plan)
                    &&& #[trigger] did(*old(store), *final(store), actions)
                    &&& plan_outcome(
                        *old(self),
                        *final(self),
                        old(store).store(),
                        plan,
                        actions,
                        r,
                    )
                },
    {
        let plan = self.compaction_controller.generate_compaction_task(&self.state);
        assert(self.compaction_controller.plans(&self.state, plan));
        match &plan {
            None => {
                assert(store.log() =~= store.log() + Seq::<TableAction<S::Error>>::empty());
                assert(did(*old(store), *store, Seq::empty()));
                Ok(())
            },
            Some(task) => self.run_task(store, task),
        }
    }
}

} // verus!
