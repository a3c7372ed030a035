//! What each kind of compaction task merges.
#[allow(unused_imports)]
use crate::compact::merge::{compacted, lemma_not_started};
use crate::compact::{CompactionError, CompactionTask};
#[allow(unused_imports)]
use crate::iterators::{
    merge_all, merge_all_runs, merge_runs, positioned, runs_of, started, two_merge, Item, Run,
    StorageIterator,
};
use crate::iterators::{MergeIterator, TwoMergeIterator};
#[allow(unused_imports)]
use crate::lsm_storage::StateView;
use crate::lsm_storage::{LoggedTables, LsmStorageInner, LsmStorageState, TableStore};
#[allow(unused_imports)]
use crate::table::{concat_run, concat_tables, table_runs};
use crate::table::{ReadError, SsTable, SsTableIterator, SstConcatIterator};
use std::sync::Arc;
use vstd::prelude::*;

verus! {

broadcast use vstd::std_specs::hash::group_hash_axioms;

/// Whether a state has all the tables that a list of identifiers names.
pub open spec fn known(state: StateView, ids: Seq<usize>) -> bool {
    forall|i: int| 0 <= i < ids.len() ==> state.sstables.contains_key(#[trigger] ids[i])
}

/// The tables that a list of identifiers names.
pub open spec fn tables_of(state: StateView, ids: Seq<usize>) -> Seq<Arc<SsTable>> {
    ids.map_values(|id: usize| state.sstables[id])
}

/// What tables of level 0 hold, the newest first: the merge of their runs.
pub open spec fn l0_run(state: StateView, ids: Seq<usize>) -> Seq<Item> {
    merge_all(table_runs(tables_of(state, ids)))
}

/// What the tables of a level hold: their runs, one behind the other.
pub open spec fn level_run(state: StateView, ids: Seq<usize>) -> Seq<Item> {
    concat_tables(tables_of(state, ids))
}

/// What each of several tiers holds.
pub open spec fn tier_runs(state: StateView, tiers: Seq<(usize, Vec<usize>)>) -> Seq<Seq<Item>> {
    tiers.map_values(|tier: (usize, Vec<usize>)| level_run(state, tier.1@))
}

/// The tables that a task compacts out of level 0 and with which of level 1, or out of which
/// level and with which of the next.
pub open spec fn upper_and_lower(task: &CompactionTask) -> Option<(bool, Seq<usize>, Seq<usize>)> {
    match task {
        CompactionTask::ForceFullCompaction { l0_sstables, l1_sstables } => Some(
            (true, l0_sstables@, l1_sstables@),
        ),
        CompactionTask::Simple(t) => Some(
            (t.upper_level is None, t.upper_level_sst_ids@, t.lower_level_sst_ids@),
        ),
        CompactionTask::Leveled(t) => Some(
            (t.upper_level is None, t.upper_level_sst_ids@, t.lower_level_sst_ids@),
        ),
        CompactionTask::Tiered(_) => None,
    }
}

/// What a task merges.
pub open spec fn task_run(state: StateView, task: &CompactionTask) -> Seq<Item> {
    match task {
        CompactionTask::Tiered(t) => merge_all(tier_runs(state, t.tiers@)),
        _ => {
            let (from_l0, upper, lower) = upper_and_lower(task)->Some_0;
            two_merge(
                if from_l0 {
                    l0_run(state, upper)
                } else {
                    level_run(state, upper)
                },
                level_run(state, lower),
            )
        },
    }
}

/// Several runs when the first pair of each is looked for, one run after the other.
pub open spec fn start_all<E>(runs: Seq<Run<E>>) -> Result<Seq<Run<E>>, E>
    decreases runs.len(),
{
    if runs.len() == 0 {
        Ok(runs)
    } else {
        match start_all(runs.drop_last()) {
            Err(e) => Err(e),
            Ok(front) => match started(runs.last()) {
                Err(e) => Err(e),
                Ok(last) => Ok(front.push(last)),
            },
        }
    }
}

/// Each of a list of tables as a run.
pub open spec fn inputs_of(tables: Seq<Arc<SsTable>>) -> Seq<Run<ReadError>> {
    tables.map_values(|t: Arc<SsTable>| t.run())
}

/// Each of several tiers as a run.
pub open spec fn tier_inputs(state: StateView, tiers: Seq<(usize, Vec<usize>)>) -> Seq<
    Run<ReadError>,
> {
    tiers.map_values(|tier: (usize, Vec<usize>)| concat_run(tables_of(state, tier.1@)))
}

/// The merge of several runs once they are started.
pub open spec fn merged_input<E>(runs: Seq<Run<E>>) -> Result<Run<E>, E> {
    match start_all(runs) {
        Err(e) => Err(e),
        Ok(all) => Ok(merge_all_runs(all)),
    }
}

/// What a compaction of tables of level 0, or of a level, with tables of the next level has as its
/// input.
pub open spec fn pair_input(
    state: StateView,
    from_l0: bool,
    upper: Seq<usize>,
    lower: Seq<usize>,
) -> Result<Run<ReadError>, ReadError> {
    let up = if from_l0 {
        merged_input(inputs_of(tables_of(state, upper)))
    } else {
        started(concat_run(tables_of(state, upper)))
    };
    match up {
        Err(e) => Err(e),
        Ok(a) => match started(concat_run(tables_of(state, lower))) {
            Err(e) => Err(e),
            Ok(b) => Ok(merge_runs(a, b)),
        },
    }
}

/// What a task has as its input: the merge of its tables as far as they can be read, or the error
/// of the first that cannot even be started.
pub open spec fn task_input(state: StateView, task: &CompactionTask) -> Result<
    Run<ReadError>,
    ReadError,
> {
    match task {
        CompactionTask::Tiered(t) => merged_input(tier_inputs(state, t.tiers@)),
        _ => {
            let (from_l0, upper, lower) = upper_and_lower(task)->Some_0;
            pair_input(state, from_l0, upper, lower)
        },
    }
}

/// Runs that can be started are started as they are.
pub(crate) proof fn lemma_start_all<E>(runs: Seq<Run<E>>)
    ensures
        start_all(runs) matches Ok(all) ==> all == runs && forall|i: int|
            0 <= i < runs.len() ==> positioned(#[trigger] runs[i]),
        (forall|i: int| 0 <= i < runs.len() ==> positioned(#[trigger] runs[i])) ==> start_all(
            runs,
        ) is Ok,
    decreases runs.len(),
{
    if runs.len() > 0 {
        let front = runs.drop_last();
        lemma_start_all(front);
        if start_all(runs) is Ok {
            assert(front.push(runs.last()) =~= runs);
            assert forall|i: int| 0 <= i < runs.len() implies positioned(#[trigger] runs[i]) by {
                if i < front.len() {
                    assert(front[i] == runs[i]);
                }
            }
        }
        if forall|i: int| 0 <= i < runs.len() ==> positioned(#[trigger] runs[i]) {
            assert forall|i: int| 0 <= i < front.len() implies positioned(#[trigger] front[i]) by {
                assert(front[i] == runs[i]);
            }
            assert(positioned(runs[runs.len() - 1]));
        }
    }
}

/// Where the first of several runs cannot all be started, not all of them can.
proof fn lemma_start_fails<E>(runs: Seq<Run<E>>, n: int, e: E)
    requires
        0 <= n <= runs.len(),
        start_all(runs.take(n)) == Err::<Seq<Run<E>>, E>(e),
    ensures
        start_all(runs) == Err::<Seq<Run<E>>, E>(e),
    decreases runs.len() - n,
{
    if n == runs.len() {
        assert(runs.take(n) =~= runs);
    } else {
        assert(runs.take(n + 1).drop_last() =~= runs.take(n));
        lemma_start_fails(runs, n + 1, e);
    }
}

/// Whether a state has all the tables of several tiers.
pub open spec fn tiers_known(state: StateView, tiers: Seq<(usize, Vec<usize>)>) -> bool {
    forall|i: int| 0 <= i < tiers.len() ==> known(state, (#[trigger] tiers[i]).1@)
}

/// Whether a state has all the tables that a task names.
pub open spec fn task_known(state: StateView, task: &CompactionTask) -> bool {
    match task {
        CompactionTask::Tiered(t) => tiers_known(state, t.tiers@),
        _ => {
            let (_from_l0, upper, lower) = upper_and_lower(task)->Some_0;
            known(state, upper) && known(state, lower)
        },
    }
}

/// Whether a state has all the tables that a list of identifiers names.
fn has_tables(state: &LsmStorageState, ids: &[usize]) -> (r: bool)
    ensures
        r == known(state@, ids@),
{
    let mut i: usize = 0;
    while i < ids.len()
        invariant
            i <= ids@.len(),
            forall|j: int| 0 <= j < i ==> state@.sstables.contains_key(#[trigger] ids@[j]),
        decreases ids@.len() - i,
    {
        if !state.sstables.contains_key(&ids[i]) {
            assert(!state@.sstables.contains_key(ids@[i as int]));
            return false;
        }
        i = i + 1;
    }
    true
}

/// Whether a state has all the tables of several tiers.
fn has_tiers(state: &LsmStorageState, tiers: &Vec<(usize, Vec<usize>)>) -> (r: bool)
    ensures
        r == tiers_known(state@, tiers@),
{
    let mut i: usize = 0;
    while i < tiers.len()
        invariant
            i <= tiers@.len(),
            forall|j: int| 0 <= j < i ==> known(state@, (#[trigger] tiers@[j]).1@),
        decreases tiers@.len() - i,
    {
        if !has_tables(state, tiers[i].1.as_slice()) {
            assert(!known(state@, tiers@[i as int].1@));
            return false;
        }
        i = i + 1;
    }
    true
}

/// Whether a state has all the tables that a task names.
pub fn has_task_tables(state: &LsmStorageState, task: &CompactionTask) -> (r: bool)
    ensures
        r == task_known(state@, task),
{
    match task {
        CompactionTask::Tiered(t) => has_tiers(state, &t.tiers),
        CompactionTask::ForceFullCompaction { l0_sstables, l1_sstables } => has_tables(
            state,
            l0_sstables.as_slice(),
        ) && has_tables(state, l1_sstables.as_slice()),
        CompactionTask::Simple(t) => has_tables(state, t.upper_level_sst_ids.as_slice())
            && has_tables(state, t.lower_level_sst_ids.as_slice()),
        CompactionTask::Leveled(t) => has_tables(state, t.upper_level_sst_ids.as_slice())
            && has_tables(state, t.lower_level_sst_ids.as_slice()),
    }
}

impl<C> LsmStorageInner<C> {
    /// The tables that a list of identifiers names.
    pub fn collect_tables(&self, ss_table_ids: &[usize], snapshot: &LsmStorageState) -> (r: Vec<
        Arc<SsTable>,
    >)
        requires
            known(snapshot@, ss_table_ids@),
        ensures
            r@ == tables_of(snapshot@, ss_table_ids@),
    {
        let mut tables: Vec<Arc<SsTable>> = Vec::new();
        let mut i: usize = 0;
        while i < ss_table_ids.len()
            invariant
                i <= ss_table_ids@.len(),
                known(snapshot@, ss_table_ids@),
                tables@ =~= tables_of(snapshot@, ss_table_ids@).take(i as int),
            decreases ss_table_ids@.len() - i,
        {
            let id: usize = ss_table_ids[i];
            assert(snapshot@.sstables.contains_key(ss_table_ids@[i as int]));
            let table = snapshot.sstables.get(&id).unwrap().clone();
            tables.push(table);
            i = i + 1;
        }
        assert(tables_of(snapshot@, ss_table_ids@).take(i as int) =~= tables_of(
            snapshot@,
            ss_table_ids@,
        ));
        tables
    }

    /// An iterator over tables of one level or tier.
    pub fn concat_iterator(&self, ss_table_ids: &[usize], snapshot: &LsmStorageState) -> (r: Result<
        SstConcatIterator,
        ReadError,
    >)
        requires
            known(snapshot@, ss_table_ids@),
        ensures
            match started(concat_run(tables_of(snapshot@, ss_table_ids@))) {
                Ok(run) => r matches Ok(iter) && iter.wf() && iter.run() == run && iter.active()
                    == 1,
                Err(e) => r == Err::<SstConcatIterator, ReadError>(e),
            },
    {
        SstConcatIterator::create_and_seek_to_first(self.collect_tables(ss_table_ids, snapshot))
    }

    /// Compacts tables of level 0, the newest first, with tables of level 1.
    pub fn merge_l0_l1<S: TableStore>(
        &self,
        store: &mut LoggedTables<S>,
        l0_sstables: &[usize],
        l1_sstables: &[usize],
    ) -> (r: Result<Vec<Arc<SsTable>>, CompactionError<S::Error>>)
        requires
            known(self.state@, l0_sstables@),
            known(self.state@, l1_sstables@),
            self.mvcc matches Some(mvcc) && mvcc.wf(),
        ensures
            compacted(
                *self,
                pair_input(self.state@, true, l0_sstables@, l1_sstables@),
                *old(store),
                *final(store),
                r,
            ),
    {
        let tables = self.collect_tables(l0_sstables, &self.state);
        let ghost inputs = inputs_of(tables@);
        let mut iters: Vec<SsTableIterator> = Vec::new();
        let mut i: usize = 0;
        proof {
            assert(runs_of(iters@) =~= inputs.take(0));
        }
        while i < tables.len()
            invariant
                i <= tables@.len(),
                inputs == inputs_of(tables@),
                iters@.len() == i,
                forall|j: int| 0 <= j < i ==> (#[trigger] iters@[j]).wf(),
                runs_of(iters@) == inputs.take(i as int),
                start_all(inputs.take(i as int)) == Ok::<Seq<Run<ReadError>>, ReadError>(
                    inputs.take(i as int),
                ),
                tables@ == tables_of(self.state@, l0_sstables@),
                *store == *old(store),
            decreases tables@.len() - i,
        {
            proof {
                assert(inputs.take(i + 1).drop_last() =~= inputs.take(i as int));
                assert(inputs.take(i + 1).last() == tables@[i as int].run());
                assert(inputs.take(i + 1) =~= inputs.take(i as int).push(tables@[i as int].run()));
            }
            match SsTableIterator::create_and_seek_to_first(tables[i].clone()) {
                Ok(iter) => {
                    let ghost before = iters@;
                    iters.push(iter);
                    assert(runs_of(iters@) =~= runs_of(before).push(iter.run()));
                },
                Err(e) => {
                    proof {
                        lemma_start_fails(inputs, i + 1, e);
                        lemma_not_started(*self, *store, e);
                    }
                    return Err(CompactionError::Read(e));
                },
            }
            i = i + 1;
        }
        assert(inputs.take(i as int) =~= inputs);
        match self.concat_iterator(l1_sstables, &self.state) {
            Ok(l1) => self.merger(
                store,
                TwoMergeIterator::create(MergeIterator::create(iters), l1),
            ),
            Err(e) => {
                proof {
                    lemma_not_started(*self, *store, e);
                }
                Err(CompactionError::Read(e))
            },
        }
    }

    /// Compacts tables of one level with tables of the next.
    pub fn merge_levels<S: TableStore>(
        &self,
        store: &mut LoggedTables<S>,
        table_upper: &[usize],
        table_lower: &[usize],
    ) -> (r: Result<Vec<Arc<SsTable>>, CompactionError<S::Error>>)
        requires
            known(self.state@, table_upper@),
            known(self.state@, table_lower@),
            self.mvcc matches Some(mvcc) && mvcc.wf(),
        ensures
            compacted(
                *self,
                pair_input(self.state@, false, table_upper@, table_lower@),
                *old(store),
                *final(store),
                r,
            ),
    {
        let upper = match self.concat_iterator(table_upper, &self.state) {
            Ok(upper) => upper,
            Err(e) => {
                proof {
                    lemma_not_started(*self, *store, e);
                }
                return Err(CompactionError::Read(e));
            },
        };
        match self.concat_iterator(table_lower, &self.state) {
            Ok(lower) => self.merger(store, TwoMergeIterator::create(upper, lower)),
            Err(e) => {
                proof {
                    lemma_not_started(*self, *store, e);
                }
                Err(CompactionError::Read(e))
            },
        }
    }

    /// The tables of level 0 and of level 1 that a task compacts, if it compacts level 0.
    pub fn l0_l1_ids<'a>(&self, task: &'a CompactionTask) -> (r: Option<
        (&'a Vec<usize>, &'a Vec<usize>),
    >)
        ensures
            match upper_and_lower(task) {
                Some((true, upper, lower)) => r matches Some(ids) && ids.0@ == upper && ids.1@
                    == lower,
                _ => r is None,
            },
            match task {
                CompactionTask::ForceFullCompaction { l0_sstables, l1_sstables } => {
                    &&& r matches Some(ids)
                    &&& ids.0@ == l0_sstables@
                    &&& ids.1@ == l1_sstables@
                },
                CompactionTask::Simple(t) => {
                    &&& r is Some <==> t.upper_level is None
                    &&& r matches Some(ids) ==> ids.0@ == t.upper_level_sst_ids@ && ids.1@
                        == t.lower_level_sst_ids@
                },
                CompactionTask::Leveled(t) => {
                    &&& r is Some <==> t.upper_level is None
                    &&& r matches Some(ids) ==> ids.0@ == t.upper_level_sst_ids@ && ids.1@
                        == t.lower_level_sst_ids@
                },
                CompactionTask::Tiered(_) => r is None,
            },
    {
        match task {
            CompactionTask::ForceFullCompaction { l0_sstables, l1_sstables } => Some(
                (l0_sstables, l1_sstables),
            ),
            CompactionTask::Simple(t) => if t.upper_level.is_none() {
                Some((&t.upper_level_sst_ids, &t.lower_level_sst_ids))
            } else {
                None
            },
            CompactionTask::Leveled(t) => if t.upper_level.is_none() {
                Some((&t.upper_level_sst_ids, &t.lower_level_sst_ids))
            } else {
                None
            },
            CompactionTask::Tiered(_) => None,
        }
    }

    /// The tables of a level and of the next that a task compacts, if it compacts two levels below
    /// level 0.
    pub fn level_ids<'a>(&self, task: &'a CompactionTask) -> (r: Option<
        (&'a Vec<usize>, &'a Vec<usize>),
    >)
        ensures
            match upper_and_lower(task) {
                Some((false, upper, lower)) => r matches Some(ids) && ids.0@ == upper && ids.1@
                    == lower,
                _ => r is None,
            },
            match task {
                CompactionTask::Simple(t) => {
                    &&& r is Some <==> t.upper_level is Some
                    &&& r matches Some(ids) ==> ids.0@ == t.upper_level_sst_ids@ && ids.1@
                        == t.lower_level_sst_ids@
                },
                CompactionTask::Leveled(t) => {
                    &&& r is Some <==> t.upper_level is Some
                    &&& r matches Some(ids) ==> ids.0@ == t.upper_level_sst_ids@ && ids.1@
                        == t.lower_level_sst_ids@
                },
                _ => r is None,
            },
    {
        match task {
            CompactionTask::Simple(t) => if t.upper_level.is_none() {
                None
            } else {
                Some((&t.upper_level_sst_ids, &t.lower_level_sst_ids))
            },
            CompactionTask::Leveled(t) => if t.upper_level.is_none() {
                None
            } else {
                Some((&t.upper_level_sst_ids, &t.lower_level_sst_ids))
            },
            _ => None,
        }
    }

    /// Carries out a task: merges the tables that it names and writes what survives.
    pub fn compact<S: TableStore>(
        &self,
        store: &mut LoggedTables<S>,
        task: &CompactionTask,
    ) -> (r: Result<Vec<Arc<SsTable>>, CompactionError<S::Error>>)
        requires
            task_known(self.state@, task),
            self.mvcc matches Some(mvcc) && mvcc.wf(),
        ensures
            compacted(*self, task_input(self.state@, task), *old(store), *final(store), r),
    {
        if let Some((l0_sstables, l1_sstables)) = self.l0_l1_ids(task) {
            return self.merge_l0_l1(store, l0_sstables.as_slice(), l1_sstables.as_slice());
        }
        if let Some((upper, lower)) = self.level_ids(task) {
            return self.merge_levels(store, upper.as_slice(), lower.as_slice());
        }
        let mut iters: Vec<SstConcatIterator> = Vec::new();
        if let CompactionTask::Tiered(t) = task {
            let ghost inputs = tier_inputs(self.state@, t.tiers@);
            let mut i: usize = 0;
            proof {
                assert(runs_of(iters@) =~= inputs.take(0));
            }
            while i < t.tiers.len()
                invariant
                    i <= t.tiers@.len(),
                    inputs == tier_inputs(self.state@, t.tiers@),
                    task_input(self.state@, task) == merged_input(inputs),
                    iters@.len() == i,
                    tiers_known(self.state@, t.tiers@),
                    forall|j: int| 0 <= j < i ==> (#[trigger] iters@[j]).wf(),
                    runs_of(iters@) == inputs.take(i as int),
                    start_all(inputs.take(i as int)) == Ok::<Seq<Run<ReadError>>, ReadError>(
                        inputs.take(i as int),
                    ),
                    *store == *old(store),
                decreases t.tiers@.len() - i,
            {
                let ghost input = concat_run(tables_of(self.state@, t.tiers@[i as int].1@));
                proof {
                    assert(inputs.take(i + 1).drop_last() =~= inputs.take(i as int));
                    assert(inputs.take(i + 1).last() == input);
                    assert(inputs.take(i + 1) =~= inputs.take(i as int).push(input));
                }
                match self.concat_iterator(t.tiers[i].1.as_slice(), &self.state) {
                    Ok(iter) => {
                        let ghost before = iters@;
                        iters.push(iter);
                        assert(runs_of(iters@) =~= runs_of(before).push(iter.run()));
                    },
                    Err(e) => {
                        proof {
                            lemma_start_fails(inputs, i + 1, e);
                            lemma_not_started(*self, *store, e);
                        }
                        return Err(CompactionError::Read(e));
                    },
                }
                i = i + 1;
            }
            assert(inputs.take(i as int) =~= inputs);
        }
        self.merger(store, MergeIterator::create(iters))
    }
}

} // verus!
