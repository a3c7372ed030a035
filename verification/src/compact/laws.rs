//! What holds of compactions as a whole.
#[allow(unused_imports)]
use crate::compact::install::{
    after_full_compaction, arranged_output, cleanup_result, full_run, ids_of, insert_tables,
    install_outcome, record_result, removals, reply_outcome, storage_result, task_outcome,
    with_tables, without_tables,
};
#[allow(unused_imports)]
use crate::compact::merge::{
    comes_to_write, compacted_into, compaction_result, input_result, table_writes, writes_of,
};
#[allow(unused_imports)]
use crate::compact::retention::{
    law_compaction_keeps_versions, law_compaction_preserves_reads, law_no_table_is_empty,
    law_tables_hold_what_survives, lemma_nothing_open, retained, split_run, Cut,
};
#[allow(unused_imports)]
use crate::compact::tasks::{
    inputs_of, known, l0_run, lemma_start_all, level_run, merged_input, pair_input, tables_of,
    task_input, task_run, tier_inputs, tier_runs, upper_and_lower,
};
use crate::compact::{
    CompactionController, CompactionError, CompactionTask, LeveledPolicy, SimpleLeveledPolicy,
    TieredPolicy,
};
#[allow(unused_imports)]
use crate::iterators::{
    items_of_runs, lemma_whole_merge, lemma_whole_merge_all, merge_all, positioned, started,
    two_merge, whole, Item,
};
use crate::iterators::Run;
use crate::key::TS_MAX;
#[allow(unused_imports)]
use crate::lsm_storage::{StateView, TableAction};
use crate::lsm_storage::{LsmStorageInner, LsmStorageState, TableStore};
#[allow(unused_imports)]
use crate::mvcc::txn::TxnView;
#[allow(unused_imports)]
use crate::mvcc::txn_laws::law_watermark_bounds_transactions;
#[allow(unused_imports)]
use crate::runs::{
    law_merge_all_newest, law_merge_all_sorted, law_two_merge_newest, law_two_merge_sorted,
    live_value, newer, newest_version, read_at, sorted, version_at,
};
#[allow(unused_imports)]
use crate::table::{concat_run, concat_tables, lemma_readable_run, readable, table_runs};
use crate::table::{ReadError, SsTable};
use std::sync::Arc;
use vstd::prelude::*;

verus! {

/// The tables of a compaction hold, one behind the other, what survives of its input.
pub proof fn law_output_is_what_survives<S: TableStore, C>(
    inner: LsmStorageInner<C>,
    store: S,
    run: Seq<Item>,
    tables: Seq<Arc<SsTable>>,
)
    requires
        compacted_into(inner, store, run, tables),
    ensures
        concat_tables(tables) == retained(run, inner.read_horizon()),
{
    let w = inner.read_horizon();
    let target = inner.options.target_sst_size;
    let sizes = choose|sizes: Seq<usize>|
        sizes.len() == run.len() && table_runs(tables) == #[trigger] split_run(
            run,
            w,
            target,
            sizes,
        );
    law_tables_hold_what_survives(run, w, target, sizes);
}

/// No table of a compaction is empty.
pub proof fn law_output_has_no_empty_table<S: TableStore, C>(
    inner: LsmStorageInner<C>,
    store: S,
    run: Seq<Item>,
    tables: Seq<Arc<SsTable>>,
)
    requires
        compacted_into(inner, store, run, tables),
    ensures
        forall|i: int| 0 <= i < tables.len() ==> (#[trigger] tables[i]).items().len() > 0,
{
    let w = inner.read_horizon();
    let target = inner.options.target_sst_size;
    let sizes = choose|sizes: Seq<usize>|
        sizes.len() == run.len() && table_runs(tables) == #[trigger] split_run(
            run,
            w,
            target,
            sizes,
        );
    law_no_table_is_empty(run, w, target, sizes);
    assert forall|i: int| 0 <= i < tables.len() implies (#[trigger] tables[i]).items().len()
        > 0 by {
        assert(table_runs(tables)[i] == tables[i].items());
    }
}

/// A compaction of which nothing survives, such as one of an empty run, draws no identifier and
/// writes nothing. It succeeds without a table, unless its input cannot be read to the end.
pub proof fn law_nothing_survives_nothing_done<S: TableStore, C>(
    inner: LsmStorageInner<C>,
    store: S,
    run: Run<ReadError>,
    actions: Seq<TableAction<S::Error>>,
    r: Result<Vec<Arc<SsTable>>, CompactionError<S::Error>>,
)
    requires
        retained(run.items, inner.read_horizon()).len() == 0,
        compaction_result(inner, store, run, actions, r),
    ensures
        actions == Seq::<TableAction<S::Error>>::empty(),
        match run.end {
            None => r matches Ok(tables) && tables@ == Seq::<Arc<SsTable>>::empty(),
            Some(e) => r == Err::<Vec<Arc<SsTable>>, CompactionError<S::Error>>(
                CompactionError::Read(e),
            ),
        },
{
    let w = inner.read_horizon();
    let target = inner.options.target_sst_size;
    let items = run.items;
    match r {
        Ok(tables) => {
            let sizes = choose|sizes: Seq<usize>|
                sizes.len() == items.len() && table_runs(tables@) == #[trigger] split_run(
                    items,
                    w,
                    target,
                    sizes,
                );
            law_no_table_is_empty(items, w, target, sizes);
            assert(table_runs(tables@).len() == tables@.len());
            assert(tables@ =~= Seq::<Arc<SsTable>>::empty());
        },
        Err(CompactionError::Storage(e)) => {
            let (written, failed) = choose|written: Seq<Arc<SsTable>>, failed: SsTable|
                {
                    &&& #[trigger] comes_to_write(
                        inner,
                        store,
                        run,
                        Cut { done: table_runs(written), open: failed.items() },
                    )
                    &&& actions == writes_of::<S::Error>(written) + table_writes(failed, Err(e))
                };
            let cut = Cut { done: table_runs(written), open: failed.items() };
            let (passed, sizes) = choose|passed: Seq<Item>, sizes: Seq<usize>|
                {
                    &&& passed.len() <= items.len()
                    &&& passed == items.take(passed.len() as int)
                    &&& cut == #[trigger] inner.cut_of(passed, sizes)
                    &&& cut.open.len() > 0
                };
            lemma_nothing_open(items, passed.len() as int, w, target, sizes);
        },
        Err(CompactionError::Read(e)) => {
            let (written, sizes) = choose|written: Seq<Arc<SsTable>>, sizes: Seq<usize>|
                {
                    &&& table_runs(written) == (#[trigger] inner.cut_of(items, sizes)).done
                    &&& actions == #[trigger] writes_of::<S::Error>(written)
                };
            assert(items.take(items.len() as int) =~= items);
            lemma_nothing_open(items, items.len() as int, w, target, sizes);
            assert(table_runs(written).len() == written.len());
        },
        Err(CompactionError::UnknownTable) => {},
    }
}

/// Whether every table that a task names can be read to its end.
pub open spec fn task_readable(state: StateView, task: &CompactionTask) -> bool {
    match task {
        CompactionTask::Tiered(t) => forall|i: int|
            0 <= i < t.tiers@.len() ==> readable(tables_of(state, (#[trigger] t.tiers@[i]).1@)),
        _ => {
            let (_from_l0, upper, lower) = upper_and_lower(task)->Some_0;
            readable(tables_of(state, upper)) && readable(tables_of(state, lower))
        },
    }
}

/// Tables of level 0 can be read to the end exactly if each can.
proof fn lemma_l0_input(tables: Seq<Arc<SsTable>>)
    ensures
        (merged_input(inputs_of(tables)) matches Ok(run) && run.end is None) <==> readable(tables),
        merged_input(inputs_of(tables)) matches Ok(run) ==> positioned(run) && (run.end is None
            ==> run.items == merge_all(table_runs(tables))),
{
    let inputs = inputs_of(tables);
    lemma_start_all(inputs);
    assert(items_of_runs(inputs) =~= table_runs(tables));
    if readable(tables) {
        assert forall|i: int| 0 <= i < inputs.len() implies positioned(#[trigger] inputs[i])
            && inputs[i].end is None by {
            assert(tables[i].failure() is None);
        }
    }
    if let Ok(run) = merged_input(inputs) {
        lemma_whole_merge_all(inputs);
        if run.end is None {
            assert forall|i: int| 0 <= i < tables.len() implies (
            #[trigger] tables[i]).failure() is None by {
                assert(inputs[i].end is None);
            }
        }
    }
}

/// Tiers can be read to the end exactly if each of their tables can.
proof fn lemma_tiers_input(state: StateView, tiers: Seq<(usize, Vec<usize>)>)
    ensures
        (merged_input(tier_inputs(state, tiers)) matches Ok(run) && run.end is None) <==> (forall|
            i: int,
        |
            0 <= i < tiers.len() ==> readable(tables_of(state, (#[trigger] tiers[i]).1@))),
        merged_input(tier_inputs(state, tiers)) matches Ok(run) ==> (run.end is None ==> run.items
            == merge_all(tier_runs(state, tiers))),
{
    let inputs = tier_inputs(state, tiers);
    lemma_start_all(inputs);
    assert forall|i: int| 0 <= i < tiers.len() implies {
        &&& (#[trigger] inputs[i]) == concat_run(tables_of(state, tiers[i].1@))
        &&& inputs[i].end is None <==> readable(tables_of(state, tiers[i].1@))
        &&& inputs[i].end is None ==> inputs[i].items == level_run(state, tiers[i].1@)
    } by {
        lemma_readable_run(tables_of(state, tiers[i].1@));
    }
    if forall|i: int|
        0 <= i < tiers.len() ==> readable(tables_of(state, (#[trigger] tiers[i]).1@)) {
        assert forall|i: int| 0 <= i < inputs.len() implies positioned(#[trigger] inputs[i])
            && inputs[i].end is None by {
            assert(readable(tables_of(state, tiers[i].1@)));
        }
    }
    if let Ok(run) = merged_input(inputs) {
        lemma_whole_merge_all(inputs);
        if run.end is None {
            assert forall|i: int| 0 <= i < tiers.len() implies readable(
                tables_of(state, (#[trigger] tiers[i]).1@),
            ) by {
                assert(inputs[i].end is None);
            }
            assert forall|i: int| 0 <= i < inputs.len() implies items_of_runs(inputs)[i]
                == #[trigger] tier_runs(state, tiers)[i] by {
                assert(inputs[i].end is None);
            }
            assert(items_of_runs(inputs) =~= tier_runs(state, tiers));
        }
    }
}

/// The input of a task can be read to the end exactly if every table that it names can, and then
/// is what the task merges.
pub proof fn law_readable_input(state: StateView, task: &CompactionTask)
    ensures
        (task_input(state, task) matches Ok(run) && run.end is None) <==> task_readable(
            state,
            task,
        ),
        task_readable(state, task) ==> task_input(state, task) == Ok::<Run<ReadError>, ReadError>(
            whole(task_run(state, task)),
        ),
{
    match task {
        CompactionTask::Tiered(t) => {
            lemma_tiers_input(state, t.tiers@);
        },
        _ => {
            let (from_l0, upper, lower) = upper_and_lower(task)->Some_0;
            lemma_pair_input(state, from_l0, upper, lower);
        },
    }
}

/// Two levels can be read to the end exactly if each of their tables can.
pub(crate) proof fn lemma_pair_input(
    state: StateView,
    from_l0: bool,
    upper: Seq<usize>,
    lower: Seq<usize>,
)
    ensures
        (pair_input(state, from_l0, upper, lower) matches Ok(run) && run.end is None) <==> readable(
            tables_of(state, upper),
        ) && readable(tables_of(state, lower)),
        pair_input(state, from_l0, upper, lower) matches Ok(run) ==> (run.end is None ==> run.items
            == two_merge(
            if from_l0 {
                l0_run(state, upper)
            } else {
                level_run(state, upper)
            },
            level_run(state, lower),
        )),
{
    let up = if from_l0 {
        merged_input(inputs_of(tables_of(state, upper)))
    } else {
        started(concat_run(tables_of(state, upper)))
    };
    let low = started(concat_run(tables_of(state, lower)));
    lemma_l0_input(tables_of(state, upper));
    lemma_readable_run(tables_of(state, upper));
    lemma_readable_run(tables_of(state, lower));
    if up is Ok && low is Ok {
        lemma_whole_merge(up->Ok_0, low->Ok_0);
    }
}

/// A compaction that succeeds has read all of its input: its tables are made of what its task
/// merges.
pub proof fn law_success_reads_everything<S: TableStore, C>(
    inner: LsmStorageInner<C>,
    store: S,
    task: &CompactionTask,
    actions: Seq<TableAction<S::Error>>,
    tables: Vec<Arc<SsTable>>,
)
    requires
        input_result(inner, store, task_input(inner.state@, task), actions, Ok(tables)),
    ensures
        task_readable(inner.state@, task),
        compacted_into(inner, store, task_run(inner.state@, task), tables@),
{
    law_readable_input(inner.state@, task);
}

/// Whether the inputs of a task are sorted: each table of level 0, and each level or tier as a
/// whole.
pub open spec fn task_sorted(state: StateView, task: &CompactionTask) -> bool {
    match task {
        CompactionTask::Tiered(t) => forall|i: int|
            0 <= i < tier_runs(state, t.tiers@).len() ==> sorted(
                #[trigger] tier_runs(state, t.tiers@)[i],
            ),
        _ => {
            let (from_l0, upper, lower) = upper_and_lower(task)->Some_0;
            &&& from_l0 ==> forall|i: int|
                0 <= i < upper.len() ==> sorted(
                    #[trigger] table_runs(tables_of(state, upper))[i],
                )
            &&& !from_l0 ==> sorted(level_run(state, upper))
            &&& sorted(level_run(state, lower))
        },
    }
}

/// The newest version of a user key over the inputs of a task, as of `ts`. Of two versions with
/// one timestamp the one of the newer table, level or tier counts.
pub open spec fn task_version(
    state: StateView,
    task: &CompactionTask,
    user: Seq<u8>,
    ts: u64,
) -> Option<Item> {
    match task {
        CompactionTask::Tiered(t) => newest_version(tier_runs(state, t.tiers@), user, ts),
        _ => {
            let (from_l0, upper, lower) = upper_and_lower(task)->Some_0;
            newer(
                if from_l0 {
                    newest_version(table_runs(tables_of(state, upper)), user, ts)
                } else {
                    version_at(level_run(state, upper), user, ts)
                },
                version_at(level_run(state, lower), user, ts),
            )
        },
    }
}

/// What a task merges is sorted, and holds the newest versions of its inputs.
pub proof fn law_task_run_holds_newest(
    state: StateView,
    task: &CompactionTask,
    user: Seq<u8>,
    ts: u64,
)
    requires
        task_sorted(state, task),
    ensures
        sorted(task_run(state, task)),
        version_at(task_run(state, task), user, ts) == task_version(state, task, user, ts),
{
    match task {
        CompactionTask::Tiered(t) => {
            law_merge_all_sorted(tier_runs(state, t.tiers@));
            law_merge_all_newest(tier_runs(state, t.tiers@), user, ts);
        },
        _ => {
            let (from_l0, upper, lower) = upper_and_lower(task)->Some_0;
            let up = if from_l0 {
                l0_run(state, upper)
            } else {
                level_run(state, upper)
            };
            if from_l0 {
                law_merge_all_sorted(table_runs(tables_of(state, upper)));
                law_merge_all_newest(table_runs(tables_of(state, upper)), user, ts);
            }
            law_two_merge_sorted(up, level_run(state, lower));
            law_two_merge_newest(up, level_run(state, lower), user, ts);
        },
    }
}

/// A compaction does not change what readers see: at the oldest timestamp that can still be read
/// at or after it, every user key reads the same in the tables that a task makes as in the newest
/// of the tables that it was given.
pub proof fn law_compaction_is_invisible<S: TableStore, C>(
    inner: LsmStorageInner<C>,
    store: S,
    task: &CompactionTask,
    tables: Seq<Arc<SsTable>>,
    user: Seq<u8>,
    ts: u64,
)
    requires
        task_sorted(inner.state@, task),
        compacted_into(inner, store, task_run(inner.state@, task), tables),
        inner.read_horizon() < TS_MAX,
        inner.read_horizon() <= ts,
    ensures
        read_at(concat_tables(tables), user, ts) == live_value(
            task_version(inner.state@, task, user, ts),
        ),
{
    law_task_run_holds_newest(inner.state@, task, user, ts);
    law_output_is_what_survives(inner, store, task_run(inner.state@, task), tables);
    law_compaction_preserves_reads(
        task_run(inner.state@, task),
        inner.read_horizon(),
        user,
        ts,
    );
}

/// A compaction does not change what a transaction in progress reads from the tables: its
/// timestamp holds back the oldest one that compactions may assume.
pub proof fn law_transactions_survive_compaction<S: TableStore, C>(
    inner: LsmStorageInner<C>,
    store: S,
    task: &CompactionTask,
    tables: Seq<Arc<SsTable>>,
    txn: TxnView,
    user: Seq<u8>,
)
    requires
        inner.mvcc is Some,
        inner.mvcc->Some_0@.readers.contains(txn.read_ts),
        txn.read_ts < TS_MAX,
        task_sorted(inner.state@, task),
        compacted_into(inner, store, task_run(inner.state@, task), tables),
    ensures
        read_at(concat_tables(tables), user, txn.read_ts) == live_value(
            task_version(inner.state@, task, user, txn.read_ts),
        ),
{
    law_watermark_bounds_transactions(txn, inner.mvcc->Some_0@);
    law_compaction_is_invisible(inner, store, task, tables, user, txn.read_ts);
}

/// Whether the version found in a run is a deletion that a compaction drops, while the version
/// found below is a value that the deletion hides.
pub open spec fn drops_hiding_deletion(
    found: Option<Item>,
    below: Option<Item>,
    watermark: u64,
) -> bool {
    match (found, below) {
        (Some(d), Some(b)) => {
            &&& d.key.ts <= watermark
            &&& d.value.len() == 0
            &&& b.key.ts <= d.key.ts
            &&& b.value.len() > 0
        },
        _ => false,
    }
}

/// What a compaction changes for a reader who also looks into a deeper level `below`: nothing,
/// except where it drops a deletion that hides an older value there.
pub proof fn law_compaction_above_deeper_levels(
    run: Seq<Item>,
    below: Seq<Item>,
    watermark: u64,
    user: Seq<u8>,
    ts: u64,
)
    requires
        sorted(run),
        watermark < TS_MAX,
        watermark <= ts,
        !drops_hiding_deletion(
            version_at(run, user, ts),
            version_at(below, user, ts),
            watermark,
        ),
    ensures
        live_value(
            newer(
                version_at(retained(run, watermark), user, ts),
                version_at(below, user, ts),
            ),
        ) == live_value(newer(version_at(run, user, ts), version_at(below, user, ts))),
{
    law_compaction_keeps_versions(run, watermark, user, ts);
}

/// Tables that are put into a map under different identifiers are all found there.
proof fn lemma_inserted_found(
    map: Map<usize, Arc<SsTable>>,
    tables: Seq<Arc<SsTable>>,
)
    requires
        ids_of(tables).no_duplicates(),
    ensures
        forall|i: int|
            0 <= i < tables.len() ==> insert_tables(map, tables).contains_key(
                #[trigger] tables[i].id(),
            ) && insert_tables(map, tables)[tables[i].id()] == tables[i],
    decreases tables.len(),
{
    if tables.len() > 0 {
        let front = tables.drop_last();
        assert(ids_of(front) =~= ids_of(tables).drop_last());
        lemma_inserted_found(map, front);
        assert forall|i: int| 0 <= i < tables.len() implies insert_tables(
            map,
            tables,
        ).contains_key(#[trigger] tables[i].id()) && insert_tables(map, tables)[tables[i].id()]
            == tables[i] by {
            if i < front.len() {
                assert(front[i].id() == tables[i].id());
                assert(ids_of(tables)[i] != ids_of(tables)[front.len() as int]);
            }
        }
    }
}

/// Putting tables into a map changes nothing under other identifiers.
proof fn lemma_inserted_frame(
    map: Map<usize, Arc<SsTable>>,
    tables: Seq<Arc<SsTable>>,
    id: usize,
)
    ensures
        map.contains_key(id) ==> insert_tables(map, tables).contains_key(id),
        !ids_of(tables).contains(id) ==> {
            &&& insert_tables(map, tables).contains_key(id) == map.contains_key(id)
            &&& insert_tables(map, tables)[id] == map[id]
        },
    decreases tables.len(),
{
    if tables.len() > 0 {
        let front = tables.drop_last();
        lemma_inserted_frame(map, front, id);
        if !ids_of(tables).contains(id) {
            assert(ids_of(tables)[tables.len() - 1] == tables.last().id());
            assert forall|k: int|
                0 <= k < front.len() implies #[trigger] ids_of(front)[k] != id by {
                assert(ids_of(tables)[k] == ids_of(front)[k]);
            }
        }
    }
}

/// Deleting tables undoes inserting them.
pub proof fn law_delete_undoes_insert(state: StateView, tables: Seq<Arc<SsTable>>)
    requires
        forall|i: int|
            0 <= i < tables.len() ==> !state.sstables.contains_key(#[trigger] ids_of(tables)[i]),
    ensures
        without_tables(with_tables(state, tables), ids_of(tables)) == state,
{
    let after = without_tables(with_tables(state, tables), ids_of(tables));
    assert forall|id: usize|
        #![trigger after.sstables.dom().contains(id)]
        #![trigger after.sstables[id]]
        after.sstables.dom().contains(id) == state.sstables.dom().contains(id) && (
        state.sstables.dom().contains(id) ==> after.sstables[id] == state.sstables[id]) by {
        lemma_inserted_frame(state.sstables, tables, id);
        if ids_of(tables).contains(id) {
            let k = choose|k: int| 0 <= k < tables.len() && ids_of(tables)[k] == id;
            assert(!state.sstables.contains_key(ids_of(tables)[k]));
        }
    }
    assert(after.sstables =~= state.sstables);
}

/// Whether every table that a state arranges is there.
pub open spec fn arranged_tables_exist(state: StateView) -> bool {
    &&& known(state, state.l0_sstables)
    &&& forall|i: int| 0 <= i < state.levels.len() ==> known(state, (#[trigger] state.levels[i]).1)
}

/// Whether no deeper level arranges a table that level 0 or level 1 arranges.
pub open spec fn deeper_levels_are_apart(state: StateView) -> bool {
    forall|i: int, k: int|
        #![trigger state.levels[i].1[k]]
        1 <= i < state.levels.len() && 0 <= k < state.levels[i].1.len() ==> {
            &&& !state.l0_sstables.contains(state.levels[i].1[k])
            &&& !state.levels[0].1.contains(state.levels[i].1[k])
        }
}

/// A full compaction leaves level 0 empty, puts exactly the new tables into level 1, and does
/// not touch the deeper levels; every table that is arranged is still there.
pub proof fn law_full_compaction_state(state: StateView, tables: Seq<Arc<SsTable>>)
    requires
        state.levels.len() > 0,
        arranged_tables_exist(state),
        deeper_levels_are_apart(state),
        ids_of(tables).no_duplicates(),
    ensures
        ({
            let after = after_full_compaction(
                state,
                state.l0_sstables,
                state.levels[0].1,
                tables,
            );
            &&& after.l0_sstables == Seq::<usize>::empty()
            &&& tables_of(after, after.levels[0].1) == tables
            &&& after.levels.len() == state.levels.len()
            &&& forall|i: int|
                1 <= i < state.levels.len() ==> #[trigger] after.levels[i] == state.levels[i]
            &&& arranged_tables_exist(after)
        }),
{
    let l0 = state.l0_sstables;
    let l1 = state.levels[0].1;
    let after = after_full_compaction(state, l0, l1, tables);
    let stays = |id: usize| !l0.contains(id);
    if after.l0_sstables.len() > 0 {
        let x = l0.filter(stays)[0];
        l0.lemma_filter_pred(stays, 0);
        assert(l0.filter(stays).contains(x));
        l0.lemma_filter_contains_rev(stays, x);
    }
    assert(after.l0_sstables =~= Seq::<usize>::empty());
    let map = state.sstables.remove_keys((l0 + l1).to_set());
    lemma_inserted_found(map, tables);
    assert forall|i: int| 0 <= i < tables.len() implies after.sstables.contains_key(
        #[trigger] ids_of(tables)[i],
    ) && after.sstables[ids_of(tables)[i]] == tables[i] by {
        assert(ids_of(tables)[i] == tables[i].id());
    }
    assert(tables_of(after, after.levels[0].1) =~= tables);
    assert forall|i: int| 0 <= i < after.levels.len() implies known(
        after,
        (#[trigger] after.levels[i]).1,
    ) by {
        if i > 0 {
            assert(after.levels[i] == state.levels[i]);
            assert(known(state, state.levels[i].1));
            assert forall|k: int|
                0 <= k < after.levels[i].1.len() implies after.sstables.contains_key(
                #[trigger] after.levels[i].1[k],
            ) by {
                let id = state.levels[i].1[k];
                assert(state.sstables.contains_key(id));
                assert(!(l0 + l1).contains(id)) by {
                    if (l0 + l1).contains(id) {
                        let m = choose|m: int| 0 <= m < (l0 + l1).len() && (l0 + l1)[m] == id;
                        if m < l0.len() {
                            assert(l0[m] == id);
                        } else {
                            assert(l1[m - l0.len()] == id);
                        }
                    }
                }
                lemma_inserted_frame(map, tables, id);
            }
        } else {
            assert(after.levels[0].1 == ids_of(tables));
        }
    }
}

/// Whether a state arranges a table somewhere.
pub open spec fn arranged(state: StateView, id: usize) -> bool {
    ||| state.l0_sstables.contains(id)
    ||| exists|i: int| 0 <= i < state.levels.len() && (#[trigger] state.levels[i]).1.contains(id)
}

/// Whether a state has every table under the table's own identifier, arranges each of them exactly
/// once, and arranges no other.
pub open spec fn each_table_arranged_once(state: StateView) -> bool {
    &&& arranged_tables_exist(state)
    &&& forall|id: usize| #[trigger]
        state.sstables.contains_key(id) ==> arranged(state, id) && state.sstables[id].id() == id
    &&& state.l0_sstables.no_duplicates()
    &&& forall|i: int|
        0 <= i < state.levels.len() ==> {
            &&& (#[trigger] state.levels[i]).1.no_duplicates()
            &&& lists_apart(state.l0_sstables, state.levels[i].1)
        }
    &&& forall|i: int, j: int|
        #![trigger state.levels[i], state.levels[j]]
        0 <= i < j < state.levels.len() ==> lists_apart(state.levels[i].1, state.levels[j].1)
}

/// Whether two lists of identifiers have none in common.
pub open spec fn lists_apart(a: Seq<usize>, b: Seq<usize>) -> bool {
    forall|id: usize| !(#[trigger] a.contains(id) && #[trigger] b.contains(id))
}

/// A full compaction leaves no table behind and arranges none twice: if a state arranges each of
/// its tables exactly once, and the new tables have fresh identifiers, so does the state after.
pub proof fn law_full_compaction_arranges_each_once(state: StateView, tables: Seq<Arc<SsTable>>)
    requires
        state.levels.len() > 0,
        each_table_arranged_once(state),
        ids_of(tables).no_duplicates(),
        forall|i: int|
            0 <= i < tables.len() ==> !state.sstables.contains_key(#[trigger] ids_of(tables)[i]),
    ensures
        each_table_arranged_once(
            after_full_compaction(state, state.l0_sstables, state.levels[0].1, tables),
        ),
{
    let l0 = state.l0_sstables;
    let l1 = state.levels[0].1;
    let ids = ids_of(tables);
    let after = after_full_compaction(state, l0, l1, tables);
    assert(deeper_levels_are_apart(state)) by {
        assert forall|i: int, k: int|
            #![trigger state.levels[i].1[k]]
            1 <= i < state.levels.len() && 0 <= k < state.levels[i].1.len() implies {
            &&& !l0.contains(state.levels[i].1[k])
            &&& !l1.contains(state.levels[i].1[k])
        } by {
            let id = state.levels[i].1[k];
            assert(state.levels[i].1.contains(id));
            assert(lists_apart(l0, state.levels[i].1));
            assert(lists_apart(state.levels[0].1, state.levels[i].1));
        }
    }
    law_full_compaction_state(state, tables);
    let map = state.sstables.remove_keys((l0 + l1).to_set());
    lemma_inserted_found(map, tables);
    assert forall|id: usize| #[trigger] after.sstables.contains_key(id) implies arranged(after, id)
        && after.sstables[id].id() == id by {
        lemma_inserted_frame(map, tables, id);
        if ids.contains(id) {
            assert(after.levels[0].1.contains(id));
            let k = choose|k: int| 0 <= k < ids.len() && ids[k] == id;
            assert(tables[k].id() == id);
        } else {
            assert(state.sstables.contains_key(id) && !(l0 + l1).contains(id));
            assert(!l0.contains(id)) by {
                if l0.contains(id) {
                    let k = choose|k: int| 0 <= k < l0.len() && l0[k] == id;
                    assert((l0 + l1)[k] == id);
                }
            }
            assert(!l1.contains(id)) by {
                if l1.contains(id) {
                    let k = choose|k: int| 0 <= k < l1.len() && l1[k] == id;
                    assert((l0 + l1)[l0.len() + k] == id);
                }
            }
            let i = choose|i: int|
                0 <= i < state.levels.len() && (#[trigger] state.levels[i]).1.contains(id);
            assert(after.levels[i] == state.levels[i]);
        }
    }
    assert forall|i: int, j: int|
        #![trigger after.levels[i], after.levels[j]]
        0 <= i < j < after.levels.len() implies lists_apart(
        after.levels[i].1,
        after.levels[j].1,
    ) by {
        assert(after.levels[j] == state.levels[j]);
        if i > 0 {
            assert(after.levels[i] == state.levels[i]);
            assert(lists_apart(state.levels[i].1, state.levels[j].1));
        } else {
            assert forall|id: usize|
                !(#[trigger] ids.contains(id) && #[trigger] state.levels[j].1.contains(id)) by {
                if ids.contains(id) && state.levels[j].1.contains(id) {
                    let k = choose|k: int| 0 <= k < ids.len() && ids[k] == id;
                    assert(!state.sstables.contains_key(ids[k]));
                    let m = choose|m: int|
                        0 <= m < state.levels[j].1.len() && state.levels[j].1[m] == id;
                    assert(known(state, state.levels[j].1));
                    assert(state.sstables.contains_key(state.levels[j].1[m]));
                }
            }
        }
    }
    assert forall|i: int| 0 <= i < after.levels.len() implies {
        &&& (#[trigger] after.levels[i]).1.no_duplicates()
        &&& lists_apart(after.l0_sstables, after.levels[i].1)
    } by {
        if i > 0 {
            assert(after.levels[i] == state.levels[i]);
        }
    }
}

/// A full compaction of the tables `l0` keeps the tables that have come to level 0 besides them.
pub proof fn law_full_compaction_keeps_new_tables(
    state: StateView,
    l0: Seq<usize>,
    l1: Seq<usize>,
    tables: Seq<Arc<SsTable>>,
    i: int,
)
    requires
        0 <= i < state.l0_sstables.len(),
        !l0.contains(state.l0_sstables[i]),
    ensures
        after_full_compaction(state, l0, l1, tables).l0_sstables.contains(state.l0_sstables[i]),
{
    let stays = |id: usize| !l0.contains(id);
    assert(stays(state.l0_sstables[i]));
    state.l0_sstables.lemma_filter_contains(stays, i);
}

/// Whether each table of level 0 is sorted, and level 1 as a whole.
pub open spec fn upper_levels_sorted(state: StateView) -> bool {
    &&& forall|i: int|
        0 <= i < state.l0_sstables.len() ==> sorted(
            #[trigger] table_runs(tables_of(state, state.l0_sstables))[i],
        )
    &&& sorted(level_run(state, state.levels[0].1))
}

/// A full compaction does not change what readers see in level 0 and level 1: at the oldest
/// timestamp that can still be read at or after it, every user key reads the same in the state
/// after as in the state before.
pub proof fn law_full_compaction_is_invisible<S: TableStore, C>(
    inner: LsmStorageInner<C>,
    store: S,
    tables: Seq<Arc<SsTable>>,
    user: Seq<u8>,
    ts: u64,
)
    requires
        inner.state@.levels.len() > 0,
        arranged_tables_exist(inner.state@),
        deeper_levels_are_apart(inner.state@),
        ids_of(tables).no_duplicates(),
        upper_levels_sorted(inner.state@),
        compacted_into(inner, store, full_run(inner.state@), tables),
        inner.read_horizon() < TS_MAX,
        inner.read_horizon() <= ts,
    ensures
        read_at(
            full_run(
                after_full_compaction(
                    inner.state@,
                    inner.state@.l0_sstables,
                    inner.state@.levels[0].1,
                    tables,
                ),
            ),
            user,
            ts,
        ) == read_at(full_run(inner.state@), user, ts),
{
    let state = inner.state@;
    let after = after_full_compaction(state, state.l0_sstables, state.levels[0].1, tables);
    law_full_compaction_state(state, tables);
    assert(table_runs(tables_of(after, after.l0_sstables)) =~= Seq::<Seq<Item>>::empty());
    assert(full_run(after) == concat_tables(tables));
    law_merge_all_sorted(table_runs(tables_of(state, state.l0_sstables)));
    law_two_merge_sorted(
        l0_run(state, state.l0_sstables),
        level_run(state, state.levels[0].1),
    );
    law_output_is_what_survives(inner, store, full_run(state), tables);
    law_compaction_preserves_reads(full_run(state), inner.read_horizon(), user, ts);
}

/// Whether an action concerns new tables only: it draws an identifier or writes a table.
pub open spec fn is_write<E>(action: TableAction<E>) -> bool {
    action is DrewId || action is Wrote
}

/// Writing tables does nothing but draw identifiers and write.
proof fn lemma_only_writes<E>(tables: Seq<Arc<SsTable>>)
    ensures
        forall|i: int|
            0 <= i < writes_of::<E>(tables).len() ==> is_write(
                #[trigger] writes_of::<E>(tables)[i],
            ),
    decreases tables.len(),
{
    if tables.len() > 0 {
        lemma_only_writes::<E>(tables.drop_last());
        let all = writes_of::<E>(tables);
        let front = writes_of::<E>(tables.drop_last());
        assert forall|i: int| 0 <= i < all.len() implies is_write(#[trigger] all[i]) by {
            if i < front.len() {
                assert(all[i] == front[i]);
            } else {
                assert(all[i] == table_writes::<E>(*tables.last(), Ok(()))[i - front.len()]);
            }
        }
    }
}

/// Until its tables are written, a compaction does nothing but draw identifiers and write tables,
/// however it ends.
pub proof fn law_compaction_only_writes<S: TableStore, C>(
    inner: LsmStorageInner<C>,
    store: S,
    input: Result<Run<ReadError>, ReadError>,
    actions: Seq<TableAction<S::Error>>,
    r: Result<Vec<Arc<SsTable>>, CompactionError<S::Error>>,
)
    requires
        input_result(inner, store, input, actions, r),
    ensures
        forall|i: int| 0 <= i < actions.len() ==> is_write(#[trigger] actions[i]),
{
    if let Ok(run) = input {
        match r {
            Ok(tables) => {
                lemma_only_writes::<S::Error>(tables@);
            },
            Err(CompactionError::Storage(e)) => {
                let (written, failed) = choose|written: Seq<Arc<SsTable>>, failed: SsTable|
                    {
                        &&& #[trigger] comes_to_write(
                            inner,
                            store,
                            run,
                            Cut { done: table_runs(written), open: failed.items() },
                        )
                        &&& actions == writes_of::<S::Error>(written) + table_writes(failed, Err(e))
                    };
                lemma_only_writes::<S::Error>(written);
            },
            Err(CompactionError::Read(e)) => {
                let (written, sizes) = choose|written: Seq<Arc<SsTable>>, sizes: Seq<usize>|
                    {
                        &&& table_runs(written) == (#[trigger] inner.cut_of(run.items, sizes)).done
                        &&& actions == #[trigger] writes_of::<S::Error>(written)
                    };
                lemma_only_writes::<S::Error>(written);
            },
            Err(CompactionError::UnknownTable) => {},
        }
    }
}

/// Whether an action has recorded a task with success.
pub open spec fn has_recorded<E>(action: TableAction<E>, task: &CompactionTask) -> bool {
    action matches TableAction::Recorded(recorded, _output, answer) && recorded == *task
        && answer is Ok
}

/// No file is removed before the compaction is recorded: before each removal of a round stands a
/// record of its task that succeeded. So a round whose compaction or record fails removes nothing.
pub proof fn law_files_are_removed_after_the_record<
    S: TableStore,
    L: LeveledPolicy,
    T: TieredPolicy,
    P: SimpleLeveledPolicy,
>(
    before: LsmStorageInner<CompactionController<L, T, P>>,
    after: LsmStorageInner<CompactionController<L, T, P>>,
    store: S,
    task: &CompactionTask,
    actions: Seq<TableAction<S::Error>>,
    r: Result<(), CompactionError<S::Error>>,
    i: int,
)
    requires
        task_outcome(before, after, store, task, actions, r),
        0 <= i < actions.len(),
        actions[i] is RemovedFile,
    ensures
        exists|j: int| 0 <= j < i && has_recorded(#[trigger] actions[j], task),
{
    let input = task_input(before.state@, task);
    let (writes, result) = choose|
        writes: Seq<TableAction<S::Error>>,
        result: Result<Vec<Arc<SsTable>>, CompactionError<S::Error>>,
    |
        {
            &&& #[trigger] input_result(before, store, input, writes, result)
            &&& match result {
                Ok(tables) => exists|rest: Seq<TableAction<S::Error>>|
                    {
                        &&& #[trigger] install_outcome(before, after, task, tables@, rest, r)
                        &&& actions == writes + rest
                    },
                Err(e) => {
                    &&& after.state@ == before.state@
                    &&& actions == writes
                    &&& r == Err::<(), CompactionError<S::Error>>(e)
                },
            }
        };
    law_compaction_only_writes(before, store, input, writes, result);
    if result is Err {
        assert(is_write(actions[i]));
    } else {
        let tables = result->Ok_0;
        let rest = choose|rest: Seq<TableAction<S::Error>>|
            {
                &&& #[trigger] install_outcome(before, after, task, tables@, rest, r)
                &&& actions == writes + rest
            };
        if i < writes.len() {
            assert(is_write(writes[i]));
        } else {
            assert(actions[i] == rest[i - writes.len()]);
            assert(rest.len() > 0 && actions[writes.len() as int] == rest[0]);
            assert(rest[0] is Recorded);
            assert(has_recorded(actions[writes.len() as int], task));
        }
    }
}

/// What a round that succeeds does: it writes its tables, records them once, removes the files of
/// the tables that it gives up, and syncs the directory.
pub open spec fn round_actions<E>(
    task: &CompactionTask,
    tables: Seq<Arc<SsTable>>,
    gone: Seq<usize>,
) -> Seq<TableAction<E>> {
    writes_of(tables) + (seq![TableAction::Recorded(*task, ids_of(tables), Ok(()))] + removals(
        gone,
    ).push(TableAction::Synced(Ok(()))))
}

/// A round that succeeds has written the tables of its task, recorded them exactly once, removed
/// exactly the files of the tables that the policy gave up, in order, and synced the directory
/// once, and nothing else.
pub proof fn law_successful_round<
    S: TableStore,
    L: LeveledPolicy,
    T: TieredPolicy,
    P: SimpleLeveledPolicy,
>(
    before: LsmStorageInner<CompactionController<L, T, P>>,
    after: LsmStorageInner<CompactionController<L, T, P>>,
    store: S,
    task: &CompactionTask,
    actions: Seq<TableAction<S::Error>>,
)
    requires
        task_outcome(before, after, store, task, actions, Ok(())),
    ensures
        exists|tables: Seq<Arc<SsTable>>, reply: (LsmStorageState, Vec<usize>)|
            {
                &&& compacted_into(before, store, task_run(before.state@, task), tables)
                &&& #[trigger] arranged_output(before, task, tables, reply)
                &&& after.state@ == without_tables(reply.0@, reply.1@)
                &&& actions == round_actions::<S::Error>(
                    task,
                    tables,
                    ids_of(tables_of(reply.0@, reply.1@)),
                )
            },
{
    let input = task_input(before.state@, task);
    let r = Ok::<(), CompactionError<S::Error>>(());
    let (writes, result) = choose|
        writes: Seq<TableAction<S::Error>>,
        result: Result<Vec<Arc<SsTable>>, CompactionError<S::Error>>,
    |
        {
            &&& #[trigger] input_result(before, store, input, writes, result)
            &&& match result {
                Ok(tables) => exists|rest: Seq<TableAction<S::Error>>|
                    {
                        &&& #[trigger] install_outcome(before, after, task, tables@, rest, r)
                        &&& actions == writes + rest
                    },
                Err(e) => {
                    &&& after.state@ == before.state@
                    &&& actions == writes
                    &&& r == Err::<(), CompactionError<S::Error>>(e)
                },
            }
        };
    let tables = result->Ok_0@;
    let rest = choose|rest: Seq<TableAction<S::Error>>|
        {
            &&& #[trigger] install_outcome(before, after, task, tables, rest, r)
            &&& actions == writes + rest
        };
    let reply = choose|reply: (LsmStorageState, Vec<usize>)|
        {
            &&& #[trigger] arranged_output(before, task, tables, reply)
            &&& reply_outcome(before, after, task, ids_of(tables), reply, rest, r)
        };
    let ids = ids_of(tables);
    let gone = ids_of(tables_of(reply.0@, reply.1@));
    let done = choose|done: Result<(), S::Error>|
        {
            &&& #[trigger] record_result(*task, ids, gone, rest, done)
            &&& r == storage_result(done)
        };
    assert(done is Ok && done->Ok_0 == ());
    let last = choose|last: Seq<TableAction<S::Error>>|
        {
            &&& #[trigger] cleanup_result(gone, last, done)
            &&& rest == seq![TableAction::Recorded(*task, ids, Ok(()))] + last
        };
    assert(last == removals::<S::Error>(gone).push(TableAction::Synced(Ok(()))));
    assert(actions == round_actions::<S::Error>(task, tables, gone));
    law_success_reads_everything(before, store, task, writes, result->Ok_0);
}

/// Whether the store is recovering matters to leveled compaction only.
pub proof fn law_recovery_matters_for_leveled_only<
    L: LeveledPolicy,
    T: TieredPolicy,
    P: SimpleLeveledPolicy,
>(
    controller: CompactionController<L, T, P>,
    snapshot: &LsmStorageState,
    task: &CompactionTask,
    output: &[usize],
    reply: (LsmStorageState, Vec<usize>),
)
    requires
        !(controller is Leveled),
    ensures
        controller.arranges(snapshot, task, output, true, reply) == controller.arranges(
            snapshot,
            task,
            output,
            false,
            reply,
        ),
{
}

} // verus!
