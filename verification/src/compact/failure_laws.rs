//! When a compaction fails, and what it has done by then.
#[allow(unused_imports)]
use crate::compact::install::full_input;
#[allow(unused_imports)]
use crate::compact::laws::lemma_pair_input;
#[allow(unused_imports)]
use crate::compact::merge::{
    comes_to_write, compacted, input_result, size_reported, sizes_reported, table_is_full,
    table_writes, writes_of,
};
#[allow(unused_imports)]
use crate::compact::output_laws::{
    each_alone, held_in, level_groups, named, task_groups,
};
#[allow(unused_imports)]
use crate::compact::retention::{
    cut_run, is_cut, is_new_key, is_visible, key_before, lemma_cut_from_run, lemma_cut_holds,
    retained, split_run, Cut,
};
#[allow(unused_imports)]
use crate::compact::tasks::{
    inputs_of, lemma_start_all, merged_input, pair_input, start_all, tables_of, task_input,
    tier_inputs,
};
use crate::compact::{CompactionError, CompactionTask};
#[allow(unused_imports)]
use crate::iterators::{
    lemma_whole_merge_all, merge_all_runs, merge_runs, positioned, started, two_merge, whole, Item,
};
use crate::iterators::Run;
use crate::lsm_storage::{LoggedTables, LsmStorageInner, TableStore};
#[allow(unused_imports)]
use crate::lsm_storage::{did, StateView, TableAction};
#[allow(unused_imports)]
use crate::runs::{law_merge_stops_where_reading_stops, law_two_merge_loses_nothing};
#[allow(unused_imports)]
use crate::table::{concat_run, concat_tables, lemma_readable_run, readable, table_runs};
use crate::table::{ReadError, SsTable, SsTableBuilder};
use std::sync::Arc;
use vstd::prelude::*;

verus! {

/// Whether run `g` is the first of several that cannot be started, because of `e`.
pub open spec fn stuck_at<E>(runs: Seq<Run<E>>, g: int, e: E) -> bool {
    &&& 0 <= g < runs.len()
    &&& runs[g].items.len() == 0
    &&& runs[g].end == Some(e)
    &&& forall|h: int| 0 <= h < g ==> positioned(#[trigger] runs[h])
}

/// Runs cannot all be started exactly if one of them cannot, and the first such one tells why.
proof fn lemma_start_all_stuck<E>(runs: Seq<Run<E>>, e: E)
    ensures
        start_all(runs) == Err::<Seq<Run<E>>, E>(e) <==> exists|g: int| #[trigger]
            stuck_at(runs, g, e),
    decreases runs.len(),
{
    if runs.len() > 0 {
        let front = runs.drop_last();
        let last = runs.len() - 1;
        lemma_start_all_stuck(front, e);
        lemma_start_all(front);
        if start_all(runs) == Err::<Seq<Run<E>>, E>(e) {
            if start_all(front) is Err {
                let g = choose|g: int| #[trigger] stuck_at(front, g, e);
                assert(stuck_at(runs, g, e)) by {
                    assert forall|h: int| 0 <= h < g implies positioned(#[trigger] runs[h]) by {
                        assert(positioned(front[h]));
                    }
                }
            } else {
                assert(stuck_at(runs, last, e)) by {
                    assert forall|h: int| 0 <= h < last implies positioned(
                        #[trigger] runs[h],
                    ) by {
                        assert(positioned(front[h]));
                    }
                }
            }
        }
        if exists|g: int| #[trigger] stuck_at(runs, g, e) {
            let g = choose|g: int| #[trigger] stuck_at(runs, g, e);
            if g < last {
                assert(stuck_at(front, g, e)) by {
                    assert forall|h: int| 0 <= h < g implies positioned(#[trigger] front[h]) by {
                        assert(positioned(runs[h]));
                    }
                }
            } else {
                assert forall|h: int| 0 <= h < front.len() implies positioned(
                    #[trigger] front[h],
                ) by {
                    assert(positioned(runs[h]));
                }
            }
        }
    }
}

/// A merge of several runs that cannot be read on stops with the error of one of them.
proof fn lemma_merge_all_end<E>(runs: Seq<Run<E>>, e: E)
    requires
        forall|i: int| 0 <= i < runs.len() ==> positioned(#[trigger] runs[i]),
        merge_all_runs(runs).end == Some(e),
    ensures
        exists|i: int| 0 <= i < runs.len() && (#[trigger] runs[i]).end == Some(e),
    decreases runs.len(),
{
    if runs.len() > 0 {
        let tail = runs.skip(1);
        assert forall|i: int| 0 <= i < tail.len() implies positioned(#[trigger] tail[i]) by {
            assert(tail[i] == runs[i + 1]);
        }
        lemma_whole_merge_all(tail);
        assert(positioned(runs[0]));
        law_merge_stops_where_reading_stops(runs[0], merge_all_runs(tail));
        if runs[0].end != Some(e) {
            lemma_merge_all_end(tail, e);
            let i = choose|i: int| 0 <= i < tail.len() && (#[trigger] tail[i]).end == Some(e);
            assert(runs[i + 1].end == Some(e));
        }
    }
}

/// Whether nothing can be read of a list of tables, one behind the other, because table `i` cannot
/// be read and those before it are empty.
pub open spec fn unreadable_from(tables: Seq<Arc<SsTable>>, i: int, e: ReadError) -> bool {
    &&& 0 <= i < tables.len()
    &&& tables[i].failure() == Some(e)
    &&& forall|k: int| 0 <= k <= i ==> (#[trigger] tables[k]).items().len() == 0
    &&& forall|k: int| 0 <= k < i ==> (#[trigger] tables[k]).failure() is None
}

/// Tables, one behind the other, stop with the error of one of them, and before their first pair
/// exactly if nothing can be read of them.
proof fn lemma_concat_stops(tables: Seq<Arc<SsTable>>, e: ReadError)
    ensures
        concat_run(tables).end == Some(e) ==> exists|i: int|
            0 <= i < tables.len() && (#[trigger] tables[i]).failure() == Some(e),
        concat_run(tables).end == Some(e) && concat_run(tables).items.len() == 0 <==> exists|
            i: int,
        | #[trigger] unreadable_from(tables, i, e),
    decreases tables.len(),
{
    if tables.len() > 0 {
        let tail = tables.skip(1);
        lemma_concat_stops(tail, e);
        let run = concat_run(tables);
        if run.end == Some(e) && tables[0].failure() is None {
            let i = choose|i: int| 0 <= i < tail.len() && (#[trigger] tail[i]).failure() == Some(e);
            assert(tables[i + 1].failure() == Some(e));
        }
        if run.end == Some(e) && run.items.len() == 0 {
            if tables[0].failure() is Some {
                assert(unreadable_from(tables, 0, e));
            } else {
                let i = choose|i: int| #[trigger] unreadable_from(tail, i, e);
                assert(unreadable_from(tables, i + 1, e)) by {
                    assert forall|k: int| 0 <= k <= i + 1 implies (
                    #[trigger] tables[k]).items().len() == 0 by {
                        if k > 0 {
                            assert(tail[k - 1] == tables[k]);
                        }
                    }
                    assert forall|k: int| 0 <= k < i + 1 implies (
                    #[trigger] tables[k]).failure() is None by {
                        if k > 0 {
                            assert(tail[k - 1] == tables[k]);
                        }
                    }
                }
            }
        }
        if exists|i: int| #[trigger] unreadable_from(tables, i, e) {
            let i = choose|i: int| #[trigger] unreadable_from(tables, i, e);
            assert(tables[0].items().len() == 0);
            if i > 0 {
                assert(tables[0].failure() is None);
                assert(unreadable_from(tail, i - 1, e)) by {
                    assert forall|k: int| 0 <= k <= i - 1 implies (
                    #[trigger] tail[k]).items().len() == 0 by {
                        assert(tail[k] == tables[k + 1]);
                    }
                    assert forall|k: int| 0 <= k < i - 1 implies (
                    #[trigger] tail[k]).failure() is None by {
                        assert(tail[k] == tables[k + 1]);
                    }
                }
            }
        }
    }
}

/// What can be read of each group of tables.
pub open spec fn group_inputs(state: StateView, groups: Seq<Seq<usize>>) -> Seq<Run<ReadError>> {
    groups.map_values(|ids: Seq<usize>| concat_run(tables_of(state, ids)))
}

/// What can be read of tables of level 0, each by itself.
proof fn lemma_alone_inputs(state: StateView, ids: Seq<usize>)
    ensures
        group_inputs(state, each_alone(ids)) == inputs_of(tables_of(state, ids)),
{
    let inputs = group_inputs(state, each_alone(ids));
    let tables = tables_of(state, ids);
    assert forall|i: int| 0 <= i < ids.len() implies #[trigger] inputs[i] == inputs_of(
        tables,
    )[i] by {
        let one = tables_of(state, seq![ids[i]]);
        assert(each_alone(ids)[i] == seq![ids[i]]);
        assert(one =~= seq![tables[i]]);
        assert(one.skip(1) =~= Seq::<Arc<SsTable>>::empty());
        assert(concat_run(one.skip(1)) == whole::<ReadError>(Seq::empty()));
        assert(one[0].items() + Seq::<Item>::empty() =~= one[0].items());
        assert(concat_run(one) =~= one[0].run());
    }
    assert(inputs =~= inputs_of(tables));
}

/// A compaction of two levels starts and stops as its groups do.
proof fn lemma_levels_start(
    state: StateView,
    from_l0: bool,
    upper: Seq<usize>,
    lower: Seq<usize>,
    e: ReadError,
)
    ensures
        ({
            let inputs = group_inputs(state, level_groups(from_l0, upper, lower));
            let input = pair_input(state, from_l0, upper, lower);
            &&& input == Err::<Run<ReadError>, ReadError>(e) <==> start_all(inputs) == Err::<
                Seq<Run<ReadError>>,
                ReadError,
            >(e)
            &&& input matches Ok(run) ==> run.end == Some(e) ==> exists|g: int|
                0 <= g < inputs.len() && (#[trigger] inputs[g]).end == Some(e)
            &&& (input matches Ok(run) && run.end is None) <==> forall|g: int|
                0 <= g < inputs.len() ==> (#[trigger] inputs[g]).end is None
        }),
{
    let groups = level_groups(from_l0, upper, lower);
    let inputs = group_inputs(state, groups);
    let ups = group_inputs(state, groups.drop_last());
    let low = concat_run(tables_of(state, lower));
    let input = pair_input(state, from_l0, upper, lower);
    assert(inputs.drop_last() =~= ups);
    assert(inputs.last() == low);
    let up = if from_l0 {
        merged_input(inputs_of(tables_of(state, upper)))
    } else {
        started(concat_run(tables_of(state, upper)))
    };
    if from_l0 {
        lemma_alone_inputs(state, upper);
        assert(groups.drop_last() =~= each_alone(upper));
    } else {
        assert(groups.drop_last() =~= seq![upper]);
        assert(ups =~= seq![concat_run(tables_of(state, upper))]);
        assert(ups.drop_last() =~= Seq::<Run<ReadError>>::empty());
        assert(start_all(ups.drop_last()) == Ok::<Seq<Run<ReadError>>, ReadError>(
            ups.drop_last(),
        ));
        assert(ups.last() == concat_run(tables_of(state, upper)));
    }
    lemma_start_all(ups);
    assert(forall|err: ReadError|
        up == Err::<Run<ReadError>, ReadError>(err) <==> start_all(ups) == Err::<
            Seq<Run<ReadError>>,
            ReadError,
        >(err));
    lemma_pair_input(state, from_l0, upper, lower);
    lemma_readable_run(tables_of(state, upper));
    lemma_readable_run(tables_of(state, lower));
    if let Ok(run) = input {
        let a = up->Ok_0;
        if from_l0 {
            lemma_whole_merge_all(ups);
        }
        law_merge_stops_where_reading_stops(a, low);
        if run.end == Some(e) {
            if low.end == Some(e) {
                assert(inputs[inputs.len() - 1].end == Some(e));
            } else {
                assert(a.end == Some(e));
                if from_l0 {
                    lemma_merge_all_end(ups, e);
                    let i = choose|i: int| 0 <= i < ups.len() && (#[trigger] ups[i]).end == Some(e);
                    assert(inputs[i] == ups[i]);
                } else {
                    assert(inputs[0] == ups[0]);
                }
            }
        }
    }
    if forall|g: int| 0 <= g < inputs.len() ==> (#[trigger] inputs[g]).end is None {
        assert(inputs[inputs.len() - 1].end is None);
        if from_l0 {
            assert forall|i: int| 0 <= i < upper.len() implies (#[trigger] tables_of(
                state,
                upper,
            )[i]).failure() is None by {
                assert(inputs[i] == ups[i]);
                assert(inputs[i].end is None);
            }
        } else {
            assert(inputs[0].end is None);
            assert(inputs[0] == ups[0]);
        }
    }
    if input matches Ok(run) && run.end is None {
        assert forall|g: int| 0 <= g < inputs.len() implies (#[trigger] inputs[g]).end is None by {
            if g < ups.len() {
                assert(inputs[g] == ups[g]);
                if from_l0 {
                    assert(tables_of(state, upper)[g].failure() is None);
                }
            }
        }
    }
}

/// A task starts and stops as its groups do.
proof fn lemma_task_starts(state: StateView, task: &CompactionTask, e: ReadError)
    ensures
        ({
            let inputs = group_inputs(state, task_groups(task));
            let input = task_input(state, task);
            &&& input == Err::<Run<ReadError>, ReadError>(e) <==> start_all(inputs) == Err::<
                Seq<Run<ReadError>>,
                ReadError,
            >(e)
            &&& input matches Ok(run) ==> run.end == Some(e) ==> exists|g: int|
                0 <= g < inputs.len() && (#[trigger] inputs[g]).end == Some(e)
            &&& (input matches Ok(run) && run.end is None) <==> forall|g: int|
                0 <= g < inputs.len() ==> (#[trigger] inputs[g]).end is None
        }),
{
    match task {
        CompactionTask::Tiered(t) => {
            let inputs = group_inputs(state, task_groups(task));
            assert(inputs =~= tier_inputs(state, t.tiers@));
            lemma_start_all(inputs);
            if let Ok(run) = task_input(state, task) {
                lemma_whole_merge_all(inputs);
                if run.end == Some(e) {
                    lemma_merge_all_end(inputs, e);
                }
            }
            if forall|g: int| 0 <= g < inputs.len() ==> (#[trigger] inputs[g]).end is None {
                assert forall|g: int| 0 <= g < inputs.len() implies positioned(
                    #[trigger] inputs[g],
                ) by {
                    assert(inputs[g].end is None);
                }
                lemma_whole_merge_all(inputs);
            }
        },
        CompactionTask::ForceFullCompaction { l0_sstables, l1_sstables } => {
            lemma_levels_start(state, true, l0_sstables@, l1_sstables@, e);
        },
        CompactionTask::Simple(t) => {
            lemma_levels_start(
                state,
                t.upper_level is None,
                t.upper_level_sst_ids@,
                t.lower_level_sst_ids@,
                e,
            );
        },
        CompactionTask::Leveled(t) => {
            lemma_levels_start(
                state,
                t.upper_level is None,
                t.upper_level_sst_ids@,
                t.lower_level_sst_ids@,
                e,
            );
        },
    }
}

/// Whether every table of the groups can be read to its end.
pub open spec fn all_readable(state: StateView, groups: Seq<Seq<usize>>) -> bool {
    forall|g: int, i: int|
        #![trigger groups[g][i]]
        0 <= g < groups.len() && 0 <= i < groups[g].len()
            ==> state.sstables[groups[g][i]].failure() is None
}

/// Whether one of the tables of the groups cannot be read on because of `e`.
pub open spec fn stops_reading(state: StateView, groups: Seq<Seq<usize>>, e: ReadError) -> bool {
    exists|g: int, i: int|
        #![trigger groups[g][i]]
        0 <= g < groups.len() && 0 <= i < groups[g].len()
            && state.sstables[groups[g][i]].failure() == Some(e)
}

/// Groups can be read to their ends exactly if their tables can, and stop with the error of one of
/// those.
proof fn lemma_groups_read(state: StateView, groups: Seq<Seq<usize>>, e: ReadError)
    ensures
        (forall|g: int|
            0 <= g < groups.len() ==> (#[trigger] group_inputs(state, groups)[g]).end is None)
            <==> all_readable(state, groups),
        (exists|g: int|
            0 <= g < groups.len() && (#[trigger] group_inputs(state, groups)[g]).end == Some(e))
            ==> stops_reading(state, groups, e),
{
    let inputs = group_inputs(state, groups);
    assert forall|g: int| 0 <= g < groups.len() implies (
    #[trigger] inputs[g]).end is None == readable(tables_of(state, groups[g])) by {
        lemma_readable_run(tables_of(state, groups[g]));
    }
    if all_readable(state, groups) {
        assert forall|g: int| 0 <= g < groups.len() implies (#[trigger] inputs[g]).end is None by {
            assert forall|i: int| 0 <= i < groups[g].len() implies (#[trigger] tables_of(
                state,
                groups[g],
            )[i]).failure() is None by {
                assert(state.sstables[groups[g][i]].failure() is None);
            }
        }
    }
    if forall|g: int| 0 <= g < groups.len() ==> (#[trigger] inputs[g]).end is None {
        assert forall|g: int, i: int|
            #![trigger groups[g][i]]
            0 <= g < groups.len() && 0 <= i < groups[g].len() implies
            state.sstables[groups[g][i]].failure() is None by {
            assert(inputs[g].end is None);
            assert(tables_of(state, groups[g])[i].failure() is None);
        }
    }
    if exists|g: int| 0 <= g < groups.len() && (#[trigger] inputs[g]).end == Some(e) {
        let g = choose|g: int| 0 <= g < groups.len() && (#[trigger] inputs[g]).end == Some(e);
        let tables = tables_of(state, groups[g]);
        lemma_concat_stops(tables, e);
        let i = choose|i: int| 0 <= i < tables.len() && (#[trigger] tables[i]).failure() == Some(e);
        assert(state.sstables[groups[g][i]].failure() == Some(e));
    }
}

/// What was done between two points in time.
pub open spec fn done_since<S: TableStore>(
    before: LoggedTables<S>,
    after: LoggedTables<S>,
) -> Seq<TableAction<S::Error>> {
    after.log().skip(before.log().len() as int)
}

/// Why a compaction fails: a table that it reads cannot be read on, or a table that it writes
/// cannot be written, and the error is that of the table. Where neither happens it succeeds.
pub proof fn law_task_fails_for_a_reason<S: TableStore, C>(
    inner: LsmStorageInner<C>,
    store: S,
    task: &CompactionTask,
    actions: Seq<TableAction<S::Error>>,
    r: Result<Vec<Arc<SsTable>>, CompactionError<S::Error>>,
)
    requires
        input_result(inner, store, task_input(inner.state@, task), actions, r),
    ensures
        r is Ok ==> all_readable(inner.state@, task_groups(task)),
        r matches Err(CompactionError::Read(e)) ==> stops_reading(
            inner.state@,
            task_groups(task),
            e,
        ),
        r matches Err(CompactionError::Storage(e)) ==> {
            &&& actions.len() > 0
            &&& actions.last() matches TableAction::Wrote(_table, answer)
            &&& answer == Err::<(), S::Error>(e)
        },
        !(r matches Err(CompactionError::UnknownTable)),
        all_readable(inner.state@, task_groups(task)) && (forall|i: int|
            0 <= i < actions.len() ==> (#[trigger] actions[i] matches TableAction::Wrote(
                _table,
                answer,
            ) ==> answer is Ok)) ==> r is Ok,
{
    let state = inner.state@;
    let groups = task_groups(task);
    let inputs = group_inputs(state, groups);
    let input = task_input(state, task);
    let none: ReadError = arbitrary();
    lemma_task_starts(state, task, none);
    lemma_groups_read(state, groups, none);
    match r {
        Ok(_tables) => {},
        Err(CompactionError::Read(e)) => {
            lemma_task_starts(state, task, e);
            lemma_groups_read(state, groups, e);
            if input is Err {
                lemma_start_all_stuck(inputs, e);
                let g = choose|g: int| #[trigger] stuck_at(inputs, g, e);
                assert(inputs[g].end == Some(e));
            }
            assert(stops_reading(state, groups, e));
        },
        Err(CompactionError::Storage(e)) => {
            let run = input->Ok_0;
            let (written, failed) = choose|written: Seq<Arc<SsTable>>, failed: SsTable|
                {
                    &&& #[trigger] comes_to_write(
                        inner,
                        store,
                        run,
                        Cut { done: table_runs(written), open: failed.items() },
                    )
                    &&& actions == writes_of::<S::Error>(written) + table_writes(failed, Err(e))
                };
            let last = table_writes::<S::Error>(failed, Err(e));
            assert(actions.last() == last[1]);
            let n = actions.len() - 1;
            assert(actions[n] == TableAction::Wrote(failed, Err(e)));
        },
        Err(CompactionError::UnknownTable) => {},
    }
}

/// Why `compact` fails, and that it succeeds where there is no reason to fail.
pub proof fn law_compaction_fails_for_a_reason<S: TableStore, C>(
    inner: LsmStorageInner<C>,
    task: &CompactionTask,
    before: LoggedTables<S>,
    after: LoggedTables<S>,
    r: Result<Vec<Arc<SsTable>>, CompactionError<S::Error>>,
)
    requires
        compacted(inner, task_input(inner.state@, task), before, after, r),
    ensures
        r is Ok ==> all_readable(inner.state@, task_groups(task)),
        r matches Err(CompactionError::Read(e)) ==> stops_reading(
            inner.state@,
            task_groups(task),
            e,
        ),
        r matches Err(CompactionError::Storage(e)) ==> {
            &&& done_since(before, after).len() > 0
            &&& done_since(before, after).last() matches TableAction::Wrote(_table, answer)
            &&& answer == Err::<(), S::Error>(e)
        },
        !(r matches Err(CompactionError::UnknownTable)),
        all_readable(inner.state@, task_groups(task)) && (forall|i: int|
            0 <= i < done_since(before, after).len() ==> (#[trigger] done_since(
                before,
                after,
            )[i] matches TableAction::Wrote(_table, answer) ==> answer is Ok)) ==> r is Ok,
{
    let actions = lemma_actions(inner, task_input(inner.state@, task), before, after, r);
    law_task_fails_for_a_reason(inner, before.store(), task, actions, r);
}

/// What a compaction has done stands in the log.
proof fn lemma_actions<S: TableStore, C>(
    inner: LsmStorageInner<C>,
    input: Result<Run<ReadError>, ReadError>,
    before: LoggedTables<S>,
    after: LoggedTables<S>,
    r: Result<Vec<Arc<SsTable>>, CompactionError<S::Error>>,
) -> (actions: Seq<TableAction<S::Error>>)
    requires
        compacted(inner, input, before, after, r),
    ensures
        actions == done_since(before, after),
        did(before, after, actions),
        input_result(inner, before.store(), input, actions, r),
{
    let actions = choose|actions: Seq<TableAction<S::Error>>|
        {
            &&& #[trigger] did(before, after, actions)
            &&& input_result(inner, before.store(), input, actions, r)
        };
    assert(done_since(before, after) =~= actions);
    actions
}

/// Whether nothing can be read of a group of tables, because of `e`.
pub open spec fn cannot_start(state: StateView, ids: Seq<usize>, e: ReadError) -> bool {
    exists|i: int|
        {
            &&& 0 <= i < ids.len()
            &&& state.sstables[#[trigger] ids[i]].failure() == Some(e)
            &&& forall|k: int|
                0 <= k <= i ==> state.sstables[#[trigger] ids[k]].items().len() == 0
            &&& forall|k: int|
                0 <= k < i ==> state.sstables[#[trigger] ids[k]].failure() is None
        }
}

/// A group cannot be started exactly if nothing can be read of its tables.
proof fn lemma_cannot_start(state: StateView, ids: Seq<usize>, e: ReadError)
    ensures
        cannot_start(state, ids, e) <==> {
            let run = concat_run(tables_of(state, ids));
            run.end == Some(e) && run.items.len() == 0
        },
{
    let tables = tables_of(state, ids);
    lemma_concat_stops(tables, e);
    assert forall|i: int| 0 <= i < ids.len() implies #[trigger] tables[i]
        == state.sstables[ids[i]] by {}
    if exists|i: int| #[trigger] unreadable_from(tables, i, e) {
        let i = choose|i: int| #[trigger] unreadable_from(tables, i, e);
        assert(state.sstables[ids[i]].failure() == Some(e));
        assert forall|k: int| 0 <= k <= i implies state.sstables[#[trigger] ids[k]].items().len()
            == 0 by {
            assert(tables[k].items().len() == 0);
        }
        assert forall|k: int|
            0 <= k < i implies state.sstables[#[trigger] ids[k]].failure() is None by {
            assert(tables[k].failure() is None);
        }
    }
    if cannot_start(state, ids, e) {
        let i = choose|i: int|
            {
                &&& 0 <= i < ids.len()
                &&& state.sstables[#[trigger] ids[i]].failure() == Some(e)
                &&& forall|k: int|
                    0 <= k <= i ==> state.sstables[#[trigger] ids[k]].items().len() == 0
                &&& forall|k: int|
                    0 <= k < i ==> state.sstables[#[trigger] ids[k]].failure() is None
            };
        assert(unreadable_from(tables, i, e)) by {
            assert forall|k: int| 0 <= k <= i implies (#[trigger] tables[k]).items().len()
                == 0 by {
                assert(state.sstables[ids[k]].items().len() == 0);
            }
            assert forall|k: int| 0 <= k < i implies (
            #[trigger] tables[k]).failure() is None by {
                assert(state.sstables[ids[k]].failure() is None);
            }
        }
    }
}

/// A compaction of tables of which some cannot even be started does nothing, and tells why the
/// first of them cannot.
pub proof fn law_compaction_that_cannot_start<S: TableStore, C>(
    inner: LsmStorageInner<C>,
    task: &CompactionTask,
    before: LoggedTables<S>,
    after: LoggedTables<S>,
    r: Result<Vec<Arc<SsTable>>, CompactionError<S::Error>>,
    g: int,
    e: ReadError,
)
    requires
        compacted(inner, task_input(inner.state@, task), before, after, r),
        0 <= g < task_groups(task).len(),
        cannot_start(inner.state@, task_groups(task)[g], e),
        forall|h: int, other: ReadError|
            0 <= h < g ==> !(#[trigger] cannot_start(
                inner.state@,
                task_groups(task)[h],
                other,
            )),
    ensures
        r == Err::<Vec<Arc<SsTable>>, CompactionError<S::Error>>(CompactionError::Read(e)),
        after.log() == before.log(),
{
    let state = inner.state@;
    let groups = task_groups(task);
    let inputs = group_inputs(state, groups);
    let actions = lemma_actions(inner, task_input(state, task), before, after, r);
    lemma_cannot_start(state, groups[g], e);
    assert(stuck_at(inputs, g, e)) by {
        assert forall|h: int| 0 <= h < g implies positioned(#[trigger] inputs[h]) by {
            if let Some(other) = inputs[h].end {
                lemma_cannot_start(state, groups[h], other);
                assert(!cannot_start(state, groups[h], other));
            }
        }
    }
    lemma_start_all_stuck(inputs, e);
    lemma_task_starts(state, task, e);
    assert(after.log() =~= before.log());
}

/// What can be read of a merge of several runs comes from one of them.
proof fn lemma_merge_all_from<E>(runs: Seq<Run<E>>, x: Item)
    requires
        forall|i: int| 0 <= i < runs.len() ==> positioned(#[trigger] runs[i]),
        merge_all_runs(runs).items.contains(x),
    ensures
        exists|g: int| 0 <= g < runs.len() && (#[trigger] runs[g]).items.contains(x),
    decreases runs.len(),
{
    if runs.len() > 0 {
        let tail = runs.skip(1);
        assert forall|i: int| 0 <= i < tail.len() implies positioned(#[trigger] tail[i]) by {
            assert(tail[i] == runs[i + 1]);
        }
        lemma_whole_merge_all(tail);
        assert(positioned(runs[0]));
        lemma_merge_from(runs[0], merge_all_runs(tail), x);
        if !runs[0].items.contains(x) {
            lemma_merge_all_from(tail, x);
            let g = choose|g: int| 0 <= g < tail.len() && (#[trigger] tail[g]).items.contains(x);
            assert(runs[g + 1].items.contains(x));
        }
    }
}

/// What can be read of a merge of two runs comes from one of them.
proof fn lemma_merge_from<E>(a: Run<E>, b: Run<E>, x: Item)
    requires
        positioned(a),
        positioned(b),
        merge_runs(a, b).items.contains(x),
    ensures
        a.items.contains(x) || b.items.contains(x),
{
    let m = merge_runs(a, b).items;
    let all = two_merge(a.items, b.items);
    law_merge_stops_where_reading_stops(a, b);
    let i = choose|i: int| 0 <= i < m.len() && m[i] == x;
    assert(all[i] == x);
    law_two_merge_loses_nothing(a.items, b.items, x);
}

/// What can be read of tables, one behind the other, comes from one of them.
proof fn lemma_concat_from(tables: Seq<Arc<SsTable>>, x: Item)
    requires
        concat_run(tables).items.contains(x),
    ensures
        exists|i: int| 0 <= i < tables.len() && (#[trigger] tables[i]).items().contains(x),
    decreases tables.len(),
{
    if tables.len() > 0 {
        let tail = tables.skip(1);
        let all = concat_run(tables).items;
        let k = choose|k: int| 0 <= k < all.len() && all[k] == x;
        if k < tables[0].items().len() {
            assert(tables[0].items()[k] == x);
        } else {
            assert(concat_run(tail).items[k - tables[0].items().len()] == x);
            lemma_concat_from(tail, x);
            let i = choose|i: int| 0 <= i < tail.len() && (#[trigger] tail[i]).items().contains(x);
            assert(tables[i + 1].items().contains(x));
        }
    }
}

/// What can be read of the groups comes from their tables.
proof fn lemma_groups_from(state: StateView, groups: Seq<Seq<usize>>, g: int, x: Item)
    requires
        0 <= g < groups.len(),
        group_inputs(state, groups)[g].items.contains(x),
    ensures
        named(state, groups, x),
{
    let tables = tables_of(state, groups[g]);
    lemma_concat_from(tables, x);
    let i = choose|i: int| 0 <= i < tables.len() && (#[trigger] tables[i]).items().contains(x);
    assert(state.sstables[groups[g][i]].items().contains(x));
    assert(held_in(state, groups[g], x));
}

/// What can be read of two levels comes from their tables.
proof fn lemma_levels_from(
    state: StateView,
    from_l0: bool,
    upper: Seq<usize>,
    lower: Seq<usize>,
    x: Item,
)
    requires
        pair_input(state, from_l0, upper, lower) matches Ok(run) && run.items.contains(x),
    ensures
        named(state, level_groups(from_l0, upper, lower), x),
{
    let groups = level_groups(from_l0, upper, lower);
    let inputs = group_inputs(state, groups);
    let ups = group_inputs(state, groups.drop_last());
    let low = concat_run(tables_of(state, lower));
    let last = inputs.len() - 1;
    assert(inputs.drop_last() =~= ups);
    assert(inputs[last] == low);
    if from_l0 {
        let a = merged_input(inputs_of(tables_of(state, upper)))->Ok_0;
        lemma_alone_inputs(state, upper);
        assert(groups.drop_last() =~= each_alone(upper));
        lemma_start_all(ups);
        lemma_whole_merge_all(ups);
        lemma_merge_from(a, low, x);
        if a.items.contains(x) {
            lemma_merge_all_from(ups, x);
            let g = choose|g: int| 0 <= g < ups.len() && (#[trigger] ups[g]).items.contains(x);
            assert(inputs[g] == ups[g]);
            lemma_groups_from(state, groups, g, x);
        } else {
            lemma_groups_from(state, groups, last, x);
        }
    } else {
        let a = concat_run(tables_of(state, upper));
        assert(groups[0] == upper);
        assert(inputs[0] == a);
        lemma_merge_from(a, low, x);
        if a.items.contains(x) {
            lemma_groups_from(state, groups, 0, x);
        } else {
            lemma_groups_from(state, groups, last, x);
        }
    }
}

/// What can be read of the input of a task comes from the tables that the task names, also where
/// the reading stops midway.
pub proof fn law_input_comes_from_the_tables(state: StateView, task: &CompactionTask, x: Item)
    requires
        task_input(state, task) matches Ok(run) && run.items.contains(x),
    ensures
        named(state, task_groups(task), x),
{
    match task {
        CompactionTask::Tiered(t) => {
            let groups = task_groups(task);
            let inputs = group_inputs(state, groups);
            assert(inputs =~= tier_inputs(state, t.tiers@));
            lemma_start_all(inputs);
            lemma_merge_all_from(inputs, x);
            let g = choose|g: int|
                0 <= g < inputs.len() && (#[trigger] inputs[g]).items.contains(x);
            lemma_groups_from(state, groups, g, x);
        },
        CompactionTask::ForceFullCompaction { l0_sstables, l1_sstables } => {
            lemma_levels_from(state, true, l0_sstables@, l1_sstables@, x);
        },
        CompactionTask::Simple(t) => {
            lemma_levels_from(
                state,
                t.upper_level is None,
                t.upper_level_sst_ids@,
                t.lower_level_sst_ids@,
                x,
            );
        },
        CompactionTask::Leveled(t) => {
            lemma_levels_from(
                state,
                t.upper_level is None,
                t.upper_level_sst_ids@,
                t.lower_level_sst_ids@,
                x,
            );
        },
    }
}

/// Whether actions are those of writing tables with success, one behind the other: each draws the
/// table's identifier and then writes the table.
pub open spec fn drew_and_wrote<E>(
    actions: Seq<TableAction<E>>,
    tables: Seq<Arc<SsTable>>,
) -> bool {
    &&& actions.len() == 2 * tables.len()
    &&& forall|i: int|
        0 <= i < tables.len() ==> {
            &&& actions[2 * i] == TableAction::<E>::DrewId((#[trigger] tables[i]).id())
            &&& actions[2 * i + 1] == TableAction::<E>::Wrote(*tables[i], Ok(()))
        }
}

/// Whether actions are those of writing tables with success, and then failing to write one more.
pub open spec fn wrote_up_to<E>(
    actions: Seq<TableAction<E>>,
    written: Seq<Arc<SsTable>>,
    failed: SsTable,
    e: E,
) -> bool {
    &&& actions.len() >= 2
    &&& drew_and_wrote(actions.take(actions.len() - 2), written)
    &&& actions[actions.len() - 2] == TableAction::<E>::DrewId(failed.id())
    &&& actions[actions.len() - 1] == TableAction::Wrote(failed, Err(e))
}

/// Writing tables draws and writes for each of them.
pub(crate) proof fn lemma_drew_and_wrote<E>(tables: Seq<Arc<SsTable>>)
    ensures
        drew_and_wrote(writes_of::<E>(tables), tables),
    decreases tables.len(),
{
    if tables.len() > 0 {
        let front = tables.drop_last();
        lemma_drew_and_wrote::<E>(front);
        let all = writes_of::<E>(tables);
        let fewer = writes_of::<E>(front);
        assert(all == fewer + table_writes::<E>(*tables.last(), Ok(())));
        assert forall|i: int| 0 <= i < tables.len() implies {
            &&& all[2 * i] == TableAction::<E>::DrewId((#[trigger] tables[i]).id())
            &&& all[2 * i + 1] == TableAction::<E>::Wrote(*tables[i], Ok(()))
        } by {
            if i < front.len() {
                assert(front[i] == tables[i]);
                assert(all[2 * i] == fewer[2 * i]);
                assert(all[2 * i + 1] == fewer[2 * i + 1]);
            } else {
                assert(tables.last() == tables[i]);
                assert(all[2 * i] == table_writes::<E>(*tables[i], Ok(()))[0]);
                assert(all[2 * i + 1] == table_writes::<E>(*tables[i], Ok(()))[1]);
            }
        }
    }
}

/// Whether tables hold something each, and nothing but what the tables of the groups hold.
pub open spec fn made_of(
    state: StateView,
    groups: Seq<Seq<usize>>,
    items: Seq<Item>,
) -> bool {
    &&& items.len() > 0
    &&& forall|i: int| 0 <= i < items.len() ==> named(state, groups, #[trigger] items[i])
}

/// Everything that a compaction does stands here: it draws an identifier for each new table and
/// writes the table, and nothing else. If it succeeds the tables are those that it returns. If a
/// table cannot be written, that was the last thing done. If its input cannot be read on, the
/// tables finished by then are written. No table is empty, and all of them are made of the tables
/// that the task names.
#[verifier::rlimit(40)]
pub proof fn law_compaction_log<S: TableStore, C>(
    inner: LsmStorageInner<C>,
    task: &CompactionTask,
    before: LoggedTables<S>,
    after: LoggedTables<S>,
    r: Result<Vec<Arc<SsTable>>, CompactionError<S::Error>>,
)
    requires
        compacted(inner, task_input(inner.state@, task), before, after, r),
    ensures
        after.log() == before.log() + done_since(before, after),
        match r {
            Ok(tables) => drew_and_wrote(done_since(before, after), tables@) && forall|t: int|
                0 <= t < tables@.len() ==> made_of(
                    inner.state@,
                    task_groups(task),
                    (#[trigger] tables@[t]).items(),
                ),
            Err(CompactionError::Read(_e)) => exists|written: Seq<Arc<SsTable>>|
                {
                    &&& #[trigger] drew_and_wrote(done_since(before, after), written)
                    &&& forall|t: int|
                        0 <= t < written.len() ==> made_of(
                            inner.state@,
                            task_groups(task),
                            (#[trigger] written[t]).items(),
                        )
                },
            Err(CompactionError::Storage(e)) => exists|
                written: Seq<Arc<SsTable>>,
                failed: SsTable,
            |
                {
                    &&& #[trigger] wrote_up_to(done_since(before, after), written, failed, e)
                    &&& made_of(inner.state@, task_groups(task), failed.items())
                    &&& forall|t: int|
                        0 <= t < written.len() ==> made_of(
                            inner.state@,
                            task_groups(task),
                            (#[trigger] written[t]).items(),
                        )
                },
            Err(CompactionError::UnknownTable) => false,
        },
{
    let state = inner.state@;
    let groups = task_groups(task);
    let input = task_input(state, task);
    let actions = lemma_actions(inner, input, before, after, r);
    let w = inner.read_horizon();
    let target = inner.options.target_sst_size;
    assert(after.log() =~= before.log() + done_since(before, after));
    if input is Err {
        assert(drew_and_wrote(actions, Seq::<Arc<SsTable>>::empty()));
    } else {
        let run = input->Ok_0;
        assert forall|x: Item| #[trigger] run.items.contains(x) implies named(
            state,
            groups,
            x,
        ) by {
            law_input_comes_from_the_tables(state, task, x);
        }
        match r {
            Ok(tables) => {
                lemma_drew_and_wrote::<S::Error>(tables@);
                let sizes = choose|sizes: Seq<usize>|
                    sizes.len() == run.items.len() && table_runs(tables@) == #[trigger] split_run(
                        run.items,
                        w,
                        target,
                        sizes,
                    );
                lemma_cut_from_run(run.items, w, target, sizes);
                let cut = cut_run(run.items, w, target, sizes);
                assert forall|t: int| 0 <= t < tables@.len() implies made_of(
                    state,
                    groups,
                    (#[trigger] tables@[t]).items(),
                ) by {
                    let runs = split_run(run.items, w, target, sizes);
                    assert(table_runs(tables@)[t] == tables@[t].items());
                    assert(table_runs(tables@).len() == tables@.len());
                    if t < cut.done.len() {
                        assert(runs[t] == cut.done[t]);
                        assert forall|i: int| 0 <= i < runs[t].len() implies run.items.contains(
                            #[trigger] runs[t][i],
                        ) by {
                            assert(run.items.contains(cut.done[t][i]));
                        }
                        lemma_made_of(state, groups, run.items, runs[t]);
                    } else {
                        assert(runs[t] == cut.open);
                        lemma_made_of(state, groups, run.items, cut.open);
                    }
                }
            },
            Err(CompactionError::Read(_e)) => {
                let (written, sizes) = choose|written: Seq<Arc<SsTable>>, sizes: Seq<usize>|
                    {
                        &&& table_runs(written) == (#[trigger] inner.cut_of(run.items, sizes)).done
                        &&& actions == #[trigger] writes_of::<S::Error>(written)
                    };
                lemma_drew_and_wrote::<S::Error>(written);
                lemma_cut_from_run(run.items, w, target, sizes);
                let cut = inner.cut_of(run.items, sizes);
                assert forall|t: int| 0 <= t < written.len() implies made_of(
                    state,
                    groups,
                    (#[trigger] written[t]).items(),
                ) by {
                    assert(table_runs(written)[t] == written[t].items());
                    lemma_made_of(state, groups, run.items, cut.done[t]);
                }
            },
            Err(CompactionError::Storage(e)) => {
                let (written, failed) = choose|written: Seq<Arc<SsTable>>, failed: SsTable|
                    {
                        &&& #[trigger] comes_to_write(
                            inner,
                            before.store(),
                            run,
                            Cut { done: table_runs(written), open: failed.items() },
                        )
                        &&& actions == writes_of::<S::Error>(written) + table_writes(failed, Err(e))
                    };
                let cut = Cut { done: table_runs(written), open: failed.items() };
                let (passed, sizes) = choose|passed: Seq<Item>, sizes: Seq<usize>|
                    {
                        &&& passed.len() <= run.items.len()
                        &&& passed == run.items.take(passed.len() as int)
                        &&& cut == #[trigger] inner.cut_of(passed, sizes)
                        &&& cut.open.len() > 0
                    };
                lemma_drew_and_wrote::<S::Error>(written);
                lemma_cut_from_run(passed, w, target, sizes);
                assert forall|x: Item| #[trigger] passed.contains(x) implies named(
                    state,
                    groups,
                    x,
                ) by {
                    let k = choose|k: int| 0 <= k < passed.len() && passed[k] == x;
                    assert(run.items[k] == x);
                    assert(run.items.contains(x));
                }
                lemma_made_of(state, groups, passed, failed.items());
                assert forall|t: int| 0 <= t < written.len() implies made_of(
                    state,
                    groups,
                    (#[trigger] written[t]).items(),
                ) by {
                    assert(table_runs(written)[t] == written[t].items());
                    lemma_made_of(state, groups, passed, cut.done[t]);
                }
                let n = actions.len() as int;
                assert(actions.take(n - 2) =~= writes_of::<S::Error>(written));
                assert(actions[n - 2] == table_writes::<S::Error>(failed, Err(e))[0]);
                assert(actions[n - 1] == table_writes::<S::Error>(failed, Err(e))[1]);
                assert(wrote_up_to(actions, written, failed, e));
            },
            Err(CompactionError::UnknownTable) => {},
        }
    }
}

/// Items of a run that comes from the tables of the groups come from those tables.
proof fn lemma_made_of(
    state: StateView,
    groups: Seq<Seq<usize>>,
    run: Seq<Item>,
    items: Seq<Item>,
)
    requires
        items.len() > 0,
        forall|x: Item| #[trigger] run.contains(x) ==> named(state, groups, x),
        forall|i: int| 0 <= i < items.len() ==> run.contains(#[trigger] items[i]),
    ensures
        made_of(state, groups, items),
{
    assert forall|i: int| 0 <= i < items.len() implies named(
        state,
        groups,
        #[trigger] items[i],
    ) by {
        assert(run.contains(items[i]));
    }
}

/// Whether the store may have said of a builder with `items` that it has reached the target size,
/// or that it has not.
pub open spec fn told_full<S: TableStore>(
    store: S,
    block_size: usize,
    target_size: usize,
    items: Seq<Item>,
    full: bool,
) -> bool {
    exists|builder: SsTableBuilder, size: usize|
        {
            &&& #[trigger] call_ensures(S::estimated_size, (&store, &builder), size)
            &&& builder.target_block_size() == block_size
            &&& builder.items() == items
            &&& full == (size >= target_size)
        }
}

/// Whether the store has said, wherever a new user key begins in `items`, that the target size was
/// not reached there.
pub open spec fn rightly_not_cut<S: TableStore>(
    store: S,
    block_size: usize,
    target_size: usize,
    items: Seq<Item>,
) -> bool {
    forall|k: int|
        0 < k < items.len() && items[k - 1].key.user != (#[trigger] items[k]).key.user
            ==> told_full(store, block_size, target_size, items.take(k), false)
}

/// On the way into tables, tables are cut where the store says that they are full, and only there.
proof fn lemma_cut_sizes<S: TableStore, C>(
    inner: LsmStorageInner<C>,
    store: S,
    run: Seq<Item>,
    sizes: Seq<usize>,
)
    requires
        sizes.len() == run.len(),
        sizes_reported(inner, store, run, sizes),
    ensures
        ({
            let cut = inner.cut_of(run, sizes);
            let block = inner.options.block_size;
            let target = inner.options.target_sst_size;
            &&& forall|t: int|
                0 <= t < cut.done.len() ==> {
                    &&& told_full(store, block, target, #[trigger] cut.done[t], true)
                    &&& rightly_not_cut(store, block, target, cut.done[t])
                }
            &&& rightly_not_cut(store, block, target, cut.open)
            &&& run.len() > 0 && cut.open.len() > 0 && cut.open.last().key.user
                != run.last().key.user ==> told_full(store, block, target, cut.open, false)
        }),
    decreases run.len(),
{
    let cut = inner.cut_of(run, sizes);
    let block = inner.options.block_size;
    let target = inner.options.target_sst_size;
    if run.len() > 0 {
        let front = run.drop_last();
        let before = inner.cut_of(front, sizes.drop_last());
        let prev = key_before(run, run.len() - 1);
        let item = run.last();
        let size = sizes.last();
        lemma_cut_sizes(inner, store, front, sizes.drop_last());
        let new = is_new_key(prev, item.key);
        let full = is_cut(prev, item.key, before.open.len() > 0, size, target);
        if new {
            assert(size_reported(store, block, before.open, size));
            let builder = choose|builder: SsTableBuilder|
                {
                    &&& #[trigger] call_ensures(S::estimated_size, (&store, &builder), size)
                    &&& builder.target_block_size() == block
                    &&& builder.items() == before.open
                };
            assert(call_ensures(S::estimated_size, (&store, &builder), size));
            assert(told_full(store, block, target, before.open, size >= target));
        }
        assert forall|t: int| 0 <= t < cut.done.len() implies {
            &&& told_full(store, block, target, #[trigger] cut.done[t], true)
            &&& rightly_not_cut(store, block, target, cut.done[t])
        } by {
            if t < before.done.len() {
                assert(cut.done[t] == before.done[t]);
            }
        }
        if !full && is_visible(prev, item, inner.read_horizon()) {
            let open = before.open;
            assert(cut.open == open.push(item));
            assert forall|k: int|
                0 < k < cut.open.len() && cut.open[k - 1].key.user != (
                #[trigger] cut.open[k]).key.user implies told_full(
                store,
                block,
                target,
                cut.open.take(k),
                false,
            ) by {
                if k < open.len() {
                    assert(cut.open.take(k) =~= open.take(k));
                    assert(open[k - 1].key.user != open[k].key.user);
                } else {
                    assert(cut.open.take(k) =~= open);
                    assert(open.last() == cut.open[k - 1]);
                    if !new {
                        assert(front.len() > 0 && front.last() == run[run.len() - 2]);
                        assert(open.last().key.user != front.last().key.user);
                    }
                }
            }
        }
        if cut.open.len() > 0 && cut.open.last().key.user != item.key.user {
            assert(cut.open == before.open);
            if !new {
                assert(front.len() > 0 && front.last() == run[run.len() - 2]);
            }
        }
    }
}

/// Where a compaction cuts its tables: each but the last has reached the target size as the store
/// says, and inside a table, wherever a new user key begins, the store has said that the size was
/// not reached yet.
pub proof fn law_tables_are_cut_at_the_target_size<S: TableStore, C>(
    inner: LsmStorageInner<C>,
    task: &CompactionTask,
    before: LoggedTables<S>,
    after: LoggedTables<S>,
    tables: Vec<Arc<SsTable>>,
    t: int,
)
    requires
        compacted(inner, task_input(inner.state@, task), before, after, Ok(tables)),
        0 <= t < tables@.len(),
    ensures
        t < tables@.len() - 1 ==> told_full(
            before.store(),
            inner.options.block_size,
            inner.options.target_sst_size,
            tables@[t].items(),
            true,
        ),
        rightly_not_cut(
            before.store(),
            inner.options.block_size,
            inner.options.target_sst_size,
            tables@[t].items(),
        ),
{
    let r = Ok::<Vec<Arc<SsTable>>, CompactionError<S::Error>>(tables);
    let input = task_input(inner.state@, task);
    let actions = lemma_actions(inner, input, before, after, r);
    let run = input->Ok_0.items;
    let w = inner.read_horizon();
    let target = inner.options.target_sst_size;
    let sizes = choose|sizes: Seq<usize>|
        {
            &&& sizes.len() == run.len()
            &&& sizes_reported(inner, before.store(), run, sizes)
            &&& table_runs(tables@) == #[trigger] split_run(run, w, target, sizes)
        };
    lemma_cut_sizes(inner, before.store(), run, sizes);
    let cut = inner.cut_of(run, sizes);
    assert(table_runs(tables@)[t] == tables@[t].items());
    assert(table_runs(tables@).len() == tables@.len());
    if t < cut.done.len() {
        assert(cut.done[t] == tables@[t].items());
    }
}

/// A full compaction is the task that names all of level 0 and all of level 1, so all that holds of
/// tasks holds of it.
pub proof fn law_full_compaction_is_a_task<C>(inner: LsmStorageInner<C>)
    requires
        inner.state@.levels.len() > 0,
    ensures
        full_input(inner.state@) == task_input(
            inner.state@,
            &CompactionTask::ForceFullCompaction {
                l0_sstables: inner.state.l0_sstables,
                l1_sstables: inner.state.levels@[0].1,
            },
        ),
        task_groups(
            &CompactionTask::ForceFullCompaction {
                l0_sstables: inner.state.l0_sstables,
                l1_sstables: inner.state.levels@[0].1,
            },
        ) == level_groups(true, inner.state@.l0_sstables, inner.state@.levels[0].1),
{
}

/// Whether `tables` were rightly finished while more was to come: each had reached the target size
/// as the store says, and none had before it was finished.
pub open spec fn rightly_finished<S: TableStore, C>(
    inner: LsmStorageInner<C>,
    store: S,
    tables: Seq<Arc<SsTable>>,
) -> bool {
    forall|t: int|
        0 <= t < tables.len() ==> {
            &&& told_full(
                store,
                inner.options.block_size,
                inner.options.target_sst_size,
                (#[trigger] tables[t]).items(),
                true,
            )
            &&& rightly_not_cut(
                store,
                inner.options.block_size,
                inner.options.target_sst_size,
                tables[t].items(),
            )
        }
}

/// What a compaction leaves behind that stops because its input cannot be read on: the tables that
/// were full by then are written, and they hold, together with one unfinished table that is not
/// written, what survives of what could be read.
pub proof fn law_read_failure_leaves_finished_tables<S: TableStore, C>(
    inner: LsmStorageInner<C>,
    run: Run<ReadError>,
    before: LoggedTables<S>,
    after: LoggedTables<S>,
    e: ReadError,
)
    requires
        compacted(
            inner,
            Ok(run),
            before,
            after,
            Err::<Vec<Arc<SsTable>>, CompactionError<S::Error>>(CompactionError::Read(e)),
        ),
    ensures
        run.end == Some(e),
        exists|written: Seq<Arc<SsTable>>, open: Seq<Item>|
            {
                &&& drew_and_wrote(done_since(before, after), written)
                &&& #[trigger] rightly_finished(inner, before.store(), written)
                &&& #[trigger] rightly_not_cut(
                    before.store(),
                    inner.options.block_size,
                    inner.options.target_sst_size,
                    open,
                )
                &&& concat_tables(written) + open == retained(run.items, inner.read_horizon())
            },
{
    let r = Err::<Vec<Arc<SsTable>>, CompactionError<S::Error>>(CompactionError::Read(e));
    let actions = lemma_actions(inner, Ok(run), before, after, r);
    let (written, sizes) = choose|written: Seq<Arc<SsTable>>, sizes: Seq<usize>|
        {
            &&& sizes.len() == run.items.len()
            &&& sizes_reported(inner, before.store(), run.items, sizes)
            &&& table_runs(written) == (#[trigger] inner.cut_of(run.items, sizes)).done
            &&& actions == #[trigger] writes_of::<S::Error>(written)
        };
    let cut = inner.cut_of(run.items, sizes);
    lemma_drew_and_wrote::<S::Error>(written);
    lemma_cut_sizes(inner, before.store(), run.items, sizes);
    lemma_cut_holds(
        run.items,
        inner.read_horizon(),
        inner.options.target_sst_size,
        sizes,
    );
    lemma_rightly_finished(inner, before.store(), written, cut.done);
    assert(rightly_not_cut(
        before.store(),
        inner.options.block_size,
        inner.options.target_sst_size,
        cut.open,
    ));
}

/// Tables are rightly finished if what they hold is.
proof fn lemma_rightly_finished<S: TableStore, C>(
    inner: LsmStorageInner<C>,
    store: S,
    tables: Seq<Arc<SsTable>>,
    runs: Seq<Seq<Item>>,
)
    requires
        table_runs(tables) == runs,
        forall|t: int|
            0 <= t < runs.len() ==> {
                &&& told_full(
                    store,
                    inner.options.block_size,
                    inner.options.target_sst_size,
                    #[trigger] runs[t],
                    true,
                )
                &&& rightly_not_cut(
                    store,
                    inner.options.block_size,
                    inner.options.target_sst_size,
                    runs[t],
                )
            },
    ensures
        rightly_finished(inner, store, tables),
{
    assert(table_runs(tables).len() == tables.len());
    assert forall|t: int| 0 <= t < tables.len() implies {
        &&& told_full(
            store,
            inner.options.block_size,
            inner.options.target_sst_size,
            (#[trigger] tables[t]).items(),
            true,
        )
        &&& rightly_not_cut(
            store,
            inner.options.block_size,
            inner.options.target_sst_size,
            tables[t].items(),
        )
    } by {
        assert(runs[t] == tables[t].items());
    }
}

/// What a compaction leaves behind that stops because a table cannot be written: the tables that
/// were full before are written, and they hold, together with the one that failed, what survives of
/// the first `n` pairs of its input, behind which the one that failed was due to be written.
pub proof fn law_write_failure_leaves_finished_tables<S: TableStore, C>(
    inner: LsmStorageInner<C>,
    run: Run<ReadError>,
    before: LoggedTables<S>,
    after: LoggedTables<S>,
    e: S::Error,
)
    requires
        compacted(
            inner,
            Ok(run),
            before,
            after,
            Err::<Vec<Arc<SsTable>>, CompactionError<S::Error>>(CompactionError::Storage(e)),
        ),
    ensures
        exists|written: Seq<Arc<SsTable>>, failed: SsTable, n: int|
            {
                &&& #[trigger] wrote_up_to(done_since(before, after), written, failed, e)
                &&& rightly_finished(inner, before.store(), written)
                &&& failed.items().len() > 0
                &&& 0 <= n <= run.items.len()
                &&& concat_tables(written) + failed.items() == #[trigger] retained(
                    run.items.take(n),
                    inner.read_horizon(),
                )
                &&& n == run.items.len() ==> run.end is None
                &&& n < run.items.len() ==> told_full(
                    before.store(),
                    inner.options.block_size,
                    inner.options.target_sst_size,
                    failed.items(),
                    true,
                ) && (n > 0 ==> run.items[n].key.user != run.items[n - 1].key.user)
            },
{
    let r = Err::<Vec<Arc<SsTable>>, CompactionError<S::Error>>(CompactionError::Storage(e));
    let actions = lemma_actions(inner, Ok(run), before, after, r);
    let (written, failed) = choose|written: Seq<Arc<SsTable>>, failed: SsTable|
        {
            &&& #[trigger] comes_to_write(
                inner,
                before.store(),
                run,
                Cut { done: table_runs(written), open: failed.items() },
            )
            &&& actions == writes_of::<S::Error>(written) + table_writes(failed, Err(e))
        };
    let cut = Cut { done: table_runs(written), open: failed.items() };
    let (passed, sizes) = choose|passed: Seq<Item>, sizes: Seq<usize>|
        {
            &&& passed.len() <= run.items.len()
            &&& passed == run.items.take(passed.len() as int)
            &&& sizes.len() == passed.len()
            &&& sizes_reported(inner, before.store(), passed, sizes)
            &&& cut == #[trigger] inner.cut_of(passed, sizes)
            &&& cut.open.len() > 0
            &&& if passed.len() < run.items.len() {
                table_is_full(inner, before.store(), run.items, passed.len() as int, cut)
            } else {
                run.end is None
            }
        };
    let n = passed.len() as int;
    lemma_drew_and_wrote::<S::Error>(written);
    lemma_cut_sizes(inner, before.store(), passed, sizes);
    lemma_cut_holds(passed, inner.read_horizon(), inner.options.target_sst_size, sizes);
    lemma_rightly_finished(inner, before.store(), written, cut.done);
    let m = actions.len() as int;
    assert(actions.take(m - 2) =~= writes_of::<S::Error>(written));
    assert(actions[m - 2] == table_writes::<S::Error>(failed, Err(e))[0]);
    assert(actions[m - 1] == table_writes::<S::Error>(failed, Err(e))[1]);
    assert(wrote_up_to(done_since(before, after), written, failed, e));
    if n < run.items.len() {
        let size = choose|size: usize|
            {
                &&& #[trigger] size_reported(
                    before.store(),
                    inner.options.block_size,
                    cut.open,
                    size,
                )
                &&& is_cut(
                    key_before(run.items, n),
                    run.items[n].key,
                    cut.open.len() > 0,
                    size,
                    inner.options.target_sst_size,
                )
            };
        let builder = choose|builder: SsTableBuilder|
            {
                &&& #[trigger] call_ensures(S::estimated_size, (&before.store(), &builder), size)
                &&& builder.target_block_size() == inner.options.block_size
                &&& builder.items() == cut.open
            };
        assert(call_ensures(S::estimated_size, (&before.store(), &builder), size));
    }
    assert(retained(run.items.take(n), inner.read_horizon()) == concat_tables(written)
        + failed.items());
}

} // verus!
