//! What becomes of the state of the store in a round of compaction, told table by table.
#[allow(unused_imports)]
use crate::compact::failure_laws::{
    drew_and_wrote, law_task_fails_for_a_reason, lemma_drew_and_wrote, stops_reading,
};
#[allow(unused_imports)]
use crate::compact::install::{
    after_full_compaction, arranged_output, cleanup_result, deletable, ids_of, insert_tables,
    install_outcome, plan_outcome, record_result, removals, reply_outcome, same_but_state,
    storage_result, task_outcome, with_tables, without_tables,
};
#[allow(unused_imports)]
use crate::compact::merge::{input_result, writes_of};
#[allow(unused_imports)]
use crate::compact::output_laws::{
    fit_for_a_level, groups_in_order, in_output, law_task_needs_its_tables, law_task_output,
    read_back_to, stays, task_groups,
};
#[allow(unused_imports)]
use crate::compact::tasks::{tables_of, task_input, task_known};
use crate::compact::{
    CompactionController, CompactionError, CompactionTask, LeveledPolicy, SimpleLeveledPolicy,
    TieredPolicy,
};
use crate::iterators::Item;
#[allow(unused_imports)]
use crate::lsm_storage::{StateView, TableAction};
use crate::lsm_storage::{LsmStorageInner, LsmStorageState, TableStore};
use crate::table::SsTable;
use std::sync::Arc;
use vstd::prelude::*;

verus! {

/// Whether table `i` is the last of a list under the identifier `id`.
pub open spec fn last_under(tables: Seq<Arc<SsTable>>, i: int, id: usize) -> bool {
    &&& 0 <= i < tables.len()
    &&& tables[i].id() == id
    &&& forall|j: int| i < j < tables.len() ==> (#[trigger] tables[j]).id() != id
}

/// Whether, under one identifier, `after` has the last of a list of tables under it, or else what
/// `before` has there.
pub open spec fn put_under(
    before: Map<usize, Arc<SsTable>>,
    tables: Seq<Arc<SsTable>>,
    after: Map<usize, Arc<SsTable>>,
    id: usize,
) -> bool {
    if exists|i: int| last_under(tables, i, id) {
        &&& after.contains_key(id)
        &&& forall|i: int| #[trigger] last_under(tables, i, id) ==> after[id] == tables[i]
    } else {
        &&& after.contains_key(id) == before.contains_key(id)
        &&& before.contains_key(id) ==> after[id] == before[id]
    }
}

/// Whether `after` has what `before` has and a list of tables besides, each under its identifier;
/// of two under one identifier it has the later.
pub open spec fn put_in(
    before: Map<usize, Arc<SsTable>>,
    tables: Seq<Arc<SsTable>>,
    after: Map<usize, Arc<SsTable>>,
) -> bool {
    forall|id: usize| #[trigger] put_under(before, tables, after, id)
}

/// Putting tables into a map puts in each of them, and changes nothing else.
proof fn lemma_put_in(map: Map<usize, Arc<SsTable>>, tables: Seq<Arc<SsTable>>)
    ensures
        put_in(map, tables, insert_tables(map, tables)),
{
    assert forall|id: usize| #[trigger] put_under(
        map,
        tables,
        insert_tables(map, tables),
        id,
    ) by {
        lemma_put_under(map, tables, id);
    }
}

/// Putting tables into a map puts the last one under an identifier there.
proof fn lemma_put_under(map: Map<usize, Arc<SsTable>>, tables: Seq<Arc<SsTable>>, id: usize)
    ensures
        put_under(map, tables, insert_tables(map, tables), id),
    decreases tables.len(),
{
    let after = insert_tables(map, tables);
    if tables.len() > 0 {
        let front = tables.drop_last();
        let n = tables.len() - 1;
        let fewer = insert_tables(map, front);
        lemma_put_under(map, front, id);
        assert(after == fewer.insert(tables[n].id(), tables[n]));
        if tables[n].id() == id {
            assert(last_under(tables, n, id));
            assert forall|i: int| #[trigger] last_under(tables, i, id) implies after[id]
                == tables[i] by {
                if i < n {
                    assert(tables[n].id() != id);
                }
            }
        } else {
            assert forall|i: int| #[trigger] last_under(tables, i, id) implies last_under(
                front,
                i,
                id,
            ) by {
                assert(i != n);
                assert forall|j: int| i < j < front.len() implies (#[trigger] front[j]).id()
                    != id by {
                    assert(tables[j].id() != id);
                }
            }
            assert forall|i: int| #[trigger] last_under(front, i, id) implies last_under(
                tables,
                i,
                id,
            ) by {
                assert forall|j: int| i < j < tables.len() implies (#[trigger] tables[j]).id()
                    != id by {
                    if j < n {
                        assert(front[j].id() != id);
                    }
                }
            }
        }
    } else {
        assert forall|i: int| !(#[trigger] last_under(tables, i, id)) by {}
    }
}

/// Whether `after` is `before` without what a list of identifiers names.
pub open spec fn taken_out(
    before: Map<usize, Arc<SsTable>>,
    ids: Seq<usize>,
    after: Map<usize, Arc<SsTable>>,
) -> bool {
    forall|id: usize|
        #![trigger after.contains_key(id)]
        #![trigger after[id]]
        {
            &&& after.contains_key(id) <==> before.contains_key(id) && !ids.contains(id)
            &&& after.contains_key(id) ==> after[id] == before[id]
        }
}

/// Whether two states arrange their tables, and have memtables waiting, in the same way.
pub open spec fn same_arrangement(a: StateView, b: StateView) -> bool {
    &&& a.l0_sstables == b.l0_sstables
    &&& a.levels == b.levels
    &&& a.imm_memtables == b.imm_memtables
}

/// New tables are added to a state each under its identifier, and arranged nowhere yet.
pub proof fn law_added_tables(state: StateView, tables: Seq<Arc<SsTable>>)
    ensures
        same_arrangement(with_tables(state, tables), state),
        put_in(state.sstables, tables, with_tables(state, tables).sstables),
{
    lemma_put_in(state.sstables, tables);
}

/// Tables that are given up are taken out of a state, and nothing else is.
pub proof fn law_given_up_tables(state: StateView, ids: Seq<usize>)
    ensures
        same_arrangement(without_tables(state, ids), state),
        taken_out(state.sstables, ids, without_tables(state, ids).sstables),
{
}

/// The state after a full compaction, table by table: what was compacted is gone from level 0 and
/// from the tables, level 1 is made of the new tables in order, and all else is as it was.
pub proof fn law_full_compaction_swaps_tables(
    state: StateView,
    l0: Seq<usize>,
    l1: Seq<usize>,
    tables: Seq<Arc<SsTable>>,
)
    requires
        state.levels.len() > 0,
    ensures
        ({
            let after = after_full_compaction(state, l0, l1, tables);
            &&& after.l0_sstables == state.l0_sstables.filter(|id: usize| !l0.contains(id))
            &&& after.levels.len() == state.levels.len()
            &&& after.levels[0].0 == state.levels[0].0
            &&& after.levels[0].1.len() == tables.len()
            &&& forall|i: int|
                0 <= i < tables.len() ==> after.levels[0].1[i] == (#[trigger] tables[i]).id()
            &&& forall|i: int|
                1 <= i < state.levels.len() ==> #[trigger] after.levels[i] == state.levels[i]
            &&& after.imm_memtables == state.imm_memtables
            &&& exists|kept: Map<usize, Arc<SsTable>>|
                {
                    &&& #[trigger] put_in(kept, tables, after.sstables)
                    &&& forall|id: usize|
                        #![trigger kept.contains_key(id)]
                        #![trigger kept[id]]
                        {
                            &&& kept.contains_key(id) <==> state.sstables.contains_key(id)
                                && !l0.contains(id) && !l1.contains(id)
                            &&& kept.contains_key(id) ==> kept[id] == state.sstables[id]
                        }
                }
        }),
{
    let after = after_full_compaction(state, l0, l1, tables);
    let kept = state.sstables.remove_keys((l0 + l1).to_set());
    lemma_put_in(kept, tables);
    assert forall|id: usize|
        #![trigger kept.contains_key(id)]
        #![trigger kept[id]]
        {
            &&& kept.contains_key(id) <==> state.sstables.contains_key(id) && !l0.contains(id)
                && !l1.contains(id)
            &&& kept.contains_key(id) ==> kept[id] == state.sstables[id]
        } by {
        let both = l0 + l1;
        if l0.contains(id) {
            let k = choose|k: int| 0 <= k < l0.len() && l0[k] == id;
            assert(both[k] == id);
        }
        if l1.contains(id) {
            let k = choose|k: int| 0 <= k < l1.len() && l1[k] == id;
            assert(both[l0.len() + k] == id);
        }
        if both.contains(id) {
            let k = choose|k: int| 0 <= k < both.len() && both[k] == id;
            if k < l0.len() {
                assert(l0[k] == id);
            } else {
                assert(l1[k - l0.len()] == id);
            }
        }
    }
    assert(put_in(kept, tables, after.sstables));
}

/// Whether the policy of a controller may have answered with `reply` when it was shown `snapshot`
/// and asked to arrange the tables `ids` that a task has made, outside of recovery.
pub open spec fn policy_replied<L: LeveledPolicy, T: TieredPolicy, P: SimpleLeveledPolicy>(
    controller: CompactionController<L, T, P>,
    snapshot: LsmStorageState,
    task: CompactionTask,
    ids: &[usize],
    reply: (LsmStorageState, Vec<usize>),
) -> bool {
    match (controller, task) {
        (CompactionController::Leveled(policy), CompactionTask::Leveled(t)) => call_ensures(
            L::apply_compaction_result,
            (&policy, &snapshot, &t, ids, false),
            reply,
        ),
        (CompactionController::Simple(policy), CompactionTask::Simple(t)) => call_ensures(
            P::apply_compaction_result,
            (&policy, &snapshot, &t, ids),
            reply,
        ),
        (CompactionController::Tiered(policy), CompactionTask::Tiered(t)) => call_ensures(
            T::apply_compaction_result,
            (&policy, &snapshot, &t, ids),
            reply,
        ),
        _ => false,
    }
}

/// Whether the policy was shown the state together with the new tables and the identifiers of
/// those, and answered with `reply`.
pub open spec fn shown_and_replied<L: LeveledPolicy, T: TieredPolicy, P: SimpleLeveledPolicy>(
    before: LsmStorageInner<CompactionController<L, T, P>>,
    task: CompactionTask,
    tables: Seq<Arc<SsTable>>,
    snapshot: LsmStorageState,
    ids: &[usize],
    reply: (LsmStorageState, Vec<usize>),
) -> bool {
    &&& same_arrangement(snapshot@, before.state@)
    &&& put_in(before.state@.sstables, tables, snapshot@.sstables)
    &&& ids@.len() == tables.len()
    &&& forall|i: int| 0 <= i < tables.len() ==> ids@[i] == (#[trigger] tables[i]).id()
    &&& policy_replied(before.compaction_controller, snapshot, task, ids, reply)
}

/// The policy is asked to arrange exactly the tables that were made.
pub proof fn law_policy_sees_the_new_tables<
    L: LeveledPolicy,
    T: TieredPolicy,
    P: SimpleLeveledPolicy,
>(
    before: LsmStorageInner<CompactionController<L, T, P>>,
    task: &CompactionTask,
    tables: Seq<Arc<SsTable>>,
    reply: (LsmStorageState, Vec<usize>),
)
    requires
        arranged_output(before, task, tables, reply),
    ensures
        exists|snapshot: LsmStorageState, ids: &[usize]| #[trigger]
            shown_and_replied(before, *task, tables, snapshot, ids, reply),
{
    let (snapshot, ids) = choose|snapshot: LsmStorageState, ids: &[usize]|
        {
            &&& snapshot@ == with_tables(before.state@, tables)
            &&& ids@ == ids_of(tables)
            &&& #[trigger] before.compaction_controller.arranges(&snapshot, task, ids, false, reply)
        };
    law_added_tables(before.state@, tables);
    assert(ids@.len() == tables.len());
    assert(shown_and_replied(before, *task, tables, snapshot, ids, reply));
}

/// Whether a state is that of a reply without the tables that the reply gives up.
pub open spec fn installed(after: StateView, reply: (LsmStorageState, Vec<usize>)) -> bool {
    &&& same_arrangement(after, reply.0@)
    &&& taken_out(reply.0@.sstables, reply.1@, after.sstables)
}

/// Whether a reply gives up tables that are there, none of them twice.
pub open spec fn gives_up_what_is_there(reply: (LsmStorageState, Vec<usize>)) -> bool {
    &&& forall|k: int|
        0 <= k < reply.1@.len() ==> reply.0@.sstables.contains_key(#[trigger] reply.1@[k])
    &&& forall|j: int, k: int|
        #![trigger reply.1@[j], reply.1@[k]]
        0 <= j < k < reply.1@.len() ==> reply.1@[j] != reply.1@[k]
}

/// Whether actions are those of a round that went well: the tables were written, recorded once, the
/// files of the tables that the reply gives up were removed in order, and the directory was synced.
pub open spec fn round_log<E>(
    actions: Seq<TableAction<E>>,
    task: CompactionTask,
    tables: Seq<Arc<SsTable>>,
    reply: (LsmStorageState, Vec<usize>),
) -> bool {
    let n = 2 * tables.len() as int;
    let gone = reply.1@;
    &&& actions.len() == n + 2 + gone.len()
    &&& drew_and_wrote(actions.take(n), tables)
    &&& actions[n] matches TableAction::Recorded(recorded, ids, answer) && {
        &&& recorded == task
        &&& answer is Ok
        &&& ids.len() == tables.len()
        &&& forall|i: int| 0 <= i < tables.len() ==> ids[i] == (#[trigger] tables[i]).id()
    }
    &&& forall|k: int|
        0 <= k < gone.len() ==> actions[n + 1 + k] == TableAction::<E>::RemovedFile(
            reply.0@.sstables[#[trigger] gone[k]].id(),
            Ok(()),
        )
    &&& actions[n + 1 + gone.len()] == TableAction::<E>::Synced(Ok(()))
}

/// Whether a round went well with `tables` as its new tables and `reply` as the policy's reply.
pub open spec fn round_went_well<
    S: TableStore,
    L: LeveledPolicy,
    T: TieredPolicy,
    P: SimpleLeveledPolicy,
>(
    before: LsmStorageInner<CompactionController<L, T, P>>,
    after: LsmStorageInner<CompactionController<L, T, P>>,
    task: CompactionTask,
    actions: Seq<TableAction<S::Error>>,
    tables: Seq<Arc<SsTable>>,
    reply: (LsmStorageState, Vec<usize>),
) -> bool {
    &&& exists|snapshot: LsmStorageState, ids: &[usize]| #[trigger]
        shown_and_replied(before, task, tables, snapshot, ids, reply)
    &&& gives_up_what_is_there(reply)
    &&& installed(after.state@, reply)
    &&& round_log(actions, task, tables, reply)
}

/// A round that succeeds, told step by step: the tables of its task are there, it makes of them the
/// tables that a compaction makes, shows the policy the state with these, installs the policy's
/// reply without what that gives up, and does to the disk what has to be done and nothing else.
pub proof fn law_round_step_by_step<
    S: TableStore,
    L: LeveledPolicy,
    T: TieredPolicy,
    P: SimpleLeveledPolicy,
>(
    before: LsmStorageInner<CompactionController<L, T, P>>,
    after: LsmStorageInner<CompactionController<L, T, P>>,
    store: S,
    task: &CompactionTask,
    actions: Seq<TableAction<S::Error>>,
    w: u64,
)
    requires
        before.mvcc is Some,
        read_back_to(before.mvcc->Some_0@, w),
        task_outcome(before, after, store, task, actions, Ok(())),
    ensures
        forall|g: int, i: int|
            #![trigger task_groups(task)[g][i]]
            0 <= g < task_groups(task).len() && 0 <= i < task_groups(task)[g].len()
                ==> before.state@.sstables.contains_key(task_groups(task)[g][i]),
        exists|tables: Seq<Arc<SsTable>>, reply: (LsmStorageState, Vec<usize>)|
            {
                &&& #[trigger] round_went_well::<S, L, T, P>(
                    before,
                    after,
                    *task,
                    actions,
                    tables,
                    reply,
                )
                &&& groups_in_order(before.state@, task_groups(task)) ==> {
                    &&& fit_for_a_level(tables)
                    &&& w < u64::MAX ==> forall|x: Item| #[trigger]
                        in_output(tables, x) <==> stays(before.state@, task_groups(task), w, x)
                    &&& w == u64::MAX ==> tables.len() == 0
                }
            },
{
    let input = task_input(before.state@, task);
    let r = Ok::<(), CompactionError<S::Error>>(());
    law_task_needs_its_tables(before.state@, task);
    let (writes, result) = choose|
        writes: Seq<TableAction<S::Error>>,
        result: Result<Vec<Arc<SsTable>>, CompactionError<S::Error>>,
    |
        {
            &&& #[trigger] input_result(before, store, input, writes, result)
            &&& match result {
                Ok(tables) => exists|rest: Seq<TableAction<S::Error>>|
                    {
                        &&& #[trigger] install_outcome(before, after, task, tables@, rest, r)
                        &&& actions == writes + rest
                    },
                Err(e) => {
                    &&& after.state@ == before.state@
                    &&& actions == writes
                    &&& r == Err::<(), CompactionError<S::Error>>(e)
                },
            }
        };
    let made = result->Ok_0;
    let tables = made@;
    let rest = choose|rest: Seq<TableAction<S::Error>>|
        {
            &&& #[trigger] install_outcome(before, after, task, tables, rest, r)
            &&& actions == writes + rest
        };
    let reply = choose|reply: (LsmStorageState, Vec<usize>)|
        {
            &&& #[trigger] arranged_output(before, task, tables, reply)
            &&& reply_outcome(before, after, task, ids_of(tables), reply, rest, r)
        };
    law_policy_sees_the_new_tables(before, task, tables, reply);
    law_given_up_tables(reply.0@, reply.1@);
    let ids = ids_of(tables);
    let gone = ids_of(tables_of(reply.0@, reply.1@));
    let done = choose|done: Result<(), S::Error>|
        {
            &&& #[trigger] record_result(*task, ids, gone, rest, done)
            &&& r == storage_result(done)
        };
    assert(done is Ok && done->Ok_0 == ());
    let last = choose|last: Seq<TableAction<S::Error>>|
        {
            &&& #[trigger] cleanup_result(gone, last, done)
            &&& rest == seq![TableAction::Recorded(*task, ids, Ok(()))] + last
        };
    assert(last == removals::<S::Error>(gone).push(TableAction::Synced(Ok(()))));
    lemma_drew_and_wrote::<S::Error>(tables);
    assert(writes == writes_of::<S::Error>(tables));
    let n = 2 * tables.len() as int;
    assert(actions.take(n) =~= writes);
    assert(actions[n] == rest[0]);
    assert forall|k: int| 0 <= k < reply.1@.len() implies actions[n + 1 + k] == TableAction::<
        S::Error,
    >::RemovedFile(reply.0@.sstables[#[trigger] reply.1@[k]].id(), Ok(())) by {
        assert(actions[n + 1 + k] == rest[1 + k]);
        assert(rest[1 + k] == last[k]);
        assert(last[k] == removals::<S::Error>(gone)[k]);
    }
    let m = reply.1@.len() as int;
    assert(actions[n + 1 + m] == rest[1 + m]);
    assert(rest[1 + m] == last[m]);
    assert(round_log(actions, *task, tables, reply));
    assert(gives_up_what_is_there(reply));
    assert(installed(after.state@, reply));
    assert(round_went_well::<S, L, T, P>(before, after, *task, actions, tables, reply));
    if groups_in_order(before.state@, task_groups(task)) {
        let any: Item = arbitrary();
        law_task_output(before, store, task, writes, made, w, any);
        if w < u64::MAX {
            assert forall|x: Item| #[trigger] in_output(tables, x) <==> stays(
                before.state@,
                task_groups(task),
                w,
                x,
            ) by {
                law_task_output(before, store, task, writes, made, w, x);
            }
        }
    }
}

/// Whether the disk answered an action with the error `e`.
pub open spec fn answered_with<E>(action: TableAction<E>, e: E) -> bool {
    match action {
        TableAction::Wrote(_table, answer) => answer == Err::<(), E>(e),
        TableAction::Recorded(_task, _ids, answer) => answer == Err::<(), E>(e),
        TableAction::RemovedFile(_id, answer) => answer == Err::<(), E>(e),
        TableAction::Synced(answer) => answer == Err::<(), E>(e),
        _ => false,
    }
}

/// What removing files does, told file by file: the files go in order, and the directory is synced
/// once all are gone. The first thing that fails ends it, and tells the error.
pub proof fn law_files_go_in_order<E>(
    ids: Seq<usize>,
    actions: Seq<TableAction<E>>,
    r: Result<(), E>,
)
    requires
        cleanup_result(ids, actions, r),
    ensures
        1 <= actions.len() <= ids.len() + 1,
        forall|k: int|
            0 <= k < actions.len() - 1 ==> #[trigger] actions[k] == TableAction::<E>::RemovedFile(
                ids[k],
                Ok(()),
            ),
        r is Ok ==> actions.len() == ids.len() + 1 && actions.last() == TableAction::<E>::Synced(
            Ok(()),
        ),
        r matches Err(e) ==> answered_with(actions.last(), e),
        actions.len() <= ids.len() ==> (actions.last() matches TableAction::RemovedFile(
            id,
            _answer,
        ) && id == ids[actions.len() - 1]),
        actions.len() == ids.len() + 1 ==> actions.last() is Synced,
{
    if actions == removals::<E>(ids).push(TableAction::Synced(r)) {
        assert forall|k: int| 0 <= k < actions.len() - 1 implies #[trigger] actions[k]
            == TableAction::<E>::RemovedFile(ids[k], Ok(())) by {
            assert(actions[k] == removals::<E>(ids)[k]);
        }
        assert(r matches Ok(done) ==> done == ());
    } else {
        let n = choose|n: int|
            0 <= n < ids.len() && actions == #[trigger] removals::<E>(ids.take(n)).push(
                TableAction::RemovedFile(ids[n], r),
            );
        assert forall|k: int| 0 <= k < actions.len() - 1 implies #[trigger] actions[k]
            == TableAction::<E>::RemovedFile(ids[k], Ok(())) by {
            assert(actions[k] == removals::<E>(ids.take(n))[k]);
        }
    }
}

/// How a round goes on from the policy's reply. A reply that gives up what is not there, or
/// something twice, changes nothing. Otherwise its state is installed without what it gives up,
/// and the compaction recorded, and if that succeeds the files go. What fails last is what is
/// told.
pub proof fn law_reply_is_installed<C, E>(
    before: LsmStorageInner<C>,
    after: LsmStorageInner<C>,
    task: &CompactionTask,
    output: Seq<usize>,
    reply: (LsmStorageState, Vec<usize>),
    actions: Seq<TableAction<E>>,
    r: Result<(), CompactionError<E>>,
)
    requires
        reply_outcome(before, after, task, output, reply, actions, r),
    ensures
        !gives_up_what_is_there(reply) ==> {
            &&& after.state@ == before.state@
            &&& actions.len() == 0
            &&& r == Err::<(), CompactionError<E>>(CompactionError::UnknownTable)
        },
        gives_up_what_is_there(reply) ==> {
            &&& installed(after.state@, reply)
            &&& 1 <= actions.len() <= reply.1@.len() + 2
            &&& actions[0] matches TableAction::Recorded(recorded, ids, answer) && {
                &&& recorded == *task
                &&& ids == output
                &&& answer is Err ==> actions.len() == 1
            }
            &&& forall|k: int|
                1 <= k < actions.len() - 1 ==> #[trigger] actions[k] == TableAction::<
                    E,
                >::RemovedFile(reply.0@.sstables[reply.1@[k - 1]].id(), Ok(()))
            &&& r is Ok <==> actions.len() == reply.1@.len() + 2 && actions.last()
                == TableAction::<E>::Synced(Ok(()))
            &&& r matches Err(e) ==> (e matches CompactionError::Storage(err) && answered_with(
                actions.last(),
                err,
            ))
        },
{
    assert(deletable(reply.0@, reply.1@) == gives_up_what_is_there(reply)) by {
        if deletable(reply.0@, reply.1@) {
            assert(reply.1@.no_duplicates());
        }
        if gives_up_what_is_there(reply) {
            assert forall|j: int, k: int|
                0 <= j < reply.1@.len() && 0 <= k < reply.1@.len() && j != k implies reply.1@[j]
                != reply.1@[k] by {
                if j < k {
                    assert(reply.1@[j] != reply.1@[k]);
                } else {
                    assert(reply.1@[k] != reply.1@[j]);
                }
            }
        }
    }
    law_given_up_tables(reply.0@, reply.1@);
    if gives_up_what_is_there(reply) {
        let gone = ids_of(tables_of(reply.0@, reply.1@));
        let done = choose|done: Result<(), E>|
            {
                &&& #[trigger] record_result(*task, output, gone, actions, done)
                &&& r == storage_result(done)
            };
        if done is Err && actions == seq![TableAction::Recorded(*task, output, done)] {
        } else {
            let rest = choose|rest: Seq<TableAction<E>>|
                {
                    &&& #[trigger] cleanup_result(gone, rest, done)
                    &&& actions == seq![TableAction::Recorded(*task, output, Ok(()))] + rest
                };
            law_files_go_in_order(gone, rest, done);
            assert(actions.last() == rest.last());
            assert forall|k: int| 1 <= k < actions.len() - 1 implies #[trigger] actions[k]
                == TableAction::<E>::RemovedFile(
                reply.0@.sstables[reply.1@[k - 1]].id(),
                Ok(()),
            ) by {
                assert(actions[k] == rest[k - 1]);
                assert(gone[k - 1] == reply.0@.sstables[reply.1@[k - 1]].id());
            }
        }
    }
}

/// Why a round fails, and what it has changed by then. If a table that its task names is not there,
/// or the policy gives up a table that is not there, nothing is changed. If a table cannot be read
/// on or written, nothing is changed either. If the record or the removal of files fails, the new
/// state is in place already. The error is that of the last thing done.
pub proof fn law_round_fails_for_a_reason<
    S: TableStore,
    L: LeveledPolicy,
    T: TieredPolicy,
    P: SimpleLeveledPolicy,
>(
    before: LsmStorageInner<CompactionController<L, T, P>>,
    after: LsmStorageInner<CompactionController<L, T, P>>,
    store: S,
    task: &CompactionTask,
    actions: Seq<TableAction<S::Error>>,
    e: CompactionError<S::Error>,
)
    requires
        task_outcome(before, after, store, task, actions, Err(e)),
    ensures
        match e {
            CompactionError::Read(err) => {
                &&& after.state@ == before.state@
                &&& stops_reading(before.state@, task_groups(task), err)
            },
            CompactionError::Storage(err) => {
                &&& actions.len() > 0
                &&& answered_with(actions.last(), err)
                &&& if actions.last() is Wrote {
                    after.state@ == before.state@
                } else {
                    exists|reply: (LsmStorageState, Vec<usize>)|
                        gives_up_what_is_there(reply) && #[trigger] installed(after.state@, reply)
                }
            },
            CompactionError::UnknownTable => {
                &&& after.state@ == before.state@
                &&& (forall|g: int, i: int|
                    #![trigger task_groups(task)[g][i]]
                    0 <= g < task_groups(task).len() && 0 <= i < task_groups(task)[g].len()
                        ==> before.state@.sstables.contains_key(task_groups(task)[g][i]))
                    ==> exists|
                    tables: Seq<Arc<SsTable>>,
                    snapshot: LsmStorageState,
                    ids: &[usize],
                    reply: (LsmStorageState, Vec<usize>),
                | {
                    &&& #[trigger] shown_and_replied(before, *task, tables, snapshot, ids, reply)
                    &&& !gives_up_what_is_there(reply)
                    &&& drew_and_wrote(actions, tables)
                }
            },
        },
{
    let input = task_input(before.state@, task);
    let r = Err::<(), CompactionError<S::Error>>(e);
    law_task_needs_its_tables(before.state@, task);
    if task_known(before.state@, task) {
        let (writes, result) = choose|
            writes: Seq<TableAction<S::Error>>,
            result: Result<Vec<Arc<SsTable>>, CompactionError<S::Error>>,
        |
            {
                &&& #[trigger] input_result(before, store, input, writes, result)
                &&& match result {
                    Ok(tables) => exists|rest: Seq<TableAction<S::Error>>|
                        {
                            &&& #[trigger] install_outcome(before, after, task, tables@, rest, r)
                            &&& actions == writes + rest
                        },
                    Err(err) => {
                        &&& after.state@ == before.state@
                        &&& actions == writes
                        &&& r == Err::<(), CompactionError<S::Error>>(err)
                    },
                }
            };
        law_task_fails_for_a_reason(before, store, task, writes, result);
        if let Ok(made) = result {
            let tables = made@;
            let rest = choose|rest: Seq<TableAction<S::Error>>|
                {
                    &&& #[trigger] install_outcome(before, after, task, tables, rest, r)
                    &&& actions == writes + rest
                };
            let reply = choose|reply: (LsmStorageState, Vec<usize>)|
                {
                    &&& #[trigger] arranged_output(before, task, tables, reply)
                    &&& reply_outcome(before, after, task, ids_of(tables), reply, rest, r)
                };
            law_policy_sees_the_new_tables(before, task, tables, reply);
            law_reply_is_installed(before, after, task, ids_of(tables), reply, rest, r);
            if gives_up_what_is_there(reply) {
                assert(actions.last() == rest.last());
                assert(installed(after.state@, reply));
                if rest.len() > 1 {
                    assert(!(rest.last() is Wrote)) by {
                        lemma_reply_writes_nothing(
                            before,
                            after,
                            task,
                            ids_of(tables),
                            reply,
                            rest,
                            r,
                        );
                    }
                }
            } else {
                lemma_drew_and_wrote::<S::Error>(tables);
                assert(actions =~= writes);
                let (snapshot, ids) = choose|snapshot: LsmStorageState, ids: &[usize]| #[trigger]
                    shown_and_replied(before, *task, tables, snapshot, ids, reply);
                assert(shown_and_replied(before, *task, tables, snapshot, ids, reply));
            }
        }
    }
}

/// Going on from a reply writes no table.
proof fn lemma_reply_writes_nothing<C, E>(
    before: LsmStorageInner<C>,
    after: LsmStorageInner<C>,
    task: &CompactionTask,
    output: Seq<usize>,
    reply: (LsmStorageState, Vec<usize>),
    actions: Seq<TableAction<E>>,
    r: Result<(), CompactionError<E>>,
)
    requires
        reply_outcome(before, after, task, output, reply, actions, r),
        actions.len() > 1,
    ensures
        !(actions.last() is Wrote),
{
    let gone = ids_of(tables_of(reply.0@, reply.1@));
    let done = choose|done: Result<(), E>|
        {
            &&& #[trigger] record_result(*task, output, gone, actions, done)
            &&& r == storage_result(done)
        };
    let rest = choose|rest: Seq<TableAction<E>>|
        {
            &&& #[trigger] cleanup_result(gone, rest, done)
            &&& actions == seq![TableAction::Recorded(*task, output, Ok(()))] + rest
        };
    law_files_go_in_order(gone, rest, done);
    assert(actions.last() == rest.last());
}

/// A round goes by what the policy wants: where it wants nothing, nothing is done or changed, and
/// otherwise its task is carried out.
pub proof fn law_round_goes_by_the_plan<
    S: TableStore,
    L: LeveledPolicy,
    T: TieredPolicy,
    P: SimpleLeveledPolicy,
>(
    before: LsmStorageInner<CompactionController<L, T, P>>,
    after: LsmStorageInner<CompactionController<L, T, P>>,
    store: S,
    plan: Option<CompactionTask>,
    actions: Seq<TableAction<S::Error>>,
    r: Result<(), CompactionError<S::Error>>,
)
    requires
        plan_outcome(before, after, store, plan, actions, r),
    ensures
        plan is None ==> after.state@ == before.state@ && actions.len() == 0 && r is Ok,
        plan matches Some(task) ==> task_outcome(before, after, store, &task, actions, r),
{
}

/// A controller wants compacted what its policy wants, and nothing of another kind.
pub proof fn law_plans_are_the_policy_s<
    L: LeveledPolicy,
    T: TieredPolicy,
    P: SimpleLeveledPolicy,
>(
    controller: CompactionController<L, T, P>,
    snapshot: LsmStorageState,
    plan: Option<CompactionTask>,
)
    requires
        controller.plans(&snapshot, plan),
    ensures
        match controller {
            CompactionController::Leveled(policy) => match plan {
                None => call_ensures(L::generate_compaction_task, (&policy, &snapshot), None),
                Some(task) => task matches CompactionTask::Leveled(t) && call_ensures(
                    L::generate_compaction_task,
                    (&policy, &snapshot),
                    Some(t),
                ),
            },
            CompactionController::Tiered(policy) => match plan {
                None => call_ensures(T::generate_compaction_task, (&policy, &snapshot), None),
                Some(task) => task matches CompactionTask::Tiered(t) && call_ensures(
                    T::generate_compaction_task,
                    (&policy, &snapshot),
                    Some(t),
                ),
            },
            CompactionController::Simple(policy) => match plan {
                None => call_ensures(P::generate_compaction_task, (&policy, &snapshot), None),
                Some(task) => task matches CompactionTask::Simple(t) && call_ensures(
                    P::generate_compaction_task,
                    (&policy, &snapshot),
                    Some(t),
                ),
            },
            CompactionController::NoCompaction => false,
        },
{
}

/// What the policy is asked to arrange, in recovery or not, it is asked with the same words; only
/// leveled compaction is told whether the store recovers.
pub proof fn law_policy_is_asked<L: LeveledPolicy, T: TieredPolicy, P: SimpleLeveledPolicy>(
    controller: CompactionController<L, T, P>,
    snapshot: LsmStorageState,
    task: CompactionTask,
    ids: &[usize],
    in_recovery: bool,
    reply: (LsmStorageState, Vec<usize>),
)
    requires
        controller.arranges(&snapshot, &task, ids, in_recovery, reply),
    ensures
        match (controller, task) {
            (CompactionController::Leveled(policy), CompactionTask::Leveled(t)) => call_ensures(
                L::apply_compaction_result,
                (&policy, &snapshot, &t, ids, in_recovery),
                reply,
            ),
            _ => policy_replied(controller, snapshot, task, ids, reply),
        },
{
}

/// Which compactions reach the bottom: a full one, and otherwise those whose policy says so.
pub proof fn law_reaching_the_bottom(task: CompactionTask)
    ensures
        task is ForceFullCompaction ==> task.reaches_bottom(),
        task matches CompactionTask::Leveled(t) ==> (task.reaches_bottom()
            <==> t.is_lower_level_bottom_level),
        task matches CompactionTask::Simple(t) ==> (task.reaches_bottom()
            <==> t.is_lower_level_bottom_level),
        task matches CompactionTask::Tiered(t) ==> (task.reaches_bottom()
            <==> t.bottom_tier_included),
{
}

/// A round changes the state alone: concurrency control, the options and the policy stay as they
/// are.
pub proof fn law_rounds_change_the_state_alone<C>(a: LsmStorageInner<C>, b: LsmStorageInner<C>)
    requires
        same_but_state(a, b),
    ensures
        a.mvcc == b.mvcc,
        a.options == b.options,
        a.compaction_controller == b.compaction_controller,
{
}

/// A state is seen as it is: every list and every table of it.
pub proof fn law_state_is_seen_as_it_is(state: LsmStorageState)
    ensures
        state@.l0_sstables == state.l0_sstables@,
        state@.levels.len() == state.levels@.len(),
        forall|i: int|
            0 <= i < state.levels@.len() ==> (#[trigger] state@.levels[i]).0 == state.levels@[i].0
                && state@.levels[i].1 == state.levels@[i].1@,
        state@.sstables == state.sstables@,
        state@.imm_memtables == state.imm_memtables@,
{
}

/// The tables that a list of identifiers names, and the identifiers of a list of tables, are told
/// one by one.
pub proof fn law_tables_and_identifiers(
    state: StateView,
    ids: Seq<usize>,
    tables: Seq<Arc<SsTable>>,
)
    ensures
        tables_of(state, ids).len() == ids.len(),
        forall|i: int|
            0 <= i < ids.len() ==> #[trigger] tables_of(state, ids)[i] == state.sstables[ids[i]],
        ids_of(tables).len() == tables.len(),
        forall|i: int| 0 <= i < tables.len() ==> #[trigger] ids_of(tables)[i] == tables[i].id(),
{
}

} // verus!
