//! What the tables of a compaction hold, told from the tables that its task names.
#[allow(unused_imports)]
use crate::compact::install::{full_input, full_run};
#[allow(unused_imports)]
use crate::compact::laws::{
    law_output_has_no_empty_table, law_output_is_what_survives, law_success_reads_everything,
    lemma_pair_input,
};
#[allow(unused_imports)]
use crate::compact::merge::{compacted, compacted_into, input_result};
#[allow(unused_imports)]
use crate::compact::retention::{
    law_compaction_invents_nothing, law_compaction_keeps_order, law_compaction_keeps_recent,
    law_last_watermark_drops_everything, law_tables_do_not_share_user_keys, law_what_survives,
    split_run, users_before,
};
#[allow(unused_imports)]
use crate::compact::tasks::{
    known, l0_run, level_run, pair_input, tables_of, task_input, task_known, task_run, tier_runs,
};
use crate::compact::{CompactionError, CompactionTask};
#[allow(unused_imports)]
use crate::iterators::{merge_all, two_merge, whole, Item};
use crate::iterators::Run;
#[allow(unused_imports)]
use crate::key::{lex_lt, KeyView};
use crate::lsm_storage::{LoggedTables, LsmStorageInner, TableStore};
#[allow(unused_imports)]
use crate::lsm_storage::{did, StateView, TableAction};
#[allow(unused_imports)]
use crate::mvcc::watermark::law_watermark_is_the_smallest;
#[allow(unused_imports)]
use crate::mvcc::MvccView;
#[allow(unused_imports)]
use crate::runs::{
    concat_runs, has_key, holds_first, in_sequence, law_concat_holds, law_merge_all_holds,
    law_merge_all_loses_nothing, law_merge_all_sorted, law_two_merge_loses_nothing,
    lemma_concat_sorted, lemma_merge_one_more, lemma_parts_sorted, sorted,
};
#[allow(unused_imports)]
use crate::table::{concat_tables, readable, table_runs};
use crate::table::{ReadError, SsTable};
use std::sync::Arc;
use vstd::prelude::*;

verus! {

/// Whether one of the tables that a list of identifiers names holds `x`.
pub open spec fn held_in(state: StateView, ids: Seq<usize>, x: Item) -> bool {
    exists|i: int| 0 <= i < ids.len() && state.sstables[#[trigger] ids[i]].items().contains(x)
}

/// Whether one of the tables that a list of identifiers names holds something under `key`.
pub open spec fn key_in(state: StateView, ids: Seq<usize>, key: KeyView) -> bool {
    exists|x: Item| #[trigger] held_in(state, ids, x) && x.key == key
}

/// Each of a list of identifiers by itself.
pub open spec fn each_alone(ids: Seq<usize>) -> Seq<Seq<usize>> {
    ids.map_values(|id: usize| seq![id])
}

/// The tables of two levels in the order in which they take precedence over one another: the upper
/// ones, each by itself if they are of level 0, and then the lower ones.
pub open spec fn level_groups(
    from_l0: bool,
    upper: Seq<usize>,
    lower: Seq<usize>,
) -> Seq<Seq<usize>> {
    (if from_l0 {
        each_alone(upper)
    } else {
        seq![upper]
    }).push(lower)
}

/// The tables that a task names, in the order in which they take precedence over one another.
pub open spec fn task_groups(task: &CompactionTask) -> Seq<Seq<usize>> {
    match task {
        CompactionTask::ForceFullCompaction { l0_sstables, l1_sstables } => level_groups(
            true,
            l0_sstables@,
            l1_sstables@,
        ),
        CompactionTask::Simple(t) => level_groups(
            t.upper_level is None,
            t.upper_level_sst_ids@,
            t.lower_level_sst_ids@,
        ),
        CompactionTask::Leveled(t) => level_groups(
            t.upper_level is None,
            t.upper_level_sst_ids@,
            t.lower_level_sst_ids@,
        ),
        CompactionTask::Tiered(t) => t.tiers@.map_values(|tier: (usize, Vec<usize>)| tier.1@),
    }
}

/// Whether group `g` is the first that holds something under the key of `x`, and it holds `x`.
pub open spec fn copy_counts(state: StateView, groups: Seq<Seq<usize>>, g: int, x: Item) -> bool {
    &&& 0 <= g < groups.len()
    &&& held_in(state, groups[g], x)
    &&& forall|h: int| 0 <= h < g ==> !key_in(state, #[trigger] groups[h], x.key)
}

/// Whether `x` is the copy that counts of those that the groups hold under its key.
pub open spec fn counts(state: StateView, groups: Seq<Seq<usize>>, x: Item) -> bool {
    exists|g: int| #[trigger] copy_counts(state, groups, g, x)
}

/// Whether each of a list of tables is sorted, and they follow one another.
pub open spec fn tables_in_order(state: StateView, ids: Seq<usize>) -> bool {
    &&& forall|i: int| 0 <= i < ids.len() ==> sorted(state.sstables[#[trigger] ids[i]].items())
    &&& forall|i: int, j: int, k: int, l: int|
        #![trigger state.sstables[ids[i]].items()[k], state.sstables[ids[j]].items()[l]]
        0 <= i < j < ids.len() && 0 <= k < state.sstables[ids[i]].items().len() && 0 <= l
            < state.sstables[ids[j]].items().len() ==> state.sstables[ids[i]].items()[k].key.lt(
            state.sstables[ids[j]].items()[l].key,
        )
}

/// Whether the tables of each group are sorted and follow one another.
pub open spec fn groups_in_order(state: StateView, groups: Seq<Seq<usize>>) -> bool {
    forall|g: int| 0 <= g < groups.len() ==> tables_in_order(state, #[trigger] groups[g])
}

/// Whether one of a list of tables holds `x`.
pub open spec fn in_output(tables: Seq<Arc<SsTable>>, x: Item) -> bool {
    exists|t: int| 0 <= t < tables.len() && (#[trigger] tables[t]).items().contains(x)
}

/// Whether `ts` is the oldest timestamp that can still be read at: that of the oldest reader, or
/// the newest commit timestamp where there are no readers.
pub open spec fn read_back_to(mvcc: MvccView, ts: u64) -> bool {
    ||| mvcc.readers.count(ts) > 0 && forall|other: u64| #[trigger]
        mvcc.readers.count(other) > 0 ==> ts <= other
    ||| (forall|other: u64| #[trigger] mvcc.readers.count(other) == 0) && ts == mvcc.latest
}

/// There is exactly one oldest timestamp that can still be read at, and it is the watermark.
pub proof fn law_watermark_is_read_back_to(mvcc: MvccView, ts: u64)
    ensures
        mvcc.watermark() == ts <==> read_back_to(mvcc, ts),
{
    law_watermark_is_the_smallest(mvcc.readers, ts);
    law_watermark_is_the_smallest(mvcc.readers, mvcc.watermark());
}

/// What a level holds is what its tables hold.
proof fn lemma_level_holds(state: StateView, ids: Seq<usize>, x: Item)
    ensures
        level_run(state, ids).contains(x) <==> held_in(state, ids, x),
{
    let runs = table_runs(tables_of(state, ids));
    law_concat_holds(runs, x);
    if level_run(state, ids).contains(x) {
        let g = choose|g: int| 0 <= g < runs.len() && (#[trigger] runs[g]).contains(x);
        assert(runs[g] == state.sstables[ids[g]].items());
    }
    if held_in(state, ids, x) {
        let i = choose|i: int|
            0 <= i < ids.len() && state.sstables[#[trigger] ids[i]].items().contains(x);
        assert(runs[i] == state.sstables[ids[i]].items());
    }
}

/// The keys of a level are those of its tables.
proof fn lemma_level_keys(state: StateView, ids: Seq<usize>, key: KeyView)
    ensures
        has_key(level_run(state, ids), key) <==> key_in(state, ids, key),
{
    let run = level_run(state, ids);
    if has_key(run, key) {
        let i = choose|i: int| 0 <= i < run.len() && (#[trigger] run[i]).key == key;
        assert(run.contains(run[i]));
        lemma_level_holds(state, ids, run[i]);
    }
    if key_in(state, ids, key) {
        let x = choose|x: Item| #[trigger] held_in(state, ids, x) && x.key == key;
        lemma_level_holds(state, ids, x);
        let i = choose|i: int| 0 <= i < run.len() && run[i] == x;
        assert(run[i].key == key);
    }
}

/// Tables in order make a sorted level.
proof fn lemma_level_sorted(state: StateView, ids: Seq<usize>)
    requires
        tables_in_order(state, ids),
    ensures
        sorted(level_run(state, ids)),
{
    let runs = table_runs(tables_of(state, ids));
    assert(in_sequence(runs)) by {
        assert forall|g: int| 0 <= g < runs.len() implies sorted(#[trigger] runs[g]) by {
            assert(runs[g] == state.sstables[ids[g]].items());
        }
        assert forall|g: int, h: int, i: int, j: int|
            #![trigger runs[g][i], runs[h][j]]
            0 <= g < h < runs.len() && 0 <= i < runs[g].len() && 0 <= j < runs[h].len() implies
            runs[g][i].key.lt(runs[h][j].key) by {
            assert(runs[g] == state.sstables[ids[g]].items());
            assert(runs[h] == state.sstables[ids[h]].items());
        }
    }
    lemma_concat_sorted(runs);
}

/// What each group of tables holds.
pub open spec fn group_runs(state: StateView, groups: Seq<Seq<usize>>) -> Seq<Seq<Item>> {
    groups.map_values(|ids: Seq<usize>| level_run(state, ids))
}

/// The copies that count are those that the first of several runs holds.
proof fn lemma_counts(state: StateView, groups: Seq<Seq<usize>>, g: int, x: Item)
    ensures
        holds_first(group_runs(state, groups), g, x) <==> copy_counts(state, groups, g, x),
{
    let runs = group_runs(state, groups);
    if 0 <= g < groups.len() {
        assert(runs[g] == level_run(state, groups[g]));
        lemma_level_holds(state, groups[g], x);
        assert forall|h: int| 0 <= h < groups.len() implies (has_key(#[trigger] runs[h], x.key)
            <==> key_in(state, groups[h], x.key)) by {
            assert(runs[h] == level_run(state, groups[h]));
            lemma_level_keys(state, groups[h], x.key);
        }
        if holds_first(runs, g, x) {
            assert forall|h: int| 0 <= h < g implies !key_in(
                state,
                #[trigger] groups[h],
                x.key,
            ) by {
                assert(!has_key(runs[h], x.key));
            }
        }
        if copy_counts(state, groups, g, x) {
            assert forall|h: int| 0 <= h < g implies !has_key(#[trigger] runs[h], x.key) by {
                assert(!key_in(state, groups[h], x.key));
            }
        }
    }
}

/// What tables of level 0 hold, each by itself.
proof fn lemma_alone(state: StateView, ids: Seq<usize>)
    ensures
        group_runs(state, each_alone(ids)) == table_runs(tables_of(state, ids)),
{
    let runs = group_runs(state, each_alone(ids));
    let tables = table_runs(tables_of(state, ids));
    assert forall|i: int| 0 <= i < ids.len() implies #[trigger] runs[i] == tables[i] by {
        let one = table_runs(tables_of(state, seq![ids[i]]));
        assert(each_alone(ids)[i] == seq![ids[i]]);
        assert(one =~= seq![tables[i]]);
        assert(one.skip(1) =~= Seq::<Seq<Item>>::empty());
        assert(concat_runs(one.skip(1)) =~= Seq::<Item>::empty());
        assert(concat_runs(one) =~= tables[i]);
    }
    assert(runs =~= tables);
}

/// What two levels hold together.
pub open spec fn levels_run(
    state: StateView,
    from_l0: bool,
    upper: Seq<usize>,
    lower: Seq<usize>,
) -> Seq<Item> {
    two_merge(
        if from_l0 {
            l0_run(state, upper)
        } else {
            level_run(state, upper)
        },
        level_run(state, lower),
    )
}

/// The upper of two levels is the merge of its groups.
proof fn lemma_upper(state: StateView, from_l0: bool, upper: Seq<usize>, lower: Seq<usize>)
    ensures
        ({
            let groups = level_groups(from_l0, upper, lower);
            &&& levels_run(state, from_l0, upper, lower) == two_merge(
                merge_all(group_runs(state, groups.drop_last())),
                level_run(state, lower),
            )
            &&& group_runs(state, groups) == group_runs(state, groups.drop_last()).push(
                level_run(state, lower),
            )
        }),
{
    let groups = level_groups(from_l0, upper, lower);
    let up = group_runs(state, groups.drop_last());
    if from_l0 {
        lemma_alone(state, upper);
        assert(groups.drop_last() =~= each_alone(upper));
    } else {
        assert(groups.drop_last() =~= seq![upper]);
        assert(up =~= seq![level_run(state, upper)]);
        assert(up.skip(1) =~= Seq::<Seq<Item>>::empty());
        assert(merge_all(up.skip(1)) =~= Seq::<Item>::empty());
        assert(merge_all(up) == two_merge(up[0], merge_all(up.skip(1))));
        assert(merge_all(up) =~= level_run(state, upper));
    }
    assert(group_runs(state, groups) =~= up.push(level_run(state, lower)));
}

/// What two levels hold together is what counts of their tables.
proof fn lemma_levels_hold(
    state: StateView,
    from_l0: bool,
    upper: Seq<usize>,
    lower: Seq<usize>,
    x: Item,
)
    requires
        groups_in_order(state, level_groups(from_l0, upper, lower)),
    ensures
        sorted(levels_run(state, from_l0, upper, lower)),
        levels_run(state, from_l0, upper, lower).contains(x) <==> counts(
            state,
            level_groups(from_l0, upper, lower),
            x,
        ),
{
    let groups = level_groups(from_l0, upper, lower);
    let up = group_runs(state, groups.drop_last());
    lemma_upper(state, from_l0, upper, lower);
    assert forall|i: int| 0 <= i < up.len() implies sorted(#[trigger] up[i]) by {
        assert(tables_in_order(state, groups[i]));
        lemma_level_sorted(state, groups[i]);
    }
    assert(groups[groups.len() - 1] == lower);
    lemma_level_sorted(state, lower);
    lemma_merge_one_more(up, level_run(state, lower), x);
    lemma_counts_somewhere(state, groups, x);
}

/// Some group holds the copy that counts exactly if some run is the first to hold it.
proof fn lemma_counts_somewhere(state: StateView, groups: Seq<Seq<usize>>, x: Item)
    ensures
        (exists|g: int| #[trigger] holds_first(group_runs(state, groups), g, x)) <==> counts(
            state,
            groups,
            x,
        ),
{
    if exists|g: int| #[trigger] holds_first(group_runs(state, groups), g, x) {
        let g = choose|g: int| #[trigger] holds_first(group_runs(state, groups), g, x);
        lemma_counts(state, groups, g, x);
    }
    if counts(state, groups, x) {
        let g = choose|g: int| #[trigger] copy_counts(state, groups, g, x);
        lemma_counts(state, groups, g, x);
    }
}

/// What tiers hold together is what counts of their tables.
proof fn lemma_tiers_hold(state: StateView, tiers: Seq<(usize, Vec<usize>)>, x: Item)
    requires
        groups_in_order(state, tiers.map_values(|tier: (usize, Vec<usize>)| tier.1@)),
    ensures
        sorted(merge_all(tier_runs(state, tiers))),
        merge_all(tier_runs(state, tiers)).contains(x) <==> counts(
            state,
            tiers.map_values(|tier: (usize, Vec<usize>)| tier.1@),
            x,
        ),
{
    let groups = tiers.map_values(|tier: (usize, Vec<usize>)| tier.1@);
    let runs = tier_runs(state, tiers);
    assert(runs =~= group_runs(state, groups));
    assert forall|i: int| 0 <= i < runs.len() implies sorted(#[trigger] runs[i]) by {
        assert(tables_in_order(state, groups[i]));
        lemma_level_sorted(state, groups[i]);
    }
    law_merge_all_sorted(runs);
    law_merge_all_holds(runs, x);
    lemma_counts_somewhere(state, groups, x);
}

/// What a task merges is sorted and holds, under each key that one of the tables which it names
/// holds something under, the copy of the table that takes precedence, and nothing else.
pub proof fn law_task_merges_what_it_names(state: StateView, task: &CompactionTask, x: Item)
    requires
        groups_in_order(state, task_groups(task)),
    ensures
        sorted(task_run(state, task)),
        task_run(state, task).contains(x) <==> counts(state, task_groups(task), x),
{
    match task {
        CompactionTask::Tiered(t) => {
            lemma_tiers_hold(state, t.tiers@, x);
        },
        CompactionTask::ForceFullCompaction { l0_sstables, l1_sstables } => {
            lemma_levels_hold(state, true, l0_sstables@, l1_sstables@, x);
        },
        CompactionTask::Simple(t) => {
            lemma_levels_hold(
                state,
                t.upper_level is None,
                t.upper_level_sst_ids@,
                t.lower_level_sst_ids@,
                x,
            );
        },
        CompactionTask::Leveled(t) => {
            lemma_levels_hold(
                state,
                t.upper_level is None,
                t.upper_level_sst_ids@,
                t.lower_level_sst_ids@,
                x,
            );
        },
    }
}

/// Whether one of the tables of the groups holds `x`.
pub open spec fn named(state: StateView, groups: Seq<Seq<usize>>, x: Item) -> bool {
    exists|g: int| 0 <= g < groups.len() && held_in(state, #[trigger] groups[g], x)
}

/// Some run holds an item exactly if one of the tables does.
proof fn lemma_named(state: StateView, groups: Seq<Seq<usize>>, x: Item)
    ensures
        (exists|g: int|
            0 <= g < groups.len() && (#[trigger] group_runs(state, groups)[g]).contains(x))
            <==> named(state, groups, x),
{
    let runs = group_runs(state, groups);
    assert forall|g: int| 0 <= g < groups.len() implies (#[trigger] runs[g]).contains(x)
        == held_in(state, groups[g], x) by {
        lemma_level_holds(state, groups[g], x);
    }
    if named(state, groups, x) {
        let g = choose|g: int| 0 <= g < groups.len() && held_in(state, #[trigger] groups[g], x);
        assert(runs[g].contains(x));
    }
    if exists|g: int| 0 <= g < groups.len() && (#[trigger] runs[g]).contains(x) {
        let g = choose|g: int| 0 <= g < groups.len() && (#[trigger] runs[g]).contains(x);
        assert(held_in(state, groups[g], x));
    }
}

/// Two levels hold together what their tables hold, and lose no key, whatever the order of the
/// tables.
proof fn lemma_levels_lose_nothing(
    state: StateView,
    from_l0: bool,
    upper: Seq<usize>,
    lower: Seq<usize>,
    x: Item,
)
    ensures
        levels_run(state, from_l0, upper, lower).contains(x) ==> named(
            state,
            level_groups(from_l0, upper, lower),
            x,
        ),
        named(state, level_groups(from_l0, upper, lower), x) ==> has_key(
            levels_run(state, from_l0, upper, lower),
            x.key,
        ),
{
    let groups = level_groups(from_l0, upper, lower);
    let up = group_runs(state, groups.drop_last());
    let runs = group_runs(state, groups);
    let low = level_run(state, lower);
    let m = merge_all(up);
    let all = levels_run(state, from_l0, upper, lower);
    lemma_upper(state, from_l0, upper, lower);
    lemma_named(state, groups, x);
    law_two_merge_loses_nothing(m, low, x);
    law_merge_all_loses_nothing(up, x);
    if all.contains(x) {
        if m.contains(x) {
            let g = choose|g: int| 0 <= g < up.len() && (#[trigger] up[g]).contains(x);
            assert(runs[g].contains(x));
        } else {
            assert(runs[up.len() as int].contains(x));
        }
    }
    if named(state, groups, x) {
        let g = choose|g: int| 0 <= g < groups.len() && (#[trigger] runs[g]).contains(x);
        if g < up.len() {
            assert(up[g].contains(x));
            lemma_first_key_kept(m, low, x.key);
        } else if all.contains(x) {
            let k = choose|k: int| 0 <= k < all.len() && all[k] == x;
            assert(all[k].key == x.key);
        } else {
            lemma_first_key_kept(m, low, x.key);
        }
    }
}

/// A merge keeps the keys of the first run.
proof fn lemma_first_key_kept(a: Seq<Item>, b: Seq<Item>, key: KeyView)
    requires
        has_key(a, key),
    ensures
        has_key(two_merge(a, b), key),
{
    let all = two_merge(a, b);
    let i = choose|i: int| 0 <= i < a.len() && (#[trigger] a[i]).key == key;
    assert(a.contains(a[i]));
    law_two_merge_loses_nothing(a, b, a[i]);
    let k = choose|k: int| 0 <= k < all.len() && all[k] == a[i];
    assert(all[k].key == key);
}

/// What a task merges comes from the tables that it names, and is missing no key that one of them
/// holds, whatever the order of the tables.
pub proof fn law_task_loses_no_key(state: StateView, task: &CompactionTask, x: Item)
    ensures
        task_run(state, task).contains(x) ==> named(state, task_groups(task), x),
        named(state, task_groups(task), x) ==> has_key(task_run(state, task), x.key),
{
    match task {
        CompactionTask::Tiered(t) => {
            let groups = task_groups(task);
            let runs = tier_runs(state, t.tiers@);
            assert(runs =~= group_runs(state, groups));
            lemma_named(state, groups, x);
            law_merge_all_loses_nothing(runs, x);
        },
        CompactionTask::ForceFullCompaction { l0_sstables, l1_sstables } => {
            lemma_levels_lose_nothing(state, true, l0_sstables@, l1_sstables@, x);
        },
        CompactionTask::Simple(t) => {
            lemma_levels_lose_nothing(
                state,
                t.upper_level is None,
                t.upper_level_sst_ids@,
                t.lower_level_sst_ids@,
                x,
            );
        },
        CompactionTask::Leveled(t) => {
            lemma_levels_lose_nothing(
                state,
                t.upper_level is None,
                t.upper_level_sst_ids@,
                t.lower_level_sst_ids@,
                x,
            );
        },
    }
}

/// A task can be carried out exactly if the state has every table that it names.
pub proof fn law_task_needs_its_tables(state: StateView, task: &CompactionTask)
    ensures
        task_known(state, task) <==> forall|g: int, i: int|
            #![trigger task_groups(task)[g][i]]
            0 <= g < task_groups(task).len() && 0 <= i < task_groups(task)[g].len()
                ==> state.sstables.contains_key(task_groups(task)[g][i]),
{
    let groups = task_groups(task);
    match task {
        CompactionTask::Tiered(t) => {
            if forall|g: int, i: int|
                #![trigger groups[g][i]]
                0 <= g < groups.len() && 0 <= i < groups[g].len() ==> state.sstables.contains_key(
                    groups[g][i],
                ) {
                assert forall|g: int| 0 <= g < t.tiers@.len() implies known(
                    state,
                    (#[trigger] t.tiers@[g]).1@,
                ) by {
                    assert(groups[g] == t.tiers@[g].1@);
                    assert forall|i: int| 0 <= i < t.tiers@[g].1@.len() implies
                        state.sstables.contains_key(#[trigger] t.tiers@[g].1@[i]) by {
                        assert(state.sstables.contains_key(groups[g][i]));
                    }
                }
            }
            if task_known(state, task) {
                assert forall|g: int, i: int|
                    #![trigger groups[g][i]]
                    0 <= g < groups.len() && 0 <= i < groups[g].len() implies
                    state.sstables.contains_key(groups[g][i]) by {
                    assert(known(state, t.tiers@[g].1@));
                    assert(groups[g] == t.tiers@[g].1@);
                }
            }
        },
        CompactionTask::ForceFullCompaction { l0_sstables, l1_sstables } => {
            lemma_levels_known(state, true, l0_sstables@, l1_sstables@);
        },
        CompactionTask::Simple(t) => {
            lemma_levels_known(
                state,
                t.upper_level is None,
                t.upper_level_sst_ids@,
                t.lower_level_sst_ids@,
            );
        },
        CompactionTask::Leveled(t) => {
            lemma_levels_known(
                state,
                t.upper_level is None,
                t.upper_level_sst_ids@,
                t.lower_level_sst_ids@,
            );
        },
    }
}

/// The tables of two levels are there exactly if those of each group are.
proof fn lemma_levels_known(
    state: StateView,
    from_l0: bool,
    upper: Seq<usize>,
    lower: Seq<usize>,
)
    ensures
        known(state, upper) && known(state, lower) <==> forall|g: int, i: int|
            #![trigger level_groups(from_l0, upper, lower)[g][i]]
            0 <= g < level_groups(from_l0, upper, lower).len() && 0 <= i < level_groups(
                from_l0,
                upper,
                lower,
            )[g].len() ==> state.sstables.contains_key(level_groups(from_l0, upper, lower)[g][i]),
{
    let groups = level_groups(from_l0, upper, lower);
    let last = groups.len() - 1;
    assert(groups[last] == lower);
    if forall|g: int, i: int|
        #![trigger groups[g][i]]
        0 <= g < groups.len() && 0 <= i < groups[g].len() ==> state.sstables.contains_key(
            groups[g][i],
        ) {
        assert forall|i: int| 0 <= i < lower.len() implies state.sstables.contains_key(
            #[trigger] lower[i],
        ) by {
            assert(state.sstables.contains_key(groups[last][i]));
        }
        assert forall|i: int| 0 <= i < upper.len() implies state.sstables.contains_key(
            #[trigger] upper[i],
        ) by {
            if from_l0 {
                assert(groups[i] == seq![upper[i]]);
                assert(state.sstables.contains_key(groups[i][0]));
            } else {
                assert(groups[0] == upper);
                assert(state.sstables.contains_key(groups[0][i]));
            }
        }
    }
    if known(state, upper) && known(state, lower) {
        assert forall|g: int, i: int|
            #![trigger groups[g][i]]
            0 <= g < groups.len() && 0 <= i < groups[g].len() implies state.sstables.contains_key(
            groups[g][i],
        ) by {
            if g < last {
                if from_l0 {
                    assert(groups[g] == seq![upper[g]]);
                } else {
                    assert(groups[g] == upper);
                }
            }
        }
    }
}

/// Whether `x` stays in a compaction of the groups at `watermark`: it is the copy that counts under
/// its key, and is newer than the watermark, or else no deletion and the newest version of its user
/// key that is not newer.
pub open spec fn stays(
    state: StateView,
    groups: Seq<Seq<usize>>,
    watermark: u64,
    x: Item,
) -> bool {
    &&& counts(state, groups, x)
    &&& x.key.ts > watermark || (x.value.len() > 0 && forall|y: Item| #[trigger]
        counts(state, groups, y) && y.key.user == x.key.user && y.key.ts <= watermark ==> y.key.ts
            <= x.key.ts)
}

/// Whether tables hold something each, can be read to their ends, are sorted, and cover separate
/// ranges of user keys in order.
pub open spec fn fit_for_a_level(tables: Seq<Arc<SsTable>>) -> bool {
    &&& forall|t: int|
        0 <= t < tables.len() ==> {
            &&& (#[trigger] tables[t]).items().len() > 0
            &&& tables[t].failure() is None
            &&& sorted(tables[t].items())
        }
    &&& forall|s: int, t: int, i: int, j: int|
        #![trigger tables[s].items()[i], tables[t].items()[j]]
        0 <= s < t < tables.len() && 0 <= i < tables[s].items().len() && 0 <= j
            < tables[t].items().len() ==> lex_lt(
            tables[s].items()[i].key.user,
            tables[t].items()[j].key.user,
        )
}

/// Tables hold an item exactly if one of them does.
proof fn lemma_in_output(tables: Seq<Arc<SsTable>>, x: Item)
    ensures
        in_output(tables, x) <==> concat_tables(tables).contains(x),
{
    let runs = table_runs(tables);
    law_concat_holds(runs, x);
    assert forall|t: int| 0 <= t < tables.len() implies #[trigger] runs[t]
        == tables[t].items() by {}
    if in_output(tables, x) {
        let t = choose|t: int| 0 <= t < tables.len() && (#[trigger] tables[t]).items().contains(x);
        assert(runs[t].contains(x));
    }
    if concat_tables(tables).contains(x) {
        let t = choose|t: int| 0 <= t < runs.len() && (#[trigger] runs[t]).contains(x);
        assert(tables[t].items().contains(x));
    }
}

/// The tables of a compaction of a sorted run are fit for a level.
proof fn lemma_output_fit<S: TableStore, C>(
    inner: LsmStorageInner<C>,
    store: S,
    run: Seq<Item>,
    tables: Seq<Arc<SsTable>>,
)
    requires
        compacted_into(inner, store, run, tables),
        sorted(run),
    ensures
        fit_for_a_level(tables),
{
    let w = inner.read_horizon();
    let target = inner.options.target_sst_size;
    law_output_is_what_survives(inner, store, run, tables);
    law_output_has_no_empty_table(inner, store, run, tables);
    law_compaction_keeps_order(run, w);
    let runs = table_runs(tables);
    lemma_parts_sorted(runs);
    assert forall|t: int| 0 <= t < tables.len() implies {
        &&& (#[trigger] tables[t]).items().len() > 0
        &&& tables[t].failure() is None
        &&& sorted(tables[t].items())
    } by {
        assert(runs[t] == tables[t].items());
    }
    let sizes = choose|sizes: Seq<usize>|
        sizes.len() == run.len() && runs == #[trigger] split_run(run, w, target, sizes);
    assert forall|s: int, t: int, i: int, j: int|
        #![trigger tables[s].items()[i], tables[t].items()[j]]
        0 <= s < t < tables.len() && 0 <= i < tables[s].items().len() && 0 <= j
            < tables[t].items().len() implies lex_lt(
        tables[s].items()[i].key.user,
        tables[t].items()[j].key.user,
    ) by {
        law_tables_do_not_share_user_keys(run, w, target, sizes, s, t);
        assert(runs[s] == tables[s].items() && runs[t] == tables[t].items());
        assert(users_before(runs[s], runs[t]));
        assert(lex_lt(runs[s][i].key.user, runs[t][j].key.user));
    }
}

/// What the tables of a compaction hold, where its run holds what counts of the groups.
proof fn lemma_output<S: TableStore, C>(
    inner: LsmStorageInner<C>,
    store: S,
    groups: Seq<Seq<usize>>,
    run: Seq<Item>,
    tables: Seq<Arc<SsTable>>,
    w: u64,
    x: Item,
)
    requires
        inner.mvcc is Some,
        read_back_to(inner.mvcc->Some_0@, w),
        compacted_into(inner, store, run, tables),
        sorted(run),
        forall|y: Item| #[trigger] run.contains(y) <==> counts(inner.state@, groups, y),
    ensures
        w < u64::MAX ==> (in_output(tables, x) <==> stays(inner.state@, groups, w, x)),
        w == u64::MAX ==> tables.len() == 0,
        fit_for_a_level(tables),
{
    law_watermark_is_read_back_to(inner.mvcc->Some_0@, w);
    law_output_is_what_survives(inner, store, run, tables);
    lemma_output_fit(inner, store, run, tables);
    lemma_in_output(tables, x);
    if w < u64::MAX {
        law_what_survives(run, w, x);
        assert forall|y: Item| #[trigger] counts(inner.state@, groups, y) <==> run.contains(y) by {}
        if in_output(tables, x) {
            assert(run.contains(x));
        }
        if stays(inner.state@, groups, w, x) {
            assert(run.contains(x));
        }
    } else {
        law_last_watermark_drops_everything(run);
        if tables.len() > 0 {
            let first = tables[0].items()[0];
            assert(tables[0].items().contains(first));
            lemma_in_output(tables, first);
            assert(in_output(tables, first));
        }
    }
}

/// Exactly what a compaction of a task makes, told from the tables that the task names and the
/// readers in progress. Where the tables of each level or tier are sorted and follow one another,
/// the new tables hold what stays of them, and nothing else, and are fit for a level again.
pub proof fn law_task_output<S: TableStore, C>(
    inner: LsmStorageInner<C>,
    store: S,
    task: &CompactionTask,
    actions: Seq<TableAction<S::Error>>,
    tables: Vec<Arc<SsTable>>,
    w: u64,
    x: Item,
)
    requires
        inner.mvcc is Some,
        read_back_to(inner.mvcc->Some_0@, w),
        input_result(inner, store, task_input(inner.state@, task), actions, Ok(tables)),
        groups_in_order(inner.state@, task_groups(task)),
    ensures
        w < u64::MAX ==> (in_output(tables@, x) <==> stays(
            inner.state@,
            task_groups(task),
            w,
            x,
        )),
        w == u64::MAX ==> tables@.len() == 0,
        fit_for_a_level(tables@),
{
    let run = task_run(inner.state@, task);
    law_success_reads_everything(inner, store, task, actions, tables);
    law_task_merges_what_it_names(inner.state@, task, x);
    assert forall|y: Item| #[trigger] run.contains(y) <==> counts(
        inner.state@,
        task_groups(task),
        y,
    ) by {
        law_task_merges_what_it_names(inner.state@, task, y);
    }
    lemma_output(inner, store, task_groups(task), run, tables@, w, x);
}

/// A compaction that succeeds has made its tables of what its task merges.
proof fn lemma_made_of_task_run<S: TableStore, C>(
    inner: LsmStorageInner<C>,
    task: &CompactionTask,
    before: LoggedTables<S>,
    after: LoggedTables<S>,
    tables: Vec<Arc<SsTable>>,
) -> (actions: Seq<TableAction<S::Error>>)
    requires
        compacted(inner, task_input(inner.state@, task), before, after, Ok(tables)),
    ensures
        compacted_into(inner, before.store(), task_run(inner.state@, task), tables@),
        input_result(
            inner,
            before.store(),
            task_input(inner.state@, task),
            actions,
            Ok(tables),
        ),
{
    let r = Ok::<Vec<Arc<SsTable>>, CompactionError<S::Error>>(tables);
    let input = task_input(inner.state@, task);
    let actions = choose|actions: Seq<TableAction<S::Error>>|
        {
            &&& #[trigger] did(before, after, actions)
            &&& input_result(inner, before.store(), input, actions, r)
        };
    law_success_reads_everything(inner, before.store(), task, actions, tables);
    actions
}

/// Exactly what `compact` returns: what stays of the tables that the task names.
pub proof fn law_compaction_output<S: TableStore, C>(
    inner: LsmStorageInner<C>,
    task: &CompactionTask,
    before: LoggedTables<S>,
    after: LoggedTables<S>,
    tables: Vec<Arc<SsTable>>,
    w: u64,
    x: Item,
)
    requires
        inner.mvcc is Some,
        read_back_to(inner.mvcc->Some_0@, w),
        compacted(inner, task_input(inner.state@, task), before, after, Ok(tables)),
        groups_in_order(inner.state@, task_groups(task)),
    ensures
        w < u64::MAX ==> (in_output(tables@, x) <==> stays(
            inner.state@,
            task_groups(task),
            w,
            x,
        )),
        w == u64::MAX ==> tables@.len() == 0,
        fit_for_a_level(tables@),
{
    let actions = lemma_made_of_task_run(inner, task, before, after, tables);
    law_task_output(inner, before.store(), task, actions, tables, w, x);
}

/// A compaction loses no version that is newer than the watermark, of any table that its task
/// names, and invents none, whatever the order of the tables.
pub proof fn law_compaction_loses_nothing_recent<S: TableStore, C>(
    inner: LsmStorageInner<C>,
    task: &CompactionTask,
    before: LoggedTables<S>,
    after: LoggedTables<S>,
    tables: Vec<Arc<SsTable>>,
    w: u64,
    x: Item,
)
    requires
        inner.mvcc is Some,
        read_back_to(inner.mvcc->Some_0@, w),
        compacted(inner, task_input(inner.state@, task), before, after, Ok(tables)),
    ensures
        named(inner.state@, task_groups(task), x) && x.key.ts > w ==> exists|y: Item| #[trigger]
            in_output(tables@, y) && y.key == x.key,
        in_output(tables@, x) ==> named(inner.state@, task_groups(task), x),
{
    let run = task_run(inner.state@, task);
    law_watermark_is_read_back_to(inner.mvcc->Some_0@, w);
    let _actions = lemma_made_of_task_run(inner, task, before, after, tables);
    law_output_is_what_survives(inner, before.store(), run, tables@);
    law_task_loses_no_key(inner.state@, task, x);
    lemma_in_output(tables@, x);
    if named(inner.state@, task_groups(task), x) && x.key.ts > w {
        let i = choose|i: int| 0 <= i < run.len() && (#[trigger] run[i]).key == x.key;
        law_compaction_keeps_recent(run, w, i);
        lemma_in_output(tables@, run[i]);
        assert(in_output(tables@, run[i]));
    }
    if in_output(tables@, x) {
        law_compaction_invents_nothing(run, w, x);
    }
}

/// A full compaction has as its input all of level 0 and all of level 1, as a task has that names
/// them; and where all of it can be read, that is what the two levels hold together.
pub proof fn law_full_compaction_reads_both_levels(
    state: StateView,
    l0_sstables: Vec<usize>,
    l1_sstables: Vec<usize>,
)
    requires
        l0_sstables@ == state.l0_sstables,
        l1_sstables@ == state.levels[0].1,
    ensures
        full_input(state) == task_input(
            state,
            &CompactionTask::ForceFullCompaction { l0_sstables, l1_sstables },
        ),
        readable(tables_of(state, state.l0_sstables)) && readable(
            tables_of(state, state.levels[0].1),
        ) ==> full_input(state) == Ok::<Run<ReadError>, ReadError>(whole(full_run(state))),
{
    lemma_pair_input(state, true, state.l0_sstables, state.levels[0].1);
}

/// A full compaction that succeeds has made its tables of what level 0 and level 1 hold together.
pub proof fn law_full_compaction_is_of_both_levels<S: TableStore, C>(
    inner: LsmStorageInner<C>,
    before: LoggedTables<S>,
    after: LoggedTables<S>,
    tables: Vec<Arc<SsTable>>,
)
    requires
        compacted(inner, full_input(inner.state@), before, after, Ok(tables)),
    ensures
        compacted_into(inner, before.store(), full_run(inner.state@), tables@),
        full_run(inner.state@) == levels_run(
            inner.state@,
            true,
            inner.state@.l0_sstables,
            inner.state@.levels[0].1,
        ),
{
    let state = inner.state@;
    lemma_pair_input(state, true, state.l0_sstables, state.levels[0].1);
    assert(full_input(state) == pair_input(state, true, state.l0_sstables, state.levels[0].1));
}

/// Exactly what a full compaction makes: what stays of all of level 0 and all of level 1, where a
/// newer table of level 0 takes precedence over an older one, and level 0 over level 1.
pub proof fn law_full_compaction_output<S: TableStore, C>(
    inner: LsmStorageInner<C>,
    before: LoggedTables<S>,
    after: LoggedTables<S>,
    tables: Vec<Arc<SsTable>>,
    w: u64,
    x: Item,
)
    requires
        inner.mvcc is Some,
        read_back_to(inner.mvcc->Some_0@, w),
        compacted(inner, full_input(inner.state@), before, after, Ok(tables)),
        groups_in_order(
            inner.state@,
            level_groups(true, inner.state@.l0_sstables, inner.state@.levels[0].1),
        ),
    ensures
        w < u64::MAX ==> (in_output(tables@, x) <==> stays(
            inner.state@,
            level_groups(true, inner.state@.l0_sstables, inner.state@.levels[0].1),
            w,
            x,
        )),
        w == u64::MAX ==> tables@.len() == 0,
        fit_for_a_level(tables@),
{
    let state = inner.state@;
    let groups = level_groups(true, state.l0_sstables, state.levels[0].1);
    law_full_compaction_is_of_both_levels(inner, before, after, tables);
    lemma_levels_hold(state, true, state.l0_sstables, state.levels[0].1, x);
    assert forall|y: Item| #[trigger] full_run(state).contains(y) <==> counts(
        state,
        groups,
        y,
    ) by {
        lemma_levels_hold(state, true, state.l0_sstables, state.levels[0].1, y);
    }
    lemma_output(inner, before.store(), groups, full_run(state), tables@, w, x);
}

/// A full compaction loses no version that is newer than the watermark, of any table of level 0 or
/// level 1, and invents none, whatever the order of the tables.
pub proof fn law_full_compaction_loses_nothing_recent<S: TableStore, C>(
    inner: LsmStorageInner<C>,
    before: LoggedTables<S>,
    after: LoggedTables<S>,
    tables: Vec<Arc<SsTable>>,
    w: u64,
    x: Item,
)
    requires
        inner.mvcc is Some,
        read_back_to(inner.mvcc->Some_0@, w),
        compacted(inner, full_input(inner.state@), before, after, Ok(tables)),
    ensures
        (held_in(inner.state@, inner.state@.l0_sstables, x) || held_in(
            inner.state@,
            inner.state@.levels[0].1,
            x,
        )) && x.key.ts > w ==> exists|y: Item| #[trigger]
            in_output(tables@, y) && y.key == x.key,
        in_output(tables@, x) ==> held_in(inner.state@, inner.state@.l0_sstables, x) || held_in(
            inner.state@,
            inner.state@.levels[0].1,
            x,
        ),
{
    let state = inner.state@;
    let l0 = state.l0_sstables;
    let l1 = state.levels[0].1;
    let groups = level_groups(true, l0, l1);
    let run = full_run(state);
    law_watermark_is_read_back_to(inner.mvcc->Some_0@, w);
    law_full_compaction_is_of_both_levels(inner, before, after, tables);
    law_output_is_what_survives(inner, before.store(), run, tables@);
    lemma_levels_lose_nothing(state, true, l0, l1, x);
    lemma_in_output(tables@, x);
    assert(groups[l0.len() as int] == l1);
    if held_in(state, l0, x) {
        let i = choose|i: int|
            0 <= i < l0.len() && state.sstables[#[trigger] l0[i]].items().contains(x);
        assert(groups[i] == seq![l0[i]]);
        assert(state.sstables[groups[i][0]].items().contains(x));
        assert(held_in(state, groups[i], x));
    }
    if held_in(state, l1, x) {
        assert(held_in(state, groups[l0.len() as int], x));
    }
    if named(state, groups, x) {
        let g = choose|g: int| 0 <= g < groups.len() && held_in(state, #[trigger] groups[g], x);
        if g < l0.len() {
            assert(groups[g] == seq![l0[g]]);
            let i = choose|i: int|
                0 <= i < groups[g].len()
                    && state.sstables[#[trigger] groups[g][i]].items().contains(x);
            assert(state.sstables[l0[g]].items().contains(x));
        }
    }
    if named(state, groups, x) && x.key.ts > w {
        let i = choose|i: int| 0 <= i < run.len() && (#[trigger] run[i]).key == x.key;
        law_compaction_keeps_recent(run, w, i);
        lemma_in_output(tables@, run[i]);
        assert(in_output(tables@, run[i]));
    }
    if in_output(tables@, x) {
        law_compaction_invents_nothing(run, w, x);
    }
}

} // verus!
