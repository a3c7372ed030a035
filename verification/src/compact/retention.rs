//! Which versions a compaction keeps, and how it cuts them into tables.
#[allow(unused_imports)]
use crate::iterators::Item;
use crate::key::{Key, TS_MAX};
#[allow(unused_imports)]
use crate::key::{lemma_lex_irreflexive, lemma_lex_transitive, lex_lt, KeyView};
#[allow(unused_imports)]
use crate::runs::{
    concat_runs, law_version_at_is_newest, lemma_concat_push, lemma_sorted_one_per_key,
    lemma_sorted_tail, lemma_version_at_from_run, read_at, sorted, version_at,
};
use vstd::prelude::*;

verus! {

/// Whether `key` belongs to another user key than the version before it.
pub open spec fn is_new_key(prev: Option<KeyView>, key: KeyView) -> bool {
    match prev {
        Some(p) => p.user != key.user,
        None => true,
    }
}

/// The timestamp of the next newer version of the same user key, or the largest timestamp for a
/// user key's newest version.
pub open spec fn newer_ts(prev: Option<KeyView>, key: KeyView) -> u64 {
    match prev {
        Some(p) => if p.user == key.user {
            p.ts
        } else {
            TS_MAX
        },
        None => TS_MAX,
    }
}

/// Whether a version survives a compaction at `watermark`, the oldest point in time that is
/// still read: it is newer than that, or it is what is read then and no deletion.
pub open spec fn is_visible(prev: Option<KeyView>, item: Item, watermark: u64) -> bool {
    item.key.ts > watermark || (newer_ts(prev, item.key) > watermark && item.value.len() > 0)
}

/// The versions of `run` that survive, where `prev` is the key before the run.
pub open spec fn retain_after(prev: Option<KeyView>, run: Seq<Item>, watermark: u64) -> Seq<Item>
    decreases run.len(),
{
    if run.len() == 0 {
        Seq::empty()
    } else {
        let tail = retain_after(Some(run[0].key), run.skip(1), watermark);
        if is_visible(prev, run[0], watermark) {
            seq![run[0]] + tail
        } else {
            tail
        }
    }
}

/// The versions of a run that survive a compaction at `watermark`.
pub open spec fn retained(run: Seq<Item>, watermark: u64) -> Seq<Item> {
    retain_after(None, run, watermark)
}

/// The key before the item at `i` of a run.
pub open spec fn key_before(run: Seq<Item>, i: int) -> Option<KeyView> {
    if i > 0 {
        Some(run[i - 1].key)
    } else {
        None
    }
}

/// Whether a table is full when `key` comes next: tables end only between user keys, once they
/// have reached the target size, and never before they hold something.
pub open spec fn is_cut(
    prev: Option<KeyView>,
    key: KeyView,
    filled: bool,
    size: usize,
    target_size: usize,
) -> bool {
    is_new_key(prev, key) && filled && size >= target_size
}

/// A run on its way into tables: what the finished tables hold, and what the table under
/// construction holds.
#[verifier::ext_equal]
pub struct Cut {
    pub done: Seq<Seq<Item>>,
    pub open: Seq<Item>,
}

/// One step on the way into tables: `item` comes next behind the key `prev`, while the table under
/// construction is of size `size`.
pub open spec fn cut_step(
    cut: Cut,
    prev: Option<KeyView>,
    item: Item,
    watermark: u64,
    target_size: usize,
    size: usize,
) -> Cut {
    let full = is_cut(prev, item.key, cut.open.len() > 0, size, target_size);
    let done = if full {
        cut.done.push(cut.open)
    } else {
        cut.done
    };
    let kept = if full {
        Seq::<Item>::empty()
    } else {
        cut.open
    };
    Cut {
        done,
        open: if is_visible(prev, item, watermark) {
            kept.push(item)
        } else {
            kept
        },
    }
}

/// How far a compaction at `watermark` is once `run` is passed, where `sizes[i]` is how large the
/// table under construction is when `run[i]` comes next.
pub open spec fn cut_run(
    run: Seq<Item>,
    watermark: u64,
    target_size: usize,
    sizes: Seq<usize>,
) -> Cut
    decreases run.len(),
{
    if run.len() == 0 {
        Cut { done: Seq::empty(), open: Seq::empty() }
    } else {
        cut_step(
            cut_run(run.drop_last(), watermark, target_size, sizes.drop_last()),
            key_before(run, run.len() - 1),
            run.last(),
            watermark,
            target_size,
            sizes.last(),
        )
    }
}

/// The tables that a compaction makes of a run: the finished ones, and the one under construction
/// if it holds anything in the end.
pub open spec fn split_run(
    run: Seq<Item>,
    watermark: u64,
    target_size: usize,
    sizes: Seq<usize>,
) -> Seq<Seq<Item>> {
    let cut = cut_run(run, watermark, target_size, sizes);
    if cut.open.len() > 0 {
        cut.done.push(cut.open)
    } else {
        cut.done
    }
}

/// What a compaction does with the next version: first whether the table under construction is
/// finished, where `filled` says whether it holds anything, then whether the version is kept.
pub fn merge_decision(
    prev: Option<&Key>,
    key: &Key,
    value: &[u8],
    watermark: u64,
    filled: bool,
    size: usize,
    target_size: usize,
) -> (r: (bool, bool))
    ensures
        r.0 == is_cut(
            match prev {
                Some(p) => Some(p@),
                None => None,
            },
            key@,
            filled,
            size,
            target_size,
        ),
        r.1 == is_visible(
            match prev {
                Some(p) => Some(p@),
                None => None,
            },
            Item { key: key@, value: value@ },
            watermark,
        ),
        r.0 == ((prev matches Some(p) ==> p@.user != key@.user) && filled && size >= target_size),
        r.1 == (key@.ts > watermark || (value@.len() > 0 && watermark < u64::MAX && (
        prev matches Some(p) ==> p@.user == key@.user ==> p@.ts > watermark))),
{
    let (new_key, prev_ts) = match prev {
        Some(p) => if same_user_key(p, key) {
            (false, p.ts())
        } else {
            (true, TS_MAX)
        },
        None => (true, TS_MAX),
    };
    let visible = key.ts() > watermark || (prev_ts > watermark && value.len() > 0);
    (new_key && filled && size >= target_size, visible)
}

/// Whether two versions belong to one user key.
pub fn same_user_key(a: &Key, b: &Key) -> (r: bool)
    ensures
        r == (a@.user == b@.user),
{
    match crate::key::compare_bytes(a.key_ref(), b.key_ref()) {
        crate::key::KeyOrder::Equal => true,
        _ => false,
    }
}

/// Whether every key of a run comes after `prev`.
pub open spec fn follows(prev: Option<KeyView>, run: Seq<Item>) -> bool {
    prev matches Some(p) ==> forall|i: int|
        0 <= i < run.len() ==> p.lt((#[trigger] run[i]).key)
}

/// Every surviving version is a version of the run.
proof fn lemma_retain_from_run(prev: Option<KeyView>, run: Seq<Item>, watermark: u64)
    ensures
        forall|i: int|
            0 <= i < retain_after(prev, run, watermark).len() ==> run.contains(
                #[trigger] retain_after(prev, run, watermark)[i],
            ),
    decreases run.len(),
{
    if run.len() > 0 {
        let tail = run.skip(1);
        lemma_retain_from_run(Some(run[0].key), tail, watermark);
        let kept_tail = retain_after(Some(run[0].key), tail, watermark);
        let kept = retain_after(prev, run, watermark);
        assert forall|i: int| 0 <= i < kept.len() implies run.contains(#[trigger] kept[i]) by {
            assert(run.contains(run[0]));
            if is_visible(prev, run[0], watermark) {
                if i > 0 {
                    assert(kept[i] == kept_tail[i - 1]);
                    let k = choose|k: int| 0 <= k < tail.len() && tail[k] == kept_tail[i - 1];
                    assert(run[k + 1] == kept[i]);
                }
            } else {
                let k = choose|k: int| 0 <= k < tail.len() && tail[k] == kept_tail[i];
                assert(run[k + 1] == kept[i]);
            }
        }
    }
}

/// What survives of a sorted run is sorted.
proof fn lemma_retain_sorted(prev: Option<KeyView>, run: Seq<Item>, watermark: u64)
    requires
        sorted(run),
    ensures
        sorted(retain_after(prev, run, watermark)),
    decreases run.len(),
{
    if run.len() > 0 {
        let tail = run.skip(1);
        lemma_sorted_tail(run);
        lemma_retain_sorted(Some(run[0].key), tail, watermark);
        lemma_retain_from_run(Some(run[0].key), tail, watermark);
        let kept_tail = retain_after(Some(run[0].key), tail, watermark);
        let kept = retain_after(prev, run, watermark);
        if is_visible(prev, run[0], watermark) {
            assert forall|i: int, j: int|
                #![trigger kept[i], kept[j]]
                0 <= i < j < kept.len() implies kept[i].key.lt(kept[j].key) by {
                assert(kept[j] == kept_tail[j - 1]);
                if i > 0 {
                    assert(kept[i] == kept_tail[i - 1]);
                } else {
                    let k = choose|k: int| 0 <= k < tail.len() && tail[k] == kept_tail[j - 1];
                    assert(run[0].key.lt(tail[k].key));
                }
            }
        }
    }
}

/// Once a version at the watermark or before has been passed, no older version of its user key
/// survives.
proof fn lemma_older_dropped(
    prev: KeyView,
    run: Seq<Item>,
    watermark: u64,
)
    requires
        sorted(run),
        follows(Some(prev), run),
        prev.ts <= watermark,
    ensures
        forall|i: int|
            0 <= i < retain_after(Some(prev), run, watermark).len() ==> (
            #[trigger] retain_after(Some(prev), run, watermark)[i]).key.user != prev.user,
    decreases run.len(),
{
    if run.len() > 0 {
        let head = run[0];
        let tail = run.skip(1);
        let kept = retain_after(Some(prev), run, watermark);
        assert(prev.lt(head.key));
        lemma_sorted_tail(run);
        lemma_lex_irreflexive(prev.user);
        if head.key.user == prev.user {
            assert(follows(Some(head.key), tail));
            lemma_older_dropped(head.key, tail, watermark);
            assert(head.key.ts < prev.ts);
            assert(!is_visible(Some(prev), head, watermark));
            assert(kept == retain_after(Some(head.key), tail, watermark));
        } else {
            lemma_retain_from_run(Some(prev), run, watermark);
            assert forall|i: int| 0 <= i < kept.len() implies (#[trigger] kept[i]).key.user
                != prev.user by {
                let k = choose|k: int| 0 <= k < run.len() && run[k] == kept[i];
                assert(lex_lt(prev.user, head.key.user));
                if k > 0 {
                    assert(head.key.lt(run[k].key));
                    if run[k].key.user == prev.user {
                        assert(lex_lt(head.key.user, prev.user));
                        lemma_lex_transitive(prev.user, head.key.user, prev.user);
                    }
                }
            }
        }
    }
}

/// What is left of a version after a compaction at `watermark`: a deletion that no reader needs
/// as a reminder is gone.
pub open spec fn surviving(version: Option<Item>, watermark: u64) -> Option<Item> {
    match version {
        Some(item) => if item.key.ts <= watermark && item.value.len() == 0 {
            None
        } else {
            Some(item)
        },
        None => None,
    }
}

/// The version found in what survives is what survives of the version found in the run, unless
/// `prev` is itself what is found.
proof fn lemma_retain_versions(
    prev: Option<KeyView>,
    run: Seq<Item>,
    watermark: u64,
    user: Seq<u8>,
    ts: u64,
)
    requires
        sorted(run),
        follows(prev, run),
        watermark < TS_MAX,
        watermark <= ts,
        prev matches Some(p) ==> p.user != user || p.ts > watermark,
    ensures
        version_at(retain_after(prev, run, watermark), user, ts) == surviving(
            version_at(run, user, ts),
            watermark,
        ),
    decreases run.len(),
{
    if run.len() > 0 {
        let head = run[0];
        let tail = run.skip(1);
        let kept_tail = retain_after(Some(head.key), tail, watermark);
        let kept = retain_after(prev, run, watermark);
        lemma_sorted_tail(run);
        assert(follows(Some(head.key), tail));
        if is_visible(prev, head, watermark) {
            assert(kept.skip(1) =~= kept_tail);
        }
        if head.key.user == user && head.key.ts <= ts {
            if !is_visible(prev, head, watermark) {
                assert(head.value.len() == 0);
                lemma_older_dropped(head.key, tail, watermark);
                lemma_version_at_from_run(kept_tail, user, ts);
                if let Some(item) = version_at(kept_tail, user, ts) {
                    let i = choose|i: int| 0 <= i < kept_tail.len() && kept_tail[i] == item;
                    assert(kept_tail[i].key.user != user);
                }
            }
        } else {
            lemma_retain_versions(Some(head.key), tail, watermark, user, ts);
        }
    }
}

/// What a compaction does to each read that can still happen, at the watermark or after: the
/// version found is the same as before, but for a deletion at the watermark or before it, in
/// whose place nothing is found.
pub proof fn law_compaction_keeps_versions(
    run: Seq<Item>,
    watermark: u64,
    user: Seq<u8>,
    ts: u64,
)
    requires
        sorted(run),
        watermark < TS_MAX,
        watermark <= ts,
    ensures
        version_at(retained(run, watermark), user, ts) == surviving(
            version_at(run, user, ts),
            watermark,
        ),
{
    lemma_retain_versions(None, run, watermark, user, ts);
}

/// A compaction keeps every read that can still happen: at the watermark or after, each user key
/// reads the same in what survives of a sorted run as in the run.
pub proof fn law_compaction_preserves_reads(
    run: Seq<Item>,
    watermark: u64,
    user: Seq<u8>,
    ts: u64,
)
    requires
        sorted(run),
        watermark < TS_MAX,
        watermark <= ts,
    ensures
        read_at(retained(run, watermark), user, ts) == read_at(run, user, ts),
{
    law_compaction_keeps_versions(run, watermark, user, ts);
}

/// A compaction invents nothing and keeps the order: what survives of a sorted run is a sorted
/// run of some of its versions.
pub proof fn law_compaction_keeps_order(run: Seq<Item>, watermark: u64)
    requires
        sorted(run),
    ensures
        sorted(retained(run, watermark)),
        forall|i: int|
            0 <= i < retained(run, watermark).len() ==> run.contains(
                #[trigger] retained(run, watermark)[i],
            ),
{
    lemma_retain_sorted(None, run, watermark);
    lemma_retain_from_run(None, run, watermark);
}

/// Every version newer than `watermark` survives.
proof fn lemma_recent_kept(prev: Option<KeyView>, run: Seq<Item>, watermark: u64, i: int)
    requires
        0 <= i < run.len(),
        run[i].key.ts > watermark,
    ensures
        retain_after(prev, run, watermark).contains(run[i]),
    decreases run.len(),
{
    let tail = run.skip(1);
    let kept_tail = retain_after(Some(run[0].key), tail, watermark);
    let kept = retain_after(prev, run, watermark);
    if i == 0 {
        assert(kept[0] == run[0]);
    } else {
        lemma_recent_kept(Some(run[0].key), tail, watermark, i - 1);
        assert(tail[i - 1] == run[i]);
        let k = choose|k: int| 0 <= k < kept_tail.len() && kept_tail[k] == run[i];
        if is_visible(prev, run[0], watermark) {
            assert(kept[k + 1] == kept_tail[k]);
        } else {
            assert(kept[k] == kept_tail[k]);
        }
    }
}

/// Every version newer than the watermark survives a compaction, deletions too.
pub proof fn law_compaction_keeps_recent(run: Seq<Item>, watermark: u64, i: int)
    requires
        0 <= i < run.len(),
        run[i].key.ts > watermark,
    ensures
        retained(run, watermark).contains(run[i]),
{
    lemma_recent_kept(None, run, watermark, i);
}

/// Of the versions at `watermark` or before, what survives of a sorted run holds at most one for
/// each user key, and no deletion.
proof fn lemma_retain_old(prev: Option<KeyView>, run: Seq<Item>, watermark: u64)
    requires
        sorted(run),
        follows(prev, run),
    ensures
        forall|i: int|
            0 <= i < retain_after(prev, run, watermark).len() ==> (#[trigger] retain_after(
                prev,
                run,
                watermark,
            )[i]).key.ts > watermark || retain_after(prev, run, watermark)[i].value.len() > 0,
        forall|i: int, j: int|
            #![trigger retain_after(prev, run, watermark)[i], retain_after(prev, run, watermark)[j]]
            0 <= i < j < retain_after(prev, run, watermark).len() && retain_after(
                prev,
                run,
                watermark,
            )[i].key.user == retain_after(prev, run, watermark)[j].key.user ==> retain_after(
                prev,
                run,
                watermark,
            )[i].key.ts > watermark,
    decreases run.len(),
{
    if run.len() > 0 {
        let head = run[0];
        let tail = run.skip(1);
        let kept_tail = retain_after(Some(head.key), tail, watermark);
        let kept = retain_after(prev, run, watermark);
        lemma_sorted_tail(run);
        assert(follows(Some(head.key), tail));
        lemma_retain_old(Some(head.key), tail, watermark);
        if is_visible(prev, head, watermark) {
            assert forall|i: int| 0 <= i < kept.len() implies (#[trigger] kept[i]).key.ts
                > watermark || kept[i].value.len() > 0 by {
                if i > 0 {
                    assert(kept[i] == kept_tail[i - 1]);
                }
            }
            assert forall|i: int, j: int|
                #![trigger kept[i], kept[j]]
                0 <= i < j < kept.len() && kept[i].key.user
                    == kept[j].key.user implies kept[i].key.ts > watermark by {
                assert(kept[j] == kept_tail[j - 1]);
                if i > 0 {
                    assert(kept[i] == kept_tail[i - 1]);
                } else if head.key.ts <= watermark {
                    lemma_older_dropped(head.key, tail, watermark);
                }
            }
        }
    }
}

/// A compaction leaves no garbage: of the versions at the watermark or before, at most one
/// survives for each user key, and none that marks a deletion.
pub proof fn law_compaction_leaves_no_garbage(run: Seq<Item>, watermark: u64)
    requires
        sorted(run),
    ensures
        forall|i: int|
            0 <= i < retained(run, watermark).len() ==> (#[trigger] retained(
                run,
                watermark,
            )[i]).key.ts > watermark || retained(run, watermark)[i].value.len() > 0,
        forall|i: int, j: int|
            #![trigger retained(run, watermark)[i], retained(run, watermark)[j]]
            0 <= i < j < retained(run, watermark).len() && retained(run, watermark)[i].key.user
                == retained(run, watermark)[j].key.user ==> retained(run, watermark)[i].key.ts
                > watermark,
{
    lemma_retain_old(None, run, watermark);
}

/// What survives of a run, without its last version and with it.
proof fn lemma_retain_last(prev: Option<KeyView>, run: Seq<Item>, watermark: u64)
    requires
        run.len() > 0,
    ensures
        retain_after(prev, run, watermark) == retain_after(prev, run.drop_last(), watermark) + (
        if is_visible(
            if run.len() > 1 {
                key_before(run, run.len() - 1)
            } else {
                prev
            },
            run.last(),
            watermark,
        ) {
            seq![run.last()]
        } else {
            Seq::empty()
        }),
    decreases run.len(),
{
    let tail = run.skip(1);
    let front = run.drop_last();
    if run.len() > 1 {
        lemma_retain_last(Some(run[0].key), tail, watermark);
        assert(tail.drop_last() =~= front.skip(1));
        assert(tail.last() == run.last());
        if tail.len() > 1 {
            assert(tail[tail.len() - 2] == run[run.len() - 2]);
        }
    } else {
        assert(retain_after(Some(run[0].key), tail, watermark) =~= Seq::<Item>::empty());
    }
    assert(retain_after(prev, run, watermark) =~= retain_after(prev, front, watermark) + (
    if is_visible(
        if run.len() > 1 {
            key_before(run, run.len() - 1)
        } else {
            prev
        },
        run.last(),
        watermark,
    ) {
        seq![run.last()]
    } else {
        Seq::empty()
    }));
}

/// On the way into tables nothing is lost: the finished tables and the one under construction
/// hold what survives of what was passed. No finished table is empty.
pub(crate) proof fn lemma_cut_holds(
    run: Seq<Item>,
    watermark: u64,
    target_size: usize,
    sizes: Seq<usize>,
)
    ensures
        ({
            let cut = cut_run(run, watermark, target_size, sizes);
            &&& concat_runs(cut.done) + cut.open == retained(run, watermark)
            &&& forall|t: int| 0 <= t < cut.done.len() ==> (#[trigger] cut.done[t]).len() > 0
        }),
    decreases run.len(),
{
    let cut = cut_run(run, watermark, target_size, sizes);
    if run.len() == 0 {
        assert(concat_runs(cut.done) + cut.open =~= retained(run, watermark));
    } else {
        let before = cut_run(run.drop_last(), watermark, target_size, sizes.drop_last());
        lemma_cut_holds(run.drop_last(), watermark, target_size, sizes.drop_last());
        lemma_retain_last(None, run, watermark);
        lemma_concat_push(before.done, before.open);
        assert(concat_runs(cut.done) + cut.open =~= retained(run, watermark));
    }
}

/// What survives of the beginning of a run is no more than what survives of the run.
proof fn lemma_retain_prefix(run: Seq<Item>, k: int, watermark: u64)
    requires
        0 <= k <= run.len(),
    ensures
        retained(run.take(k), watermark).len() <= retained(run, watermark).len(),
    decreases run.len(),
{
    if k == run.len() {
        assert(run.take(k) =~= run);
    } else {
        lemma_retain_prefix(run.drop_last(), k, watermark);
        assert(run.drop_last().take(k) =~= run.take(k));
        lemma_retain_last(None, run, watermark);
    }
}

/// Where nothing survives of a run, no table is finished and the table under construction is empty
/// all the way.
pub(crate) proof fn lemma_nothing_open(
    run: Seq<Item>,
    k: int,
    watermark: u64,
    target_size: usize,
    sizes: Seq<usize>,
)
    requires
        0 <= k <= run.len(),
        retained(run, watermark).len() == 0,
    ensures
        cut_run(run.take(k), watermark, target_size, sizes).open.len() == 0,
        cut_run(run.take(k), watermark, target_size, sizes).done.len() == 0,
{
    lemma_retain_prefix(run, k, watermark);
    lemma_cut_holds(run.take(k), watermark, target_size, sizes);
    let done = cut_run(run.take(k), watermark, target_size, sizes).done;
    if done.len() > 0 {
        assert(concat_runs(done) == done[0] + concat_runs(done.skip(1)));
        assert(done[0].len() > 0);
    }
}

/// However a compaction cuts its tables, they hold, one behind the other, exactly the versions
/// that survive.
pub proof fn law_tables_hold_what_survives(
    run: Seq<Item>,
    watermark: u64,
    target_size: usize,
    sizes: Seq<usize>,
)
    ensures
        concat_runs(split_run(run, watermark, target_size, sizes)) == retained(run, watermark),
{
    let cut = cut_run(run, watermark, target_size, sizes);
    lemma_cut_holds(run, watermark, target_size, sizes);
    lemma_concat_push(cut.done, cut.open);
    assert(concat_runs(split_run(run, watermark, target_size, sizes)) =~= retained(
        run,
        watermark,
    ));
}

/// A compaction makes no empty table; where nothing survives it makes none at all.
pub proof fn law_no_table_is_empty(
    run: Seq<Item>,
    watermark: u64,
    target_size: usize,
    sizes: Seq<usize>,
)
    ensures
        forall|t: int|
            0 <= t < split_run(run, watermark, target_size, sizes).len() ==> (#[trigger] split_run(
                run,
                watermark,
                target_size,
                sizes,
            )[t]).len() > 0,
        retained(run, watermark).len() == 0 ==> split_run(
            run,
            watermark,
            target_size,
            sizes,
        ).len() == 0,
{
    let tables = split_run(run, watermark, target_size, sizes);
    lemma_cut_holds(run, watermark, target_size, sizes);
    law_tables_hold_what_survives(run, watermark, target_size, sizes);
    if tables.len() > 0 {
        assert(concat_runs(tables) == tables[0] + concat_runs(tables.skip(1)));
        assert(tables[0].len() > 0);
    }
}

/// Whether the user key of every item of `items` is at most `user`.
spec fn users_up_to(items: Seq<Item>, user: Seq<u8>) -> bool {
    forall|i: int|
        0 <= i < items.len() ==> (#[trigger] items[i]).key.user == user || lex_lt(
            items[i].key.user,
            user,
        )
}

/// Whether every user key of `lower` comes before every user key of `upper`.
pub open spec fn users_before(lower: Seq<Item>, upper: Seq<Item>) -> bool {
    forall|i: int, j: int|
        #![trigger lower[i], upper[j]]
        0 <= i < lower.len() && 0 <= j < upper.len() ==> lex_lt(
            lower[i].key.user,
            upper[j].key.user,
        )
}

/// Whether every user key of `items` comes before `user`.
spec fn users_below(items: Seq<Item>, user: Seq<u8>) -> bool {
    forall|i: int| 0 <= i < items.len() ==> lex_lt((#[trigger] items[i]).key.user, user)
}

/// On the way into tables, tables do not share user keys, and the last user key that was passed is
/// in no finished table.
proof fn lemma_cut_apart(run: Seq<Item>, watermark: u64, target_size: usize, sizes: Seq<usize>)
    requires
        sorted(run),
        run.len() > 0,
    ensures
        ({
            let cut = cut_run(run, watermark, target_size, sizes);
            &&& forall|s: int, t: int|
                #![trigger cut.done[s], cut.done[t]]
                0 <= s < t < cut.done.len() ==> users_before(cut.done[s], cut.done[t])
            &&& forall|s: int|
                0 <= s < cut.done.len() ==> {
                    &&& users_below(#[trigger] cut.done[s], run.last().key.user)
                    &&& users_before(cut.done[s], cut.open)
                }
            &&& users_up_to(cut.open, run.last().key.user)
        }),
    decreases run.len(),
{
    let cut = cut_run(run, watermark, target_size, sizes);
    let front = run.drop_last();
    let before = cut_run(front, watermark, target_size, sizes.drop_last());
    let user = run.last().key.user;
    if run.len() > 1 {
        assert(sorted(front));
        lemma_cut_apart(front, watermark, target_size, sizes.drop_last());
        let p = front.last().key;
        assert(p == run[run.len() - 2].key);
        assert(p.lt(run.last().key));
        let full = is_cut(
            key_before(run, run.len() - 1),
            run.last().key,
            before.open.len() > 0,
            sizes.last(),
            target_size,
        );
        assert forall|items: Seq<Item>| users_below(items, p.user) implies #[trigger] users_below(
            items,
            user,
        ) by {
            assert forall|i: int| 0 <= i < items.len() implies lex_lt(
                (#[trigger] items[i]).key.user,
                user,
            ) by {
                if p.user != user {
                    lemma_lex_transitive(items[i].key.user, p.user, user);
                }
            }
        }
        assert(users_up_to(before.open, user)) by {
            assert forall|i: int| 0 <= i < before.open.len() implies (
            #[trigger] before.open[i]).key.user == user || lex_lt(
                before.open[i].key.user,
                user,
            ) by {
                if p.user != user && before.open[i].key.user != p.user {
                    lemma_lex_transitive(before.open[i].key.user, p.user, user);
                }
            }
        }
        if full {
            assert(users_below(before.open, user)) by {
                assert forall|i: int| 0 <= i < before.open.len() implies lex_lt(
                    (#[trigger] before.open[i]).key.user,
                    user,
                ) by {
                    if before.open[i].key.user != p.user {
                        lemma_lex_transitive(before.open[i].key.user, p.user, user);
                    }
                }
            }
        }
        assert forall|s: int| 0 <= s < cut.done.len() implies users_below(
            #[trigger] cut.done[s],
            user,
        ) && users_before(cut.done[s], cut.open) by {
            if s < before.done.len() {
                assert(cut.done[s] == before.done[s]);
            } else {
                assert(cut.done[s] == before.open);
            }
            assert(users_below(cut.done[s], user));
            assert forall|i: int, j: int|
                #![trigger cut.done[s][i], cut.open[j]]
                0 <= i < cut.done[s].len() && 0 <= j < cut.open.len() implies lex_lt(
                cut.done[s][i].key.user,
                cut.open[j].key.user,
            ) by {
                if cut.open[j] != run.last() {
                    assert(cut.open[j] == before.open[j]);
                    assert(users_before(before.done[s], before.open));
                }
            }
        }
    }
}

/// The tables of a compaction of a sorted run cover separate ranges of user keys, in order: all
/// versions of one user key are in one table.
pub proof fn law_tables_do_not_share_user_keys(
    run: Seq<Item>,
    watermark: u64,
    target_size: usize,
    sizes: Seq<usize>,
    s: int,
    t: int,
)
    requires
        sorted(run),
        0 <= s < t < split_run(run, watermark, target_size, sizes).len(),
    ensures
        users_before(
            split_run(run, watermark, target_size, sizes)[s],
            split_run(run, watermark, target_size, sizes)[t],
        ),
{
    if run.len() > 0 {
        lemma_cut_apart(run, watermark, target_size, sizes);
        let cut = cut_run(run, watermark, target_size, sizes);
        assert(split_run(run, watermark, target_size, sizes)[s] == cut.done[s]);
    }
}

/// What survives at a later watermark survives at an earlier one.
proof fn lemma_retain_monotone(prev: Option<KeyView>, run: Seq<Item>, early: u64, late: u64)
    requires
        early <= late,
    ensures
        forall|i: int|
            0 <= i < retain_after(prev, run, late).len() ==> retain_after(
                prev,
                run,
                early,
            ).contains(#[trigger] retain_after(prev, run, late)[i]),
    decreases run.len(),
{
    if run.len() > 0 {
        let tail = run.skip(1);
        lemma_retain_monotone(Some(run[0].key), tail, early, late);
        let fewer_tail = retain_after(Some(run[0].key), tail, late);
        let more_tail = retain_after(Some(run[0].key), tail, early);
        let fewer = retain_after(prev, run, late);
        let more = retain_after(prev, run, early);
        let d: int = if is_visible(prev, run[0], late) {
            1
        } else {
            0
        };
        let e: int = if is_visible(prev, run[0], early) {
            1
        } else {
            0
        };
        assert forall|i: int| 0 <= i < fewer.len() implies more.contains(#[trigger] fewer[i]) by {
            if i < d {
                assert(more[0] == run[0]);
            } else {
                assert(fewer[i] == fewer_tail[i - d]);
                let k = choose|k: int|
                    0 <= k < more_tail.len() && more_tail[k] == fewer_tail[i - d];
                assert(more[k + e] == more_tail[k]);
            }
        }
    }
}

/// The later the watermark, the less survives: every version that survives a compaction at some
/// watermark survives one at an earlier watermark too.
pub proof fn law_later_watermark_keeps_less(run: Seq<Item>, early: u64, late: u64)
    requires
        early <= late,
    ensures
        forall|i: int|
            0 <= i < retained(run, late).len() ==> retained(run, early).contains(
                #[trigger] retained(run, late)[i],
            ),
{
    lemma_retain_monotone(None, run, early, late);
}

/// What survives at one watermark and then at a later one is what survives at the later one, where
/// `q` is the last survivor before the run and `p` the last version before it.
proof fn lemma_retain_twice(
    q: Option<KeyView>,
    p: Option<KeyView>,
    run: Seq<Item>,
    early: u64,
    late: u64,
)
    requires
        sorted(run),
        follows(p, run),
        early <= late,
        q == p || {
            &&& p matches Some(pk)
            &&& pk.ts <= early
            &&& q matches Some(qk) ==> qk.user == pk.user || lex_lt(qk.user, pk.user)
        },
    ensures
        retain_after(q, retain_after(p, run, early), late) == retain_after(p, run, late),
    decreases run.len(),
{
    if run.len() > 0 {
        let head = run[0];
        let tail = run.skip(1);
        let kept_tail = retain_after(Some(head.key), tail, early);
        let kept = retain_after(p, run, early);
        lemma_sorted_tail(run);
        assert(follows(Some(head.key), tail));
        lemma_lex_irreflexive(head.key.user);
        if is_visible(p, head, early) {
            assert(kept.skip(1) =~= kept_tail);
            lemma_retain_twice(Some(head.key), Some(head.key), tail, early, late);
            assert(is_visible(q, head, late) == is_visible(p, head, late)) by {
                if q != p && head.key.ts <= late {
                    let pk = p->Some_0;
                    assert(pk.lt(run[0].key));
                    assert(pk.user != head.key.user);
                    if let Some(qk) = q {
                        if qk.user != pk.user {
                            lemma_lex_transitive(qk.user, pk.user, head.key.user);
                        }
                    }
                }
            }
        } else {
            // The dropped version is at the earlier watermark or before it.
            if let Some(qk) = q {
                let pk = p->Some_0;
                assert(pk.lt(run[0].key));
                if lex_lt(qk.user, pk.user) && lex_lt(pk.user, head.key.user) {
                    lemma_lex_transitive(qk.user, pk.user, head.key.user);
                }
            }
            lemma_retain_twice(q, Some(head.key), tail, early, late);
        }
    }
}

/// Compactions add up: one at some watermark and then one at a later watermark leave what the
/// later one alone leaves.
pub proof fn law_compactions_add_up(run: Seq<Item>, early: u64, late: u64)
    requires
        sorted(run),
        early <= late,
    ensures
        retained(retained(run, early), late) == retained(run, late),
{
    lemma_retain_twice(None, None, run, early, late);
}

/// Compacting again at the same watermark drops nothing more.
pub proof fn law_compaction_idempotent(run: Seq<Item>, watermark: u64)
    requires
        sorted(run),
    ensures
        retained(retained(run, watermark), watermark) == retained(run, watermark),
{
    law_compactions_add_up(run, watermark, watermark);
}

/// Exactly which versions of a sorted run survive a compaction at `watermark`: those newer than it,
/// and for each user key the newest one that is not, unless that one marks a deletion.
pub proof fn law_what_survives(run: Seq<Item>, watermark: u64, x: Item)
    requires
        sorted(run),
        watermark < u64::MAX,
    ensures
        retained(run, watermark).contains(x) <==> run.contains(x) && (x.key.ts > watermark || (
        x.value.len() > 0 && forall|y: Item| #[trigger]
            run.contains(y) && y.key.user == x.key.user && y.key.ts <= watermark ==> y.key.ts
                <= x.key.ts)),
{
    let kept = retained(run, watermark);
    let user = x.key.user;
    law_compaction_keeps_order(run, watermark);
    law_compaction_leaves_no_garbage(run, watermark);
    law_compaction_keeps_versions(run, watermark, user, watermark);
    lemma_version_at_from_run(run, user, watermark);
    lemma_version_at_from_run(kept, user, watermark);
    if kept.contains(x) {
        let i = choose|i: int| 0 <= i < kept.len() && kept[i] == x;
        assert(run.contains(kept[i]));
        if x.key.ts <= watermark {
            law_version_at_is_newest(kept, user, watermark, i);
            let found = version_at(kept, user, watermark)->Some_0;
            let k = choose|k: int| 0 <= k < kept.len() && kept[k] == found;
            if k < i {
                assert(kept[k].key.ts > watermark);
            } else if i < k {
                assert(kept[i].key.ts > watermark);
            }
            assert(version_at(run, user, watermark) == Some(x));
            assert forall|y: Item| #[trigger]
                run.contains(y) && y.key.user == user && y.key.ts <= watermark implies y.key.ts
                <= x.key.ts by {
                let j = choose|j: int| 0 <= j < run.len() && run[j] == y;
                law_version_at_is_newest(run, user, watermark, j);
            }
        }
    }
    if run.contains(x) {
        let i = choose|i: int| 0 <= i < run.len() && run[i] == x;
        if x.key.ts > watermark {
            law_compaction_keeps_recent(run, watermark, i);
        } else if x.value.len() > 0 && forall|y: Item| #[trigger]
            run.contains(y) && y.key.user == user && y.key.ts <= watermark ==> y.key.ts
                <= x.key.ts {
            law_version_at_is_newest(run, user, watermark, i);
            let found = version_at(run, user, watermark)->Some_0;
            assert(run.contains(found));
            lemma_sorted_one_per_key(run, found, x);
        }
    }
}

/// Where even the largest timestamp is not newer than the watermark, nothing survives.
proof fn lemma_nothing_retained(prev: Option<KeyView>, run: Seq<Item>)
    ensures
        retain_after(prev, run, TS_MAX) == Seq::<Item>::empty(),
    decreases run.len(),
{
    if run.len() > 0 {
        lemma_nothing_retained(Some(run[0].key), run.skip(1));
        assert(!is_visible(prev, run[0], TS_MAX));
    }
}

/// A compaction at the largest timestamp drops everything.
pub proof fn law_last_watermark_drops_everything(run: Seq<Item>)
    ensures
        retained(run, u64::MAX) == Seq::<Item>::empty(),
{
    lemma_nothing_retained(None, run);
}

/// A compaction invents nothing, whatever the order of its input.
pub proof fn law_compaction_invents_nothing(run: Seq<Item>, watermark: u64, x: Item)
    requires
        retained(run, watermark).contains(x),
    ensures
        run.contains(x),
{
    lemma_retain_from_run(None, run, watermark);
    let kept = retained(run, watermark);
    let i = choose|i: int| 0 <= i < kept.len() && kept[i] == x;
    assert(run.contains(kept[i]));
}

/// What was passed on the way into tables comes from the run, and the finished tables hold
/// something.
pub(crate) proof fn lemma_cut_from_run(
    run: Seq<Item>,
    watermark: u64,
    target_size: usize,
    sizes: Seq<usize>,
)
    ensures
        ({
            let cut = cut_run(run, watermark, target_size, sizes);
            &&& forall|t: int, i: int|
                0 <= t < cut.done.len() && 0 <= i < cut.done[t].len() ==> run.contains(
                    #[trigger] cut.done[t][i],
                )
            &&& forall|i: int|
                0 <= i < cut.open.len() ==> run.contains(#[trigger] cut.open[i])
            &&& forall|t: int| 0 <= t < cut.done.len() ==> (#[trigger] cut.done[t]).len() > 0
        }),
    decreases run.len(),
{
    let cut = cut_run(run, watermark, target_size, sizes);
    if run.len() > 0 {
        let front = run.drop_last();
        let before = cut_run(front, watermark, target_size, sizes.drop_last());
        lemma_cut_from_run(front, watermark, target_size, sizes.drop_last());
        assert forall|x: Item| #[trigger] front.contains(x) implies run.contains(x) by {
            let k = choose|k: int| 0 <= k < front.len() && front[k] == x;
            assert(run[k] == x);
        }
        assert(run[run.len() - 1] == run.last());
        assert forall|t: int, i: int|
            0 <= t < cut.done.len() && 0 <= i < cut.done[t].len() implies run.contains(
            #[trigger] cut.done[t][i],
        ) by {
            if t < before.done.len() {
                assert(cut.done[t] == before.done[t]);
                assert(front.contains(before.done[t][i]));
            } else {
                assert(front.contains(before.open[i]));
            }
        }
        assert forall|i: int| 0 <= i < cut.open.len() implies run.contains(
            #[trigger] cut.open[i],
        ) by {
            if cut.open[i] != run.last() {
                assert(cut.open[i] == before.open[i]);
                assert(front.contains(before.open[i]));
            }
        }
    }
}

} // verus!
