//! What a run of versions says of a user key at a point in time, and what merging keeps of it.
#[allow(unused_imports)]
use crate::iterators::{
    lemma_whole_merge, merge_all, merge_head, merge_runs, merge_step, positioned, two_merge, Item,
};
use crate::iterators::Run;
#[allow(unused_imports)]
use crate::key::{lemma_key_total, lemma_key_transitive, lemma_lex_irreflexive, KeyView};
use vstd::prelude::*;

verus! {

/// Whether the keys of a run strictly increase.
pub open spec fn sorted(run: Seq<Item>) -> bool {
    forall|i: int, j: int|
        #![trigger run[i], run[j]]
        0 <= i < j < run.len() ==> run[i].key.lt(run[j].key)
}

/// Several runs, one behind the other.
pub open spec fn concat_runs(runs: Seq<Seq<Item>>) -> Seq<Item>
    decreases runs.len(),
{
    if runs.len() == 0 {
        Seq::empty()
    } else {
        runs[0] + concat_runs(runs.skip(1))
    }
}

/// One more run goes behind the others.
pub(crate) proof fn lemma_concat_push(runs: Seq<Seq<Item>>, run: Seq<Item>)
    ensures
        concat_runs(runs.push(run)) == concat_runs(runs) + run,
    decreases runs.len(),
{
    let all = runs.push(run);
    if runs.len() == 0 {
        assert(all.skip(1) =~= Seq::<Seq<Item>>::empty());
        assert(concat_runs(all.skip(1)) == Seq::<Item>::empty());
        assert(concat_runs(all) =~= concat_runs(runs) + run);
    } else {
        lemma_concat_push(runs.skip(1), run);
        assert(all.skip(1) =~= runs.skip(1).push(run));
        assert(all[0] == runs[0]);
        assert(concat_runs(all) =~= concat_runs(runs) + run);
    }
}

/// The first version of `user` in a run that was written at `ts` or before. In a sorted run that
/// is the newest one.
pub open spec fn version_at(run: Seq<Item>, user: Seq<u8>, ts: u64) -> Option<Item>
    decreases run.len(),
{
    if run.len() == 0 {
        None
    } else if run[0].key.user == user && run[0].key.ts <= ts {
        Some(run[0])
    } else {
        version_at(run.skip(1), user, ts)
    }
}

/// The value that a version stands for: none if it marks a deletion.
pub open spec fn live_value(version: Option<Item>) -> Option<Seq<u8>> {
    match version {
        Some(item) => if item.value.len() > 0 {
            Some(item.value)
        } else {
            None
        },
        None => None,
    }
}

/// What a reader at `ts` finds under `user` in a run.
pub open spec fn read_at(run: Seq<Item>, user: Seq<u8>, ts: u64) -> Option<Seq<u8>> {
    live_value(version_at(run, user, ts))
}

/// The newer of two versions; of two versions with one timestamp, the first.
pub open spec fn newer(x: Option<Item>, y: Option<Item>) -> Option<Item> {
    match (x, y) {
        (Some(a), Some(b)) => if a.key.ts >= b.key.ts {
            x
        } else {
            y
        },
        (None, _) => y,
        (_, None) => x,
    }
}

/// The newest version over several runs, in which an earlier run takes precedence over a later
/// one.
pub open spec fn newest_version(runs: Seq<Seq<Item>>, user: Seq<u8>, ts: u64) -> Option<Item>
    decreases runs.len(),
{
    if runs.len() == 0 {
        None
    } else {
        newer(version_at(runs[0], user, ts), newest_version(runs.skip(1), user, ts))
    }
}

/// A version found in a run is an item of the run, belongs to the user key, and is not newer
/// than asked for.
pub proof fn lemma_version_at_from_run(run: Seq<Item>, user: Seq<u8>, ts: u64)
    ensures
        version_at(run, user, ts) matches Some(item) ==> {
            &&& run.contains(item)
            &&& item.key.user == user
            &&& item.key.ts <= ts
        },
        version_at(run, user, ts) is None ==> forall|i: int|
            0 <= i < run.len() ==> (#[trigger] run[i]).key.user != user || run[i].key.ts > ts,
    decreases run.len(),
{
    if run.len() > 0 {
        let tail = run.skip(1);
        lemma_version_at_from_run(tail, user, ts);
        if run[0].key.user == user && run[0].key.ts <= ts {
            assert(run.contains(run[0]));
        } else {
            match version_at(tail, user, ts) {
                Some(item) => {
                    let i = choose|i: int| 0 <= i < tail.len() && tail[i] == item;
                    assert(run[i + 1] == item);
                },
                None => {
                    assert forall|i: int| 0 <= i < run.len() implies (#[trigger] run[i]).key.user
                        != user || run[i].key.ts > ts by {
                        if i > 0 {
                            assert(tail[i - 1] == run[i]);
                        }
                    }
                },
            }
        }
    }
}

/// In a sorted run, the version found at a point in time is the newest one that is not after it.
pub proof fn law_version_at_is_newest(run: Seq<Item>, user: Seq<u8>, ts: u64, i: int)
    requires
        sorted(run),
        0 <= i < run.len(),
        run[i].key.user == user,
        run[i].key.ts <= ts,
    ensures
        version_at(run, user, ts) matches Some(item) && item.key.ts >= run[i].key.ts,
    decreases run.len(),
{
    if run[0].key.user == user && run[0].key.ts <= ts {
        if i > 0 {
            assert(run[0].key.lt(run[i].key));
            lemma_lex_irreflexive(user);
        }
    } else {
        lemma_sorted_tail(run);
        assert(run.skip(1)[i - 1] == run[i]);
        law_version_at_is_newest(run.skip(1), user, ts, i - 1);
    }
}

/// A sorted run without its first item is sorted.
pub proof fn lemma_sorted_tail(run: Seq<Item>)
    requires
        sorted(run),
        run.len() > 0,
    ensures
        sorted(run.skip(1)),
        forall|i: int|
            0 <= i < run.skip(1).len() ==> run[0].key.lt((#[trigger] run.skip(1)[i]).key),
{
    let tail = run.skip(1);
    assert forall|i: int, j: int| #![trigger tail[i], tail[j]] 0 <= i < j < tail.len() implies tail[
    i].key.lt(tail[j].key) by {
        assert(run[i + 1].key.lt(run[j + 1].key));
    }
    assert forall|i: int| 0 <= i < tail.len() implies run[0].key.lt((#[trigger] tail[i]).key) by {
        assert(tail[i] == run[i + 1]);
    }
}

/// An item in front of a sorted run whose keys are all larger makes a sorted run.
proof fn lemma_sorted_front(head: Item, run: Seq<Item>)
    requires
        sorted(run),
        forall|i: int| 0 <= i < run.len() ==> head.key.lt((#[trigger] run[i]).key),
    ensures
        sorted(seq![head] + run),
{
    let all = seq![head] + run;
    assert forall|i: int, j: int| #![trigger all[i], all[j]] 0 <= i < j < all.len() implies all[
    i].key.lt(all[j].key) by {
        assert(all[j] == run[j - 1]);
        if i > 0 {
            assert(all[i] == run[i - 1]);
        }
    }
}

/// Two sorted runs with the same items are equal.
pub proof fn lemma_sorted_same_items(a: Seq<Item>, b: Seq<Item>)
    requires
        sorted(a),
        sorted(b),
        forall|x: Item| #[trigger] a.contains(x) <==> b.contains(x),
    ensures
        a == b,
    decreases a.len(),
{
    if a.len() == 0 {
        if b.len() > 0 {
            assert(b.contains(b[0]));
            assert(a.contains(b[0]));
        }
        assert(a =~= b);
    } else {
        assert(a.contains(a[0]));
        let j = choose|j: int| 0 <= j < b.len() && b[j] == a[0];
        assert(b.contains(b[0]));
        assert(a.contains(b[0]));
        let i = choose|i: int| 0 <= i < a.len() && a[i] == b[0];
        lemma_key_total(a[0].key, b[0].key);
        if i > 0 {
            assert(a[0].key.lt(a[i].key));
        }
        if j > 0 {
            assert(b[0].key.lt(b[j].key));
        }
        assert(a[0] == b[0]);
        let (ra, rb) = (a.skip(1), b.skip(1));
        lemma_sorted_tail(a);
        lemma_sorted_tail(b);
        lemma_key_total(a[0].key, a[0].key);
        assert forall|x: Item| #[trigger] ra.contains(x) <==> rb.contains(x) by {
            if ra.contains(x) {
                let k = choose|k: int| 0 <= k < ra.len() && ra[k] == x;
                assert(a[k + 1] == x);
                assert(a.contains(x));
                let l = choose|l: int| 0 <= l < b.len() && b[l] == x;
                assert(b.skip(1)[l - 1] == x);
            }
            if rb.contains(x) {
                let k = choose|k: int| 0 <= k < rb.len() && rb[k] == x;
                assert(b[k + 1] == x);
                assert(b.contains(x));
                assert(a.contains(x));
                let l = choose|l: int| 0 <= l < a.len() && a[l] == x;
                assert(a.skip(1)[l - 1] == x);
            }
        }
        lemma_sorted_same_items(ra, rb);
        assert(a =~= seq![a[0]] + ra);
        assert(b =~= seq![b[0]] + rb);
    }
}

/// The merge of two sorted runs is sorted, and every item of it comes from one of them.
pub proof fn law_two_merge_sorted(a: Seq<Item>, b: Seq<Item>)
    requires
        sorted(a),
        sorted(b),
    ensures
        sorted(two_merge(a, b)),
        forall|i: int|
            0 <= i < two_merge(a, b).len() ==> a.contains(#[trigger] two_merge(a, b)[i])
                || b.contains(two_merge(a, b)[i]),
    decreases a.len() + b.len(),
{
    if a.len() > 0 && b.len() > 0 {
        lemma_key_total(a[0].key, b[0].key);
        lemma_sorted_tail(a);
        lemma_sorted_tail(b);
        let (head, ra, rb) = if a[0].key.lt(b[0].key) {
            (a[0], a.skip(1), b)
        } else if a[0].key == b[0].key {
            (a[0], a.skip(1), b.skip(1))
        } else {
            (b[0], a, b.skip(1))
        };
        law_two_merge_sorted(ra, rb);
        let m = two_merge(ra, rb);
        assert forall|i: int| 0 <= i < m.len() implies head.key.lt((#[trigger] m[i]).key) && (
        a.contains(m[i]) || b.contains(m[i])) by {
            if ra.contains(m[i]) {
                let k = choose|k: int| 0 <= k < ra.len() && ra[k] == m[i];
                if ra == a {
                    assert(a[k] == m[i]);
                    if k > 0 {
                        assert(a[0].key.lt(a[k].key));
                        lemma_key_transitive(head.key, a[0].key, a[k].key);
                    }
                } else {
                    assert(a.skip(1)[k] == a[k + 1]);
                }
            } else {
                let k = choose|k: int| 0 <= k < rb.len() && rb[k] == m[i];
                if rb == b {
                    assert(b[k] == m[i]);
                    if k > 0 {
                        assert(b[0].key.lt(b[k].key));
                        lemma_key_transitive(head.key, b[0].key, b[k].key);
                    }
                } else {
                    assert(b.skip(1)[k] == b[k + 1]);
                }
            }
        }
        lemma_sorted_front(head, m);
        let all = two_merge(a, b);
        assert(all == seq![head] + m);
        assert forall|i: int| 0 <= i < all.len() implies a.contains(#[trigger] all[i])
            || b.contains(all[i]) by {
            if i == 0 {
                assert(a.contains(a[0]));
                assert(b.contains(b[0]));
            } else {
                assert(all[i] == m[i - 1]);
            }
        }
    } else {
        let m = two_merge(a, b);
        assert forall|i: int| 0 <= i < m.len() implies a.contains(#[trigger] m[i]) || b.contains(
            m[i],
        ) by {}
    }
}

/// Reading a merge of two sorted runs gives the newest version that either of them holds.
pub proof fn law_two_merge_newest(a: Seq<Item>, b: Seq<Item>, user: Seq<u8>, ts: u64)
    requires
        sorted(a),
        sorted(b),
    ensures
        version_at(two_merge(a, b), user, ts) == newer(
            version_at(a, user, ts),
            version_at(b, user, ts),
        ),
    decreases a.len() + b.len(),
{
    if a.len() > 0 && b.len() > 0 {
        lemma_key_total(a[0].key, b[0].key);
        lemma_sorted_tail(a);
        lemma_sorted_tail(b);
        lemma_lex_irreflexive(user);
        let m = two_merge(a, b);
        if a[0].key.lt(b[0].key) {
            law_two_merge_newest(a.skip(1), b, user, ts);
            assert(m.skip(1) =~= two_merge(a.skip(1), b));
            if a[0].key.user == user && a[0].key.ts <= ts {
                lemma_later_is_older(a[0].key, b, user, ts);
            }
        } else if a[0].key == b[0].key {
            law_two_merge_newest(a.skip(1), b.skip(1), user, ts);
            assert(m.skip(1) =~= two_merge(a.skip(1), b.skip(1)));
        } else {
            law_two_merge_newest(a, b.skip(1), user, ts);
            assert(m.skip(1) =~= two_merge(a, b.skip(1)));
            if b[0].key.user == user && b[0].key.ts <= ts {
                lemma_later_is_older(b[0].key, a, user, ts);
            }
        }
    }
}

/// In a sorted run that lies after `key`, the versions of `key`'s user key are older.
proof fn lemma_later_is_older(key: KeyView, run: Seq<Item>, user: Seq<u8>, ts: u64)
    requires
        sorted(run),
        run.len() > 0,
        key.lt(run[0].key),
        key.user == user,
    ensures
        version_at(run, user, ts) matches Some(item) ==> item.key.ts < key.ts,
{
    lemma_version_at_from_run(run, user, ts);
    if let Some(item) = version_at(run, user, ts) {
        let i = choose|i: int| 0 <= i < run.len() && run[i] == item;
        if i > 0 {
            assert(run[0].key.lt(run[i].key));
            lemma_key_transitive(key, run[0].key, run[i].key);
        }
        lemma_lex_irreflexive(user);
    }
}

/// The merge of several sorted runs is sorted.
pub proof fn law_merge_all_sorted(runs: Seq<Seq<Item>>)
    requires
        forall|i: int| 0 <= i < runs.len() ==> sorted(#[trigger] runs[i]),
    ensures
        sorted(merge_all(runs)),
    decreases runs.len(),
{
    if runs.len() > 0 {
        law_merge_all_sorted(runs.skip(1));
        law_two_merge_sorted(runs[0], merge_all(runs.skip(1)));
    }
}

/// Reading a merge of several sorted runs gives the newest version that any of them holds.
pub proof fn law_merge_all_newest(runs: Seq<Seq<Item>>, user: Seq<u8>, ts: u64)
    requires
        forall|i: int| 0 <= i < runs.len() ==> sorted(#[trigger] runs[i]),
    ensures
        version_at(merge_all(runs), user, ts) == newest_version(runs, user, ts),
    decreases runs.len(),
{
    if runs.len() > 0 {
        law_merge_all_sorted(runs.skip(1));
        law_merge_all_newest(runs.skip(1), user, ts);
        law_two_merge_newest(runs[0], merge_all(runs.skip(1)), user, ts);
    }
}

/// Whether a run holds a version under `key`.
pub open spec fn has_key(run: Seq<Item>, key: KeyView) -> bool {
    exists|i: int| 0 <= i < run.len() && (#[trigger] run[i]).key == key
}

/// A run with an item in front holds that item and what it held before.
proof fn lemma_front_contains(head: Item, run: Seq<Item>, x: Item)
    ensures
        (seq![head] + run).contains(x) <==> x == head || run.contains(x),
{
    let all = seq![head] + run;
    if all.contains(x) {
        let i = choose|i: int| 0 <= i < all.len() && all[i] == x;
        if i > 0 {
            assert(run[i - 1] == x);
        }
    }
    assert(all[0] == head);
    if run.contains(x) {
        let k = choose|k: int| 0 <= k < run.len() && run[k] == x;
        assert(all[k + 1] == x);
    }
}

/// A merge of two runs invents nothing, keeps all of the first, and of the second leaves out only
/// what stands under a key of the first. This holds of any two runs, sorted or not.
pub proof fn law_two_merge_loses_nothing(a: Seq<Item>, b: Seq<Item>, x: Item)
    ensures
        two_merge(a, b).contains(x) ==> a.contains(x) || b.contains(x),
        a.contains(x) ==> two_merge(a, b).contains(x),
        b.contains(x) ==> two_merge(a, b).contains(x) || has_key(a, x.key),
    decreases a.len() + b.len(),
{
    if a.len() > 0 && b.len() > 0 {
        lemma_key_total(a[0].key, b[0].key);
        let (head, ra, rb) = if a[0].key.lt(b[0].key) {
            (a[0], a.skip(1), b)
        } else if a[0].key == b[0].key {
            (a[0], a.skip(1), b.skip(1))
        } else {
            (b[0], a, b.skip(1))
        };
        law_two_merge_loses_nothing(ra, rb, x);
        lemma_front_contains(head, two_merge(ra, rb), x);
        lemma_front_contains(a[0], a.skip(1), x);
        lemma_front_contains(b[0], b.skip(1), x);
        assert(seq![a[0]] + a.skip(1) =~= a);
        assert(seq![b[0]] + b.skip(1) =~= b);
        if has_key(ra, x.key) {
            let k = choose|k: int| 0 <= k < ra.len() && (#[trigger] ra[k]).key == x.key;
            if ra == a {
                assert(a[k].key == x.key);
            } else {
                assert(a[k + 1].key == x.key);
            }
        }
        if a[0].key == b[0].key && x == b[0] {
            assert(a[0].key == x.key);
        }
    }
}

/// A sorted run holds one item under a key at most.
pub proof fn lemma_sorted_one_per_key(run: Seq<Item>, x: Item, y: Item)
    requires
        sorted(run),
        run.contains(x),
        run.contains(y),
        x.key == y.key,
    ensures
        x == y,
{
    let i = choose|i: int| 0 <= i < run.len() && run[i] == x;
    let j = choose|j: int| 0 <= j < run.len() && run[j] == y;
    lemma_key_total(x.key, x.key);
    if i < j {
        assert(run[i].key.lt(run[j].key));
    } else if j < i {
        assert(run[j].key.lt(run[i].key));
    }
}

/// What a merge of two sorted runs holds: all of the first run, and of the second what stands under
/// no key of the first.
pub proof fn law_two_merge_holds(a: Seq<Item>, b: Seq<Item>, x: Item)
    requires
        sorted(a),
        sorted(b),
    ensures
        two_merge(a, b).contains(x) <==> a.contains(x) || (b.contains(x) && !has_key(a, x.key)),
{
    law_two_merge_loses_nothing(a, b, x);
    law_two_merge_sorted(a, b);
    if two_merge(a, b).contains(x) && has_key(a, x.key) {
        let i = choose|i: int| 0 <= i < a.len() && (#[trigger] a[i]).key == x.key;
        assert(a.contains(a[i]));
        law_two_merge_loses_nothing(a, b, a[i]);
        lemma_sorted_one_per_key(two_merge(a, b), x, a[i]);
    }
}

/// A merge of several runs invents nothing and loses no key. This holds of any runs, sorted or not.
pub proof fn law_merge_all_loses_nothing(runs: Seq<Seq<Item>>, x: Item)
    ensures
        merge_all(runs).contains(x) ==> exists|g: int|
            0 <= g < runs.len() && (#[trigger] runs[g]).contains(x),
        (exists|g: int| 0 <= g < runs.len() && (#[trigger] runs[g]).contains(x)) ==> has_key(
            merge_all(runs),
            x.key,
        ),
    decreases runs.len(),
{
    if runs.len() > 0 {
        let tail = runs.skip(1);
        let rest = merge_all(tail);
        let all = merge_all(runs);
        law_merge_all_loses_nothing(tail, x);
        law_two_merge_loses_nothing(runs[0], rest, x);
        if all.contains(x) && !runs[0].contains(x) {
            let g = choose|g: int| 0 <= g < tail.len() && (#[trigger] tail[g]).contains(x);
            assert(runs[g + 1].contains(x));
        }
        if exists|g: int| 0 <= g < runs.len() && (#[trigger] runs[g]).contains(x) {
            let g = choose|g: int| 0 <= g < runs.len() && (#[trigger] runs[g]).contains(x);
            if g == 0 {
                let i = choose|i: int| 0 <= i < all.len() && all[i] == x;
                assert(all[i].key == x.key);
            } else {
                assert(tail[g - 1].contains(x));
                let i = choose|i: int| 0 <= i < rest.len() && (#[trigger] rest[i]).key == x.key;
                assert(rest.contains(rest[i]));
                law_two_merge_loses_nothing(runs[0], rest, rest[i]);
                if all.contains(rest[i]) {
                    let k = choose|k: int| 0 <= k < all.len() && all[k] == rest[i];
                    assert(all[k].key == x.key);
                } else {
                    let k = choose|k: int|
                        0 <= k < runs[0].len() && (#[trigger] runs[0][k]).key == x.key;
                    assert(runs[0].contains(runs[0][k]));
                    law_two_merge_loses_nothing(runs[0], rest, runs[0][k]);
                    let m = choose|m: int| 0 <= m < all.len() && all[m] == runs[0][k];
                    assert(all[m].key == x.key);
                }
            }
        }
    }
}

/// Whether run `g` is the first of several runs that holds something under the key of `x`, and it
/// holds `x`.
pub open spec fn holds_first(runs: Seq<Seq<Item>>, g: int, x: Item) -> bool {
    &&& 0 <= g < runs.len()
    &&& runs[g].contains(x)
    &&& forall|h: int| 0 <= h < g ==> !has_key(#[trigger] runs[h], x.key)
}

/// What a merge of several sorted runs holds: under each key what the first run holds there that
/// holds anything there.
pub proof fn law_merge_all_holds(runs: Seq<Seq<Item>>, x: Item)
    requires
        forall|i: int| 0 <= i < runs.len() ==> sorted(#[trigger] runs[i]),
    ensures
        merge_all(runs).contains(x) <==> exists|g: int| #[trigger] holds_first(runs, g, x),
    decreases runs.len(),
{
    if runs.len() > 0 {
        let tail = runs.skip(1);
        let rest = merge_all(tail);
        assert forall|i: int| 0 <= i < tail.len() implies sorted(#[trigger] tail[i]) by {
            assert(tail[i] == runs[i + 1]);
        }
        law_merge_all_sorted(tail);
        law_merge_all_holds(tail, x);
        assert(sorted(runs[0]));
        law_two_merge_holds(runs[0], rest, x);
        if merge_all(runs).contains(x) {
            if runs[0].contains(x) {
                assert(holds_first(runs, 0, x));
            } else {
                let g = choose|g: int| #[trigger] holds_first(tail, g, x);
                assert(holds_first(runs, g + 1, x)) by {
                    assert forall|h: int| 0 <= h < g + 1 implies !has_key(
                        #[trigger] runs[h],
                        x.key,
                    ) by {
                        if h > 0 {
                            assert(tail[h - 1] == runs[h]);
                        }
                    }
                }
            }
        }
        if exists|g: int| #[trigger] holds_first(runs, g, x) {
            let g = choose|g: int| #[trigger] holds_first(runs, g, x);
            if g > 0 {
                assert(!has_key(runs[0], x.key));
                assert(holds_first(tail, g - 1, x)) by {
                    assert forall|h: int| 0 <= h < g - 1 implies !has_key(
                        #[trigger] tail[h],
                        x.key,
                    ) by {
                        assert(tail[h] == runs[h + 1]);
                    }
                }
            }
        }
    }
}

/// A merge of several sorted runs, merged with one more, holds what the merge of all of them holds.
pub(crate) proof fn lemma_merge_one_more(runs: Seq<Seq<Item>>, last: Seq<Item>, x: Item)
    requires
        forall|i: int| 0 <= i < runs.len() ==> sorted(#[trigger] runs[i]),
        sorted(last),
    ensures
        two_merge(merge_all(runs), last).contains(x) <==> exists|g: int| #[trigger]
            holds_first(runs.push(last), g, x),
        sorted(two_merge(merge_all(runs), last)),
{
    let all = runs.push(last);
    let m = merge_all(runs);
    law_merge_all_sorted(runs);
    law_two_merge_sorted(m, last);
    law_two_merge_holds(m, last, x);
    law_merge_all_holds(runs, x);
    if two_merge(m, last).contains(x) {
        if m.contains(x) {
            let g = choose|g: int| #[trigger] holds_first(runs, g, x);
            assert(holds_first(all, g, x)) by {
                assert forall|h: int| 0 <= h < g implies !has_key(#[trigger] all[h], x.key) by {
                    assert(all[h] == runs[h]);
                }
            }
        } else {
            assert(holds_first(all, runs.len() as int, x)) by {
                assert forall|h: int| 0 <= h < runs.len() implies !has_key(
                    #[trigger] all[h],
                    x.key,
                ) by {
                    if has_key(all[h], x.key) {
                        assert(all[h] == runs[h]);
                        let k = choose|k: int|
                            0 <= k < runs[h].len() && (#[trigger] runs[h][k]).key == x.key;
                        assert(runs[h].contains(runs[h][k]));
                        law_merge_all_loses_nothing(runs, runs[h][k]);
                    }
                }
            }
        }
    }
    if exists|g: int| #[trigger] holds_first(all, g, x) {
        let g = choose|g: int| #[trigger] holds_first(all, g, x);
        if g < runs.len() {
            assert(holds_first(runs, g, x)) by {
                assert(all[g] == runs[g]);
                assert forall|h: int| 0 <= h < g implies !has_key(#[trigger] runs[h], x.key) by {
                    assert(all[h] == runs[h]);
                }
            }
        } else {
            assert(!has_key(m, x.key)) by {
                if has_key(m, x.key) {
                    let k = choose|k: int| 0 <= k < m.len() && (#[trigger] m[k]).key == x.key;
                    assert(m.contains(m[k]));
                    law_merge_all_loses_nothing(runs, m[k]);
                    let h = choose|h: int|
                        0 <= h < runs.len() && (#[trigger] runs[h]).contains(m[k]);
                    let j = choose|j: int| 0 <= j < runs[h].len() && runs[h][j] == m[k];
                    assert(all[h] == runs[h]);
                    assert(all[h][j].key == x.key);
                }
            }
        }
    }
}

/// Several runs, one behind the other, hold what any of them holds.
pub proof fn law_concat_holds(runs: Seq<Seq<Item>>, x: Item)
    ensures
        concat_runs(runs).contains(x) <==> exists|g: int|
            0 <= g < runs.len() && (#[trigger] runs[g]).contains(x),
    decreases runs.len(),
{
    if runs.len() > 0 {
        let tail = runs.skip(1);
        let rest = concat_runs(tail);
        let all = concat_runs(runs);
        law_concat_holds(tail, x);
        if all.contains(x) {
            let i = choose|i: int| 0 <= i < all.len() && all[i] == x;
            if i < runs[0].len() {
                assert(runs[0][i] == x);
            } else {
                assert(rest[i - runs[0].len()] == x);
                let g = choose|g: int| 0 <= g < tail.len() && (#[trigger] tail[g]).contains(x);
                assert(runs[g + 1].contains(x));
            }
        }
        if exists|g: int| 0 <= g < runs.len() && (#[trigger] runs[g]).contains(x) {
            let g = choose|g: int| 0 <= g < runs.len() && (#[trigger] runs[g]).contains(x);
            if g == 0 {
                let i = choose|i: int| 0 <= i < runs[0].len() && runs[0][i] == x;
                assert(all[i] == x);
            } else {
                assert(tail[g - 1].contains(x));
                let i = choose|i: int| 0 <= i < rest.len() && rest[i] == x;
                assert(all[runs[0].len() + i] == x);
            }
        }
    }
}

/// Whether sorted runs follow one another: all keys of an earlier one come before all keys of a
/// later one.
pub open spec fn in_sequence(runs: Seq<Seq<Item>>) -> bool {
    &&& forall|g: int| 0 <= g < runs.len() ==> sorted(#[trigger] runs[g])
    &&& forall|g: int, h: int, i: int, j: int|
        #![trigger runs[g][i], runs[h][j]]
        0 <= g < h < runs.len() && 0 <= i < runs[g].len() && 0 <= j < runs[h].len()
            ==> runs[g][i].key.lt(runs[h][j].key)
}

/// Sorted runs that follow one another make a sorted run.
pub(crate) proof fn lemma_concat_sorted(runs: Seq<Seq<Item>>)
    requires
        in_sequence(runs),
    ensures
        sorted(concat_runs(runs)),
    decreases runs.len(),
{
    if runs.len() > 0 {
        let tail = runs.skip(1);
        let rest = concat_runs(tail);
        let all = concat_runs(runs);
        assert(in_sequence(tail)) by {
            assert forall|g: int| 0 <= g < tail.len() implies sorted(#[trigger] tail[g]) by {
                assert(tail[g] == runs[g + 1]);
            }
            assert forall|g: int, h: int, i: int, j: int|
                #![trigger tail[g][i], tail[h][j]]
                0 <= g < h < tail.len() && 0 <= i < tail[g].len() && 0 <= j
                    < tail[h].len() implies tail[g][i].key.lt(tail[h][j].key) by {
                assert(runs[g + 1][i].key.lt(runs[h + 1][j].key));
            }
        }
        lemma_concat_sorted(tail);
        assert(sorted(runs[0]));
        assert forall|i: int, j: int| #![trigger all[i], all[j]] 0 <= i < j < all.len() implies all[
        i].key.lt(all[j].key) by {
            let n = runs[0].len() as int;
            if j < n {
                assert(all[i] == runs[0][i] && all[j] == runs[0][j]);
            } else if i < n {
                assert(all[i] == runs[0][i] && all[j] == rest[j - n]);
                assert(rest.contains(rest[j - n]));
                law_concat_holds(tail, rest[j - n]);
                let g = choose|g: int|
                    0 <= g < tail.len() && (#[trigger] tail[g]).contains(rest[j - n]);
                let k = choose|k: int| 0 <= k < tail[g].len() && tail[g][k] == rest[j - n];
                assert(runs[0][i].key.lt(runs[g + 1][k].key));
            } else {
                assert(all[i] == rest[i - n] && all[j] == rest[j - n]);
            }
        }
    }
}

/// A sorted list of runs, one behind the other, is made of sorted runs.
pub(crate) proof fn lemma_parts_sorted(runs: Seq<Seq<Item>>)
    requires
        sorted(concat_runs(runs)),
    ensures
        forall|g: int| 0 <= g < runs.len() ==> sorted(#[trigger] runs[g]),
    decreases runs.len(),
{
    if runs.len() > 0 {
        let tail = runs.skip(1);
        let rest = concat_runs(tail);
        let all = concat_runs(runs);
        let n = runs[0].len() as int;
        assert(sorted(rest)) by {
            assert forall|i: int, j: int|
                #![trigger rest[i], rest[j]]
                0 <= i < j < rest.len() implies rest[i].key.lt(rest[j].key) by {
                assert(all[n + i].key.lt(all[n + j].key));
            }
        }
        lemma_parts_sorted(tail);
        assert(sorted(runs[0])) by {
            assert forall|i: int, j: int|
                #![trigger runs[0][i], runs[0][j]]
                0 <= i < j < runs[0].len() implies runs[0][i].key.lt(runs[0][j].key) by {
                assert(all[i].key.lt(all[j].key));
            }
        }
        assert forall|g: int| 0 <= g < runs.len() implies sorted(#[trigger] runs[g]) by {
            if g > 0 {
                assert(tail[g - 1] == runs[g]);
            }
        }
    }
}

/// A merge of two runs of which one cannot be read on is the beginning of what it would be if both
/// could: up to the pair behind which the reading stops, and with the error that stops it there.
pub proof fn law_merge_stops_where_reading_stops<E>(a: Run<E>, b: Run<E>)
    requires
        positioned(a),
        positioned(b),
    ensures
        merge_runs(a, b).items.len() <= two_merge(a.items, b.items).len(),
        merge_runs(a, b).items == two_merge(a.items, b.items).take(
            merge_runs(a, b).items.len() as int,
        ),
        merge_runs(a, b).end is None <==> a.end is None && b.end is None,
        merge_runs(a, b).end is None ==> merge_runs(a, b).items == two_merge(a.items, b.items),
        merge_runs(a, b).end matches Some(e) ==> merge_runs(a, b).items.len() > 0 && ((a.end
            == Some(e) && merge_runs(a, b).items.last().key == a.items.last().key) || (b.end
            == Some(e) && merge_runs(a, b).items.last().key == b.items.last().key)),
    decreases a.items.len() + b.items.len(),
{
    let m = merge_runs(a, b);
    let t = two_merge(a.items, b.items);
    lemma_whole_merge(a, b);
    if a.items.len() + b.items.len() > 0 {
        if a.items.len() > 0 && b.items.len() > 0 {
            lemma_key_total(a.items[0].key, b.items[0].key);
        }
        let head = merge_head(a, b);
        assert(t.len() > 0 && t[0] == head);
        match merge_step(a, b) {
            Err(e) => {
                assert(m.items =~= t.take(1));
            },
            Ok((ra, rb)) => {
                let rest = merge_runs(ra, rb);
                law_merge_stops_where_reading_stops(ra, rb);
                let rt = two_merge(ra.items, rb.items);
                if a.items.len() == 0 {
                    assert(seq![b.items[0]] + b.items.skip(1) =~= b.items);
                    assert(rt =~= b.items.skip(1));
                } else if b.items.len() == 0 {
                    assert(seq![a.items[0]] + a.items.skip(1) =~= a.items);
                    assert(rt =~= a.items.skip(1));
                }
                assert(t == seq![head] + rt);
                assert(m.items =~= t.take(m.items.len() as int));
                if m.end is Some {
                    assert(m.items.last() == rest.items.last());
                }
            },
        }
    } else {
        assert(m.items =~= t.take(0));
    }
}

/// Of two pairs under one key that of the second run is passed first: where nothing can be read
/// behind it, that is why the merge ends, whatever lies behind the other.
pub proof fn law_equal_keys_fail_with_the_second<E>(a: Run<E>, b: Run<E>)
    requires
        a.items.len() > 0,
        b.items.len() == 1,
        a.items[0].key == b.items[0].key,
        b.end is Some,
    ensures
        merge_runs(a, b).items == seq![a.items[0]],
        merge_runs(a, b).end == b.end,
{
    lemma_lex_irreflexive(a.items[0].key.user);
    assert(b.items.skip(1).len() == 0);
}

} // verus!
