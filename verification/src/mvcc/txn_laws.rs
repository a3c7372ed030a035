//! What holds of transactions as a whole.
#[allow(unused_imports)]
use crate::iterators::{lemma_whole_merge, two_merge, whole, Item};
use crate::iterators::Run;
#[allow(unused_imports)]
use crate::key::{lemma_lex_irreflexive, lemma_lex_transitive, lex_lt, KeyView, TS_DEFAULT};
#[allow(unused_imports)]
use crate::key_hash::farm_hash32;
#[allow(unused_imports)]
use crate::lsm_storage::StorageAction;
use crate::lsm_storage::{LoggedStorage, TxnStorage};
#[allow(unused_imports)]
use crate::mvcc::txn::{
    after_delete, after_get, after_put, after_scan, begun, caught_up, commit_begun, commit_outcome,
    commit_recorded, handed_over, handover_outcome, lemma_moving_keeps_listed,
    lemma_nothing_to_take_in, lemma_range_listed, lemma_until_empty_key, live, moved_on,
    own_answer, own_listed, own_step, pass_deletions, refused, scan_items, scan_run,
    until_empty_key, TxnError, TxnView,
};
#[allow(unused_imports)]
use crate::mvcc::watermark::{law_remove_undoes_add, law_watermark_bounds_readers};
#[allow(unused_imports)]
use crate::mvcc::{conflict, MvccView};
#[allow(unused_imports)]
use crate::runs::{
    law_two_merge_newest, law_two_merge_sorted, law_version_at_is_newest, lemma_sorted_tail,
    lemma_version_at_from_run, live_value, read_at, sorted, version_at,
};
#[allow(unused_imports)]
use crate::skip_map::{listing, lists_range, KeyBound, KeyLimit};
use vstd::prelude::*;

verus! {

/// A transaction reads what it has written: after a write of a nonempty value it answers with
/// that value, and after a write of an empty one with nothing, whatever it wrote before.
pub proof fn law_read_own_put(txn: TxnView, key: Seq<u8>, value: Seq<u8>)
    ensures
        own_answer(after_put(txn, key, value), key) == Some(
            if value.len() > 0 {
                Some(value)
            } else {
                None
            },
        ),
{
}

/// After a deletion a transaction answers that there is nothing.
pub proof fn law_read_own_delete(txn: TxnView, key: Seq<u8>)
    ensures
        own_answer(after_delete(txn, key), key) == Some(None::<Seq<u8>>),
{
}

/// A write under one key does not change what a transaction answers for another.
pub proof fn law_writes_are_independent(
    txn: TxnView,
    key: Seq<u8>,
    value: Seq<u8>,
    other: Seq<u8>,
)
    requires
        key != other,
    ensures
        own_answer(after_put(txn, key, value), other) == own_answer(txn, other),
{
}

/// Of two writes under one key only the second counts.
pub proof fn law_last_write_wins(
    txn: TxnView,
    key: Seq<u8>,
    first: Seq<u8>,
    second: Seq<u8>,
)
    ensures
        after_put(after_put(txn, key, first), key, second) == after_put(txn, key, second),
{
    assert(after_put(after_put(txn, key, first), key, second) =~= after_put(txn, key, second));
}

/// A transaction that has written nothing is never refused.
pub proof fn law_read_only_never_refused(txn: TxnView, mvcc: MvccView)
    requires
        txn.write_hashes == Set::<u32>::empty(),
    ensures
        !refused(txn, mvcc),
{
}

/// A transaction that has read nothing is never refused.
pub proof fn law_blind_write_never_refused(txn: TxnView, mvcc: MvccView)
    requires
        txn.read_hashes == Set::<u32>::empty(),
    ensures
        !refused(txn, mvcc),
{
}

/// The watermark is not above any transaction in progress, also when a commit begins.
pub proof fn law_watermark_bounds_transactions(txn: TxnView, mvcc: MvccView)
    requires
        mvcc.readers.contains(txn.read_ts),
    ensures
        mvcc.watermark() <= txn.read_ts,
        commit_begun(mvcc).watermark() <= txn.read_ts,
{
    law_watermark_bounds_readers(mvcc.readers, txn.read_ts);
}

/// Forgetting committed transactions is safe: for a transaction in progress the check comes out
/// the same with and without them.
pub proof fn law_forgetting_is_safe(txn: TxnView, mvcc: MvccView, commit_ts: u64)
    requires
        mvcc.readers.contains(txn.read_ts),
    ensures
        conflict(commit_begun(mvcc).committed, txn.read_hashes, txn.read_ts, commit_ts)
            == conflict(mvcc.committed, txn.read_hashes, txn.read_ts, commit_ts),
{
    law_watermark_bounds_transactions(txn, mvcc);
    let kept = commit_begun(mvcc).committed;
    let all = mvcc.committed;
    if conflict(all, txn.read_hashes, txn.read_ts, commit_ts) {
        let (ts, hash) = choose|ts: u64, hash: u32|
            {
                &&& #[trigger] all.contains_key(ts)
                &&& txn.read_ts < ts < commit_ts
                &&& #[trigger] txn.read_hashes.contains(hash)
                &&& all[ts].key_hashes.contains(hash)
            };
        assert(kept.contains_key(ts) && kept[ts] == all[ts]);
    }
    if conflict(kept, txn.read_hashes, txn.read_ts, commit_ts) {
        let (ts, hash) = choose|ts: u64, hash: u32|
            {
                &&& #[trigger] kept.contains_key(ts)
                &&& txn.read_ts < ts < commit_ts
                &&& #[trigger] txn.read_hashes.contains(hash)
                &&& kept[ts].key_hashes.contains(hash)
            };
        assert(all.contains_key(ts) && kept[ts] == all[ts]);
    }
}

/// Commits are serializable: a transaction in progress that has written something and has read
/// under a hash that another transaction has since committed a write under is refused.
pub proof fn law_stale_read_is_refused(
    txn: TxnView,
    other: TxnView,
    mvcc: MvccView,
    other_ts: u64,
    read_hash: u32,
    write_hash: u32,
)
    requires
        mvcc.latest < u64::MAX,
        mvcc.readers.contains(txn.read_ts),
        txn.read_ts < other_ts <= mvcc.latest,
        txn.read_hashes.contains(read_hash),
        other.write_hashes.contains(read_hash),
        txn.write_hashes.contains(write_hash),
    ensures
        refused(txn, commit_begun(commit_recorded(other, mvcc, other_ts))),
{
    let after = commit_recorded(other, mvcc, other_ts);
    let begun_view = commit_begun(after);
    assert(after.committed.contains_key(other_ts));
    assert(after.committed[other_ts].key_hashes.contains(read_hash));
    assert(conflict(after.committed, txn.read_hashes, txn.read_ts, begun_view.latest));
    law_forgetting_is_safe(txn, after, begun_view.latest);
}

/// Whether a transaction remembers the hash of every key that it has written.
pub open spec fn writes_hashed(txn: TxnView) -> bool {
    forall|key: Seq<u8>| #[trigger]
        txn.writes.contains_key(key) ==> txn.write_hashes.contains(farm_hash32(key))
}

/// A transaction remembers the hash of every key that it has written, from its beginning on and
/// whatever it writes or deletes.
pub proof fn law_writes_are_hashed(txn: TxnView, read_ts: u64, key: Seq<u8>, value: Seq<u8>)
    requires
        writes_hashed(txn),
    ensures
        writes_hashed(begun(read_ts)),
        writes_hashed(after_put(txn, key, value)),
        writes_hashed(after_delete(txn, key)),
{
}

/// Commits are serializable, in terms of keys: a transaction in progress that has written
/// something and has read a key that another transaction has since committed a write under is
/// refused.
pub proof fn law_stale_key_is_refused(
    txn: TxnView,
    other: TxnView,
    mvcc: MvccView,
    other_ts: u64,
    key: Seq<u8>,
    written: Seq<u8>,
)
    requires
        mvcc.latest < u64::MAX,
        mvcc.readers.contains(txn.read_ts),
        txn.read_ts < other_ts <= mvcc.latest,
        writes_hashed(txn),
        writes_hashed(other),
        txn.read_hashes.contains(farm_hash32(key)),
        other.writes.contains_key(key),
        txn.writes.contains_key(written),
    ensures
        refused(txn, commit_begun(commit_recorded(other, mvcc, other_ts))),
{
    law_stale_read_is_refused(
        txn,
        other,
        mvcc,
        other_ts,
        farm_hash32(key),
        farm_hash32(written),
    );
}

/// The second half of a write skew is refused: of two transactions in progress, each of which has
/// read a key that the other has written, the second to commit is refused once the first has
/// committed, and nothing that it wrote is handed over. Left out are storages that write the first
/// one's batch at a timestamp that the second one reads at or before it.
pub proof fn law_write_skew_is_refused<S: TxnStorage>(
    first: TxnView,
    first_after: TxnView,
    second: TxnView,
    second_after: TxnView,
    mvcc: MvccView,
    mvcc_between: MvccView,
    mvcc_after: MvccView,
    storage: LoggedStorage<S>,
    storage_between: LoggedStorage<S>,
    storage_after: LoggedStorage<S>,
    r: Result<(), TxnError<S::Error>>,
    x: Seq<u8>,
    y: Seq<u8>,
)
    requires
        writes_hashed(first),
        writes_hashed(second),
        mvcc.readers.contains(second.read_ts),
        first.read_hashes.contains(farm_hash32(x)),
        first.writes.contains_key(y),
        second.read_hashes.contains(farm_hash32(y)),
        second.writes.contains_key(x),
        commit_outcome(
            first,
            first_after,
            mvcc,
            mvcc_between,
            storage,
            storage_between,
            Ok(()),
        ),
        second.read_ts < mvcc_between.latest < u64::MAX,
        commit_outcome(
            second,
            second_after,
            mvcc_between,
            mvcc_after,
            storage_between,
            storage_after,
            r,
        ),
    ensures
        r == Err::<(), TxnError<S::Error>>(TxnError::NotSerializable),
        second_after == second,
        storage_after.log() == storage_between.log(),
{
    let (batch, answer) = choose|batch: Seq<Item>, answer: Result<u64, S::Error>|
        {
            &&& #[trigger] handed_over(
                storage,
                storage_between,
                commit_begun(mvcc).latest,
                batch,
                answer,
            )
            &&& handover_outcome(
                first,
                first_after,
                commit_begun(mvcc),
                mvcc_between,
                answer,
                Ok(()),
            )
        };
    let ts = answer->Ok_0;
    let written = MvccView { latest: ts, ..commit_begun(mvcc) };
    assert(mvcc_between == commit_recorded(first, written, ts));
    law_stale_key_is_refused(second, first, written, ts, y, x);
}

/// Only a commit that succeeds closes a transaction: reads, writes and commits that fail leave it
/// open, and a commit that fails leaves all of it as it was.
pub proof fn law_only_success_closes<S: TxnStorage>(
    txn: TxnView,
    after: TxnView,
    mvcc: MvccView,
    mvcc_after: MvccView,
    storage: LoggedStorage<S>,
    storage_after: LoggedStorage<S>,
    r: Result<(), TxnError<S::Error>>,
    key: Seq<u8>,
    value: Seq<u8>,
    run: Seq<Item>,
)
    requires
        commit_outcome(txn, after, mvcc, mvcc_after, storage, storage_after, r),
    ensures
        r is Ok ==> after == (TxnView { committed: true, ..txn }),
        r is Err ==> after == txn,
        after_get(txn, key).committed == txn.committed,
        after_scan(txn, run).committed == txn.committed,
        after_put(txn, key, value).committed == txn.committed,
        after_delete(txn, key).committed == txn.committed,
{
}

/// A commit hands over at most one batch, and exactly one where it succeeds; that batch lists the
/// transaction's writes in order. It asks nothing else of the storage underneath.
pub proof fn law_commit_hands_over_once<S: TxnStorage>(
    txn: TxnView,
    after: TxnView,
    mvcc: MvccView,
    mvcc_after: MvccView,
    storage: LoggedStorage<S>,
    storage_after: LoggedStorage<S>,
    r: Result<(), TxnError<S::Error>>,
)
    requires
        commit_outcome(txn, after, mvcc, mvcc_after, storage, storage_after, r),
    ensures
        r is Ok ==> {
            &&& storage_after.log().len() == storage.log().len() + 1
            &&& storage_after.log().drop_last() == storage.log()
            &&& storage_after.log().last() matches StorageAction::Wrote(_latest, batch, answer)
            &&& answer is Ok
            &&& lists_range(batch, txn.writes, KeyBound::Unbounded, KeyBound::Unbounded)
        },
        r matches Err(TxnError::NotSerializable) ==> storage_after.log() == storage.log(),
{
    if r is Ok {
        assert(storage_after.log().drop_last() =~= storage.log());
    }
}

/// A transaction is refused only for a reason: some transaction that committed after it began
/// wrote under a hash that it has read.
pub proof fn law_refusal_has_a_reason(txn: TxnView, mvcc: MvccView)
    requires
        refused(txn, commit_begun(mvcc)),
    ensures
        exists|ts: u64, hash: u32|
            {
                &&& #[trigger] mvcc.committed.contains_key(ts)
                &&& txn.read_ts < ts
                &&& #[trigger] txn.read_hashes.contains(hash)
                &&& mvcc.committed[ts].key_hashes.contains(hash)
            },
{
    let kept = commit_begun(mvcc).committed;
    let (ts, hash) = choose|ts: u64, hash: u32|
        {
            &&& #[trigger] kept.contains_key(ts)
            &&& txn.read_ts < ts < commit_begun(mvcc).latest
            &&& #[trigger] txn.read_hashes.contains(hash)
            &&& kept[ts].key_hashes.contains(hash)
        };
    assert(mvcc.committed.contains_key(ts) && mvcc.committed[ts] == kept[ts]);
}

/// Ending a transaction undoes what beginning it did to the readers, and so to the watermark.
pub proof fn law_release_undoes_begin(mvcc: MvccView)
    ensures
        ({
            let during = MvccView { readers: mvcc.readers.insert(mvcc.latest), ..mvcc };
            let after = MvccView {
                readers: during.readers.remove(begun(mvcc.latest).read_ts),
                ..during
            };
            after == mvcc && after.watermark() == mvcc.watermark()
        }),
{
    law_remove_undoes_add(mvcc.readers, mvcc.latest);
}

/// Whether a run holds pairs without versions of their own.
pub open spec fn unversioned(run: Seq<Item>) -> bool {
    forall|i: int| 0 <= i < run.len() ==> (#[trigger] run[i]).key.ts == TS_DEFAULT
}

/// What is live of a run comes from the run, in order.
pub(crate) proof fn lemma_live(run: Seq<Item>)
    requires
        sorted(run),
    ensures
        sorted(live(run)),
        forall|i: int|
            0 <= i < live(run).len() ==> run.contains(#[trigger] live(run)[i]) && live(
                run,
            )[i].value.len() > 0,
    decreases run.len(),
{
    if run.len() > 0 {
        let tail = run.skip(1);
        lemma_sorted_tail(run);
        lemma_live(tail);
        let rest = live(tail);
        let all = live(run);
        let d: int = if run[0].value.len() > 0 {
            1
        } else {
            0
        };
        assert forall|i: int| 0 <= i < all.len() implies run.contains(#[trigger] all[i])
            && all[i].value.len() > 0 && (i >= d ==> run[0].key.lt(all[i].key)) by {
            assert(run.contains(run[0]));
            if i >= d {
                assert(all[i] == rest[i - d]);
                let k = choose|k: int| 0 <= k < tail.len() && tail[k] == rest[i - d];
                assert(run[k + 1] == all[i]);
                assert(run[0].key.lt(tail[k].key));
            }
        }
        assert forall|i: int, j: int| #![trigger all[i], all[j]] 0 <= i < j < all.len() implies all[
        i].key.lt(all[j].key) by {
            assert(all[j] == rest[j - d]);
            if i >= d {
                assert(all[i] == rest[i - d]);
            }
        }
    }
}

/// Leaving out deletions does not change what a key reads as.
proof fn lemma_live_reads(run: Seq<Item>, user: Seq<u8>)
    requires
        sorted(run),
        unversioned(run),
    ensures
        read_at(live(run), user, TS_DEFAULT) == read_at(run, user, TS_DEFAULT),
    decreases run.len(),
{
    if run.len() > 0 {
        let tail = run.skip(1);
        lemma_sorted_tail(run);
        assert(unversioned(tail)) by {
            assert forall|i: int| 0 <= i < tail.len() implies (#[trigger] tail[i]).key.ts
                == TS_DEFAULT by {
                assert(tail[i] == run[i + 1]);
            }
        }
        lemma_live_reads(tail, user);
        if run[0].value.len() > 0 {
            assert(live(run).skip(1) =~= live(tail));
        } else if run[0].key.user == user {
            lemma_live(tail);
            lemma_version_at_from_run(live(tail), user, TS_DEFAULT);
            if let Some(item) = version_at(live(tail), user, TS_DEFAULT) {
                let i = choose|i: int| 0 <= i < live(tail).len() && live(tail)[i] == item;
                assert(tail.contains(live(tail)[i]));
                let k = choose|k: int| 0 <= k < tail.len() && tail[k] == item;
                assert(run[0].key.lt(tail[k].key));
                lemma_lex_irreflexive(user);
            }
        }
    }
}

/// What a transaction answers to a read of a key, where `point` is what the storage underneath
/// answers to it.
pub open spec fn get_answer(
    txn: TxnView,
    key: Seq<u8>,
    point: Option<Seq<u8>>,
) -> Option<Seq<u8>> {
    match own_answer(txn, key) {
        Some(own) => own,
        None => point,
    }
}

/// A pair as an item of a run.
pub open spec fn pair_item(key: Seq<u8>, value: Seq<u8>) -> Item {
    Item { key: KeyView { user: key, ts: TS_DEFAULT }, value }
}

/// A scan agrees with reads: it yields a pair under a key of the range exactly if a read of the
/// key gives the pair's value, and it yields its pairs in order, without deletions. What the
/// storage underneath answers to the scan and to the read is to agree. Left out are scans over a
/// range in which the transaction has written under the empty key.
pub proof fn law_scan_agrees_with_get(
    txn: TxnView,
    lower: KeyBound,
    upper: KeyBound,
    stored: Seq<Item>,
    key: Seq<u8>,
    point: Option<Seq<u8>>,
)
    requires
        lists_range(listing(txn.writes, lower, upper), txn.writes, lower, upper),
        sorted(stored),
        unversioned(stored),
        point == read_at(stored, key, TS_DEFAULT),
        !(txn.writes.contains_key(Seq::empty()) && lower.above(Seq::empty()) && upper.below(
            Seq::empty(),
        )),
        lower.above(key),
        upper.below(key),
    ensures
        forall|value: Seq<u8>|
            scan_items(txn.writes, lower, upper, stored).contains(#[trigger] pair_item(key, value))
                <==> get_answer(txn, key, point) == Some(value),
        (forall|value: Seq<u8>|
            !scan_items(txn.writes, lower, upper, stored).contains(
                #[trigger] pair_item(key, value),
            )) <==> get_answer(txn, key, point) is None,
        sorted(scan_items(txn.writes, lower, upper, stored)),
        forall|i: int|
            #![trigger scan_items(txn.writes, lower, upper, stored)[i]]
            0 <= i < scan_items(txn.writes, lower, upper, stored).len() ==> scan_items(
                txn.writes,
                lower,
                upper,
                stored,
            )[i].value.len() > 0,
{
    let local = listing(txn.writes, lower, upper);
    assert forall|i: int| 0 <= i < local.len() implies (#[trigger] local[i]).key.user.len()
        > 0 by {
        if local[i].key.user.len() == 0 {
            assert(local[i].key.user =~= Seq::<u8>::empty());
        }
    }
    lemma_until_empty_key(local);
    let merged = two_merge(local, stored);
    law_two_merge_sorted(local, stored);
    law_two_merge_newest(local, stored, key, TS_DEFAULT);
    assert(unversioned(merged)) by {
        assert forall|i: int| 0 <= i < merged.len() implies (#[trigger] merged[i]).key.ts
            == TS_DEFAULT by {
            if local.contains(merged[i]) {
                let k = choose|k: int| 0 <= k < local.len() && local[k] == merged[i];
                assert(local[k].key.ts == TS_DEFAULT);
            } else {
                let k = choose|k: int| 0 <= k < stored.len() && stored[k] == merged[i];
                assert(stored[k].key.ts == TS_DEFAULT);
            }
        }
    }
    lemma_live(merged);
    lemma_live_reads(merged, key);
    lemma_version_at_from_run(stored, key, TS_DEFAULT);
    lemma_listed_version(txn, lower, upper, local, key);
    let seen = scan_items(txn.writes, lower, upper, stored);
    let answer = get_answer(txn, key, point);
    assert(read_at(seen, key, TS_DEFAULT) == answer);
    lemma_version_at_from_run(seen, key, TS_DEFAULT);
    if answer is Some {
        let item = version_at(seen, key, TS_DEFAULT)->Some_0;
        let k = choose|k: int| 0 <= k < seen.len() && seen[k] == item;
        assert(merged.contains(seen[k]));
        let m = choose|m: int| 0 <= m < merged.len() && merged[m] == item;
        assert(merged[m].key.ts == TS_DEFAULT);
        assert(item == pair_item(key, answer->Some_0));
    }
    assert forall|value: Seq<u8>| seen.contains(#[trigger] pair_item(key, value)) implies answer
        == Some(value) by {
        let i = choose|i: int| 0 <= i < seen.len() && seen[i] == pair_item(key, value);
        law_version_at_is_newest(seen, key, TS_DEFAULT, i);
        let item = version_at(seen, key, TS_DEFAULT)->Some_0;
        let k = choose|k: int| 0 <= k < seen.len() && seen[k] == item;
        assert(merged.contains(seen[k]));
        let m = choose|m: int| 0 <= m < merged.len() && merged[m] == item;
        assert(merged[m].key.ts == TS_DEFAULT);
        lemma_lex_irreflexive(key);
        if i < k {
            assert(seen[i].key.lt(seen[k].key));
        } else if k < i {
            assert(seen[k].key.lt(seen[i].key));
        }
    }
    if answer is Some {
        assert(seen.contains(pair_item(key, answer->Some_0)));
    }
}

/// What a listing of a transaction's writes holds under a key of its range is the write there.
proof fn lemma_listed_version(
    txn: TxnView,
    lower: KeyBound,
    upper: KeyBound,
    local: Seq<Item>,
    key: Seq<u8>,
)
    requires
        lists_range(local, txn.writes, lower, upper),
        lower.above(key),
        upper.below(key),
    ensures
        match version_at(local, key, TS_DEFAULT) {
            Some(item) => txn.writes.contains_key(key) && item.value == txn.writes[key]
                && item.key.ts == TS_DEFAULT,
            None => !txn.writes.contains_key(key),
        },
{
    lemma_version_at_from_run(local, key, TS_DEFAULT);
    if txn.writes.contains_key(key) {
        let i = choose|i: int| 0 <= i < local.len() && (#[trigger] local[i]).key.user == key;
        law_version_at_is_newest(local, key, TS_DEFAULT, i);
    }
    if let Some(item) = version_at(local, key, TS_DEFAULT) {
        let k = choose|k: int| 0 <= k < local.len() && local[k] == item;
        assert(txn.writes[local[k].key.user] == local[k].value);
    }
}

/// What is handed over at a commit is what the transaction answers of its own: for every key, the
/// batch that lists its writes holds the last write, and nothing where there was none.
pub proof fn law_commit_hands_over_own_writes(txn: TxnView, batch: Seq<Item>, key: Seq<u8>)
    requires
        lists_range(batch, txn.writes, KeyBound::Unbounded, KeyBound::Unbounded),
    ensures
        own_answer(txn, key) == match version_at(batch, key, TS_DEFAULT) {
            Some(item) => Some(live_value(Some(item))),
            None => None,
        },
{
    lemma_listed_version(txn, KeyBound::Unbounded, KeyBound::Unbounded, batch, key);
}

/// A write under the empty key hides all of a transaction's writes from a scan that reaches down
/// to it: the scan yields what the storage underneath holds.
pub proof fn law_empty_key_hides_writes(
    txn: TxnView,
    lower: KeyBound,
    upper: KeyBound,
    stored: Seq<Item>,
)
    requires
        lists_range(listing(txn.writes, lower, upper), txn.writes, lower, upper),
        txn.writes.contains_key(Seq::empty()),
        lower.above(Seq::empty()),
        upper.below(Seq::empty()),
    ensures
        scan_items(txn.writes, lower, upper, stored) == live(stored),
{
    let local = listing(txn.writes, lower, upper);
    let empty: Seq<u8> = Seq::empty();
    assert(txn.writes.contains_key(empty) && lower.above(empty) && upper.below(empty));
    let i = choose|i: int| 0 <= i < local.len() && (#[trigger] local[i]).key.user == empty;
    if i > 0 {
        assert(local[0].key.lt(local[i].key));
    }
    assert(until_empty_key(local) =~= Seq::<Item>::empty());
}

/// Where the storage underneath can be read to the end of a range, a scan can be too, and yields
/// what the transaction sees there.
pub proof fn law_whole_scan<E>(
    txn: TxnView,
    lower: KeyBound,
    upper: KeyBound,
    stored: Seq<Item>,
)
    ensures
        scan_run(txn.writes, lower, upper, whole::<E>(stored)) == whole::<E>(
            scan_items(txn.writes, lower, upper, stored),
        ),
{
    lemma_whole_merge(
        whole::<E>(until_empty_key(listing(txn.writes, lower, upper))),
        whole::<E>(stored),
    );
}

/// The iterator of a scan starts with all that the transaction has written within the range.
pub proof fn law_scan_lists_own_writes<E>(
    txn: TxnView,
    lower: KeyBound,
    upper: KeyBound,
    limit: KeyLimit,
    stored: Run<E>,
)
    requires
        lists_range(listing(txn.writes, lower, upper), txn.writes, lower, upper),
        forall|user: Seq<u8>| #[trigger] limit.below(user) == upper.below(user),
    ensures
        pass_deletions(until_empty_key(listing(txn.writes, lower, upper)), stored) matches Ok(
            (own, _stored),
        ) ==> own_listed(own, txn.writes, limit),
{
    lemma_range_listed(txn.writes, lower, upper, limit);
    lemma_moving_keeps_listed(
        until_empty_key(listing(txn.writes, lower, upper)),
        stored,
        txn.writes,
        limit,
    );
}

/// As long as a transaction writes nothing, an iterator of it has nothing to take in, however far
/// it is moved.
pub proof fn law_without_writes_nothing_to_take_in<E>(
    own: Seq<Item>,
    stored: Run<E>,
    writes: Map<Seq<u8>, Seq<u8>>,
    upper: KeyLimit,
)
    requires
        own_listed(own, writes, upper),
    ensures
        caught_up(own, writes, upper) == own,
        moved_on(own, stored) matches Ok((rest, _stored)) ==> own_listed(rest, writes, upper),
{
    lemma_nothing_to_take_in(own, writes, upper);
    lemma_moving_keeps_listed(own, stored, writes, upper);
    if let Ok((rest, stored_rest)) = own_step(own, stored) {
        lemma_moving_keeps_listed(rest, stored_rest, writes, upper);
    }
}

/// A write behind the own write that comes next, and within the range, lies ahead of an iterator
/// once it has caught up; one before it does not.
pub proof fn law_later_writes_are_taken_in(
    own: Seq<Item>,
    txn: TxnView,
    upper: KeyLimit,
    key: Seq<u8>,
    value: Seq<u8>,
)
    requires
        own.len() > 0,
        own_listed(
            caught_up(own, after_put(txn, key, value).writes, upper),
            after_put(txn, key, value).writes,
            upper,
        ),
    ensures
        ({
            let after = caught_up(own, after_put(txn, key, value).writes, upper);
            &&& lex_lt(own[0].key.user, key) && upper.below(key) ==> after.contains(
                pair_item(key, value),
            )
            &&& lex_lt(key, own[0].key.user) ==> forall|i: int|
                0 <= i < after.len() ==> (#[trigger] after[i]).key.user != key
        }),
{
    let writes = after_put(txn, key, value).writes;
    let after = caught_up(own, writes, upper);
    let rest = after.skip(1);
    assert(writes.contains_key(key));
    if lex_lt(own[0].key.user, key) && upper.below(key) {
        let i = choose|i: int| 0 <= i < rest.len() && (#[trigger] rest[i]).key.user == key;
        assert(after[i + 1] == rest[i]);
        assert(rest[i] == pair_item(key, value));
    }
    if lex_lt(key, own[0].key.user) {
        lemma_lex_irreflexive(key);
        assert forall|i: int| 0 <= i < after.len() implies (#[trigger] after[i]).key.user
            != key by {
            if i > 0 {
                assert(after[i] == rest[i - 1]);
                if rest[i - 1].key.user == key {
                    lemma_lex_transitive(key, own[0].key.user, key);
                }
            }
        }
    }
}

} // verus!
