//! What a transaction has read and written after any number of steps, and which commits are refused
//! on that account.
#[allow(unused_imports)]
use crate::compact::output_laws::{law_watermark_is_read_back_to, read_back_to};
use crate::iterators::Item;
#[allow(unused_imports)]
use crate::key::TS_DEFAULT;
#[allow(unused_imports)]
use crate::key_hash::farm_hash32;
#[allow(unused_imports)]
use crate::lsm_storage::{asked, StorageAction};
use crate::lsm_storage::{LoggedStorage, TxnStorage};
#[allow(unused_imports)]
use crate::mvcc::txn::{
    after_delete, after_get, after_put, after_scan, begun, commit_begun, commit_outcome,
    commit_recorded, handed_over, handover_outcome, key_hashes_of, own_answer, refused, value_view,
    TxnError, TxnView,
};
#[allow(unused_imports)]
use crate::mvcc::{conflict, forget_before, CommittedView, MvccView};
#[allow(unused_imports)]
use crate::runs::sorted;
#[allow(unused_imports)]
use crate::skip_map::{lists_range, KeyBound};
use vstd::prelude::*;

verus! {

/// One step of a transaction.
pub enum TxnStep {
    /// A key is read.
    Read(Seq<u8>),
    /// A range is read, and these pairs are seen in it.
    Saw(Seq<Item>),
    /// A value is written under a key.
    Wrote(Seq<u8>, Seq<u8>),
    /// A key is deleted.
    Deleted(Seq<u8>),
}

impl TxnStep {
    /// Whether the step reads a key with this hash.
    pub open spec fn reads(self, hash: u32) -> bool {
        match self {
            TxnStep::Read(key) => farm_hash32(key) == hash,
            TxnStep::Saw(pairs) => exists|i: int|
                0 <= i < pairs.len() && farm_hash32((#[trigger] pairs[i]).key.user) == hash,
            _ => false,
        }
    }

    /// Whether the step writes or deletes `key`.
    pub open spec fn writes(self, key: Seq<u8>) -> bool {
        match self {
            TxnStep::Wrote(k, _value) => k == key,
            TxnStep::Deleted(k) => k == key,
            _ => false,
        }
    }

    /// Whether the step writes or deletes a key with this hash.
    pub open spec fn writes_hash(self, hash: u32) -> bool {
        match self {
            TxnStep::Wrote(k, _value) => farm_hash32(k) == hash,
            TxnStep::Deleted(k) => farm_hash32(k) == hash,
            _ => false,
        }
    }

    /// What the step writes; nothing if it deletes.
    pub open spec fn value(self) -> Seq<u8> {
        match self {
            TxnStep::Wrote(_key, value) => value,
            _ => Seq::empty(),
        }
    }
}

/// A transaction after one step.
pub open spec fn after_step(txn: TxnView, step: TxnStep) -> TxnView {
    match step {
        TxnStep::Read(key) => after_get(txn, key),
        TxnStep::Saw(pairs) => after_scan(txn, pairs),
        TxnStep::Wrote(key, value) => after_put(txn, key, value),
        TxnStep::Deleted(key) => after_delete(txn, key),
    }
}

/// A transaction after several steps.
pub open spec fn after_steps(txn: TxnView, steps: Seq<TxnStep>) -> TxnView
    decreases steps.len(),
{
    if steps.len() == 0 {
        txn
    } else {
        after_step(after_steps(txn, steps.drop_last()), steps.last())
    }
}

/// A transaction begins with its timestamp and nothing else.
pub proof fn law_begins_with_nothing(read_ts: u64)
    ensures
        begun(read_ts).read_ts == read_ts,
        !begun(read_ts).committed,
        forall|key: Seq<u8>| !(#[trigger] begun(read_ts).writes.contains_key(key)),
        forall|hash: u32| !(#[trigger] begun(read_ts).read_hashes.contains(hash)),
        forall|hash: u32| !(#[trigger] begun(read_ts).write_hashes.contains(hash)),
{
}

/// The hashes of a run are those of its keys.
proof fn lemma_hashes_of(run: Seq<Item>, hash: u32)
    ensures
        key_hashes_of(run).contains(hash) <==> exists|i: int|
            0 <= i < run.len() && farm_hash32((#[trigger] run[i]).key.user) == hash,
{
    let hashes = run.map_values(|item: Item| farm_hash32(item.key.user));
    if key_hashes_of(run).contains(hash) {
        let i = choose|i: int| 0 <= i < hashes.len() && hashes[i] == hash;
        assert(farm_hash32(run[i].key.user) == hash);
    }
    if exists|i: int| 0 <= i < run.len() && farm_hash32((#[trigger] run[i]).key.user) == hash {
        let i = choose|i: int|
            0 <= i < run.len() && farm_hash32((#[trigger] run[i]).key.user) == hash;
        assert(hashes[i] == hash);
    }
}

/// A step adds to what has been read what it reads, and takes nothing away; a write or a deletion
/// changes its own key and no other; and nothing else of the transaction changes.
pub proof fn law_one_step(txn: TxnView, step: TxnStep, hash: u32, key: Seq<u8>)
    ensures
        after_step(txn, step).read_hashes.contains(hash) <==> txn.read_hashes.contains(hash)
            || step.reads(hash),
        after_step(txn, step).write_hashes.contains(hash) <==> txn.write_hashes.contains(hash)
            || step.writes_hash(hash),
        after_step(txn, step).writes.contains_key(key) <==> txn.writes.contains_key(key)
            || step.writes(key),
        step.writes(key) ==> after_step(txn, step).writes[key] == step.value(),
        !step.writes(key) && txn.writes.contains_key(key) ==> after_step(txn, step).writes[key]
            == txn.writes[key],
        after_step(txn, step).read_ts == txn.read_ts,
        after_step(txn, step).committed == txn.committed,
{
    if let TxnStep::Saw(pairs) = step {
        lemma_hashes_of(pairs, hash);
    }
}

/// A read adds its key to what the transaction has read, and removes nothing.
pub proof fn law_get_counts_as_read(txn: TxnView, key: Seq<u8>)
    ensures
        after_get(txn, key).read_hashes.contains(farm_hash32(key)),
        txn.read_hashes.subset_of(after_get(txn, key).read_hashes),
{
    assert forall|hash: u32| #[trigger] txn.read_hashes.contains(hash) implies after_get(
        txn,
        key,
    ).read_hashes.contains(hash) by {
        law_one_step(txn, TxnStep::Read(key), hash, key);
    }
    law_one_step(txn, TxnStep::Read(key), farm_hash32(key), key);
}

/// A scan adds every key that it has seen to what the transaction has read, and removes nothing.
pub proof fn law_scan_counts_as_read(txn: TxnView, run: Seq<Item>)
    ensures
        forall|i: int|
            0 <= i < run.len() ==> after_scan(txn, run).read_hashes.contains(
                farm_hash32((#[trigger] run[i]).key.user),
            ),
        txn.read_hashes.subset_of(after_scan(txn, run).read_hashes),
{
    assert forall|i: int| 0 <= i < run.len() implies after_scan(txn, run).read_hashes.contains(
        farm_hash32((#[trigger] run[i]).key.user),
    ) by {
        let hash = farm_hash32(run[i].key.user);
        law_one_step(txn, TxnStep::Saw(run), hash, run[i].key.user);
        assert(TxnStep::Saw(run).reads(hash));
    }
}

/// Whether step `i` is the last that writes or deletes `key`.
pub open spec fn last_write(steps: Seq<TxnStep>, i: int, key: Seq<u8>) -> bool {
    &&& 0 <= i < steps.len()
    &&& steps[i].writes(key)
    &&& forall|j: int| i < j < steps.len() ==> !(#[trigger] steps[j]).writes(key)
}

/// Whether one of several steps reads a key with this hash.
pub open spec fn some_read(steps: Seq<TxnStep>, hash: u32) -> bool {
    exists|i: int| 0 <= i < steps.len() && (#[trigger] steps[i]).reads(hash)
}

/// Whether one of several steps writes or deletes a key with this hash.
pub open spec fn some_write(steps: Seq<TxnStep>, hash: u32) -> bool {
    exists|i: int| 0 <= i < steps.len() && (#[trigger] steps[i]).writes_hash(hash)
}

/// What a transaction remembers after any steps: what it had read and whatever a step read, what it
/// had written and whatever a step wrote, each key with its last write. Nothing is forgotten on the
/// way, and nothing else is remembered.
pub proof fn law_history(txn: TxnView, steps: Seq<TxnStep>, hash: u32, key: Seq<u8>)
    ensures
        after_steps(txn, steps).read_hashes.contains(hash) <==> txn.read_hashes.contains(hash)
            || some_read(steps, hash),
        after_steps(txn, steps).write_hashes.contains(hash) <==> txn.write_hashes.contains(hash)
            || some_write(steps, hash),
        after_steps(txn, steps).writes.contains_key(key) <==> txn.writes.contains_key(key)
            || exists|i: int| last_write(steps, i, key),
        forall|i: int| #[trigger]
            last_write(steps, i, key) ==> after_steps(txn, steps).writes[key] == steps[i].value(),
        !(exists|i: int| last_write(steps, i, key)) && txn.writes.contains_key(key)
            ==> after_steps(txn, steps).writes[key] == txn.writes[key],
        after_steps(txn, steps).read_ts == txn.read_ts,
        after_steps(txn, steps).committed == txn.committed,
    decreases steps.len(),
{
    if steps.len() > 0 {
        let front = steps.drop_last();
        let n = steps.len() - 1;
        let between = after_steps(txn, front);
        let step = steps[n];
        law_history(txn, front, hash, key);
        law_one_step(between, step, hash, key);
        assert(steps.last() == step);
        assert(some_read(steps, hash) <==> some_read(front, hash) || step.reads(hash)) by {
            if some_read(front, hash) {
                let i = choose|i: int| 0 <= i < front.len() && (#[trigger] front[i]).reads(hash);
                assert(steps[i].reads(hash));
            }
            if some_read(steps, hash) && !step.reads(hash) {
                let i = choose|i: int| 0 <= i < steps.len() && (#[trigger] steps[i]).reads(hash);
                assert(front[i].reads(hash));
            }
        }
        assert(some_write(steps, hash) <==> some_write(front, hash) || step.writes_hash(hash)) by {
            if some_write(front, hash) {
                let i = choose|i: int|
                    0 <= i < front.len() && (#[trigger] front[i]).writes_hash(hash);
                assert(steps[i].writes_hash(hash));
            }
            if some_write(steps, hash) && !step.writes_hash(hash) {
                let i = choose|i: int|
                    0 <= i < steps.len() && (#[trigger] steps[i]).writes_hash(hash);
                assert(front[i].writes_hash(hash));
            }
        }
        if step.writes(key) {
            assert(last_write(steps, n, key));
            assert forall|i: int| #[trigger] last_write(steps, i, key) implies i == n by {
                if i < n {
                    assert(!steps[n].writes(key));
                }
            }
        } else {
            assert forall|i: int| #[trigger] last_write(steps, i, key) implies last_write(
                front,
                i,
                key,
            ) by {
                assert(i != n);
                assert forall|j: int| i < j < front.len() implies !(
                #[trigger] front[j]).writes(key) by {
                    assert(!steps[j].writes(key));
                }
            }
            assert forall|i: int| #[trigger] last_write(front, i, key) implies last_write(
                steps,
                i,
                key,
            ) by {
                assert forall|j: int| i < j < steps.len() implies !(
                #[trigger] steps[j]).writes(key) by {
                    if j < n {
                        assert(!front[j].writes(key));
                    }
                }
            }
        }
    } else {
        assert forall|i: int| !(#[trigger] last_write(steps, i, key)) by {}
    }
}

/// What a transaction answers of its own is what it has written last: nothing for a key that it has
/// not written, and otherwise the value, where an empty one means that there is none.
pub proof fn law_answers_its_last_write(txn: TxnView, key: Seq<u8>)
    ensures
        own_answer(txn, key) is None <==> !txn.writes.contains_key(key),
        txn.writes.contains_key(key) && txn.writes[key].len() == 0 ==> own_answer(txn, key) == Some(
            None::<Seq<u8>>,
        ),
        txn.writes.contains_key(key) && txn.writes[key].len() > 0 ==> own_answer(txn, key) == Some(
            Some(txn.writes[key]),
        ),
{
}

/// Whether a transaction that is remembered as committed at `ts` has written under a hash that
/// `txn` has read, after `txn` began.
pub open spec fn wrote_what_was_read(txn: TxnView, mvcc: MvccView, ts: u64, hash: u32) -> bool {
    &&& mvcc.committed.contains_key(ts)
    &&& txn.read_ts < ts <= mvcc.latest
    &&& txn.read_hashes.contains(hash)
    &&& mvcc.committed[ts].key_hashes.contains(hash)
}

/// Concurrency control with one more commit timestamp taken.
pub open spec fn ticked(mvcc: MvccView) -> MvccView {
    MvccView { latest: (mvcc.latest + 1) as u64, ..mvcc }
}

/// When a commit begins, the next timestamp is taken, and what was committed before the oldest
/// timestamp that can still be read at is forgotten; nothing else is, and no reader changes.
pub proof fn law_commit_begins(mvcc: MvccView, w: u64, ts: u64)
    requires
        mvcc.latest < u64::MAX,
        read_back_to(ticked(mvcc), w),
    ensures
        commit_begun(mvcc).latest == mvcc.latest + 1,
        commit_begun(mvcc).readers == mvcc.readers,
        commit_begun(mvcc).committed.contains_key(ts) <==> mvcc.committed.contains_key(ts) && ts
            >= w,
        commit_begun(mvcc).committed.contains_key(ts) ==> commit_begun(mvcc).committed[ts]
            == mvcc.committed[ts],
{
    law_watermark_is_read_back_to(ticked(mvcc), w);
}

/// Exactly when a commit is refused: the transaction has written something, and a transaction that
/// is still remembered has committed a write, after this one began, under a hash that this one has
/// read. A transaction in progress keeps all of those remembered that committed since it began.
pub proof fn law_refused_exactly(txn: TxnView, mvcc: MvccView, w: u64)
    requires
        mvcc.latest < u64::MAX,
        read_back_to(ticked(mvcc), w),
    ensures
        refused(txn, commit_begun(mvcc)) <==> (exists|hash: u32| txn.write_hashes.contains(hash))
            && exists|ts: u64, hash: u32| #[trigger]
            wrote_what_was_read(txn, mvcc, ts, hash) && ts >= w,
        mvcc.readers.count(txn.read_ts) > 0 ==> (refused(txn, commit_begun(mvcc)) <==> (exists|
            hash: u32,
        | txn.write_hashes.contains(hash)) && exists|ts: u64, hash: u32| #[trigger]
            wrote_what_was_read(txn, mvcc, ts, hash)),
{
    let after = commit_begun(mvcc);
    if refused(txn, after) {
        let (ts, hash) = choose|ts: u64, hash: u32|
            {
                &&& #[trigger] after.committed.contains_key(ts)
                &&& txn.read_ts < ts < after.latest
                &&& #[trigger] txn.read_hashes.contains(hash)
                &&& after.committed[ts].key_hashes.contains(hash)
            };
        law_commit_begins(mvcc, w, ts);
        assert(wrote_what_was_read(txn, mvcc, ts, hash));
    }
    if (exists|hash: u32| txn.write_hashes.contains(hash)) && exists|ts: u64, hash: u32| #[trigger]
        wrote_what_was_read(txn, mvcc, ts, hash) && ts >= w {
        let (ts, hash) = choose|ts: u64, hash: u32| #[trigger]
            wrote_what_was_read(txn, mvcc, ts, hash) && ts >= w;
        law_commit_begins(mvcc, w, ts);
        assert(after.committed.contains_key(ts) && txn.read_hashes.contains(hash));
        assert(conflict(after.committed, txn.read_hashes, txn.read_ts, after.latest));
    }
    if mvcc.readers.count(txn.read_ts) > 0 {
        assert(w <= txn.read_ts);
        if exists|ts: u64, hash: u32| #[trigger] wrote_what_was_read(txn, mvcc, ts, hash) {
            let (ts, hash) = choose|ts: u64, hash: u32| #[trigger]
                wrote_what_was_read(txn, mvcc, ts, hash);
            assert(wrote_what_was_read(txn, mvcc, ts, hash) && ts >= w);
        }
    }
}

/// What is remembered of a commit is exactly what was written, and when it was read and written;
/// the commits remembered before are kept.
pub proof fn law_commit_remembers_its_writes(
    txn: TxnView,
    mvcc: MvccView,
    commit_ts: u64,
    ts: u64,
)
    ensures
        commit_recorded(txn, mvcc, commit_ts).committed.contains_key(ts) <==> ts == commit_ts
            || mvcc.committed.contains_key(ts),
        commit_recorded(txn, mvcc, commit_ts).committed[commit_ts].key_hashes == txn.write_hashes,
        commit_recorded(txn, mvcc, commit_ts).committed[commit_ts].read_ts == txn.read_ts,
        commit_recorded(txn, mvcc, commit_ts).committed[commit_ts].commit_ts == commit_ts,
        ts != commit_ts && mvcc.committed.contains_key(ts) ==> commit_recorded(
            txn,
            mvcc,
            commit_ts,
        ).committed[ts] == mvcc.committed[ts],
        commit_recorded(txn, mvcc, commit_ts).latest == mvcc.latest,
        commit_recorded(txn, mvcc, commit_ts).readers == mvcc.readers,
{
}

/// Whether a batch lists writes: in order of their keys, each key once with its value, and none
/// left out.
pub open spec fn batch_lists(batch: Seq<Item>, writes: Map<Seq<u8>, Seq<u8>>) -> bool {
    &&& sorted(batch)
    &&& forall|i: int|
        0 <= i < batch.len() ==> {
            &&& writes.contains_key((#[trigger] batch[i]).key.user)
            &&& writes[batch[i].key.user] == batch[i].value
            &&& batch[i].key.ts == TS_DEFAULT
        }
    &&& forall|key: Seq<u8>| #[trigger]
        writes.contains_key(key) ==> exists|i: int|
            0 <= i < batch.len() && (#[trigger] batch[i]).key.user == key
}

/// Whether one batch with all writes of a transaction was handed over, after the timestamp
/// `latest`, and answered with `answer`, and nothing else was asked.
pub open spec fn asked_to_write<S: TxnStorage>(
    txn: TxnView,
    storage: LoggedStorage<S>,
    storage_after: LoggedStorage<S>,
    latest: int,
    batch: Seq<Item>,
    answer: Result<u64, S::Error>,
) -> bool {
    &&& batch_lists(batch, txn.writes)
    &&& storage_after.log().len() == storage.log().len() + 1
    &&& forall|i: int|
        0 <= i < storage.log().len() ==> #[trigger] storage_after.log()[i] == storage.log()[i]
    &&& storage_after.log()[storage.log().len() as int] matches StorageAction::Wrote(l, b, a) && {
        &&& l == latest
        &&& b == batch
        &&& a == answer
    }
}

/// Whether all writes of a transaction were handed over, in one batch, and answered with `answer`.
pub open spec fn writes_handed_over<S: TxnStorage>(
    txn: TxnView,
    storage: LoggedStorage<S>,
    storage_after: LoggedStorage<S>,
    latest: int,
    answer: Result<u64, S::Error>,
) -> bool {
    exists|batch: Seq<Item>| #[trigger]
        asked_to_write(txn, storage, storage_after, latest, batch, answer)
}

/// A commit, told step by step. It is refused exactly if the transaction has written something and
/// another has since committed a write under what it has read; then nothing is asked of the storage
/// and the transaction stays as it is. Otherwise all its writes are handed over, once. If that
/// fails the transaction stays as it is too. If it succeeds at some timestamp, that one is the
/// newest, the transaction is closed, and what it wrote is remembered under it. Either way what no
/// reader needs is forgotten, and the readers stay.
pub proof fn law_commit_step_by_step<S: TxnStorage>(
    txn: TxnView,
    after: TxnView,
    mvcc: MvccView,
    mvcc_after: MvccView,
    storage: LoggedStorage<S>,
    storage_after: LoggedStorage<S>,
    r: Result<(), TxnError<S::Error>>,
    w: u64,
    ts: u64,
)
    requires
        mvcc.latest < u64::MAX,
        read_back_to(ticked(mvcc), w),
        commit_outcome(txn, after, mvcc, mvcc_after, storage, storage_after, r),
    ensures
        r == Err::<(), TxnError<S::Error>>(TxnError::NotSerializable) <==> (exists|hash: u32|
            txn.write_hashes.contains(hash)) && exists|t: u64, hash: u32| #[trigger]
            wrote_what_was_read(txn, mvcc, t, hash) && t >= w,
        mvcc_after.readers == mvcc.readers,
        after.read_ts == txn.read_ts,
        after.writes == txn.writes,
        after.read_hashes == txn.read_hashes,
        after.write_hashes == txn.write_hashes,
        after.committed == (r is Ok || txn.committed),
        !(r matches Err(TxnError::KeyNotHashable)),
        r matches Err(TxnError::NotSerializable) ==> storage_after.log() == storage.log(),
        r matches Err(TxnError::Storage(e)) ==> writes_handed_over(
            txn,
            storage,
            storage_after,
            mvcc.latest + 1,
            Err::<u64, S::Error>(e),
        ),
        r is Err ==> {
            &&& mvcc_after.latest == mvcc.latest + 1
            &&& mvcc_after.committed.contains_key(ts) <==> mvcc.committed.contains_key(ts) && ts
                >= w
            &&& mvcc_after.committed.contains_key(ts) ==> mvcc_after.committed[ts]
                == mvcc.committed[ts]
        },
        r is Ok ==> writes_handed_over(
            txn,
            storage,
            storage_after,
            mvcc.latest + 1,
            Ok::<u64, S::Error>(mvcc_after.latest),
        ),
        r is Ok ==> {
            &&& mvcc_after.committed.contains_key(ts) <==> ts == mvcc_after.latest || (
            mvcc.committed.contains_key(ts) && ts >= w)
            &&& ts != mvcc_after.latest && mvcc_after.committed.contains_key(ts)
                ==> mvcc_after.committed[ts] == mvcc.committed[ts]
            &&& mvcc_after.committed[mvcc_after.latest].key_hashes == txn.write_hashes
            &&& mvcc_after.committed[mvcc_after.latest].read_ts == txn.read_ts
            &&& mvcc_after.committed[mvcc_after.latest].commit_ts == mvcc_after.latest
        },
{
    law_refused_exactly(txn, mvcc, w);
    law_commit_begins(mvcc, w, ts);
    let begun_view = commit_begun(mvcc);
    if !refused(txn, begun_view) {
        let (batch, answer) = choose|batch: Seq<Item>, answer: Result<u64, S::Error>|
            {
                &&& #[trigger] handed_over(
                    storage,
                    storage_after,
                    begun_view.latest,
                    batch,
                    answer,
                )
                &&& lists_range(batch, txn.writes, KeyBound::Unbounded, KeyBound::Unbounded)
                &&& handover_outcome(txn, after, begun_view, mvcc_after, answer, r)
            };
        let action = StorageAction::Wrote(begun_view.latest, batch, answer);
        assert(storage_after.log() == storage.log() + seq![action]);
        assert(batch_lists(batch, txn.writes)) by {
            assert forall|key: Seq<u8>| #[trigger] txn.writes.contains_key(key) implies exists|
                i: int,
            | 0 <= i < batch.len() && (#[trigger] batch[i]).key.user == key by {
                assert(txn.writes.contains_key(key) && KeyBound::Unbounded.above(key)
                    && KeyBound::Unbounded.below(key));
            }
        }
        assert(asked_to_write(txn, storage, storage_after, mvcc.latest + 1, batch, answer));
        assert(writes_handed_over(txn, storage, storage_after, mvcc.latest + 1, answer));
        if let Ok(commit_ts) = answer {
            law_commit_remembers_its_writes(
                txn,
                MvccView { latest: commit_ts, ..begun_view },
                commit_ts,
                ts,
            );
        }
    }
}

/// Of two transactions in progress, where nothing else has been committed since the second began:
/// once the first has committed, the second is refused exactly if it has written something and some
/// hash is among what it has read and among what the first has written. What the first has merely
/// read does not count, nor does what the second has merely written.
pub proof fn law_second_commit<S: TxnStorage>(
    first: TxnView,
    first_after: TxnView,
    second: TxnView,
    second_after: TxnView,
    mvcc: MvccView,
    mvcc_between: MvccView,
    mvcc_after: MvccView,
    storage: LoggedStorage<S>,
    storage_between: LoggedStorage<S>,
    storage_after: LoggedStorage<S>,
    r: Result<(), TxnError<S::Error>>,
)
    requires
        mvcc.latest < u64::MAX,
        mvcc.readers.count(second.read_ts) > 0,
        forall|ts: u64| #[trigger] mvcc.committed.contains_key(ts) ==> ts <= second.read_ts,
        commit_outcome(
            first,
            first_after,
            mvcc,
            mvcc_between,
            storage,
            storage_between,
            Ok(()),
        ),
        second.read_ts < mvcc_between.latest < u64::MAX,
        commit_outcome(
            second,
            second_after,
            mvcc_between,
            mvcc_after,
            storage_between,
            storage_after,
            r,
        ),
    ensures
        r == Err::<(), TxnError<S::Error>>(TxnError::NotSerializable) <==> (exists|hash: u32|
            second.write_hashes.contains(hash)) && exists|hash: u32| #[trigger]
            second.read_hashes.contains(hash) && first.write_hashes.contains(hash),
{
    let w = ticked(mvcc).watermark();
    let v = ticked(mvcc_between).watermark();
    let commit_ts = mvcc_between.latest;
    law_watermark_is_read_back_to(ticked(mvcc), w);
    law_watermark_is_read_back_to(ticked(mvcc_between), v);
    let any: u64 = arbitrary();
    law_commit_step_by_step(
        first,
        first_after,
        mvcc,
        mvcc_between,
        storage,
        storage_between,
        Ok(()),
        w,
        any,
    );
    law_commit_step_by_step(
        second,
        second_after,
        mvcc_between,
        mvcc_after,
        storage_between,
        storage_after,
        r,
        v,
        any,
    );
    law_refused_exactly(second, mvcc_between, v);
    assert forall|ts: u64, hash: u32| #[trigger] wrote_what_was_read(
        second,
        mvcc_between,
        ts,
        hash,
    ) implies second.read_hashes.contains(hash) && first.write_hashes.contains(hash) by {
        law_commit_step_by_step(
            first,
            first_after,
            mvcc,
            mvcc_between,
            storage,
            storage_between,
            Ok(()),
            w,
            ts,
        );
    }
    if exists|hash: u32| #[trigger]
        second.read_hashes.contains(hash) && first.write_hashes.contains(hash) {
        let hash = choose|hash: u32| #[trigger]
            second.read_hashes.contains(hash) && first.write_hashes.contains(hash);
        law_commit_step_by_step(
            first,
            first_after,
            mvcc,
            mvcc_between,
            storage,
            storage_between,
            Ok(()),
            w,
            commit_ts,
        );
        assert(wrote_what_was_read(second, mvcc_between, commit_ts, hash));
        assert(v <= second.read_ts);
    }
}

/// Reads are never forgotten: a transaction that has read a key, or seen it in a scan, and whatever
/// it does afterwards, is refused once it has written something and another has committed a write
/// under that key, as long as it is in progress.
pub proof fn law_once_read_always_refused<S: TxnStorage>(
    start: TxnView,
    steps: Seq<TxnStep>,
    read_at: int,
    key: Seq<u8>,
    wrote_at: int,
    other: TxnView,
    mvcc: MvccView,
    other_ts: u64,
    after: TxnView,
    mvcc_after: MvccView,
    storage: LoggedStorage<S>,
    storage_after: LoggedStorage<S>,
    r: Result<(), TxnError<S::Error>>,
)
    requires
        0 <= read_at < steps.len(),
        steps[read_at].reads(farm_hash32(key)),
        0 <= wrote_at < steps.len(),
        steps[wrote_at] is Wrote || steps[wrote_at] is Deleted,
        other.write_hashes.contains(farm_hash32(key)),
        mvcc.latest < u64::MAX,
        mvcc.readers.count(start.read_ts) > 0,
        start.read_ts < other_ts <= mvcc.latest,
        commit_outcome(
            after_steps(start, steps),
            after,
            commit_recorded(other, mvcc, other_ts),
            mvcc_after,
            storage,
            storage_after,
            r,
        ),
    ensures
        r == Err::<(), TxnError<S::Error>>(TxnError::NotSerializable),
        storage_after.log() == storage.log(),
{
    let txn = after_steps(start, steps);
    let seen = commit_recorded(other, mvcc, other_ts);
    let hash = farm_hash32(key);
    let written = match steps[wrote_at] {
        TxnStep::Wrote(k, _value) => k,
        TxnStep::Deleted(k) => k,
        _ => Seq::empty(),
    };
    law_history(start, steps, hash, key);
    law_history(start, steps, farm_hash32(written), key);
    assert(some_read(steps, hash));
    assert(steps[wrote_at].writes_hash(farm_hash32(written)));
    assert(some_write(steps, farm_hash32(written)));
    law_commit_remembers_its_writes(other, mvcc, other_ts, other_ts);
    let w = ticked(seen).watermark();
    law_watermark_is_read_back_to(ticked(seen), w);
    law_refused_exactly(txn, seen, w);
    assert(wrote_what_was_read(txn, seen, other_ts, hash));
    assert(txn.write_hashes.contains(farm_hash32(written)));
    law_commit_step_by_step(
        txn,
        after,
        seen,
        mvcc_after,
        storage,
        storage_after,
        r,
        w,
        other_ts,
    );
}

/// Whether a transaction that committed at `ts`, after `read_ts` and before `commit_ts`, wrote
/// under `hash`, which is among those that were read.
pub open spec fn clashes(
    committed: Map<u64, CommittedView>,
    read_hashes: Set<u32>,
    read_ts: u64,
    commit_ts: u64,
    ts: u64,
    hash: u32,
) -> bool {
    &&& committed.contains_key(ts)
    &&& read_ts < ts
    &&& ts < commit_ts
    &&& read_hashes.contains(hash)
    &&& committed[ts].key_hashes.contains(hash)
}

/// There is a conflict exactly if some commit in between clashes with what was read.
pub proof fn law_conflict_exactly(
    committed: Map<u64, CommittedView>,
    read_hashes: Set<u32>,
    read_ts: u64,
    commit_ts: u64,
)
    ensures
        conflict(committed, read_hashes, read_ts, commit_ts) <==> exists|ts: u64, hash: u32|
            #[trigger] clashes(committed, read_hashes, read_ts, commit_ts, ts, hash),
{
    if conflict(committed, read_hashes, read_ts, commit_ts) {
        let (ts, hash) = choose|ts: u64, hash: u32|
            {
                &&& #[trigger] committed.contains_key(ts)
                &&& read_ts < ts < commit_ts
                &&& #[trigger] read_hashes.contains(hash)
                &&& committed[ts].key_hashes.contains(hash)
            };
        assert(clashes(committed, read_hashes, read_ts, commit_ts, ts, hash));
    }
    if exists|ts: u64, hash: u32| #[trigger]
        clashes(committed, read_hashes, read_ts, commit_ts, ts, hash) {
        let (ts, hash) = choose|ts: u64, hash: u32| #[trigger]
            clashes(committed, read_hashes, read_ts, commit_ts, ts, hash);
        assert(committed.contains_key(ts) && read_hashes.contains(hash));
    }
}

/// What is forgotten is what was committed before the watermark, and nothing else.
pub proof fn law_forgets_what_is_older(
    committed: Map<u64, CommittedView>,
    watermark: u64,
    ts: u64,
)
    ensures
        forget_before(committed, watermark).contains_key(ts) <==> committed.contains_key(ts) && ts
            >= watermark,
        forget_before(committed, watermark).contains_key(ts) ==> forget_before(
            committed,
            watermark,
        )[ts] == committed[ts],
{
}

/// A value that is read is told as it is.
pub proof fn law_values_are_told_as_they_are(value: Option<Vec<u8>>)
    ensures
        value_view(value) is Some <==> value is Some,
        value matches Some(v) ==> value_view(value) == Some(v@),
{
}

} // verus!
