//! What a scan sees and asks, told key by key, and what its iterator takes in later.
#[allow(unused_imports)]
use crate::iterators::{positioned, two_merge, whole, Item};
use crate::iterators::Run;
#[allow(unused_imports)]
use crate::key::{lemma_key_total, lemma_lex_irreflexive, lex_lt, TS_DEFAULT};
#[allow(unused_imports)]
use crate::key_hash::{farm_hash32, hashable};
#[allow(unused_imports)]
use crate::lsm_storage::{asked, record_items, StorageAction, WriteBatchRecord};
use crate::lsm_storage::{LoggedStorage, StoredRange, TxnStorage};
#[allow(unused_imports)]
use crate::mvcc::history_laws::{law_one_step, TxnStep};
#[allow(unused_imports)]
use crate::mvcc::txn::{
    after_scan, asked_scans, caught_up, hashable_len, lemma_until_empty_key, live, merged_with,
    scan_answered, scan_outcome, scan_run, scans, until_empty_key, yields, TxnError, TxnIterator,
    TxnView,
};
#[allow(unused_imports)]
use crate::mvcc::txn_laws::{lemma_live, unversioned};
#[allow(unused_imports)]
use crate::runs::{
    has_key, law_merge_stops_where_reading_stops, law_two_merge_holds, law_two_merge_loses_nothing,
    law_two_merge_sorted, sorted,
};
#[allow(unused_imports)]
use crate::skip_map::{
    lemma_listing_after_unique, lemma_listing_unique, listing, lists_after, lists_range, pair_items,
    BoundView, KeyLimit,
};
use crate::skip_map::KeyBound;
use vstd::prelude::*;

verus! {

/// Whether a key lies within a range.
pub open spec fn in_range(lower: KeyBound, upper: KeyBound, key: Seq<u8>) -> bool {
    lower.above(key) && upper.below(key)
}

/// Whether a transaction's own write under a key shows in a scan of a range: it lies in the range,
/// and the transaction has not written under the empty key there, which hides all its writes.
pub open spec fn own_shows(
    writes: Map<Seq<u8>, Seq<u8>>,
    lower: KeyBound,
    upper: KeyBound,
    key: Seq<u8>,
) -> bool {
    &&& writes.contains_key(key)
    &&& in_range(lower, upper, key)
    &&& !(writes.contains_key(Seq::empty()) && in_range(lower, upper, Seq::empty()))
}

/// Whether a transaction sees the pair `x` in a scan, where `stored` is what can be read of the
/// storage underneath: its own write if one shows under the key, and otherwise what is stored. What
/// is deleted is not seen.
pub open spec fn sees(
    writes: Map<Seq<u8>, Seq<u8>>,
    lower: KeyBound,
    upper: KeyBound,
    stored: Seq<Item>,
    x: Item,
) -> bool {
    &&& x.key.ts == TS_DEFAULT
    &&& x.value.len() > 0
    &&& if own_shows(writes, lower, upper, x.key.user) {
        x.value == writes[x.key.user]
    } else {
        stored.contains(x)
    }
}

/// Whether what a map holds within a range can be listed in order, as it can where it is finite.
pub open spec fn can_be_listed(
    writes: Map<Seq<u8>, Seq<u8>>,
    lower: KeyBound,
    upper: KeyBound,
) -> bool {
    exists|run: Seq<Item>| lists_range(run, writes, lower, upper)
}

/// What is live of a run is what does not mark deletions.
proof fn lemma_live_holds(run: Seq<Item>, x: Item)
    ensures
        live(run).contains(x) <==> run.contains(x) && x.value.len() > 0,
    decreases run.len(),
{
    if run.len() > 0 {
        let tail = run.skip(1);
        let all = live(run);
        let rest = live(tail);
        let d: int = if run[0].value.len() > 0 {
            1
        } else {
            0
        };
        lemma_live_holds(tail, x);
        if all.contains(x) {
            let i = choose|i: int| 0 <= i < all.len() && all[i] == x;
            if i < d {
                assert(run[0] == x);
            } else {
                assert(rest[i - d] == x);
                let k = choose|k: int| 0 <= k < tail.len() && tail[k] == x;
                assert(run[k + 1] == x);
            }
        }
        if run.contains(x) && x.value.len() > 0 {
            let k = choose|k: int| 0 <= k < run.len() && run[k] == x;
            if k == 0 {
                assert(all[0] == x);
            } else {
                assert(tail[k - 1] == x);
                let i = choose|i: int| 0 <= i < rest.len() && rest[i] == x;
                assert(all[i + d] == x);
            }
        }
    }
}

/// The own writes that a scan starts with are those that show.
proof fn lemma_own_shows(
    writes: Map<Seq<u8>, Seq<u8>>,
    lower: KeyBound,
    upper: KeyBound,
    x: Item,
)
    requires
        can_be_listed(writes, lower, upper),
    ensures
        ({
            let own = until_empty_key(listing(writes, lower, upper));
            &&& sorted(own)
            &&& own.contains(x) <==> x.key.ts == TS_DEFAULT && own_shows(
                writes,
                lower,
                upper,
                x.key.user,
            ) && x.value == writes[x.key.user]
            &&& x.key.ts == TS_DEFAULT ==> (has_key(own, x.key) <==> own_shows(
                writes,
                lower,
                upper,
                x.key.user,
            ))
        }),
{
    let local = listing(writes, lower, upper);
    let own = until_empty_key(local);
    let empty: Seq<u8> = Seq::empty();
    let listed = choose|run: Seq<Item>| lists_range(run, writes, lower, upper);
    lemma_listing_unique(listed, writes, lower, upper);
    if writes.contains_key(empty) && in_range(lower, upper, empty) {
        let i = choose|i: int| 0 <= i < local.len() && (#[trigger] local[i]).key.user == empty;
        if i > 0 {
            assert(local[0].key.lt(local[i].key));
        }
        assert(local[0].key.user.len() == 0);
        assert(own =~= Seq::<Item>::empty());
    } else {
        assert forall|i: int| 0 <= i < local.len() implies (#[trigger] local[i]).key.user.len()
            > 0 by {
            if local[i].key.user.len() == 0 {
                assert(local[i].key.user =~= empty);
            }
        }
        lemma_until_empty_key(local);
        if own.contains(x) {
            let i = choose|i: int| 0 <= i < local.len() && local[i] == x;
            assert(writes.contains_key(local[i].key.user));
        }
        if own_shows(writes, lower, upper, x.key.user) {
            let i = choose|i: int|
                0 <= i < local.len() && (#[trigger] local[i]).key.user == x.key.user;
            assert(local[i].key.ts == TS_DEFAULT);
            assert(x.key.ts == TS_DEFAULT ==> local[i].key == x.key);
            if x.key.ts == TS_DEFAULT && x.value == writes[x.key.user] {
                assert(local[i] == x);
            }
        }
        if has_key(own, x.key) {
            let i = choose|i: int| 0 <= i < own.len() && (#[trigger] own[i]).key == x.key;
            assert(writes.contains_key(local[i].key.user));
        }
    }
}

/// A scan can be read as far as the storage underneath: it ends with the error that the storage
/// ends with, and without one where the storage has none.
pub proof fn law_scan_ends_as_the_storage<E>(
    writes: Map<Seq<u8>, Seq<u8>>,
    lower: KeyBound,
    upper: KeyBound,
    stored: Run<E>,
)
    ensures
        scan_run(writes, lower, upper, stored).end == stored.end,
        stored.items.len() == 0 && stored.end is Some ==> scan_run(
            writes,
            lower,
            upper,
            stored,
        ).items.len() == 0,
{
    if positioned(stored) {
        let own = until_empty_key(listing(writes, lower, upper));
        law_merge_stops_where_reading_stops(whole(own), stored);
    }
}

/// Exactly what a scan sees, in order: the transaction's own writes within the range, and what is
/// stored under other keys, without what is deleted. Where the storage cannot be read on, the scan
/// reaches as far as the last pair that is stored.
pub proof fn law_scan_sees_exactly<E>(
    writes: Map<Seq<u8>, Seq<u8>>,
    lower: KeyBound,
    upper: KeyBound,
    stored: Run<E>,
    x: Item,
)
    requires
        can_be_listed(writes, lower, upper),
        stored.items.len() == 0 ==> stored.end is None,
        sorted(stored.items),
        unversioned(stored.items),
    ensures
        scan_run(writes, lower, upper, stored).items.contains(x) <==> {
            &&& sees(writes, lower, upper, stored.items, x)
            &&& stored.end is Some ==> !lex_lt(stored.items.last().key.user, x.key.user)
        },
        sorted(scan_run(writes, lower, upper, stored).items),
{
    let own = until_empty_key(listing(writes, lower, upper));
    let all = two_merge(own, stored.items);
    let m = merged_with(own, stored);
    lemma_own_shows(writes, lower, upper, x);
    law_two_merge_holds(own, stored.items, x);
    law_two_merge_sorted(own, stored.items);
    law_merge_stops_where_reading_stops(whole(own), stored);
    lemma_live_holds(m.items, x);
    let n = m.items.len() as int;
    assert(sorted(m.items)) by {
        assert forall|i: int, j: int|
            #![trigger m.items[i], m.items[j]]
            0 <= i < j < m.items.len() implies m.items[i].key.lt(m.items[j].key) by {
            assert(m.items[i] == all[i] && m.items[j] == all[j]);
        }
    }
    lemma_live(m.items);
    if stored.items.contains(x) {
        let k = choose|k: int| 0 <= k < stored.items.len() && stored.items[k] == x;
        assert(stored.items[k].key.ts == TS_DEFAULT);
    }
    if stored.end is Some {
        let last = stored.items.last();
        assert(m.items.last().key == last.key);
        assert(stored.items[stored.items.len() - 1].key.ts == TS_DEFAULT);
        if m.items.contains(x) {
            let i = choose|i: int| 0 <= i < n && m.items[i] == x;
            assert(all[i] == x);
            lemma_key_total(last.key, x.key);
            lemma_lex_irreflexive(x.key.user);
            if i < n - 1 {
                assert(m.items[i].key.lt(m.items[n - 1].key));
                lemma_key_total(x.key, last.key);
            }
        }
        if all.contains(x) && x.key.ts == TS_DEFAULT && !lex_lt(last.key.user, x.key.user) {
            let i = choose|i: int| 0 <= i < all.len() && all[i] == x;
            if i >= n {
                assert(m.items[n - 1] == all[n - 1]);
                assert(all[n - 1].key.lt(all[i].key));
            }
            assert(m.items[i] == x);
        }
    }
}

/// A scan over storage that can be read to its end loses nothing and invents nothing, whatever the
/// order of what is stored: it yields every own write that shows, and everything stored under other
/// keys, but what is deleted.
pub proof fn law_scan_loses_nothing<E>(
    writes: Map<Seq<u8>, Seq<u8>>,
    lower: KeyBound,
    upper: KeyBound,
    stored: Run<E>,
    x: Item,
)
    requires
        can_be_listed(writes, lower, upper),
        stored.end is None,
    ensures
        x.key.ts == TS_DEFAULT && x.value.len() > 0 && own_shows(writes, lower, upper, x.key.user)
            && x.value == writes[x.key.user] ==> scan_run(
            writes,
            lower,
            upper,
            stored,
        ).items.contains(x),
        x.key.ts == TS_DEFAULT && x.value.len() > 0 && stored.items.contains(x) && !own_shows(
            writes,
            lower,
            upper,
            x.key.user,
        ) ==> scan_run(writes, lower, upper, stored).items.contains(x),
        scan_run(writes, lower, upper, stored).items.contains(x) ==> x.value.len() > 0 && (
        stored.items.contains(x) || (own_shows(writes, lower, upper, x.key.user) && x.value
            == writes[x.key.user])),
{
    let own = until_empty_key(listing(writes, lower, upper));
    lemma_own_shows(writes, lower, upper, x);
    law_merge_stops_where_reading_stops(whole(own), stored);
    law_two_merge_loses_nothing(own, stored.items, x);
    lemma_live_holds(merged_with(own, stored).items, x);
}

/// How many keys can be hashed before the first that cannot.
proof fn lemma_hashable_up_to(run: Seq<Item>)
    ensures
        hashable_len(run) <= run.len(),
        forall|i: int| 0 <= i < hashable_len(run) ==> hashable((#[trigger] run[i]).key.user),
        hashable_len(run) < run.len() ==> !hashable(run[hashable_len(run) as int].key.user),
    decreases run.len(),
{
    if run.len() > 0 && hashable(run[0].key.user) {
        let tail = run.skip(1);
        lemma_hashable_up_to(tail);
        assert forall|i: int| 0 <= i < hashable_len(run) implies hashable(
            (#[trigger] run[i]).key.user,
        ) by {
            if i > 0 {
                assert(tail[i - 1] == run[i]);
            }
        }
        if hashable_len(run) < run.len() {
            assert(tail[hashable_len(tail) as int] == run[hashable_len(run) as int]);
        }
    }
}

/// Whether a transaction has read the first `n` pairs of a run, has forgotten nothing that it had
/// read, and is otherwise the same; and those are all up to the first whose key cannot be hashed.
pub open spec fn read_up_to(before: TxnView, after: TxnView, run: Seq<Item>, n: int) -> bool {
    &&& 0 <= n <= run.len()
    &&& forall|i: int| 0 <= i < n ==> hashable((#[trigger] run[i]).key.user)
    &&& n < run.len() ==> !hashable(run[n].key.user)
    &&& forall|hash: u32| #[trigger]
        after.read_hashes.contains(hash) <==> before.read_hashes.contains(hash) || exists|i: int|
            0 <= i < n && farm_hash32((#[trigger] run[i]).key.user) == hash
    &&& after.read_ts == before.read_ts
    &&& after.writes == before.writes
    &&& after.write_hashes == before.write_hashes
    &&& after.committed == before.committed
}

/// Whether the storage was asked for one range, at one timestamp, once for each of `answers`.
pub open spec fn range_log<E>(
    log: Seq<StorageAction<E>>,
    log_after: Seq<StorageAction<E>>,
    lower: BoundView,
    upper: BoundView,
    read_ts: u64,
    answers: Seq<Result<StoredRange<E>, E>>,
) -> bool {
    &&& log_after.len() == log.len() + answers.len()
    &&& forall|i: int| 0 <= i < log.len() ==> #[trigger] log_after[i] == log[i]
    &&& forall|i: int|
        0 <= i < answers.len() ==> log_after[log.len() + i] == StorageAction::Scanned(
            lower,
            upper,
            read_ts,
            #[trigger] answers[i],
        )
}

/// What a scan returns for what the storage answers the second time.
pub open spec fn second_time<E>(
    txn: TxnView,
    lower: KeyBound,
    upper: KeyBound,
    answer: Result<StoredRange<E>, E>,
    r: Result<TxnIterator<E>, TxnError<E>>,
) -> bool {
    match answer {
        Err(e) => r matches Err(TxnError::Storage(told)) && told == e,
        Ok(stored) => {
            let run = scan_run(txn.writes, lower, upper, stored.run());
            if run.items.len() == 0 && stored.failure is Some {
                r matches Err(TxnError::Storage(told)) && told == stored.failure->Some_0
            } else {
                r matches Ok(iter) && iter.wf() && iter.run_in(txn.writes) == run
            }
        },
    }
}

/// What a scan does for what the storage answers, told step by step.
pub open spec fn scan_told<E>(
    before: TxnView,
    after: TxnView,
    lower: KeyBound,
    upper: KeyBound,
    answers: Seq<Result<StoredRange<E>, E>>,
    r: Result<TxnIterator<E>, TxnError<E>>,
    n: int,
) -> bool {
    &&& 1 <= answers.len() <= 2
    &&& match answers[0] {
        Err(e) => {
            &&& answers.len() == 1
            &&& after == before
            &&& r matches Err(TxnError::Storage(told)) && told == e
        },
        Ok(stored) => {
            let seen = scan_run(before.writes, lower, upper, stored.run()).items;
            &&& lists_range(listing(before.writes, lower, upper), before.writes, lower, upper)
            &&& read_up_to(before, after, seen, n)
            &&& answers.len() == 2 <==> n == seen.len() && stored.failure is None
            &&& n < seen.len() ==> (r matches Err(TxnError::KeyNotHashable))
            &&& n == seen.len() && stored.failure is Some ==> (r matches Err(
                TxnError::Storage(told),
            ) && told == stored.failure->Some_0)
            &&& answers.len() == 2 ==> second_time(before, lower, upper, answers[1], r)
        },
    }
}

/// A scan, told step by step. It asks the storage for the range at the transaction's timestamp.
/// Every key that is then seen counts as read, up to the first that cannot be hashed, and up to
/// where the storage cannot be read on; either ends the scan with that error. Otherwise it asks
/// once more, and what is seen then is what its iterator yields.
pub proof fn law_scan_step_by_step<S: TxnStorage>(
    before: TxnView,
    after: TxnView,
    lower: KeyBound,
    upper: KeyBound,
    storage: LoggedStorage<S>,
    storage_after: LoggedStorage<S>,
    r: Result<TxnIterator<S::Error>, TxnError<S::Error>>,
)
    requires
        scan_outcome(before, after, lower, upper, storage, storage_after, r),
    ensures
        exists|answers: Seq<Result<StoredRange<S::Error>, S::Error>>, n: int|
            {
                &&& range_log(
                    storage.log(),
                    storage_after.log(),
                    lower@,
                    upper@,
                    before.read_ts,
                    answers,
                )
                &&& #[trigger] scan_told(before, after, lower, upper, answers, r, n)
            },
{
    let answers = choose|answers: Seq<Result<StoredRange<S::Error>, S::Error>>|
        {
            &&& #[trigger] asked_scans(
                storage,
                storage_after,
                lower,
                upper,
                before.read_ts,
                answers,
            )
            &&& scan_answered(before, after, lower, upper, answers, r)
        };
    let actions = scans(lower, upper, before.read_ts, answers);
    assert(storage_after.log() == storage.log() + actions);
    assert forall|i: int| 0 <= i < answers.len() implies storage_after.log()[storage.log().len()
        + i] == StorageAction::Scanned(lower@, upper@, before.read_ts, #[trigger] answers[i]) by {
        assert(actions[i] == StorageAction::Scanned(lower@, upper@, before.read_ts, answers[i]));
    }
    assert(range_log(
        storage.log(),
        storage_after.log(),
        lower@,
        upper@,
        before.read_ts,
        answers,
    ));
    match answers[0] {
        Err(_e) => {
            assert(scan_told(before, after, lower, upper, answers, r, 0));
        },
        Ok(stored) => {
            let run = scan_run(before.writes, lower, upper, stored.run());
            let n = hashable_len(run.items) as int;
            law_scan_ends_as_the_storage(before.writes, lower, upper, stored.run());
            lemma_hashable_up_to(run.items);
            let first = run.items.take(n);
            assert(n == run.items.len() ==> first =~= run.items);
            assert(after == after_scan(before, first));
            lemma_read_up_to(before, run.items, n);
            assert(read_up_to(before, after, run.items, n));
            if answers.len() == 2 {
                if let Ok(second) = answers[1] {
                    law_scan_ends_as_the_storage(before.writes, lower, upper, second.run());
                }
                assert(second_time(before, lower, upper, answers[1], r));
            }
            assert(scan_told(before, after, lower, upper, answers, r, n));
        },
    }
}

/// Reading the first pairs of a run reads their keys.
proof fn lemma_read_up_to(before: TxnView, run: Seq<Item>, n: int)
    requires
        0 <= n <= run.len(),
        forall|i: int| 0 <= i < n ==> hashable((#[trigger] run[i]).key.user),
        n < run.len() ==> !hashable(run[n].key.user),
    ensures
        read_up_to(before, after_scan(before, run.take(n)), run, n),
{
    let first = run.take(n);
    let after = after_scan(before, first);
    let nowhere: Seq<u8> = Seq::empty();
    assert forall|hash: u32| #[trigger] after.read_hashes.contains(hash)
        <==> before.read_hashes.contains(hash) || exists|i: int|
        0 <= i < n && farm_hash32((#[trigger] run[i]).key.user) == hash by {
        law_one_step(before, TxnStep::Saw(first), hash, nowhere);
        if TxnStep::Saw(first).reads(hash) {
            let i = choose|i: int|
                0 <= i < first.len() && farm_hash32((#[trigger] first[i]).key.user) == hash;
            assert(farm_hash32(run[i].key.user) == hash);
        }
        if exists|i: int| 0 <= i < n && farm_hash32((#[trigger] run[i]).key.user) == hash {
            let i = choose|i: int|
                0 <= i < n && farm_hash32((#[trigger] run[i]).key.user) == hash;
            assert(farm_hash32(first[i].key.user) == hash);
        }
    }
}

/// After a scan that succeeds, every key that it has seen counts as read, and all that counted
/// before still does.
pub proof fn law_scanned_keys_are_read<S: TxnStorage>(
    before: TxnView,
    after: TxnView,
    lower: KeyBound,
    upper: KeyBound,
    storage: LoggedStorage<S>,
    storage_after: LoggedStorage<S>,
    r: Result<TxnIterator<S::Error>, TxnError<S::Error>>,
)
    requires
        scan_outcome(before, after, lower, upper, storage, storage_after, r),
        r is Ok,
    ensures
        before.read_hashes.subset_of(after.read_hashes),
        storage_after.log()[storage.log().len() as int] matches StorageAction::Scanned(
            _lower,
            _upper,
            _ts,
            answer,
        ) && {
            &&& answer matches Ok(stored)
            &&& forall|x: Item| #[trigger]
                scan_run(before.writes, lower, upper, stored.run()).items.contains(x)
                    ==> after.read_hashes.contains(farm_hash32(x.key.user))
        },
{
    law_scan_step_by_step(before, after, lower, upper, storage, storage_after, r);
    let (answers, n) = choose|answers: Seq<Result<StoredRange<S::Error>, S::Error>>, n: int|
        {
            &&& range_log(
                storage.log(),
                storage_after.log(),
                lower@,
                upper@,
                before.read_ts,
                answers,
            )
            &&& #[trigger] scan_told(before, after, lower, upper, answers, r, n)
        };
    let first = answers[0];
    let at = storage.log().len() as int;
    assert(storage_after.log()[at + 0] == StorageAction::Scanned(
        lower@,
        upper@,
        before.read_ts,
        first,
    ));
    let stored = first->Ok_0;
    let seen = scan_run(before.writes, lower, upper, stored.run()).items;
    assert(n == seen.len());
    assert forall|x: Item| #[trigger] seen.contains(x) implies after.read_hashes.contains(
        farm_hash32(x.key.user),
    ) by {
        let i = choose|i: int| 0 <= i < seen.len() && seen[i] == x;
        assert(farm_hash32(seen[i].key.user) == farm_hash32(x.key.user));
    }
}

/// The iterator that a scan returns yields exactly what the transaction sees within the range, in
/// order of the keys, as long as the transaction writes nothing more.
pub proof fn law_iterator_yields_what_is_seen<E>(
    iter: TxnIterator<E>,
    txn: TxnView,
    lower: KeyBound,
    upper: KeyBound,
    stored: StoredRange<E>,
    x: Item,
)
    requires
        yields(iter, txn, lower, upper, stored.run()),
        can_be_listed(txn.writes, lower, upper),
        stored.pairs@.len() == 0 ==> stored.failure is None,
        sorted(stored.run().items),
    ensures
        iter.run_in(txn.writes).items.contains(x) <==> {
            &&& sees(txn.writes, lower, upper, stored.run().items, x)
            &&& stored.failure is Some ==> !lex_lt(
                stored.run().items.last().key.user,
                x.key.user,
            )
        },
        sorted(iter.run_in(txn.writes).items),
        iter.run_in(txn.writes).end == stored.failure,
{
    assert(unversioned(stored.run().items)) by {
        assert forall|i: int| 0 <= i < stored.run().items.len() implies (
        #[trigger] stored.run().items[i]).key.ts == TS_DEFAULT by {}
    }
    law_scan_sees_exactly(txn.writes, lower, upper, stored.run(), x);
    law_scan_ends_as_the_storage(txn.writes, lower, upper, stored.run());
}

/// Whether `rest` tells, in order, all that a map holds behind a key and up to an upper end, and
/// nothing else.
pub open spec fn tells_all_behind(
    rest: Seq<Item>,
    writes: Map<Seq<u8>, Seq<u8>>,
    user: Seq<u8>,
    upper: KeyLimit,
) -> bool {
    &&& sorted(rest)
    &&& forall|i: int|
        0 <= i < rest.len() ==> {
            &&& (#[trigger] rest[i]).key.ts == TS_DEFAULT
            &&& writes.contains_key(rest[i].key.user)
            &&& writes[rest[i].key.user] == rest[i].value
            &&& lex_lt(user, rest[i].key.user)
            &&& upper.below(rest[i].key.user)
        }
    &&& forall|key: Seq<u8>| #[trigger]
        writes.contains_key(key) && lex_lt(user, key) && upper.below(key) ==> exists|i: int|
            0 <= i < rest.len() && (#[trigger] rest[i]).key.user == key
}

/// What an iterator has ahead of its own writes once it has taken in what the transaction has
/// written meanwhile: the write that is next stays as it was, and behind it stands, in order, all
/// that the transaction has written behind it by now within the range, and nothing else.
pub proof fn law_catching_up(own: Seq<Item>, writes: Map<Seq<u8>, Seq<u8>>, upper: KeyLimit)
    requires
        own.len() > 0 ==> exists|rest: Seq<Item>|
            tells_all_behind(rest, writes, own[0].key.user, upper),
    ensures
        own.len() == 0 ==> caught_up(own, writes, upper).len() == 0,
        own.len() > 0 ==> {
            let after = caught_up(own, writes, upper);
            &&& after.len() > 0
            &&& after[0] == own[0]
            &&& tells_all_behind(after.skip(1), writes, own[0].key.user, upper)
        },
{
    if own.len() > 0 {
        let after = caught_up(own, writes, upper);
        let user = own[0].key.user;
        let rest = choose|rest: Seq<Item>| tells_all_behind(rest, writes, user, upper);
        assert(lists_after(rest, writes, user, upper));
        lemma_listing_after_unique(rest, writes, user, upper);
        assert(after.skip(1) =~= rest);
    }
}

/// What an iterator has yet to pass, once its transaction has written more: the own write that is
/// next as it was, behind it what the transaction has written there by now within the range, and
/// under other keys what is stored; and nothing that is deleted.
pub proof fn law_iterator_sees_later_writes<E>(
    iter: TxnIterator<E>,
    writes: Map<Seq<u8>, Seq<u8>>,
    x: Item,
)
    requires
        iter.own().len() > 0 ==> iter.own()[0].key.ts == TS_DEFAULT && exists|rest: Seq<Item>|
            tells_all_behind(rest, writes, iter.own()[0].key.user, iter.limit()),
        iter.stored().end is None,
        sorted(iter.stored().items),
        unversioned(iter.stored().items),
    ensures
        sorted(iter.run_in(writes).items),
        iter.run_in(writes).end is None,
        iter.run_in(writes).items.contains(x) <==> {
            &&& x.key.ts == TS_DEFAULT
            &&& x.value.len() > 0
            &&& if iter.own().len() > 0 && x.key.user == iter.own()[0].key.user {
                x == iter.own()[0]
            } else if iter.own().len() > 0 && writes.contains_key(x.key.user) && lex_lt(
                iter.own()[0].key.user,
                x.key.user,
            ) && iter.limit().below(x.key.user) {
                x.value == writes[x.key.user]
            } else {
                iter.stored().items.contains(x)
            }
        },
{
    let own = iter.own();
    let stored = iter.stored();
    let upper = iter.limit();
    let after = caught_up(own, writes, upper);
    law_catching_up(own, writes, upper);
    if own.len() > 0 {
        let user = own[0].key.user;
        let rest = after.skip(1);
        assert forall|i: int| 0 < i < after.len() implies (#[trigger] after[i]) == rest[i
            - 1] by {}
        assert(sorted(after)) by {
            assert forall|i: int, j: int|
                #![trigger after[i], after[j]]
                0 <= i < j < after.len() implies after[i].key.lt(after[j].key) by {
                assert(after[j] == rest[j - 1]);
                assert(lex_lt(user, rest[j - 1].key.user));
                if i > 0 {
                    assert(after[i] == rest[i - 1]);
                }
            }
        }
        lemma_lex_irreflexive(user);
        let key = x.key.user;
        if writes.contains_key(key) && lex_lt(user, key) && upper.below(key) {
            let i = choose|i: int| 0 <= i < rest.len() && (#[trigger] rest[i]).key.user == key;
            assert(after[i + 1] == rest[i]);
            if x.key.ts == TS_DEFAULT {
                assert(after[i + 1].key == x.key);
                if x.value == writes[key] {
                    assert(after[i + 1] == x);
                }
            }
        }
        assert(after[0] == own[0]);
        if x.key.ts == TS_DEFAULT && key == user {
            assert(after[0].key == x.key);
        }
        if after.contains(x) {
            let i = choose|i: int| 0 <= i < after.len() && after[i] == x;
            if i > 0 {
                assert(rest[i - 1] == x);
            }
        }
        if has_key(after, x.key) {
            let i = choose|i: int| 0 <= i < after.len() && (#[trigger] after[i]).key == x.key;
            if i > 0 {
                assert(rest[i - 1].key == x.key);
            }
        }
    }
    if stored.items.contains(x) {
        let k = choose|k: int| 0 <= k < stored.items.len() && stored.items[k] == x;
        assert(stored.items[k].key.ts == TS_DEFAULT);
    }
    law_merge_stops_where_reading_stops(whole(after), stored);
    law_two_merge_holds(after, stored.items, x);
    law_two_merge_sorted(after, stored.items);
    let m = merged_with(after, stored);
    lemma_live_holds(m.items, x);
    lemma_live(m.items);
}

/// Pairs, and the records of a batch, stand for their bytes: neither keys nor values are changed on
/// the way.
pub proof fn law_pairs_stand_for_their_bytes(
    pairs: Seq<(Vec<u8>, Vec<u8>)>,
    records: Seq<WriteBatchRecord>,
    i: int,
)
    ensures
        pair_items(pairs).len() == pairs.len(),
        0 <= i < pairs.len() ==> {
            &&& pair_items(pairs)[i].key.user == pairs[i].0@
            &&& pair_items(pairs)[i].key.ts == TS_DEFAULT
            &&& pair_items(pairs)[i].value == pairs[i].1@
        },
        record_items(records).len() == records.len(),
        0 <= i < records.len() ==> match records[i] {
            WriteBatchRecord::Put(key, value) => {
                &&& record_items(records)[i].key.user == key@
                &&& record_items(records)[i].key.ts == TS_DEFAULT
                &&& record_items(records)[i].value == value@
            },
        },
{
}

/// A range that was stored is read as far as its pairs go, and ends as it says.
pub proof fn law_stored_range_is_read<E>(stored: StoredRange<E>)
    ensures
        stored.run().items.len() == stored.pairs@.len(),
        forall|i: int|
            0 <= i < stored.pairs@.len() ==> (#[trigger] stored.run().items[i]).key.user
                == stored.pairs@[i].0@ && stored.run().items[i].value == stored.pairs@[i].1@,
        stored.run().end == stored.failure,
{
}

/// The ends of a range are told apart: whether they belong to the range, and where they lie.
pub proof fn law_bounds_are_told_apart(bound: KeyBound, key: Seq<u8>)
    ensures
        bound@ == BoundView::Included(key) <==> (bound matches KeyBound::Included(b) && b@ == key),
        bound@ == BoundView::Excluded(key) <==> (bound matches KeyBound::Excluded(b) && b@ == key),
        bound@ == BoundView::Unbounded <==> bound is Unbounded,
{
}

} // verus!
