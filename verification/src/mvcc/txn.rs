//! Transactions: reads at a fixed timestamp, writes that are kept aside until they are committed,
//! and the check that a commit is serializable.
#[allow(unused_imports)]
use crate::iterators::{
    advanced, lemma_merge_step, merge_runs, merge_step, positioned, started, two_merge, whole, Item,
};
use crate::iterators::{Run, StorageIterator, TwoMergeIterator};
#[allow(unused_imports)]
use crate::key::{
    lemma_lex_irreflexive, lemma_lex_transitive, lex_lt, KeyView, StorageKey, TS_DEFAULT,
};
use crate::key_hash::{hash32, is_hashable};
#[allow(unused_imports)]
use crate::key_hash::{farm_hash32, hashable};
use crate::lsm_storage::{LoggedStorage, StoredRange, TxnStorage, WriteBatchRecord};
#[allow(unused_imports)]
use crate::lsm_storage::{asked, lemma_asked_both, record_items, StorageAction};
#[allow(unused_imports)]
use crate::mvcc::{conflict, forget_before, CommittedView, MvccView};
use crate::mvcc::LsmMvccInner;
#[allow(unused_imports)]
use crate::runs::lemma_sorted_tail;
use crate::skip_map::{
    skip_map_entries, skip_map_get, skip_map_insert, skip_map_new, skip_map_range, KeyBound,
    KeyLimit,
};
#[allow(unused_imports)]
use crate::skip_map::{
    lemma_listing_after_unique, lemma_listing_unique, listing, listing_after, lists_after,
    lists_range, pair_items, skip_map_contents,
};
use bytes::Bytes;
use crossbeam_skiplist::SkipMap;
use std::collections::HashSet;
use std::marker::PhantomData;
use vstd::prelude::*;
#[allow(unused_imports)]
use vstd::std_specs::iter::IteratorSpec;

verus! {

broadcast use vstd::std_specs::hash::group_hash_axioms;

/// A run up to the first pair with an empty key.
pub open spec fn until_empty_key(run: Seq<Item>) -> Seq<Item>
    decreases run.len(),
{
    if run.len() == 0 || run[0].key.user.len() == 0 {
        Seq::empty()
    } else {
        seq![run[0]] + until_empty_key(run.skip(1))
    }
}

/// The pairs of a run that do not mark deletions.
pub open spec fn live(run: Seq<Item>) -> Seq<Item>
    decreases run.len(),
{
    if run.len() == 0 {
        Seq::empty()
    } else if run[0].value.len() > 0 {
        seq![run[0]] + live(run.skip(1))
    } else {
        live(run.skip(1))
    }
}

/// A run without the pairs that mark deletions.
pub open spec fn live_run<E>(run: Run<E>) -> Run<E> {
    Run { items: live(run.items), end: run.end }
}

/// A run without a pair under the empty key is not cut short.
pub(crate) proof fn lemma_until_empty_key(run: Seq<Item>)
    requires
        forall|i: int| 0 <= i < run.len() ==> (#[trigger] run[i]).key.user.len() > 0,
    ensures
        until_empty_key(run) == run,
    decreases run.len(),
{
    if run.len() > 0 {
        let tail = run.skip(1);
        assert forall|i: int| 0 <= i < tail.len() implies (#[trigger] tail[i]).key.user.len()
            > 0 by {
            assert(tail[i] == run[i + 1]);
        }
        lemma_until_empty_key(tail);
        assert(until_empty_key(run) =~= run);
    } else {
        assert(until_empty_key(run) =~= run);
    }
}

/// The own writes that lie ahead of an iterator once it has taken in what the transaction has
/// written in the meantime: the current pair stays as it was, and what comes behind it is what the
/// transaction has written there.
pub open spec fn caught_up(
    own: Seq<Item>,
    writes: Map<Seq<u8>, Seq<u8>>,
    upper: KeyLimit,
) -> Seq<Item> {
    if own.len() == 0 {
        own
    } else {
        seq![own[0]] + listing_after(writes, own[0].key.user, upper)
    }
}

/// Own writes over stored pairs.
pub open spec fn merged_with<E>(own: Seq<Item>, stored: Run<E>) -> Run<E> {
    merge_runs(whole(own), stored)
}

/// What lies ahead of a merge of own writes and stored pairs once its first pair is passed.
pub open spec fn own_step<E>(own: Seq<Item>, stored: Run<E>) -> Result<(Seq<Item>, Run<E>), E> {
    match merge_step(whole(own), stored) {
        Ok((rest, stored_rest)) => Ok((rest.items, stored_rest)),
        Err(e) => Err(e),
    }
}

/// What lies ahead of a merge of own writes and stored pairs once the deletions that come next are
/// passed.
pub open spec fn pass_deletions<E>(own: Seq<Item>, stored: Run<E>) -> Result<
    (Seq<Item>, Run<E>),
    E,
>
    decreases own.len() + stored.items.len(),
{
    let merged = merged_with(own, stored);
    if own.len() + stored.items.len() > 0 && merged.items[0].value.len() == 0 {
        match own_step(own, stored) {
            Ok((own_rest, stored_rest)) => pass_deletions(own_rest, stored_rest),
            Err(e) => Err(e),
        }
    } else {
        Ok((own, stored))
    }
}

/// What lies ahead of a merge of own writes and stored pairs once its first pair, and the deletions
/// that come next, are passed.
pub open spec fn moved_on<E>(own: Seq<Item>, stored: Run<E>) -> Result<(Seq<Item>, Run<E>), E> {
    match own_step(own, stored) {
        Ok((own_rest, stored_rest)) => pass_deletions(own_rest, stored_rest),
        Err(e) => Err(e),
    }
}

/// Whether a merge of own writes and stored pairs is at a pair that does not mark a deletion, or at
/// its end.
pub open spec fn at_live_pair<E>(own: Seq<Item>, stored: Run<E>) -> bool {
    merged_with(own, stored).items.len() > 0 ==> merged_with(own, stored).items[0].value.len() > 0
}

/// Passing deletions leads to what is live.
proof fn lemma_pass_deletions<E>(own: Seq<Item>, stored: Run<E>)
    requires
        positioned(stored),
    ensures
        match pass_deletions(own, stored) {
            Ok((o, s)) => {
                &&& positioned(s)
                &&& at_live_pair(o, s)
                &&& started(live_run(merged_with(own, stored))) == Ok::<Run<E>, E>(
                    live_run(merged_with(o, s)),
                )
            },
            Err(e) => started(live_run(merged_with(own, stored))) == Err::<Run<E>, E>(e),
        },
    decreases own.len() + stored.items.len(),
{
    let merged = merged_with(own, stored);
    lemma_merge_step(whole(own), stored);
    if own.len() + stored.items.len() > 0 {
        if merged.items[0].value.len() == 0 {
            assert(live(merged.items) == live(merged.items.skip(1)));
            if let Ok((o, s)) = own_step(own, stored) {
                assert(merge_step(whole(own), stored)->Ok_0.0 =~= whole(o));
                lemma_pass_deletions(o, s);
            }
        } else {
            assert(live(merged.items)[0] == merged.items[0]);
        }
    }
}

/// Moving on leads to what is left of what is live.
proof fn lemma_moved_on<E>(own: Seq<Item>, stored: Run<E>)
    requires
        positioned(stored),
        merged_with(own, stored).items.len() > 0,
        at_live_pair(own, stored),
    ensures
        match moved_on(own, stored) {
            Ok((o, s)) => {
                &&& positioned(s)
                &&& at_live_pair(o, s)
                &&& advanced(live_run(merged_with(own, stored))) == Ok::<Run<E>, E>(
                    live_run(merged_with(o, s)),
                )
            },
            Err(e) => advanced(live_run(merged_with(own, stored))) == Err::<Run<E>, E>(e),
        },
{
    let merged = merged_with(own, stored);
    lemma_merge_step(whole(own), stored);
    assert(live(merged.items).skip(1) =~= live(merged.items.skip(1)));
    if let Ok((o, s)) = own_step(own, stored) {
        assert(merge_step(whole(own), stored)->Ok_0.0 =~= whole(o));
        lemma_pass_deletions(o, s);
    }
}

/// What comes first in a merge of own writes and stored pairs does not depend on the own writes
/// behind the next one.
proof fn lemma_same_head<E>(own: Seq<Item>, other: Seq<Item>, stored: Run<E>)
    requires
        positioned(stored),
        own.len() > 0 <==> other.len() > 0,
        own.len() > 0 ==> own[0] == other[0],
        at_live_pair(own, stored),
    ensures
        at_live_pair(other, stored),
        live_run(merged_with(own, stored)).items.len() > 0 <==> merged_with(
            own,
            stored,
        ).items.len() > 0,
        live_run(merged_with(other, stored)).items.len() > 0 <==> merged_with(
            own,
            stored,
        ).items.len() > 0,
        merged_with(own, stored).items.len() > 0 ==> {
            &&& live_run(merged_with(own, stored)).items[0] == merged_with(own, stored).items[0]
            &&& live_run(merged_with(other, stored)).items[0] == merged_with(own, stored).items[0]
        },
{
    lemma_merge_step(whole(own), stored);
    lemma_merge_step(whole(other), stored);
}

/// Whether the own writes that lie ahead of an iterator are all that the transaction has written
/// behind the next one of them.
pub open spec fn own_listed(
    own: Seq<Item>,
    writes: Map<Seq<u8>, Seq<u8>>,
    upper: KeyLimit,
) -> bool {
    own.len() > 0 ==> lists_after(own.skip(1), writes, own[0].key.user, upper)
}

/// Where all is listed there is nothing to take in.
pub(crate) proof fn lemma_nothing_to_take_in(
    own: Seq<Item>,
    writes: Map<Seq<u8>, Seq<u8>>,
    upper: KeyLimit,
)
    requires
        own_listed(own, writes, upper),
    ensures
        caught_up(own, writes, upper) == own,
{
    if own.len() > 0 {
        lemma_listing_after_unique(own.skip(1), writes, own[0].key.user, upper);
        assert(own =~= seq![own[0]] + own.skip(1));
    }
}

/// Passing one of the own writes keeps the others listed.
proof fn lemma_tail_listed(own: Seq<Item>, writes: Map<Seq<u8>, Seq<u8>>, upper: KeyLimit)
    requires
        own.len() > 0,
        own_listed(own, writes, upper),
    ensures
        own_listed(own.skip(1), writes, upper),
{
    let tail = own.skip(1);
    if tail.len() > 0 {
        let user = tail[0].key.user;
        let rest = tail.skip(1);
        lemma_sorted_tail(tail);
        lemma_lex_irreflexive(user);
        assert forall|i: int| 0 <= i < rest.len() implies lex_lt(
            user,
            (#[trigger] rest[i]).key.user,
        ) && rest[i] == tail[i + 1] by {
            assert(tail[0].key.lt(tail[i + 1].key));
            assert(tail[0].key.ts == tail[i + 1].key.ts);
        }
        assert forall|other: Seq<u8>| #[trigger]
            writes.contains_key(other) && lex_lt(user, other) && upper.below(other) implies exists|
            i: int,
        | 0 <= i < rest.len() && (#[trigger] rest[i]).key.user == other by {
            lemma_lex_transitive(own[0].key.user, user, other);
            let i = choose|i: int| 0 <= i < tail.len() && (#[trigger] tail[i]).key.user == other;
            assert(rest[i - 1].key.user == other);
        }
    }
}

/// Moving a merge keeps the own writes listed.
pub(crate) proof fn lemma_moving_keeps_listed<E>(
    own: Seq<Item>,
    stored: Run<E>,
    writes: Map<Seq<u8>, Seq<u8>>,
    upper: KeyLimit,
)
    requires
        own_listed(own, writes, upper),
    ensures
        own_step(own, stored) matches Ok((o, _s)) ==> own_listed(o, writes, upper),
        pass_deletions(own, stored) matches Ok((o, _s)) ==> own_listed(o, writes, upper),
    decreases own.len() + stored.items.len(),
{
    if own.len() > 0 {
        lemma_tail_listed(own, writes, upper);
    }
    if own.len() + stored.items.len() > 0 {
        if let Ok((o, s)) = own_step(own, stored) {
            lemma_moving_keeps_listed(o, s, writes, upper);
        }
    }
}

/// What a transaction has written within a range is listed.
pub(crate) proof fn lemma_range_listed(
    writes: Map<Seq<u8>, Seq<u8>>,
    lower: KeyBound,
    upper: KeyBound,
    limit: KeyLimit,
)
    requires
        lists_range(listing(writes, lower, upper), writes, lower, upper),
        forall|user: Seq<u8>| #[trigger] limit.below(user) == upper.below(user),
    ensures
        own_listed(until_empty_key(listing(writes, lower, upper)), writes, limit),
{
    let local = listing(writes, lower, upper);
    let own = until_empty_key(local);
    if own.len() > 0 {
        let user = local[0].key.user;
        let rest = local.skip(1);
        lemma_sorted_tail(local);
        lemma_lex_irreflexive(user);
        assert forall|i: int| 0 <= i < local.len() implies (#[trigger] local[i]).key.user.len() > 0
            && (i > 0 ==> lex_lt(user, local[i].key.user)) by {
            if i > 0 {
                assert(local[0].key.lt(local[i].key));
                assert(local[0].key.ts == local[i].key.ts);
            }
        }
        lemma_until_empty_key(local);
        assert forall|i: int| 0 <= i < rest.len() implies (#[trigger] rest[i]) == local[i + 1] by {
        }
        assert forall|other: Seq<u8>| #[trigger]
            writes.contains_key(other) && lex_lt(user, other) && limit.below(other) implies exists|
            i: int,
        | 0 <= i < rest.len() && (#[trigger] rest[i]).key.user == other by {
            assert(lower.above(other)) by {
                assert(lower.above(user));
                match lower {
                    KeyBound::Included(b) => {
                        if b@ != user {
                            lemma_lex_transitive(b@, user, other);
                        }
                    },
                    KeyBound::Excluded(b) => {
                        lemma_lex_transitive(b@, user, other);
                    },
                    KeyBound::Unbounded => {},
                }
            }
            assert(upper.below(other));
            let i = choose|i: int| 0 <= i < local.len() && (#[trigger] local[i]).key.user == other;
            assert(rest[i - 1].key.user == other);
        }
        assert(lists_after(rest, writes, user, limit));
    }
}

/// Iterates over a transaction's own writes within a range. It ends at the first pair with an
/// empty key.
pub struct TxnLocalIterator<E> {
    /// What the range holds.
    entries: Vec<(Vec<u8>, Vec<u8>)>,
    /// Which of the entries comes next.
    pos: usize,
    /// The current pair; under an empty key where there is none.
    item: (Vec<u8>, Vec<u8>),
    /// The errors of what it is merged with; it has none of its own.
    errors: PhantomData<E>,
}

impl<E> TxnLocalIterator<E> {
    /// The current pair.
    pub closed spec fn current(&self) -> Item {
        Item { key: KeyView { user: self.item.0@, ts: TS_DEFAULT }, value: self.item.1@ }
    }

    /// The pairs behind the current one.
    pub closed spec fn ahead(&self) -> Seq<Item> {
        pair_items(self.entries@).skip(self.pos as int)
    }

    /// The pair of an entry; the empty pair where there is no entry.
    fn entry_to_item(entry: Option<&(Vec<u8>, Vec<u8>)>) -> (r: (Vec<u8>, Vec<u8>))
        ensures
            match entry {
                Some(e) => r.0@ == e.0@ && r.1@ == e.1@,
                None => r.0@.len() == 0 && r.1@.len() == 0,
            },
    {
        match entry {
            Some(e) => (crate::key::copy_bytes(e.0.as_slice()), crate::key::copy_bytes(
                e.1.as_slice(),
            )),
            None => (Vec::new(), Vec::new()),
        }
    }

    /// Starts at the first of a list of entries.
    pub fn create(entries: Vec<(Vec<u8>, Vec<u8>)>) -> (r: Self)
        ensures
            r.wf(),
            r.run() == whole::<E>(until_empty_key(pair_items(entries@))),
            r.active() == 1,
    {
        let mut r = TxnLocalIterator {
            entries,
            pos: 0,
            item: (Vec::new(), Vec::new()),
            errors: PhantomData,
        };
        r.advance();
        proof {
            let all = pair_items(entries@);
            assert(all.skip(0) =~= all);
            if all.len() > 0 {
                assert((seq![r.current()] + r.ahead()) =~= all);
            }
        }
        r
    }

    /// Takes in what a transaction has written in the meantime behind the current pair.
    fn catch_up(&mut self, map: &SkipMap<Bytes, Bytes>, upper: &KeyLimit)
        requires
            old(self).wf(),
        ensures
            final(self).wf(),
            final(self).run() == whole::<E>(
                caught_up(old(self).run().items, skip_map_contents(*map), *upper),
            ),
            own_listed(final(self).run().items, skip_map_contents(*map), *upper),
    {
        if self.item.0.len() > 0 {
            let entries = skip_map_range(
                map,
                KeyBound::Excluded(self.item.0.as_slice()),
                upper.bound(),
            );
            self.entries = entries;
            self.pos = 0;
            proof {
                let ahead = pair_items(entries@);
                let all = seq![self.current()] + ahead;
                let user = self.current().key.user;
                assert(self.ahead() =~= ahead);
                assert(all.skip(1) =~= ahead);
                assert forall|i: int| 0 <= i < all.len() implies (#[trigger] all[i]).key.user.len()
                    > 0 by {
                    if i > 0 {
                        assert(all[i] == ahead[i - 1]);
                    }
                }
                lemma_until_empty_key(all);
                let before = seq![old(self).current()] + old(self).ahead();
                assert(before[0] == old(self).current());
                assert(lists_after(ahead, skip_map_contents(*map), user, *upper));
                lemma_listing_after_unique(ahead, skip_map_contents(*map), user, *upper);
            }
        } else {
            proof {
                let before = seq![self.current()] + self.ahead();
                assert(before[0] == self.current());
            }
        }
    }

    /// Makes the next entry the current pair; the empty pair where no entry is left.
    pub fn advance(&mut self)
        requires
            old(self).wf(),
        ensures
            final(self).wf(),
            old(self).ahead().len() > 0 ==> final(self).current() == old(self).ahead()[0]
                && final(self).ahead() == old(self).ahead().skip(1),
            old(self).ahead().len() == 0 ==> final(self).current().key.user.len() == 0
                && final(self).current().value.len() == 0 && final(self).ahead().len() == 0,
    {
        if self.pos < self.entries.len() {
            self.item = Self::entry_to_item(Some(&self.entries[self.pos]));
            self.pos = self.pos + 1;
            assert(self.ahead() =~= old(self).ahead().skip(1));
        } else {
            self.item = Self::entry_to_item(None);
        }
    }
}

impl<E> StorageIterator for TxnLocalIterator<E> {
    type KeyType = Vec<u8>;

    type Error = E;

    closed spec fn wf(&self) -> bool {
        self.pos <= self.entries@.len()
    }

    closed spec fn run(&self) -> Run<E> {
        whole(until_empty_key(seq![self.current()] + self.ahead()))
    }

    closed spec fn active(&self) -> nat {
        1
    }

    proof fn lemma_positioned(&self) {
    }

    fn is_valid(&self) -> (r: bool) {
        assert((seq![self.current()] + self.ahead())[0] == self.current());
        self.item.0.len() > 0
    }

    fn key(&self) -> (r: &Vec<u8>) {
        &self.item.0
    }

    fn value(&self) -> (r: &Vec<u8>) {
        &self.item.1
    }

    fn next(&mut self) -> (r: Result<(), E>) {
        let ghost before = seq![self.current()] + self.ahead();
        assert(before.skip(1) =~= self.ahead());
        self.advance();
        proof {
            assert(old(self).run().items.skip(1) =~= until_empty_key(old(self).ahead()));
            if old(self).ahead().len() > 0 {
                assert((seq![self.current()] + self.ahead()) =~= old(self).ahead());
            } else {
                assert(self.run().items =~= Seq::<Item>::empty());
            }
        }
        Ok(())
    }

    fn num_active_iterators(&self) -> (r: usize) {
        1
    }
}

/// Iterates over what can be read of a range in the storage underneath.
pub struct SnapshotIterator<E> {
    pairs: Vec<(Vec<u8>, Vec<u8>)>,
    pos: usize,
    /// Why the range cannot be read on behind the pairs, if it cannot.
    failure: Option<E>,
}

impl<E> SnapshotIterator<E> {
    /// Starts at the first pair of a range.
    pub fn create(stored: StoredRange<E>) -> (r: Result<Self, E>)
        ensures
            match started(stored.run()) {
                Ok(run) => r matches Ok(iter) && iter.wf() && iter.run() == run && iter.active()
                    == 1,
                Err(e) => r == Err::<Self, E>(e),
            },
            r is Err <==> stored.pairs@.len() == 0 && stored.failure is Some,
            r matches Err(e) ==> stored.failure == Some(e),
            r matches Ok(iter) ==> iter.run().items == pair_items(stored.pairs@) && iter.run().end
                == stored.failure,
    {
        let StoredRange { pairs, failure } = stored;
        if pairs.len() == 0 {
            if let Some(e) = failure {
                return Err(e);
            }
            let r = SnapshotIterator { pairs, pos: 0, failure: None };
            assert(r.run().items =~= pair_items(pairs@));
            return Ok(r);
        }
        let r = SnapshotIterator { pairs, pos: 0, failure };
        assert(r.run().items =~= pair_items(pairs@));
        Ok(r)
    }
}

impl<E> StorageIterator for SnapshotIterator<E> {
    type KeyType = Vec<u8>;

    type Error = E;

    closed spec fn wf(&self) -> bool {
        &&& self.pos <= self.pairs@.len()
        &&& self.pos == self.pairs@.len() ==> self.failure is None
    }

    closed spec fn run(&self) -> Run<E> {
        Run { items: pair_items(self.pairs@).skip(self.pos as int), end: self.failure }
    }

    closed spec fn active(&self) -> nat {
        1
    }

    proof fn lemma_positioned(&self) {
    }

    fn is_valid(&self) -> (r: bool) {
        self.pos < self.pairs.len()
    }

    fn key(&self) -> (r: &Vec<u8>) {
        &self.pairs[self.pos].0
    }

    fn value(&self) -> (r: &Vec<u8>) {
        &self.pairs[self.pos].1
    }

    fn next(&mut self) -> (r: Result<(), E>) {
        let len: usize = self.pairs.len();
        assert(self.pos < len);
        self.pos = self.pos + 1;
        assert(self.run().items =~= old(self).run().items.skip(1));
        if self.pos == len {
            if let Some(e) = self.failure.take() {
                return Err(e);
            }
        }
        Ok(())
    }

    fn num_active_iterators(&self) -> (r: usize) {
        1
    }
}

/// Iterates over what a transaction sees within a range: its own writes over what the storage
/// underneath holds, without the deleted keys.
pub struct TxnIterator<E> {
    iter: TwoMergeIterator<TxnLocalIterator<E>, SnapshotIterator<E>>,
    /// Where the range ends.
    upper: KeyLimit,
}

impl<E> TxnIterator<E> {
    /// Whether the iterators underneath are consistent.
    pub closed spec fn inner_wf(&self) -> bool {
        self.iter.wf()
    }

    /// Whether the iterator is consistent, and at a pair that does not mark a deletion or at the
    /// end.
    pub open spec fn wf(&self) -> bool {
        self.inner_wf() && at_live_pair(self.own(), self.stored())
    }

    /// The transaction's own writes that lie ahead.
    pub closed spec fn own(&self) -> Seq<Item> {
        self.iter.first().run().items
    }

    /// What lies ahead in the storage underneath.
    pub closed spec fn stored(&self) -> Run<E> {
        self.iter.second().run()
    }

    /// Where the range ends.
    pub closed spec fn limit(&self) -> KeyLimit {
        self.upper
    }

    /// What the iterator has yet to pass, the current pair first, where `writes` is what its
    /// transaction has written by now.
    pub open spec fn run_in(&self, writes: Map<Seq<u8>, Seq<u8>>) -> Run<E> {
        live_run(merged_with(caught_up(self.own(), writes, self.limit()), self.stored()))
    }

    /// How many basic iterators the iterator is made of.
    pub closed spec fn active(&self) -> nat {
        self.iter.active()
    }

    /// What is ahead of the iterators underneath.
    proof fn lemma_underneath(&self)
        requires
            self.inner_wf(),
        ensures
            self.iter.run() == merged_with(self.own(), self.stored()),
            self.iter.first().run() == whole::<E>(self.own()),
            self.iter.first().wf(),
            self.iter.second().wf(),
            positioned(self.stored()),
    {
        self.iter.lemma_merges();
        self.iter.second().lemma_positioned();
    }

    /// Whether there is a current pair.
    pub open spec fn has_pair(&self) -> bool {
        merged_with(self.own(), self.stored()).items.len() > 0
    }

    /// The current pair.
    pub open spec fn pair(&self) -> Item {
        merged_with(self.own(), self.stored()).items[0]
    }

    /// The current pair comes first in what the iterator has yet to pass, whatever its transaction
    /// has written.
    pub proof fn lemma_pair(&self, writes: Map<Seq<u8>, Seq<u8>>)
        requires
            self.wf(),
        ensures
            self.run_in(writes).items.len() > 0 <==> self.has_pair(),
            self.has_pair() ==> self.run_in(writes).items[0] == self.pair(),
    {
        self.lemma_underneath();
        lemma_same_head(
            self.own(),
            caught_up(self.own(), writes, self.limit()),
            self.stored(),
        );
    }

    /// Starts at the first pair of a merge that does not mark a deletion.
    pub fn create(
        iter: TwoMergeIterator<TxnLocalIterator<E>, SnapshotIterator<E>>,
        upper: KeyBound,
    ) -> (r: Result<Self, E>)
        requires
            iter.wf(),
        ensures
            match pass_deletions(iter.first().run().items, iter.second().run()) {
                Ok((own, stored)) => {
                    &&& r matches Ok(it)
                    &&& it.wf()
                    &&& it.own() == own
                    &&& it.stored() == stored
                    &&& it.active() == iter.active()
                    &&& forall|user: Seq<u8>| #[trigger]
                        it.limit().below(user) == upper.below(user)
                },
                Err(e) => r == Err::<Self, E>(e),
            },
    {
        let mut r = Self { iter, upper: KeyLimit::new(upper) };
        match r.move_to_non_delete() {
            Ok(_done) => Ok(r),
            Err(e) => Err(e),
        }
    }

    /// Passes over the pairs that mark deletions. Where the iterator is at none, it stays where it
    /// is.
    pub fn move_to_non_delete(&mut self) -> (r: Result<(), E>)
        requires
            old(self).inner_wf(),
        ensures
            match pass_deletions(old(self).own(), old(self).stored()) {
                Ok((own, stored)) => {
                    &&& r is Ok
                    &&& final(self).wf()
                    &&& final(self).own() == own
                    &&& final(self).stored() == stored
                    &&& final(self).limit() == old(self).limit()
                    &&& final(self).active() == old(self).active()
                },
                Err(e) => r == Err::<(), E>(e),
            },
            old(self).wf() ==> pass_deletions(old(self).own(), old(self).stored()) == Ok::<
                (Seq<Item>, Run<E>),
                E,
            >((old(self).own(), old(self).stored())),
    {
        proof {
            self.lemma_underneath();
            lemma_merge_step(whole(self.own()), self.stored());
        }
        while self.iter.is_valid() && self.iter.value().len() == 0
            invariant
                self.inner_wf(),
                pass_deletions(self.own(), self.stored()) == pass_deletions(
                    old(self).own(),
                    old(self).stored(),
                ),
                self.iter.run() == merged_with(self.own(), self.stored()),
                self.iter.run().items.len() > 0 <==> self.own().len() + self.stored().items.len()
                    > 0,
                self.active() == old(self).active(),
                self.upper == old(self).upper,
            decreases self.own().len() + self.stored().items.len(),
        {
            proof {
                self.lemma_underneath();
                lemma_merge_step(whole(self.own()), self.stored());
            }
            match self.iter.next() {
                Ok(_done) => {},
                Err(e) => {
                    return Err(e);
                },
            }
            proof {
                self.lemma_underneath();
                lemma_merge_step(whole(self.own()), self.stored());
            }
        }
        Ok(())
    }

    /// Takes in what the transaction has written in the meantime: the current pair stays, and of
    /// the transaction's own writes those that now stand behind its next one lie ahead.
    fn catch_up(&mut self, txn: &Transaction)
        requires
            old(self).wf(),
        ensures
            final(self).wf(),
            final(self).own() == caught_up(old(self).own(), txn@.writes, old(self).limit()),
            own_listed(final(self).own(), txn@.writes, old(self).limit()),
            final(self).stored() == old(self).stored(),
            final(self).limit() == old(self).limit(),
            final(self).active() == old(self).active(),
    {
        proof {
            self.lemma_underneath();
            lemma_same_head(
                self.own(),
                caught_up(self.own(), txn@.writes, self.upper),
                self.stored(),
            );
            self.iter.lemma_merges();
        }
        let own = self.iter.first_mut();
        own.catch_up(&txn.local_storage, &self.upper);
        proof {
            self.iter.lemma_merges();
        }
    }

    /// Whether there is a current pair.
    pub fn is_valid(&self) -> (r: bool)
        requires
            self.wf(),
        ensures
            r == self.has_pair(),
            forall|writes: Map<Seq<u8>, Seq<u8>>|
                r == ((#[trigger] self.run_in(writes)).items.len() > 0),
            !r ==> self.own().len() == 0 && self.stored() == whole::<E>(Seq::empty()),
    {
        proof {
            self.lemma_underneath();
            lemma_merge_step(whole(self.own()), self.stored());
            if !self.has_pair() {
                assert(self.stored().items =~= Seq::<Item>::empty());
            }
            assert forall|writes: Map<Seq<u8>, Seq<u8>>|
                self.has_pair() == ((#[trigger] self.run_in(writes)).items.len() > 0) by {
                self.lemma_pair(writes);
            }
        }
        self.iter.is_valid()
    }

    /// The key of the current pair.
    pub fn key(&self) -> (r: &Vec<u8>)
        requires
            self.wf(),
            self.has_pair(),
        ensures
            r@ == self.pair().key.user,
            forall|writes: Map<Seq<u8>, Seq<u8>>|
                r@ == (#[trigger] self.run_in(writes)).items[0].key.user,
    {
        proof {
            self.lemma_underneath();
            assert forall|writes: Map<Seq<u8>, Seq<u8>>|
                self.pair() == (#[trigger] self.run_in(writes)).items[0] by {
                self.lemma_pair(writes);
            }
        }
        self.iter.key()
    }

    /// The value of the current pair.
    pub fn value(&self) -> (r: &Vec<u8>)
        requires
            self.wf(),
            self.has_pair(),
        ensures
            r@ == self.pair().value,
            r@.len() > 0,
            forall|writes: Map<Seq<u8>, Seq<u8>>|
                r@ == (#[trigger] self.run_in(writes)).items[0].value,
    {
        proof {
            self.lemma_underneath();
            assert forall|writes: Map<Seq<u8>, Seq<u8>>|
                self.pair() == (#[trigger] self.run_in(writes)).items[0] by {
                self.lemma_pair(writes);
            }
        }
        self.iter.value()
    }

    /// Moves to the next pair that the transaction sees, with all that it has written by now.
    /// `txn` is the transaction that the iterator came from. Where the next pair cannot be read,
    /// the iterator is of no more use.
    pub fn next(&mut self, txn: &Transaction) -> (r: Result<(), E>)
        requires
            old(self).wf(),
            old(self).has_pair(),
        ensures
            match moved_on(
                caught_up(old(self).own(), txn@.writes, old(self).limit()),
                old(self).stored(),
            ) {
                Ok((own, stored)) => {
                    &&& r is Ok
                    &&& final(self).wf()
                    &&& final(self).own() == own
                    &&& final(self).stored() == stored
                    &&& final(self).limit() == old(self).limit()
                    &&& final(self).active() == old(self).active()
                },
                Err(e) => r == Err::<(), E>(e),
            },
            match advanced(old(self).run_in(txn@.writes)) {
                Ok(run) => r is Ok && final(self).run_in(txn@.writes) == run,
                Err(e) => r == Err::<(), E>(e),
            },
            r is Ok ==> {
                &&& final(self).run_in(txn@.writes).items == old(self).run_in(
                    txn@.writes,
                ).items.skip(1)
                &&& final(self).run_in(txn@.writes).end == old(self).run_in(txn@.writes).end
            },
            r matches Err(e) ==> {
                &&& old(self).run_in(txn@.writes).items.len() == 1
                &&& old(self).run_in(txn@.writes).end == Some(e)
            },
            own_listed(
                caught_up(old(self).own(), txn@.writes, old(self).limit()),
                txn@.writes,
                old(self).limit(),
            ),
    {
        proof {
            self.lemma_pair(txn@.writes);
            self.lemma_underneath();
            lemma_same_head(
                self.own(),
                caught_up(self.own(), txn@.writes, self.limit()),
                self.stored(),
            );
        }
        self.catch_up(txn);
        let ghost own = self.own();
        let ghost stored = self.stored();
        proof {
            self.lemma_underneath();
            lemma_same_head(own, own, stored);
            lemma_moved_on(own, stored);
            lemma_moving_keeps_listed(own, stored, txn@.writes, self.limit());
        }
        match self.iter.next() {
            Ok(_done) => {},
            Err(e) => {
                return Err(e);
            },
        }
        let ghost rest = own_step(own, stored)->Ok_0;
        proof {
            self.iter.lemma_merges();
            lemma_moving_keeps_listed(rest.0, rest.1, txn@.writes, self.limit());
        }
        match self.move_to_non_delete() {
            Ok(_done) => {
                proof {
                    lemma_nothing_to_take_in(self.own(), txn@.writes, self.limit());
                }
                Ok(())
            },
            Err(e) => Err(e),
        }
    }

    /// The number of basic iterators that the iterator is made of.
    pub fn num_active_iterators(&self) -> (r: usize)
        requires
            self.active() <= usize::MAX,
        ensures
            r == self.active(),
    {
        self.iter.num_active_iterators()
    }
}

/// The state of a transaction.
#[verifier::ext_equal]
pub struct TxnView {
    /// The timestamp that the transaction reads at.
    pub read_ts: u64,
    /// The transaction's own writes; an empty value marks a deletion.
    pub writes: Map<Seq<u8>, Seq<u8>>,
    /// Whether the transaction has been committed.
    pub committed: bool,
    /// The hashes of the keys that the transaction has read.
    pub read_hashes: Set<u32>,
    /// The hashes of the keys that the transaction has written.
    pub write_hashes: Set<u32>,
}

/// What a transaction sees within a range as far as it can be read, where `stored` is what can be
/// read there of the storage underneath.
pub open spec fn scan_run<E>(
    writes: Map<Seq<u8>, Seq<u8>>,
    lower: KeyBound,
    upper: KeyBound,
    stored: Run<E>,
) -> Run<E> {
    match started(stored) {
        Ok(run) => live_run(merged_with(until_empty_key(listing(writes, lower, upper)), run)),
        Err(e) => stored,
    }
}

/// What a transaction sees within a range, where `stored` is what the storage underneath holds
/// there.
pub open spec fn scan_items(
    writes: Map<Seq<u8>, Seq<u8>>,
    lower: KeyBound,
    upper: KeyBound,
    stored: Seq<Item>,
) -> Seq<Item> {
    live(two_merge(until_empty_key(listing(writes, lower, upper)), stored))
}

/// The hashes of the user keys of a run.
pub open spec fn key_hashes_of(run: Seq<Item>) -> Set<u32> {
    run.map_values(|item: Item| farm_hash32(item.key.user)).to_set()
}

/// A transaction once it has read `key`.
pub open spec fn after_get(txn: TxnView, key: Seq<u8>) -> TxnView {
    TxnView { read_hashes: txn.read_hashes.insert(farm_hash32(key)), ..txn }
}

/// A transaction once it has written `value` under `key`.
pub open spec fn after_put(txn: TxnView, key: Seq<u8>, value: Seq<u8>) -> TxnView {
    TxnView {
        writes: txn.writes.insert(key, value),
        write_hashes: txn.write_hashes.insert(farm_hash32(key)),
        ..txn
    }
}

/// A transaction once it has deleted `key`.
pub open spec fn after_delete(txn: TxnView, key: Seq<u8>) -> TxnView {
    after_put(txn, key, Seq::empty())
}

/// What a transaction answers of its own to a read of `key`: nothing if it has not written
/// there, otherwise what it has written last.
pub open spec fn own_answer(txn: TxnView, key: Seq<u8>) -> Option<Option<Seq<u8>>> {
    if txn.writes.contains_key(key) {
        Some(
            if txn.writes[key].len() > 0 {
                Some(txn.writes[key])
            } else {
                None
            },
        )
    } else {
        None
    }
}

/// A transaction that has not done anything yet.
pub open spec fn begun(read_ts: u64) -> TxnView {
    TxnView {
        read_ts,
        writes: Map::empty(),
        committed: false,
        read_hashes: Set::empty(),
        write_hashes: Set::empty(),
    }
}

/// Concurrency control when a commit begins: a new commit timestamp has been taken, and the
/// committed transactions before the watermark have been forgotten.
pub open spec fn commit_begun(mvcc: MvccView) -> MvccView {
    let ticked = MvccView { latest: (mvcc.latest + 1) as u64, ..mvcc };
    MvccView { committed: forget_before(ticked.committed, ticked.watermark()), ..ticked }
}

/// Whether a commit is refused: the transaction has written something, and a transaction that
/// committed after it began wrote under a hash that it has read.
pub open spec fn refused(txn: TxnView, mvcc: MvccView) -> bool {
    &&& exists|hash: u32| txn.write_hashes.contains(hash)
    &&& conflict(mvcc.committed, txn.read_hashes, txn.read_ts, mvcc.latest)
}

/// Concurrency control once a transaction that wrote at `commit_ts` has been recorded.
pub open spec fn commit_recorded(txn: TxnView, mvcc: MvccView, commit_ts: u64) -> MvccView {
    MvccView {
        committed: mvcc.committed.insert(
            commit_ts,
            CommittedView { key_hashes: txn.write_hashes, read_ts: txn.read_ts, commit_ts },
        ),
        ..mvcc
    }
}

/// Why a transaction's request failed.
#[derive(Debug)]
pub enum TxnError<E> {
    /// A concurrent transaction has written what this one has read.
    NotSerializable,
    /// A key that was read cannot be hashed.
    KeyNotHashable,
    /// The storage underneath failed.
    Storage(E),
}

/// A transaction reads at one timestamp and keeps its writes to itself until it is committed.
pub struct Transaction {
    read_ts: u64,
    local_storage: SkipMap<Bytes, Bytes>,
    committed: bool,
    write_set: HashSet<u32>,
    read_set: HashSet<u32>,
}

impl View for Transaction {
    type V = TxnView;

    closed spec fn view(&self) -> TxnView {
        TxnView {
            read_ts: self.read_ts,
            writes: skip_map_contents(self.local_storage),
            committed: self.committed,
            read_hashes: self.read_set@,
            write_hashes: self.write_set@,
        }
    }
}

/// A value as a value of the specification.
pub open spec fn value_view(value: Option<Vec<u8>>) -> Option<Seq<u8>> {
    match value {
        Some(v) => Some(v@),
        None => None,
    }
}

/// Copies a set of hashes.
fn copy_hashes(hashes: &HashSet<u32>) -> (r: HashSet<u32>)
    ensures
        r@ == hashes@,
{
    let mut r: HashSet<u32> = HashSet::new();
    let ghost all = hashes.iter().remaining();
    for hash in it: hashes.iter()
        invariant
            it.seq() == all,
            all.unref().to_set() == hashes@,
            r@ == all.unref().take(it.index()).to_set(),
    {
        r.insert(*hash);
        proof {
            let n = it.index();
            assert(all.unref()[n] == *hash);
            assert(all.unref().take(n + 1) =~= all.unref().take(n).push(*hash));
            assert forall|h: u32| all.unref().take(n + 1).contains(h) <==> (all.unref().take(
                n,
            ).contains(h) || h == *hash) by {
                if all.unref().take(n).contains(h) {
                    let k = choose|k: int| 0 <= k < n && all.unref().take(n)[k] == h;
                    assert(all.unref().take(n + 1)[k] == h);
                }
                assert(all.unref().take(n + 1)[n] == *hash);
            }
            assert(r@ =~= all.unref().take(n + 1).to_set());
        }
    }
    assert(all.unref().take(all.len() as int) =~= all.unref());
    r
}

impl Transaction {
    /// A transaction that reads at `read_ts` and has done nothing yet.
    pub fn new(read_ts: u64) -> (r: Transaction)
        ensures
            r@ == begun(read_ts),
    {
        let r = Transaction {
            read_ts,
            local_storage: skip_map_new(),
            committed: false,
            write_set: HashSet::new(),
            read_set: HashSet::new(),
        };
        assert(r@.writes =~= Map::empty());
        r
    }

    /// The timestamp that the transaction reads at.
    pub fn read_ts(&self) -> (r: u64)
        ensures
            r == self@.read_ts,
    {
        self.read_ts
    }

    /// Whether the transaction has been committed. A committed transaction takes no more reads
    /// or writes.
    pub fn is_committed(&self) -> (r: bool)
        ensures
            r == self@.committed,
    {
        self.committed
    }

    /// Whether the transaction has written anything.
    pub fn has_writes(&self) -> (r: bool)
        ensures
            r == exists|hash: u32| self@.write_hashes.contains(hash),
    {
        let written = !self.write_set.is_empty();
        proof {
            let hashes = self@.write_hashes;
            if written && !exists|hash: u32| hashes.contains(hash) {
                assert(hashes =~= Set::<u32>::empty());
            }
        }
        written
    }

    /// Reads a key: the transaction's own write if it has made one, otherwise what the storage
    /// underneath holds at the transaction's timestamp.
    pub fn get<S: TxnStorage>(&mut self, storage: &mut LoggedStorage<S>, key: &[u8]) -> (r: Result<
        Option<Vec<u8>>,
        S::Error,
    >)
        requires
            !old(self)@.committed,
            hashable(key@),
        ensures
            final(self)@ == after_get(old(self)@, key@),
            match own_answer(old(self)@, key@) {
                Some(own) => {
                    &&& r matches Ok(value)
                    &&& value_view(value) == own
                    &&& value matches Some(v) ==> own == Some(v@)
                    &&& value is None ==> own is None
                    &&& *final(storage) == *old(storage)
                },
                None => asked(
                    *old(storage),
                    *final(storage),
                    seq![StorageAction::Got(key@, old(self)@.read_ts, r)],
                ),
            },
    {
        self.read_set.insert(hash32(key));
        match skip_map_get(&self.local_storage, key) {
            Some(value) => if value.len() == 0 {
                Ok(None)
            } else {
                Ok(Some(value))
            },
            None => storage.get_with_ts(key, self.read_ts),
        }
    }

    /// Writes a value under a key, for the time being in the transaction alone.
    pub fn put(&mut self, key: &[u8], value: &[u8])
        requires
            !old(self)@.committed,
            hashable(key@),
        ensures
            final(self)@ == after_put(old(self)@, key@, value@),
    {
        self.write_set.insert(hash32(key));
        skip_map_insert(&mut self.local_storage, key, value);
    }

    /// Deletes a key, for the time being in the transaction alone.
    pub fn delete(&mut self, key: &[u8])
        requires
            !old(self)@.committed,
            hashable(key@),
        ensures
            final(self)@ == after_delete(old(self)@, key@),
    {
        self.write_set.insert(hash32(key));
        let nothing: Vec<u8> = Vec::new();
        skip_map_insert(&mut self.local_storage, key, nothing.as_slice());
        assert(nothing@ =~= Seq::<u8>::empty());
    }

    /// An iterator over what the transaction sees within a range, where `stored` is what can be
    /// read there of the storage underneath.
    pub fn scan_over<E>(
        &self,
        lower: KeyBound,
        upper: KeyBound,
        stored: StoredRange<E>,
    ) -> (r: Result<TxnIterator<E>, E>)
        ensures
            lists_range(listing(self@.writes, lower, upper), self@.writes, lower, upper),
            match started(scan_run(self@.writes, lower, upper, stored.run())) {
                Ok(_run) => r matches Ok(iter) && yields(iter, self@, lower, upper, stored.run()),
                Err(e) => r == Err::<TxnIterator<E>, E>(e),
            },
    {
        let local = skip_map_range(&self.local_storage, lower, upper);
        proof {
            lemma_listing_unique(pair_items(local@), self@.writes, lower, upper);
        }
        let ghost own = until_empty_key(listing(self@.writes, lower, upper));
        let below = match SnapshotIterator::create(stored) {
            Ok(below) => below,
            Err(e) => {
                return Err(e);
            },
        };
        proof {
            below.lemma_positioned();
            lemma_pass_deletions(own, below.run());
        }
        let iter = TwoMergeIterator::create(TxnLocalIterator::create(local), below);
        match TxnIterator::create(iter, upper) {
            Ok(it) => {
                proof {
                    lemma_range_listed(self@.writes, lower, upper, it.limit());
                    lemma_moving_keeps_listed(own, below.run(), self@.writes, it.limit());
                    lemma_nothing_to_take_in(it.own(), self@.writes, it.limit());
                }
                Ok(it)
            },
            Err(e) => Err(e),
        }
    }

    /// Remembers every key that the transaction sees within a range, where `stored` is what can be
    /// read there of the storage underneath. It stops at the first key that cannot be hashed, and
    /// where the range cannot be read on; the keys before that stay remembered.
    pub fn remember_range<E>(
        &mut self,
        lower: KeyBound,
        upper: KeyBound,
        stored: StoredRange<E>,
    ) -> (r: Result<(), TxnError<E>>)
        ensures
            lists_range(
                listing(old(self)@.writes, lower, upper),
                old(self)@.writes,
                lower,
                upper,
            ),
            range_remembered(
                old(self)@,
                final(self)@,
                scan_run(old(self)@.writes, lower, upper, stored.run()),
                r,
            ),
    {
        let ghost run = scan_run(self@.writes, lower, upper, stored.run());
        let ghost all = run.items;
        let ghost mut n: int = 0;
        proof {
            assert(key_hashes_of(all.take(0)) =~= Set::<u32>::empty());
            assert(self@.read_hashes =~= old(self)@.read_hashes.union(key_hashes_of(all.take(0))));
            assert(after_scan(self@, all.take(0)) =~= self@);
        }
        let mut iter = match self.scan_over(lower, upper, stored) {
            Ok(iter) => iter,
            Err(e) => {
                assert(all.take(0) =~= all);
                return Err(TxnError::Storage(e));
            },
        };
        proof {
            assert(all.skip(0) =~= all);
            iter.lemma_pair(self@.writes);
        }
        while iter.is_valid()
            invariant
                iter.wf(),
                iter.has_pair() <==> n < all.len(),
                0 <= n <= all.len(),
                run == scan_run(old(self)@.writes, lower, upper, stored.run()),
                lists_range(
                    listing(old(self)@.writes, lower, upper),
                    old(self)@.writes,
                    lower,
                    upper,
                ),
                all == run.items,
                iter.run_in(self@.writes) == (Run { items: all.skip(n), end: run.end }),
                forall|i: int| 0 <= i < n ==> hashable((#[trigger] all[i]).key.user),
                self@ == after_scan(old(self)@, all.take(n)),
            decreases all.len() - n,
        {
            proof {
                iter.lemma_pair(self@.writes);
            }
            let key = iter.key();
            assert(key@ == all[n].key.user);
            if !is_hashable(key.as_slice()) {
                proof {
                    lemma_hashable_len(all, n);
                }
                return Err(TxnError::KeyNotHashable);
            }
            self.read_set.insert(hash32(key.as_slice()));
            proof {
                lemma_key_hashes_step(all, n);
                assert(self@.read_hashes =~= old(self)@.read_hashes.union(
                    key_hashes_of(all.take(n + 1)),
                ));
                assert(all.skip(n).skip(1) =~= all.skip(n + 1));
                n = n + 1;
            }
            match iter.next(self) {
                Ok(_done) => {
                    proof {
                        iter.lemma_pair(self@.writes);
                    }
                },
                Err(e) => {
                    proof {
                        assert(all.take(n) =~= all);
                        lemma_hashable_len(all, n);
                    }
                    return Err(TxnError::Storage(e));
                },
            }
        }
        proof {
            assert(all.skip(n).len() == 0);
            assert(all.take(n) =~= all);
            lemma_hashable_len(all, n);
            assert(iter.run_in(self@.writes).end is None);
        }
        Ok(())
    }

    /// Reads a range: asks the storage underneath for what it holds there at the transaction's
    /// timestamp and remembers every key that the transaction sees, then asks again and returns an
    /// iterator over what the transaction sees.
    pub fn scan<S: TxnStorage>(
        &mut self,
        storage: &mut LoggedStorage<S>,
        lower: KeyBound,
        upper: KeyBound,
    ) -> (r: Result<TxnIterator<S::Error>, TxnError<S::Error>>)
        requires
            !old(self)@.committed,
        ensures
            scan_outcome(
                old(self)@,
                final(self)@,
                lower,
                upper,
                *old(storage),
                *final(storage),
                r,
            ),
    {
        let answer = storage.scan_with_ts(lower, upper, self.read_ts);
        let ghost first = answer;
        let ghost between = *storage;
        let ghost ts = self@.read_ts;
        let ghost once = seq![first];
        proof {
            let one = seq![StorageAction::Scanned(lower@, upper@, ts, first)];
            assert(scans(lower, upper, ts, once) =~= one);
            assert(asked_scans(*old(storage), *storage, lower, upper, ts, once));
        }
        match answer {
            Err(e) => {
                let r = Err(TxnError::Storage(e));
                assert(scan_answered(old(self)@, self@, lower, upper, once, r));
                return r;
            },
            Ok(stored) => match self.remember_range(lower, upper, stored) {
                Ok(_done) => {},
                Err(e) => {
                    let r = Err(e);
                    assert(scan_answered(old(self)@, self@, lower, upper, once, r));
                    return r;
                },
            },
        }
        let answer = storage.scan_with_ts(lower, upper, self.read_ts);
        let ghost second = answer;
        let ghost twice = seq![first, second];
        proof {
            let one = seq![StorageAction::Scanned(lower@, upper@, ts, first)];
            let two = seq![StorageAction::Scanned(lower@, upper@, ts, second)];
            lemma_asked_both(*old(storage), between, *storage, one, two);
            assert(one + two =~= scans(lower, upper, ts, twice));
            assert(asked_scans(*old(storage), *storage, lower, upper, ts, twice));
        }
        let r = match answer {
            Err(e) => Err(TxnError::Storage(e)),
            Ok(stored) => match self.scan_over(lower, upper, stored) {
                Ok(iter) => Ok(iter),
                Err(e) => Err(TxnError::Storage(e)),
            },
        };
        proof {
            let run = scan_run(old(self)@.writes, lower, upper, first->Ok_0.run());
            lemma_hashable_len_bound(run.items);
        }
        assert(second_answered(old(self)@, lower, upper, second, r));
        assert(scan_answered(old(self)@, self@, lower, upper, twice, r));
        r
    }
}

/// One more pair adds the hash of its key.
proof fn lemma_key_hashes_step(run: Seq<Item>, n: int)
    requires
        0 <= n < run.len(),
    ensures
        key_hashes_of(run.take(n + 1)) == key_hashes_of(run.take(n)).insert(
            farm_hash32(run[n].key.user),
        ),
{
    let f = |item: Item| farm_hash32(item.key.user);
    let before = run.take(n).map_values(f);
    let after = run.take(n + 1).map_values(f);
    assert(after =~= before.push(farm_hash32(run[n].key.user)));
    assert forall|h: u32| after.to_set().contains(h) <==> before.to_set().insert(
        farm_hash32(run[n].key.user),
    ).contains(h) by {
        if before.contains(h) {
            let k = choose|k: int| 0 <= k < before.len() && before[k] == h;
            assert(after[k] == h);
        }
        assert(after[n] == farm_hash32(run[n].key.user));
    }
    assert(after.to_set() =~= before.to_set().insert(farm_hash32(run[n].key.user)));
}

/// How many pairs of a run come before the first whose key cannot be hashed.
pub open spec fn hashable_len(run: Seq<Item>) -> nat
    decreases run.len(),
{
    if run.len() == 0 || !hashable(run[0].key.user) {
        0
    } else {
        1 + hashable_len(run.skip(1))
    }
}

/// No more pairs than there are come before the first whose key cannot be hashed.
proof fn lemma_hashable_len_bound(run: Seq<Item>)
    ensures
        hashable_len(run) <= run.len(),
    decreases run.len(),
{
    if run.len() > 0 {
        lemma_hashable_len_bound(run.skip(1));
    }
}

/// Where the keys of the first `n` pairs can be hashed and that of the next cannot, or there is no
/// next, `n` pairs come before the first whose key cannot be hashed.
proof fn lemma_hashable_len(run: Seq<Item>, n: int)
    requires
        0 <= n <= run.len(),
        forall|i: int| 0 <= i < n ==> hashable((#[trigger] run[i]).key.user),
        n < run.len() ==> !hashable(run[n].key.user),
    ensures
        hashable_len(run) == n,
    decreases run.len(),
{
    if n > 0 {
        let tail = run.skip(1);
        assert(hashable(run[0].key.user));
        assert forall|i: int| 0 <= i < n - 1 implies hashable((#[trigger] tail[i]).key.user) by {
            assert(tail[i] == run[i + 1]);
        }
        if n < run.len() {
            assert(tail[n - 1] == run[n]);
        }
        lemma_hashable_len(tail, n - 1);
    }
}

/// A transaction once it has read the pairs of a run.
pub open spec fn after_scan(txn: TxnView, run: Seq<Item>) -> TxnView {
    TxnView { read_hashes: txn.read_hashes.union(key_hashes_of(run)), ..txn }
}

/// What becomes of a transaction that remembers the keys of a run, and why it stops before the end
/// of the run, if it does.
pub open spec fn range_remembered<E>(
    before: TxnView,
    after: TxnView,
    run: Run<E>,
    r: Result<(), TxnError<E>>,
) -> bool {
    let n = hashable_len(run.items);
    if n < run.items.len() {
        &&& r == Err::<(), TxnError<E>>(TxnError::KeyNotHashable)
        &&& after == after_scan(before, run.items.take(n as int))
    } else {
        &&& after == after_scan(before, run.items)
        &&& match run.end {
            Some(e) => r == Err::<(), TxnError<E>>(TxnError::Storage(e)),
            None => r is Ok,
        }
    }
}

/// Whether an iterator yields exactly what a transaction sees within a range, where `stored` is
/// what can be read there of the storage underneath.
pub open spec fn yields<E>(
    iter: TxnIterator<E>,
    txn: TxnView,
    lower: KeyBound,
    upper: KeyBound,
    stored: Run<E>,
) -> bool {
    &&& iter.wf()
    &&& iter.run_in(txn.writes) == scan_run(txn.writes, lower, upper, stored)
    &&& pass_deletions(until_empty_key(listing(txn.writes, lower, upper)), stored) == Ok::<
        (Seq<Item>, Run<E>),
        E,
    >((iter.own(), iter.stored()))
    &&& forall|user: Seq<u8>| #[trigger] iter.limit().below(user) == upper.below(user)
    &&& iter.active() == 2
    &&& lists_range(listing(txn.writes, lower, upper), txn.writes, lower, upper)
}

/// Requests for a range, with their answers.
pub open spec fn scans<E>(
    lower: KeyBound,
    upper: KeyBound,
    read_ts: u64,
    answers: Seq<Result<StoredRange<E>, E>>,
) -> Seq<StorageAction<E>> {
    answers.map_values(
        |answer: Result<StoredRange<E>, E>|
            StorageAction::Scanned(lower@, upper@, read_ts, answer),
    )
}

/// Whether the storage underneath was asked for a range between two points in time, once for each
/// of `answers`, and for nothing else.
pub open spec fn asked_scans<S: TxnStorage>(
    before: LoggedStorage<S>,
    after: LoggedStorage<S>,
    lower: KeyBound,
    upper: KeyBound,
    read_ts: u64,
    answers: Seq<Result<StoredRange<S::Error>, S::Error>>,
) -> bool {
    asked(before, after, scans(lower, upper, read_ts, answers))
}

/// How a scan ends. It asks the storage underneath for the range and remembers the keys that the
/// transaction sees. Where that succeeds it asks once more, and the second answer decides what is
/// returned.
pub open spec fn scan_outcome<S: TxnStorage>(
    before: TxnView,
    after: TxnView,
    lower: KeyBound,
    upper: KeyBound,
    storage: LoggedStorage<S>,
    storage_after: LoggedStorage<S>,
    r: Result<TxnIterator<S::Error>, TxnError<S::Error>>,
) -> bool {
    exists|answers: Seq<Result<StoredRange<S::Error>, S::Error>>|
        {
            &&& #[trigger] asked_scans(
                storage,
                storage_after,
                lower,
                upper,
                before.read_ts,
                answers,
            )
            &&& scan_answered(before, after, lower, upper, answers, r)
        }
}

/// How a scan ends for each list of answers of the storage underneath.
pub open spec fn scan_answered<E>(
    before: TxnView,
    after: TxnView,
    lower: KeyBound,
    upper: KeyBound,
    answers: Seq<Result<StoredRange<E>, E>>,
    r: Result<TxnIterator<E>, TxnError<E>>,
) -> bool {
    &&& answers.len() >= 1
    &&& match answers[0] {
        Err(e) => {
            &&& answers.len() == 1
            &&& after == before
            &&& r == Err::<TxnIterator<E>, TxnError<E>>(TxnError::Storage(e))
        },
        Ok(stored) => {
            let run = scan_run(before.writes, lower, upper, stored.run());
            &&& lists_range(listing(before.writes, lower, upper), before.writes, lower, upper)
            &&& if hashable_len(run.items) == run.items.len() && run.end is None {
                &&& answers.len() == 2
                &&& after == after_scan(before, run.items)
                &&& second_answered(before, lower, upper, answers[1], r)
            } else {
                &&& answers.len() == 1
                &&& r matches Err(e)
                &&& range_remembered(before, after, run, Err::<(), TxnError<E>>(e))
            }
        },
    }
}

/// What a scan returns for the second answer of the storage underneath.
pub open spec fn second_answered<E>(
    txn: TxnView,
    lower: KeyBound,
    upper: KeyBound,
    answer: Result<StoredRange<E>, E>,
    r: Result<TxnIterator<E>, TxnError<E>>,
) -> bool {
    match answer {
        Err(e) => r == Err::<TxnIterator<E>, TxnError<E>>(TxnError::Storage(e)),
        Ok(stored) => match started(scan_run(txn.writes, lower, upper, stored.run())) {
            Ok(_run) => r matches Ok(iter) && yields(iter, txn, lower, upper, stored.run()),
            Err(e) => r == Err::<TxnIterator<E>, TxnError<E>>(TxnError::Storage(e)),
        },
    }
}

/// The writes of a transaction as records of a batch.
fn batch_records(entries: Vec<(Vec<u8>, Vec<u8>)>) -> (r: Vec<WriteBatchRecord>)
    ensures
        record_items(r@) == pair_items(entries@),
{
    let mut records: Vec<WriteBatchRecord> = Vec::new();
    let mut i: usize = 0;
    assert(record_items(records@) =~= pair_items(entries@).take(0));
    while i < entries.len()
        invariant
            i <= entries@.len(),
            record_items(records@) == pair_items(entries@).take(i as int),
        decreases entries@.len() - i,
    {
        let ghost before = records@;
        records.push(
            WriteBatchRecord::Put(
                crate::key::copy_bytes(entries[i].0.as_slice()),
                crate::key::copy_bytes(entries[i].1.as_slice()),
            ),
        );
        proof {
            let item = pair_items(entries@)[i as int];
            assert(record_items(records@) =~= record_items(before).push(item));
            assert(pair_items(entries@).take(i + 1) =~= pair_items(entries@).take(i as int).push(
                item,
            ));
        }
        i = i + 1;
    }
    assert(pair_items(entries@).take(i as int) =~= pair_items(entries@));
    records
}

impl Transaction {
    /// Begins a commit: takes a commit timestamp, forgets the committed transactions that no
    /// reader overlaps, and checks that the commit is serializable. Returns what has to be
    /// written, or nothing if the commit is refused.
    pub fn prepare_commit(&self, mvcc: &mut LsmMvccInner) -> (r: Option<Vec<WriteBatchRecord>>)
        requires
            old(mvcc).wf(),
            old(mvcc)@.latest < u64::MAX,
            (exists|hash: u32| self@.write_hashes.contains(hash)) ==> self@.read_ts
                <= old(mvcc)@.latest,
        ensures
            final(mvcc).wf(),
            final(mvcc)@ == commit_begun(old(mvcc)@),
            r is None <==> refused(self@, commit_begun(old(mvcc)@)),
            r matches Some(records) ==> lists_range(
                record_items(records@),
                self@.writes,
                KeyBound::Unbounded,
                KeyBound::Unbounded,
            ),
    {
        let records = batch_records(skip_map_entries(&self.local_storage));
        let commit_ts: u64 = mvcc.latest_commit_ts() + 1;
        mvcc.update_commit_ts(commit_ts);
        mvcc.forget_old_txns();
        if self.has_writes() && mvcc.conflicts_with(&self.read_set, self.read_ts, commit_ts) {
            return None;
        }
        Some(records)
    }

    /// Ends a commit whose writes were made at `commit_ts`: remembers what was written, and marks
    /// the transaction as committed.
    pub fn finish_commit(&mut self, mvcc: &mut LsmMvccInner, commit_ts: u64)
        requires
            old(mvcc).wf(),
        ensures
            final(mvcc).wf(),
            final(mvcc)@ == commit_recorded(old(self)@, old(mvcc)@, commit_ts),
            final(self)@ == (TxnView { committed: true, ..old(self)@ }),
    {
        mvcc.record_commit(copy_hashes(&self.write_set), self.read_ts, commit_ts);
        self.committed = true;
    }

    /// Commits the transaction: its writes go to the storage underneath as one batch, unless a
    /// transaction that committed since this one began wrote under a key that this one has read.
    ///
    /// The timestamp that the storage underneath writes at becomes the newest commit timestamp.
    pub fn commit<S: TxnStorage>(
        &mut self,
        mvcc: &mut LsmMvccInner,
        storage: &mut LoggedStorage<S>,
    ) -> (r: Result<(), TxnError<S::Error>>)
        requires
            old(mvcc).wf(),
            old(mvcc)@.latest < u64::MAX,
            (exists|hash: u32| old(self)@.write_hashes.contains(hash)) ==> old(self)@.read_ts
                <= old(mvcc)@.latest,
        ensures
            final(mvcc).wf(),
            commit_outcome(
                old(self)@,
                final(self)@,
                old(mvcc)@,
                final(mvcc)@,
                *old(storage),
                *final(storage),
                r,
            ),
    {
        let records = match self.prepare_commit(mvcc) {
            None => {
                return Err(TxnError::NotSerializable);
            },
            Some(records) => records,
        };
        let ghost latest = mvcc@.latest;
        let answer = storage.write_batch_inner(mvcc.latest_commit_ts(), &records);
        let ghost batch = record_items(records@);
        let ghost told = answer;
        assert(handed_over(*old(storage), *storage, latest, batch, told));
        match answer {
            Err(e) => Err(TxnError::Storage(e)),
            Ok(commit_ts) => {
                mvcc.update_commit_ts(commit_ts);
                self.finish_commit(mvcc, commit_ts);
                Ok(())
            },
        }
    }

    /// Ends the transaction: it no longer counts as a reader.
    pub fn release(self, mvcc: &mut LsmMvccInner)
        requires
            old(mvcc).wf(),
            old(mvcc)@.readers.contains(self@.read_ts),
        ensures
            final(mvcc).wf(),
            final(mvcc)@ == (MvccView {
                readers: old(mvcc)@.readers.remove(self@.read_ts),
                ..old(mvcc)@
            }),
    {
        mvcc.remove_reader(self.read_ts);
    }
}

/// How a commit that is not refused ends for each answer of the storage underneath, where `mvcc`
/// is the state of concurrency control when the writes are handed over.
pub open spec fn handover_outcome<E>(
    before: TxnView,
    after: TxnView,
    mvcc: MvccView,
    mvcc_after: MvccView,
    answer: Result<u64, E>,
    r: Result<(), TxnError<E>>,
) -> bool {
    match answer {
        Err(e) => {
            &&& r == Err::<(), TxnError<E>>(TxnError::Storage(e))
            &&& after == before
            &&& mvcc_after == mvcc
        },
        Ok(commit_ts) => {
            &&& r is Ok
            &&& after == (TxnView { committed: true, ..before })
            &&& mvcc_after == commit_recorded(
                before,
                MvccView { latest: commit_ts, ..mvcc },
                commit_ts,
            )
        },
    }
}

/// Whether exactly one batch was handed over between two points in time, and nothing else asked.
pub open spec fn handed_over<S: TxnStorage>(
    before: LoggedStorage<S>,
    after: LoggedStorage<S>,
    latest: u64,
    batch: Seq<Item>,
    answer: Result<u64, S::Error>,
) -> bool {
    asked(before, after, seq![StorageAction::Wrote(latest, batch, answer)])
}

/// How a commit ends. If it is refused, nothing is handed over and the transaction stays as it is.
/// Otherwise its writes are handed over exactly once, as one batch, and the answer decides.
pub open spec fn commit_outcome<S: TxnStorage>(
    before: TxnView,
    after: TxnView,
    mvcc: MvccView,
    mvcc_after: MvccView,
    storage: LoggedStorage<S>,
    storage_after: LoggedStorage<S>,
    r: Result<(), TxnError<S::Error>>,
) -> bool {
    if refused(before, commit_begun(mvcc)) {
        &&& r == Err::<(), TxnError<S::Error>>(TxnError::NotSerializable)
        &&& after == before
        &&& mvcc_after == commit_begun(mvcc)
        &&& storage_after == storage
    } else {
        exists|batch: Seq<Item>, answer: Result<u64, S::Error>|
            {
                &&& #[trigger] handed_over(
                    storage,
                    storage_after,
                    commit_begun(mvcc).latest,
                    batch,
                    answer,
                )
                &&& lists_range(batch, before.writes, KeyBound::Unbounded, KeyBound::Unbounded)
                &&& handover_outcome(before, after, commit_begun(mvcc), mvcc_after, answer, r)
            }
    }
}

impl LsmMvccInner {
    /// Begins a transaction that reads at the newest commit timestamp, and counts it as a reader.
    pub fn new_txn(&mut self) -> (r: Transaction)
        requires
            old(self).wf(),
            old(self)@.readers.count(old(self)@.latest) < usize::MAX,
        ensures
            final(self).wf(),
            final(self)@ == (MvccView {
                readers: old(self)@.readers.insert(old(self)@.latest),
                ..old(self)@
            }),
            r@ == begun(old(self)@.latest),
    {
        let read_ts: u64 = self.latest_commit_ts();
        self.add_reader(read_ts);
        Transaction::new(read_ts)
    }
}

} // verus!
