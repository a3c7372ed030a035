//! Multi-version concurrency control: timestamps, the readers that hold on to them, and
//! transactions.
pub mod history_laws;
pub mod scan_laws;
pub mod txn;
pub mod txn_laws;
pub mod watermark;

#[allow(unused_imports)]
use crate::mvcc::watermark::oldest;
use crate::mvcc::watermark::Watermark;
use std::collections::{BTreeMap, HashSet};
use vstd::multiset::Multiset;
#[allow(unused_imports)]
use vstd::std_specs::cmp::OrdSpec;
#[allow(unused_imports)]
use vstd::std_specs::iter::IteratorSpec;
use vstd::prelude::*;

verus! {

broadcast use {
    vstd::std_specs::btree::group_btree_axioms,
    vstd::std_specs::hash::group_hash_axioms,
    vstd::laws_cmp::group_laws_cmp,
};

/// The smallest key of a map.
pub(crate) fn first_key<V>(map: &BTreeMap<u64, V>) -> (r: Option<u64>)
    ensures
        r is None <==> map@.dom() == Set::<u64>::empty(),
        r matches Some(k) ==> map@.contains_key(k) && forall|j: u64|
            #[trigger] map@.contains_key(j) ==> k <= j,
{
    let ghost entries = map.iter().remaining();
    let ghost keys = entries.map_values(|kv: (&u64, &V)| *kv.0);
    assert(vstd::std_specs::btree::key_obeys_cmp_spec::<u64>());
    for kv in it: map.iter()
        invariant
            it.index() == 0,
            it.seq() == entries,
            entries == map.iter().remaining(),
            keys == entries.map_values(|kv: (&u64, &V)| *kv.0),
            vstd::std_specs::btree::increasing_seq(keys),
    {
        proof {
            assert forall|j: u64| #[trigger] map@.contains_key(j) implies *kv.0 <= j by {
                assert(entries.contains((&j, &map@[j])));
                let i = choose|i: int| 0 <= i < entries.len() && entries[i] == (&j, &map@[j]);
                if i > 0 {
                    assert(keys[0] == *kv.0 && keys[i] == j);
                    assert(keys[0].cmp_spec(&keys[i]) is Less);
                }
            }
        }
        return Some(*kv.0);
    }
    assert(map@.dom() =~= Set::<u64>::empty()) by {
        assert forall|k: u64| !map@.contains_key(k) by {
            if map@.contains_key(k) {
                assert(entries.contains((&k, &map@[k])));
            }
        }
    }
    None
}

/// What is remembered of a committed transaction.
#[verifier::ext_equal]
pub struct CommittedView {
    pub key_hashes: Set<u32>,
    pub read_ts: u64,
    pub commit_ts: u64,
}

/// What is remembered of a committed transaction: the hashes of the keys that it wrote, and the
/// timestamps that it read and wrote at.
pub struct CommittedTxnData {
    key_hashes: HashSet<u32>,
    read_ts: u64,
    commit_ts: u64,
}

impl View for CommittedTxnData {
    type V = CommittedView;

    closed spec fn view(&self) -> CommittedView {
        CommittedView {
            key_hashes: self.key_hashes@,
            read_ts: self.read_ts,
            commit_ts: self.commit_ts,
        }
    }
}

/// The committed transactions that are left once those before `watermark` are forgotten.
pub open spec fn forget_before(
    committed: Map<u64, CommittedView>,
    watermark: u64,
) -> Map<u64, CommittedView> {
    committed.restrict(Set::new(|ts: u64| ts >= watermark))
}

/// Whether a transaction that committed between `read_ts` and `commit_ts` wrote under one of
/// `read_hashes`.
pub open spec fn conflict(
    committed: Map<u64, CommittedView>,
    read_hashes: Set<u32>,
    read_ts: u64,
    commit_ts: u64,
) -> bool {
    exists|ts: u64, hash: u32|
        {
            &&& #[trigger] committed.contains_key(ts)
            &&& read_ts < ts < commit_ts
            &&& #[trigger] read_hashes.contains(hash)
            &&& committed[ts].key_hashes.contains(hash)
        }
}

/// The state of concurrency control.
#[verifier::ext_equal]
pub struct MvccView {
    /// The newest commit timestamp.
    pub latest: u64,
    /// The timestamps that are read at, each as often as it has readers.
    pub readers: Multiset<u64>,
    /// The committed transactions that are remembered, by commit timestamp.
    pub committed: Map<u64, CommittedView>,
}

impl MvccView {
    /// The oldest timestamp that can still be read at.
    pub open spec fn watermark(self) -> u64 {
        match oldest(self.readers) {
            Some(ts) => ts,
            None => self.latest,
        }
    }
}

/// The state of concurrency control: the newest commit timestamp, the readers in progress, and
/// the transactions that committed since the oldest of them began.
pub struct LsmMvccInner {
    latest_commit_ts: u64,
    readers: Watermark,
    committed_txns: BTreeMap<u64, CommittedTxnData>,
}

impl View for LsmMvccInner {
    type V = MvccView;

    closed spec fn view(&self) -> MvccView {
        MvccView {
            latest: self.latest_commit_ts,
            readers: self.readers@,
            committed: self.committed_txns@.map_values(|data: CommittedTxnData| data@),
        }
    }
}

impl LsmMvccInner {
    /// Whether the record of readers is consistent.
    pub closed spec fn wf(&self) -> bool {
        self.readers.wf()
    }

    /// No readers and no committed transactions, with `initial_ts` as the newest timestamp.
    pub fn new(initial_ts: u64) -> (r: Self)
        ensures
            r.wf(),
            r@.latest == initial_ts,
            r@.readers == Multiset::<u64>::empty(),
            r@.committed == Map::<u64, CommittedView>::empty(),
    {
        let r = LsmMvccInner {
            latest_commit_ts: initial_ts,
            readers: Watermark::new(),
            committed_txns: BTreeMap::new(),
        };
        assert(r@.committed =~= Map::<u64, CommittedView>::empty());
        r
    }

    /// The newest commit timestamp.
    pub fn latest_commit_ts(&self) -> (r: u64)
        ensures
            r == self@.latest,
    {
        self.latest_commit_ts
    }

    /// Makes `ts` the newest commit timestamp.
    pub fn update_commit_ts(&mut self, ts: u64)
        requires
            old(self).wf(),
        ensures
            final(self).wf(),
            final(self)@ == (MvccView { latest: ts, ..old(self)@ }),
    {
        self.latest_commit_ts = ts;
    }

    /// The oldest timestamp that can still be read at: that of the oldest reader, or the newest
    /// commit timestamp where there are no readers.
    pub fn watermark(&self) -> (r: u64)
        requires
            self.wf(),
        ensures
            r == self@.watermark(),
    {
        match self.readers.watermark() {
            Some(ts) => ts,
            None => self.latest_commit_ts,
        }
    }

    /// How many readers there are at `ts`.
    pub fn reader_count(&self, ts: u64) -> (r: usize)
        requires
            self.wf(),
        ensures
            r == self@.readers.count(ts),
    {
        self.readers.reader_count(ts)
    }

    /// Records a reader at `ts`.
    pub fn add_reader(&mut self, ts: u64)
        requires
            old(self).wf(),
            old(self)@.readers.count(ts) < usize::MAX,
        ensures
            final(self).wf(),
            final(self)@ == (MvccView { readers: old(self)@.readers.insert(ts), ..old(self)@ }),
    {
        self.readers.add_reader(ts);
    }

    /// Takes back a reader at `ts`.
    pub fn remove_reader(&mut self, ts: u64)
        requires
            old(self).wf(),
            old(self)@.readers.contains(ts),
        ensures
            final(self).wf(),
            final(self)@ == (MvccView { readers: old(self)@.readers.remove(ts), ..old(self)@ }),
    {
        self.readers.remove_reader(ts);
    }

    /// Forgets the committed transactions before the watermark.
    pub fn forget_old_txns(&mut self)
        requires
            old(self).wf(),
        ensures
            final(self).wf(),
            final(self)@ == (MvccView {
                committed: forget_before(old(self)@.committed, old(self)@.watermark()),
                ..old(self)@
            }),
    {
        let watermark: u64 = self.watermark();
        let ghost start = self.committed_txns@;
        let mut oldest_txn = first_key(&self.committed_txns);
        while oldest_txn.is_some() && oldest_txn.unwrap() < watermark
            invariant
                self.wf(),
                self.latest_commit_ts == old(self).latest_commit_ts,
                self.readers == old(self).readers,
                forall|ts: u64|
                    #![trigger self.committed_txns@.contains_key(ts)]
                    self.committed_txns@.contains_key(ts) ==> start.contains_key(ts)
                        && self.committed_txns@[ts] == start[ts],
                forall|ts: u64|
                    #![trigger start.contains_key(ts)]
                    start.contains_key(ts) && ts >= watermark ==> self.committed_txns@.contains_key(
                        ts,
                    ),
                oldest_txn is None <==> self.committed_txns@.dom() == Set::<u64>::empty(),
                oldest_txn matches Some(k) ==> self.committed_txns@.contains_key(k) && forall|
                    j: u64,
                | #[trigger]
                    self.committed_txns@.contains_key(j) ==> k <= j,
            decreases self.committed_txns@.dom().len(),
        {
            let ts: u64 = oldest_txn.unwrap();
            self.committed_txns.remove(&ts);
            oldest_txn = first_key(&self.committed_txns);
        }
        proof {
            let left = forget_before(old(self)@.committed, watermark);
            assert forall|ts: u64| #[trigger] self@.committed.contains_key(ts)
                <==> left.contains_key(ts) by {
                assert(self@.committed.contains_key(ts) <==> self.committed_txns@.contains_key(ts));
                if self.committed_txns@.contains_key(ts) {
                    assert(ts >= watermark);
                }
            }
            assert(self@.committed =~= left);
        }
    }

    /// Whether a transaction that committed between `read_ts` and `commit_ts` wrote under one of
    /// the hashes.
    pub fn conflicts_with(
        &self,
        read_hashes: &HashSet<u32>,
        read_ts: u64,
        commit_ts: u64,
    ) -> (r: bool)
        ensures
            r == conflict(self@.committed, read_hashes@, read_ts, commit_ts),
    {
        let ghost entries = self.committed_txns.iter().remaining();
        assert(vstd::std_specs::btree::key_obeys_cmp_spec::<u64>());
        for entry in it: self.committed_txns.iter()
            invariant
                it.seq() == entries,
                entries == self.committed_txns.iter().remaining(),
                forall|i: int|
                    #![trigger entries[i]]
                    0 <= i < it.index() ==> {
                        let ts = *entries[i].0;
                        read_ts < ts < commit_ts ==> (*entries[i].1)@.key_hashes.disjoint(
                            read_hashes@,
                        )
                    },
        {
            let ts: u64 = *entry.0;
            if read_ts < ts && ts < commit_ts && shares_hash(read_hashes, &entry.1.key_hashes) {
                proof {
                    let hash = choose|hash: u32|
                        read_hashes@.contains(hash) && entry.1.key_hashes@.contains(hash);
                    assert(self@.committed.contains_key(ts));
                    assert(self@.committed[ts] == entry.1@);
                    assert(read_hashes@.contains(hash));
                }
                return true;
            }
        }
        proof {
            if conflict(self@.committed, read_hashes@, read_ts, commit_ts) {
                let (ts, hash) = choose|ts: u64, hash: u32|
                    {
                        &&& #[trigger] self@.committed.contains_key(ts)
                        &&& read_ts < ts < commit_ts
                        &&& #[trigger] read_hashes@.contains(hash)
                        &&& self@.committed[ts].key_hashes.contains(hash)
                    };
                assert(self.committed_txns@.contains_key(ts));
                assert(entries.contains((&ts, &self.committed_txns@[ts])));
            }
        }
        false
    }

    /// Remembers a committed transaction.
    pub fn record_commit(&mut self, key_hashes: HashSet<u32>, read_ts: u64, commit_ts: u64)
        requires
            old(self).wf(),
        ensures
            final(self).wf(),
            final(self)@ == (MvccView {
                committed: old(self)@.committed.insert(
                    commit_ts,
                    CommittedView { key_hashes: key_hashes@, read_ts, commit_ts },
                ),
                ..old(self)@
            }),
    {
        let data = CommittedTxnData { key_hashes, read_ts, commit_ts };
        self.committed_txns.insert(commit_ts, data);
        assert(self@.committed =~= old(self)@.committed.insert(commit_ts, data@));
    }
}

/// Whether two sets of hashes overlap.
fn shares_hash(a: &HashSet<u32>, b: &HashSet<u32>) -> (r: bool)
    ensures
        r == exists|hash: u32| a@.contains(hash) && b@.contains(hash),
{
    let ghost hashes = a.iter().remaining();
    for hash in it: a.iter()
        invariant
            it.seq() == hashes,
            hashes.unref().to_set() == a@,
            forall|i: int| 0 <= i < it.index() ==> !b@.contains(*(#[trigger] hashes[i])),
    {
        if b.contains(hash) {
            assert(hashes.unref()[it.index()] == *hash);
            assert(a@.contains(*hash));
            return true;
        }
    }
    assert forall|hash: u32| a@.contains(hash) implies !b@.contains(hash) by {
        assert(hashes.unref().contains(hash));
    }
    false
}

} // verus!
