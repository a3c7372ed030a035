//! The readers in progress, by the timestamp that they read at.
use crate::mvcc::first_key;
use std::collections::BTreeMap;
use vstd::multiset::Multiset;
use vstd::prelude::*;

verus! {

broadcast use {vstd::std_specs::btree::group_btree_axioms, vstd::laws_cmp::group_laws_cmp};

/// Counts the readers in progress at each timestamp.
pub struct Watermark {
    readers: BTreeMap<u64, usize>,
}

/// Whether `ts` is the oldest timestamp that is read at.
pub open spec fn is_oldest(readers: Multiset<u64>, ts: u64) -> bool {
    readers.contains(ts) && forall|other: u64| #[trigger] readers.contains(other) ==> ts <= other
}

/// The oldest timestamp that is read at, if there are readers.
pub open spec fn oldest(readers: Multiset<u64>) -> Option<u64> {
    if exists|ts: u64| readers.contains(ts) {
        Some(choose|ts: u64| is_oldest(readers, ts))
    } else {
        None
    }
}

/// Where there is a reader, there is an oldest one.
proof fn lemma_oldest_exists(readers: Multiset<u64>, ts: u64)
    requires
        readers.contains(ts),
    ensures
        exists|o: u64| is_oldest(readers, o),
    decreases ts,
{
    if exists|other: u64| readers.contains(other) && other < ts {
        let other = choose|other: u64| readers.contains(other) && other < ts;
        lemma_oldest_exists(readers, other);
    } else {
        assert(is_oldest(readers, ts));
    }
}

/// A timestamp that is read at and is not above any other is the oldest one.
proof fn lemma_is_oldest(readers: Multiset<u64>, ts: u64)
    requires
        is_oldest(readers, ts),
    ensures
        oldest(readers) == Some(ts),
{
    let o = choose|o: u64| is_oldest(readers, o);
    assert(is_oldest(readers, o));
    assert(readers.contains(o) && readers.contains(ts));
}

/// The watermark holds for every reader: none of them reads at an older timestamp, and some
/// reader reads at the watermark itself.
pub proof fn law_watermark_bounds_readers(readers: Multiset<u64>, ts: u64)
    requires
        readers.contains(ts),
    ensures
        oldest(readers) matches Some(o) && o <= ts && readers.contains(o),
{
    lemma_oldest_exists(readers, ts);
    lemma_is_oldest(readers, choose|o: u64| is_oldest(readers, o));
}

/// The watermark is the smallest timestamp that is read at, and there is none exactly if there are
/// no readers.
pub proof fn law_watermark_is_the_smallest(readers: Multiset<u64>, ts: u64)
    ensures
        oldest(readers) == Some(ts) <==> readers.count(ts) > 0 && forall|other: u64| #[trigger]
            readers.count(other) > 0 ==> ts <= other,
        oldest(readers) is None <==> forall|other: u64| #[trigger] readers.count(other) == 0,
{
    assert forall|other: u64| readers.contains(other) <==> #[trigger] readers.count(other) > 0 by {}
    if oldest(readers) == Some(ts) {
        let other = choose|other: u64| readers.contains(other);
        lemma_oldest_exists(readers, other);
        assert(is_oldest(readers, ts));
        assert forall|o: u64| #[trigger] readers.count(o) > 0 implies ts <= o by {
            assert(readers.contains(o));
        }
    }
    if readers.count(ts) > 0 && forall|other: u64| #[trigger]
        readers.count(other) > 0 ==> ts <= other {
        assert forall|other: u64| #[trigger] readers.contains(other) implies ts <= other by {
            assert(readers.count(other) > 0);
        }
        assert(is_oldest(readers, ts));
        lemma_is_oldest(readers, ts);
    }
    if oldest(readers) is None {
        assert forall|other: u64| #[trigger] readers.count(other) == 0 by {
            assert(!readers.contains(other));
        }
    }
    if forall|other: u64| #[trigger] readers.count(other) == 0 {
        assert forall|other: u64| !readers.contains(other) by {
            assert(readers.count(other) == 0);
        }
    }
}

/// Removing a reader that was added leaves the readers as they were before it was added.
pub proof fn law_remove_undoes_add(readers: Multiset<u64>, ts: u64)
    ensures
        readers.insert(ts).remove(ts) == readers,
{
    assert(readers.insert(ts).remove(ts) =~= readers);
}

/// A reader that comes in moves the watermark only if it reads at an older timestamp.
pub proof fn law_add_reader_watermark(readers: Multiset<u64>, ts: u64)
    ensures
        oldest(readers.insert(ts)) == match oldest(readers) {
            Some(o) => if ts < o {
                Some(ts)
            } else {
                Some(o)
            },
            None => Some(ts),
        },
{
    let more = readers.insert(ts);
    assert forall|other: u64| #[trigger] more.contains(other) implies other == ts
        || readers.contains(other) by {}
    if exists|other: u64| readers.contains(other) {
        let other = choose|other: u64| readers.contains(other);
        law_watermark_bounds_readers(readers, other);
        let o = oldest(readers)->Some_0;
        lemma_oldest_exists(readers, other);
        assert(is_oldest(readers, o));
        let low = if ts < o {
            ts
        } else {
            o
        };
        assert(is_oldest(more, low));
        lemma_is_oldest(more, low);
    } else {
        assert(is_oldest(more, ts));
        lemma_is_oldest(more, ts);
    }
}

/// The watermark does not move back when a reader goes away.
pub proof fn law_remove_reader_watermark(readers: Multiset<u64>, ts: u64)
    requires
        readers.contains(ts),
    ensures
        oldest(readers.remove(ts)) matches Some(o) ==> oldest(readers) matches Some(before)
            && before <= o,
{
    let fewer = readers.remove(ts);
    if let Some(o) = oldest(fewer) {
        let other = choose|other: u64| fewer.contains(other);
        law_watermark_bounds_readers(fewer, other);
        assert(readers.contains(o));
        law_watermark_bounds_readers(readers, o);
    }
}

impl View for Watermark {
    type V = Multiset<u64>;

    /// The timestamps of the readers in progress, each as often as it has readers.
    closed spec fn view(&self) -> Multiset<u64> {
        Multiset::from_map(self.readers@.map_values(|n: usize| n as nat))
    }
}

impl Watermark {
    /// Every timestamp that is recorded has a reader.
    pub closed spec fn wf(&self) -> bool {
        forall|ts: u64| #[trigger] self.readers@.contains_key(ts) ==> self.readers@[ts] > 0
    }

    /// How many readers there are at a timestamp.
    proof fn lemma_count(&self, ts: u64)
        requires
            self.wf(),
        ensures
            self@.count(ts) == if self.readers@.contains_key(ts) {
                self.readers@[ts] as nat
            } else {
                0
            },
    {
        let counts = self.readers@.map_values(|n: usize| n as nat);
        assert(counts.dom() =~= self.readers@.dom());
    }

    /// No readers.
    pub fn new() -> (r: Self)
        ensures
            r.wf(),
            r@ == Multiset::<u64>::empty(),
    {
        let r = Self { readers: BTreeMap::new() };
        assert(r.readers@.map_values(|n: usize| n as nat).dom() =~= Set::<u64>::empty());
        assert(r@ =~= Multiset::<u64>::empty());
        r
    }

    /// How many readers there are at a timestamp.
    pub fn reader_count(&self, ts: u64) -> (r: usize)
        requires
            self.wf(),
        ensures
            r == self@.count(ts),
    {
        proof {
            self.lemma_count(ts);
        }
        match self.readers.get(&ts) {
            Some(n) => *n,
            None => 0,
        }
    }

    /// Records one more reader at `ts`.
    pub fn add_reader(&mut self, ts: u64)
        requires
            old(self).wf(),
            old(self)@.count(ts) < usize::MAX,
        ensures
            final(self).wf(),
            final(self)@ == old(self)@.insert(ts),
    {
        let previous: usize = self.reader_count(ts);
        self.readers.insert(ts, previous + 1);
        proof {
            assert forall|other: u64| self@.count(other) == old(self)@.insert(ts).count(other) by {
                self.lemma_count(other);
                old(self).lemma_count(other);
            }
            assert(self@ =~= old(self)@.insert(ts));
        }
    }

    /// Takes back one reader at `ts`.
    pub fn remove_reader(&mut self, ts: u64)
        requires
            old(self).wf(),
            old(self)@.contains(ts),
        ensures
            final(self).wf(),
            final(self)@ == old(self)@.remove(ts),
    {
        let previous: usize = self.reader_count(ts);
        if previous == 1 {
            self.readers.remove(&ts);
        } else {
            self.readers.insert(ts, previous - 1);
        }
        proof {
            assert forall|other: u64| self@.count(other) == old(self)@.remove(ts).count(other) by {
                self.lemma_count(other);
                old(self).lemma_count(other);
            }
            assert(self@ =~= old(self)@.remove(ts));
        }
    }

    /// The oldest timestamp that is read at.
    pub fn watermark(&self) -> (r: Option<u64>)
        requires
            self.wf(),
        ensures
            r == oldest(self@),
    {
        let first = first_key(&self.readers);
        proof {
            assert forall|ts: u64| #[trigger] self@.contains(ts)
                <==> self.readers@.contains_key(ts) by {
                self.lemma_count(ts);
            }
            match first {
                Some(ts) => {
                    assert(self@.contains(ts));
                    assert(is_oldest(self@, ts));
                    lemma_is_oldest(self@, ts);
                },
                None => {
                    assert forall|ts: u64| !(#[trigger] self@.contains(ts)) by {
                        assert(!self.readers@.dom().contains(ts));
                    }
                },
            }
        }
        first
    }

    /// How many different timestamps are read at.
    pub fn num_retained_snapshots(&self) -> (r: usize)
        requires
            self.wf(),
        ensures
            r == self@.dom().len(),
    {
        proof {
            assert forall|ts: u64| #[trigger] self@.dom().contains(ts)
                <==> self.readers@.dom().contains(ts) by {
                self.lemma_count(ts);
                assert(self@.contains(ts) <==> self@.count(ts) > 0);
            }
            assert(self@.dom() =~= self.readers@.dom());
        }
        self.readers.len()
    }
}

impl Default for Watermark {
    /// No readers.
    fn default() -> (r: Self)
        ensures
            r.wf(),
            r@ == Multiset::<u64>::empty(),
    {
        Self::new()
    }
}

} // verus!
