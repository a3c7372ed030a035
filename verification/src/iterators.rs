//! Iterators over runs of key-value pairs, and how several runs merge into one.
use crate::key::{KeyOrder, StorageKey};
#[allow(unused_imports)]
use crate::key::{lemma_key_total, lemma_key_transitive, KeyView};
use vstd::prelude::*;

verus! {

/// A key with the value stored under it. An empty value marks a deletion.
#[verifier::ext_equal]
pub struct Item {
    pub key: KeyView,
    pub value: Seq<u8>,
}

/// A run as far as it can be read: its pairs, and the error that stops the reading behind them, if
/// it is not read to its end.
#[verifier::ext_equal]
pub struct Run<E> {
    pub items: Seq<Item>,
    pub end: Option<E>,
}

/// A run that is read to its end.
pub open spec fn whole<E>(items: Seq<Item>) -> Run<E> {
    Run { items, end: None }
}

/// A run when its first pair is looked for: an error where not even that can be read.
pub open spec fn started<E>(run: Run<E>) -> Result<Run<E>, E> {
    match run.end {
        Some(e) => if run.items.len() == 0 {
            Err(e)
        } else {
            Ok(run)
        },
        None => Ok(run),
    }
}

/// What is left of a run once its first pair is passed: an error where nothing can be read behind
/// it.
pub open spec fn advanced<E>(run: Run<E>) -> Result<Run<E>, E> {
    started(Run { items: run.items.skip(1), end: run.end })
}

/// An iterator over a run of key-value pairs.
pub trait StorageIterator {
    /// The form in which the iterator hands out its keys.
    type KeyType: StorageKey;

    /// Why the run could not be read on.
    type Error;

    /// Whether the iterator's internal position is consistent.
    spec fn wf(&self) -> bool;

    /// What the iterator has yet to pass, the current pair first.
    spec fn run(&self) -> Run<Self::Error>;

    /// How many basic iterators the iterator is made of.
    spec fn active(&self) -> nat;

    /// A consistent iterator is at a pair, or at the end of its run.
    proof fn lemma_positioned(&self)
        requires
            self.wf(),
        ensures
            positioned(self.run()),
    ;

    /// Whether there is a current pair.
    fn is_valid(&self) -> (r: bool)
        requires
            self.wf(),
        ensures
            r == (self.run().items.len() > 0),
    ;

    /// The key of the current pair.
    fn key(&self) -> (r: &Self::KeyType)
        requires
            self.wf(),
            self.run().items.len() > 0,
        ensures
            r.model() == self.run().items[0].key,
    ;

    /// The value of the current pair.
    fn value(&self) -> (r: &Vec<u8>)
        requires
            self.wf(),
            self.run().items.len() > 0,
        ensures
            r@ == self.run().items[0].value,
    ;

    /// Moves to the next pair. Where it cannot be read, the iterator is of no more use.
    fn next(&mut self) -> (r: Result<(), Self::Error>)
        requires
            old(self).wf(),
            old(self).run().items.len() > 0,
        ensures
            match advanced(old(self).run()) {
                Ok(run) => {
                    &&& r is Ok
                    &&& final(self).wf()
                    &&& final(self).run() == run
                    &&& final(self).active() == old(self).active()
                },
                Err(e) => r == Err::<(), Self::Error>(e),
            },
            r is Ok ==> {
                &&& final(self).run().items == old(self).run().items.skip(1)
                &&& final(self).run().end == old(self).run().end
            },
            r matches Err(e) ==> {
                &&& old(self).run().items.len() == 1
                &&& old(self).run().end == Some(e)
            },
    ;

    /// The number of basic iterators that the iterator is made of.
    fn num_active_iterators(&self) -> (r: usize)
        requires
            self.active() <= usize::MAX,
        ensures
            r == self.active(),
    ;
}

/// The merge of two runs: the smaller key goes first, and of two pairs under one key only that
/// of the first run is kept.
pub open spec fn two_merge(a: Seq<Item>, b: Seq<Item>) -> Seq<Item>
    decreases a.len() + b.len(),
{
    if a.len() == 0 {
        b
    } else if b.len() == 0 {
        a
    } else if a[0].key.lt(b[0].key) {
        seq![a[0]] + two_merge(a.skip(1), b)
    } else if a[0].key == b[0].key {
        seq![a[0]] + two_merge(a.skip(1), b.skip(1))
    } else {
        seq![b[0]] + two_merge(a, b.skip(1))
    }
}

/// The merge of several runs, in which an earlier run takes precedence over a later one.
pub open spec fn merge_all(runs: Seq<Seq<Item>>) -> Seq<Item>
    decreases runs.len(),
{
    if runs.len() == 0 {
        Seq::empty()
    } else {
        two_merge(runs[0], merge_all(runs.skip(1)))
    }
}

/// What comes first in the merge of two runs.
pub open spec fn merge_head<E>(a: Run<E>, b: Run<E>) -> Item {
    if a.items.len() == 0 || (b.items.len() > 0 && b.items[0].key.lt(a.items[0].key)) {
        b.items[0]
    } else {
        a.items[0]
    }
}

/// What is left of two runs once the first pair of their merge is passed. Of two pairs under one
/// key that of the second run is passed before that of the first.
pub open spec fn merge_step<E>(a: Run<E>, b: Run<E>) -> Result<(Run<E>, Run<E>), E> {
    if a.items.len() == 0 || (b.items.len() > 0 && b.items[0].key.lt(a.items[0].key)) {
        match advanced(b) {
            Ok(rest) => Ok((a, rest)),
            Err(e) => Err(e),
        }
    } else if b.items.len() > 0 && b.items[0].key == a.items[0].key {
        match advanced(b) {
            Ok(b_rest) => match advanced(a) {
                Ok(a_rest) => Ok((a_rest, b_rest)),
                Err(e) => Err(e),
            },
            Err(e) => Err(e),
        }
    } else {
        match advanced(a) {
            Ok(rest) => Ok((rest, b)),
            Err(e) => Err(e),
        }
    }
}

/// The merge of two runs as far as it can be read: up to the pair behind which one of them cannot
/// be read on.
pub open spec fn merge_runs<E>(a: Run<E>, b: Run<E>) -> Run<E>
    decreases a.items.len() + b.items.len(),
{
    if a.items.len() == 0 && b.items.len() == 0 {
        whole(Seq::empty())
    } else {
        let head = seq![merge_head(a, b)];
        match merge_step(a, b) {
            Err(e) => Run { items: head, end: Some(e) },
            Ok((a_rest, b_rest)) => {
                let rest = merge_runs(a_rest, b_rest);
                Run { items: head + rest.items, end: rest.end }
            },
        }
    }
}

/// The merge of several runs as far as it can be read.
pub open spec fn merge_all_runs<E>(runs: Seq<Run<E>>) -> Run<E>
    decreases runs.len(),
{
    if runs.len() == 0 {
        whole(Seq::empty())
    } else {
        merge_runs(runs[0], merge_all_runs(runs.skip(1)))
    }
}

/// Whether a run is at a pair, or at its end.
pub open spec fn positioned<E>(run: Run<E>) -> bool {
    run.items.len() == 0 ==> run.end is None
}

/// A merge of two runs yields the smaller of their first pairs, and goes on with what is left of
/// them then.
pub(crate) proof fn lemma_merge_step<E>(a: Run<E>, b: Run<E>)
    requires
        positioned(a),
        positioned(b),
    ensures
        positioned(merge_runs(a, b)),
        merge_runs(a, b).items.len() > 0 <==> a.items.len() + b.items.len() > 0,
        a.items.len() + b.items.len() > 0 ==> {
            &&& merge_runs(a, b).items[0] == merge_head(a, b)
            &&& match merge_step(a, b) {
                Ok((a_rest, b_rest)) => {
                    &&& positioned(a_rest)
                    &&& positioned(b_rest)
                    &&& a_rest.items.len() + b_rest.items.len() < a.items.len() + b.items.len()
                    &&& advanced(merge_runs(a, b)) == Ok::<Run<E>, E>(merge_runs(a_rest, b_rest))
                },
                Err(e) => advanced(merge_runs(a, b)) == Err::<Run<E>, E>(e),
            }
        },
    decreases a.items.len() + b.items.len(),
{
    if a.items.len() + b.items.len() > 0 {
        let merged = merge_runs(a, b);
        match merge_step(a, b) {
            Ok((a_rest, b_rest)) => {
                lemma_merge_step(a_rest, b_rest);
                assert(merged.items.skip(1) =~= merge_runs(a_rest, b_rest).items);
            },
            Err(e) => {
                assert(merged.items.skip(1) =~= Seq::<Item>::empty());
            },
        }
    }
}

/// A merge of two runs is read to its end exactly if both of them are, and then holds what the
/// merge of their pairs holds.
pub proof fn lemma_whole_merge<E>(a: Run<E>, b: Run<E>)
    requires
        positioned(a),
        positioned(b),
    ensures
        merge_runs(a, b).end is None <==> a.end is None && b.end is None,
        merge_runs(a, b).end is None ==> merge_runs(a, b).items == two_merge(a.items, b.items),
    decreases a.items.len() + b.items.len(),
{
    if a.items.len() + b.items.len() > 0 {
        lemma_merge_step(a, b);
        if let Ok((a_rest, b_rest)) = merge_step(a, b) {
            lemma_whole_merge(a_rest, b_rest);
            if a.items.len() > 0 && b.items.len() > 0 {
                lemma_key_total(a.items[0].key, b.items[0].key);
            } else if a.items.len() > 0 {
                assert(seq![a.items[0]] + a.items.skip(1) =~= a.items);
                assert(two_merge(a.items.skip(1), b.items) =~= a.items.skip(1));
            } else {
                assert(seq![b.items[0]] + b.items.skip(1) =~= b.items);
                assert(two_merge(a.items, b.items.skip(1)) =~= b.items.skip(1));
            }
        }
    }
}

/// The pairs of several runs.
pub open spec fn items_of_runs<E>(runs: Seq<Run<E>>) -> Seq<Seq<Item>> {
    runs.map_values(|run: Run<E>| run.items)
}

/// A merge of several runs is read to its end exactly if all of them are, and then holds what the
/// merge of their pairs holds.
pub proof fn lemma_whole_merge_all<E>(runs: Seq<Run<E>>)
    requires
        forall|i: int| 0 <= i < runs.len() ==> positioned(#[trigger] runs[i]),
    ensures
        positioned(merge_all_runs(runs)),
        merge_all_runs(runs).end is None <==> forall|i: int|
            0 <= i < runs.len() ==> (#[trigger] runs[i]).end is None,
        merge_all_runs(runs).end is None ==> merge_all_runs(runs).items == merge_all(
            items_of_runs(runs),
        ),
    decreases runs.len(),
{
    if runs.len() > 0 {
        let tail = runs.skip(1);
        assert forall|i: int| 0 <= i < tail.len() implies positioned(#[trigger] tail[i]) by {
            assert(tail[i] == runs[i + 1]);
        }
        lemma_whole_merge_all(tail);
        lemma_merge_step(runs[0], merge_all_runs(tail));
        lemma_whole_merge(runs[0], merge_all_runs(tail));
        assert(items_of_runs(runs).skip(1) =~= items_of_runs(tail));
        if merge_all_runs(runs).end is None {
            assert forall|i: int| 0 <= i < runs.len() implies (#[trigger] runs[i]).end is None by {
                if i > 0 {
                    assert(tail[i - 1] == runs[i]);
                }
            }
        } else if forall|i: int| 0 <= i < runs.len() ==> (#[trigger] runs[i]).end is None {
            assert forall|i: int| 0 <= i < tail.len() implies (#[trigger] tail[i]).end is None by {
                assert(tail[i] == runs[i + 1]);
            }
            assert(runs[0].end is None);
        }
    }
}

/// Iterates over the merge of two iterators; the first one takes precedence.
pub struct TwoMergeIterator<A, B> {
    a: A,
    b: B,
}

/// Which iterators of a merge of two the current pair is at.
enum Side {
    /// The first alone.
    First,
    /// The second alone.
    Second,
    /// Both; the pair of the first hides that of the second.
    Both,
}

impl<
    K: StorageKey,
    E,
    A: StorageIterator<KeyType = K, Error = E>,
    B: StorageIterator<KeyType = K, Error = E>,
> TwoMergeIterator<A, B> {
    /// The first of the two iterators.
    pub closed spec fn first(&self) -> A {
        self.a
    }

    /// The second of the two iterators.
    pub closed spec fn second(&self) -> B {
        self.b
    }

    /// The merge is that of the two iterators.
    pub proof fn lemma_merges(&self)
        ensures
            self.wf() == (self.first().wf() && self.second().wf()),
            self.run() == merge_runs(self.first().run(), self.second().run()),
            self.active() == self.first().active() + self.second().active(),
    {
    }

    /// The first of the two iterators, to be moved or changed.
    pub fn first_mut(&mut self) -> (r: &mut A)
        ensures
            *r == old(self).first(),
            final(self).first() == *final(r),
            final(self).second() == old(self).second(),
    {
        &mut self.a
    }

    /// Merges two iterators.
    pub fn create(a: A, b: B) -> (r: Self)
        requires
            a.wf(),
            b.wf(),
        ensures
            r.wf(),
            r.first() == a,
            r.second() == b,
            r.run() == merge_runs(a.run(), b.run()),
            r.active() == a.active() + b.active(),
    {
        TwoMergeIterator { a, b }
    }

    /// Which iterators the current pair is at.
    fn side(&self) -> (r: Side)
        requires
            self.wf(),
            self.run().items.len() > 0,
        ensures
            self.run().items[0] == merge_head(self.a.run(), self.b.run()),
            ({
                let a = self.a.run().items;
                let b = self.b.run().items;
                match r {
                    Side::First => a.len() > 0 && (b.len() == 0 || a[0].key.lt(b[0].key)),
                    Side::Second => b.len() > 0 && (a.len() == 0 || b[0].key.lt(a[0].key)),
                    Side::Both => a.len() > 0 && b.len() > 0 && a[0].key == b[0].key,
                }
            }),
    {
        proof {
            self.a.lemma_positioned();
            self.b.lemma_positioned();
            lemma_merge_step(self.a.run(), self.b.run());
        }
        if !self.a.is_valid() {
            return Side::Second;
        }
        if !self.b.is_valid() {
            return Side::First;
        }
        match self.a.key().compare(self.b.key()) {
            KeyOrder::Less => Side::First,
            KeyOrder::Equal => Side::Both,
            KeyOrder::Greater => Side::Second,
        }
    }
}

impl<
    K: StorageKey,
    E,
    A: StorageIterator<KeyType = K, Error = E>,
    B: StorageIterator<KeyType = K, Error = E>,
> StorageIterator for TwoMergeIterator<A, B> {
    type KeyType = K;

    type Error = E;

    closed spec fn wf(&self) -> bool {
        self.a.wf() && self.b.wf()
    }

    closed spec fn run(&self) -> Run<E> {
        merge_runs(self.a.run(), self.b.run())
    }

    closed spec fn active(&self) -> nat {
        self.a.active() + self.b.active()
    }

    proof fn lemma_positioned(&self) {
        self.a.lemma_positioned();
        self.b.lemma_positioned();
        lemma_merge_step(self.a.run(), self.b.run());
    }

    fn is_valid(&self) -> (r: bool) {
        proof {
            self.a.lemma_positioned();
            self.b.lemma_positioned();
            lemma_merge_step(self.a.run(), self.b.run());
        }
        self.a.is_valid() || self.b.is_valid()
    }

    fn key(&self) -> (r: &K) {
        proof {
            lemma_key_order(self.a.run(), self.b.run());
        }
        match self.side() {
            Side::Second => self.b.key(),
            _ => self.a.key(),
        }
    }

    fn value(&self) -> (r: &Vec<u8>) {
        proof {
            lemma_key_order(self.a.run(), self.b.run());
        }
        match self.side() {
            Side::Second => self.b.value(),
            _ => self.a.value(),
        }
    }

    fn next(&mut self) -> (r: Result<(), E>)
        ensures
            match merge_step(old(self).first().run(), old(self).second().run()) {
                Ok((a, b)) => {
                    &&& r is Ok
                    &&& final(self).first().run() == a
                    &&& final(self).second().run() == b
                },
                Err(e) => r == Err::<(), E>(e),
            },
    {
        proof {
            lemma_key_order(self.a.run(), self.b.run());
            self.a.lemma_positioned();
            self.b.lemma_positioned();
            lemma_merge_step(self.a.run(), self.b.run());
        }
        match self.side() {
            Side::First => self.a.next(),
            Side::Second => self.b.next(),
            Side::Both => match self.b.next() {
                Err(e) => Err(e),
                Ok(_done) => self.a.next(),
            },
        }
    }

    fn num_active_iterators(&self) -> (r: usize) {
        self.a.num_active_iterators() + self.b.num_active_iterators()
    }
}

/// The first keys of two runs are in one order only.
proof fn lemma_key_order<E>(a: Run<E>, b: Run<E>)
    ensures
        a.items.len() > 0 && b.items.len() > 0 ==> {
            &&& a.items[0].key.lt(b.items[0].key) ==> !b.items[0].key.lt(a.items[0].key)
                && a.items[0].key != b.items[0].key
            &&& a.items[0].key == b.items[0].key ==> !b.items[0].key.lt(a.items[0].key)
        },
{
    if a.items.len() > 0 && b.items.len() > 0 {
        lemma_key_total(a.items[0].key, b.items[0].key);
    }
}

/// Whether run `i` is the first one among those whose next key is the smallest.
pub open spec fn leads(runs: Seq<Seq<Item>>, i: int) -> bool {
    &&& 0 <= i < runs.len()
    &&& runs[i].len() > 0
    &&& forall|j: int|
        #![trigger runs[j]]
        0 <= j < runs.len() && runs[j].len() > 0 ==> {
            &&& !runs[j][0].key.lt(runs[i][0].key)
            &&& j < i ==> runs[j][0].key != runs[i][0].key
        }
}

/// The runs once their pairs under `key` have been passed, those of later runs first.
pub open spec fn pass_key<E>(runs: Seq<Run<E>>, key: KeyView) -> Result<Seq<Run<E>>, E>
    decreases runs.len(),
{
    if runs.len() == 0 {
        Ok(runs)
    } else {
        match pass_key(runs.skip(1), key) {
            Err(e) => Err(e),
            Ok(rest) => if at_key(runs[0], key) {
                match advanced(runs[0]) {
                    Err(e) => Err(e),
                    Ok(first) => Ok(seq![first] + rest),
                }
            } else {
                Ok(seq![runs[0]] + rest)
            },
        }
    }
}

/// Whether a run is at a key.
pub open spec fn at_key<E>(run: Run<E>, key: KeyView) -> bool {
    run.items.len() > 0 && run.items[0].key == key
}

/// Runs of which none is at a key stay as they are.
proof fn lemma_pass_none<E>(runs: Seq<Run<E>>, key: KeyView)
    requires
        forall|i: int| 0 <= i < runs.len() ==> !at_key(#[trigger] runs[i], key),
    ensures
        pass_key(runs, key) == Ok::<Seq<Run<E>>, E>(runs),
    decreases runs.len(),
{
    if runs.len() > 0 {
        let tail = runs.skip(1);
        assert forall|i: int| 0 <= i < tail.len() implies !at_key(#[trigger] tail[i], key) by {
            assert(tail[i] == runs[i + 1]);
        }
        lemma_pass_none(tail, key);
        assert(!at_key(runs[0], key));
        assert(seq![runs[0]] + tail =~= runs);
    }
}

/// A merge of several runs is empty when all of them are.
proof fn lemma_merge_all_empty<E>(runs: Seq<Run<E>>)
    requires
        forall|i: int| 0 <= i < runs.len() ==> (#[trigger] runs[i]).items.len() == 0,
    ensures
        merge_all_runs(runs) == whole::<E>(Seq::empty()),
    decreases runs.len(),
{
    if runs.len() > 0 {
        let tail = runs.skip(1);
        assert forall|i: int| 0 <= i < tail.len() implies (#[trigger] tail[i]).items.len() == 0 by {
            assert(tail[i] == runs[i + 1]);
        }
        lemma_merge_all_empty(tail);
        assert(runs[0].items.len() == 0);
    }
}

/// What leads several runs leads the rest of them, if it is not the first.
proof fn lemma_leads_tail(runs: Seq<Seq<Item>>, i: int)
    requires
        leads(runs, i),
        i > 0,
    ensures
        leads(runs.skip(1), i - 1),
{
    let tail = runs.skip(1);
    assert forall|j: int| #![trigger tail[j]] 0 <= j < tail.len() && tail[j].len() > 0 implies {
        &&& !tail[j][0].key.lt(tail[i - 1][0].key)
        &&& j < i - 1 ==> tail[j][0].key != tail[i - 1][0].key
    } by {
        assert(tail[j] == runs[j + 1]);
    }
}

/// A merge of several runs yields first what the leading run is at, and goes on with all the
/// runs moved past that key.
proof fn lemma_merge_all_step<E>(runs: Seq<Run<E>>, i: int)
    requires
        forall|j: int| 0 <= j < runs.len() ==> positioned(#[trigger] runs[j]),
        leads(items_of_runs(runs), i),
    ensures
        merge_all_runs(runs).items.len() > 0,
        merge_all_runs(runs).items[0] == runs[i].items[0],
        match pass_key(runs, runs[i].items[0].key) {
            Ok(moved) => advanced(merge_all_runs(runs)) == Ok::<Run<E>, E>(merge_all_runs(moved)),
            Err(e) => advanced(merge_all_runs(runs)) == Err::<Run<E>, E>(e),
        },
    decreases runs.len(),
{
    let tail = runs.skip(1);
    let heads = items_of_runs(runs);
    let key = runs[i].items[0].key;
    let m = merge_all_runs(tail);
    let r0 = runs[0];
    assert(heads[i] == runs[i].items);
    assert(heads.skip(1) =~= items_of_runs(tail));
    assert forall|j: int| 0 <= j < tail.len() implies positioned(#[trigger] tail[j]) by {
        assert(tail[j] == runs[j + 1]);
    }
    lemma_whole_merge_all(tail);
    lemma_merge_step(r0, m);
    assert(positioned(r0));
    if let Ok(rest) = pass_key(tail, key) {
        assert((seq![r0] + rest).skip(1) =~= rest);
        if let Ok(first) = advanced(r0) {
            assert((seq![first] + rest).skip(1) =~= rest);
        }
    }
    if i > 0 {
        lemma_leads_tail(heads, i);
        lemma_merge_all_step(tail, i - 1);
        assert(tail[i - 1] == runs[i]);
        assert(m.items[0] == runs[i].items[0]);
        assert(!at_key(r0, key) && (r0.items.len() > 0 ==> key.lt(r0.items[0].key))) by {
            if r0.items.len() > 0 {
                assert(heads[0] == r0.items);
                lemma_key_total(key, r0.items[0].key);
            }
        }
    } else if exists|j: int| 0 <= j < tail.len() && (#[trigger] items_of_runs(tail)[j]).len() > 0 {
        let t = lemma_some_run_leads(items_of_runs(tail));
        lemma_merge_all_step(tail, t);
        assert(tail[t] == runs[t + 1]);
        assert(heads[t + 1] == runs[t + 1].items);
        assert(items_of_runs(tail)[t] == tail[t].items);
        lemma_key_total(r0.items[0].key, m.items[0].key);
        assert(!m.items[0].key.lt(key));
        if key.lt(m.items[0].key) {
            assert forall|j: int| 0 <= j < tail.len() implies !at_key(#[trigger] tail[j], key) by {
                if at_key(tail[j], key) {
                    assert(items_of_runs(tail)[j] == tail[j].items);
                    assert(tail[j].items[0].key.lt(tail[t].items[0].key));
                }
            }
            lemma_pass_none(tail, key);
        }
    } else {
        assert forall|j: int| 0 <= j < tail.len() implies (#[trigger] tail[j]).items.len() == 0 by {
            assert(items_of_runs(tail)[j] == tail[j].items);
        }
        lemma_merge_all_empty(tail);
        lemma_pass_none(tail, key);
    }
}

/// Where some run is nonempty, some run leads.
proof fn lemma_some_run_leads(runs: Seq<Seq<Item>>) -> (i: int)
    requires
        exists|j: int| 0 <= j < runs.len() && (#[trigger] runs[j]).len() > 0,
    ensures
        leads(runs, i),
    decreases runs.len(),
{
    let front = runs.drop_last();
    let last = runs.len() - 1;
    if exists|j: int| 0 <= j < front.len() && (#[trigger] front[j]).len() > 0 {
        let i = lemma_some_run_leads(front);
        assert(front[i] == runs[i]);
        if runs[last].len() > 0 && runs[last][0].key.lt(runs[i][0].key) {
            assert forall|j: int|
                #![trigger runs[j]]
                0 <= j < runs.len() && runs[j].len() > 0 implies {
                &&& !runs[j][0].key.lt(runs[last][0].key)
                &&& j < last ==> runs[j][0].key != runs[last][0].key
            } by {
                lemma_key_total(runs[last][0].key, runs[last][0].key);
                if j < last {
                    assert(front[j] == runs[j]);
                    if runs[j][0].key.lt(runs[last][0].key) {
                        lemma_key_transitive(
                            runs[j][0].key,
                            runs[last][0].key,
                            runs[i][0].key,
                        );
                    }
                }
            }
            last
        } else {
            assert forall|j: int|
                #![trigger runs[j]]
                0 <= j < runs.len() && runs[j].len() > 0 implies {
                &&& !runs[j][0].key.lt(runs[i][0].key)
                &&& j < i ==> runs[j][0].key != runs[i][0].key
            } by {
                if j < last {
                    assert(front[j] == runs[j]);
                }
            }
            i
        }
    } else {
        assert forall|j: int| 0 <= j < last implies (#[trigger] runs[j]).len() == 0 by {
            assert(front[j] == runs[j]);
        }
        lemma_key_total(runs[last][0].key, runs[last][0].key);
        last
    }
}

/// Iterates over the merge of several iterators; an earlier one takes precedence over a later one.
pub struct MergeIterator<I> {
    iters: Vec<I>,
}

/// The runs of several iterators.
pub open spec fn runs_of<I: StorageIterator>(iters: Seq<I>) -> Seq<Run<I::Error>> {
    iters.map_values(|it: I| it.run())
}

/// How many basic iterators a list of iterators is made of.
pub open spec fn active_of<I: StorageIterator>(iters: Seq<I>) -> nat
    decreases iters.len(),
{
    if iters.len() == 0 {
        0
    } else {
        active_of(iters.drop_last()) + iters.last().active()
    }
}

/// A list of iterators is made of what each of them is made of.
pub proof fn law_active_adds_up<I: StorageIterator>(iters: Seq<I>, more: I)
    ensures
        active_of(Seq::<I>::empty()) == 0,
        active_of(iters.push(more)) == active_of(iters) + more.active(),
{
    assert(iters.push(more).drop_last() =~= iters);
}

/// Fewer iterators are made of no more basic iterators.
proof fn lemma_active_prefix<I: StorageIterator>(iters: Seq<I>, n: int)
    requires
        0 <= n <= iters.len(),
    ensures
        active_of(iters.take(n)) <= active_of(iters),
    decreases iters.len(),
{
    if n == iters.len() {
        assert(iters.take(n) =~= iters);
    } else {
        lemma_active_prefix(iters.drop_last(), n);
        assert(iters.drop_last().take(n) =~= iters.take(n));
    }
}

/// What a list of iterators is made of does not change when each of them keeps its own count.
proof fn lemma_active_same<I: StorageIterator>(a: Seq<I>, b: Seq<I>)
    requires
        a.len() == b.len(),
        forall|i: int| 0 <= i < a.len() ==> (#[trigger] a[i]).active() == b[i].active(),
    ensures
        active_of(a) == active_of(b),
    decreases a.len(),
{
    if a.len() > 0 {
        lemma_active_same(a.drop_last(), b.drop_last());
    }
}

impl<I: StorageIterator> MergeIterator<I> {
    /// Merges several iterators.
    pub fn create(iters: Vec<I>) -> (r: Self)
        requires
            forall|i: int| 0 <= i < iters@.len() ==> (#[trigger] iters@[i]).wf(),
        ensures
            r.wf(),
            r.run() == merge_all_runs(runs_of(iters@)),
            r.active() == active_of(iters@),
    {
        MergeIterator { iters }
    }

    /// The position of the leading iterator, if any iterator is left with a pair.
    fn leader(&self) -> (r: Option<usize>)
        requires
            self.wf(),
        ensures
            r matches Some(i) ==> {
                let key = self.iters@[i as int].run().items[0].key;
                &&& i < self.iters@.len()
                &&& leads(items_of_runs(runs_of(self.iters@)), i as int)
                &&& self.iters@[i as int].run().items.len() > 0
                &&& self.run().items.len() > 0
                &&& self.run().items[0] == self.iters@[i as int].run().items[0]
                &&& match pass_key(runs_of(self.iters@), key) {
                    Ok(moved) => advanced(self.run()) == Ok::<Run<I::Error>, I::Error>(
                        merge_all_runs(moved),
                    ),
                    Err(e) => advanced(self.run()) == Err::<Run<I::Error>, I::Error>(e),
                }
            },
            r is None ==> self.run() == whole::<I::Error>(Seq::empty()),
    {
        let ghost runs = items_of_runs(runs_of(self.iters@));
        let mut best: Option<usize> = None;
        let mut i: usize = 0;
        while i < self.iters.len()
            invariant
                self.wf(),
                runs == items_of_runs(runs_of(self.iters@)),
                i <= self.iters@.len(),
                best is None ==> forall|j: int| 0 <= j < i ==> (#[trigger] runs[j]).len() == 0,
                best matches Some(k) ==> k < i && leads(runs.take(i as int), k as int),
            decreases self.iters@.len() - i,
        {
            let ghost before = runs.take(i as int);
            let ghost after = runs.take(i + 1);
            assert(after =~= before.push(runs[i as int]));
            assert(runs[i as int] == self.iters@[i as int].run().items);
            if self.iters[i].is_valid() {
                match best {
                    None => {
                        proof {
                            lemma_key_total(runs[i as int][0].key, runs[i as int][0].key);
                            assert(leads(after, i as int)) by {
                                assert forall|j: int|
                                    #![trigger after[j]]
                                    0 <= j < after.len() && after[j].len() > 0 implies {
                                    &&& !after[j][0].key.lt(after[i as int][0].key)
                                    &&& j < i ==> after[j][0].key != after[i as int][0].key
                                } by {
                                    assert(after[j] == runs[j]);
                                }
                            }
                        }
                        best = Some(i);
                    },
                    Some(k) => {
                        assert(before[k as int] == runs[k as int]);
                        assert(runs[k as int] == self.iters@[k as int].run().items);
                        let ghost hi = runs[i as int][0].key;
                        let ghost hk = runs[k as int][0].key;
                        proof {
                            lemma_key_total(hi, hk);
                            lemma_key_total(hi, hi);
                        }
                        match self.iters[i].key().compare(self.iters[k].key()) {
                            KeyOrder::Less => {
                                assert(leads(after, i as int)) by {
                                    assert forall|j: int|
                                        #![trigger after[j]]
                                        0 <= j < after.len() && after[j].len() > 0 implies {
                                        &&& !after[j][0].key.lt(hi)
                                        &&& j < i ==> after[j][0].key != hi
                                    } by {
                                        if j < i {
                                            assert(after[j] == before[j]);
                                            if after[j][0].key.lt(hi) {
                                                lemma_key_transitive(after[j][0].key, hi, hk);
                                            }
                                        }
                                    }
                                }
                                best = Some(i);
                            },
                            _ => {
                                assert(leads(after, k as int)) by {
                                    assert forall|j: int|
                                        #![trigger after[j]]
                                        0 <= j < after.len() && after[j].len() > 0 implies {
                                        &&& !after[j][0].key.lt(hk)
                                        &&& j < k ==> after[j][0].key != hk
                                    } by {
                                        if j < i {
                                            assert(after[j] == before[j]);
                                        }
                                    }
                                }
                            },
                        }
                    },
                }
            } else {
                proof {
                    if let Some(k) = best {
                        assert(before[k as int] == runs[k as int]);
                        assert(leads(after, k as int)) by {
                            assert forall|j: int|
                                #![trigger after[j]]
                                0 <= j < after.len() && after[j].len() > 0 implies {
                                &&& !after[j][0].key.lt(after[k as int][0].key)
                                &&& j < k ==> after[j][0].key != after[k as int][0].key
                            } by {
                                if j < i {
                                    assert(after[j] == before[j]);
                                }
                            }
                        }
                    }
                }
            }
            i = i + 1;
        }
        proof {
            assert(runs.take(i as int) =~= runs);
            let all = runs_of(self.iters@);
            assert forall|j: int| 0 <= j < all.len() implies positioned(#[trigger] all[j]) by {
                self.iters@[j].lemma_positioned();
            }
            match best {
                None => {
                    assert forall|j: int| 0 <= j < all.len() implies (
                    #[trigger] all[j]).items.len() == 0 by {
                        assert(runs[j].len() == 0);
                    }
                    lemma_merge_all_empty(all);
                },
                Some(k) => {
                    assert(all[k as int] == self.iters@[k as int].run());
                    assert(runs[k as int] == all[k as int].items);
                    lemma_merge_all_step(all, k as int);
                },
            }
        }
        best
    }
}

impl<I: StorageIterator> StorageIterator for MergeIterator<I> {
    type KeyType = I::KeyType;

    type Error = I::Error;

    closed spec fn wf(&self) -> bool {
        forall|i: int| 0 <= i < self.iters@.len() ==> (#[trigger] self.iters@[i]).wf()
    }

    closed spec fn run(&self) -> Run<I::Error> {
        merge_all_runs(runs_of(self.iters@))
    }

    closed spec fn active(&self) -> nat {
        active_of(self.iters@)
    }

    proof fn lemma_positioned(&self) {
        let all = runs_of(self.iters@);
        assert forall|j: int| 0 <= j < all.len() implies positioned(#[trigger] all[j]) by {
            self.iters@[j].lemma_positioned();
        }
        lemma_whole_merge_all(all);
    }

    fn is_valid(&self) -> (r: bool) {
        self.leader().is_some()
    }

    fn key(&self) -> (r: &I::KeyType) {
        let i = self.leader().unwrap();
        self.iters[i].key()
    }

    fn value(&self) -> (r: &Vec<u8>) {
        let i = self.leader().unwrap();
        self.iters[i].value()
    }

    fn next(&mut self) -> (r: Result<(), I::Error>) {
        let lead: usize = self.leader().unwrap();
        let ghost start = self.iters@;
        let ghost runs = runs_of(start);
        let ghost key = start[lead as int].run().items[0].key;
        let mut i: usize = self.iters.len();
        proof {
            assert(runs.skip(i as int) =~= Seq::<Run<I::Error>>::empty());
            assert(runs_of(self.iters@.skip(i as int)) =~= runs.skip(i as int));
        }
        // The leading iterator is the first at its key, so it moves last: its key is what the
        // others are held against.
        while i > lead
            invariant
                self.wf(),
                start.len() == self.iters@.len(),
                lead < start.len(),
                lead <= i <= start.len(),
                runs == runs_of(start),
                merge_all_runs(runs) == old(self).run(),
                leads(items_of_runs(runs), lead as int),
                runs[lead as int].items.len() > 0,
                key == runs[lead as int].items[0].key,
                match pass_key(runs, key) {
                    Ok(moved) => advanced(merge_all_runs(runs)) == Ok::<Run<I::Error>, I::Error>(
                        merge_all_runs(moved),
                    ),
                    Err(e) => advanced(merge_all_runs(runs)) == Err::<Run<I::Error>, I::Error>(e),
                },
                forall|j: int| 0 <= j < i ==> #[trigger] self.iters@[j] == start[j],
                forall|j: int|
                    0 <= j < start.len() ==> (#[trigger] self.iters@[j]).active()
                        == start[j].active(),
                pass_key(runs.skip(i as int), key) == Ok::<Seq<Run<I::Error>>, I::Error>(
                    runs_of(self.iters@.skip(i as int)),
                ),
            decreases i,
        {
            i = i - 1;
            let ghost before = self.iters@;
            let ghost here = start[i as int].run();
            proof {
                assert(runs.skip(i as int).skip(1) =~= runs.skip(i + 1));
                assert(runs.skip(i as int)[0] == here);
                assert(before[i as int] == start[i as int]);
            }
            let same = if i == lead {
                true
            } else {
                self.iters[i].is_valid() && match self.iters[i].key().compare(
                    self.iters[lead].key(),
                ) {
                    KeyOrder::Equal => true,
                    _ => false,
                }
            };
            assert(self.iters@[lead as int] == start[lead as int]);
            assert(same == at_key(here, key));
            if same {
                match self.iters[i].next() {
                    Ok(_done) => {
                        assert(advanced(here) is Ok);
                    },
                    Err(e) => {
                        proof {
                            lemma_pass_fails(runs, key, i as int, e);
                        }
                        return Err(e);
                    },
                }
            }
            proof {
                assert(self.iters@.skip(i as int) =~= seq![self.iters@[i as int]]
                    + before.skip(i + 1));
                assert(runs_of(self.iters@.skip(i as int)) =~= seq![self.iters@[i as int].run()]
                    + runs_of(before.skip(i + 1)));
                assert forall|j: int| 0 <= j < self.iters@.len() implies (
                #[trigger] self.iters@[j]).wf() by {
                    if j != i {
                        assert(self.iters@[j] == before[j]);
                    }
                }
            }
        }
        proof {
            lemma_pass_rest(runs, key, lead as int);
            assert(self.iters@ =~= start.take(lead as int) + self.iters@.skip(lead as int));
            assert(runs_of(self.iters@) =~= runs.take(lead as int) + runs_of(
                self.iters@.skip(lead as int),
            ));
            lemma_active_same(self.iters@, start);
        }
        Ok(())
    }

    fn num_active_iterators(&self) -> (r: usize) {
        let mut n: usize = 0;
        let mut i: usize = 0;
        while i < self.iters.len()
            invariant
                i <= self.iters@.len(),
                n == active_of(self.iters@.take(i as int)),
                active_of(self.iters@) <= usize::MAX,
            decreases self.iters@.len() - i,
        {
            proof {
                lemma_active_prefix(self.iters@, i + 1);
                assert(self.iters@.take(i + 1).drop_last() =~= self.iters@.take(i as int));
            }
            n = n + self.iters[i].num_active_iterators();
            i = i + 1;
        }
        assert(self.iters@.take(i as int) =~= self.iters@);
        n
    }
}

/// Where a later part of the runs cannot be passed, all of them cannot.
proof fn lemma_pass_fails<E>(runs: Seq<Run<E>>, key: KeyView, i: int, e: E)
    requires
        0 <= i <= runs.len(),
        pass_key(runs.skip(i), key) == Err::<Seq<Run<E>>, E>(e),
    ensures
        pass_key(runs, key) == Err::<Seq<Run<E>>, E>(e),
    decreases i,
{
    if i == 0 {
        assert(runs.skip(0) =~= runs);
    } else {
        assert(runs.skip(i - 1).skip(1) =~= runs.skip(i));
        lemma_pass_fails(runs, key, i - 1, e);
    }
}

/// Passing a key moves nothing before the first run that is at it.
proof fn lemma_pass_rest<E>(runs: Seq<Run<E>>, key: KeyView, lead: int)
    requires
        leads(items_of_runs(runs), lead),
        key == runs[lead].items[0].key,
        pass_key(runs.skip(lead), key) is Ok,
    ensures
        pass_key(runs, key) == Ok::<Seq<Run<E>>, E>(
            runs.take(lead) + pass_key(runs.skip(lead), key)->Ok_0,
        ),
    decreases lead,
{
    let heads = items_of_runs(runs);
    let rest = pass_key(runs.skip(lead), key)->Ok_0;
    if lead == 0 {
        assert(runs.skip(0) =~= runs);
        assert(runs.take(0) + rest =~= rest);
    } else {
        let tail = runs.skip(1);
        assert(heads[lead] == runs[lead].items);
        assert(heads[0] == runs[0].items);
        lemma_leads_tail(heads, lead);
        assert(heads.skip(1) =~= items_of_runs(tail));
        assert(tail.skip(lead - 1) =~= runs.skip(lead));
        assert(tail[lead - 1] == runs[lead]);
        lemma_pass_rest(tail, key, lead - 1);
        assert(!at_key(runs[0], key));
        assert(seq![runs[0]] + (tail.take(lead - 1) + rest) =~= runs.take(lead) + rest);
    }
}

} // verus!
