//! Sorted tables: lists of versions that were written together, with their builder and iterators.
#[allow(unused_imports)]
use crate::iterators::{started, whole};
use crate::iterators::{Item, Run, StorageIterator};
use crate::key::{copy_bytes, Key};
#[allow(unused_imports)]
use crate::key::StorageKey;
#[allow(unused_imports)]
use crate::runs::concat_runs;
use std::sync::Arc;
use vstd::prelude::*;

verus! {

/// One version of a user key with its value. An empty value marks a deletion.
#[derive(Debug)]
pub struct Entry {
    key: Key,
    value: Vec<u8>,
}

impl View for Entry {
    type V = Item;

    closed spec fn view(&self) -> Item {
        Item { key: self.key@, value: self.value@ }
    }
}

impl Entry {
    /// The version `key` with `value`.
    pub fn new(key: Key, value: Vec<u8>) -> (r: Entry)
        ensures
            r@ == (Item { key: key@, value: value@ }),
    {
        Entry { key, value }
    }

    /// The versioned key.
    pub fn key(&self) -> (r: &Key)
        ensures
            r@ == self@.key,
    {
        &self.key
    }

    /// The value.
    pub fn value(&self) -> (r: &Vec<u8>)
        ensures
            r@ == self@.value,
    {
        &self.value
    }
}

/// The items that a list of entries stands for.
pub open spec fn items_of(entries: Seq<Entry>) -> Seq<Item> {
    entries.map_values(|e: Entry| e@)
}

/// Why a table could not be read on.
#[derive(Debug)]
pub struct ReadError {
    pub reason: Arc<String>,
}

impl ReadError {
    /// Another copy of the error.
    pub fn duplicate(&self) -> (r: ReadError)
        ensures
            r == *self,
    {
        ReadError { reason: self.reason.clone() }
    }
}

/// A table under its identifier, as far as it can be read.
#[derive(Debug)]
pub struct SsTable {
    id: usize,
    entries: Vec<Entry>,
    /// Why no more can be read, if there is more.
    failure: Option<ReadError>,
}

impl SsTable {
    /// The table's identifier.
    pub closed spec fn id(&self) -> usize {
        self.id
    }

    /// What can be read of the table.
    pub closed spec fn items(&self) -> Seq<Item> {
        items_of(self.entries@)
    }

    /// Why no more can be read, if there is more.
    pub closed spec fn failure(&self) -> Option<ReadError> {
        self.failure
    }

    /// The table as a run.
    pub open spec fn run(&self) -> Run<ReadError> {
        Run { items: self.items(), end: self.failure() }
    }

    /// A table that holds `entries`.
    pub fn new(id: usize, entries: Vec<Entry>) -> (r: SsTable)
        ensures
            r.id() == id,
            r.items() == items_of(entries@),
            r.failure() is None,
    {
        SsTable { id, entries, failure: None }
    }

    /// A table of which only `entries` can be read.
    pub fn with_failure(id: usize, entries: Vec<Entry>, failure: ReadError) -> (r: SsTable)
        ensures
            r.id() == id,
            r.items() == items_of(entries@),
            r.failure() == Some(failure),
    {
        SsTable { id, entries, failure: Some(failure) }
    }

    /// The table's identifier.
    pub fn sst_id(&self) -> (r: usize)
        ensures
            r == self.id(),
    {
        self.id
    }

    /// What can be read of the table.
    pub fn entries(&self) -> (r: &Vec<Entry>)
        ensures
            items_of(r@) == self.items(),
    {
        &self.entries
    }

    /// Ends the reading behind the last entry: with the error, if the table cannot be read on.
    fn end(&self) -> (r: Result<(), ReadError>)
        ensures
            match self.failure() {
                Some(e) => r == Err::<(), ReadError>(e),
                None => r is Ok,
            },
    {
        match &self.failure {
            Some(e) => Err(e.duplicate()),
            None => Ok(()),
        }
    }
}

/// Collects entries for a table.
#[derive(Debug)]
pub struct SsTableBuilder {
    block_size: usize,
    entries: Vec<Entry>,
}

impl SsTableBuilder {
    /// The size that the table's blocks aim at.
    pub closed spec fn target_block_size(&self) -> usize {
        self.block_size
    }

    /// What has been added so far.
    pub closed spec fn items(&self) -> Seq<Item> {
        items_of(self.entries@)
    }

    /// A builder that holds nothing yet.
    pub fn new(block_size: usize) -> (r: SsTableBuilder)
        ensures
            r.target_block_size() == block_size,
            r.items() == Seq::<Item>::empty(),
    {
        let r = SsTableBuilder { block_size, entries: Vec::new() };
        assert(items_of(r.entries@) =~= Seq::<Item>::empty());
        r
    }

    /// The size that the table's blocks aim at.
    pub fn block_size(&self) -> (r: usize)
        ensures
            r == self.target_block_size(),
    {
        self.block_size
    }

    /// What has been added so far.
    pub fn entries(&self) -> (r: &Vec<Entry>)
        ensures
            items_of(r@) == self.items(),
    {
        &self.entries
    }

    /// Adds a copy of a version and its value behind what has been added so far.
    pub fn add(&mut self, key: &Key, value: &[u8])
        ensures
            final(self).target_block_size() == old(self).target_block_size(),
            final(self).items() == old(self).items().push(Item { key: key@, value: value@ }),
    {
        let entry = Entry { key: key.duplicate(), value: copy_bytes(value) };
        self.entries.push(entry);
        assert(items_of(self.entries@) =~= items_of(old(self).entries@).push(entry@));
    }

    /// The table `id` with all that has been added.
    pub fn build(self, id: usize) -> (r: SsTable)
        ensures
            r.id() == id,
            r.items() == self.items(),
            r.failure() is None,
    {
        SsTable { id, entries: self.entries, failure: None }
    }
}

/// Iterates over one table.
pub struct SsTableIterator {
    table: Arc<SsTable>,
    pos: usize,
}

impl SsTableIterator {
    /// Starts at the table's first entry.
    pub fn create_and_seek_to_first(table: Arc<SsTable>) -> (r: Result<SsTableIterator, ReadError>)
        ensures
            match started(table.run()) {
                Ok(run) => r matches Ok(iter) && iter.wf() && iter.run() == run && iter.active()
                    == 1,
                Err(e) => r == Err::<SsTableIterator, ReadError>(e),
            },
            r is Err <==> table.items().len() == 0 && table.failure() is Some,
            r matches Err(e) ==> table.failure() == Some(e),
            r matches Ok(iter) ==> iter.run().items == table.items() && iter.run().end
                == table.failure(),
    {
        if table.entries.len() == 0 {
            match table.end() {
                Ok(_done) => {},
                Err(e) => {
                    return Err(e);
                },
            }
        }
        let r = SsTableIterator { table, pos: 0 };
        assert(r.run().items =~= table.items());
        Ok(r)
    }
}

impl StorageIterator for SsTableIterator {
    type KeyType = Key;

    type Error = ReadError;

    closed spec fn wf(&self) -> bool {
        &&& self.pos <= self.table.entries@.len()
        &&& self.pos == self.table.entries@.len() ==> self.table.failure is None
    }

    closed spec fn run(&self) -> Run<ReadError> {
        Run { items: self.table.items().skip(self.pos as int), end: self.table.failure() }
    }

    closed spec fn active(&self) -> nat {
        1
    }

    proof fn lemma_positioned(&self) {
    }

    fn is_valid(&self) -> (r: bool) {
        self.pos < self.table.entries.len()
    }

    fn key(&self) -> (r: &Key) {
        &self.table.entries[self.pos].key
    }

    fn value(&self) -> (r: &Vec<u8>) {
        &self.table.entries[self.pos].value
    }

    fn next(&mut self) -> (r: Result<(), ReadError>) {
        let len: usize = self.table.entries.len();
        assert(self.pos < len);
        self.pos = self.pos + 1;
        assert(self.run().items =~= old(self).run().items.skip(1));
        if self.pos == len {
            return self.table.end();
        }
        Ok(())
    }

    fn num_active_iterators(&self) -> (r: usize) {
        1
    }
}

/// What can be read of each of a list of tables.
pub open spec fn table_runs(tables: Seq<Arc<SsTable>>) -> Seq<Seq<Item>> {
    tables.map_values(|t: Arc<SsTable>| t.items())
}

/// What can be read of a list of tables, one table behind the other.
pub open spec fn concat_tables(tables: Seq<Arc<SsTable>>) -> Seq<Item> {
    concat_runs(table_runs(tables))
}

/// Whether every one of a list of tables can be read to its end.
pub open spec fn readable(tables: Seq<Arc<SsTable>>) -> bool {
    forall|i: int| 0 <= i < tables.len() ==> (#[trigger] tables[i]).failure() is None
}

/// A list of tables as one run, one table behind the other: up to the first that cannot be read to
/// its end.
pub open spec fn concat_run(tables: Seq<Arc<SsTable>>) -> Run<ReadError>
    decreases tables.len(),
{
    if tables.len() == 0 {
        whole(Seq::empty())
    } else if tables[0].failure() is Some {
        tables[0].run()
    } else {
        let rest = concat_run(tables.skip(1));
        Run { items: tables[0].items() + rest.items, end: rest.end }
    }
}

/// Tables can be read to the end, one behind the other, exactly if each of them can.
pub proof fn lemma_readable_run(tables: Seq<Arc<SsTable>>)
    ensures
        concat_run(tables).end is None <==> readable(tables),
        readable(tables) ==> concat_run(tables).items == concat_tables(tables),
    decreases tables.len(),
{
    if tables.len() > 0 {
        let tail = tables.skip(1);
        lemma_readable_run(tail);
        assert(table_runs(tables).skip(1) =~= table_runs(tail));
        if readable(tables) {
            assert(tables[0].failure() is None);
            assert forall|i: int| 0 <= i < tail.len() implies (
            #[trigger] tail[i]).failure() is None by {
                assert(tail[i] == tables[i + 1]);
            }
        }
        if tables[0].failure() is None && readable(tail) {
            assert forall|i: int| 0 <= i < tables.len() implies (
            #[trigger] tables[i]).failure() is None by {
                if i > 0 {
                    assert(tail[i - 1] == tables[i]);
                }
            }
        }
    }
}

/// Iterates over a list of tables, one behind the other.
pub struct SstConcatIterator {
    tables: Vec<Arc<SsTable>>,
    cur: usize,
    pos: usize,
}

impl SstConcatIterator {
    /// Starts at the first entry of the first table that has one.
    pub fn create_and_seek_to_first(tables: Vec<Arc<SsTable>>) -> (r: Result<
        SstConcatIterator,
        ReadError,
    >)
        ensures
            match started(concat_run(tables@)) {
                Ok(run) => r matches Ok(iter) && iter.wf() && iter.run() == run && iter.active()
                    == 1,
                Err(e) => r == Err::<SstConcatIterator, ReadError>(e),
            },
    {
        let mut r = SstConcatIterator { tables, cur: 0, pos: 0 };
        proof {
            assert(tables@.skip(0) =~= tables@);
            assert(r.ahead().items =~= concat_run(tables@).items);
        }
        match r.skip_finished() {
            Ok(_done) => Ok(r),
            Err(e) => Err(e),
        }
    }

    /// The tables from the current one on, less what has been passed of it.
    spec fn ahead(&self) -> Run<ReadError> {
        let run = concat_run(self.tables@.skip(self.cur as int));
        Run { items: run.items.skip(self.pos as int), end: run.end }
    }

    /// Moves on to the next table while the current one has been passed.
    fn skip_finished(&mut self) -> (r: Result<(), ReadError>)
        requires
            old(self).cur <= old(self).tables@.len(),
            old(self).cur < old(self).tables@.len() ==> old(self).pos <= old(self).tables@[old(
                self,
            ).cur as int].entries@.len(),
            old(self).cur == old(self).tables@.len() ==> old(self).pos == 0,
        ensures
            match started(old(self).ahead()) {
                Ok(run) => r is Ok && final(self).wf() && final(self).ahead() == run,
                Err(e) => r == Err::<(), ReadError>(e),
            },
    {
        while self.cur < self.tables.len() && self.pos == self.tables[self.cur].entries.len()
            invariant
                self.cur <= self.tables@.len(),
                self.cur < self.tables@.len() ==> self.pos
                    <= self.tables@[self.cur as int].entries@.len(),
                self.cur == self.tables@.len() ==> self.pos == 0,
                self.ahead() == old(self).ahead(),
            decreases self.tables@.len() - self.cur,
        {
            let ghost before = self.tables@.skip(self.cur as int);
            let ghost table = self.tables@[self.cur as int];
            assert(before[0] == table);
            match self.tables[self.cur].end() {
                Ok(_done) => {},
                Err(e) => {
                    assert(self.ahead().items =~= Seq::<Item>::empty());
                    return Err(e);
                },
            }
            assert(before.skip(1) =~= self.tables@.skip(self.cur + 1));
            assert(concat_run(before).items.skip(self.pos as int) =~= concat_run(
                before.skip(1),
            ).items.skip(0));
            self.cur = self.cur + 1;
            self.pos = 0;
        }
        proof {
            let left = self.tables@.skip(self.cur as int);
            if self.cur < self.tables@.len() {
                assert(left[0] == self.tables@[self.cur as int]);
                assert(self.ahead().items.len() > 0);
            }
        }
        Ok(())
    }
}

impl StorageIterator for SstConcatIterator {
    type KeyType = Key;

    type Error = ReadError;

    closed spec fn wf(&self) -> bool {
        &&& self.cur <= self.tables@.len()
        &&& self.cur < self.tables@.len() ==> self.pos
            < self.tables@[self.cur as int].entries@.len()
        &&& self.cur == self.tables@.len() ==> self.pos == 0
    }

    closed spec fn run(&self) -> Run<ReadError> {
        self.ahead()
    }

    closed spec fn active(&self) -> nat {
        1
    }

    proof fn lemma_positioned(&self) {
        if self.cur < self.tables@.len() {
            assert(self.tables@.skip(self.cur as int)[0] == self.tables@[self.cur as int]);
        }
    }

    fn is_valid(&self) -> (r: bool) {
        proof {
            if self.cur < self.tables@.len() {
                assert(self.tables@.skip(self.cur as int)[0] == self.tables@[self.cur as int]);
            }
        }
        self.cur < self.tables.len()
    }

    fn key(&self) -> (r: &Key) {
        assert(self.tables@.skip(self.cur as int)[0] == self.tables@[self.cur as int]);
        &self.tables[self.cur].entries[self.pos].key
    }

    fn value(&self) -> (r: &Vec<u8>) {
        assert(self.tables@.skip(self.cur as int)[0] == self.tables@[self.cur as int]);
        &self.tables[self.cur].entries[self.pos].value
    }

    fn next(&mut self) -> (r: Result<(), ReadError>) {
        assert(self.cur < self.tables@.len() ==> self.tables@.skip(self.cur as int)[0]
            == self.tables@[self.cur as int]);
        let len: usize = self.tables[self.cur].entries.len();
        assert(self.pos < len);
        self.pos = self.pos + 1;
        assert(self.ahead().items =~= old(self).ahead().items.skip(1));
        self.skip_finished()
    }

    fn num_active_iterators(&self) -> (r: usize) {
        1
    }
}

} // verus!
