//! The merge at the heart of a compaction.
#[allow(unused_imports)]
use crate::compact::retention::{cut_run, is_cut, is_new_key, key_before, split_run, Cut};
use crate::compact::retention::{merge_decision, same_user_key};
use crate::compact::CompactionError;
#[allow(unused_imports)]
use crate::iterators::Item;
use crate::iterators::{Run, StorageIterator};
use crate::key::Key;
#[allow(unused_imports)]
use crate::key::StorageKey;
use crate::lsm_storage::{LoggedTables, LsmStorageInner, TableStore};
#[allow(unused_imports)]
use crate::lsm_storage::{did, lemma_did_both, TableAction};
#[allow(unused_imports)]
use crate::table::{readable, table_runs};
use crate::table::{ReadError, SsTable, SsTableBuilder};
use std::sync::Arc;
use vstd::prelude::*;

verus! {

/// Whether the store may have said that a builder that holds `open` has encoded `size` bytes.
pub open spec fn size_reported<S: TableStore>(
    store: S,
    block_size: usize,
    open: Seq<Item>,
    size: usize,
) -> bool {
    exists|builder: SsTableBuilder|
        {
            &&& #[trigger] call_ensures(S::estimated_size, (&store, &builder), size)
            &&& builder.target_block_size() == block_size
            &&& builder.items() == open
        }
}

/// Whether `sizes` are what the store may have said while a run was cut into tables: one size
/// wherever a new user key begins.
pub open spec fn sizes_reported<S: TableStore, C>(
    inner: LsmStorageInner<C>,
    store: S,
    run: Seq<Item>,
    sizes: Seq<usize>,
) -> bool
    decreases run.len(),
{
    run.len() > 0 ==> {
        &&& sizes_reported(inner, store, run.drop_last(), sizes.drop_last())
        &&& is_new_key(key_before(run, run.len() - 1), run.last().key) ==> size_reported(
            store,
            inner.options.block_size,
            inner.cut_of(run.drop_last(), sizes.drop_last()).open,
            sizes.last(),
        )
    }
}

/// What is done to give a table its identifier and to write it.
pub open spec fn table_writes<E>(table: SsTable, r: Result<(), E>) -> Seq<TableAction<E>> {
    seq![TableAction::DrewId(table.id()), TableAction::Wrote(table, r)]
}

/// What is done to write tables, one behind the other.
pub open spec fn writes_of<E>(tables: Seq<Arc<SsTable>>) -> Seq<TableAction<E>>
    decreases tables.len(),
{
    if tables.len() == 0 {
        Seq::empty()
    } else {
        writes_of(tables.drop_last()) + table_writes(*tables.last(), Ok(()))
    }
}

/// Whether a table that holds `items` was finished between two points in time: it got an
/// identifier, was written, and went behind the tables that were finished already.
pub open spec fn table_finished<S: TableStore>(
    before: LoggedTables<S>,
    after: LoggedTables<S>,
    items: Seq<Item>,
    done: Seq<Arc<SsTable>>,
    tables: Seq<Arc<SsTable>>,
) -> bool {
    exists|table: SsTable|
        {
            &&& table.items() == items
            &&& table.failure() is None
            &&& tables == done.push(Arc::new(table))
            &&& did(before, after, #[trigger] table_writes::<S::Error>(table, Ok(())))
        }
}

/// Whether a table that holds `items` got an identifier between two points in time, but could not
/// be written.
pub open spec fn table_failed<S: TableStore>(
    before: LoggedTables<S>,
    after: LoggedTables<S>,
    items: Seq<Item>,
    e: S::Error,
) -> bool {
    exists|table: SsTable|
        {
            &&& table.items() == items
            &&& did(before, after, #[trigger] table_writes::<S::Error>(table, Err(e)))
        }
}

/// Whether `tables` are what a compaction of `run` makes: the surviving versions, cut where the
/// store said that the target size was reached.
pub open spec fn compacted_into<S: TableStore, C>(
    inner: LsmStorageInner<C>,
    store: S,
    run: Seq<Item>,
    tables: Seq<Arc<SsTable>>,
) -> bool {
    &&& readable(tables)
    &&& exists|sizes: Seq<usize>|
        {
            &&& sizes.len() == run.len()
            &&& sizes_reported(inner, store, run, sizes)
            &&& table_runs(tables) == #[trigger] split_run(
                run,
                inner.read_horizon(),
                inner.options.target_sst_size,
                sizes,
            )
        }
}

/// Whether a compaction of `run` comes to write the table under construction of `cut` while the
/// finished ones are written already: where a new user key begins and the store says that the
/// target size is reached, or at the end of the run.
pub open spec fn comes_to_write<S: TableStore, C>(
    inner: LsmStorageInner<C>,
    store: S,
    run: Run<ReadError>,
    cut: Cut,
) -> bool {
    exists|passed: Seq<Item>, sizes: Seq<usize>|
        {
            &&& passed.len() <= run.items.len()
            &&& passed == run.items.take(passed.len() as int)
            &&& sizes.len() == passed.len()
            &&& sizes_reported(inner, store, passed, sizes)
            &&& cut == #[trigger] inner.cut_of(passed, sizes)
            &&& cut.open.len() > 0
            &&& if passed.len() < run.items.len() {
                table_is_full(inner, store, run.items, passed.len() as int, cut)
            } else {
                run.end is None
            }
        }
}

/// Whether the store may have said that the table under construction is full when `run[i]` comes
/// next.
pub open spec fn table_is_full<S: TableStore, C>(
    inner: LsmStorageInner<C>,
    store: S,
    run: Seq<Item>,
    i: int,
    cut: Cut,
) -> bool {
    exists|size: usize|
        {
            &&& #[trigger] size_reported(store, inner.options.block_size, cut.open, size)
            &&& is_cut(
                key_before(run, i),
                run[i].key,
                cut.open.len() > 0,
                size,
                inner.options.target_sst_size,
            )
        }
}

/// Whether a compaction of `run` may end with the error `e`, having done `actions`: the store
/// has written the tables up to one, and failed to write that one.
pub open spec fn compaction_failed<S: TableStore, C>(
    inner: LsmStorageInner<C>,
    store: S,
    run: Run<ReadError>,
    actions: Seq<TableAction<S::Error>>,
    e: S::Error,
) -> bool {
    exists|written: Seq<Arc<SsTable>>, failed: SsTable|
        {
            &&& #[trigger] comes_to_write(
                inner,
                store,
                run,
                Cut { done: table_runs(written), open: failed.items() },
            )
            &&& actions == writes_of::<S::Error>(written) + table_writes(failed, Err(e))
        }
}

/// Whether a compaction may have done `actions` when all pairs of `run` are passed and no more can
/// be read: it has written the tables that are finished then.
pub open spec fn compaction_stopped<S: TableStore, C>(
    inner: LsmStorageInner<C>,
    store: S,
    run: Seq<Item>,
    actions: Seq<TableAction<S::Error>>,
) -> bool {
    exists|written: Seq<Arc<SsTable>>, sizes: Seq<usize>|
        {
            &&& sizes.len() == run.len()
            &&& sizes_reported(inner, store, run, sizes)
            &&& table_runs(written) == (#[trigger] inner.cut_of(run, sizes)).done
            &&& actions == #[trigger] writes_of::<S::Error>(written)
        }
}

/// How a compaction of `run` ends, having done `actions`: with its tables, all written, or with
/// the error of a write that failed, or with the error that stops the reading of the run.
pub open spec fn compaction_result<S: TableStore, C>(
    inner: LsmStorageInner<C>,
    store: S,
    run: Run<ReadError>,
    actions: Seq<TableAction<S::Error>>,
    r: Result<Vec<Arc<SsTable>>, CompactionError<S::Error>>,
) -> bool {
    match r {
        Ok(tables) => {
            &&& run.end is None
            &&& compacted_into(inner, store, run.items, tables@)
            &&& actions == writes_of::<S::Error>(tables@)
        },
        Err(CompactionError::Storage(e)) => compaction_failed(inner, store, run, actions, e),
        Err(CompactionError::Read(e)) => {
            &&& run.end == Some(e)
            &&& compaction_stopped(inner, store, run.items, actions)
        },
        Err(CompactionError::UnknownTable) => false,
    }
}

/// How a compaction of an input ends, having done `actions`: where the input cannot even be
/// started, nothing is done.
pub open spec fn input_result<S: TableStore, C>(
    inner: LsmStorageInner<C>,
    store: S,
    input: Result<Run<ReadError>, ReadError>,
    actions: Seq<TableAction<S::Error>>,
    r: Result<Vec<Arc<SsTable>>, CompactionError<S::Error>>,
) -> bool {
    match input {
        Ok(run) => compaction_result(inner, store, run, actions, r),
        Err(e) => {
            &&& actions == Seq::<TableAction<S::Error>>::empty()
            &&& r == Err::<Vec<Arc<SsTable>>, CompactionError<S::Error>>(CompactionError::Read(e))
        },
    }
}

/// Whether a compaction of an input ended with `r` between two points in time, and nothing else
/// was done in between.
pub open spec fn compacted<S: TableStore, C>(
    inner: LsmStorageInner<C>,
    input: Result<Run<ReadError>, ReadError>,
    before: LoggedTables<S>,
    after: LoggedTables<S>,
    r: Result<Vec<Arc<SsTable>>, CompactionError<S::Error>>,
) -> bool {
    exists|actions: Seq<TableAction<S::Error>>|
        {
            &&& #[trigger] did(before, after, actions)
            &&& input_result(inner, before.store(), input, actions, r)
        }
}

/// A compaction whose input cannot be started does nothing.
pub(crate) proof fn lemma_not_started<S: TableStore, C>(
    inner: LsmStorageInner<C>,
    store: LoggedTables<S>,
    e: ReadError,
)
    ensures
        compacted(
            inner,
            Err(e),
            store,
            store,
            Err::<Vec<Arc<SsTable>>, CompactionError<S::Error>>(CompactionError::Read(e)),
        ),
{
    let nothing: Seq<TableAction<S::Error>> = Seq::empty();
    assert(store.log() =~= store.log() + nothing);
    assert(did(store, store, nothing));
}

impl<C> LsmStorageInner<C> {
    /// The oldest timestamp that can still be read at.
    pub open spec fn read_horizon(&self) -> u64 {
        self.mvcc->Some_0@.watermark()
    }

    /// How far a compaction is once a run is passed.
    pub open spec fn cut_of(&self, run: Seq<Item>, sizes: Seq<usize>) -> Cut {
        cut_run(run, self.read_horizon(), self.options.target_sst_size, sizes)
    }

    /// Finishes a table: gives it an identifier, writes it, and puts it behind the tables that
    /// are finished already. Returns an empty builder for the next one.
    pub fn finalize_builder<S: TableStore>(
        &self,
        store: &mut LoggedTables<S>,
        builder: SsTableBuilder,
        result_sst: &mut Vec<Arc<SsTable>>,
    ) -> (r: Result<SsTableBuilder, S::Error>)
        ensures
            match r {
                Ok(next) => {
                    &&& next.items() == Seq::<Item>::empty()
                    &&& next.target_block_size() == self.options.block_size
                    &&& table_finished(
                        *old(store),
                        *final(store),
                        builder.items(),
                        old(result_sst)@,
                        final(result_sst)@,
                    )
                },
                Err(e) => {
                    &&& final(result_sst)@ == old(result_sst)@
                    &&& table_failed(*old(store), *final(store), builder.items(), e)
                },
            },
    {
        let id: usize = store.next_sst_id();
        let ghost between = *store;
        let table = builder.build(id);
        let written = store.write_sst(&table);
        let ghost r = written;
        proof {
            let drew = seq![TableAction::<S::Error>::DrewId(id)];
            let wrote = seq![TableAction::Wrote(table, r)];
            lemma_did_both(*old(store), between, *store, drew, wrote);
            assert(drew + wrote =~= table_writes(table, r));
        }
        match written {
            Ok(done) => {
                assert(done == ());
                assert(did(*old(store), *store, table_writes::<S::Error>(table, Ok(()))));
                result_sst.push(Arc::new(table));
                assert(table_finished(
                    *old(store),
                    *store,
                    builder.items(),
                    old(result_sst)@,
                    result_sst@,
                ));
                Ok(SsTableBuilder::new(self.options.block_size))
            },
            Err(e) => {
                assert(table_failed(*old(store), *store, builder.items(), e));
                Err(e)
            },
        }
    }

    /// Cuts the surviving versions of a sorted run into tables, and writes them. Where the run
    /// cannot be read to its end, the tables that are finished by then stay written.
    ///
    /// A version survives if it is newer than the watermark, or if it is what is read at the
    /// watermark and no deletion. A table ends where a new user key begins and the table has
    /// reached the target size. No table is empty.
    pub fn merger<S: TableStore, I: StorageIterator<KeyType = Key, Error = ReadError>>(
        &self,
        store: &mut LoggedTables<S>,
        merge_iter: I,
    ) -> (r: Result<Vec<Arc<SsTable>>, CompactionError<S::Error>>)
        requires
            merge_iter.wf(),
            self.mvcc matches Some(mvcc) && mvcc.wf(),
        ensures
            compacted(*self, Ok(merge_iter.run()), *old(store), *final(store), r),
    {
        let mut iter = merge_iter;
        let mut result_sst: Vec<Arc<SsTable>> = Vec::new();
        let mut builder = SsTableBuilder::new(self.options.block_size);
        let mut prev_key: Option<Key> = None;
        let watermark: u64 = match &self.mvcc {
            Some(mvcc) => mvcc.watermark(),
            None => 0,
        };
        let target: usize = self.options.target_sst_size;
        let ghost run = iter.run();
        let ghost all = run.items;
        let ghost mut n: int = 0;
        let ghost mut sizes: Seq<usize> = Seq::empty();
        proof {
            assert(all.skip(0) =~= all);
            assert(store.log() =~= store.log() + writes_of::<S::Error>(result_sst@));
            assert(table_runs(result_sst@) =~= Seq::<Seq<Item>>::empty());
        }
        while iter.is_valid()
            invariant
                iter.wf(),
                run == merge_iter.run(),
                all == run.items,
                0 <= n <= all.len(),
                iter.run() == (Run { items: all.skip(n), end: run.end }),
                readable(result_sst@),
                self.mvcc is Some,
                watermark == self.read_horizon(),
                target == self.options.target_sst_size,
                builder.target_block_size() == self.options.block_size,
                key_before(all, n) == match prev_key {
                    Some(k) => Some(k@),
                    None => None,
                },
                sizes.len() == n,
                sizes_reported(*self, old(store).store(), all.take(n), sizes),
                self.cut_of(all.take(n), sizes) == (Cut {
                    done: table_runs(result_sst@),
                    open: builder.items(),
                }),
                did(*old(store), *store, writes_of(result_sst@)),
            decreases all.len() - n,
        {
            let ghost cut_before = Cut { done: table_runs(result_sst@), open: builder.items() };
            let ghost item = all[n];
            let ghost done = result_sst@;
            let ghost between = *store;
            let key = iter.key();
            let value = iter.value();
            let is_new = match &prev_key {
                Some(p) => !same_user_key(p, key),
                None => true,
            };
            let size: usize = if is_new {
                store.estimated_size(&builder)
            } else {
                0
            };
            assert(is_new_key(key_before(all, n), item.key) ==> size_reported(
                old(store).store(),
                self.options.block_size,
                builder.items(),
                size,
            ));
            let filled = builder.entries().len() > 0;
            assert(filled == (builder.items().len() > 0));
            let (cut, visible) = merge_decision(
                prev_key.as_ref(),
                key,
                value.as_slice(),
                watermark,
                filled,
                size,
                target,
            );
            assert(Item { key: key@, value: value@ } == item);
            if cut {
                proof {
                    assert(size_reported(
                        old(store).store(),
                        self.options.block_size,
                        cut_before.open,
                        size,
                    ));
                    assert(is_cut(
                        key_before(all, n),
                        all[n].key,
                        cut_before.open.len() > 0,
                        size,
                        target,
                    ));
                    assert(table_is_full(*self, old(store).store(), all, n, cut_before));
                    assert(comes_to_write(*self, old(store).store(), run, cut_before)) by {
                        assert(cut_before == self.cut_of(all.take(n), sizes));
                    }
                }
                builder =
                match self.finalize_builder(store, builder, &mut result_sst) {
                    Ok(next) => {
                        proof {
                            lemma_wrote_one_more(
                                *old(store),
                                between,
                                *store,
                                cut_before.open,
                                done,
                                result_sst@,
                            );
                        }
                        next
                    },
                    Err(e) => {
                        proof {
                            lemma_compaction_failed(
                                *self,
                                run,
                                *old(store),
                                between,
                                *store,
                                done,
                                cut_before.open,
                                e,
                            );
                        }
                        return Err(CompactionError::Storage(e));
                    },
                };
            }
            if visible {
                builder.add(key, value.as_slice());
            }
            prev_key = Some(key.duplicate());
            let moved = iter.next();
            proof {
                let passed = all.take(n + 1);
                let more = sizes.push(size);
                assert(passed.drop_last() =~= all.take(n));
                assert(more.drop_last() =~= sizes);
                assert(passed.last() == item);
                assert(key_before(passed, n) == key_before(all, n));
                assert(all.skip(n).skip(1) =~= all.skip(n + 1));
                sizes = more;
                n = n + 1;
                assert(sizes_reported(*self, old(store).store(), all.take(n), sizes));
                assert(self.cut_of(all.take(n), sizes) == (Cut {
                    done: table_runs(result_sst@),
                    open: builder.items(),
                }));
            }
            match moved {
                Ok(_done) => {},
                Err(e) => {
                    proof {
                        assert(all.take(n) =~= all);
                        assert(compaction_stopped(
                            *self,
                            old(store).store(),
                            all,
                            writes_of::<S::Error>(result_sst@),
                        ));
                        assert(input_result(
                            *self,
                            old(store).store(),
                            Ok(run),
                            writes_of::<S::Error>(result_sst@),
                            Err::<Vec<Arc<SsTable>>, CompactionError<S::Error>>(
                                CompactionError::Read(e),
                            ),
                        ));
                    }
                    return Err(CompactionError::Read(e));
                },
            }
        }
        proof {
            iter.lemma_positioned();
        }
        assert(all.take(n) =~= all);
        let ghost done = result_sst@;
        let ghost between = *store;
        let ghost last = builder.items();
        if builder.entries().len() > 0 {
            assert(last.len() > 0);
            assert(comes_to_write(
                *self,
                old(store).store(),
                run,
                Cut { done: table_runs(done), open: last },
            )) by {
                assert(self.cut_of(all, sizes) == (Cut { done: table_runs(done), open: last }));
            }
            match self.finalize_builder(store, builder, &mut result_sst) {
                Ok(_next) => {
                    proof {
                        lemma_wrote_one_more(
                            *old(store),
                            between,
                            *store,
                            last,
                            done,
                            result_sst@,
                        );
                    }
                },
                Err(e) => {
                    proof {
                        lemma_compaction_failed(
                            *self,
                            run,
                            *old(store),
                            between,
                            *store,
                            done,
                            last,
                            e,
                        );
                    }
                    return Err(CompactionError::Storage(e));
                },
            }
        }
        assert(table_runs(result_sst@) == split_run(all, watermark, target, sizes));
        assert(input_result(
            *self,
            old(store).store(),
            Ok(run),
            writes_of::<S::Error>(result_sst@),
            Ok::<Vec<Arc<SsTable>>, CompactionError<S::Error>>(result_sst),
        ));
        Ok(result_sst)
    }
}

/// One more table is written behind the others.
proof fn lemma_wrote_one_more<S: TableStore>(
    before: LoggedTables<S>,
    between: LoggedTables<S>,
    after: LoggedTables<S>,
    items: Seq<Item>,
    done: Seq<Arc<SsTable>>,
    tables: Seq<Arc<SsTable>>,
)
    requires
        did(before, between, writes_of(done)),
        table_finished(between, after, items, done, tables),
        readable(done),
    ensures
        did(before, after, writes_of(tables)),
        readable(tables),
        table_runs(tables) == table_runs(done).push(items),
{
    let table = choose|table: SsTable|
        {
            &&& table.items() == items
            &&& table.failure() is None
            &&& tables == done.push(Arc::new(table))
            &&& did(between, after, #[trigger] table_writes::<S::Error>(table, Ok(())))
        };
    assert(tables.drop_last() =~= done);
    assert(table_runs(tables) =~= table_runs(done).push(items));
    lemma_did_both(before, between, after, writes_of(done), table_writes(table, Ok(())));
}

/// A compaction fails where the store fails to write the table that it comes to write.
proof fn lemma_compaction_failed<S: TableStore, C>(
    inner: LsmStorageInner<C>,
    run: Run<ReadError>,
    before: LoggedTables<S>,
    between: LoggedTables<S>,
    after: LoggedTables<S>,
    written: Seq<Arc<SsTable>>,
    items: Seq<Item>,
    e: S::Error,
)
    requires
        comes_to_write(
            inner,
            before.store(),
            run,
            Cut { done: table_runs(written), open: items },
        ),
        did(before, between, writes_of(written)),
        table_failed(between, after, items, e),
    ensures
        compacted(
            inner,
            Ok(run),
            before,
            after,
            Err::<Vec<Arc<SsTable>>, CompactionError<S::Error>>(CompactionError::Storage(e)),
        ),
{
    let failed = choose|failed: SsTable|
        {
            &&& failed.items() == items
            &&& did(between, after, #[trigger] table_writes::<S::Error>(failed, Err(e)))
        };
    let actions = writes_of::<S::Error>(written) + table_writes(failed, Err(e));
    lemma_did_both(before, between, after, writes_of(written), table_writes(failed, Err(e)));
    assert(comes_to_write(
        inner,
        before.store(),
        run,
        Cut { done: table_runs(written), open: failed.items() },
    ));
    assert(compaction_failed(inner, before.store(), run, actions, e));
    assert(input_result(
        inner,
        before.store(),
        Ok(run),
        actions,
        Err::<Vec<Arc<SsTable>>, CompactionError<S::Error>>(CompactionError::Storage(e)),
    ));
}

} // verus!
