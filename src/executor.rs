use vstd::prelude::*;

use crate::memcmp::{copy_row, encode_projection, encode_row, project};
use crate::partition::{
    lemma_evicted_not_pending, lemma_evicted_not_retained, lemma_output_bounded, merged_evict, output_values, row_keys, settle, fails_between,
    KeyedRow, Partition, Row,
};
use crate::state_key::key_lt;
use crate::partition_cache::{all_ingested, pending_stored, PartitionCache};
use crate::state_key::{copy_bytes, StateKey};
use crate::state_table::{
    keyed_rows_of, lemma_keyed_rows_push, lemma_keyed_rows_stored, lemma_keyed_rows_without, lemma_without,
    lemma_without_sorted, sorted_keys, StateTable, StoredRow,
};
use crate::state_key::lemma_key_lt_transitive;
use crate::window_state::holds_key;
use crate::window_state::{Datum, StateEvictHint, WindowError, WindowFuncCall};

verus! {

/// The epoch a barrier closes and the one it opens.
#[derive(Clone, Copy, Debug, PartialEq, Eq)]
pub struct EpochPair {
    pub curr: u64,
    pub prev: u64,
}

/// An epoch boundary, possibly handing this replica a new set of vnodes.
pub struct Barrier {
    pub epoch: EpochPair,
    pub vnode_bitmap: Option<Vec<bool>>,
}

/// What flows between operators.
pub enum Message {
    /// Append-only rows.
    Chunk(Vec<Row>),
    /// A watermark on the order key.
    Watermark(i64),
    /// An epoch boundary.
    Barrier(Barrier),
}

/// Why the operator stops.
#[derive(Clone, Copy, Debug, PartialEq, Eq)]
pub enum ExecutorError {
    /// The first message was not a barrier.
    FirstMessageNotBarrier,
    /// A row's order key is NULL.
    NullOrderKey,
    /// A row does not have the input's number of columns.
    RowWidthMismatch,
    /// A row's state key does not come after the previous one of its partition.
    OrderKeyNotAscending,
    /// A window function failed.
    Window(WindowError),
}

/// How the operator is set up.
pub struct EowcOverWindowExecutorArgs {
    pub executor_id: u64,
    pub pk_indices: Vec<usize>,
    pub input_width: usize,
    pub calls: Vec<WindowFuncCall>,
    pub partition_key_indices: Vec<usize>,
    pub order_key_index: usize,
    pub input_pk_indices: Vec<usize>,
    pub state_table: StateTable,
}

/// The decisions of the emit-on-window-close over-window operator: it takes
/// one upstream message at a time and says what to send downstream.
pub struct EowcOverWindowExecutor {
    executor_id: u64,
    pk_indices: Vec<usize>,
    input_width: usize,
    calls: Vec<WindowFuncCall>,
    partition_key_indices: Vec<usize>,
    order_key_index: usize,
    input_pk_indices: Vec<usize>,
    state_table: StateTable,
    partitions: PartitionCache,
    initialized: bool,
}

/// The first `width` columns of `out_row` are a row that the table `log`
/// records.
pub open spec fn from_stored(out_row: Seq<Datum>, log: Seq<StoredRow>, width: usize) -> bool {
    exists|e: StoredRow|
        #[trigger] log.contains(e) && e.2.len() == width && out_row.len() >= width && out_row.subrange(0, width as int) == e.2
}

/// Why `apply_row` refuses `row` in state `a`: a wrong width, a NULL order
/// key, a key not after its partition's last, or a window function failing
/// on a row that would be emitted.
pub open spec fn row_fails(a: EowcOverWindowExecutor, row: Seq<Datum>) -> bool {
    ||| row.len() != a.width()
    ||| row[a.order_index() as int] is None
    ||| !a.in_order(row)
    ||| fails_between(a.calls(), a.rows_after(row), a.curr_view(a.partition_of(row)), a.curr_after(row))
}

/// Applying `rows` from state `a` meets, after some rows applied one by one,
/// a row that `apply_row` refuses.
pub open spec fn chunk_fails(a: EowcOverWindowExecutor, rows: Seq<Seq<Datum>>) -> bool {
    exists|trace: Seq<EowcOverWindowExecutor>, starts: Seq<int>, out: Seq<Seq<Datum>>, n: int|
        #![trigger trace[n], starts.len(), out.len()]
        0 <= n < rows.len() && trace.len() == n + 1 && starts.len() == n + 1 && trace[0] == a && starts[0] == 0
            && (forall|i: int|
            0 <= i < n ==> row_applied(#[trigger] trace[i], trace[i + 1], rows[i], out, starts[i], starts[i + 1]))
            && row_fails(trace[n], rows[n])
}

/// `b` is `a` after `apply_row` took `row` and appended the rows
/// `out[s0..s1]`.
pub open spec fn row_applied(
    a: EowcOverWindowExecutor,
    b: EowcOverWindowExecutor,
    row: Seq<Datum>,
    out: Seq<Seq<Datum>>,
    s0: int,
    s1: int,
) -> bool {
    let pk = a.partition_of(row);
    &&& !row_fails(a, row)
    &&& b.wf()
    &&& b.same_config(a)
    &&& b.running() == a.running()
    &&& b.table().inserted() == a.table().inserted().push(a.stored_of(row))
    &&& forall|e: StoredRow|
        #[trigger] b.table().contents().contains(e) <==> (a.table().contents().push(a.stored_of(row)).contains(e) && !(e.0
            == pk && evicted_between(a.calls(), a.rows_after(row), a.curr_view(pk), a.curr_after(row), e.1)))
    &&& forall|k: Seq<u8>| k != pk ==> (#[trigger] b.cache().has(k) <==> a.cache().has(k))
    &&& forall|k: Seq<u8>| k != pk && a.cache().has(k) ==> #[trigger] b.cache().get(k) == a.cache().get(k)
    &&& forall|k: Seq<u8>| k != pk ==> #[trigger] keyed_rows_of(b.table().contents(), k) == keyed_rows_of(a.table().contents(), k)
    &&& b.cache().has(pk)
    &&& b.rows_view(pk) == a.rows_after(row)
    &&& b.curr_view(pk) == a.curr_after(row)
    &&& 0 <= s0 <= s1 <= out.len()
    &&& s1 - s0 == a.curr_after(row) - a.curr_view(pk)
    &&& forall|t: int| 0 <= t < s1 - s0 ==> #[trigger] out[s0 + t] == a.output_row(row, (a.curr_view(pk) + t) as nat)
}

/// `b` is `a` after `apply_chunk` took `rows` one by one and output `out`:
/// a trace of executors, one step per row, each an `apply_row`.
pub open spec fn chunk_applied(
    a: EowcOverWindowExecutor,
    b: EowcOverWindowExecutor,
    rows: Seq<Seq<Datum>>,
    out: Seq<Seq<Datum>>,
) -> bool {
    exists|trace: Seq<EowcOverWindowExecutor>, starts: Seq<int>|
        #![trigger trace.len(), starts.len()]
        trace.len() == rows.len() + 1 && starts.len() == rows.len() + 1 && trace[0] == a && trace[rows.len() as int]
            == b && starts[0] == 0 && starts[rows.len() as int] == out.len() && forall|i: int|
            0 <= i < rows.len() ==> row_applied(
                #[trigger] trace[i],
                trace[i + 1],
                rows[i],
                out,
                starts[i],
                starts[i + 1],
            )
}

/// Whether the merged hint of some row in `from..to` lets key `k` go.
pub open spec fn evicted_between(
    calls: Seq<WindowFuncCall>,
    rows: Seq<KeyedRow>,
    from: nat,
    to: nat,
    k: (i64, Seq<u8>),
) -> bool {
    exists|c: nat|
        from <= c < to && (#[trigger] merged_evict(calls, row_keys(rows), c)) is Some && merged_evict(
            calls,
            row_keys(rows),
            c,
        ).unwrap().contains(k)
}

/// Each row's key comes strictly after the one before it.
pub open spec fn ascending(rows: Seq<KeyedRow>) -> bool {
    forall|j: int| 0 <= j < rows.len() - 1 ==> #[trigger] key_lt(rows[j].0, rows[j + 1].0)
}

/// The configured columns all lie inside rows of `width` columns.
pub open spec fn columns_in(width: usize, pk: Seq<usize>, order: usize, input_pk: Seq<usize>) -> bool {
    &&& order < width
    &&& forall|i: int| 0 <= i < pk.len() ==> #[trigger] pk[i] < width
    &&& forall|i: int| 0 <= i < input_pk.len() ==> #[trigger] input_pk[i] < width
}

impl EowcOverWindowExecutor {
    pub closed spec fn wf(&self) -> bool {
        &&& self.partitions.wf()
        &&& self.partitions.calls() == self.calls@
        &&& self.calls@.len() > 0
        &&& self.input_width + self.calls@.len() <= usize::MAX
        &&& self.state_table.wf()
        &&& self.partitions.all_stored(self.state_table.contents())
        &&& self.partitions.all_covered(self.state_table.contents())
        &&& forall|e: StoredRow| #[trigger] self.state_table.inserted().contains(e) ==> e.2.len() == self.input_width
        &&& forall|k: Seq<u8>| sorted_keys(#[trigger] keyed_rows_of(self.state_table.contents(), k))
        &&& columns_in(
            self.input_width,
            self.partition_key_indices@,
            self.order_key_index,
            self.input_pk_indices@,
        )
    }

    /// Whether the first barrier has been seen.
    pub closed spec fn running(&self) -> bool {
        self.initialized
    }

    /// The state table.
    pub closed spec fn table(&self) -> StateTable {
        self.state_table
    }

    /// The partition cache.
    pub closed spec fn cache(&self) -> PartitionCache {
        self.partitions
    }

    /// The input column holding the order key.
    pub closed spec fn order_index(&self) -> usize {
        self.order_key_index
    }

    /// The columns of the partition key.
    pub closed spec fn partition_indices(&self) -> Seq<usize> {
        self.partition_key_indices@
    }

    /// The columns of the input primary key.
    pub closed spec fn input_pk(&self) -> Seq<usize> {
        self.input_pk_indices@
    }

    /// The encoded partition key of an input row.
    pub open spec fn partition_of(&self, row: Seq<Datum>) -> Seq<u8> {
        encode_row(project(row, self.partition_indices()))
    }

    /// The state key of an input row whose order key is not NULL.
    pub open spec fn key_of(&self, row: Seq<Datum>) -> (i64, Seq<u8>) {
        (
            match row[self.order_index() as int] {
                Some(v) => v,
                None => 0,
            },
            encode_row(project(row, self.input_pk())),
        )
    }

    /// The row the state table stores for an input row.
    pub open spec fn stored_of(&self, row: Seq<Datum>) -> StoredRow {
        (self.partition_of(row), self.key_of(row), row)
    }

    /// Both executors read rows the same way.
    pub open spec fn same_config(&self, other: EowcOverWindowExecutor) -> bool {
        &&& self.order_index() == other.order_index()
        &&& self.partition_indices() == other.partition_indices()
        &&& self.input_pk() == other.input_pk()
        &&& self.width() == other.width()
        &&& self.calls() == other.calls()
    }

    /// The rows of the partition of `row` once `row` is added.
    pub open spec fn rows_after(&self, row: Seq<Datum>) -> Seq<KeyedRow> {
        self.rows_view(self.partition_of(row)).push((self.key_of(row), row))
    }

    /// Where the partition of `row` stands once `row` is added and every
    /// complete window is emitted.
    pub open spec fn curr_after(&self, row: Seq<Datum>) -> nat {
        settle(self.calls(), self.rows_after(row).len(), self.curr_view(self.partition_of(row)))
    }

    /// Whether `row` can be added to its partition: the partition can be had
    /// and `row`'s key comes after its last one.
    pub open spec fn in_order(&self, row: Seq<Datum>) -> bool {
        let rows = self.rows_view(self.partition_of(row));
        self.recoverable(self.partition_of(row)) && (rows.len() > 0 ==> key_lt(rows.last().0, self.key_of(row)))
    }

    /// The output row for position `c` of the partition of `row` once `row`
    /// is added: the input row followed by one value per call.
    pub open spec fn output_row(&self, row: Seq<Datum>, c: nat) -> Seq<Datum> {
        self.rows_after(row)[c as int].1 + output_values(self.calls(), self.rows_after(row), c)
    }

    /// The rows the state table holds for partition key `k`, in stored order.
    pub open spec fn stored_rows(&self, k: Seq<u8>) -> Seq<KeyedRow> {
        keyed_rows_of(self.table().contents(), k)
    }

    /// The rows of partition key `k`: those of its cached partition, or, when
    /// it is not cached, those that recovery feeds from the state table.
    pub open spec fn rows_view(&self, k: Seq<u8>) -> Seq<KeyedRow> {
        if self.cache().has(k) {
            self.cache().get(k).rows()
        } else {
            self.stored_rows(k)
        }
    }

    /// The position of the first row of `k` whose output is still to come:
    /// that of the cached partition, or, when it is not cached, the first
    /// stored row whose windows are not complete.
    pub open spec fn curr_view(&self, k: Seq<u8>) -> nat {
        if self.cache().has(k) {
            self.cache().get(k).curr()
        } else {
            settle(self.calls(), self.stored_rows(k).len(), 0)
        }
    }

    /// Whether partition key `k` can be had: cached, or stored in ascending
    /// key order so that recovery can feed it.
    pub open spec fn recoverable(&self, k: Seq<u8>) -> bool {
        self.cache().has(k) || ascending(self.stored_rows(k))
    }

    /// The calls evaluated.
    pub closed spec fn calls(&self) -> Seq<WindowFuncCall> {
        self.calls@
    }

    /// Number of columns of an input row.
    pub closed spec fn width(&self) -> usize {
        self.input_width
    }

    /// An operator waiting for its first barrier.
    pub fn new(args: EowcOverWindowExecutorArgs) -> (r: EowcOverWindowExecutor)
        requires
            columns_in(
                args.input_width,
                args.partition_key_indices@,
                args.order_key_index,
                args.input_pk_indices@,
            ),
            args.state_table.wf(),
            args.calls.len() > 0,
            args.input_width + args.calls.len() <= usize::MAX,
            forall|e: StoredRow| #[trigger] args.state_table.inserted().contains(e) ==> e.2.len() == args.input_width,
            forall|k: Seq<u8>| sorted_keys(#[trigger] keyed_rows_of(args.state_table.contents(), k)),
        ensures
            r.wf(),
            !r.running(),
            r.table() == args.state_table,
            r.calls() == args.calls@,
            r.width() == args.input_width,
            r.order_index() == args.order_key_index,
            r.id() == args.executor_id,
            r.stream_pk() == args.pk_indices@,
            r.partition_indices() == args.partition_key_indices@,
            r.input_pk() == args.input_pk_indices@,
            r.cache().keys().len() == 0,
    {
        let partitions = PartitionCache::new(&args.calls, 0);
        EowcOverWindowExecutor {
            executor_id: args.executor_id,
            pk_indices: args.pk_indices,
            input_width: args.input_width,
            calls: args.calls,
            partition_key_indices: args.partition_key_indices,
            order_key_index: args.order_key_index,
            input_pk_indices: args.input_pk_indices,
            state_table: args.state_table,
            partitions,
            initialized: false,
        }
    }

    /// The id this executor was given.
    pub closed spec fn id(&self) -> u64 {
        self.executor_id
    }

    /// The columns of the output stream's primary key.
    pub closed spec fn stream_pk(&self) -> Seq<usize> {
        self.pk_indices@
    }

    /// The id this executor was given, which names it.
    pub fn executor_id(&self) -> (r: u64)
        ensures
            r == self.id(),
    {
        self.executor_id
    }

    /// The columns of the output stream's primary key.
    pub fn pk_indices(&self) -> (r: &Vec<usize>)
        ensures
            r@ == self.stream_pk(),
    {
        &self.pk_indices
    }

    /// Number of columns of an output row: the input's, then one per call.
    pub fn output_width(&self) -> (r: usize)
        requires
            self.wf(),
        ensures
            r == self.width() + self.calls().len(),
    {
        self.input_width + self.calls.len()
    }

    /// The state table, for inspection.
    pub fn state_table(&self) -> (r: &StateTable)
        ensures
            *r == self.table(),
    {
        &self.state_table
    }

    /// Number of cached partitions.
    pub fn cached_partitions(&self) -> (r: usize)
        ensures
            r == self.cache().keys().len(),
    {
        self.partitions.len()
    }

    /// The state key of a row: its order key and encoded input primary key.
    fn state_key_of(&self, row: &Row) -> (r: Result<StateKey, ExecutorError>)
        requires
            self.wf(),
            row.len() == self.input_width,
        ensures
            match r {
                Ok(k) => row@[self.order_key_index as int] == Some(k.order_key) && k@ == self.key_of(row@),
                Err(e) => e == ExecutorError::NullOrderKey && row@[self.order_key_index as int] is None,
            },
    {
        match row[self.order_key_index] {
            Some(order_key) => {
                let encoded_pk = encode_projection(row, &self.input_pk_indices);
                Ok(StateKey { order_key, encoded_pk })
            },
            None => Err(ExecutorError::NullOrderKey),
        }
    }

    /// Rebuilds the partition of `partition_key` from the state table: every
    /// stored row is fed again, in stored order, and windows already emitted
    /// are skipped. Fails when the stored keys are not ascending.
    fn recover_partition(&self, partition_key: &Vec<u8>) -> (r: Result<Partition, ExecutorError>)
        requires
            self.wf(),
        ensures
            r is Ok <==> ascending(self.stored_rows(partition_key@)),
            match r {
                Ok(p) => {
                    &&& p.wf()
                    &&& p.calls() == self.calls@
                    &&& p.rows() == self.stored_rows(partition_key@)
                    &&& p.curr() == settle(self.calls@, p.rows().len(), 0)
                    &&& !p.ready()
                    &&& pending_stored(partition_key@, p, self.state_table.contents())
                    &&& all_ingested(partition_key@, p, self.state_table.contents())
                },
                Err(e) => e == ExecutorError::OrderKeyNotAscending,
            },
    {
        proof {
            self.lemma_recoverable(partition_key@);
        }
        let mut partition = Partition::new(&self.calls);
        let rows = self.state_table.scan_partition(partition_key);
        let ghost stored = rows@.map_values(|x: (StateKey, Row)| (x.0@, x.1@));
        assert(stored == self.stored_rows(partition_key@));
        let mut i: usize = 0;
        while i < rows.len()
            invariant
                self.wf(),
                partition.wf(),
                partition.calls() == self.calls@,
                partition.curr() == 0,
                i <= rows.len(),
                stored == rows@.map_values(|x: (StateKey, Row)| (x.0@, x.1@)),
                stored.len() == rows.len(),
                stored == self.stored_rows(partition_key@),
                forall|t: int| 0 <= t < rows.len() ==> self.state_table.contents().contains((partition_key@, (#[trigger] rows@[t]).0@, rows@[t].1@)),
                forall|j: int| 0 <= j < partition.rows().len() ==> self.state_table.contents().contains((partition_key@, (#[trigger] partition.rows()[j]).0, partition.rows()[j].1)),
                partition.rows() == stored.subrange(0, i as int),
                ascending(stored.subrange(0, i as int)),
                forall|e: StoredRow|
                    #[trigger] self.state_table.contents().contains(e) && e.0 == partition_key@ ==> exists|t: int|
                        0 <= t < rows.len() && (#[trigger] rows@[t]).0@ == e.1 && rows@[t].1@ == e.2,
            decreases rows.len() - i,
        {
            let (key, row) = (&rows[i].0, &rows[i].1);
            assert(stored[i as int] == (key@, row@));
            let ascending_here = match partition.last_key() {
                Some(last) => last.less_than(key),
                None => true,
            };
            if !ascending_here {
                proof {
                    assert(partition.rows().len() == i);
                    let jj = i - 1;
                    assert(partition.rows()[jj] == stored[jj]);
                    assert(stored[jj + 1] == stored[i as int]);
                    assert(!key_lt(stored[jj].0, stored[jj + 1].0));
                    assert(0 <= jj < stored.len() - 1);
                    if ascending(stored) {
                        assert(key_lt(stored[jj].0, stored[jj + 1].0));
                    }
                    assert(!ascending(self.stored_rows(partition_key@)));
                }
                return Err(ExecutorError::OrderKeyNotAscending);
            }
            let ghost rows0 = partition.rows();
            partition.ingest(key.duplicate(), copy_row(row));
            proof {
                assert(partition.rows() =~= stored.subrange(0, i + 1));
                assert forall|j: int| 0 <= j < partition.rows().len() implies self.state_table.contents().contains((partition_key@, (#[trigger] partition.rows()[j]).0, partition.rows()[j].1)) by {
                    assert(partition.rows()[j] == stored[j]);
                    assert(stored[j] == (rows@[j].0@, rows@[j].1@));
                }
                let ns = stored.subrange(0, i + 1);
                assert forall|j: int| 0 <= j < ns.len() - 1 implies #[trigger] key_lt(ns[j].0, ns[j + 1].0) by {
                    if j < i - 1 {
                        assert(stored.subrange(0, i as int)[j] == ns[j]);
                        assert(stored.subrange(0, i as int)[j + 1] == ns[j + 1]);
                    }
                }
            }
            i += 1;
        }
        assert(stored.subrange(0, rows.len() as int) =~= stored);
        proof {
            partition.lemma_aligned();
        }
        let ghost rows1 = partition.rows();
        partition.skip_ready();
        proof {
            assert forall|j: int| partition.curr() <= j < partition.rows().len() implies self.state_table.contents().contains((partition_key@, (#[trigger] partition.rows()[j]).0, partition.rows()[j].1)) by {
                assert(partition.rows()[j] == rows1[j]);
            }
            assert forall|e: StoredRow|
                #[trigger] self.state_table.contents().contains(e) && e.0 == partition_key@ implies exists|j: int|
                    0 <= j < partition.rows().len() && #[trigger] partition.rows()[j] == (e.1, e.2) by {
                let t = choose|t: int| 0 <= t < rows.len() && (#[trigger] rows@[t]).0@ == e.1 && rows@[t].1@ == e.2;
                assert(partition.rows()[t] == stored[t]);
            }
        }
        Ok(partition)
    }

    /// Makes sure the partition of `partition_key` is cached, recovering it
    /// from the state table on a miss. Nothing else changes: the rows and
    /// position of every key stay what they were.
    fn ensure_key_in_cache(&mut self, partition_key: &Vec<u8>) -> (r: Result<(), ExecutorError>)
        requires
            old(self).wf(),
        ensures
            final(self).same_config(*old(self)),
            final(self).wf(),
            final(self).table() == old(self).table(),
            final(self).running() == old(self).running(),
            final(self).width() == old(self).width(),
            final(self).calls() == old(self).calls(),
            final(self).cache().epoch() == old(self).cache().epoch(),
            r is Ok,
            old(self).cache().has(partition_key@) ==> *final(self) == *old(self),
            r is Err ==> *final(self) == *old(self) && r == Err::<(), ExecutorError>(ExecutorError::OrderKeyNotAscending),
            r is Ok ==> final(self).cache().has(partition_key@),
            forall|k: Seq<u8>| #[trigger] final(self).cache().has(k) <== old(self).cache().has(k),
            forall|k: Seq<u8>| k != partition_key@ ==> (#[trigger] final(self).cache().has(k) <==> old(self).cache().has(k)),
            forall|k: Seq<u8>| old(self).cache().has(k) ==> #[trigger] final(self).cache().get(k) == old(self).cache().get(k),
            forall|k: Seq<u8>|
                final(self).rows_view(k) == old(self).rows_view(k) && #[trigger] final(self).curr_view(k) == old(self).curr_view(k),
    {
        if self.partitions.contains(partition_key) {
            return Ok(());
        }
        let partition = match self.recover_partition(partition_key) {
            Ok(p) => p,
            Err(e) => return Err(e),
        };
        let ghost p = partition;
        self.partitions.put(copy_bytes(partition_key), partition);
        proof {
            assert(self.partitions.keys().last() == partition_key@);
            assert(self.partitions.keys()[self.partitions.keys().len() - 1] == partition_key@);
            assert forall|k: Seq<u8>| old(self).cache().has(k) implies #[trigger] self.cache().has(k) by {
                let t = choose|t: int| 0 <= t < old(self).cache().keys().len() && old(self).cache().keys()[t] == k;
                assert(self.cache().keys()[t] == k);
            }
            assert forall|k: Seq<u8>| k != partition_key@ implies (#[trigger] self.cache().has(k) <==> old(self).cache().has(k)) by {
                if self.cache().has(k) {
                    let t = choose|t: int| 0 <= t < self.cache().keys().len() && self.cache().keys()[t] == k;
                    assert(old(self).cache().keys()[t] == k);
                }
            }
            assert forall|k: Seq<u8>|
                self.rows_view(k) == old(self).rows_view(k) && #[trigger] self.curr_view(k) == old(self).curr_view(k) by {
                if k != partition_key@ && old(self).cache().has(k) {
                    assert(self.cache().has(k));
                }
                if k != partition_key@ && !old(self).cache().has(k) {
                    if self.cache().has(k) {
                        let t = choose|t: int| 0 <= t < self.cache().keys().len() && self.cache().keys()[t] == k;
                        assert(old(self).cache().keys()[t] == k);
                    }
                }
            }
        }
        Ok(())
    }

    /// Deletes from the state table the rows that the merged hint of row `c`
    /// of partition `p` lets go; `p` itself is out of the cache.
    fn apply_evict_hint(
        &mut self,
        partition_key: &Vec<u8>,
        hint: &StateEvictHint,
        Ghost(p): Ghost<Partition>,
        Ghost(c): Ghost<nat>,
    )
        requires
            old(self).wf(),
            !old(self).cache().has(partition_key@),
            p.wf(),
            c < p.curr(),
            hint.evictable() == merged_evict(p.calls(), row_keys(p.rows()), c),
            pending_stored(partition_key@, p, old(self).table().contents()),
            all_ingested(partition_key@, p, old(self).table().contents()),
        ensures
            final(self).same_config(*old(self)),
            final(self).wf(),
            final(self).running() == old(self).running(),
            final(self).width() == old(self).width(),
            final(self).calls() == old(self).calls(),
            final(self).cache() == old(self).cache(),
            final(self).table().durable() == old(self).table().durable(),
            final(self).table().epoch() == old(self).table().epoch(),
            final(self).table().vnodes() == old(self).table().vnodes(),
            final(self).table().inserted() == old(self).table().inserted(),
            pending_stored(partition_key@, p, final(self).table().contents()),
            all_ingested(partition_key@, p, final(self).table().contents()),
            forall|e: StoredRow|
                #[trigger] final(self).table().contents().contains(e) <==> (old(self).table().contents().contains(e)
                    && !(e.0 == partition_key@ && hint.evictable() is Some && hint.evictable().unwrap().contains(e.1))),
            forall|k: Seq<u8>| k != partition_key@ ==> #[trigger] keyed_rows_of(final(self).table().contents(), k) == keyed_rows_of(old(self).table().contents(), k),
    {
        if let StateEvictHint::CanEvict(keys) = hint {
            let mut i: usize = 0;
            while i < keys.len()
                invariant
                    self.wf(),
                    self.running() == old(self).running(),
                    self.width() == old(self).width(),
                    self.calls() == old(self).calls(),
                    self.same_config(*old(self)),
                    self.cache() == old(self).cache(),
                    !self.cache().has(partition_key@),
                    self.table().durable() == old(self).table().durable(),
                    self.table().epoch() == old(self).table().epoch(),
                    self.table().vnodes() == old(self).table().vnodes(),
                    self.table().inserted() == old(self).table().inserted(),
                    pending_stored(partition_key@, p, self.table().contents()),
                    all_ingested(partition_key@, p, self.table().contents()),
                    p.wf(),
                    c < p.curr(),
                    hint.evictable() == merged_evict(p.calls(), row_keys(p.rows()), c),
                    *hint == StateEvictHint::CanEvict(*keys),
                    i <= keys.len(),
                    forall|e: StoredRow|
                        #[trigger] self.table().contents().contains(e) <==> (old(self).table().contents().contains(e)
                            && !(e.0 == partition_key@ && holds_key(keys@.subrange(0, i as int), e.1))),
                    forall|k: Seq<u8>| k != partition_key@ ==> #[trigger] keyed_rows_of(self.table().contents(), k) == keyed_rows_of(old(self).table().contents(), k),
                decreases keys.len() - i,
            {
                let ghost before = self.state_table.contents();
                let ghost pre = keys@.subrange(0, i as int);
                let ghost nxt = keys@.subrange(0, i + 1);
                proof {
                    let k = keys@[i as int]@;
                    assert(holds_key(keys@, k));
                    assert(hint.evictable().unwrap().contains(k));
                    lemma_evicted_not_pending(&p, c, k);
                    lemma_without(before, partition_key@, k);
                    self.partitions.lemma_stored_delete(before, partition_key@, k);
                }
                self.state_table.delete(partition_key, &keys[i]);
                proof {
                    let k = keys@[i as int]@;
                    let after = self.state_table.contents();
                    assert forall|e: StoredRow| #[trigger] after.contains(e) && self.partitions.has(e.0) implies before.contains(e) by {}
                    self.partitions.lemma_covered_change(before, after);
                    assert forall|e: StoredRow| #[trigger] after.contains(e) && e.0 == partition_key@ implies exists|j: int|
                        0 <= j < p.rows().len() && #[trigger] p.rows()[j] == (e.1, e.2) by {
                        assert(before.contains(e));
                    }
                    assert forall|j: int| p.curr() <= j < p.rows().len() implies self.state_table.contents().contains((partition_key@, (#[trigger] p.rows()[j]).0, p.rows()[j].1)) by {
                        assert(before.contains((partition_key@, p.rows()[j].0, p.rows()[j].1)));
                        assert(p.rows()[j].0 != k);
                    }
                    assert forall|kk: (i64, Seq<u8>)| holds_key(nxt, kk) <==> (holds_key(pre, kk) || kk == k) by {
                        if holds_key(nxt, kk) {
                            let j = choose|j: int| 0 <= j < nxt.len() && #[trigger] nxt[j]@ == kk;
                            if j < i {
                                assert(pre[j] == nxt[j]);
                            }
                        }
                        if holds_key(pre, kk) {
                            let j = choose|j: int| 0 <= j < pre.len() && #[trigger] pre[j]@ == kk;
                            assert(nxt[j] == pre[j]);
                        }
                        if kk == k {
                            assert(nxt[i as int]@ == kk);
                        }
                    }
                    assert forall|e: StoredRow|
                        #[trigger] self.table().contents().contains(e) <==> (old(self).table().contents().contains(e)
                            && !(e.0 == partition_key@ && holds_key(nxt, e.1))) by {
                        assert(holds_key(nxt, e.1) <==> (holds_key(pre, e.1) || e.1 == k));
                    }
                    assert forall|kk: Seq<u8>| kk != partition_key@ implies #[trigger] keyed_rows_of(self.table().contents(), kk) == keyed_rows_of(old(self).table().contents(), kk) by {
                        lemma_keyed_rows_without(before, partition_key@, k, kk);
                    }
                    assert forall|kk: Seq<u8>| sorted_keys(#[trigger] keyed_rows_of(self.state_table.contents(), kk)) by {
                        assert(sorted_keys(keyed_rows_of(before, kk)));
                        if kk == partition_key@ {
                            lemma_without_sorted(before, partition_key@, k, kk);
                        } else {
                            lemma_keyed_rows_without(before, partition_key@, k, kk);
                        }
                    }
                }
                i += 1;
            }
            proof {
                assert(keys@.subrange(0, keys.len() as int) =~= keys@);
            }
        }
    }

    /// Processes one row: persists it, feeds its partition, and appends to
    /// `out` every row whose windows closed, followed by one value per call;
    /// then deletes from the state table what the merged hints let go.
    pub fn apply_row(&mut self, row: &Row, out: &mut Vec<Row>) -> (r: Result<(), ExecutorError>)
        requires
            old(self).wf(),
        ensures
            final(self).same_config(*old(self)),
            final(self).wf(),
            final(self).running() == old(self).running(),
            final(self).width() == old(self).width(),
            final(self).calls() == old(self).calls(),
            final(self).cache().epoch() == old(self).cache().epoch(),
            final(self).table().durable() == old(self).table().durable(),
            final(self).table().epoch() == old(self).table().epoch(),
            final(self).table().vnodes() == old(self).table().vnodes(),
            forall|e: StoredRow| #[trigger] old(self).table().inserted().contains(e) ==> final(self).table().inserted().contains(e),
            final(out)@.len() >= old(out)@.len(),
            final(out)@.subrange(0, old(out)@.len() as int) == old(out)@,
            forall|t: int| old(out)@.len() <= t < final(out)@.len() ==> from_stored((#[trigger] final(out)@[t])@, final(self).table().inserted(), final(self).width()),
            !(row.len() == old(self).width()) ==> r == Err::<(), ExecutorError>(ExecutorError::RowWidthMismatch),
            row.len() == old(self).width() && row@[old(self).order_index() as int] is None ==> r == Err::<(), ExecutorError>(ExecutorError::NullOrderKey),
            row.len() == old(self).width() && row@[old(self).order_index() as int] is Some && !old(self).in_order(row@) ==> r == Err::<(), ExecutorError>(ExecutorError::OrderKeyNotAscending),
            row.len() == old(self).width() && row@[old(self).order_index() as int] is Some && old(self).in_order(row@) ==> (r is Ok <==> !fails_between(
                old(self).calls(),
                old(self).rows_after(row@),
                old(self).curr_view(old(self).partition_of(row@)),
                old(self).curr_after(row@),
            )),
            r matches Err(ExecutorError::Window(_)) ==> fails_between(
                old(self).calls(),
                old(self).rows_after(row@),
                old(self).curr_view(old(self).partition_of(row@)),
                old(self).curr_after(row@),
            ),
            r is Ok ==> final(self).table().inserted() == old(self).table().inserted().push(
                (old(self).partition_of(row@), old(self).key_of(row@), row@),
            ),
            r is Ok ==> final(self).cache().has(old(self).partition_of(row@)),
            r is Ok ==> final(self).rows_view(old(self).partition_of(row@)) == old(self).rows_after(row@),
            r is Ok ==> final(self).curr_view(old(self).partition_of(row@)) == old(self).curr_after(row@),
            r is Ok ==> forall|k: Seq<u8>|
                k != old(self).partition_of(row@) ==> (#[trigger] final(self).cache().has(k) <==> old(self).cache().has(k)),
            r is Ok ==> forall|k: Seq<u8>|
                k != old(self).partition_of(row@) && old(self).cache().has(k) ==> #[trigger] final(self).cache().get(k) == old(self).cache().get(k),
            r is Ok ==> forall|k: Seq<u8>|
                k != old(self).partition_of(row@) ==> #[trigger] keyed_rows_of(final(self).table().contents(), k) == keyed_rows_of(
                    old(self).table().contents(),
                    k,
                ),
            r is Ok ==> final(out)@.len() == old(out)@.len() + (old(self).curr_after(row@) - old(self).curr_view(
                old(self).partition_of(row@),
            )),
            r is Ok ==> forall|t: int|
                0 <= t < old(self).curr_after(row@) - old(self).curr_view(old(self).partition_of(row@))
                    ==> (#[trigger] final(out)@[old(out)@.len() + t])@ == old(self).output_row(
                    row@,
                    (old(self).curr_view(old(self).partition_of(row@)) + t) as nat,
                ),
            r is Ok ==> forall|e: StoredRow|
                #[trigger] final(self).table().contents().contains(e) <==> (old(self).table().contents().push(
                    (old(self).partition_of(row@), old(self).key_of(row@), row@),
                ).contains(e) && !(e.0 == old(self).partition_of(row@) && evicted_between(
                    old(self).calls(),
                    old(self).rows_after(row@),
                    old(self).curr_view(old(self).partition_of(row@)),
                    old(self).curr_after(row@),
                    e.1,
                ))),
    {
        let ghost calls = self.calls();
        let ghost pk = self.partition_of(row@);
        let ghost gkey = self.key_of(row@);
        let ghost rows0v = self.rows_view(pk);
        let ghost c0v = self.curr_view(pk);
        if row.len() != self.input_width {
            return Err(ExecutorError::RowWidthMismatch);
        }
        let partition_key = encode_projection(row, &self.partition_key_indices);
        let key = self.state_key_of(row)?;
        assert(key@ == gkey);
        assert(partition_key@ == pk);
        let ghost mid = *self;
        match self.ensure_key_in_cache(&partition_key) {
            Ok(()) => {},
            Err(e) => return Err(e),
        }
        let ghost contents0 = self.state_table.contents();
        let ghost mid2 = *self;
        let mut partition = match self.partitions.take(&partition_key) {
            Some(p) => p,
            None => unreached(),
        };
        let ghost cache3 = self.cache();
        proof {
            assert(mid2.curr_view(pk) == mid.curr_view(pk));
            assert(mid2.cache().has(pk));
            assert(partition == mid2.cache().get(pk));
        }
        assert(partition.rows() == rows0v && partition.curr() == c0v);
        let ascending = match partition.last_key() {
            Some(last) => last.less_than(&key),
            None => true,
        };
        if !ascending {
            self.partitions.put(partition_key, partition);
            return Err(ExecutorError::OrderKeyNotAscending);
        }
        let ghost log0 = self.state_table.inserted();
        self.state_table.insert(copy_bytes(&partition_key), key.duplicate(), copy_row(row));
        let ghost contents1 = self.state_table.contents();
        let ghost rows0 = partition.rows();
        let ghost new_row = (partition_key@, key@, row@);
        proof {
            assert(contents1 == contents0.push(new_row));
            assert forall|e: StoredRow| #[trigger] contents0.contains(e) implies contents1.contains(e) by {
                let t = choose|t: int| 0 <= t < contents0.len() && contents0[t] == e;
                assert(contents1[t] == e);
            }
            assert(contents1[contents0.len() as int] == new_row);
            self.partitions.lemma_stored_grow(contents0, contents1);
            assert forall|e: StoredRow| #[trigger] contents1.contains(e) && self.partitions.has(e.0) implies contents0.contains(e) by {
                let t = choose|t: int| 0 <= t < contents1.len() && contents1[t] == e;
                if t < contents0.len() {
                    assert(contents0[t] == e);
                }
            }
            self.partitions.lemma_covered_change(contents0, contents1);
            assert(self.state_table.inserted() == log0.push(new_row));
            partition.lemma_rows_sorted();
            assert forall|kk: Seq<u8>| sorted_keys(#[trigger] keyed_rows_of(self.state_table.contents(), kk)) by {
                lemma_keyed_rows_push(contents0, new_row, kk);
                assert(sorted_keys(keyed_rows_of(contents0, kk)));
                if kk == pk {
                    let ko = keyed_rows_of(contents0, kk);
                    let kn = ko.push((key@, row@));
                    assert forall|a: int, b: int| 0 <= a < b < kn.len() implies key_lt(#[trigger] kn[a].0, #[trigger] kn[b].0) by {
                        if b < ko.len() {
                            assert(kn[a] == ko[a] && kn[b] == ko[b]);
                        } else {
                            let x = ko[a];
                            assert(kn[a] == x);
                            assert(ko.contains(x));
                            lemma_keyed_rows_stored(contents0, kk, x);
                            let e = (kk, x.0, x.1);
                            assert(contents0.contains(e) && e.0 == partition_key@);
                            let j = choose|j: int| 0 <= j < rows0.len() && #[trigger] rows0[j] == (e.1, e.2);
                            let last = rows0.len() - 1;
                            assert(key_lt(rows0[last].0, key@));
                            if j < last {
                                assert(key_lt(rows0[j].0, rows0[last].0));
                                lemma_key_lt_transitive(rows0[j].0, rows0[last].0, key@);
                            }
                        }
                    }
                }
            }
            assert forall|e: StoredRow| #[trigger] self.state_table.inserted().contains(e) implies e.2.len() == self.input_width by {
                let t = choose|t: int| 0 <= t < self.state_table.inserted().len() && self.state_table.inserted()[t] == e;
                if t < log0.len() {
                    assert(log0[t] == e);
                    assert(log0.contains(e));
                }
            }
            assert forall|e: StoredRow| #[trigger] log0.contains(e) implies self.state_table.inserted().contains(e) by {
                let t = choose|t: int| 0 <= t < log0.len() && log0[t] == e;
                assert(self.state_table.inserted()[t] == e);
            }
        }
        partition.ingest(key, copy_row(row));
        proof {
            assert forall|e: StoredRow| #[trigger] contents1.contains(e) && e.0 == partition_key@ implies exists|j: int|
                0 <= j < partition.rows().len() && #[trigger] partition.rows()[j] == (e.1, e.2) by {
                let t = choose|t: int| 0 <= t < contents1.len() && contents1[t] == e;
                if t < contents0.len() {
                    assert(contents0[t] == e);
                    assert(contents0.contains(e));
                    let j = choose|j: int| 0 <= j < rows0.len() && #[trigger] rows0[j] == (e.1, e.2);
                    assert(partition.rows()[j] == rows0[j]);
                } else {
                    assert(partition.rows()[rows0.len() as int] == (key@, row@));
                }
            }
            assert forall|j: int| partition.curr() <= j < partition.rows().len() implies contents1.contains((partition_key@, (#[trigger] partition.rows()[j]).0, partition.rows()[j].1)) by {
                if j < rows0.len() {
                    assert(partition.rows()[j] == rows0[j]);
                    assert(contents0.contains((partition_key@, rows0[j].0, rows0[j].1)));
                } else {
                    assert(partition.rows()[j] == (key@, row@));
                }
            }
        }
        let ghost p1 = partition;
        let drained = match partition.drain_ready() {
            Ok(d) => d,
            Err(e) => {
                proof {
                    assert forall|j: int| partition.curr() <= j < partition.rows().len() implies contents1.contains((partition_key@, (#[trigger] partition.rows()[j]).0, partition.rows()[j].1)) by {
                        assert(partition.rows()[j] == p1.rows()[j]);
                    }
                }
                proof {
                    assert forall|e: StoredRow| #[trigger] contents1.contains(e) && e.0 == partition_key@ implies exists|j: int|
                        0 <= j < partition.rows().len() && #[trigger] partition.rows()[j] == (e.1, e.2) by {
                        let j = choose|j: int| 0 <= j < p1.rows().len() && #[trigger] p1.rows()[j] == (e.1, e.2);
                        assert(partition.rows()[j] == p1.rows()[j]);
                    }
                }
                self.partitions.put(partition_key, partition);
                return Err(ExecutorError::Window(e));
            },
        };
        let ghost c1 = p1.curr();
        proof {
            assert(pending_stored(partition_key@, p1, contents1));
            assert(all_ingested(partition_key@, p1, contents1));
            assert forall|e: StoredRow| #[trigger] contents1.contains(e) && e.0 == partition_key@ implies exists|j: int|
                0 <= j < partition.rows().len() && #[trigger] partition.rows()[j] == (e.1, e.2) by {
                let j = choose|j: int| 0 <= j < p1.rows().len() && #[trigger] p1.rows()[j] == (e.1, e.2);
                assert(partition.rows()[j] == p1.rows()[j]);
            }
            lemma_output_bounded(&p1, &partition, drained.len() as nat);
            assert forall|j: int| partition.curr() <= j < partition.rows().len() implies contents1.contains((partition_key@, (#[trigger] partition.rows()[j]).0, partition.rows()[j].1)) by {
                assert(partition.rows()[j] == p1.rows()[j]);
            }
            assert forall|t: int| 0 <= t < drained.len() implies from_stored((#[trigger] drained@[t]).row@, self.state_table.inserted(), self.width()) by {
                let c = c1 + t;
                assert(drained@[t].row@ == p1.rows()[c].1);
                let e = (partition_key@, p1.rows()[c].0, p1.rows()[c].1);
                assert(contents1.contains(e));
                self.state_table.lemma_contents_logged(e);
                assert(e.2.len() == self.width());
                assert(drained@[t].row@.subrange(0, self.width() as int) =~= e.2);
            }
        }
        let ghost out0 = out@;
        let ghost log1 = self.table().inserted();
        let ghost rows1 = p1.rows();
        proof {
            assert(rows1 == rows0v.push((gkey, row@)));
            assert(partition.curr() == settle(calls, rows1.len(), c1));
        }
        let mut i: usize = 0;
        while i < drained.len()
            invariant
                self.table().inserted() == log1,
                self.cache() == cache3,
                rows1 == p1.rows(),
                self.table().contents().len() >= 0,
                forall|e: StoredRow|
                    #[trigger] self.table().contents().contains(e) <==> (contents1.contains(e) && !(e.0 == pk
                        && evicted_between(calls, rows1, c1, (c1 + i) as nat, e.1))),
                forall|k: Seq<u8>| k != pk ==> #[trigger] keyed_rows_of(self.table().contents(), k) == keyed_rows_of(contents1, k),
                out@.len() == out0.len() + i,
                forall|t: int| 0 <= t < i ==> (#[trigger] out@[out0.len() + t])@ == rows1[c1 + t].1 + output_values(calls, rows1, (c1 + t) as nat),
                forall|t: int| 0 <= t < drained.len() ==> crate::partition::drained(calls, rows1, (c1 + t) as nat, #[trigger] drained@[t]),
                calls == self.calls(),
                partition_key@ == pk,
                self.wf(),
                self.running() == old(self).running(),
                self.width() == old(self).width(),
                self.calls() == old(self).calls(),
                self.same_config(*old(self)),
                self.cache().epoch() == old(self).cache().epoch(),
                !self.cache().has(partition_key@),
                self.table().durable() == old(self).table().durable(),
                self.table().epoch() == old(self).table().epoch(),
                self.table().vnodes() == old(self).table().vnodes(),
                forall|e: StoredRow| #[trigger] old(self).table().inserted().contains(e) ==> self.table().inserted().contains(e),
                i <= drained.len(),
                out0 == old(out)@,
                out@.len() >= out0.len(),
                out@.subrange(0, out0.len() as int) == out0,
                forall|t: int| out0.len() <= t < out@.len() ==> from_stored((#[trigger] out@[t])@, self.table().inserted(), self.width()),
                forall|t: int| 0 <= t < drained.len() ==> from_stored((#[trigger] drained@[t]).row@, self.table().inserted(), self.width()),
                partition.wf(),
                partition.calls() == self.calls(),
                partition.curr() == c1 + drained.len(),
                partition.rows() == p1.rows(),
                p1.calls() == self.calls(),
                pending_stored(partition_key@, partition, self.table().contents()),
                all_ingested(partition_key@, partition, self.table().contents()),
                forall|t: int| 0 <= t < drained.len() ==> (#[trigger] drained@[t]).evict.evictable() == merged_evict(p1.calls(), row_keys(p1.rows()), (c1 + t) as nat),
            decreases drained.len() - i,
        {
            let d = &drained[i];
            let mut full = copy_row(&d.row);
            let mut j: usize = 0;
            while j < d.outputs.len()
                invariant
                    j <= d.outputs.len(),
                    full@.len() == d.row@.len() + j,
                    full@.subrange(0, d.row@.len() as int) == d.row@,
                    full@ == d.row@ + d.outputs@.subrange(0, j as int),
                decreases d.outputs.len() - j,
            {
                let ghost f0 = full@;
                full.push(d.outputs[j]);
                assert(full@ =~= d.row@ + d.outputs@.subrange(0, j + 1));
                assert(full@.subrange(0, d.row@.len() as int) =~= f0.subrange(0, d.row@.len() as int));
                j += 1;
            }
            proof {
                let e = choose|e: StoredRow| #[trigger] self.table().inserted().contains(e) && e.2.len() == self.width() && d.row@.len() >= self.width() && d.row@.subrange(0, self.width() as int) == e.2;
                assert(full@.subrange(0, self.width() as int) =~= d.row@.subrange(0, self.width() as int));
            }
            proof {
                assert(d.outputs@.subrange(0, d.outputs@.len() as int) =~= d.outputs@);
                assert(crate::partition::drained(calls, rows1, (c1 + i) as nat, drained@[i as int]));
                assert(d.outputs@ =~= output_values(calls, rows1, (c1 + i) as nat)) by {
                    assert forall|jj: int| 0 <= jj < calls.len() implies d.outputs@[jj] == output_values(calls, rows1, (c1 + i) as nat)[jj] by {
                        assert(Ok::<Datum, WindowError>(d.outputs@[jj]) == crate::partition::call_output(calls[jj], rows1, (c1 + i) as nat));
                    }
                }
            }
            let ghost o1 = out@;
            let ghost contents_b = self.table().contents();
            out.push(full);
            proof {
                assert(out@.subrange(0, out0.len() as int) =~= o1.subrange(0, out0.len() as int));
                assert forall|t: int| out0.len() <= t < out@.len() implies from_stored((#[trigger] out@[t])@, self.table().inserted(), self.width()) by {
                    if t < o1.len() {
                        assert(out@[t] == o1[t]);
                    }
                }
            }
            self.apply_evict_hint(&partition_key, &d.evict, Ghost(partition), Ghost((c1 + i) as nat));
            proof {
                let c = (c1 + i) as nat;
                assert(d.evict.evictable() == merged_evict(calls, row_keys(rows1), c));
                assert forall|e: StoredRow|
                    #[trigger] self.table().contents().contains(e) <==> (contents1.contains(e) && !(e.0 == pk
                        && evicted_between(calls, rows1, c1, (c1 + i + 1) as nat, e.1))) by {
                    if evicted_between(calls, rows1, c1, (c1 + i + 1) as nat, e.1) {
                        let cc = choose|cc: nat|
                            c1 <= cc < c1 + i + 1 && (#[trigger] merged_evict(calls, row_keys(rows1), cc)) is Some && merged_evict(
                                calls,
                                row_keys(rows1),
                                cc,
                            ).unwrap().contains(e.1);
                        if cc < c {
                            assert(evicted_between(calls, rows1, c1, c, e.1));
                        }
                    }
                    if evicted_between(calls, rows1, c1, c, e.1) {
                        let cc = choose|cc: nat|
                            c1 <= cc < c && (#[trigger] merged_evict(calls, row_keys(rows1), cc)) is Some && merged_evict(
                                calls,
                                row_keys(rows1),
                                cc,
                            ).unwrap().contains(e.1);
                        assert(evicted_between(calls, rows1, c1, (c1 + i + 1) as nat, e.1));
                    }
                    if merged_evict(calls, row_keys(rows1), c) is Some && merged_evict(calls, row_keys(rows1), c).unwrap().contains(e.1) {
                        assert(evicted_between(calls, rows1, c1, (c1 + i + 1) as nat, e.1));
                    }
                }
                assert forall|t: int| 0 <= t < i + 1 implies (#[trigger] out@[out0.len() + t])@ == rows1[c1 + t].1 + output_values(calls, rows1, (c1 + t) as nat) by {
                    if t < i {
                        assert(out@[out0.len() + t] == o1[out0.len() + t]);
                    }
                }
            }
            i += 1;
        }
        let ghost contents_end = self.table().contents();
        self.partitions.put(partition_key, partition);
        proof {
            assert(mid == *old(self));
            assert(self.cache().has(pk)) by {
                assert(self.cache().keys()[self.cache().keys().len() - 1] == pk);
            }
            assert(self.cache().get(pk) == partition);
            assert(self.rows_view(pk) == rows1);
            assert forall|k: Seq<u8>| k != pk implies (#[trigger] self.cache().has(k) <==> old(self).cache().has(k)) by {
                assert(mid2.cache().has(k) <==> mid.cache().has(k));
                assert(cache3.has(k) <==> mid2.cache().has(k));
                if self.cache().has(k) {
                    let t = choose|t: int| 0 <= t < self.cache().keys().len() && self.cache().keys()[t] == k;
                    assert(t < cache3.keys().len());
                    assert(cache3.keys()[t] == k);
                }
                if cache3.has(k) {
                    let t = choose|t: int| 0 <= t < cache3.keys().len() && cache3.keys()[t] == k;
                    assert(self.cache().keys()[t] == k);
                }
            }
            assert forall|k: Seq<u8>| k != pk && old(self).cache().has(k) implies #[trigger] self.cache().get(k) == old(self).cache().get(k) by {
                assert(mid2.cache().get(k) == mid.cache().get(k));
                assert(mid2.cache().has(k));
                assert(cache3.has(k) <==> mid2.cache().has(k));
                assert(cache3.get(k) == mid2.cache().get(k));
            }
            assert forall|k: Seq<u8>| k != pk implies #[trigger] keyed_rows_of(self.table().contents(), k) == keyed_rows_of(old(self).table().contents(), k) by {
                lemma_keyed_rows_push(contents0, (pk, gkey, row@), k);
                assert(keyed_rows_of(contents_end, k) == keyed_rows_of(contents1, k));
            }
        }
        Ok(())
    }

    /// Processes a chunk of rows in arrival order; returns the rows whose
    /// windows closed, each extended with one value per call, if any.
    pub fn apply_chunk(&mut self, chunk: &Vec<Row>) -> (r: Result<Option<Vec<Row>>, ExecutorError>)
        requires
            old(self).wf(),
        ensures
            final(self).same_config(*old(self)),
            final(self).wf(),
            final(self).running() == old(self).running(),
            final(self).width() == old(self).width(),
            final(self).calls() == old(self).calls(),
            final(self).cache().epoch() == old(self).cache().epoch(),
            final(self).table().durable() == old(self).table().durable(),
            final(self).table().epoch() == old(self).table().epoch(),
            final(self).table().vnodes() == old(self).table().vnodes(),
            r is Ok ==> final(self).table().inserted() == old(self).table().inserted() + Seq::new(
                chunk.len() as nat,
                |t: int| old(self).stored_of(chunk@[t]@),
            ),
            match r {
                Ok(Some(rows)) => rows.len() > 0 && forall|t: int|
                    0 <= t < rows.len() ==> from_stored((#[trigger] rows@[t])@, final(self).table().inserted(), final(self).width()),
                _ => true,
            },
            match r {
                Ok(Some(rows)) => chunk_applied(*old(self), *final(self), chunk@.map_values(|x: Row| x@), rows@.map_values(|x: Row| x@)),
                Ok(None) => chunk_applied(*old(self), *final(self), chunk@.map_values(|x: Row| x@), Seq::<Seq<Datum>>::empty()),
                Err(_) => chunk_fails(*old(self), chunk@.map_values(|x: Row| x@)),
            },
    {
        let ghost rows_in = chunk@.map_values(|x: Row| x@);
        let ghost mut trace: Seq<EowcOverWindowExecutor> = seq![*self];
        let ghost mut starts: Seq<int> = seq![0int];
        let mut out: Vec<Row> = Vec::new();
        let mut i: usize = 0;
        while i < chunk.len()
            invariant
                rows_in == chunk@.map_values(|x: Row| x@),
                trace.len() == i + 1,
                starts.len() == i + 1,
                trace[0] == *old(self),
                trace[i as int] == *self,
                starts[0] == 0,
                starts[i as int] == out@.len(),
                forall|j: int|
                    0 <= j < i ==> row_applied(
                        #[trigger] trace[j],
                        trace[j + 1],
                        rows_in[j],
                        out@.map_values(|x: Row| x@),
                        starts[j],
                        starts[j + 1],
                    ),
                self.table().inserted() == old(self).table().inserted() + Seq::new(
                    i as nat,
                    |t: int| old(self).stored_of(chunk@[t]@),
                ),
                self.wf(),
                self.running() == old(self).running(),
                self.width() == old(self).width(),
                self.calls() == old(self).calls(),
                self.same_config(*old(self)),
                self.cache().epoch() == old(self).cache().epoch(),
                self.table().durable() == old(self).table().durable(),
                self.table().epoch() == old(self).table().epoch(),
                self.table().vnodes() == old(self).table().vnodes(),
                i <= chunk.len(),
                forall|t: int| 0 <= t < out.len() ==> from_stored((#[trigger] out@[t])@, self.table().inserted(), self.width()),
            decreases chunk.len() - i,
        {
            let ghost ins0 = self.table().inserted();
            let ghost mid = *self;
            let ghost prev = out@;
            let ghost log0 = self.table().inserted();
            match self.apply_row(&chunk[i], &mut out) {
                Ok(()) => {},
                Err(e) => {
                    proof {
                        assert(rows_in[i as int] == chunk@[i as int]@);
                        assert(row_fails(mid, rows_in[i as int]));
                        assert(mid == trace[i as int]);
                        let outv = prev.map_values(|x: Row| x@);
                        assert(chunk_fails(*old(self), rows_in)) by {
                            assert(trace.len() == i + 1 && starts.len() == i + 1);
                            assert(trace[i as int] == mid);
                            assert(outv.len() == prev.len());
                            assert(row_fails(trace[i as int], rows_in[i as int]));
                            assert(forall|j: int|
                                0 <= j < i ==> row_applied(#[trigger] trace[j], trace[j + 1], rows_in[j], outv, starts[j], starts[j + 1]));
                        }
                    }
                    return Err(e);
                },
            }
            proof {
                assert forall|t: int| 0 <= t < out.len() implies from_stored((#[trigger] out@[t])@, self.table().inserted(), self.width()) by {
                    if t < prev.len() {
                        assert(out@.subrange(0, prev.len() as int)[t] == out@[t]);
                        assert(prev[t] == out@[t]);
                        assert(from_stored(prev[t]@, log0, self.width()));
                        let e = choose|e: StoredRow| #[trigger] log0.contains(e) && e.2.len() == self.width() && prev[t]@.len() >= self.width() && prev[t]@.subrange(0, self.width() as int) == e.2;
                        assert(self.table().inserted().contains(e));
                    }
                }
            }
            proof {
                let outv = out@.map_values(|x: Row| x@);
                let prevv = prev.map_values(|x: Row| x@);
                assert(rows_in[i as int] == chunk@[i as int]@);
                assert forall|t: int| 0 <= t < out@.len() - prev.len() implies #[trigger] outv[prev.len() + t] == mid.output_row(
                    chunk@[i as int]@,
                    (mid.curr_view(mid.partition_of(chunk@[i as int]@)) + t) as nat,
                ) by {}
                assert(row_applied(mid, *self, rows_in[i as int], outv, prev.len() as int, out@.len() as int));
                assert forall|j: int|
                    0 <= j < i implies row_applied(#[trigger] trace[j], trace[j + 1], rows_in[j], outv, starts[j], starts[j + 1]) by {
                    let a = trace[j];
                    let pk = a.partition_of(rows_in[j]);
                    assert(row_applied(a, trace[j + 1], rows_in[j], prevv, starts[j], starts[j + 1]));
                    assert forall|t: int| 0 <= t < starts[j + 1] - starts[j] implies #[trigger] outv[starts[j] + t] == a.output_row(
                        rows_in[j],
                        (a.curr_view(pk) + t) as nat,
                    ) by {
                        assert(prevv[starts[j] + t] == a.output_row(rows_in[j], (a.curr_view(pk) + t) as nat));
                        assert(out@.subrange(0, prev.len() as int)[starts[j] + t] == prev[starts[j] + t]);
                    }
                }
                trace = trace.push(*self);
                starts = starts.push(out@.len() as int);
                assert forall|j: int|
                    0 <= j < i + 1 implies row_applied(#[trigger] trace[j], trace[j + 1], rows_in[j], outv, starts[j], starts[j + 1]) by {
                    if j < i {
                        assert(trace[j] == trace.drop_last()[j]);
                    }
                }
            }
            proof {
                assert(mid.stored_of(chunk@[i as int]@) == old(self).stored_of(chunk@[i as int]@));
                assert(self.table().inserted() =~= old(self).table().inserted() + Seq::new(
                    (i + 1) as nat,
                    |t: int| old(self).stored_of(chunk@[t]@),
                ));
            }
            i += 1;
        }
        proof {
            assert(rows_in.len() == chunk.len());
            let outv = out@.map_values(|x: Row| x@);
            assert(chunk_applied(*old(self), *self, rows_in, outv));
            if out.len() == 0 {
                assert(outv =~= Seq::<Seq<Datum>>::empty());
            }
        }
        if out.len() > 0 {
            Ok(Some(out))
        } else {
            Ok(None)
        }
    }

    /// Closes an epoch: commits the state table, trims the cache to entries
    /// touched since `watermark_epoch`, takes a new vnode bitmap (dropping
    /// every cached partition when it changed), and opens the next epoch.
    fn apply_barrier(&mut self, barrier: &Barrier, watermark_epoch: u64)
        requires
            old(self).wf(),
        ensures
            final(self).same_config(*old(self)),
            final(self).wf(),
            final(self).running() == old(self).running(),
            final(self).width() == old(self).width(),
            final(self).calls() == old(self).calls(),
            final(self).table().contents() == old(self).table().contents(),
            final(self).table().durable() == old(self).table().contents(),
            final(self).table().epoch() == Some(barrier.epoch.curr),
            final(self).cache().epoch() == barrier.epoch.curr,
            forall|i: int| 0 <= i < final(self).cache().keys().len() ==> final(self).cache().touched(i) >= watermark_epoch,
            forall|k: Seq<u8>| final(self).cache().has(k) ==> old(self).cache().has(k),
            match barrier.vnode_bitmap {
                Some(v) => {
                    &&& final(self).table().vnodes() == v@
                    &&& old(self).table().vnodes() != v@ ==> final(self).cache().keys().len() == 0
                },
                None => final(self).table().vnodes() == old(self).table().vnodes(),
            },
    {
        let ghost cs = self.state_table.contents();
        self.state_table.commit(barrier.epoch.curr);
        assert(self.state_table.contents() == cs);
        assert(self.partitions.all_stored(cs));
        assert(self.partitions.all_covered(cs));
        self.partitions.evict(watermark_epoch);
        assert(self.partitions.all_stored(cs));
        assert(self.partitions.all_covered(cs));
        if let Some(bitmap) = &barrier.vnode_bitmap {
            let mut copy: Vec<bool> = Vec::new();
            let mut i: usize = 0;
            while i < bitmap.len()
                invariant
                    i <= bitmap.len(),
                    copy@ == bitmap@.subrange(0, i as int),
                decreases bitmap.len() - i,
            {
                copy.push(bitmap[i]);
                i += 1;
            }
            assert(copy@ =~= bitmap@);
            let (_, cache_may_stale) = self.state_table.update_vnode_bitmap(copy);
            if cache_may_stale {
                self.partitions.clear();
            }
            assert(self.partitions.all_stored(cs));
            assert(self.partitions.all_covered(cs));
        }
        self.partitions.update_epoch(barrier.epoch.curr);
        assert(self.partitions.all_stored(cs));
        assert(self.partitions.all_covered(cs));
    }

    /// Handles one upstream message and says what goes downstream: nothing,
    /// an output chunk, or the barrier itself. The first message must be a
    /// barrier; watermarks are dropped.
    pub fn handle_message(&mut self, msg: Message, watermark_epoch: u64) -> (r: Result<
        Option<Message>,
        ExecutorError,
    >)
        requires
            old(self).wf(),
        ensures
            final(self).same_config(*old(self)),
            final(self).wf(),
            final(self).width() == old(self).width(),
            final(self).calls() == old(self).calls(),
            !old(self).running() ==> match msg {
                Message::Barrier(b) => {
                    &&& r == Ok::<Option<Message>, ExecutorError>(Some(Message::Barrier(b)))
                    &&& final(self).running()
                    &&& final(self).table().epoch() == Some(b.epoch.curr)
                    &&& final(self).table().contents() == old(self).table().contents()
                    &&& final(self).cache().epoch() == b.epoch.curr
                },
                _ => r == Err::<Option<Message>, ExecutorError>(ExecutorError::FirstMessageNotBarrier) && *final(self) == *old(self),
            },
            old(self).running() ==> final(self).running() && match msg {
                Message::Watermark(_) => r == Ok::<Option<Message>, ExecutorError>(None) && *final(self) == *old(self),
                Message::Chunk(chunk) => {
                    &&& r is Ok ==> final(self).table().inserted() == old(self).table().inserted() + Seq::new(
                        chunk.len() as nat,
                        |t: int| old(self).stored_of(chunk@[t]@),
                    )
                    &&& match r {
                        Ok(Some(m)) => m matches Message::Chunk(rows) && rows.len() > 0 && (forall|t: int|
                            0 <= t < rows.len() ==> from_stored((#[trigger] rows@[t])@, final(self).table().inserted(), final(self).width()))
                            && chunk_applied(*old(self), *final(self), chunk@.map_values(|x: Row| x@), rows@.map_values(|x: Row| x@)),
                        Ok(None) => chunk_applied(*old(self), *final(self), chunk@.map_values(|x: Row| x@), Seq::<Seq<Datum>>::empty()),
                        Err(_) => chunk_fails(*old(self), chunk@.map_values(|x: Row| x@)),
                    }
                },
                Message::Barrier(b) => {
                    &&& r == Ok::<Option<Message>, ExecutorError>(Some(Message::Barrier(b)))
                    &&& final(self).table().contents() == old(self).table().contents()
                    &&& final(self).table().durable() == old(self).table().contents()
                    &&& final(self).table().epoch() == Some(b.epoch.curr)
                    &&& final(self).cache().epoch() == b.epoch.curr
                    &&& forall|i: int| 0 <= i < final(self).cache().keys().len() ==> final(self).cache().touched(i) >= watermark_epoch
                    &&& forall|k: Seq<u8>| final(self).cache().has(k) ==> old(self).cache().has(k)
                    &&& match b.vnode_bitmap {
                        Some(v) => {
                            &&& final(self).table().vnodes() == v@
                            &&& old(self).table().vnodes() != v@ ==> final(self).cache().keys().len() == 0
                        },
                        None => final(self).table().vnodes() == old(self).table().vnodes(),
                    }
                },
            },
    {
        if !self.initialized {
            match msg {
                Message::Barrier(b) => {
                    let ghost cs = self.state_table.contents();
                    self.state_table.init_epoch(b.epoch.curr);
                    assert(self.partitions.all_stored(cs));
                    assert(self.partitions.all_covered(cs));
                    self.partitions.update_epoch(b.epoch.curr);
                    assert(self.partitions.all_stored(cs));
                    assert(self.partitions.all_covered(cs));
                    self.initialized = true;
                    Ok(Some(Message::Barrier(b)))
                },
                _ => Err(ExecutorError::FirstMessageNotBarrier),
            }
        } else {
            match msg {
                Message::Watermark(_) => Ok(None),
                Message::Chunk(chunk) => match self.apply_chunk(&chunk) {
                    Ok(Some(rows)) => Ok(Some(Message::Chunk(rows))),
                    Ok(None) => Ok(None),
                    Err(e) => Err(e),
                },
                Message::Barrier(b) => {
                    self.apply_barrier(&b, watermark_epoch);
                    Ok(Some(Message::Barrier(b)))
                },
            }
        }
    }

    /// Every row that the state table holds under the key of a cached
    /// partition is a row that partition ingested: either it still awaits
    /// output, or every window state of the partition has moved past it.
    pub proof fn lemma_stored_rows_accounted(&self, i: int, e: StoredRow)
        requires
            self.wf(),
            0 <= i < self.cache().keys().len(),
            self.table().contents().contains(e),
            e.0 == self.cache().keys()[i],
        ensures
            exists|j: int|
                0 <= j < self.cache().partition_at(i).rows().len() && #[trigger] self.cache().partition_at(i).rows()[j] == (e.1, e.2)
                    && (j >= self.cache().partition_at(i).curr() || forall|s: int|
                    0 <= s < self.cache().partition_at(i).state_views().len() ==> (#[trigger] self.cache().partition_at(i).state_views()[s]).curr() > j),
    {
        self.partitions.lemma_covered(self.state_table.contents(), i);
        let p = self.partitions.partition_at(i);
        p.lemma_states_at_curr();
        let j = choose|j: int| 0 <= j < p.rows().len() && #[trigger] p.rows()[j] == (e.1, e.2);
        assert(p.rows()[j] == (e.1, e.2));
    }

    /// Every cached partition is well formed and aligned: all its window
    /// states describe the same current window.
    pub proof fn lemma_cached_aligned(&self, k: Seq<u8>)
        requires
            self.wf(),
            self.cache().has(k),
        ensures
            self.cache().get(k).wf(),
            self.cache().get(k).aligned(),
            self.cache().get(k).calls() == self.calls(),
    {
        self.partitions.lemma_get_wf(k);
        self.partitions.get(k).lemma_aligned();
    }

    /// A key that the drains of a cached partition let go, which is what
    /// `apply_row` deletes from the state table, is held by none of that
    /// partition's window states.
    pub proof fn lemma_deleted_not_referenced(&self, pk: Seq<u8>, from: nat, k: (i64, Seq<u8>))
        requires
            self.wf(),
            self.cache().has(pk),
            evicted_between(self.calls(), self.rows_view(pk), from, self.curr_view(pk), k),
        ensures
            forall|i: int, t: int|
                0 <= i < self.cache().get(pk).state_views().len() && 0 <= t < self.cache().get(pk).state_views()[i].retained().len()
                    ==> (#[trigger] self.cache().get(pk).state_views()[i].retained()[t]).0 != k,
    {
        self.partitions.lemma_get_wf(pk);
        let p = self.partitions.get(pk);
        let c = choose|c: nat|
            from <= c < self.curr_view(pk) && (#[trigger] merged_evict(self.calls(), row_keys(self.rows_view(pk)), c)) is Some
                && merged_evict(self.calls(), row_keys(self.rows_view(pk)), c).unwrap().contains(k);
        lemma_evicted_not_retained(&p, c, k);
    }

    /// The state table holds the rows of every partition key in ascending
    /// key order, so every key can be recovered.
    pub proof fn lemma_recoverable(&self, k: Seq<u8>)
        requires
            self.wf(),
        ensures
            ascending(self.stored_rows(k)),
            self.recoverable(k),
    {
        let rows = keyed_rows_of(self.state_table.contents(), k);
        assert(sorted_keys(rows));
        assert forall|j: int| 0 <= j < rows.len() - 1 implies #[trigger] key_lt(rows[j].0, rows[j + 1].0) by {
            assert(key_lt(rows[j].0, rows[j + 1].0));
        }
    }
}

} // verus!
