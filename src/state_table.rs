use vstd::prelude::*;

use crate::memcmp::copy_row;
use crate::partition::Row;
use crate::state_key::{bytes_equal, copy_bytes, key_lt, StateKey};
use crate::window_state::Datum;

verus! {

/// The view of a stored row: encoded partition key, state key, columns.
pub type StoredRow = (Seq<u8>, (i64, Seq<u8>), Seq<Datum>);

/// One persisted input row, keyed by its partition and its state key.
pub struct TableRow {
    pub partition: Vec<u8>,
    pub key: StateKey,
    pub row: Row,
}

impl View for TableRow {
    type V = StoredRow;

    open spec fn view(&self) -> StoredRow {
        (self.partition@, self.key@, self.row@)
    }
}

/// The rows of partition `p`, in stored order.
pub open spec fn rows_of(s: Seq<StoredRow>, p: Seq<u8>) -> Seq<Seq<Datum>>
    decreases s.len(),
{
    if s.len() == 0 {
        Seq::empty()
    } else if s.last().0 == p {
        rows_of(s.drop_last(), p).push(s.last().2)
    } else {
        rows_of(s.drop_last(), p)
    }
}

/// The rows of partition `p` with their keys, in stored order.
pub open spec fn keyed_rows_of(s: Seq<StoredRow>, p: Seq<u8>) -> Seq<((i64, Seq<u8>), Seq<Datum>)>
    decreases s.len(),
{
    if s.len() == 0 {
        Seq::empty()
    } else if s.last().0 == p {
        keyed_rows_of(s.drop_last(), p).push((s.last().1, s.last().2))
    } else {
        keyed_rows_of(s.drop_last(), p)
    }
}

/// Each key comes strictly before every later one.
pub open spec fn sorted_keys(rows: Seq<((i64, Seq<u8>), Seq<Datum>)>) -> bool {
    forall|a: int, b: int| 0 <= a < b < rows.len() ==> key_lt(#[trigger] rows[a].0, #[trigger] rows[b].0)
}

/// Deleting rows keeps each partition's rows sorted, and keeps only rows
/// that were there.
pub proof fn lemma_without_sorted(s: Seq<StoredRow>, q: Seq<u8>, k: (i64, Seq<u8>), p: Seq<u8>)
    requires
        sorted_keys(keyed_rows_of(s, p)),
    ensures
        sorted_keys(keyed_rows_of(without(s, q, k), p)),
        forall|x: ((i64, Seq<u8>), Seq<Datum>)| #[trigger] keyed_rows_of(without(s, q, k), p).contains(x) ==> keyed_rows_of(s, p).contains(x),
    decreases s.len(),
{
    if s.len() > 0 {
        let pre = s.drop_last();
        let kp = keyed_rows_of(pre, p);
        let ks = keyed_rows_of(s, p);
        assert(sorted_keys(kp)) by {
            if s.last().0 == p {
                assert forall|a: int, b: int| 0 <= a < b < kp.len() implies key_lt(#[trigger] kp[a].0, #[trigger] kp[b].0) by {
                    assert(ks[a] == kp[a] && ks[b] == kp[b]);
                }
            }
        }
        lemma_without_sorted(pre, q, k, p);
        let w = without(pre, q, k);
        let kw = keyed_rows_of(w, p);
        assert forall|x: ((i64, Seq<u8>), Seq<Datum>)| #[trigger] kp.contains(x) implies ks.contains(x) by {
            let j = choose|j: int| 0 <= j < kp.len() && kp[j] == x;
            if s.last().0 == p {
                assert(ks[j] == x);
            }
        }
        if !(s.last().0 == q && s.last().1 == k) {
            lemma_keyed_rows_push(w, s.last(), p);
            if s.last().0 == p {
                let nw = kw.push((s.last().1, s.last().2));
                assert(keyed_rows_of(without(s, q, k), p) == nw);
                assert forall|a: int, b: int| 0 <= a < b < nw.len() implies key_lt(#[trigger] nw[a].0, #[trigger] nw[b].0) by {
                    if b < kw.len() {
                        assert(nw[a] == kw[a] && nw[b] == kw[b]);
                    } else {
                        assert(nw[a] == kw[a]);
                        assert(kw.contains(kw[a]));
                        assert(kp.contains(kw[a]));
                        let j = choose|j: int| 0 <= j < kp.len() && kp[j] == kw[a];
                        assert(ks[j] == kp[j]);
                        assert(ks[kp.len() as int] == (s.last().1, s.last().2));
                    }
                }
                assert forall|x: ((i64, Seq<u8>), Seq<Datum>)| #[trigger] nw.contains(x) implies ks.contains(x) by {
                    let j = choose|j: int| 0 <= j < nw.len() && nw[j] == x;
                    if j < kw.len() {
                        assert(kw[j] == x);
                        assert(kw.contains(x));
                    } else {
                        assert(ks[kp.len() as int] == x);
                    }
                }
            }
        }
    }
}

/// A row of a partition's rows is stored under that partition.
pub proof fn lemma_keyed_rows_stored(s: Seq<StoredRow>, p: Seq<u8>, x: ((i64, Seq<u8>), Seq<Datum>))
    requires
        keyed_rows_of(s, p).contains(x),
    ensures
        s.contains((p, x.0, x.1)),
    decreases s.len(),
{
    let pre = s.drop_last();
    let kp = keyed_rows_of(pre, p);
    let j = choose|j: int| 0 <= j < keyed_rows_of(s, p).len() && keyed_rows_of(s, p)[j] == x;
    if s.last().0 == p && j == kp.len() {
        assert(s[s.len() - 1] == (p, x.0, x.1));
    } else {
        assert(kp[j] == x);
        assert(kp.contains(x));
        lemma_keyed_rows_stored(pre, p, x);
        let t = choose|t: int| 0 <= t < pre.len() && pre[t] == (p, x.0, x.1);
        assert(s[t] == pre[t]);
    }
}

/// Storing a row adds it to its own partition's rows and to no other's.
pub proof fn lemma_keyed_rows_push(s: Seq<StoredRow>, e: StoredRow, p: Seq<u8>)
    ensures
        keyed_rows_of(s.push(e), p) == if e.0 == p {
            keyed_rows_of(s, p).push((e.1, e.2))
        } else {
            keyed_rows_of(s, p)
        },
{
    assert(s.push(e).drop_last() =~= s);
}

/// Deleting under partition `q` leaves the rows of every other partition.
pub proof fn lemma_keyed_rows_without(s: Seq<StoredRow>, q: Seq<u8>, k: (i64, Seq<u8>), p: Seq<u8>)
    requires
        p != q,
    ensures
        keyed_rows_of(without(s, q, k), p) == keyed_rows_of(s, p),
    decreases s.len(),
{
    if s.len() > 0 {
        lemma_keyed_rows_without(s.drop_last(), q, k, p);
        let w = without(s.drop_last(), q, k);
        if !(s.last().0 == q && s.last().1 == k) {
            lemma_keyed_rows_push(w, s.last(), p);
        }
    }
}

/// `s` without the rows stored under partition `p` and key `k`.
pub open spec fn without(s: Seq<StoredRow>, p: Seq<u8>, k: (i64, Seq<u8>)) -> Seq<StoredRow>
    decreases s.len(),
{
    if s.len() == 0 {
        Seq::empty()
    } else if s.last().0 == p && s.last().1 == k {
        without(s.drop_last(), p, k)
    } else {
        without(s.drop_last(), p, k).push(s.last())
    }
}

/// What `without` keeps: every row but those under `p` and `k`.
pub proof fn lemma_without(s: Seq<StoredRow>, p: Seq<u8>, k: (i64, Seq<u8>))
    ensures
        forall|e: StoredRow| #[trigger] without(s, p, k).contains(e) <==> (s.contains(e) && !(e.0 == p && e.1 == k)),
    decreases s.len(),
{
    if s.len() > 0 {
        let pre = s.drop_last();
        lemma_without(pre, p, k);
        assert forall|e: StoredRow| #[trigger] without(s, p, k).contains(e) <==> (s.contains(e) && !(e.0 == p && e.1 == k)) by {
            if s.contains(e) {
                let j = choose|j: int| 0 <= j < s.len() && s[j] == e;
                if j < s.len() - 1 {
                    assert(pre[j] == e);
                }
            }
            if pre.contains(e) {
                let j = choose|j: int| 0 <= j < pre.len() && pre[j] == e;
                assert(s[j] == e);
            }
            let w = without(pre, p, k);
            if !(s.last().0 == p && s.last().1 == k) {
                assert(without(s, p, k) == w.push(s.last()));
                if w.push(s.last()).contains(e) {
                    let j = choose|j: int| 0 <= j < w.len() + 1 && w.push(s.last())[j] == e;
                    if j < w.len() {
                        assert(w[j] == e);
                    }
                }
                if w.contains(e) {
                    let j = choose|j: int| 0 <= j < w.len() && w[j] == e;
                    assert(w.push(s.last())[j] == e);
                }
                if e == s.last() {
                    assert(w.push(s.last())[w.len() as int] == e);
                    assert(s[s.len() - 1] == e);
                }
            }
        }
    }
}

fn bools_equal(a: &Vec<bool>, b: &Vec<bool>) -> (r: bool)
    ensures
        r == (a@ == b@),
{
    if a.len() != b.len() {
        return false;
    }
    let mut i: usize = 0;
    while i < a.len()
        invariant
            i <= a.len(),
            a.len() == b.len(),
            a@.subrange(0, i as int) == b@.subrange(0, i as int),
        decreases a.len() - i,
    {
        if a[i] != b[i] {
            assert(a@[i as int] != b@[i as int]);
            return false;
        }
        assert(a@.subrange(0, i + 1) =~= a@.subrange(0, i as int).push(a@[i as int]));
        assert(b@.subrange(0, i + 1) =~= b@.subrange(0, i as int).push(b@[i as int]));
        i += 1;
    }
    assert(a@ =~= a@.subrange(0, a.len() as int));
    assert(b@ =~= b@.subrange(0, b.len() as int));
    true
}

fn copy_table_row(r: &TableRow) -> (c: TableRow)
    ensures
        c@ == r@,
{
    TableRow { partition: copy_bytes(&r.partition), key: r.key.duplicate(), row: copy_row(&r.row) }
}

fn copy_table_rows(v: &Vec<TableRow>) -> (c: Vec<TableRow>)
    ensures
        c@.map_values(|r: TableRow| r@) == v@.map_values(|r: TableRow| r@),
{
    let mut c: Vec<TableRow> = Vec::new();
    let mut i: usize = 0;
    while i < v.len()
        invariant
            i <= v.len(),
            c@.map_values(|r: TableRow| r@) == v@.subrange(0, i as int).map_values(|r: TableRow| r@),
        decreases v.len() - i,
    {
        let ghost c0 = c@.map_values(|r: TableRow| r@);
        c.push(copy_table_row(&v[i]));
        assert(c@.map_values(|r: TableRow| r@) =~= c0.push(v@[i as int]@));
        assert(v@.subrange(0, i + 1).map_values(|r: TableRow| r@) =~= v@.subrange(0, i as int).map_values(|r: TableRow| r@).push(v@[i as int]@));
        i += 1;
    }
    assert(v@.subrange(0, v.len() as int) =~= v@);
    c
}

/// An in-memory state table: the rows written so far and, apart, those that
/// the last commit made durable. Its primary key is partition key, order key,
/// input primary key.
pub struct StateTable {
    rows: Vec<TableRow>,
    committed: Vec<TableRow>,
    epoch: Option<u64>,
    vnodes: Vec<bool>,
    log: Ghost<Seq<StoredRow>>,
}

impl StateTable {
    /// The rows as written, including those not yet committed.
    pub closed spec fn contents(&self) -> Seq<StoredRow> {
        self.rows@.map_values(|r: TableRow| r@)
    }

    /// The rows as of the last commit.
    pub closed spec fn durable(&self) -> Seq<StoredRow> {
        self.committed@.map_values(|r: TableRow| r@)
    }

    /// The epoch of the last commit or of initialisation.
    pub closed spec fn epoch(&self) -> Option<u64> {
        self.epoch
    }

    /// Every row this table was given: by `insert`, or as committed state
    /// when it was restarted.
    pub closed spec fn inserted(&self) -> Seq<StoredRow> {
        self.log@
    }

    /// Every row held was given to the table.
    pub closed spec fn wf(&self) -> bool {
        forall|e: StoredRow| #[trigger] self.contents().contains(e) ==> self.log@.contains(e)
    }

    /// The vnodes owned by this table's replica.
    pub closed spec fn vnodes(&self) -> Seq<bool> {
        self.vnodes@
    }

    /// An empty table owning `vnodes`.
    pub fn new(vnodes: Vec<bool>) -> (r: StateTable)
        ensures
            r.wf(),
            r.contents() == Seq::<StoredRow>::empty(),
            r.durable() == Seq::<StoredRow>::empty(),
            r.inserted() == Seq::<StoredRow>::empty(),
            r.epoch() is None,
            r.vnodes() == vnodes@,
    {
        let r = StateTable { rows: Vec::new(), committed: Vec::new(), epoch: None, vnodes, log: Ghost(Seq::empty()) };
        assert(r.contents() =~= Seq::<StoredRow>::empty());
        assert(r.durable() =~= Seq::<StoredRow>::empty());
        r
    }

    /// The table as a restarted replica finds it: only what was committed.
    pub fn restart(&self) -> (r: StateTable)
        ensures
            r.wf(),
            r.inserted() == self.durable(),
            r.contents() == self.durable(),
            r.durable() == self.durable(),
            r.epoch() == self.epoch(),
            r.vnodes() == self.vnodes(),
    {
        let mut vn: Vec<bool> = Vec::new();
        let mut i: usize = 0;
        while i < self.vnodes.len()
            invariant
                i <= self.vnodes.len(),
                vn@ == self.vnodes@.subrange(0, i as int),
            decreases self.vnodes.len() - i,
        {
            vn.push(self.vnodes[i]);
            i += 1;
        }
        assert(vn@ =~= self.vnodes@);
        StateTable {
            rows: copy_table_rows(&self.committed),
            committed: copy_table_rows(&self.committed),
            epoch: self.epoch,
            vnodes: vn,
            log: Ghost(self.durable()),
        }
    }

    /// Starts the table at `epoch`.
    pub fn init_epoch(&mut self, epoch: u64)
        requires
            old(self).wf(),
        ensures
            final(self).wf(),
            final(self).inserted() == old(self).inserted(),
            final(self).contents() == old(self).contents(),
            final(self).durable() == old(self).durable(),
            final(self).epoch() == Some(epoch),
            final(self).vnodes() == old(self).vnodes(),
    {
        self.epoch = Some(epoch);
        assert(self.contents() == old(self).contents());
    }

    /// Writes a row.
    pub fn insert(&mut self, partition: Vec<u8>, key: StateKey, row: Row)
        requires
            old(self).wf(),
        ensures
            final(self).wf(),
            final(self).inserted() == old(self).inserted().push((partition@, key@, row@)),
            final(self).contents() == old(self).contents().push((partition@, key@, row@)),
            final(self).durable() == old(self).durable(),
            final(self).epoch() == old(self).epoch(),
            final(self).vnodes() == old(self).vnodes(),
    {
        let t = TableRow { partition, key, row };
        let ghost v = t@;
        self.rows.push(t);
        self.log = Ghost(self.log@.push(v));
        assert(self.contents() =~= old(self).contents().push(v));
        assert forall|e: StoredRow| #[trigger] self.contents().contains(e) implies self.log@.contains(e) by {
            if e != v {
                let j = choose|j: int| 0 <= j < self.contents().len() && self.contents()[j] == e;
                assert(old(self).contents()[j] == e);
                assert(old(self).contents().contains(e));
                let t = choose|t: int| 0 <= t < old(self).log@.len() && old(self).log@[t] == e;
                assert(self.log@[t] == e);
            } else {
                assert(self.log@[self.log@.len() - 1] == e);
            }
        }
    }

    /// Deletes the rows stored under `partition` and `key`.
    pub fn delete(&mut self, partition: &Vec<u8>, key: &StateKey)
        requires
            old(self).wf(),
        ensures
            final(self).wf(),
            final(self).inserted() == old(self).inserted(),
            final(self).contents() == without(old(self).contents(), partition@, key@),
            final(self).durable() == old(self).durable(),
            final(self).epoch() == old(self).epoch(),
            final(self).vnodes() == old(self).vnodes(),
    {
        let mut all: Vec<TableRow> = Vec::new();
        std::mem::swap(&mut all, &mut self.rows);
        let ghost s = all@.map_values(|r: TableRow| r@);
        let mut kept: Vec<TableRow> = Vec::new();
        let mut i: usize = 0;
        while i < all.len()
            invariant
                i <= all.len(),
                s == all@.map_values(|r: TableRow| r@),
                kept@.map_values(|r: TableRow| r@) == without(s.subrange(0, i as int), partition@, key@),
            decreases all.len() - i,
        {
            let ghost pre = s.subrange(0, i as int);
            assert(s.subrange(0, i + 1).drop_last() =~= pre);
            assert(s.subrange(0, i + 1).last() == all@[i as int]@);
            let hit = bytes_equal(&all[i].partition, partition) && all[i].key.same_as(key);
            if !hit {
                let ghost k0 = kept@.map_values(|r: TableRow| r@);
                kept.push(copy_table_row(&all[i]));
                assert(kept@.map_values(|r: TableRow| r@) =~= k0.push(all@[i as int]@));
            }
            i += 1;
        }
        assert(s.subrange(0, all.len() as int) =~= s);
        self.rows = kept;
        proof {
            lemma_without(s, partition@, key@);
            assert forall|e: StoredRow| #[trigger] self.contents().contains(e) implies self.log@.contains(e) by {
                assert(s.contains(e));
                assert(old(self).contents() == s);
            }
        }
    }

    /// The rows of one partition, in stored order.
    pub fn iter_with_pk_prefix(&self, partition: &Vec<u8>) -> (r: Vec<Row>)
        ensures
            r@.map_values(|x: Row| x@) == rows_of(self.contents(), partition@),
    {
        let ghost s = self.contents();
        let mut out: Vec<Row> = Vec::new();
        let mut i: usize = 0;
        while i < self.rows.len()
            invariant
                i <= self.rows.len(),
                s == self.contents(),
                out@.map_values(|x: Row| x@) == rows_of(s.subrange(0, i as int), partition@),
            decreases self.rows.len() - i,
        {
            let ghost pre = s.subrange(0, i as int);
            assert(s.subrange(0, i + 1).drop_last() =~= pre);
            assert(s.subrange(0, i + 1).last() == self.rows@[i as int]@);
            if bytes_equal(&self.rows[i].partition, partition) {
                let ghost o0 = out@.map_values(|x: Row| x@);
                out.push(copy_row(&self.rows[i].row));
                assert(out@.map_values(|x: Row| x@) =~= o0.push(self.rows@[i as int].row@));
            }
            i += 1;
        }
        assert(s.subrange(0, self.rows.len() as int) =~= s);
        out
    }

    /// Makes every row written so far durable, at `epoch`.
    pub fn commit(&mut self, epoch: u64)
        requires
            old(self).wf(),
        ensures
            final(self).wf(),
            final(self).inserted() == old(self).inserted(),
            final(self).contents() == old(self).contents(),
            final(self).durable() == old(self).contents(),
            final(self).epoch() == Some(epoch),
            final(self).vnodes() == old(self).vnodes(),
    {
        self.committed = copy_table_rows(&self.rows);
        self.epoch = Some(epoch);
        assert(self.contents() == old(self).contents());
    }

    /// Replaces the owned vnodes; returns the old ones and whether they
    /// differ, in which case cached partitions may no longer be owned.
    pub fn update_vnode_bitmap(&mut self, vnodes: Vec<bool>) -> (r: (Vec<bool>, bool))
        requires
            old(self).wf(),
        ensures
            final(self).wf(),
            final(self).inserted() == old(self).inserted(),
            final(self).contents() == old(self).contents(),
            final(self).durable() == old(self).durable(),
            final(self).epoch() == old(self).epoch(),
            final(self).vnodes() == vnodes@,
            r.0@ == old(self).vnodes(),
            r.1 == (old(self).vnodes() != vnodes@),
    {
        let same = bools_equal(&self.vnodes, &vnodes);
        let mut old_vnodes = vnodes;
        std::mem::swap(&mut old_vnodes, &mut self.vnodes);
        assert(self.contents() == old(self).contents());
        (old_vnodes, !same)
    }

    /// Number of rows stored for one partition.
    pub fn partition_len(&self, partition: &Vec<u8>) -> (r: usize)
        ensures
            r == rows_of(self.contents(), partition@).len(),
    {
        self.iter_with_pk_prefix(partition).len()
    }

    /// The rows of one partition with their state keys, in stored order.
    pub fn scan_partition(&self, partition: &Vec<u8>) -> (r: Vec<(StateKey, Row)>)
        ensures
            forall|t: int| 0 <= t < r.len() ==> self.contents().contains((partition@, (#[trigger] r@[t]).0@, r@[t].1@)),
            forall|e: StoredRow|
                #[trigger] self.contents().contains(e) && e.0 == partition@ ==> exists|t: int|
                    0 <= t < r.len() && (#[trigger] r@[t]).0@ == e.1 && r@[t].1@ == e.2,
            r@.map_values(|x: (StateKey, Row)| (x.0@, x.1@)) == keyed_rows_of(self.contents(), partition@),
    {
        let mut out: Vec<(StateKey, Row)> = Vec::new();
        let mut i: usize = 0;
        while i < self.rows.len()
            invariant
                i <= self.rows.len(),
                forall|t: int| 0 <= t < out.len() ==> self.contents().contains((partition@, (#[trigger] out@[t]).0@, out@[t].1@)),
                forall|m: int| 0 <= m < i && (#[trigger] self.contents()[m]).0 == partition@ ==> exists|t: int|
                    0 <= t < out.len() && (#[trigger] out@[t]).0@ == self.contents()[m].1 && out@[t].1@ == self.contents()[m].2,
                out@.map_values(|x: (StateKey, Row)| (x.0@, x.1@)) == keyed_rows_of(self.contents().subrange(0, i as int), partition@),
            decreases self.rows.len() - i,
        {
            assert(self.contents().subrange(0, i + 1).drop_last() =~= self.contents().subrange(0, i as int));
            let ghost out0 = out@;
            assert(self.contents()[i as int] == self.rows@[i as int]@);
            if bytes_equal(&self.rows[i].partition, partition) {
                let k = self.rows[i].key.duplicate();
                let row = copy_row(&self.rows[i].row);
                proof {
                    assert(self.contents()[i as int] == self.rows@[i as int]@);
                    assert(self.contents()[i as int] == (partition@, k@, row@));
                }
                out.push((k, row));
                proof {
                    assert(out@.map_values(|x: (StateKey, Row)| (x.0@, x.1@)) =~= out0.map_values(|x: (StateKey, Row)| (x.0@, x.1@)).push((k@, row@)));
                    assert(out@[out0.len() as int] == (k, row));
                    assert forall|m: int| 0 <= m < i + 1 && (#[trigger] self.contents()[m]).0 == partition@ implies exists|t: int|
                        0 <= t < out.len() && (#[trigger] out@[t]).0@ == self.contents()[m].1 && out@[t].1@ == self.contents()[m].2 by {
                        if m < i {
                            let t = choose|t: int| 0 <= t < out0.len() && (#[trigger] out0[t]).0@ == self.contents()[m].1 && out0[t].1@ == self.contents()[m].2;
                            assert(out@[t] == out0[t]);
                        } else {
                            assert(out@[out0.len() as int].0@ == self.contents()[m].1);
                        }
                    }
                }
            }
            i += 1;
        }
        assert(self.contents().subrange(0, self.rows.len() as int) =~= self.contents());
        assert forall|e: StoredRow|
            #[trigger] self.contents().contains(e) && e.0 == partition@ implies exists|t: int|
                0 <= t < out.len() && (#[trigger] out@[t]).0@ == e.1 && out@[t].1@ == e.2 by {
            let m = choose|m: int| 0 <= m < self.contents().len() && self.contents()[m] == e;
            assert(self.contents()[m].0 == partition@);
        }
        out
    }

    /// A row the table holds was given to it.
    pub proof fn lemma_contents_logged(&self, e: StoredRow)
        requires
            self.wf(),
            self.contents().contains(e),
        ensures
            self.inserted().contains(e),
    {
    }
}

} // verus!
