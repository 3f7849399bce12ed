use vstd::prelude::*;

use crate::partition::Partition;
use crate::state_key::bytes_equal;
use crate::state_table::{lemma_without, without, StoredRow};
use crate::window_state::WindowFuncCall;

verus! {

/// The rows of `p` still awaiting output are all in `contents`, under `pk`.
pub open spec fn pending_stored(pk: Seq<u8>, p: Partition, contents: Seq<StoredRow>) -> bool {
    forall|j: int|
        p.curr() <= j < p.rows().len() ==> contents.contains((pk, (#[trigger] p.rows()[j]).0, p.rows()[j].1))
}

/// Every row that `contents` holds under `pk` is a row `p` ingested.
pub open spec fn all_ingested(pk: Seq<u8>, p: Partition, contents: Seq<StoredRow>) -> bool {
    forall|e: StoredRow|
        #[trigger] contents.contains(e) && e.0 == pk ==> exists|j: int|
            0 <= j < p.rows().len() && #[trigger] p.rows()[j] == (e.1, e.2)
}

/// One cached partition and the epoch in which it was last touched.
pub struct CacheEntry {
    pub key: Vec<u8>,
    pub partition: Partition,
    pub epoch: u64,
}

/// Partitions by encoded partition key, evicted by the epoch of their last use.
pub struct PartitionCache {
    entries: Vec<CacheEntry>,
    epoch: u64,
    calls: Ghost<Seq<WindowFuncCall>>,
}

impl PartitionCache {
    /// The cached keys, in no particular order.
    pub closed spec fn keys(&self) -> Seq<Seq<u8>> {
        self.entries@.map_values(|e: CacheEntry| e.key@)
    }

    /// The calls of every cached partition.
    pub closed spec fn calls(&self) -> Seq<WindowFuncCall> {
        self.calls@
    }

    /// The epoch stamped on entries touched now.
    pub closed spec fn epoch(&self) -> u64 {
        self.epoch
    }

    /// The epoch in which the entry at `i` was last touched.
    pub closed spec fn touched(&self, i: int) -> u64 {
        self.entries@[i].epoch
    }

    /// Whether `k` is cached.
    pub open spec fn has(&self, k: Seq<u8>) -> bool {
        self.keys().contains(k)
    }

    /// The rows awaiting output in every cached partition are in `contents`.
    pub closed spec fn all_stored(&self, contents: Seq<StoredRow>) -> bool {
        forall|i: int|
            0 <= i < self.entries.len() ==> pending_stored(
                (#[trigger] self.entries@[i]).key@,
                self.entries@[i].partition,
                contents,
            )
    }

    /// Every row of `contents` under a cached key was ingested by that
    /// key's partition.
    pub closed spec fn all_covered(&self, contents: Seq<StoredRow>) -> bool {
        forall|i: int|
            0 <= i < self.entries.len() ==> all_ingested(
                (#[trigger] self.entries@[i]).key@,
                self.entries@[i].partition,
                contents,
            )
    }

    /// The partition cached under `k`, when `has(k)`.
    pub closed spec fn get(&self, k: Seq<u8>) -> Partition {
        self.entries@[choose|i: int| 0 <= i < self.entries.len() && self.entries@[i].key@ == k].partition
    }

    proof fn lemma_get(&self, i: int)
        requires
            self.wf(),
            0 <= i < self.entries.len(),
        ensures
            self.get(self.entries@[i].key@) == self.entries@[i].partition,
            self.keys()[i] == self.entries@[i].key@,
    {
        let k = self.entries@[i].key@;
        let j = choose|j: int| 0 <= j < self.entries.len() && self.entries@[j].key@ == k;
        if j != i {
            if j < i {
                assert(self.entries@[j].key@ != self.entries@[i].key@);
            } else {
                assert(self.entries@[i].key@ != self.entries@[j].key@);
            }
        }
    }

    /// A cached key's partition is well formed, for the cache's calls.
    pub proof fn lemma_get_wf(&self, k: Seq<u8>)
        requires
            self.wf(),
            self.has(k),
        ensures
            self.get(k).wf(),
            self.get(k).calls() == self.calls(),
    {
        let i = choose|i: int| 0 <= i < self.keys().len() && self.keys()[i] == k;
        assert(self.keys()[i] == self.entries@[i].key@);
        self.lemma_get(i);
    }

    /// The partition cached at position `i`.
    pub closed spec fn partition_at(&self, i: int) -> Partition {
        self.entries@[i].partition
    }

    /// What `all_covered` says of one cached partition.
    pub proof fn lemma_covered(&self, contents: Seq<StoredRow>, i: int)
        requires
            self.wf(),
            self.all_covered(contents),
            0 <= i < self.keys().len(),
        ensures
            all_ingested(self.keys()[i], self.partition_at(i), contents),
            self.partition_at(i).wf(),
            self.partition_at(i).calls() == self.calls(),
    {
        assert(self.keys()[i] == self.entries@[i].key@);
    }

    /// Rows may leave the table, and rows of uncached partitions may come,
    /// without breaking `all_covered`.
    pub proof fn lemma_covered_change(&self, a: Seq<StoredRow>, b: Seq<StoredRow>)
        requires
            self.all_covered(a),
            forall|e: StoredRow| #[trigger] b.contains(e) && self.has(e.0) ==> a.contains(e),
        ensures
            self.all_covered(b),
    {
        assert forall|i: int| 0 <= i < self.entries.len() implies all_ingested(
            (#[trigger] self.entries@[i]).key@,
            self.entries@[i].partition,
            b,
        ) by {
            assert(self.keys()[i] == self.entries@[i].key@);
            assert forall|e: StoredRow| #[trigger] b.contains(e) && e.0 == self.entries@[i].key@ implies exists|j: int|
                0 <= j < self.entries@[i].partition.rows().len() && #[trigger] self.entries@[i].partition.rows()[j] == (e.1, e.2) by {
                assert(self.has(e.0));
                assert(a.contains(e));
            }
        }
    }

    /// Adding rows to the table keeps every pending row stored.
    pub proof fn lemma_stored_grow(&self, a: Seq<StoredRow>, b: Seq<StoredRow>)
        requires
            self.all_stored(a),
            forall|e: StoredRow| #[trigger] a.contains(e) ==> b.contains(e),
        ensures
            self.all_stored(b),
    {
        assert forall|i: int| 0 <= i < self.entries.len() implies pending_stored(
            (#[trigger] self.entries@[i]).key@,
            self.entries@[i].partition,
            b,
        ) by {
            let p = self.entries@[i].partition;
            assert forall|j: int| p.curr() <= j < p.rows().len() implies b.contains((self.entries@[i].key@, (#[trigger] p.rows()[j]).0, p.rows()[j].1)) by {
                assert(a.contains((self.entries@[i].key@, p.rows()[j].0, p.rows()[j].1)));
            }
        }
    }

    /// Deleting rows of a partition that is not cached keeps every pending
    /// row stored.
    pub proof fn lemma_stored_delete(&self, s: Seq<StoredRow>, pk: Seq<u8>, k: (i64, Seq<u8>))
        requires
            self.all_stored(s),
            !self.has(pk),
        ensures
            self.all_stored(without(s, pk, k)),
    {
        lemma_without(s, pk, k);
        assert forall|i: int| 0 <= i < self.entries.len() implies pending_stored(
            (#[trigger] self.entries@[i]).key@,
            self.entries@[i].partition,
            without(s, pk, k),
        ) by {
            let p = self.entries@[i].partition;
            assert(self.keys()[i] == self.entries@[i].key@);
            assert(self.entries@[i].key@ != pk);
            assert forall|j: int| p.curr() <= j < p.rows().len() implies without(s, pk, k).contains((self.entries@[i].key@, (#[trigger] p.rows()[j]).0, p.rows()[j].1)) by {
                assert(s.contains((self.entries@[i].key@, p.rows()[j].0, p.rows()[j].1)));
            }
        }
    }

    /// Keys are unique and every partition is well formed for `calls`.
    pub closed spec fn wf(&self) -> bool {
        &&& forall|i: int, j: int|
            0 <= i < j < self.entries.len() ==> (#[trigger] self.entries@[i]).key@ != (
            #[trigger] self.entries@[j]).key@
        &&& forall|i: int|
            0 <= i < self.entries.len() ==> (#[trigger] self.entries@[i]).partition.wf()
                && self.entries@[i].partition.calls() == self.calls@
    }

    /// An empty cache for partitions of `calls`.
    pub fn new(calls: &Vec<WindowFuncCall>, epoch: u64) -> (r: PartitionCache)
        ensures
            r.wf(),
            r.keys() == Seq::<Seq<u8>>::empty(),
            r.epoch() == epoch,
            r.calls() == calls@,
            forall|cs: Seq<StoredRow>| r.all_stored(cs),
            forall|cs: Seq<StoredRow>| r.all_covered(cs),
    {
        let r = PartitionCache { entries: Vec::new(), epoch, calls: Ghost(calls@) };
        assert(r.keys() =~= Seq::<Seq<u8>>::empty());
        r
    }

    /// Number of cached partitions.
    pub fn len(&self) -> (r: usize)
        ensures
            r == self.keys().len(),
    {
        self.entries.len()
    }

    fn find(&self, key: &Vec<u8>) -> (r: Option<usize>)
        ensures
            match r {
                Some(i) => i < self.entries.len() && self.entries@[i as int].key@ == key@,
                None => !self.has(key@),
            },
    {
        let mut i: usize = 0;
        while i < self.entries.len()
            invariant
                i <= self.entries.len(),
                forall|j: int| 0 <= j < i ==> (#[trigger] self.entries@[j]).key@ != key@,
            decreases self.entries.len() - i,
        {
            if bytes_equal(&self.entries[i].key, key) {
                return Some(i);
            }
            i += 1;
        }
        proof {
            if self.has(key@) {
                let j = choose|j: int| 0 <= j < self.keys().len() && self.keys()[j] == key@;
                assert(self.entries@[j].key@ == key@);
            }
        }
        None
    }

    /// Whether `key` is cached.
    pub fn contains(&self, key: &Vec<u8>) -> (r: bool)
        ensures
            r == self.has(key@),
    {
        match self.find(key) {
            Some(i) => {
                assert(self.keys()[i as int] == key@);
                true
            },
            None => false,
        }
    }

    /// Removes the partition of `key` from the cache and hands it out.
    pub fn take(&mut self, key: &Vec<u8>) -> (r: Option<Partition>)
        requires
            old(self).wf(),
        ensures
            final(self).wf(),
            final(self).epoch() == old(self).epoch(),
            final(self).calls() == old(self).calls(),
            !final(self).has(key@),
            r is Some <==> old(self).has(key@),
            forall|k: Seq<u8>| k != key@ ==> (final(self).has(k) <==> old(self).has(k)),
            match r {
                Some(p) => p.wf() && p.calls() == old(self).calls(),
                None => final(self).keys() == old(self).keys(),
            },
            forall|cs: Seq<StoredRow>| #[trigger] old(self).all_stored(cs) ==> final(self).all_stored(cs) && match r {
                Some(p) => pending_stored(key@, p, cs),
                None => true,
            },
            forall|cs: Seq<StoredRow>| #[trigger] old(self).all_covered(cs) ==> final(self).all_covered(cs) && match r {
                Some(p) => all_ingested(key@, p, cs),
                None => true,
            },
            old(self).has(key@) ==> r == Some(old(self).get(key@)),
            forall|k: Seq<u8>| #[trigger] final(self).has(k) ==> final(self).get(k) == old(self).get(k),
    {
        match self.find(key) {
            Some(i) => {
                let ghost old_keys = self.keys();
                let e = self.entries.remove(i);
                proof {
                    assert(self.keys() =~= old_keys.remove(i as int));
                    assert(old_keys[i as int] == key@);
                    assert forall|k: Seq<u8>| k != key@ implies (self.has(k) <==> old_keys.contains(k)) by {
                        if old_keys.contains(k) {
                            let j = choose|j: int| 0 <= j < old_keys.len() && old_keys[j] == k;
                            if j < i {
                                assert(self.keys()[j] == k);
                            } else {
                                assert(self.keys()[j - 1] == k);
                            }
                        }
                    }
                    assert forall|cs: Seq<StoredRow>| #[trigger] old(self).all_stored(cs) implies self.all_stored(cs) && pending_stored(key@, e.partition, cs) by {
                        assert(old(self).entries@[i as int] == e);
                        assert forall|t: int| 0 <= t < self.entries.len() implies pending_stored(
                            (#[trigger] self.entries@[t]).key@,
                            self.entries@[t].partition,
                            cs,
                        ) by {
                            if t < i {
                                assert(old(self).entries@[t] == self.entries@[t]);
                            } else {
                                assert(old(self).entries@[t + 1] == self.entries@[t]);
                            }
                        }
                    }
                    assert forall|cs: Seq<StoredRow>| #[trigger] old(self).all_covered(cs) implies self.all_covered(cs) && all_ingested(key@, e.partition, cs) by {
                        assert(old(self).entries@[i as int] == e);
                        assert forall|t: int| 0 <= t < self.entries.len() implies all_ingested(
                            (#[trigger] self.entries@[t]).key@,
                            self.entries@[t].partition,
                            cs,
                        ) by {
                            if t < i {
                                assert(old(self).entries@[t] == self.entries@[t]);
                            } else {
                                assert(old(self).entries@[t + 1] == self.entries@[t]);
                            }
                        }
                    }
                    old(self).lemma_get(i as int);
                    assert forall|k: Seq<u8>| #[trigger] self.has(k) implies self.get(k) == old(self).get(k) by {
                        let t = choose|t: int| 0 <= t < self.keys().len() && self.keys()[t] == k;
                        assert(self.keys()[t] == self.entries@[t].key@);
                        self.lemma_get(t);
                        if t < i {
                            assert(old(self).entries@[t] == self.entries@[t]);
                            old(self).lemma_get(t);
                        } else {
                            assert(old(self).entries@[t + 1] == self.entries@[t]);
                            old(self).lemma_get(t + 1);
                        }
                    }
                    if self.has(key@) {
                        let j = choose|j: int| 0 <= j < self.keys().len() && self.keys()[j] == key@;
                        if j < i {
                            assert(old(self).entries@[j].key@ == old(self).entries@[i as int].key@);
                        } else {
                            assert(old(self).entries@[j + 1].key@ == old(self).entries@[i as int].key@);
                        }
                    }
                }
                Some(e.partition)
            },
            None => None,
        }
    }

    /// Caches `partition` under `key`, which is not cached, touched now.
    pub fn put(&mut self, key: Vec<u8>, partition: Partition)
        requires
            old(self).wf(),
            !old(self).has(key@),
            partition.wf(),
            partition.calls() == old(self).calls(),
        ensures
            final(self).wf(),
            final(self).epoch() == old(self).epoch(),
            final(self).calls() == old(self).calls(),
            final(self).keys() == old(self).keys().push(key@),
            forall|cs: Seq<StoredRow>| #[trigger] old(self).all_stored(cs) && pending_stored(key@, partition, cs) ==> final(self).all_stored(cs),
            forall|cs: Seq<StoredRow>| #[trigger] old(self).all_covered(cs) && all_ingested(key@, partition, cs) ==> final(self).all_covered(cs),
            final(self).get(key@) == partition,
            forall|k: Seq<u8>| k != key@ && #[trigger] old(self).has(k) ==> final(self).get(k) == old(self).get(k),
    {
        let ghost old_keys = self.keys();
        let ghost k = key@;
        let ghost part = partition;
        let e = CacheEntry { key, partition, epoch: self.epoch };
        self.entries.push(e);
        proof {
            assert(self.keys() =~= old_keys.push(k));
            assert forall|i: int, j: int|
                0 <= i < j < self.entries.len() implies (#[trigger] self.entries@[i]).key@ != (
                #[trigger] self.entries@[j]).key@ by {
                if j == self.entries.len() - 1 {
                    assert(old_keys[i] == self.entries@[i].key@);
                }
            }
            self.lemma_get(self.entries.len() - 1);
            assert forall|kk: Seq<u8>| kk != k && #[trigger] old(self).has(kk) implies self.get(kk) == old(self).get(kk) by {
                let t = choose|t: int| 0 <= t < old(self).keys().len() && old(self).keys()[t] == kk;
                assert(old(self).keys()[t] == old(self).entries@[t].key@);
                old(self).lemma_get(t);
                assert(self.entries@[t] == old(self).entries@[t]);
                self.lemma_get(t);
            }
            assert forall|cs: Seq<StoredRow>| #[trigger] old(self).all_covered(cs) && all_ingested(k, part, cs) implies self.all_covered(cs) by {
                assert forall|t: int| 0 <= t < self.entries.len() implies all_ingested(
                    (#[trigger] self.entries@[t]).key@,
                    self.entries@[t].partition,
                    cs,
                ) by {
                    if t < self.entries.len() - 1 {
                        assert(old(self).entries@[t] == self.entries@[t]);
                    }
                }
            }
            assert forall|cs: Seq<StoredRow>| #[trigger] old(self).all_stored(cs) && pending_stored(k, part, cs) implies self.all_stored(cs) by {
                assert forall|t: int| 0 <= t < self.entries.len() implies pending_stored(
                    (#[trigger] self.entries@[t]).key@,
                    self.entries@[t].partition,
                    cs,
                ) by {
                    if t < self.entries.len() - 1 {
                        assert(old(self).entries@[t] == self.entries@[t]);
                    }
                }
            }
        }
    }

    /// Sets the epoch that entries touched from now on carry.
    pub fn update_epoch(&mut self, epoch: u64)
        requires
            old(self).wf(),
        ensures
            final(self).wf(),
            final(self).epoch() == epoch,
            final(self).calls() == old(self).calls(),
            final(self).keys() == old(self).keys(),
            forall|i: int| 0 <= i < old(self).keys().len() ==> final(self).touched(i) == old(self).touched(i),
            forall|cs: Seq<StoredRow>| #[trigger] old(self).all_stored(cs) ==> final(self).all_stored(cs),
            forall|cs: Seq<StoredRow>| #[trigger] old(self).all_covered(cs) ==> final(self).all_covered(cs),
            forall|k: Seq<u8>| #[trigger] final(self).get(k) == old(self).get(k),
    {
        self.epoch = epoch;
        assert(self.entries@ == old(self).entries@);
        assert forall|cs: Seq<StoredRow>| #[trigger] old(self).all_covered(cs) implies self.all_covered(cs) by {
            assert(self.entries@ == old(self).entries@);
        }
        assert forall|cs: Seq<StoredRow>| #[trigger] old(self).all_stored(cs) implies self.all_stored(cs) by {
            assert(self.entries@ == old(self).entries@);
        }
    }

    /// Drops every entry last touched before `watermark`.
    pub fn evict(&mut self, watermark: u64)
        requires
            old(self).wf(),
        ensures
            final(self).wf(),
            final(self).epoch() == old(self).epoch(),
            final(self).calls() == old(self).calls(),
            forall|k: Seq<u8>| final(self).has(k) ==> old(self).has(k),
            forall|i: int| 0 <= i < final(self).keys().len() ==> final(self).touched(i) >= watermark,
            forall|i: int|
                0 <= i < old(self).keys().len() && old(self).touched(i) >= watermark ==> final(self).has(
                    #[trigger] old(self).keys()[i],
                ),
            forall|cs: Seq<StoredRow>| #[trigger] old(self).all_stored(cs) ==> final(self).all_stored(cs),
            forall|cs: Seq<StoredRow>| #[trigger] old(self).all_covered(cs) ==> final(self).all_covered(cs),
            forall|k: Seq<u8>| #[trigger] final(self).has(k) ==> final(self).get(k) == old(self).get(k),
    {
        let ghost old_entries = self.entries@;
        let ghost mut origin: Seq<int> = Seq::new(old_entries.len(), |t: int| t);
        proof {
            assert forall|j: int| 0 <= j < old_entries.len() implies self.has(old_entries[j].key@) by {
                assert(self.keys()[j] == old_entries[j].key@);
            }
        }
        let mut i: usize = 0;
        while i < self.entries.len()
            invariant
                self.wf(),
                old(self).wf(),
                old_entries == old(self).entries@,
                self.epoch == old(self).epoch,
                self.calls == old(self).calls,
                i <= self.entries.len(),
                origin.len() == self.entries.len(),
                forall|t: int| 0 <= t < i ==> (#[trigger] self.entries@[t]).epoch >= watermark,
                forall|t: int|
                    0 <= t < origin.len() ==> 0 <= #[trigger] origin[t] < old_entries.len()
                        && old_entries[origin[t]] == self.entries@[t],
                forall|j: int|
                    0 <= j < old_entries.len() && (#[trigger] old_entries[j]).epoch >= watermark ==> self.has(
                        old_entries[j].key@,
                    ),
            decreases self.entries.len() - i,
        {
            if self.entries[i].epoch < watermark {
                let ghost before = self.entries@;
                let ghost before_keys = self.keys();
                let ghost origin0 = origin;
                self.entries.remove(i);
                proof {
                    origin = origin0.remove(i as int);
                    assert(self.entries@ =~= before.remove(i as int));
                    assert forall|a: int, b: int|
                        0 <= a < b < self.entries.len() implies (#[trigger] self.entries@[a]).key@ != (
                        #[trigger] self.entries@[b]).key@ by {
                        let a0 = if a < i { a } else { a + 1 };
                        let b0 = if b < i { b } else { b + 1 };
                        assert(before[a0] == self.entries@[a] && before[b0] == self.entries@[b]);
                        assert(before[a0].key@ != before[b0].key@);
                    }
                    assert forall|a: int| 0 <= a < self.entries.len() implies (#[trigger] self.entries@[a]).partition.wf()
                        && self.entries@[a].partition.calls() == self.calls@ by {
                        let a0 = if a < i { a } else { a + 1 };
                        assert(before[a0] == self.entries@[a]);
                    }
                    assert forall|t: int|
                        0 <= t < origin.len() implies 0 <= #[trigger] origin[t] < old_entries.len()
                            && old_entries[origin[t]] == self.entries@[t] by {
                        let t0 = if t < i { t } else { t + 1 };
                        assert(origin[t] == origin0[t0]);
                        assert(before[t0] == self.entries@[t]);
                    }
                    assert forall|j: int|
                        0 <= j < old_entries.len() && (#[trigger] old_entries[j]).epoch >= watermark implies self.has(
                            old_entries[j].key@) by {
                        assert(before_keys.contains(old_entries[j].key@));
                        let t0 = choose|t0: int| 0 <= t0 < before_keys.len() && before_keys[t0] == old_entries[j].key@;
                        assert(before_keys[t0] == before[t0].key@);
                        let o = origin0[t0];
                        assert(old_entries[o] == before[t0]);
                        if o != j {
                            if o < j {
                                assert(old(self).entries@[o].key@ != old(self).entries@[j].key@);
                            } else {
                                assert(old(self).entries@[j].key@ != old(self).entries@[o].key@);
                            }
                        }
                        assert(t0 != i);
                        let t = if t0 < i { t0 } else { t0 - 1 };
                        assert(self.entries@[t] == before[t0]);
                        assert(self.keys()[t] == old_entries[j].key@);
                    }
                }
            } else {
                i += 1;
            }
        }
        proof {
            assert forall|k: Seq<u8>| self.has(k) implies old(self).has(k) by {
                let t = choose|t: int| 0 <= t < self.keys().len() && self.keys()[t] == k;
                assert(self.keys()[t] == self.entries@[t].key@);
                let j = origin[t];
                assert(old(self).keys()[j] == k);
            }
            assert forall|j: int|
                0 <= j < old(self).keys().len() && old(self).touched(j) >= watermark implies self.has(
                    #[trigger] old(self).keys()[j]) by {
                assert(old_entries[j].epoch >= watermark);
                assert(old(self).keys()[j] == old_entries[j].key@);
            }
            assert forall|t: int| 0 <= t < self.keys().len() implies self.touched(t) >= watermark by {
                assert(self.entries@[t].epoch >= watermark);
            }
            assert forall|cs: Seq<StoredRow>| #[trigger] old(self).all_stored(cs) implies self.all_stored(cs) by {
                assert forall|t: int| 0 <= t < self.entries.len() implies pending_stored(
                    (#[trigger] self.entries@[t]).key@,
                    self.entries@[t].partition,
                    cs,
                ) by {
                    let j = origin[t];
                    assert(old(self).entries@[j] == self.entries@[t]);
                }
            }
            assert forall|k: Seq<u8>| #[trigger] self.has(k) implies self.get(k) == old(self).get(k) by {
                let t = choose|t: int| 0 <= t < self.keys().len() && self.keys()[t] == k;
                assert(self.keys()[t] == self.entries@[t].key@);
                self.lemma_get(t);
                let j = origin[t];
                assert(old(self).entries@[j] == self.entries@[t]);
                old(self).lemma_get(j);
            }
            assert forall|cs: Seq<StoredRow>| #[trigger] old(self).all_covered(cs) implies self.all_covered(cs) by {
                assert forall|t: int| 0 <= t < self.entries.len() implies all_ingested(
                    (#[trigger] self.entries@[t]).key@,
                    self.entries@[t].partition,
                    cs,
                ) by {
                    let j = origin[t];
                    assert(old(self).entries@[j] == self.entries@[t]);
                }
            }
        }
    }

    /// Drops every entry.
    pub fn clear(&mut self)
        requires
            old(self).wf(),
        ensures
            final(self).wf(),
            final(self).epoch() == old(self).epoch(),
            final(self).calls() == old(self).calls(),
            final(self).keys() == Seq::<Seq<u8>>::empty(),
            forall|cs: Seq<StoredRow>| final(self).all_stored(cs),
            forall|cs: Seq<StoredRow>| final(self).all_covered(cs),
    {
        self.entries = Vec::new();
        assert(self.keys() =~= Seq::<Seq<u8>>::empty());
    }
}

} // verus!
