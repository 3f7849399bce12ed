use vstd::prelude::*;

use crate::state_key::{key_lt, lemma_ascending_distinct, StateKey};
use crate::window_state::{
    args_of, first_needed, keys_between, keys_of, lets_rows_go, window_output, window_ready, CurrWindow, Datum, Entry,
    StateEvictHint, WindowError, WindowFuncCall, WindowFuncKind, WindowState,
};

verus! {

/// A row of the input: one datum per column.
pub type Row = Vec<Datum>;

/// The view of an ingested row: its state key and its columns.
pub type KeyedRow = ((i64, Seq<u8>), Seq<Datum>);

/// The argument a call reads from a row: the column at `idx`, NULL past the end.
pub open spec fn arg_of(row: Seq<Datum>, idx: usize) -> Datum {
    if idx < row.len() {
        row[idx as int]
    } else {
        None
    }
}

/// The keys of the rows `from..to`, as a set.
pub open spec fn key_range(keys: Seq<(i64, Seq<u8>)>, from: int, to: int) -> Set<(i64, Seq<u8>)> {
    Set::new(|k: (i64, Seq<u8>)| exists|j: int| from <= j < to && #[trigger] keys[j] == k)
}

/// The keys that a call no longer needs once the window of row `c` is done.
pub open spec fn evict_set(kind: WindowFuncKind, keys: Seq<(i64, Seq<u8>)>, c: nat) -> Set<
    (i64, Seq<u8>),
> {
    key_range(keys, first_needed(kind, c) as int, first_needed(kind, c + 1) as int)
}

/// The merged hint of all calls when the window of row `c` is done: the keys
/// that every call can evict, `None` where there is no call.
pub open spec fn merged_evict(calls: Seq<WindowFuncCall>, keys: Seq<(i64, Seq<u8>)>, c: nat) -> Option<
    Set<(i64, Seq<u8>)>,
>
    decreases calls.len(),
{
    if calls.len() == 0 {
        None
    } else if calls.len() == 1 {
        if lets_rows_go(calls[0].kind) {
            Some(evict_set(calls[0].kind, keys, c))
        } else {
            None
        }
    } else {
        match merged_evict(calls.drop_last(), keys, c) {
            Some(s) => if lets_rows_go(calls.last().kind) {
                Some(s.intersect(evict_set(calls.last().kind, keys, c)))
            } else {
                None
            },
            None => None,
        }
    }
}

/// The column a call reads, over all rows.
pub open spec fn arg_column(rows: Seq<KeyedRow>, idx: usize) -> Seq<Datum> {
    rows.map_values(|r: KeyedRow| arg_of(r.1, idx))
}

/// The keys of all rows.
pub open spec fn row_keys(rows: Seq<KeyedRow>) -> Seq<(i64, Seq<u8>)> {
    rows.map_values(|r: KeyedRow| r.0)
}

/// The value of call `call` for row `c`.
pub open spec fn call_output(call: WindowFuncCall, rows: Seq<KeyedRow>, c: nat) -> Result<
    Datum,
    WindowError,
> {
    window_output(call.kind, arg_column(rows, call.arg_index), c as int)
}

/// Whether the windows of row `c` are all complete once `rows` are observed.
pub open spec fn all_ready(calls: Seq<WindowFuncCall>, n: nat, c: nat) -> bool {
    c < n && forall|i: int| 0 <= i < calls.len() ==> window_ready(#[trigger] calls[i].kind, n, c)
}

fn copy_calls(calls: &Vec<WindowFuncCall>) -> (r: Vec<WindowFuncCall>)
    ensures
        r@ == calls@,
{
    let mut r: Vec<WindowFuncCall> = Vec::new();
    let mut i: usize = 0;
    while i < calls.len()
        invariant
            i <= calls.len(),
            r@ == calls@.subrange(0, i as int),
        decreases calls.len() - i,
    {
        r.push(calls[i]);
        i += 1;
    }
    assert(r@ =~= calls@);
    r
}

/// `d` is what leaves a partition with calls `calls` and rows `rows` when the
/// windows of row `c` are done.
pub open spec fn drained(calls: Seq<WindowFuncCall>, rows: Seq<KeyedRow>, c: nat, d: DrainedRow) -> bool {
    &&& d.row@ == rows[c as int].1
    &&& d.outputs@.len() == calls.len()
    &&& forall|i: int| 0 <= i < calls.len() ==> Ok::<Datum, WindowError>(#[trigger] d.outputs@[i]) == call_output(calls[i], rows, c)
    &&& d.evict.evictable() == merged_evict(calls, row_keys(rows), c)
}

/// The keys of a stretch of a state's history are those of the same stretch of
/// the partition's keys.
pub proof fn lemma_keys_between(h: Seq<Entry>, keys: Seq<(i64, Seq<u8>)>, a: int, b: int)
    requires
        keys_of(h) == keys,
        0 <= a <= b <= h.len(),
    ensures
        keys_between(h, a, b) == key_range(keys, a, b),
{
    assert forall|k: (i64, Seq<u8>)| keys_between(h, a, b).contains(k) == key_range(keys, a, b).contains(k) by {
        if keys_between(h, a, b).contains(k) {
            let j = choose|j: int| a <= j < b && #[trigger] h[j].0 == k;
            assert(keys[j] == k);
        }
        if key_range(keys, a, b).contains(k) {
            let j = choose|j: int| a <= j < b && #[trigger] keys[j] == k;
            assert(h[j].0 == keys_of(h)[j]);
        }
    }
    assert(keys_between(h, a, b) =~= key_range(keys, a, b));
}

/// Bytes counted for one buffered datum.
pub const DATUM_BYTES: usize = 16;

/// Bytes counted for one observation kept by a window state.
pub const ENTRY_BYTES: usize = 48;

/// Number of datums in some rows.
pub open spec fn datums_in(rows: Seq<Seq<Datum>>) -> nat
    decreases rows.len(),
{
    if rows.len() == 0 {
        0
    } else {
        datums_in(rows.drop_last()) + rows.last().len()
    }
}

/// Number of observations kept by some window states.
pub open spec fn retained_in(states: Seq<WindowState>) -> nat
    decreases states.len(),
{
    if states.len() == 0 {
        0
    } else {
        retained_in(states.drop_last()) + states.last().retained().len()
    }
}

/// `x` or, if it is larger, `usize::MAX`.
pub open spec fn saturate(x: int) -> usize {
    if x > usize::MAX {
        usize::MAX
    } else {
        x as usize
    }
}

fn saturating_sum(a: usize, b: usize) -> (r: usize)
    ensures
        r == saturate(a + b),
{
    if b > usize::MAX - a {
        usize::MAX
    } else {
        a + b
    }
}

fn saturating_product(a: usize, k: usize) -> (r: usize)
    requires
        k > 0,
    ensures
        r == saturate(a * k),
{
    if a > usize::MAX / k {
        assert(a * k > usize::MAX) by (nonlinear_arith)
            requires
                a > usize::MAX / k,
                k > 0,
        ;
        usize::MAX
    } else {
        assert(a * k <= usize::MAX) by (nonlinear_arith)
            requires
                a <= usize::MAX / k,
                k > 0,
        ;
        a * k
    }
}

/// The farthest any call looks past its current row.
pub open spec fn max_following(calls: Seq<WindowFuncCall>) -> nat
    decreases calls.len(),
{
    if calls.len() == 0 {
        0
    } else if calls.last().kind.following() > max_following(calls.drop_last()) {
        calls.last().kind.following()
    } else {
        max_following(calls.drop_last())
    }
}

/// Where draining stops when it starts at `from` over `n` rows: the first
/// position from `from` on whose windows are not all complete.
pub open spec fn settle(calls: Seq<WindowFuncCall>, n: nat, from: nat) -> nat {
    if from + max_following(calls) >= n {
        from
    } else {
        (n - max_following(calls)) as nat
    }
}

/// The windows of row `c` are all complete exactly when the farthest-looking
/// call has seen its rows.
pub proof fn lemma_all_ready(calls: Seq<WindowFuncCall>, n: nat, c: nat)
    ensures
        all_ready(calls, n, c) <==> c + max_following(calls) < n,
    decreases calls.len(),
{
    if calls.len() > 0 {
        let pre = calls.drop_last();
        lemma_all_ready(pre, n, c);
        if c < n && forall|i: int| 0 <= i < pre.len() ==> window_ready(#[trigger] pre[i].kind, n, c) {
            assert(all_ready(pre, n, c));
        }
        if all_ready(calls, n, c) {
            assert forall|i: int| 0 <= i < pre.len() implies window_ready(#[trigger] pre[i].kind, n, c) by {
                assert(pre[i] == calls[i]);
            }
            assert(window_ready(calls[calls.len() - 1].kind, n, c));
        }
        if c + max_following(calls) < n {
            assert forall|i: int| 0 <= i < calls.len() implies window_ready(#[trigger] calls[i].kind, n, c) by {
                if i < calls.len() - 1 {
                    assert(pre[i] == calls[i]);
                    assert(all_ready(pre, n, c));
                    assert(window_ready(pre[i].kind, n, c));
                }
            }
        }
    }
}

/// The outputs of all calls for row `c`, errors read as NULL.
pub open spec fn output_values(calls: Seq<WindowFuncCall>, rows: Seq<KeyedRow>, c: nat) -> Seq<Datum> {
    Seq::new(
        calls.len(),
        |i: int|
            match call_output(calls[i], rows, c) {
                Ok(v) => v,
                Err(_) => None,
            },
    )
}

/// Whether some call fails on a row in `from..to`.
pub open spec fn fails_between(calls: Seq<WindowFuncCall>, rows: Seq<KeyedRow>, from: nat, to: nat) -> bool {
    exists|c: nat, i: int|
        from <= c < to && 0 <= i < calls.len() && #[trigger] call_output(calls[i], rows, c) is Err
}

/// One row leaving a partition: the input row, one value per call, and the
/// merged evict hint.
pub struct DrainedRow {
    pub row: Row,
    pub outputs: Vec<Datum>,
    pub evict: StateEvictHint,
}

/// The window states of one partition-key value, advancing in lock-step, and
/// the rows whose windows are not yet emitted.
pub struct Partition {
    states: Vec<WindowState>,
    curr_row_buffer: Vec<Row>,
    last_key: Option<StateKey>,
    rows: Ghost<Seq<KeyedRow>>,
    curr: Ghost<nat>,
    calls: Vec<WindowFuncCall>,
}

impl Partition {
    /// The calls evaluated, one state each.
    pub closed spec fn calls(&self) -> Seq<WindowFuncCall> {
        self.calls@
    }

    /// Every row ingested so far, with its key.
    pub closed spec fn rows(&self) -> Seq<KeyedRow> {
        self.rows@
    }

    /// The position of the row whose windows are current.
    pub closed spec fn curr(&self) -> nat {
        self.curr@
    }

    /// The rows whose output is still to come.
    pub closed spec fn buffered(&self) -> Seq<Seq<Datum>> {
        self.curr_row_buffer@.map_values(|r: Row| r@)
    }

    /// The window states, for inspection.
    pub closed spec fn state_views(&self) -> Seq<WindowState> {
        self.states@
    }

    pub closed spec fn wf(&self) -> bool {
        &&& self.states.len() == self.calls@.len()
        &&& self.calls@.len() > 0
        &&& self.curr@ <= self.rows@.len()
        &&& forall|i: int|
            0 <= i < self.states.len() ==> {
                let st = #[trigger] self.states@[i];
                &&& st.wf()
                &&& st.kind() == self.calls@[i].kind
                &&& keys_of(st.history()) == row_keys(self.rows@)
                &&& args_of(st.history()) == arg_column(self.rows@, self.calls@[i].arg_index)
                &&& st.curr() == self.curr@
            }
        &&& self.buffered() == self.rows@.subrange(self.curr@ as int, self.rows@.len() as int).map_values(
            |r: KeyedRow| r.1,
        )
        &&& forall|j: int|
            0 <= j < self.rows@.len() - 1 ==> #[trigger] key_lt(self.rows@[j].0, self.rows@[j + 1].0)
        &&& match self.last_key {
            Some(k) => self.rows@.len() > 0 && k@ == self.rows@.last().0,
            None => self.rows@.len() == 0,
        }
    }

    /// All states describe the same current window.
    pub open spec fn aligned(&self) -> bool {
        forall|i: int, j: int|
            0 <= i < self.state_views().len() && 0 <= j < self.state_views().len() ==> (
            #[trigger] self.state_views()[i]).window_key() == (#[trigger] self.state_views()[j]).window_key()
    }

    /// The current row has arrived and every window of it is complete.
    pub open spec fn ready(&self) -> bool {
        all_ready(self.calls(), self.rows().len(), self.curr())
    }

    /// Every state of a well-formed partition stands at the partition's
    /// current row.
    pub proof fn lemma_states_at_curr(&self)
        requires
            self.wf(),
        ensures
            forall|i: int| 0 <= i < self.state_views().len() ==> (#[trigger] self.state_views()[i]).curr() == self.curr(),
    {
    }

    /// The rows of a well-formed partition come in strictly ascending key
    /// order.
    pub proof fn lemma_rows_sorted(&self)
        requires
            self.wf(),
        ensures
            forall|a: int, b: int| 0 <= a < b < self.rows().len() ==> key_lt(#[trigger] self.rows()[a].0, #[trigger] self.rows()[b].0),
    {
        let keys = row_keys(self.rows());
        assert forall|j: int| 0 <= j < keys.len() - 1 implies #[trigger] key_lt(keys[j], keys[j + 1]) by {
            assert(key_lt(self.rows()[j].0, self.rows()[j + 1].0));
        }
        lemma_ascending_distinct(keys);
        assert forall|a: int, b: int| 0 <= a < b < self.rows().len() implies key_lt(#[trigger] self.rows()[a].0, #[trigger] self.rows()[b].0) by {
            assert(key_lt(keys[a], keys[b]));
        }
    }

    /// A well-formed partition is aligned.
    pub proof fn lemma_aligned(&self)
        requires
            self.wf(),
        ensures
            self.aligned(),
    {
        assert forall|i: int, j: int|
            0 <= i < self.state_views().len() && 0 <= j < self.state_views().len() implies (
            #[trigger] self.state_views()[i]).window_key() == (#[trigger] self.state_views()[j]).window_key() by {
            let a = self.states@[i];
            let b = self.states@[j];
            assert(keys_of(a.history()) == keys_of(b.history()));
            assert(a.history().len() == keys_of(a.history()).len());
            assert(b.history().len() == keys_of(b.history()).len());
            if a.curr() < a.history().len() {
                assert(keys_of(a.history())[a.curr() as int] == a.history()[a.curr() as int].0);
                assert(keys_of(b.history())[b.curr() as int] == b.history()[b.curr() as int].0);
            }
        }
    }

    proof fn lemma_state_lens(&self)
        requires
            self.wf(),
        ensures
            forall|i: int| 0 <= i < self.states.len() ==> (#[trigger] self.states@[i]).history().len() == self.rows@.len(),
            self.curr_row_buffer@.len() == self.rows@.len() - self.curr@,
    {
        assert forall|i: int| 0 <= i < self.states.len() implies (#[trigger] self.states@[i]).history().len() == self.rows@.len() by {
            assert(keys_of(self.states@[i].history()).len() == row_keys(self.rows@).len());
        }
        assert(self.buffered().len() == self.curr_row_buffer@.len());
    }

    /// An empty partition with one state per call.
    pub fn new(calls: &Vec<WindowFuncCall>) -> (r: Partition)
        requires
            calls.len() > 0,
        ensures
            r.wf(),
            r.calls() == calls@,
            r.rows() == Seq::<KeyedRow>::empty(),
            r.curr() == 0,
            r.buffered() == Seq::<Seq<Datum>>::empty(),
            r.state_views().len() == calls@.len(),
            forall|i: int|
                0 <= i < calls@.len() ==> (#[trigger] r.state_views()[i]).kind() == calls@[i].kind
                    && r.state_views()[i].history() == Seq::<Entry>::empty() && r.state_views()[i].curr() == 0,
    {
        let mut states: Vec<WindowState> = Vec::new();
        let mut i: usize = 0;
        while i < calls.len()
            invariant
                i <= calls.len(),
                states.len() == i,
                forall|j: int|
                    0 <= j < i ==> {
                        let st = #[trigger] states@[j];
                        &&& st.wf()
                        &&& st.kind() == calls@[j].kind
                        &&& st.history() == Seq::<Entry>::empty()
                        &&& st.curr() == 0
                    },
            decreases calls.len() - i,
        {
            states.push(WindowState::new(calls[i].kind));
            i += 1;
        }
        let r = Partition {
            states,
            curr_row_buffer: Vec::new(),
            last_key: None,
            rows: Ghost(Seq::empty()),
            curr: Ghost(0),
            calls: copy_calls(calls),
        };
        proof {
            assert(r.buffered() =~= Seq::<Seq<Datum>>::empty());
            assert forall|j: int| 0 <= j < r.states.len() implies {
                let st = #[trigger] r.states@[j];
                &&& keys_of(st.history()) == row_keys(r.rows@)
                &&& args_of(st.history()) == arg_column(r.rows@, r.calls@[j].arg_index)
            } by {
                assert(keys_of(r.states@[j].history()) =~= row_keys(r.rows@));
                assert(args_of(r.states@[j].history()) =~= arg_column(r.rows@, r.calls@[j].arg_index));
            }
            assert(r.buffered() =~= r.rows@.subrange(0, 0).map_values(|r: KeyedRow| r.1));
        }
        r
    }

    /// Whether all states describe the same current window.
    pub fn is_aligned(&self) -> (r: bool)
        requires
            self.wf(),
        ensures
            r == self.aligned(),
            r,
    {
        proof {
            self.lemma_aligned();
        }
        if self.states.len() == 0 {
            return true;
        }
        let first: CurrWindow = self.states[0].curr_window();
        let mut i: usize = 1;
        while i < self.states.len()
            invariant
                self.wf(),
                self.aligned(),
                1 <= i <= self.states.len(),
                match (first.key, self.states@[0].window_key()) {
                    (Some(a), Some(b)) => a@ == b,
                    (None, None) => true,
                    _ => false,
                },
            decreases self.states.len() - i,
        {
            let w = self.states[i].curr_window();
            let same = match (&first.key, &w.key) {
                (Some(a), Some(b)) => a.same_as(b),
                (None, None) => true,
                _ => false,
            };
            if !same {
                proof {
                    assert(self.state_views()[0].window_key() == self.state_views()[i as int].window_key());
                }
                return false;
            }
            i += 1;
        }
        true
    }

    /// Whether every window state's current window is complete; a partition
    /// has at least one call, and then its current row has arrived.
    pub fn is_ready(&self) -> (r: bool)
        requires
            self.wf(),
        ensures
            r == self.ready(),
            r == forall|i: int| 0 <= i < self.state_views().len() ==> (#[trigger] self.state_views()[i]).ready(),
    {
        proof {
            self.lemma_state_lens();
            assert(self.states@[0].wf());
            assert(self.states@[0].history().len() == self.rows@.len());
        }
        if self.curr_row_buffer.len() == 0 {
            assert(self.buffered().len() == 0);
            assert(!self.state_views()[0].ready());
            return false;
        }
        assert(self.buffered().len() > 0);
        let mut i: usize = 0;
        while i < self.states.len()
            invariant
                self.wf(),
                i <= self.states.len(),
                self.curr@ < self.rows@.len(),
                forall|j: int| 0 <= j < i ==> window_ready(#[trigger] self.calls@[j].kind, self.rows@.len(), self.curr@),
                forall|j: int| 0 <= j < self.states.len() ==> (#[trigger] self.states@[j]).history().len() == self.rows@.len(),
            decreases self.states.len() - i,
        {
            if !self.states[i].is_ready() {
                proof {
                    assert(!self.state_views()[i as int].ready());
                }
                return false;
            }
            i += 1;
        }
        proof {
            assert forall|j: int| 0 <= j < self.state_views().len() implies (#[trigger] self.state_views()[j]).ready() by {
                assert(window_ready(self.calls@[j].kind, self.rows@.len(), self.curr@));
            }
        }
        true
    }

    /// Feeds a row, whose key comes after every key fed before, to all states
    /// and queues it for output.
    pub fn ingest(&mut self, key: StateKey, row: Row)
        requires
            old(self).wf(),
            old(self).rows().len() > 0 ==> key_lt(old(self).rows().last().0, key@),
        ensures
            final(self).wf(),
            final(self).calls() == old(self).calls(),
            final(self).curr() == old(self).curr(),
            final(self).rows() == old(self).rows().push((key@, row@)),
    {
        proof {
            self.lemma_state_lens();
        }
        let ghost old_states = self.states@;
        let ghost rows0 = self.rows@;
        let ghost rows1 = rows0.push((key@, row@));
        let ghost bv0 = self.buffered();
        let ghost buf0 = self.curr_row_buffer@;
        let ghost c = self.curr@;
        let ghost calls0 = self.calls@;
        let n = self.states.len();
        let mut new_states: Vec<WindowState> = Vec::new();
        let mut i: usize = 0;
        while i < n
            invariant
                n == old_states.len(),
                n == self.calls@.len(),
                i <= n,
                new_states.len() == i,
                self.states@ == old_states.subrange(i as int, n as int),
                self.rows@ == rows0,
                self.curr@ == c,
                self.calls@ == calls0,
                self.curr_row_buffer@ == buf0,
                bv0 == buf0.map_values(|r: Row| r@),
                bv0 == rows0.subrange(c as int, rows0.len() as int).map_values(|r: KeyedRow| r.1),
                c <= rows0.len(),
                rows1 == rows0.push((key@, row@)),
                forall|j: int| 0 <= j < n ==> {
                    let st = #[trigger] old_states[j];
                    &&& st.wf()
                    &&& st.kind() == self.calls@[j].kind
                    &&& keys_of(st.history()) == row_keys(rows0)
                    &&& args_of(st.history()) == arg_column(rows0, self.calls@[j].arg_index)
                    &&& st.curr() == self.curr@
                    &&& st.history().len() == rows0.len()
                },
                forall|j: int| 0 <= j < i ==> {
                    let st = #[trigger] new_states@[j];
                    &&& st.wf()
                    &&& st.kind() == self.calls@[j].kind
                    &&& st.history() == old_states[j].history().push((key@, arg_of(row@, self.calls@[j].arg_index)))
                    &&& st.curr() == self.curr@
                },
                rows0.len() > 0 ==> key_lt(rows0.last().0, key@),
            decreases n - i,
        {
            let mut st = self.states.remove(0);
            proof {
                assert(st == old_states[i as int]);
                if st.history().len() > 0 {
                    assert(keys_of(st.history())[st.history().len() - 1] == row_keys(rows0)[rows0.len() - 1]);
                }
            }
            let call = self.calls[i];
            let arg = if call.arg_index < row.len() { row[call.arg_index] } else { None };
            st.append(key.duplicate(), arg);
            new_states.push(st);
            i += 1;
        }
        self.states = new_states;
        self.rows = Ghost(rows1);
        self.curr_row_buffer.push(row);
        self.last_key = Some(key);
        proof {
            assert forall|j: int| 0 <= j < self.states.len() implies {
                let st = #[trigger] self.states@[j];
                &&& keys_of(st.history()) == row_keys(rows1)
                &&& args_of(st.history()) == arg_column(rows1, self.calls@[j].arg_index)
            } by {
                let st = self.states@[j];
                let o = old_states[j];
                assert(keys_of(o.history()).len() == o.history().len());
                assert forall|t: int| 0 <= t < rows0.len() implies keys_of(o.history())[t] == row_keys(rows0)[t] && args_of(o.history())[t] == arg_column(rows0, self.calls@[j].arg_index)[t] by {}
                assert forall|t: int| 0 <= t < rows1.len() implies #[trigger] keys_of(st.history())[t] == row_keys(rows1)[t] by {
                    assert(st.history().len() == rows1.len());
                    if t < rows0.len() {
                        assert(st.history()[t] == o.history()[t]);
                        assert(rows1[t] == rows0[t]);
                        assert(keys_of(o.history())[t] == row_keys(rows0)[t]);
                        assert(args_of(o.history())[t] == arg_column(rows0, self.calls@[j].arg_index)[t]);
                    } else {
                        assert(st.history()[t] == (key@, arg_of(row@, self.calls@[j].arg_index)));
                        assert(rows1[t] == (key@, row@));
                        assert(arg_column(rows1, self.calls@[j].arg_index)[t] == arg_of(rows1[t].1, self.calls@[j].arg_index));
                    }
                }
                assert forall|t: int| 0 <= t < rows1.len() implies #[trigger] args_of(st.history())[t] == arg_column(rows1, self.calls@[j].arg_index)[t] by {
                    assert(st.history().len() == rows1.len());
                    if t < rows0.len() {
                        assert(st.history()[t] == o.history()[t]);
                        assert(rows1[t] == rows0[t]);
                        assert(keys_of(o.history())[t] == row_keys(rows0)[t]);
                        assert(args_of(o.history())[t] == arg_column(rows0, self.calls@[j].arg_index)[t]);
                    } else {
                        assert(st.history()[t] == (key@, arg_of(row@, self.calls@[j].arg_index)));
                        assert(rows1[t] == (key@, row@));
                        assert(arg_column(rows1, self.calls@[j].arg_index)[t] == arg_of(rows1[t].1, self.calls@[j].arg_index));
                    }
                }
                assert(args_of(st.history()).len() == arg_column(rows1, self.calls@[j].arg_index).len());
                assert(keys_of(st.history()) =~= row_keys(rows1));
                assert(args_of(st.history()) =~= arg_column(rows1, self.calls@[j].arg_index));
            }
            assert(self.buffered() =~= bv0.push(row@));
            assert(self.buffered() =~= rows1.subrange(c as int, rows1.len() as int).map_values(|r: KeyedRow| r.1)) by {
                assert(bv0.len() == rows0.len() - c);
                assert forall|t: int| 0 <= t < rows1.len() - c implies self.buffered()[t] == rows1.subrange(c as int, rows1.len() as int).map_values(|r: KeyedRow| r.1)[t] by {
                    if t < rows0.len() - c {
                        assert(bv0[t] == rows0.subrange(c as int, rows0.len() as int).map_values(|r: KeyedRow| r.1)[t]);
                    }
                }
            }
            assert forall|j: int| 0 <= j < rows1.len() - 1 implies #[trigger] key_lt(rows1[j].0, rows1[j + 1].0) by {
                if j < rows0.len() - 1 {
                    assert(rows1[j] == rows0[j] && rows1[j + 1] == rows0[j + 1]);
                }
            }
        }
    }

    fn calls_at(&self, i: usize) -> (r: WindowFuncCall)
        requires
            self.wf(),
            i < self.calls@.len(),
        ensures
            r == self.calls@[i as int],
    {
        self.calls[i]
    }

    /// Moves every state to the next window and takes the current row off
    /// the buffer, without computing outputs.
    pub fn advance(&mut self) -> (r: (Row, StateEvictHint))
        requires
            old(self).wf(),
            old(self).ready(),
        ensures
            final(self).wf(),
            final(self).calls() == old(self).calls(),
            final(self).rows() == old(self).rows(),
            final(self).curr() == old(self).curr() + 1,
            r.0@ == old(self).rows()[old(self).curr() as int].1,
            r.1.evictable() == merged_evict(old(self).calls(), row_keys(old(self).rows()), old(self).curr()),
    {
        proof {
            self.lemma_state_lens();
        }
        let ghost c = self.curr@;
        let ghost rows0 = self.rows@;
        let ghost calls0 = self.calls@;
        let ghost keys = row_keys(rows0);
        let n = self.states.len();
        let ghost buf0 = self.curr_row_buffer@;
        let ghost lk = self.last_key;
        proof {
            assert forall|j: int| 0 <= j < n implies (#[trigger] self.states@[j]).ready() by {
                assert(window_ready(calls0[j].kind, rows0.len(), c));
            }
        }
        let ghost old_states = self.states@;
        let mut new_states: Vec<WindowState> = Vec::new();
        let mut hint = StateEvictHint::CannotEvict;
        let mut i: usize = 0;
        while i < n
            invariant
                n == old_states.len(),
                n == calls0.len(),
                i <= n,
                new_states.len() == i,
                self.states@ == old_states.subrange(i as int, n as int),
                forall|j: int| 0 <= j < n ==> {
                    let st = #[trigger] old_states[j];
                    &&& st.wf()
                    &&& st.kind() == calls0[j].kind
                    &&& keys_of(st.history()) == keys
                    &&& args_of(st.history()) == arg_column(rows0, calls0[j].arg_index)
                    &&& st.curr() == c
                    &&& st.history().len() == rows0.len()
                    &&& window_ready(st.kind(), st.history().len(), st.curr())
                },
                forall|j: int| 0 <= j < i ==> {
                    let st = #[trigger] new_states@[j];
                    &&& st.wf()
                    &&& st.kind() == calls0[j].kind
                    &&& st.history() == old_states[j].history()
                    &&& st.curr() == c + 1
                },
                i == 0 ==> hint.evictable() is None,
                i > 0 ==> hint.evictable() == merged_evict(calls0.subrange(0, i as int), keys, c),
                keys == row_keys(rows0),
                keys.len() == rows0.len(),
                c < rows0.len(),
                self.curr_row_buffer@ == buf0,
                buf0.len() == rows0.len() - c,
                self.curr@ == c,
                self.rows@ == rows0,
                self.calls@ == calls0,
                self.last_key == lk,
            decreases n - i,
        {
            let mut st = self.states.remove(0);
            proof {
                assert(st == old_states[i as int]);
            }
            let h = st.slide_forward();
            proof {
                lemma_keys_between(old_states[i as int].history(), keys,
                    first_needed(calls0[i as int].kind, c) as int,
                    first_needed(calls0[i as int].kind, c + 1) as int);
                let cs = calls0.subrange(0, i + 1);
                if i > 0 {
                    assert(cs.drop_last() =~= calls0.subrange(0, i as int));
                    assert(cs.last() == calls0[i as int]);
                } else {
                    assert(cs[0] == calls0[0]);
                }
            }
            if i == 0 {
                hint = h;
            } else {
                hint = hint.merge(h);
            }
            new_states.push(st);
            i += 1;
        }
        self.states = new_states;
        let row = self.curr_row_buffer.remove(0);
        self.curr = Ghost(c + 1);
        proof {
            assert(calls0.subrange(0, n as int) =~= calls0);
            let b0 = old(self).buffered();
            assert(b0[0] == rows0.subrange(c as int, rows0.len() as int).map_values(|r: KeyedRow| r.1)[0]);
            assert(self.buffered() =~= b0.subrange(1, b0.len() as int));
            assert(self.buffered() =~= rows0.subrange(c + 1int, rows0.len() as int).map_values(|r: KeyedRow| r.1)) by {
                assert forall|t: int| 0 <= t < rows0.len() - c - 1 implies self.buffered()[t] == rows0.subrange(c + 1int, rows0.len() as int).map_values(|r: KeyedRow| r.1)[t] by {
                    assert(b0[t + 1] == rows0.subrange(c as int, rows0.len() as int).map_values(|r: KeyedRow| r.1)[t + 1]);
                }
            }
            assert forall|j: int| 0 <= j < self.states.len() implies {
                let st = #[trigger] self.states@[j];
                &&& keys_of(st.history()) == row_keys(self.rows@)
                &&& args_of(st.history()) == arg_column(self.rows@, self.calls@[j].arg_index)
            } by {
                assert(old_states[j].history() == self.states@[j].history());
            }
        }
        (row, hint)
    }

    /// Emits the current row: its values from every call, then moves every
    /// state to the next window. On an error nothing changes.
    pub fn emit_one(&mut self) -> (r: Result<DrainedRow, WindowError>)
        requires
            old(self).wf(),
            old(self).ready(),
        ensures
            match r {
                Ok(d) => {
                    &&& final(self).wf()
                    &&& final(self).calls() == old(self).calls()
                    &&& final(self).rows() == old(self).rows()
                    &&& final(self).curr() == old(self).curr() + 1
                    &&& drained(old(self).calls(), old(self).rows(), old(self).curr(), d)
                },
                Err(e) => {
                    &&& *final(self) == *old(self)
                    &&& exists|i: int|
                        0 <= i < old(self).calls().len() && #[trigger] call_output(
                            old(self).calls()[i],
                            old(self).rows(),
                            old(self).curr(),
                        ) == Err::<Datum, WindowError>(e)
                },
            },
    {
        proof {
            self.lemma_state_lens();
        }
        let ghost c = self.curr@;
        let ghost rows0 = self.rows@;
        let ghost calls0 = self.calls@;
        let ghost keys = row_keys(rows0);
        let n = self.states.len();
        proof {
            assert forall|j: int| 0 <= j < n implies (#[trigger] self.states@[j]).ready() by {
                assert(window_ready(calls0[j].kind, rows0.len(), c));
            }
        }
        let ghost buf0 = self.curr_row_buffer@;
        let ghost lk = self.last_key;
        let mut outputs: Vec<Datum> = Vec::new();
        let mut i: usize = 0;
        while i < n
            invariant
                self.wf(),
                *self == *old(self),
                forall|j: int| 0 <= j < n ==> (#[trigger] self.states@[j]).ready(),
                self.curr@ == c,
                self.rows@ == rows0,
                self.calls@ == calls0,
                n == self.states.len(),
                i <= n,
                outputs.len() == i,
                forall|j: int| 0 <= j < i ==> Ok::<Datum, WindowError>(#[trigger] outputs@[j]) == call_output(calls0[j], rows0, c),
            decreases n - i,
        {
            proof {
                assert(self.states@[i as int].wf());
            }
            match self.states[i].curr_output() {
                Ok(v) => outputs.push(v),
                Err(e) => {
                    proof {
                        assert(call_output(calls0[i as int], rows0, c) == Err::<Datum, WindowError>(e));
                        assert(calls0 == old(self).calls());
                        assert(c == old(self).curr());
                        assert(rows0 == old(self).rows());
                        assert(*self == *old(self));
                    }
                    return Err(e);
                },
            }
            i += 1;
        }
        let (row, hint) = self.advance();
        let d = DrainedRow { row, outputs, evict: hint };
        Ok(d)
    }

    /// Emits every row whose windows are complete, in order.
    pub fn drain_ready(&mut self) -> (r: Result<Vec<DrainedRow>, WindowError>)
        requires
            old(self).wf(),
        ensures
            final(self).wf(),
            final(self).calls() == old(self).calls(),
            final(self).rows() == old(self).rows(),
            final(self).curr() >= old(self).curr(),
            match r {
                Ok(out) => {
                    &&& final(self).curr() == old(self).curr() + out.len()
                    &&& final(self).curr() == settle(old(self).calls(), old(self).rows().len(), old(self).curr())
                    &&& !fails_between(old(self).calls(), old(self).rows(), old(self).curr(), final(self).curr())
                    &&& !final(self).ready()
                    &&& forall|t: int|
                        0 <= t < out.len() ==> drained(
                            old(self).calls(),
                            old(self).rows(),
                            (old(self).curr() + t) as nat,
                            #[trigger] out@[t],
                        ) && all_ready(old(self).calls(), old(self).rows().len(), (old(self).curr() + t) as nat)
                },
                Err(e) => {
                    &&& final(self).ready()
                    &&& final(self).curr() < settle(old(self).calls(), old(self).rows().len(), old(self).curr())
                    &&& exists|i: int|
                        0 <= i < final(self).calls().len() && #[trigger] call_output(
                            final(self).calls()[i],
                            final(self).rows(),
                            final(self).curr(),
                        ) == Err::<Datum, WindowError>(e)
                },
            },
    {
        let ghost c0 = self.curr@;
        let ghost calls = self.calls();
        let ghost rows = self.rows();
        let ghost n = rows.len();
        let mut out: Vec<DrainedRow> = Vec::new();
        while self.is_ready()
            invariant
                self.wf(),
                self.calls() == calls,
                self.rows() == rows,
                calls == old(self).calls(),
                rows == old(self).rows(),
                n == rows.len(),
                self.curr() == c0 + out.len(),
                c0 == old(self).curr(),
                self.curr() <= settle(calls, n, c0),
                !fails_between(calls, rows, c0, self.curr()),
                forall|t: int|
                    0 <= t < out.len() ==> drained(
                        calls,
                        rows,
                        (c0 + t) as nat,
                        #[trigger] out@[t],
                    ) && all_ready(calls, n, (c0 + t) as nat),
            decreases self.rows().len() - self.curr(),
        {
            let ghost c = self.curr();
            proof {
                lemma_all_ready(calls, n, c);
            }
            match self.emit_one() {
                Ok(d) => {
                    out.push(d);
                    proof {
                        assert(out@[out.len() - 1] == d);
                        assert forall|cc: nat, i: int|
                            c0 <= cc < c + 1 && 0 <= i < calls.len() implies !(#[trigger] call_output(calls[i], rows, cc) is Err) by {
                            if cc < c {
                                assert(!fails_between(calls, rows, c0, c));
                            } else {
                                assert(Ok::<Datum, WindowError>(d.outputs@[i]) == call_output(calls[i], rows, c));
                            }
                        }
                    }
                },
                Err(e) => {
                    return Err(e);
                },
            }
        }
        proof {
            lemma_all_ready(calls, n, self.curr());
        }
        Ok(out)
    }

    /// The key of the last row ingested.
    pub fn last_key(&self) -> (r: Option<&StateKey>)
        requires
            self.wf(),
        ensures
            match r {
                Some(k) => self.rows().len() > 0 && k@ == self.rows().last().0,
                None => self.rows().len() == 0,
            },
    {
        match &self.last_key {
            Some(k) => Some(k),
            None => None,
        }
    }

    /// Moves past every row whose windows are complete, computing nothing:
    /// their output was emitted before.
    pub fn skip_ready(&mut self)
        requires
            old(self).wf(),
        ensures
            final(self).wf(),
            final(self).calls() == old(self).calls(),
            final(self).rows() == old(self).rows(),
            final(self).curr() >= old(self).curr(),
            final(self).curr() == settle(old(self).calls(), old(self).rows().len(), old(self).curr()),
            !final(self).ready(),
    {
        let ghost n = self.rows().len();
        while self.is_ready()
            invariant
                self.wf(),
                self.calls() == old(self).calls(),
                self.rows() == old(self).rows(),
                n == self.rows().len(),
                self.curr() >= old(self).curr(),
                self.curr() <= settle(old(self).calls(), n, old(self).curr()),
            decreases self.rows().len() - self.curr(),
        {
            proof {
                lemma_all_ready(self.calls(), n, self.curr());
            }
            let _ = self.advance();
        }
        proof {
            lemma_all_ready(self.calls(), n, self.curr());
        }
    }

    /// Number of rows awaiting output.
    pub fn buffered_len(&self) -> (r: usize)
        requires
            self.wf(),
        ensures
            r == self.rows().len() - self.curr(),
    {
        proof {
            self.lemma_state_lens();
        }
        self.curr_row_buffer.len()
    }
}

/// The merged hint of several calls lets go only what each call lets go.
pub proof fn lemma_merged_within(calls: Seq<WindowFuncCall>, keys: Seq<(i64, Seq<u8>)>, c: nat)
    requires
        calls.len() > 0,
        merged_evict(calls, keys, c) is Some,
    ensures
        forall|i: int|
            0 <= i < calls.len() ==> merged_evict(calls, keys, c).unwrap().subset_of(
                evict_set(#[trigger] calls[i].kind, keys, c),
            ),
    decreases calls.len(),
{
    if calls.len() > 1 {
        let pre = calls.drop_last();
        lemma_merged_within(pre, keys, c);
        assert forall|i: int|
            0 <= i < calls.len() implies merged_evict(calls, keys, c).unwrap().subset_of(
                evict_set(#[trigger] calls[i].kind, keys, c),
            ) by {
            if i < calls.len() - 1 {
                assert(pre[i] == calls[i]);
            }
        }
    }
}

/// First-needed positions only move forward.
pub proof fn lemma_first_needed_monotone(kind: WindowFuncKind, a: nat, b: nat)
    requires
        a <= b,
    ensures
        first_needed(kind, a) <= first_needed(kind, b),
{
}

/// Once the windows of row `c` are done, no window state of the partition
/// holds a key that the merged hint of row `c` let go, then or at any later
/// point: what is deleted from the state table is never referenced again.
pub proof fn lemma_evicted_not_retained(p: &Partition, c: nat, k: (i64, Seq<u8>))
    requires
        p.wf(),
        c < p.curr(),
        merged_evict(p.calls(), row_keys(p.rows()), c) is Some,
        merged_evict(p.calls(), row_keys(p.rows()), c).unwrap().contains(k),
    ensures
        forall|i: int, t: int|
            0 <= i < p.state_views().len() && 0 <= t < p.state_views()[i].retained().len()
                ==> (#[trigger] p.state_views()[i].retained()[t]).0 != k,
{
    let keys = row_keys(p.rows());
    let calls = p.calls();
    if calls.len() == 0 {
        assert(merged_evict(calls, keys, c) is None);
    }
    lemma_merged_within(calls, keys, c);
    assert forall|j: int| 0 <= j < keys.len() - 1 implies #[trigger] key_lt(keys[j], keys[j + 1]) by {
        assert(key_lt(p.rows()[j].0, p.rows()[j + 1].0));
    }
    lemma_ascending_distinct(keys);
    assert forall|i: int, t: int|
        0 <= i < p.state_views().len() && 0 <= t < p.state_views()[i].retained().len()
            implies (#[trigger] p.state_views()[i].retained()[t]).0 != k by {
        let st = p.state_views()[i];
        let kind = calls[i].kind;
        assert(st.kind() == kind);
        st.lemma_retained();
        assert(evict_set(kind, keys, c).contains(k));
        let m = choose|m: int| first_needed(kind, c) <= m < first_needed(kind, c + 1) && #[trigger] keys[m] == k;
        lemma_first_needed_monotone(kind, c + 1, st.curr());
        let f = first_needed(kind, st.curr()) as int;
        assert(st.retained()[t] == st.history()[f + t]);
        assert(keys_of(st.history())[f + t] == st.history()[f + t].0);
        assert(keys_of(st.history()) == keys);
        assert(st.history().len() == keys_of(st.history()).len());
        assert(keys[m] != keys[f + t]);
    }
}

/// A drain emits each ingested row at most once: emitting `n` rows takes
/// `n` rows that were ingested and not yet emitted.
pub proof fn lemma_output_bounded(before: &Partition, after: &Partition, n: nat)
    requires
        before.wf(),
        after.wf(),
        after.rows() == before.rows(),
        after.curr() == before.curr() + n,
    ensures
        n <= before.rows().len() - before.curr(),
{
}

/// A key that the merged hint of a finished row `c` lets go is not the key of
/// any row still awaiting output.
pub proof fn lemma_evicted_not_pending(p: &Partition, c: nat, k: (i64, Seq<u8>))
    requires
        p.wf(),
        c < p.curr(),
        merged_evict(p.calls(), row_keys(p.rows()), c) is Some,
        merged_evict(p.calls(), row_keys(p.rows()), c).unwrap().contains(k),
    ensures
        forall|j: int| p.curr() <= j < p.rows().len() ==> (#[trigger] p.rows()[j]).0 != k,
{
    let keys = row_keys(p.rows());
    let calls = p.calls();
    if calls.len() == 0 {
        assert(merged_evict(calls, keys, c) is None);
    }
    lemma_merged_within(calls, keys, c);
    assert forall|j: int| 0 <= j < keys.len() - 1 implies #[trigger] key_lt(keys[j], keys[j + 1]) by {
        assert(key_lt(p.rows()[j].0, p.rows()[j + 1].0));
    }
    lemma_ascending_distinct(keys);
    let kind = calls[0].kind;
    assert(evict_set(kind, keys, c).contains(k));
    let m = choose|m: int| first_needed(kind, c) <= m < first_needed(kind, c + 1) && #[trigger] keys[m] == k;
    assert forall|j: int| p.curr() <= j < p.rows().len() implies (#[trigger] p.rows()[j]).0 != k by {
        assert(keys[j] == p.rows()[j].0);
        assert(m < j);
        assert(keys[m] != keys[j]);
    }

}

impl Partition {
    /// A best-effort count of the bytes this partition holds: its buffered
    /// datums and the observations its states keep, saturating at
    /// `usize::MAX`.
    pub fn estimated_heap_size(&self) -> (r: usize)
        requires
            self.wf(),
        ensures
            r == saturate(
                DATUM_BYTES * datums_in(self.buffered()) + ENTRY_BYTES * retained_in(self.state_views()),
            ),
    {
        let mut datums: usize = 0;
        let mut i: usize = 0;
        while i < self.curr_row_buffer.len()
            invariant
                i <= self.curr_row_buffer.len(),
                datums == saturate(datums_in(self.buffered().subrange(0, i as int)) as int),
            decreases self.curr_row_buffer.len() - i,
        {
            proof {
                let b = self.buffered();
                assert(b.len() == self.curr_row_buffer.len());
                assert(b.subrange(0, i + 1).drop_last() =~= b.subrange(0, i as int));
                assert(b[i as int] == self.curr_row_buffer@[i as int]@);
            }
            datums = saturating_sum(datums, self.curr_row_buffer[i].len());
            i += 1;
        }
        proof {
            assert(self.buffered().subrange(0, self.curr_row_buffer.len() as int) =~= self.buffered());
        }
        let mut entries: usize = 0;
        let mut j: usize = 0;
        while j < self.states.len()
            invariant
                self.wf(),
                j <= self.states.len(),
                entries == saturate(retained_in(self.states@.subrange(0, j as int)) as int),
            decreases self.states.len() - j,
        {
            proof {
                assert(self.states@.subrange(0, j + 1).drop_last() =~= self.states@.subrange(0, j as int));
                assert(self.states@[j as int].wf());
            }
            entries = saturating_sum(entries, self.states[j].retained_len());
            j += 1;
        }
        proof {
            assert(self.states@.subrange(0, self.states.len() as int) =~= self.states@);
        }
        let a = saturating_product(datums, DATUM_BYTES);
        let b = saturating_product(entries, ENTRY_BYTES);
        let r = saturating_sum(a, b);
        proof {
            let x = datums_in(self.buffered()) as int;
            let y = retained_in(self.state_views()) as int;
            assert(DATUM_BYTES * x >= 0 && ENTRY_BYTES * y >= 0) by (nonlinear_arith)
                requires x >= 0, y >= 0;
            if x > usize::MAX {
                assert(DATUM_BYTES * x > usize::MAX) by (nonlinear_arith) requires x > usize::MAX;
            }
            if y > usize::MAX {
                assert(ENTRY_BYTES * y > usize::MAX) by (nonlinear_arith) requires y > usize::MAX;
            }
        }
        r
    }
}

} // verus!
