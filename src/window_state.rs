use vstd::prelude::*;

use crate::state_key::{key_lt, StateKey};

verus! {

/// A value of a column: `None` is SQL NULL.
pub type Datum = Option<i64>;

/// The view of one observation held by a window state: its state key and the
/// function argument.
pub type Entry = ((i64, Seq<u8>), Datum);

/// The window functions this operator evaluates.
#[derive(Clone, Copy, Debug, PartialEq, Eq)]
pub enum WindowFuncKind {
    /// `ROW_NUMBER()`.
    RowNumber,
    /// `LAG(arg, offset)`: the argument `offset` rows before, or NULL.
    Lag { offset: usize },
    /// `LEAD(arg, offset)`: the argument `offset` rows after.
    Lead { offset: usize },
    /// `SUM(arg) OVER (ROWS BETWEEN preceding PRECEDING AND following FOLLOWING)`.
    Sum { preceding: usize, following: usize },
}

/// One window-function call: its kind and the input column of its argument.
#[derive(Clone, Copy, Debug, PartialEq, Eq)]
pub struct WindowFuncCall {
    pub kind: WindowFuncKind,
    pub arg_index: usize,
}

/// Failure of a window function on its current window.
#[derive(Clone, Copy, Debug, PartialEq, Eq)]
pub enum WindowError {
    /// The result does not fit in a 64-bit integer.
    Overflow,
}

impl WindowFuncKind {
    /// How many rows before the current row the window reaches.
    pub open spec fn preceding(self) -> nat {
        match self {
            WindowFuncKind::Lag { offset } => offset as nat,
            WindowFuncKind::Sum { preceding, .. } => preceding as nat,
            _ => 0,
        }
    }

    /// How many rows after the current row the window reaches.
    pub open spec fn following(self) -> nat {
        match self {
            WindowFuncKind::Lead { offset } => offset as nat,
            WindowFuncKind::Sum { following, .. } => following as nat,
            _ => 0,
        }
    }

    pub fn preceding_rows(&self) -> (r: usize)
        ensures
            r == self.preceding(),
    {
        match self {
            WindowFuncKind::Lag { offset } => *offset,
            WindowFuncKind::Sum { preceding, .. } => *preceding,
            _ => 0,
        }
    }

    pub fn following_rows(&self) -> (r: usize)
        ensures
            r == self.following(),
    {
        match self {
            WindowFuncKind::Lead { offset } => *offset,
            WindowFuncKind::Sum { following, .. } => *following,
            _ => 0,
        }
    }
}

/// The keys of a history of observations.
pub open spec fn keys_of(h: Seq<Entry>) -> Seq<(i64, Seq<u8>)> {
    h.map_values(|e: Entry| e.0)
}

/// The arguments of a history of observations.
pub open spec fn args_of(h: Seq<Entry>) -> Seq<Datum> {
    h.map_values(|e: Entry| e.1)
}

/// Each key comes strictly after the one before it.
pub open spec fn keys_ascending(h: Seq<Entry>) -> bool {
    forall|j: int| 0 <= j < h.len() - 1 ==> #[trigger] key_lt(h[j].0, h[j + 1].0)
}

/// The first row that the window of row `curr` still needs.
pub open spec fn first_needed(kind: WindowFuncKind, curr: nat) -> nat {
    if curr >= kind.preceding() {
        (curr - kind.preceding()) as nat
    } else {
        0
    }
}

/// Whether the window of row `curr` is complete once `len` rows are observed.
pub open spec fn window_ready(kind: WindowFuncKind, len: nat, curr: nat) -> bool {
    curr + kind.following() < len
}

/// Sum of the non-NULL values.
pub open spec fn datum_sum(s: Seq<Datum>) -> int
    decreases s.len(),
{
    if s.len() == 0 {
        0
    } else {
        datum_sum(s.drop_last()) + match s.last() {
            Some(v) => v as int,
            None => 0int,
        }
    }
}

/// Number of non-NULL values.
pub open spec fn datum_count(s: Seq<Datum>) -> nat
    decreases s.len(),
{
    if s.len() == 0 {
        0
    } else {
        datum_count(s.drop_last()) + if s.last() is Some {
            1nat
        } else {
            0nat
        }
    }
}

/// SQL `SUM` of a frame: NULL when it holds no value, an error when the sum
/// leaves the 64-bit range.
pub open spec fn sum_output(s: Seq<Datum>) -> Result<Datum, WindowError> {
    if datum_count(s) == 0 {
        Ok(None)
    } else if i64::MIN <= datum_sum(s) <= i64::MAX {
        Ok(Some(datum_sum(s) as i64))
    } else {
        Err(WindowError::Overflow)
    }
}

/// The value of a window function for row `i` of a partition whose arguments
/// are `args`, the window being ready.
pub open spec fn window_output(kind: WindowFuncKind, args: Seq<Datum>, i: int) -> Result<
    Datum,
    WindowError,
> {
    match kind {
        WindowFuncKind::RowNumber => if i + 1 <= i64::MAX {
            Ok(Some((i + 1) as i64))
        } else {
            Err(WindowError::Overflow)
        },
        WindowFuncKind::Lag { offset } => if i >= offset {
            Ok(args[i - offset])
        } else {
            Ok(None)
        },
        WindowFuncKind::Lead { offset } => Ok(args[i + offset]),
        WindowFuncKind::Sum { preceding, following } => sum_output(
            args.subrange(first_needed(kind, i as nat) as int, i + following + 1),
        ),
    }
}

/// Whether a call lets the state table drop rows it no longer reads.
/// `ROW_NUMBER` does not: it counts every row of its partition, and that
/// count is rebuilt on recovery from the rows kept.
pub open spec fn lets_rows_go(kind: WindowFuncKind) -> bool {
    !(kind is RowNumber)
}

/// The keys of the rows `from..to` of a history, as a set.
pub open spec fn keys_between(h: Seq<Entry>, from: int, to: int) -> Set<(i64, Seq<u8>)> {
    Set::new(|k: (i64, Seq<u8>)| exists|j: int| from <= j < to && #[trigger] h[j].0 == k)
}

/// Whether some key of `v` has the view `k`.
pub open spec fn holds_key(v: Seq<StateKey>, k: (i64, Seq<u8>)) -> bool {
    exists|j: int| 0 <= j < v.len() && #[trigger] v[j]@ == k
}

/// Which rows a window state will never look at again.
pub enum StateEvictHint {
    /// These keys may be evicted.
    CanEvict(Vec<StateKey>),
    /// Nothing may be evicted.
    CannotEvict,
}

impl StateEvictHint {
    /// The set of evictable keys, or `None` for `CannotEvict`.
    pub open spec fn evictable(&self) -> Option<Set<(i64, Seq<u8>)>> {
        match self {
            StateEvictHint::CanEvict(v) => Some(Set::new(|k: (i64, Seq<u8>)| holds_key(v@, k))),
            StateEvictHint::CannotEvict => None,
        }
    }

    /// Combines the hints of two states: a key may be evicted only where both
    /// allow it.
    pub fn merge(self, other: StateEvictHint) -> (r: StateEvictHint)
        ensures
            r.evictable() == match (self.evictable(), other.evictable()) {
                (Some(a), Some(b)) => Some(a.intersect(b)),
                _ => None,
            },
    {
        let ghost ea = self.evictable();
        let ghost eb = other.evictable();
        match (self, other) {
            (StateEvictHint::CanEvict(a), StateEvictHint::CanEvict(b)) => {
                let mut kept: Vec<StateKey> = Vec::new();
                let mut i: usize = 0;
                while i < a.len()
                    invariant
                        i <= a.len(),
                        forall|k: (i64, Seq<u8>)|
                            #[trigger] holds_key(kept@, k) <==> (holds_key(
                                a@.subrange(0, i as int),
                                k,
                            ) && holds_key(b@, k)),
                    decreases a.len() - i,
                {
                    let mut found = false;
                    let mut m: usize = 0;
                    while m < b.len()
                        invariant
                            m <= b.len(),
                            i < a.len(),
                            found == holds_key(b@.subrange(0, m as int), a@[i as int]@),
                        decreases b.len() - m,
                    {
                        let ghost pre = b@.subrange(0, m as int);
                        assert(b@.subrange(0, m + 1) =~= pre.push(b@[m as int]));
                        if b[m].same_as(&a[i]) {
                            found = true;
                        }
                        proof {
                            let nxt = b@.subrange(0, m + 1);
                            if holds_key(nxt, a@[i as int]@) {
                                let j = choose|j: int| 0 <= j < nxt.len() && #[trigger] nxt[j]@ == a@[i as int]@;
                                if j < m {
                                    assert(pre[j]@ == a@[i as int]@);
                                }
                            }
                            if holds_key(pre, a@[i as int]@) {
                                let j = choose|j: int| 0 <= j < pre.len() && #[trigger] pre[j]@ == a@[i as int]@;
                                assert(nxt[j]@ == a@[i as int]@);
                            }
                            if b@[m as int]@ == a@[i as int]@ {
                                assert(nxt[m as int]@ == a@[i as int]@);
                            }
                        }
                        m += 1;
                    }
                    assert(b@.subrange(0, b.len() as int) =~= b@);
                    let ghost old_kept = kept@;
                    let ghost pa = a@.subrange(0, i as int);
                    let ghost na = a@.subrange(0, i + 1);
                    assert(na =~= pa.push(a@[i as int]));
                    if found {
                        kept.push(a[i].duplicate());
                    }
                    assert forall|k: (i64, Seq<u8>)|
                        #[trigger] holds_key(kept@, k) <==> (holds_key(na, k) && holds_key(b@, k)) by {
                        if holds_key(na, k) {
                            let j = choose|j: int| 0 <= j < na.len() && #[trigger] na[j]@ == k;
                            if j < i {
                                assert(pa[j]@ == k);
                            }
                        }
                        if holds_key(pa, k) {
                            let j = choose|j: int| 0 <= j < pa.len() && #[trigger] pa[j]@ == k;
                            assert(na[j]@ == k);
                        }
                        if holds_key(kept@, k) {
                            let j = choose|j: int| 0 <= j < kept@.len() && #[trigger] kept@[j]@ == k;
                            if j < old_kept.len() {
                                assert(old_kept[j]@ == k);
                            } else {
                                assert(na[i as int]@ == k);
                            }
                        }
                        if holds_key(old_kept, k) {
                            let j = choose|j: int| 0 <= j < old_kept.len() && #[trigger] old_kept[j]@ == k;
                            assert(kept@[j]@ == k);
                        }
                        if found && a@[i as int]@ == k {
                            assert(kept@[old_kept.len() as int]@ == k);
                            assert(na[i as int]@ == k);
                        }
                    }
                    i += 1;
                }
                assert(a@.subrange(0, a.len() as int) =~= a@);
                let r = StateEvictHint::CanEvict(kept);
                assert(r.evictable().unwrap() =~= ea.unwrap().intersect(eb.unwrap())) by {
                    assert forall|k: (i64, Seq<u8>)|
                        r.evictable().unwrap().contains(k) == ea.unwrap().intersect(eb.unwrap()).contains(k) by {
                        assert(holds_key(kept@, k) == r.evictable().unwrap().contains(k));
                        assert(holds_key(a@, k) == ea.unwrap().contains(k));
                        assert(holds_key(b@, k) == eb.unwrap().contains(k));
                    }
                }
                r
            },
            _ => StateEvictHint::CannotEvict,
        }
    }
}

/// The window currently being computed: the key of the row it belongs to
/// (`None` while that row has not arrived) and whether all its input is there.
pub struct CurrWindow {
    pub key: Option<StateKey>,
    pub is_ready: bool,
}

/// The incremental evaluator of one window-function call over one partition.
///
/// It keeps the observations that its current and later windows may still
/// need, from `first_needed` of the current row onwards.
pub struct WindowState {
    kind: WindowFuncKind,
    buf: Vec<(StateKey, Datum)>,
    curr_off: usize,
    pos: u64,
    hist: Ghost<Seq<Entry>>,
    base: Ghost<nat>,
}

/// Sum of the values of `s` that are not NULL, one value at a time.
fn frame_sum(buf: &Vec<(StateKey, Datum)>, end: usize) -> (r: Result<Datum, WindowError>)
    requires
        end <= buf.len(),
    ensures
        r == sum_output(buf@.subrange(0, end as int).map_values(|e: (StateKey, Datum)| e.1)),
{
    let ghost frame = buf@.subrange(0, end as int).map_values(|e: (StateKey, Datum)| e.1);
    assert(frame.len() == end);
    assert forall|t: int| 0 <= t < end implies #[trigger] frame[t] == buf@[t].1 by {
        assert(frame[t] == buf@.subrange(0, end as int)[t].1);
    }
    let mut acc: i128 = 0;
    let mut count: usize = 0;
    let mut j: usize = 0;
    while j < end
        invariant
            j <= end <= buf.len(),
            frame.len() == end,
            forall|t: int| 0 <= t < end ==> #[trigger] frame[t] == buf@[t].1,
            acc as int == datum_sum(frame.subrange(0, j as int)),
            count as nat == datum_count(frame.subrange(0, j as int)),
            count <= j,
            -(j as int) * 0x8000_0000_0000_0000 <= acc as int <= (j as int) * 0x7fff_ffff_ffff_ffff,
        decreases end - j,
    {
        assert(frame.subrange(0, j + 1).drop_last() =~= frame.subrange(0, j as int));
        assert(frame[j as int] == buf@[j as int].1);
        let ghost jj = j as int;
        assert(jj < 0x1_0000_0000_0000_0000) by {
            assert(j <= usize::MAX);
        }
        match buf[j].1 {
            Some(v) => {
                assert(-(jj + 1) * 0x8000_0000_0000_0000 == -jj * 0x8000_0000_0000_0000 - 0x8000_0000_0000_0000) by (nonlinear_arith);
                assert((jj + 1) * 0x7fff_ffff_ffff_ffff == jj * 0x7fff_ffff_ffff_ffff + 0x7fff_ffff_ffff_ffff) by (nonlinear_arith);
                assert((jj + 1) * 0x8000_0000_0000_0000 <= 0x1_0000_0000_0000_0000 * 0x8000_0000_0000_0000) by (nonlinear_arith)
                    requires jj + 1 <= 0x1_0000_0000_0000_0000;
                acc = acc + v as i128;
                count = count + 1;
            },
            None => {
                assert(-(jj + 1) * 0x8000_0000_0000_0000 <= -jj * 0x8000_0000_0000_0000) by (nonlinear_arith);
                assert((jj + 1) * 0x7fff_ffff_ffff_ffff >= jj * 0x7fff_ffff_ffff_ffff) by (nonlinear_arith);
            },
        }
        j += 1;
    }
    assert(frame.subrange(0, end as int) =~= frame);
    if count == 0 {
        Ok(None)
    } else if acc >= i64::MIN as i128 && acc <= i64::MAX as i128 {
        Ok(Some(acc as i64))
    } else {
        Err(WindowError::Overflow)
    }
}

impl WindowState {
    /// The function this state evaluates.
    pub closed spec fn kind(&self) -> WindowFuncKind {
        self.kind
    }

    /// Every observation appended so far, in order.
    pub closed spec fn history(&self) -> Seq<Entry> {
        self.hist@
    }

    /// The position in `history` of the row whose window is current.
    pub closed spec fn curr(&self) -> nat {
        (self.base@ + self.curr_off) as nat
    }

    /// The observations kept in memory.
    pub closed spec fn retained(&self) -> Seq<Entry> {
        self.buf@.map_values(|e: (StateKey, Datum)| (e.0@, e.1))
    }

    pub closed spec fn wf(&self) -> bool {
        &&& self.retained() == self.hist@.subrange(self.base@ as int, self.hist@.len() as int)
        &&& self.base@ <= self.hist@.len()
        &&& self.curr_off <= self.buf.len()
        &&& self.base@ == first_needed(self.kind, self.curr())
        &&& self.pos as int == if self.curr() < u64::MAX {
            self.curr() as int
        } else {
            u64::MAX as int
        }
        &&& keys_ascending(self.hist@)
    }

    /// Whether the current window has all its input.
    pub open spec fn ready(&self) -> bool {
        window_ready(self.kind(), self.history().len(), self.curr())
    }

    /// The key of the current window, `None` while its row has not arrived.
    pub open spec fn window_key(&self) -> Option<(i64, Seq<u8>)> {
        if self.curr() < self.history().len() {
            Some(self.history()[self.curr() as int].0)
        } else {
            None
        }
    }

    /// What this state keeps in memory is exactly what its current and later
    /// windows may need.
    pub proof fn lemma_retained(&self)
        requires
            self.wf(),
        ensures
            self.retained() == self.history().subrange(
                first_needed(self.kind(), self.curr()) as int,
                self.history().len() as int,
            ),
            first_needed(self.kind(), self.curr()) <= self.curr() <= self.history().len(),
    {
        assert(self.retained().len() == self.buf@.len());
        assert(self.hist@.subrange(self.base@ as int, self.hist@.len() as int).len() == self.hist@.len() - self.base@);
    }

    proof fn lemma_lens(&self)
        requires
            self.wf(),
        ensures
            self.buf@.len() + self.base@ == self.hist@.len(),
            self.curr() <= self.hist@.len(),
            forall|j: int| 0 <= j < self.buf@.len() ==> (#[trigger] self.buf@[j]).0@ == self.hist@[self.base@ + j].0 && self.buf@[j].1 == self.hist@[self.base@ + j].1,
    {
        assert(self.retained().len() == self.buf@.len());
        assert forall|j: int| 0 <= j < self.buf@.len() implies (#[trigger] self.buf@[j]).0@ == self.hist@[self.base@ + j].0 && self.buf@[j].1 == self.hist@[self.base@ + j].1 by {
            assert(self.retained()[j] == self.hist@.subrange(self.base@ as int, self.hist@.len() as int)[j]);
        }
    }

    /// An empty state for one call.
    pub fn new(kind: WindowFuncKind) -> (r: WindowState)
        ensures
            r.wf(),
            r.kind() == kind,
            r.history() == Seq::<Entry>::empty(),
            r.curr() == 0,
    {
        let r = WindowState {
            kind,
            buf: Vec::new(),
            curr_off: 0,
            pos: 0,
            hist: Ghost(Seq::empty()),
            base: Ghost(0),
        };
        assert(r.retained() =~= r.hist@.subrange(0, 0));
        r
    }

    /// Records an observation; its key comes after every key recorded before.
    pub fn append(&mut self, key: StateKey, arg: Datum)
        requires
            old(self).wf(),
            old(self).history().len() > 0 ==> key_lt(old(self).history().last().0, key@),
        ensures
            final(self).wf(),
            final(self).kind() == old(self).kind(),
            final(self).curr() == old(self).curr(),
            final(self).history() == old(self).history().push((key@, arg)),
    {
        let ghost k = key@;
        let ghost h = self.hist@;
        proof {
            self.lemma_lens();
        }
        self.buf.push((key, arg));
        self.hist = Ghost(h.push((k, arg)));
        proof {
            assert(self.retained() =~= self.hist@.subrange(self.base@ as int, self.hist@.len() as int));
            assert forall|j: int| 0 <= j < self.hist@.len() - 1 implies #[trigger] key_lt(
                self.hist@[j].0,
                self.hist@[j + 1].0,
            ) by {
                if j < h.len() - 1 {
                    assert(key_lt(h[j].0, h[j + 1].0));
                }
            }
        }
    }

    /// Whether the current window has all its input.
    pub fn is_ready(&self) -> (r: bool)
        requires
            self.wf(),
        ensures
            r == self.ready(),
    {
        proof {
            self.lemma_lens();
        }
        self.kind.following_rows() < self.buf.len() - self.curr_off
    }

    /// The current window: the key of its row and whether it is ready.
    pub fn curr_window(&self) -> (r: CurrWindow)
        requires
            self.wf(),
        ensures
            r.is_ready == self.ready(),
            match (r.key, self.window_key()) {
                (Some(a), Some(b)) => a@ == b,
                (None, None) => true,
                _ => false,
            },
    {
        proof {
            self.lemma_lens();
        }
        let key = if self.curr_off < self.buf.len() {
            Some(self.buf[self.curr_off].0.duplicate())
        } else {
            None
        };
        CurrWindow { key, is_ready: self.is_ready() }
    }

    /// The function's value for the current window.
    pub fn curr_output(&self) -> (r: Result<Datum, WindowError>)
        requires
            self.wf(),
            self.ready(),
        ensures
            r == window_output(self.kind(), args_of(self.history()), self.curr() as int),
    {
        let ghost args = args_of(self.hist@);
        let ghost c = self.curr() as int;
        proof {
            self.lemma_lens();
        }
        match self.kind {
            WindowFuncKind::RowNumber => {
                if self.pos < i64::MAX as u64 {
                    Ok(Some(self.pos as i64 + 1))
                } else {
                    Err(WindowError::Overflow)
                }
            },
            WindowFuncKind::Lag { offset } => {
                if self.curr_off == offset {
                    Ok(self.buf[0].1)
                } else {
                    Ok(None)
                }
            },
            WindowFuncKind::Lead { offset } => Ok(self.buf[self.curr_off + offset].1),
            WindowFuncKind::Sum { preceding, following } => {
                let end = self.curr_off + following + 1;
                let r = frame_sum(&self.buf, end);
                proof {
                    let lo = first_needed(self.kind, self.curr());
                    assert(lo == self.base@);
                    assert(self.buf@.subrange(0, end as int).map_values(|e: (StateKey, Datum)| e.1)
                        =~= args.subrange(lo as int, c + following + 1));
                }
                r
            },
        }
    }

    /// Moves to the next window; the hint holds the keys that no window from
    /// now on will need.
    pub fn slide_forward(&mut self) -> (r: StateEvictHint)
        requires
            old(self).wf(),
            old(self).ready(),
        ensures
            final(self).wf(),
            final(self).kind() == old(self).kind(),
            final(self).history() == old(self).history(),
            final(self).curr() == old(self).curr() + 1,
            r.evictable() == if lets_rows_go(old(self).kind()) {
                Some(
                    keys_between(
                        old(self).history(),
                        first_needed(old(self).kind(), old(self).curr()) as int,
                        first_needed(old(self).kind(), old(self).curr() + 1) as int,
                    ),
                )
            } else {
                None
            },
    {
        let ghost h = self.hist@;
        let ghost b0 = self.base@;
        let ghost c0 = self.curr();
        proof {
            self.lemma_lens();
        }
        if self.pos < u64::MAX {
            self.pos = self.pos + 1;
        }
        if self.curr_off == self.kind.preceding_rows() {
            let (k, _) = self.buf.remove(0);
            self.base = Ghost(b0 + 1);
            let mut keys: Vec<StateKey> = Vec::new();
            proof {
                assert(self.retained() =~= h.subrange(self.base@ as int, h.len() as int));
            }
            keys.push(k);
            if let WindowFuncKind::RowNumber = self.kind {
                return StateEvictHint::CannotEvict;
            }
            let r = StateEvictHint::CanEvict(keys);
            proof {
                assert(r.evictable().unwrap() =~= keys_between(h, b0 as int, b0 + 1int)) by {
                    assert forall|kk: (i64, Seq<u8>)| r.evictable().unwrap().contains(kk) == keys_between(h, b0 as int, b0 + 1int).contains(kk) by {
                        if keys_between(h, b0 as int, b0 + 1int).contains(kk) {
                            assert(keys@[0]@ == kk);
                        }
                        if holds_key(keys@, kk) {
                            assert(h[b0 as int].0 == kk);
                        }
                    }
                }
            }
            r
        } else {
            self.curr_off = self.curr_off + 1;
            if let WindowFuncKind::RowNumber = self.kind {
                return StateEvictHint::CannotEvict;
            }
            let r = StateEvictHint::CanEvict(Vec::new());
            proof {
                assert(r.evictable().unwrap() =~= keys_between(h, b0 as int, b0 as int));
            }
            r
        }
    }

    /// Number of observations kept in memory.
    pub fn retained_len(&self) -> (r: usize)
        requires
            self.wf(),
        ensures
            r == self.retained().len(),
    {
        self.buf.len()
    }
}

} // verus!
