use vstd::prelude::*;

verus! {

/// Identifies one input row inside its partition: the order-key value and the
/// memcomparable encoding of the input primary key.
pub struct StateKey {
    pub order_key: i64,
    pub encoded_pk: Vec<u8>,
}

impl View for StateKey {
    type V = (i64, Seq<u8>);

    open spec fn view(&self) -> (i64, Seq<u8>) {
        (self.order_key, self.encoded_pk@)
    }
}

/// Byte-lexicographic order: `a` is a proper prefix of `b`, or the first
/// differing byte of `a` is smaller.
pub open spec fn bytes_lt(a: Seq<u8>, b: Seq<u8>) -> bool {
    exists|i: int|
        #![trigger a.subrange(0, i)]
        0 <= i <= a.len() && i <= b.len() && a.subrange(0, i) == b.subrange(0, i) && ((i
            == a.len() && i < b.len()) || (i < a.len() && i < b.len() && a[i] < b[i]))
}

/// The order of state keys: by order key, then by encoded primary key.
pub open spec fn key_lt(a: (i64, Seq<u8>), b: (i64, Seq<u8>)) -> bool {
    a.0 < b.0 || (a.0 == b.0 && bytes_lt(a.1, b.1))
}

/// A copy of a byte string.
pub fn copy_bytes(v: &Vec<u8>) -> (r: Vec<u8>)
    ensures
        r@ == v@,
{
    let mut r: Vec<u8> = Vec::with_capacity(v.len());
    let mut i: usize = 0;
    while i < v.len()
        invariant
            i <= v.len(),
            r@ == v@.subrange(0, i as int),
        decreases v.len() - i,
    {
        r.push(v[i]);
        i += 1;
    }
    assert(r@ =~= v@);
    r
}

/// Whether two byte strings are equal.
pub fn bytes_equal(a: &Vec<u8>, b: &Vec<u8>) -> (r: bool)
    ensures
        r == (a@ == b@),
{
    if a.len() != b.len() {
        return false;
    }
    let mut i: usize = 0;
    while i < a.len()
        invariant
            i <= a.len(),
            a.len() == b.len(),
            a@.subrange(0, i as int) == b@.subrange(0, i as int),
        decreases a.len() - i,
    {
        if a[i] != b[i] {
            assert(a@[i as int] != b@[i as int]);
            return false;
        }
        assert(a@.subrange(0, i + 1) =~= a@.subrange(0, i as int).push(a@[i as int]));
        assert(b@.subrange(0, i + 1) =~= b@.subrange(0, i as int).push(b@[i as int]));
        i += 1;
    }
    assert(a@ =~= a@.subrange(0, a.len() as int));
    assert(b@ =~= b@.subrange(0, b.len() as int));
    true
}

/// Whether `a` comes before `b` byte-lexicographically.
pub fn bytes_less(a: &Vec<u8>, b: &Vec<u8>) -> (r: bool)
    ensures
        r == bytes_lt(a@, b@),
{
    let mut i: usize = 0;
    while i < a.len() && i < b.len()
        invariant
            i <= a.len(),
            i <= b.len(),
            a@.subrange(0, i as int) == b@.subrange(0, i as int),
        decreases a.len() - i,
    {
        if a[i] != b[i] {
            if a[i] < b[i] {
                assert(a@.subrange(0, i as int) == b@.subrange(0, i as int));
                return true;
            }
            assert forall|j: int|
                0 <= j <= a@.len() && j <= b@.len() && #[trigger] a@.subrange(0, j)
                    == b@.subrange(0, j) implies !((j == a@.len() && j < b@.len()) || (j
                < a@.len() && j < b@.len() && a@[j] < b@[j])) by {
                if j > i {
                    assert(a@.subrange(0, j)[i as int] == b@.subrange(0, j)[i as int]);
                } else if j < i {
                    assert(a@.subrange(0, i as int)[j] == b@.subrange(0, i as int)[j]);
                }
            }
            return false;
        }
        assert(a@.subrange(0, i + 1) =~= a@.subrange(0, i as int).push(a@[i as int]));
        assert(b@.subrange(0, i + 1) =~= b@.subrange(0, i as int).push(b@[i as int]));
        i += 1;
    }
    if i == a.len() && i < b.len() {
        return true;
    }
    assert forall|j: int|
        0 <= j <= a@.len() && j <= b@.len() && #[trigger] a@.subrange(0, j) == b@.subrange(
            0,
            j,
        ) implies !((j == a@.len() && j < b@.len()) || (j < a@.len() && j < b@.len() && a@[j]
        < b@[j])) by {
        if j < i {
            assert(a@.subrange(0, i as int)[j] == b@.subrange(0, i as int)[j]);
        }
    }
    false
}

impl StateKey {
    /// A copy of this key.
    pub fn duplicate(&self) -> (r: StateKey)
        ensures
            r@ == self@,
    {
        StateKey { order_key: self.order_key, encoded_pk: copy_bytes(&self.encoded_pk) }
    }

    /// Whether two keys are equal.
    pub fn same_as(&self, other: &StateKey) -> (r: bool)
        ensures
            r == (self@ == other@),
    {
        self.order_key == other.order_key && bytes_equal(&self.encoded_pk, &other.encoded_pk)
    }

    /// Whether this key comes strictly before `other`.
    pub fn less_than(&self, other: &StateKey) -> (r: bool)
        ensures
            r == key_lt(self@, other@),
    {
        if self.order_key < other.order_key {
            true
        } else if self.order_key > other.order_key {
            false
        } else {
            bytes_less(&self.encoded_pk, &other.encoded_pk)
        }
    }
}

/// The byte order is transitive.
pub proof fn lemma_bytes_lt_transitive(a: Seq<u8>, b: Seq<u8>, c: Seq<u8>)
    requires
        bytes_lt(a, b),
        bytes_lt(b, c),
    ensures
        bytes_lt(a, c),
{
    let i = choose|i: int|
        #![trigger a.subrange(0, i)]
        0 <= i <= a.len() && i <= b.len() && a.subrange(0, i) == b.subrange(0, i) && ((i
            == a.len() && i < b.len()) || (i < a.len() && i < b.len() && a[i] < b[i]));
    let j = choose|j: int|
        #![trigger b.subrange(0, j)]
        0 <= j <= b.len() && j <= c.len() && b.subrange(0, j) == c.subrange(0, j) && ((j
            == b.len() && j < c.len()) || (j < b.len() && j < c.len() && b[j] < c[j]));
    let m = if i < j { i } else { j };
    assert forall|t: int| 0 <= t < m implies a[t] == c[t] by {
        assert(a.subrange(0, i)[t] == b.subrange(0, i)[t]);
        assert(b.subrange(0, j)[t] == c.subrange(0, j)[t]);
    }
    assert(a.subrange(0, m) =~= c.subrange(0, m));
    if i < j {
        if i < a.len() {
            assert(b.subrange(0, j)[i] == c.subrange(0, j)[i]);
        } else {
            assert(i < c.len());
        }
    } else if j < i {
        assert(a.subrange(0, i)[j] == b.subrange(0, i)[j]);
    } else {
        if i == a.len() {
            assert(i < c.len());
        }
    }
    assert(0 <= m <= a.len() && m <= c.len() && a.subrange(0, m) == c.subrange(0, m) && ((m
        == a.len() && m < c.len()) || (m < a.len() && m < c.len() && a[m] < c[m])));
}

/// No byte string comes before itself.
pub proof fn lemma_bytes_lt_irreflexive(a: Seq<u8>)
    ensures
        !bytes_lt(a, a),
{
}

/// The order of state keys is transitive.
pub proof fn lemma_key_lt_transitive(a: (i64, Seq<u8>), b: (i64, Seq<u8>), c: (i64, Seq<u8>))
    requires
        key_lt(a, b),
        key_lt(b, c),
    ensures
        key_lt(a, c),
{
    if a.0 == b.0 && b.0 == c.0 {
        lemma_bytes_lt_transitive(a.1, b.1, c.1);
    }
}

/// Keys that each come after the one before are ordered pairwise, hence
/// pairwise distinct.
pub proof fn lemma_ascending_distinct(keys: Seq<(i64, Seq<u8>)>)
    requires
        forall|j: int| 0 <= j < keys.len() - 1 ==> #[trigger] key_lt(keys[j], keys[j + 1]),
    ensures
        forall|m: int, j: int| 0 <= m < j < keys.len() ==> key_lt(#[trigger] keys[m], #[trigger] keys[j]),
        forall|m: int, j: int| 0 <= m < j < keys.len() ==> #[trigger] keys[m] != #[trigger] keys[j],
    decreases keys.len(),
{
    if keys.len() > 1 {
        let pre = keys.drop_last();
        assert forall|j: int| 0 <= j < pre.len() - 1 implies #[trigger] key_lt(pre[j], pre[j + 1]) by {
            assert(key_lt(keys[j], keys[j + 1]));
        }
        lemma_ascending_distinct(pre);
        assert forall|m: int, j: int| 0 <= m < j < keys.len() implies key_lt(#[trigger] keys[m], #[trigger] keys[j]) by {
            if j < keys.len() - 1 {
                assert(key_lt(pre[m], pre[j]));
            } else if m < j - 1 {
                assert(key_lt(pre[m], pre[j - 1]));
                let jj = j - 1;
                assert(key_lt(keys[jj], keys[jj + 1]));
                assert(jj + 1 == j);
                lemma_key_lt_transitive(keys[m], keys[j - 1], keys[j]);
            } else {
                let jj = j - 1;
                assert(key_lt(keys[jj], keys[jj + 1]));
                assert(jj + 1 == j);
            }
        }
        assert forall|m: int, j: int| 0 <= m < j < keys.len() implies #[trigger] keys[m] != #[trigger] keys[j] by {
            assert(key_lt(keys[m], keys[j]));
            if keys[m] == keys[j] {
                lemma_bytes_lt_irreflexive(keys[m].1);
            }
        }
    }
}

} // verus!
