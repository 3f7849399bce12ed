use vstd::prelude::*;

use crate::window_state::Datum;

verus! {

/// An `i64` moved to `u64` so that unsigned order matches signed order.
pub open spec fn biased(v: i64) -> u64 {
    (v as int - i64::MIN as int) as u64
}

/// Eight bytes, most significant first.
pub open spec fn be_bytes(x: u64) -> Seq<u8> {
    seq![
        ((x >> 56u64) % 256) as u8,
        ((x >> 48u64) % 256) as u8,
        ((x >> 40u64) % 256) as u8,
        ((x >> 32u64) % 256) as u8,
        ((x >> 24u64) % 256) as u8,
        ((x >> 16u64) % 256) as u8,
        ((x >> 8u64) % 256) as u8,
        (x % 256) as u8,
    ]
}

/// The memcomparable encoding of one ascending datum: a tag byte that puts
/// NULL last, then the biased value in big-endian order.
pub open spec fn encode_datum(d: Datum) -> Seq<u8> {
    match d {
        Some(v) => seq![0u8] + be_bytes(biased(v)),
        None => seq![1u8],
    }
}

/// The memcomparable encoding of a row: the encodings of its datums, in order.
pub open spec fn encode_row(row: Seq<Datum>) -> Seq<u8>
    decreases row.len(),
{
    if row.len() == 0 {
        Seq::empty()
    } else {
        encode_row(row.drop_last()) + encode_datum(row.last())
    }
}

fn push_datum(out: &mut Vec<u8>, d: Datum)
    ensures
        final(out)@ == old(out)@ + encode_datum(d),
{
    match d {
        Some(v) => {
            let x: u64 = if v >= 0 {
                v as u64 + 0x8000_0000_0000_0000u64
            } else {
                (v + i64::MAX + 1) as u64
            };
            assert(x == biased(v));
            let ghost o = out@;
            out.push(0u8);
            out.push(((x >> 56u64) % 256) as u8);
            out.push(((x >> 48u64) % 256) as u8);
            out.push(((x >> 40u64) % 256) as u8);
            out.push(((x >> 32u64) % 256) as u8);
            out.push(((x >> 24u64) % 256) as u8);
            out.push(((x >> 16u64) % 256) as u8);
            out.push(((x >> 8u64) % 256) as u8);
            out.push((x % 256) as u8);
            assert(out@ =~= o + encode_datum(d));
        },
        None => {
            let ghost o = out@;
            out.push(1u8);
            assert(out@ =~= o + encode_datum(d));
        },
    }
}

/// Encodes the columns `indices` of `row`, in that order.
pub fn encode_projection(row: &Vec<Datum>, indices: &Vec<usize>) -> (r: Vec<u8>)
    requires
        forall|i: int| 0 <= i < indices.len() ==> #[trigger] indices@[i] < row.len(),
    ensures
        r@ == encode_row(project(row@, indices@)),
{
    let mut out: Vec<u8> = Vec::new();
    let mut i: usize = 0;
    while i < indices.len()
        invariant
            i <= indices.len(),
            forall|t: int| 0 <= t < indices.len() ==> #[trigger] indices@[t] < row.len(),
            out@ == encode_row(project(row@, indices@.subrange(0, i as int))),
        decreases indices.len() - i,
    {
        push_datum(&mut out, row[indices[i]]);
        proof {
            let p1 = project(row@, indices@.subrange(0, i + 1));
            assert(p1.drop_last() =~= project(row@, indices@.subrange(0, i as int)));
            assert(p1.last() == row@[indices@[i as int] as int]);
        }
        i += 1;
    }
    assert(indices@.subrange(0, indices.len() as int) =~= indices@);
    out
}

/// The columns `indices` of `row`, in that order.
pub open spec fn project(row: Seq<Datum>, indices: Seq<usize>) -> Seq<Datum> {
    indices.map_values(|i: usize| row[i as int])
}

/// Copies the columns `indices` of `row`, in that order.
pub fn project_row(row: &Vec<Datum>, indices: &Vec<usize>) -> (r: Vec<Datum>)
    requires
        forall|i: int| 0 <= i < indices.len() ==> #[trigger] indices@[i] < row.len(),
    ensures
        r@ == project(row@, indices@),
{
    let mut out: Vec<Datum> = Vec::new();
    let mut i: usize = 0;
    while i < indices.len()
        invariant
            i <= indices.len(),
            forall|t: int| 0 <= t < indices.len() ==> #[trigger] indices@[t] < row.len(),
            out@ == project(row@, indices@.subrange(0, i as int)),
        decreases indices.len() - i,
    {
        out.push(row[indices[i]]);
        assert(out@ =~= project(row@, indices@.subrange(0, i + 1)));
        i += 1;
    }
    assert(indices@.subrange(0, indices.len() as int) =~= indices@);
    out
}

/// A copy of a row.
pub fn copy_row(row: &Vec<Datum>) -> (r: Vec<Datum>)
    ensures
        r@ == row@,
{
    let mut out: Vec<Datum> = Vec::new();
    let mut i: usize = 0;
    while i < row.len()
        invariant
            i <= row.len(),
            out@ == row@.subrange(0, i as int),
        decreases row.len() - i,
    {
        out.push(row[i]);
        i += 1;
    }
    assert(out@ =~= row@);
    out
}

/// The encoding of a row is that of its first datum followed by that of
/// the rest.
pub proof fn lemma_encode_front(s: Seq<Datum>)
    requires
        s.len() > 0,
    ensures
        encode_row(s) == encode_datum(s[0]) + encode_row(s.drop_first()),
    decreases s.len(),
{
    if s.len() == 1 {
        assert(s.drop_last() =~= Seq::<Datum>::empty());
        assert(s.drop_first() =~= Seq::<Datum>::empty());
        assert(encode_row(s) =~= encode_datum(s[0]) + encode_row(s.drop_first()));
    } else {
        let pre = s.drop_last();
        lemma_encode_front(pre);
        assert(pre.drop_first() =~= s.drop_first().drop_last());
        assert(s.drop_first().last() == s.last());
        assert(encode_row(s) =~= encode_datum(s[0]) + encode_row(s.drop_first()));
    }
}

proof fn lemma_be_bytes_injective(x: u64, y: u64)
    requires
        be_bytes(x) == be_bytes(y),
    ensures
        x == y,
{
    assert(be_bytes(x)[0] == be_bytes(y)[0]);
    assert(be_bytes(x)[1] == be_bytes(y)[1]);
    assert(be_bytes(x)[2] == be_bytes(y)[2]);
    assert(be_bytes(x)[3] == be_bytes(y)[3]);
    assert(be_bytes(x)[4] == be_bytes(y)[4]);
    assert(be_bytes(x)[5] == be_bytes(y)[5]);
    assert(be_bytes(x)[6] == be_bytes(y)[6]);
    assert(be_bytes(x)[7] == be_bytes(y)[7]);
    assert(x == y) by (bit_vector)
        requires
            (x >> 56u64) % 256 == (y >> 56u64) % 256,
            (x >> 48u64) % 256 == (y >> 48u64) % 256,
            (x >> 40u64) % 256 == (y >> 40u64) % 256,
            (x >> 32u64) % 256 == (y >> 32u64) % 256,
            (x >> 24u64) % 256 == (y >> 24u64) % 256,
            (x >> 16u64) % 256 == (y >> 16u64) % 256,
            (x >> 8u64) % 256 == (y >> 8u64) % 256,
            x % 256 == y % 256,
    ;
}

/// Two rows have the same encoding only if they are equal.
pub proof fn lemma_encode_injective(a: Seq<Datum>, b: Seq<Datum>)
    requires
        encode_row(a) == encode_row(b),
    ensures
        a == b,
    decreases a.len(),
{
    if a.len() == 0 {
        if b.len() > 0 {
            lemma_encode_front(b);
            assert(encode_row(b).len() > 0);
        }
        assert(a =~= b);
    } else if b.len() == 0 {
        lemma_encode_front(a);
        assert(encode_row(a).len() > 0);
    } else {
        lemma_encode_front(a);
        lemma_encode_front(b);
        let ea = encode_datum(a[0]);
        let eb = encode_datum(b[0]);
        let e = encode_row(a);
        assert(e[0] == ea[0]);
        assert(e[0] == eb[0]);
        let n = ea.len();
        match (a[0], b[0]) {
            (Some(v), Some(w)) => {
                assert(be_bytes(biased(v)) =~= e.subrange(1, 9));
                assert(be_bytes(biased(w)) =~= e.subrange(1, 9));
                lemma_be_bytes_injective(biased(v), biased(w));
            },
            _ => {},
        }
        assert(ea == eb);
        assert(encode_row(a.drop_first()) =~= e.subrange(n as int, e.len() as int));
        assert(encode_row(b.drop_first()) =~= e.subrange(n as int, e.len() as int));
        lemma_encode_injective(a.drop_first(), b.drop_first());
        assert(a =~= seq![a[0]] + a.drop_first());
        assert(b =~= seq![b[0]] + b.drop_first());
    }
}

} // verus!
