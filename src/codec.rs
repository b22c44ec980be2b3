use vstd::prelude::*;
use crate::id::Id;

verus! {

/// Byte `i` (0 is the most significant) of the big-endian encoding of `n`.
pub open spec fn be_byte(n: u64, i: int) -> u8 {
    ((n >> ((56 - 8 * i) as u64)) & 0xff) as u8
}

/// The eight-byte big-endian encoding of `n`.
pub open spec fn be_bytes(n: u64) -> Seq<u8> {
    Seq::new(8, |i: int| be_byte(n, i))
}

/// The number whose big-endian encoding is the eight bytes `b`.
pub open spec fn be_value(b: Seq<u8>) -> u64 {
    (b[0] as u64) << 56u64 | (b[1] as u64) << 48u64 | (b[2] as u64) << 40u64 | (b[3] as u64)
        << 32u64 | (b[4] as u64) << 24u64 | (b[5] as u64) << 16u64 | (b[6] as u64) << 8u64 | (
    b[7] as u64)
}

/// The sixteen-byte compound key of two identifiers: `a` first, then `b`.
pub open spec fn compound_bytes(a: u64, b: u64) -> Seq<u8> {
    be_bytes(a) + be_bytes(b)
}

/// Decoding the encoding of a number gives the number back.
pub proof fn lemma_be_round_trip(n: u64)
    ensures
        be_value(be_bytes(n)) == n,
{
    let b = be_bytes(n);
    assert(b[0] as u64 == (n >> 56u64) & 0xff) by {
        assert((((n >> 56u64) & 0xff) as u8) as u64 == (n >> 56u64) & 0xff) by (bit_vector);
    }
    assert(b[1] as u64 == (n >> 48u64) & 0xff) by {
        assert((((n >> 48u64) & 0xff) as u8) as u64 == (n >> 48u64) & 0xff) by (bit_vector);
    }
    assert(b[2] as u64 == (n >> 40u64) & 0xff) by {
        assert((((n >> 40u64) & 0xff) as u8) as u64 == (n >> 40u64) & 0xff) by (bit_vector);
    }
    assert(b[3] as u64 == (n >> 32u64) & 0xff) by {
        assert((((n >> 32u64) & 0xff) as u8) as u64 == (n >> 32u64) & 0xff) by (bit_vector);
    }
    assert(b[4] as u64 == (n >> 24u64) & 0xff) by {
        assert((((n >> 24u64) & 0xff) as u8) as u64 == (n >> 24u64) & 0xff) by (bit_vector);
    }
    assert(b[5] as u64 == (n >> 16u64) & 0xff) by {
        assert((((n >> 16u64) & 0xff) as u8) as u64 == (n >> 16u64) & 0xff) by (bit_vector);
    }
    assert(b[6] as u64 == (n >> 8u64) & 0xff) by {
        assert((((n >> 8u64) & 0xff) as u8) as u64 == (n >> 8u64) & 0xff) by (bit_vector);
    }
    assert(b[7] as u64 == (n >> 0u64) & 0xff) by {
        assert((((n >> 0u64) & 0xff) as u8) as u64 == (n >> 0u64) & 0xff) by (bit_vector);
    }
    assert(((n >> 56u64) & 0xff) << 56u64 | ((n >> 48u64) & 0xff) << 48u64 | ((n >> 40u64) & 0xff)
        << 40u64 | ((n >> 32u64) & 0xff) << 32u64 | ((n >> 24u64) & 0xff) << 24u64 | ((n >> 16u64)
        & 0xff) << 16u64 | ((n >> 8u64) & 0xff) << 8u64 | ((n >> 0u64) & 0xff) == n)
        by (bit_vector);
}

/// Encodes `n` as eight big-endian bytes.
pub fn u64_to_be(n: u64) -> (r: [u8; 8])
    ensures
        r@ == be_bytes(n),
{
    let r: [u8; 8] = [
        ((n >> 56u64) & 0xff) as u8,
        ((n >> 48u64) & 0xff) as u8,
        ((n >> 40u64) & 0xff) as u8,
        ((n >> 32u64) & 0xff) as u8,
        ((n >> 24u64) & 0xff) as u8,
        ((n >> 16u64) & 0xff) as u8,
        ((n >> 8u64) & 0xff) as u8,
        ((n >> 0u64) & 0xff) as u8,
    ];
    assert(r@ =~= be_bytes(n));
    r
}

/// Decodes eight big-endian bytes.
pub fn u64_from_be(b: &[u8; 8]) -> (r: u64)
    ensures
        r == be_value(b@),
{
    (b[0] as u64) << 56u64 | (b[1] as u64) << 48u64 | (b[2] as u64) << 40u64 | (b[3] as u64)
        << 32u64 | (b[4] as u64) << 24u64 | (b[5] as u64) << 16u64 | (b[6] as u64) << 8u64 | (
    b[7] as u64)
}

/// Byte-lexicographic order, as an ordered key-value engine sorts its keys.
pub open spec fn bytes_lt(s: Seq<u8>, t: Seq<u8>) -> bool
    decreases s.len(),
{
    if s.len() == 0 {
        t.len() > 0
    } else if t.len() == 0 {
        false
    } else {
        s[0] < t[0] || (s[0] == t[0] && bytes_lt(s.drop_first(), t.drop_first()))
    }
}

/// Keys that share a prefix are ordered by what follows it.
pub proof fn lemma_bytes_lt_common_prefix(p: Seq<u8>, x: Seq<u8>, y: Seq<u8>)
    requires
        bytes_lt(p + x, p + y),
    ensures
        bytes_lt(x, y),
    decreases p.len(),
{
    if p.len() > 0 {
        assert((p + x).drop_first() =~= p.drop_first() + x);
        assert((p + y).drop_first() =~= p.drop_first() + y);
        lemma_bytes_lt_common_prefix(p.drop_first(), x, y);
    } else {
        assert(p + x =~= x);
        assert(p + y =~= y);
    }
}

proof fn lemma_lex_lt_combined(
    a0: u64, a1: u64, a2: u64, a3: u64, a4: u64, a5: u64, a6: u64, a7: u64,
    b0: u64, b1: u64, b2: u64, b3: u64, b4: u64, b5: u64, b6: u64, b7: u64,
)
    by (bit_vector)
    requires
        a0 <= 0xff && a1 <= 0xff && a2 <= 0xff && a3 <= 0xff,
        a4 <= 0xff && a5 <= 0xff && a6 <= 0xff && a7 <= 0xff,
        b0 <= 0xff && b1 <= 0xff && b2 <= 0xff && b3 <= 0xff,
        b4 <= 0xff && b5 <= 0xff && b6 <= 0xff && b7 <= 0xff,
        a0 < b0 || (a0 == b0 && (a1 < b1 || (a1 == b1 && (a2 < b2 || (a2 == b2 && (a3 < b3 || (a3
            == b3 && (a4 < b4 || (a4 == b4 && (a5 < b5 || (a5 == b5 && (a6 < b6 || (a6 == b6
            && a7 < b7))))))))))))),
    ensures
        (a0 << 56u64 | a1 << 48u64 | a2 << 40u64 | a3 << 32u64 | a4 << 24u64
            | a5 << 16u64 | a6 << 8u64 | a7) < (b0 << 56u64 | b1 << 48u64 | b2 << 40u64 | b3 << 32u64 | b4 << 24u64
            | b5 << 16u64 | b6 << 8u64 | b7),
{
}

/// Big-endian encoding maps numeric order onto byte-lexicographic order.
pub proof fn lemma_be_order(x: Seq<u8>, y: Seq<u8>)
    requires
        x.len() == 8,
        y.len() == 8,
        bytes_lt(x, y),
    ensures
        be_value(x) < be_value(y),
{
    reveal_with_fuel(bytes_lt, 9);
    assert(x.drop_first()[0] == x[1]);
    assert(x.drop_first().drop_first()[0] == x[2]);
    assert(x.drop_first().drop_first().drop_first()[0] == x[3]);
    assert(x.drop_first().drop_first().drop_first().drop_first()[0] == x[4]);
    assert(x.drop_first().drop_first().drop_first().drop_first().drop_first()[0] == x[5]);
    assert(x.drop_first().drop_first().drop_first().drop_first().drop_first().drop_first()[0] == x[6]);
    assert(x.drop_first().drop_first().drop_first().drop_first().drop_first().drop_first().drop_first()[0] == x[7]);
    assert(y.drop_first()[0] == y[1]);
    assert(y.drop_first().drop_first()[0] == y[2]);
    assert(y.drop_first().drop_first().drop_first()[0] == y[3]);
    assert(y.drop_first().drop_first().drop_first().drop_first()[0] == y[4]);
    assert(y.drop_first().drop_first().drop_first().drop_first().drop_first()[0] == y[5]);
    assert(y.drop_first().drop_first().drop_first().drop_first().drop_first().drop_first()[0] == y[6]);
    assert(y.drop_first().drop_first().drop_first().drop_first().drop_first().drop_first().drop_first()[0] == y[7]);
    lemma_lex_lt_combined(
        x[0] as u64, x[1] as u64, x[2] as u64, x[3] as u64, x[4] as u64, x[5] as u64, x[6] as u64,
        x[7] as u64, y[0] as u64, y[1] as u64, y[2] as u64, y[3] as u64, y[4] as u64, y[5] as u64,
        y[6] as u64, y[7] as u64,
    );
}

/// The compound key of `a` and `b`: the encoding of `a` followed by that of `b`.
pub fn compound_key<T1: Id, T2: Id>(a: T1, b: T2) -> (r: [u8; 16])
    ensures
        r@ == compound_bytes(a.value(), b.value()),
{
    let a_bytes = u64_to_be(a.to_u64());
    let b_bytes = u64_to_be(b.to_u64());
    let mut dest: [u8; 16] = [0u8; 16];
    let mut i: usize = 0;
    while i < 8
        invariant
            0 <= i <= 8,
            a_bytes@ == be_bytes(a.value()),
            b_bytes@ == be_bytes(b.value()),
            dest@.len() == 16,
            forall|j: int| 0 <= j < i ==> dest@[j] == a_bytes@[j] && dest@[8 + j] == b_bytes@[j],
        decreases 8 - i,
    {
        dest[i] = a_bytes[i];
        dest[8 + i] = b_bytes[i];
        i = i + 1;
    }
    assert(dest@ =~= compound_bytes(a.value(), b.value()));
    dest
}

/// Splits a compound key into its two identifiers.
pub fn from_compound_key<T1: Id, T2: Id>(compound: &[u8; 16]) -> (r: (T1, T2))
    ensures
        r.0.value() == be_value(compound@.subrange(0, 8)),
        r.1.value() == be_value(compound@.subrange(8, 16)),
{
    let mut a_bytes: [u8; 8] = [0u8; 8];
    let mut b_bytes: [u8; 8] = [0u8; 8];
    let mut i: usize = 0;
    while i < 8
        invariant
            0 <= i <= 8,
            a_bytes@.len() == 8,
            b_bytes@.len() == 8,
            forall|j: int|
                0 <= j < i ==> a_bytes@[j] == compound@[j] && b_bytes@[j] == compound@[8 + j],
        decreases 8 - i,
    {
        a_bytes[i] = compound[i];
        b_bytes[i] = compound[8 + i];
        i = i + 1;
    }
    assert(a_bytes@ =~= compound@.subrange(0, 8));
    assert(b_bytes@ =~= compound@.subrange(8, 16));
    (T1::from_u64(u64_from_be(&a_bytes)), T2::from_u64(u64_from_be(&b_bytes)))
}

/// Splitting a compound key gives back the two identifiers it was made of.
pub proof fn lemma_compound_round_trip(a: u64, b: u64)
    ensures
        compound_bytes(a, b).len() == 16,
        be_value(compound_bytes(a, b).subrange(0, 8)) == a,
        be_value(compound_bytes(a, b).subrange(8, 16)) == b,
{
    assert(compound_bytes(a, b).subrange(0, 8) =~= be_bytes(a));
    assert(compound_bytes(a, b).subrange(8, 16) =~= be_bytes(b));
    lemma_be_round_trip(a);
    lemma_be_round_trip(b);
}

proof fn lemma_split_combined(a0: u64, a1: u64, a2: u64, a3: u64, a4: u64, a5: u64, a6: u64, a7: u64)
    by (bit_vector)
    requires
        a0 <= 0xff && a1 <= 0xff && a2 <= 0xff && a3 <= 0xff,
        a4 <= 0xff && a5 <= 0xff && a6 <= 0xff && a7 <= 0xff,
    ensures
        ((a0 << 56u64 | a1 << 48u64 | a2 << 40u64 | a3 << 32u64 | a4 << 24u64
            | a5 << 16u64 | a6 << 8u64 | a7) >> 56u64) & 0xff == a0,
        ((a0 << 56u64 | a1 << 48u64 | a2 << 40u64 | a3 << 32u64 | a4 << 24u64
            | a5 << 16u64 | a6 << 8u64 | a7) >> 48u64) & 0xff == a1,
        ((a0 << 56u64 | a1 << 48u64 | a2 << 40u64 | a3 << 32u64 | a4 << 24u64
            | a5 << 16u64 | a6 << 8u64 | a7) >> 40u64) & 0xff == a2,
        ((a0 << 56u64 | a1 << 48u64 | a2 << 40u64 | a3 << 32u64 | a4 << 24u64
            | a5 << 16u64 | a6 << 8u64 | a7) >> 32u64) & 0xff == a3,
        ((a0 << 56u64 | a1 << 48u64 | a2 << 40u64 | a3 << 32u64 | a4 << 24u64
            | a5 << 16u64 | a6 << 8u64 | a7) >> 24u64) & 0xff == a4,
        ((a0 << 56u64 | a1 << 48u64 | a2 << 40u64 | a3 << 32u64 | a4 << 24u64
            | a5 << 16u64 | a6 << 8u64 | a7) >> 16u64) & 0xff == a5,
        ((a0 << 56u64 | a1 << 48u64 | a2 << 40u64 | a3 << 32u64 | a4 << 24u64
            | a5 << 16u64 | a6 << 8u64 | a7) >> 8u64) & 0xff == a6,
        ((a0 << 56u64 | a1 << 48u64 | a2 << 40u64 | a3 << 32u64 | a4 << 24u64
            | a5 << 16u64 | a6 << 8u64 | a7) >> 0u64) & 0xff == a7,
{
}

/// Encoding the value of eight bytes gives the same bytes back.
pub proof fn lemma_be_value_round_trip(x: Seq<u8>)
    requires
        x.len() == 8,
    ensures
        be_bytes(be_value(x)) == x,
{
    lemma_split_combined(
        x[0] as u64, x[1] as u64, x[2] as u64, x[3] as u64, x[4] as u64, x[5] as u64, x[6] as u64,
        x[7] as u64,
    );
    assert(be_bytes(be_value(x)) =~= x);
}

} // verus!
