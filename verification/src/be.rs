//! Big-endian encoding of unsigned 64-bit integers.

use vstd::prelude::*;

verus! {

/// The eight big-endian bytes of `x`.
pub open spec fn u64_be_bytes(x: u64) -> Seq<u8> {
    seq![
        (x >> 56u64) as u8,
        (x >> 48u64) as u8,
        (x >> 40u64) as u8,
        (x >> 32u64) as u8,
        (x >> 24u64) as u8,
        (x >> 16u64) as u8,
        (x >> 8u64) as u8,
        x as u8,
    ]
}

/// The integer whose big-endian bytes are the first eight of `b`.
pub open spec fn u64_from_be_bytes(b: Seq<u8>) -> u64 {
    ((b[0] as u64) << 56u64) | ((b[1] as u64) << 48u64) | ((b[2] as u64) << 40u64) | ((b[3] as u64)
        << 32u64) | ((b[4] as u64) << 24u64) | ((b[5] as u64) << 16u64) | ((b[6] as u64) << 8u64)
        | (b[7] as u64)
}

/// Decoding the encoding of an integer gives the integer back.
pub proof fn lemma_u64_be_roundtrip(x: u64)
    ensures
        u64_from_be_bytes(u64_be_bytes(x)) == x,
{
    let b = u64_be_bytes(x);
    assert(b[0] == (x >> 56u64) as u8);
    assert(b[7] == x as u8);
    assert(x == ((((x >> 56u64) as u8) as u64) << 56u64) | ((((x >> 48u64) as u8) as u64) << 48u64)
        | ((((x >> 40u64) as u8) as u64) << 40u64) | ((((x >> 32u64) as u8) as u64) << 32u64) | ((((x
        >> 24u64) as u8) as u64) << 24u64) | ((((x >> 16u64) as u8) as u64) << 16u64) | ((((x
        >> 8u64) as u8) as u64) << 8u64) | ((x as u8) as u64)) by (bit_vector);
}

/// Encoding the integer read from eight bytes gives those bytes back.
pub proof fn lemma_u64_be_bytes_roundtrip(b: Seq<u8>)
    requires
        b.len() == 8,
    ensures
        u64_be_bytes(u64_from_be_bytes(b)) == b,
{
    let x = u64_from_be_bytes(b);
    let (b0, b1, b2, b3, b4, b5, b6, b7) = (b[0], b[1], b[2], b[3], b[4], b[5], b[6], b[7]);
    assert({
        &&& (x >> 56u64) as u8 == b0
        &&& (x >> 48u64) as u8 == b1
        &&& (x >> 40u64) as u8 == b2
        &&& (x >> 32u64) as u8 == b3
        &&& (x >> 24u64) as u8 == b4
        &&& (x >> 16u64) as u8 == b5
        &&& (x >> 8u64) as u8 == b6
        &&& x as u8 == b7
    }) by (bit_vector)
        requires
            x == ((b0 as u64) << 56u64) | ((b1 as u64) << 48u64) | ((b2 as u64) << 40u64) | ((
            b3 as u64) << 32u64) | ((b4 as u64) << 24u64) | ((b5 as u64) << 16u64) | ((b6 as u64)
                << 8u64) | (b7 as u64),
    ;
    assert(u64_be_bytes(x) =~= b);
}

/// Distinct integers have distinct encodings.
pub proof fn lemma_u64_be_bytes_injective(x: u64, y: u64)
    requires
        u64_be_bytes(x) == u64_be_bytes(y),
    ensures
        x == y,
{
    lemma_u64_be_roundtrip(x);
    lemma_u64_be_roundtrip(y);
}

/// Appends the big-endian bytes of `x` to `buf`.
pub fn put_u64(buf: &mut Vec<u8>, x: u64)
    ensures
        final(buf)@ == old(buf)@ + u64_be_bytes(x),
{
    buf.push((x >> 56u64) as u8);
    buf.push((x >> 48u64) as u8);
    buf.push((x >> 40u64) as u8);
    buf.push((x >> 32u64) as u8);
    buf.push((x >> 24u64) as u8);
    buf.push((x >> 16u64) as u8);
    buf.push((x >> 8u64) as u8);
    buf.push(x as u8);
    assert(final(buf)@ =~= old(buf)@ + u64_be_bytes(x));
}

/// Reads the big-endian integer held in `buf[at..at + 8]`.
pub fn get_u64(buf: &[u8], at: usize) -> (x: u64)
    requires
        at + 8 <= buf@.len(),
    ensures
        x == u64_from_be_bytes(buf@.subrange(at as int, at + 8)),
{
    ((buf[at] as u64) << 56u64) | ((buf[at + 1] as u64) << 48u64) | ((buf[at + 2] as u64) << 40u64)
        | ((buf[at + 3] as u64) << 32u64) | ((buf[at + 4] as u64) << 24u64) | ((buf[at + 5] as u64)
        << 16u64) | ((buf[at + 6] as u64) << 8u64) | (buf[at + 7] as u64)
}

/// The integer whose big-endian bytes are `b[at..at + 8]`, by place value.
pub open spec fn be_at(b: Seq<u8>, at: int) -> int {
    b[at] * 0x100_0000_0000_0000int + b[at + 1] * 0x1_0000_0000_0000int + b[at + 2]
        * 0x100_0000_0000int + b[at + 3] * 0x1_0000_0000int + b[at + 4] * 0x100_0000int + b[at + 5]
        * 0x1_0000int + b[at + 6] * 0x100int + b[at + 7]
}

/// The eight bytes of `x` read back by place value give `x`.
pub proof fn lemma_be_at_u64_bytes(x: u64)
    ensures
        u64_be_bytes(x).len() == 8,
        be_at(u64_be_bytes(x), 0) == x,
{
    let b = u64_be_bytes(x);
    let (b0, b1, b2, b3, b4, b5, b6, b7) = (b[0], b[1], b[2], b[3], b[4], b[5], b[6], b[7]);
    assert(x == b0 as u64 * 0x100_0000_0000_0000u64 + b1 as u64 * 0x1_0000_0000_0000u64 + b2 as u64
        * 0x100_0000_0000u64 + b3 as u64 * 0x1_0000_0000u64 + b4 as u64 * 0x100_0000u64 + b5 as u64
        * 0x1_0000u64 + b6 as u64 * 0x100u64 + b7 as u64) by (bit_vector)
        requires
            b0 == (x >> 56u64) as u8,
            b1 == (x >> 48u64) as u8,
            b2 == (x >> 40u64) as u8,
            b3 == (x >> 32u64) as u8,
            b4 == (x >> 24u64) as u8,
            b5 == (x >> 16u64) as u8,
            b6 == (x >> 8u64) as u8,
            b7 == x as u8,
    ;
}

/// `be_at` reads the big-endian integer stored at `at`.
pub proof fn lemma_be_at_stored(b: Seq<u8>, at: int, x: u64)
    requires
        0 <= at,
        at + 8 <= b.len(),
        b.subrange(at, at + 8) == u64_be_bytes(x),
    ensures
        be_at(b, at) == x,
{
    lemma_be_at_u64_bytes(x);
    let e = u64_be_bytes(x);
    assert forall|i: int| 0 <= i < 8 implies b[at + i] == e[i] by {
        assert(b.subrange(at, at + 8)[i] == b[at + i]);
    }
}

/// Eight bytes whose big-endian value is `x` are the encoding of `x`.
pub proof fn lemma_be_at_determines(b: Seq<u8>, x: u64)
    requires
        b.len() == 8,
        be_at(b, 0) == x,
    ensures
        b == u64_be_bytes(x),
{
    let (b0, b1, b2, b3, b4, b5, b6, b7) = (b[0], b[1], b[2], b[3], b[4], b[5], b[6], b[7]);
    assert({
        &&& (x >> 56u64) as u8 == b0
        &&& (x >> 48u64) as u8 == b1
        &&& (x >> 40u64) as u8 == b2
        &&& (x >> 32u64) as u8 == b3
        &&& (x >> 24u64) as u8 == b4
        &&& (x >> 16u64) as u8 == b5
        &&& (x >> 8u64) as u8 == b6
        &&& x as u8 == b7
    }) by (bit_vector)
        requires
            x == b0 as u64 * 0x100_0000_0000_0000u64 + b1 as u64 * 0x1_0000_0000_0000u64 + b2 as u64
                * 0x100_0000_0000u64 + b3 as u64 * 0x1_0000_0000u64 + b4 as u64 * 0x100_0000u64 + b5
                as u64 * 0x1_0000u64 + b6 as u64 * 0x100u64 + b7 as u64,
    ;
    assert(b =~= u64_be_bytes(x));
}

} // verus!
