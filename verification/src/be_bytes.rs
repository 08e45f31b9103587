//! Big-endian encodings of fixed-width unsigned integers, as used on the wire.
use vstd::prelude::*;

verus! {

/// The eight bytes of `x`, most significant first.
pub open spec fn be_u64_bytes(x: u64) -> Seq<u8> {
    seq![
        (x >> 56) as u8,
        (x >> 48) as u8,
        (x >> 40) as u8,
        (x >> 32) as u8,
        (x >> 24) as u8,
        (x >> 16) as u8,
        (x >> 8) as u8,
        x as u8,
    ]
}

/// The value of the first eight bytes of `b`, read most significant first.
pub open spec fn be_u64_value(b: Seq<u8>) -> u64 {
    (b[0] as u64) << 56 | (b[1] as u64) << 48 | (b[2] as u64) << 40 | (b[3] as u64) << 32 | (
    b[4] as u64) << 24 | (b[5] as u64) << 16 | (b[6] as u64) << 8 | (b[7] as u64)
}

/// The four bytes of `x`, most significant first.
pub open spec fn be_u32_bytes(x: u32) -> Seq<u8> {
    seq![(x >> 24) as u8, (x >> 16) as u8, (x >> 8) as u8, x as u8]
}

/// The value of the first four bytes of `b`, read most significant first.
pub open spec fn be_u32_value(b: Seq<u8>) -> u32 {
    (b[0] as u32) << 24 | (b[1] as u32) << 16 | (b[2] as u32) << 8 | (b[3] as u32)
}

/// The bytes of `x`, most significant first, as many as a `usize` holds on
/// the target: eight where it is 64 bits wide, four where it is 32.
pub open spec fn be_usize_bytes(x: usize) -> Seq<u8> {
    if usize::BITS == 64 {
        be_u64_bytes(x as u64)
    } else {
        be_u32_bytes(x as u32)
    }
}

/// Reading back the eight bytes written for `x` gives `x`.
pub proof fn lemma_be_u64_value_of_bytes(x: u64)
    ensures
        be_u64_bytes(x).len() == 8,
        be_u64_value(be_u64_bytes(x)) == x,
{
    let b = be_u64_bytes(x);
    assert(b[0] == (x >> 56) as u8);
    assert(b[7] == x as u8);
    assert(x == (((x >> 56) as u8) as u64) << 56 | (((x >> 48) as u8) as u64) << 48 | (((x
        >> 40) as u8) as u64) << 40 | (((x >> 32) as u8) as u64) << 32 | (((x >> 24) as u8) as u64)
        << 24 | (((x >> 16) as u8) as u64) << 16 | (((x >> 8) as u8) as u64) << 8 | ((x as u8) as u64))
        by (bit_vector);
}

/// Writing the value read from eight bytes gives back those bytes.
pub proof fn lemma_be_u64_bytes_of_value(b: Seq<u8>)
    requires
        b.len() == 8,
    ensures
        be_u64_bytes(be_u64_value(b)) == b,
{
    let (b0, b1, b2, b3, b4, b5, b6, b7) = (b[0], b[1], b[2], b[3], b[4], b[5], b[6], b[7]);
    let x = be_u64_value(b);
    assert(x == (b0 as u64) << 56 | (b1 as u64) << 48 | (b2 as u64) << 40 | (b3 as u64) << 32 | (
    b4 as u64) << 24 | (b5 as u64) << 16 | (b6 as u64) << 8 | (b7 as u64));
    assert(x == (b0 as u64) << 56 | (b1 as u64) << 48 | (b2 as u64) << 40 | (b3 as u64) << 32 | (
    b4 as u64) << 24 | (b5 as u64) << 16 | (b6 as u64) << 8 | (b7 as u64) ==> (x >> 56) as u8 == b0
        && (x >> 48) as u8 == b1 && (x >> 40) as u8 == b2 && (x >> 32) as u8 == b3 && (x >> 24) as u8
        == b4 && (x >> 16) as u8 == b5 && (x >> 8) as u8 == b6 && x as u8 == b7) by (bit_vector);
    assert(be_u64_bytes(x) =~= b);
}

/// Reading back the four bytes written for `x` gives `x`.
pub proof fn lemma_be_u32_value_of_bytes(x: u32)
    ensures
        be_u32_bytes(x).len() == 4,
        be_u32_value(be_u32_bytes(x)) == x,
{
    assert(x == (((x >> 24) as u8) as u32) << 24 | (((x >> 16) as u8) as u32) << 16 | (((x >> 8)
        as u8) as u32) << 8 | ((x as u8) as u32)) by (bit_vector);
}

/// Writing the value read from four bytes gives back those bytes.
pub proof fn lemma_be_u32_bytes_of_value(b: Seq<u8>)
    requires
        b.len() == 4,
    ensures
        be_u32_bytes(be_u32_value(b)) == b,
{
    let (b0, b1, b2, b3) = (b[0], b[1], b[2], b[3]);
    let x = be_u32_value(b);
    assert(x == (b0 as u32) << 24 | (b1 as u32) << 16 | (b2 as u32) << 8 | (b3 as u32) ==> (x
        >> 24) as u8 == b0 && (x >> 16) as u8 == b1 && (x >> 8) as u8 == b2 && x as u8 == b3)
        by (bit_vector);
    assert(be_u32_bytes(x) =~= b);
}

/// Appends the big-endian bytes of `x` to `buf`.
pub fn push_u64_be(buf: &mut Vec<u8>, x: u64)
    ensures
        final(buf)@ == old(buf)@ + be_u64_bytes(x),
{
    buf.push((x >> 56) as u8);
    buf.push((x >> 48) as u8);
    buf.push((x >> 40) as u8);
    buf.push((x >> 32) as u8);
    buf.push((x >> 24) as u8);
    buf.push((x >> 16) as u8);
    buf.push((x >> 8) as u8);
    buf.push(x as u8);
    assert(buf@ =~= old(buf)@ + be_u64_bytes(x));
}

/// Appends the big-endian bytes of `x` to `buf`, as many as a `usize` holds.
pub fn push_usize_be(buf: &mut Vec<u8>, x: usize)
    ensures
        final(buf)@ == old(buf)@ + be_usize_bytes(x),
{
    if usize::BITS == 64 {
        push_u64_be(buf, x as u64);
    } else {
        push_u32_be(buf, x as u32);
    }
}

/// Appends the big-endian bytes of `x` to `buf`.
pub fn push_u32_be(buf: &mut Vec<u8>, x: u32)
    ensures
        final(buf)@ == old(buf)@ + be_u32_bytes(x),
{
    buf.push((x >> 24) as u8);
    buf.push((x >> 16) as u8);
    buf.push((x >> 8) as u8);
    buf.push(x as u8);
    assert(buf@ =~= old(buf)@ + be_u32_bytes(x));
}

/// Reads a big-endian `u64` from the eight bytes of `data` that start at `pos`.
pub fn read_u64_be(data: &[u8], pos: usize) -> (x: u64)
    requires
        pos + 8 <= data@.len(),
    ensures
        x == be_u64_value(data@.subrange(pos as int, pos + 8)),
{
    let ghost s = data@.subrange(pos as int, pos + 8);
    (data[pos] as u64) << 56 | (data[pos + 1] as u64) << 48 | (data[pos + 2] as u64) << 40 | (
    data[pos + 3] as u64) << 32 | (data[pos + 4] as u64) << 24 | (data[pos + 5] as u64) << 16 | (
    data[pos + 6] as u64) << 8 | (data[pos + 7] as u64)
}

/// Reads a big-endian `u32` from the four bytes of `data` that start at `pos`.
pub fn read_u32_be(data: &[u8], pos: usize) -> (x: u32)
    requires
        pos + 4 <= data@.len(),
    ensures
        x == be_u32_value(data@.subrange(pos as int, pos + 4)),
{
    (data[pos] as u32) << 24 | (data[pos + 1] as u32) << 16 | (data[pos + 2] as u32) << 8 | (
    data[pos + 3] as u32)
}

} // verus!
