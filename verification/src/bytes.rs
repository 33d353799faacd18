//! Byte-wise wrapping arithmetic and little-endian integer codecs.
//!
//! Journal records hold per-byte deltas `old - new` computed with wrapping
//! subtraction; undo adds them back with wrapping addition. Record headers
//! and block indices are little-endian 64-bit integers.

use vstd::prelude::*;

verus! {

/// Wrapping addition of two bytes: how a journaled delta is applied.
pub open spec fn byte_add(a: u8, b: u8) -> u8 {
    if a + b > 255 {
        (a + b - 256) as u8
    } else {
        (a + b) as u8
    }
}

/// Wrapping subtraction of two bytes: how a journaled delta is computed.
pub open spec fn byte_sub(a: u8, b: u8) -> u8 {
    if a - b < 0 {
        (a - b + 256) as u8
    } else {
        (a - b) as u8
    }
}

/// Adding a recorded delta back undoes the mutation it was computed from:
/// `new + (old - new) == old`.
pub proof fn lemma_byte_undo(old_byte: u8, new_byte: u8)
    ensures
        byte_add(new_byte, byte_sub(old_byte, new_byte)) == old_byte,
{
}

/// Wrapping byte addition commutes with itself: adding two deltas to a byte
/// gives the same result in either order.
pub proof fn lemma_byte_add_exchange(x: u8, a: u8, b: u8)
    ensures
        byte_add(byte_add(x, a), b) == byte_add(byte_add(x, b), a),
{
}

pub fn wrap_add(a: u8, b: u8) -> (r: u8)
    ensures
        r == byte_add(a, b),
{
    a.wrapping_add(b)
}

pub fn wrap_sub(a: u8, b: u8) -> (r: u8)
    ensures
        r == byte_sub(a, b),
{
    a.wrapping_sub(b)
}

/// The eight bytes of `v`, least significant first.
pub open spec fn u64_le(v: u64) -> Seq<u8> {
    seq![
        (v & 0xff) as u8,
        ((v >> 8) & 0xff) as u8,
        ((v >> 16) & 0xff) as u8,
        ((v >> 24) & 0xff) as u8,
        ((v >> 32) & 0xff) as u8,
        ((v >> 40) & 0xff) as u8,
        ((v >> 48) & 0xff) as u8,
        ((v >> 56) & 0xff) as u8,
    ]
}

/// The value stored in eight little-endian bytes.
pub open spec fn u64_from_le(b: Seq<u8>) -> u64
    recommends
        b.len() == 8,
{
    (b[0] as u64) | ((b[1] as u64) << 8) | ((b[2] as u64) << 16) | ((b[3] as u64) << 24) | ((
    b[4] as u64) << 32) | ((b[5] as u64) << 40) | ((b[6] as u64) << 48) | ((b[7] as u64) << 56)
}

pub proof fn lemma_u64_le_decode(v: u64)
    ensures
        u64_from_le(u64_le(v)) == v,
{
    assert((((v & 0xff) as u8) as u64) | ((((v >> 8) & 0xff) as u8) as u64) << 8 | ((((v >> 16)
        & 0xff) as u8) as u64) << 16 | ((((v >> 24) & 0xff) as u8) as u64) << 24 | ((((v >> 32)
        & 0xff) as u8) as u64) << 32 | ((((v >> 40) & 0xff) as u8) as u64) << 40 | ((((v >> 48)
        & 0xff) as u8) as u64) << 48 | ((((v >> 56) & 0xff) as u8) as u64) << 56 == v)
        by (bit_vector);
}

pub proof fn lemma_u64_le_encode(b: Seq<u8>)
    requires
        b.len() == 8,
    ensures
        u64_le(u64_from_le(b)) == b,
{
    let v = u64_from_le(b);
    let (x0, x1, x2, x3) = (b[0], b[1], b[2], b[3]);
    let (x4, x5, x6, x7) = (b[4], b[5], b[6], b[7]);
    assert({
        let w = (x0 as u64) | ((x1 as u64) << 8) | ((x2 as u64) << 16) | ((x3 as u64) << 24) | ((
        x4 as u64) << 32) | ((x5 as u64) << 40) | ((x6 as u64) << 48) | ((x7 as u64) << 56);
        (w & 0xff) as u8 == x0 && ((w >> 8) & 0xff) as u8 == x1 && ((w >> 16) & 0xff) as u8 == x2
            && ((w >> 24) & 0xff) as u8 == x3 && ((w >> 32) & 0xff) as u8 == x4 && ((w >> 40)
            & 0xff) as u8 == x5 && ((w >> 48) & 0xff) as u8 == x6 && ((w >> 56) & 0xff) as u8 == x7
    }) by (bit_vector);
    assert(u64_le(v) =~= b);
}

/// Two values with the same encoding are equal.
pub proof fn lemma_u64_le_injective(a: u64, b: u64)
    requires
        u64_le(a) == u64_le(b),
    ensures
        a == b,
{
    lemma_u64_le_decode(a);
    lemma_u64_le_decode(b);
}

pub fn u64_to_le(v: u64) -> (r: Vec<u8>)
    ensures
        r@ == u64_le(v),
{
    let mut r: Vec<u8> = Vec::new();
    r.push((v & 0xff) as u8);
    r.push(((v >> 8) & 0xff) as u8);
    r.push(((v >> 16) & 0xff) as u8);
    r.push(((v >> 24) & 0xff) as u8);
    r.push(((v >> 32) & 0xff) as u8);
    r.push(((v >> 40) & 0xff) as u8);
    r.push(((v >> 48) & 0xff) as u8);
    r.push(((v >> 56) & 0xff) as u8);
    assert(r@ =~= u64_le(v));
    r
}

/// Reads the eight little-endian bytes at `pos`.
pub fn u64_read_le(b: &[u8], pos: usize) -> (r: u64)
    requires
        pos + 8 <= b@.len(),
    ensures
        r == u64_from_le(b@.subrange(pos as int, pos as int + 8)),
{
    let r = (b[pos] as u64) | ((b[pos + 1] as u64) << 8) | ((b[pos + 2] as u64) << 16) | ((b[pos
        + 3] as u64) << 24) | ((b[pos + 4] as u64) << 32) | ((b[pos + 5] as u64) << 40) | ((b[pos
        + 6] as u64) << 48) | ((b[pos + 7] as u64) << 56);
    proof {
        let s = b@.subrange(pos as int, pos as int + 8);
        assert(s[0] == b@[pos as int] && s[1] == b@[pos as int + 1] && s[2] == b@[pos as int + 2]
            && s[3] == b@[pos as int + 3] && s[4] == b@[pos as int + 4] && s[5] == b@[pos as int
            + 5] && s[6] == b@[pos as int + 6] && s[7] == b@[pos as int + 7]);
    }
    r
}

/// The four bytes of `v`, least significant first.
pub open spec fn u32_le(v: u32) -> Seq<u8> {
    seq![
        (v & 0xff) as u8,
        ((v >> 8) & 0xff) as u8,
        ((v >> 16) & 0xff) as u8,
        ((v >> 24) & 0xff) as u8,
    ]
}

/// The value stored in four little-endian bytes.
pub open spec fn u32_from_le(b: Seq<u8>) -> u32
    recommends
        b.len() == 4,
{
    (b[0] as u32) | ((b[1] as u32) << 8) | ((b[2] as u32) << 16) | ((b[3] as u32) << 24)
}

pub proof fn lemma_u32_le_decode(v: u32)
    ensures
        u32_from_le(u32_le(v)) == v,
{
    assert((((v & 0xff) as u8) as u32) | ((((v >> 8) & 0xff) as u8) as u32) << 8 | ((((v >> 16)
        & 0xff) as u8) as u32) << 16 | ((((v >> 24) & 0xff) as u8) as u32) << 24 == v)
        by (bit_vector);
}

pub proof fn lemma_u32_le_encode(b: Seq<u8>)
    requires
        b.len() == 4,
    ensures
        u32_le(u32_from_le(b)) == b,
{
    let (x0, x1, x2, x3) = (b[0], b[1], b[2], b[3]);
    assert({
        let w = (x0 as u32) | ((x1 as u32) << 8) | ((x2 as u32) << 16) | ((x3 as u32) << 24);
        (w & 0xff) as u8 == x0 && ((w >> 8) & 0xff) as u8 == x1 && ((w >> 16) & 0xff) as u8 == x2
            && ((w >> 24) & 0xff) as u8 == x3
    }) by (bit_vector);
    assert(u32_le(u32_from_le(b)) =~= b);
}

pub fn u32_to_le(v: u32) -> (r: Vec<u8>)
    ensures
        r@ == u32_le(v),
{
    let mut r: Vec<u8> = Vec::new();
    r.push((v & 0xff) as u8);
    r.push(((v >> 8) & 0xff) as u8);
    r.push(((v >> 16) & 0xff) as u8);
    r.push(((v >> 24) & 0xff) as u8);
    assert(r@ =~= u32_le(v));
    r
}

/// `n` zero bytes.
pub open spec fn zeros(n: nat) -> Seq<u8> {
    Seq::new(n, |i: int| 0u8)
}

/// `data` with the bytes at `[at, at + src.len())` replaced by `src`.
pub open spec fn splice(data: Seq<u8>, at: int, src: Seq<u8>) -> Seq<u8>
    recommends
        0 <= at,
        at + src.len() <= data.len(),
{
    data.subrange(0, at) + src + data.subrange(at + src.len(), data.len() as int)
}

pub proof fn lemma_splice_index(data: Seq<u8>, at: int, src: Seq<u8>)
    requires
        0 <= at,
        at + src.len() <= data.len(),
    ensures
        splice(data, at, src).len() == data.len(),
        forall|i: int|
            0 <= i < data.len() ==> #[trigger] splice(data, at, src)[i] == if at <= i < at
                + src.len() {
                src[i - at]
            } else {
                data[i]
            },
{
}

/// Writing a range and reading it back yields the written bytes.
pub proof fn lemma_splice_then_read(data: Seq<u8>, at: int, src: Seq<u8>)
    requires
        0 <= at,
        at + src.len() <= data.len(),
    ensures
        splice(data, at, src).subrange(at, at + src.len()) == src,
{
    assert(splice(data, at, src).subrange(at, at + src.len()) =~= src);
}

/// Appends `n` zero bytes.
pub fn push_zeros(v: &mut Vec<u8>, n: usize)
    ensures
        final(v)@ == old(v)@ + zeros(n as nat),
{
    let ghost orig = v@;
    let mut k: usize = 0;
    while k < n
        invariant
            k <= n,
            v@ == orig + zeros(k as nat),
        decreases n - k,
    {
        v.push(0);
        assert(v@ =~= orig + zeros((k + 1) as nat));
        k = k + 1;
    }
    assert(v@ =~= orig + zeros(n as nat));
}

/// Appends the bytes `src[from..to]`.
pub fn push_range(v: &mut Vec<u8>, src: &[u8], from: usize, to: usize)
    requires
        from <= to,
        to <= src@.len(),
    ensures
        final(v)@ == old(v)@ + src@.subrange(from as int, to as int),
{
    let ghost orig = v@;
    let mut k: usize = from;
    while k < to
        invariant
            from <= k <= to,
            to <= src@.len(),
            v@ == orig + src@.subrange(from as int, k as int),
        decreases to - k,
    {
        v.push(src[k]);
        assert(v@ =~= orig + src@.subrange(from as int, (k + 1) as int));
        k = k + 1;
    }
}

pub fn u32_read_le(b: &[u8], pos: usize) -> (r: u32)
    requires
        pos + 4 <= b@.len(),
    ensures
        r == u32_from_le(b@.subrange(pos as int, pos as int + 4)),
{
    let r = (b[pos] as u32) | ((b[pos + 1] as u32) << 8) | ((b[pos + 2] as u32) << 16) | ((b[pos
        + 3] as u32) << 24);
    proof {
        let s = b@.subrange(pos as int, pos as int + 4);
        assert(s[0] == b@[pos as int] && s[1] == b@[pos as int + 1] && s[2] == b@[pos as int + 2]
            && s[3] == b@[pos as int + 3]);
    }
    r
}

} // verus!
