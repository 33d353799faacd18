//! Fixed-width plain-data records, the element type of typed views.
//!
//! A `Record` is the kind of type a column may hold: it has a fixed byte
//! width, every value encodes to exactly that many bytes, the encoding is
//! injective, and every byte pattern of that width is the encoding of some
//! value. Integer types and the generation counter implement it; a caller
//! may implement it for further fixed-layout types.

use vstd::prelude::*;

use crate::bytes::{
    lemma_u32_le_decode, lemma_u32_le_encode, lemma_u64_le_decode, lemma_u64_le_encode, u32_le,
    u32_read_le, u32_to_le, u64_le, u64_read_le, u64_to_le, zeros,
};
use crate::generation::Generation;

verus! {

/// A fixed-width, bit-pattern-safe record.
pub trait Record: Sized + Copy {
    /// The record's width in bytes.
    spec fn spec_width() -> nat;

    /// The record's byte encoding.
    spec fn encoded(self) -> Seq<u8>;

    proof fn lemma_width()
        ensures
            0 < Self::spec_width() <= usize::MAX,
    ;

    proof fn lemma_encoded_len(self)
        ensures
            self.encoded().len() == Self::spec_width(),
    ;

    /// Two values with the same encoding are the same value.
    proof fn lemma_encoded_injective(a: Self, b: Self)
        requires
            a.encoded() == b.encoded(),
        ensures
            a == b,
    ;

    fn byte_width() -> (r: usize)
        ensures
            r == Self::spec_width(),
    ;

    fn to_bytes(&self) -> (r: Vec<u8>)
        ensures
            r@ == self.encoded(),
    ;

    fn from_bytes(b: &[u8]) -> (r: Self)
        requires
            b@.len() == Self::spec_width(),
        ensures
            r.encoded() == b@,
    ;

    /// The value whose encoding is all zero bytes.
    fn zeroed() -> (r: Self)
        ensures
            r.encoded() == zeros(Self::spec_width()),
    ;
}

proof fn lemma_u32_zero_encodes_to_zeros()
    ensures
        u32_le(0) == zeros(4),
{
    assert((0u32 & 0xff) as u8 == 0u8 && ((0u32 >> 8) & 0xff) as u8 == 0u8 && ((0u32 >> 16)
        & 0xff) as u8 == 0u8 && ((0u32 >> 24) & 0xff) as u8 == 0u8) by (bit_vector);
    assert(u32_le(0) =~= zeros(4));
}

impl Record for u32 {
    open spec fn spec_width() -> nat {
        4
    }

    open spec fn encoded(self) -> Seq<u8> {
        u32_le(self)
    }

    proof fn lemma_width() {
    }

    proof fn lemma_encoded_len(self) {
    }

    proof fn lemma_encoded_injective(a: Self, b: Self) {
        lemma_u32_le_decode(a);
        lemma_u32_le_decode(b);
    }

    fn byte_width() -> (r: usize) {
        4
    }

    fn to_bytes(&self) -> (r: Vec<u8>) {
        u32_to_le(*self)
    }

    fn from_bytes(b: &[u8]) -> (r: Self) {
        let r = u32_read_le(b, 0);
        proof {
            assert(b@.subrange(0, 4) =~= b@);
            lemma_u32_le_encode(b@);
        }
        r
    }

    fn zeroed() -> (r: Self) {
        proof {
            lemma_u32_zero_encodes_to_zeros();
        }
        0
    }
}

impl Record for u64 {
    open spec fn spec_width() -> nat {
        8
    }

    open spec fn encoded(self) -> Seq<u8> {
        u64_le(self)
    }

    proof fn lemma_width() {
    }

    proof fn lemma_encoded_len(self) {
    }

    proof fn lemma_encoded_injective(a: Self, b: Self) {
        lemma_u64_le_decode(a);
        lemma_u64_le_decode(b);
    }

    fn byte_width() -> (r: usize) {
        8
    }

    fn to_bytes(&self) -> (r: Vec<u8>) {
        u64_to_le(*self)
    }

    fn from_bytes(b: &[u8]) -> (r: Self) {
        let r = u64_read_le(b, 0);
        proof {
            assert(b@.subrange(0, 8) =~= b@);
            lemma_u64_le_encode(b@);
        }
        r
    }

    fn zeroed() -> (r: Self) {
        proof {
            lemma_u64_zero_encodes_to_zeros();
        }
        0
    }
}

proof fn lemma_u64_zero_encodes_to_zeros()
    ensures
        u64_le(0) == zeros(8),
{
    assert((0u64 & 0xff) as u8 == 0u8 && ((0u64 >> 8) & 0xff) as u8 == 0u8 && ((0u64 >> 16)
        & 0xff) as u8 == 0u8 && ((0u64 >> 24) & 0xff) as u8 == 0u8 && ((0u64 >> 32) & 0xff) as u8
        == 0u8 && ((0u64 >> 40) & 0xff) as u8 == 0u8 && ((0u64 >> 48) & 0xff) as u8 == 0u8 && ((
    0u64 >> 56) & 0xff) as u8 == 0u8) by (bit_vector);
    assert(u64_le(0) =~= zeros(8));
}

/// A three-component vector record of twelve bytes, each component held
/// as the bit pattern of an IEEE-754 single — the shape of a position or
/// direction attribute. The store never interprets the bits; callers
/// convert to and from floats at the edge.
#[derive(Clone, Copy, Debug, PartialEq, Eq, Structural)]
pub struct Vec3Bits {
    pub x: u32,
    pub y: u32,
    pub z: u32,
}

impl Vec3Bits {
    pub fn new(x: u32, y: u32, z: u32) -> (r: Vec3Bits)
        ensures
            r.x == x,
            r.y == y,
            r.z == z,
    {
        Vec3Bits { x, y, z }
    }
}

impl Record for Vec3Bits {
    open spec fn spec_width() -> nat {
        12
    }

    open spec fn encoded(self) -> Seq<u8> {
        u32_le(self.x) + u32_le(self.y) + u32_le(self.z)
    }

    proof fn lemma_width() {
    }

    proof fn lemma_encoded_len(self) {
    }

    proof fn lemma_encoded_injective(a: Self, b: Self) {
        assert(u32_le(a.x) =~= a.encoded().subrange(0, 4));
        assert(u32_le(a.y) =~= a.encoded().subrange(4, 8));
        assert(u32_le(a.z) =~= a.encoded().subrange(8, 12));
        assert(u32_le(b.x) =~= b.encoded().subrange(0, 4));
        assert(u32_le(b.y) =~= b.encoded().subrange(4, 8));
        assert(u32_le(b.z) =~= b.encoded().subrange(8, 12));
        lemma_u32_le_decode(a.x);
        lemma_u32_le_decode(a.y);
        lemma_u32_le_decode(a.z);
        lemma_u32_le_decode(b.x);
        lemma_u32_le_decode(b.y);
        lemma_u32_le_decode(b.z);
    }

    fn byte_width() -> (r: usize) {
        12
    }

    fn to_bytes(&self) -> (r: Vec<u8>) {
        let mut r = u32_to_le(self.x);
        let mut tail = u32_to_le(self.y);
        r.append(&mut tail);
        let mut tail = u32_to_le(self.z);
        r.append(&mut tail);
        r
    }

    fn from_bytes(b: &[u8]) -> (r: Self) {
        let r = Vec3Bits { x: u32_read_le(b, 0), y: u32_read_le(b, 4), z: u32_read_le(b, 8) };
        proof {
            lemma_u32_le_encode(b@.subrange(0, 4));
            lemma_u32_le_encode(b@.subrange(4, 8));
            lemma_u32_le_encode(b@.subrange(8, 12));
            assert(r.encoded() =~= b@);
        }
        r
    }

    fn zeroed() -> (r: Self) {
        proof {
            lemma_u32_zero_encodes_to_zeros();
            assert(u32_le(0) + u32_le(0) + u32_le(0) =~= zeros(12));
        }
        Vec3Bits { x: 0, y: 0, z: 0 }
    }
}

impl Record for Generation {
    open spec fn spec_width() -> nat {
        8
    }

    open spec fn encoded(self) -> Seq<u8> {
        u64_le(self.value())
    }

    proof fn lemma_width() {
    }

    proof fn lemma_encoded_len(self) {
    }

    proof fn lemma_encoded_injective(a: Self, b: Self) {
        lemma_u64_le_decode(a.value());
        lemma_u64_le_decode(b.value());
    }

    fn byte_width() -> (r: usize) {
        8
    }

    fn to_bytes(&self) -> (r: Vec<u8>) {
        u64_to_le(self.get())
    }

    fn from_bytes(b: &[u8]) -> (r: Self) {
        let r = Generation::new(u64_read_le(b, 0));
        proof {
            assert(b@.subrange(0, 8) =~= b@);
            lemma_u64_le_encode(b@);
        }
        r
    }

    fn zeroed() -> (r: Self) {
        proof {
            lemma_u64_zero_encodes_to_zeros();
        }
        Generation::new(0)
    }
}

} // verus!
