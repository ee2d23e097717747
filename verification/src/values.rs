//! Element types that channel values can be read into.
use vstd::prelude::*;
use vstd::bytes::*;
use crate::encoding::{le_u16, le_u32, le_u64, lemma_le_roundtrip};

verus! {

/// A fixed-size element type that values are read into from their little-endian bytes.
pub trait Pod: Sized + Copy {
    /// The number of bytes of one value.
    spec fn spec_size() -> nat;

    /// The value that `b` (of [`Pod::spec_size`] bytes) holds.
    spec fn spec_decode(b: Seq<u8>) -> Self;

    fn size() -> (r: usize)
        ensures
            r == Self::spec_size(),
            r > 0,
    ;

    fn decode(b: &[u8]) -> (r: Self)
        requires
            b@.len() == Self::spec_size(),
        ensures
            r == Self::spec_decode(b@),
    ;
}

impl Pod for u8 {
    open spec fn spec_size() -> nat {
        1
    }

    open spec fn spec_decode(b: Seq<u8>) -> u8 {
        b[0]
    }

    fn size() -> (r: usize) {
        1
    }

    fn decode(b: &[u8]) -> (r: u8) {
        b[0]
    }
}

impl Pod for i8 {
    open spec fn spec_size() -> nat {
        1
    }

    open spec fn spec_decode(b: Seq<u8>) -> i8 {
        b[0] as i8
    }

    fn size() -> (r: usize) {
        1
    }

    fn decode(b: &[u8]) -> (r: i8) {
        b[0] as i8
    }
}

impl Pod for bool {
    open spec fn spec_size() -> nat {
        1
    }

    open spec fn spec_decode(b: Seq<u8>) -> bool {
        b[0] != 0
    }

    fn size() -> (r: usize) {
        1
    }

    fn decode(b: &[u8]) -> (r: bool) {
        b[0] != 0
    }
}

impl Pod for u16 {
    open spec fn spec_size() -> nat {
        2
    }

    open spec fn spec_decode(b: Seq<u8>) -> u16 {
        spec_u16_from_le_bytes(b)
    }

    fn size() -> (r: usize) {
        2
    }

    fn decode(b: &[u8]) -> (r: u16) {
        u16_from_le_bytes(b)
    }
}

impl Pod for i16 {
    open spec fn spec_size() -> nat {
        2
    }

    open spec fn spec_decode(b: Seq<u8>) -> i16 {
        spec_u16_from_le_bytes(b) as i16
    }

    fn size() -> (r: usize) {
        2
    }

    fn decode(b: &[u8]) -> (r: i16) {
        u16_from_le_bytes(b) as i16
    }
}

impl Pod for u32 {
    open spec fn spec_size() -> nat {
        4
    }

    open spec fn spec_decode(b: Seq<u8>) -> u32 {
        spec_u32_from_le_bytes(b)
    }

    fn size() -> (r: usize) {
        4
    }

    fn decode(b: &[u8]) -> (r: u32) {
        u32_from_le_bytes(b)
    }
}

impl Pod for i32 {
    open spec fn spec_size() -> nat {
        4
    }

    open spec fn spec_decode(b: Seq<u8>) -> i32 {
        spec_u32_from_le_bytes(b) as i32
    }

    fn size() -> (r: usize) {
        4
    }

    fn decode(b: &[u8]) -> (r: i32) {
        u32_from_le_bytes(b) as i32
    }
}

impl Pod for u64 {
    open spec fn spec_size() -> nat {
        8
    }

    open spec fn spec_decode(b: Seq<u8>) -> u64 {
        spec_u64_from_le_bytes(b)
    }

    fn size() -> (r: usize) {
        8
    }

    fn decode(b: &[u8]) -> (r: u64) {
        u64_from_le_bytes(b)
    }
}

impl Pod for i64 {
    open spec fn spec_size() -> nat {
        8
    }

    open spec fn spec_decode(b: Seq<u8>) -> i64 {
        spec_u64_from_le_bytes(b) as i64
    }

    fn size() -> (r: usize) {
        8
    }

    fn decode(b: &[u8]) -> (r: i64) {
        u64_from_le_bytes(b) as i64
    }
}

/// A single-precision float by its IEEE 754 bit pattern, as `Float` channels hold it.
#[derive(Clone, Copy, Debug, PartialEq, Eq, Default, Structural)]
pub struct F32Bits(pub u32);

/// A double-precision float by its IEEE 754 bit pattern, as `Double` channels hold it.
#[derive(Clone, Copy, Debug, PartialEq, Eq, Default, Structural)]
pub struct F64Bits(pub u64);

impl Pod for F32Bits {
    open spec fn spec_size() -> nat {
        4
    }

    open spec fn spec_decode(b: Seq<u8>) -> F32Bits {
        F32Bits(spec_u32_from_le_bytes(b))
    }

    fn size() -> (r: usize) {
        4
    }

    fn decode(b: &[u8]) -> (r: F32Bits) {
        F32Bits(u32_from_le_bytes(b))
    }
}

impl Pod for F64Bits {
    open spec fn spec_size() -> nat {
        8
    }

    open spec fn spec_decode(b: Seq<u8>) -> F64Bits {
        F64Bits(spec_u64_from_le_bytes(b))
    }

    fn size() -> (r: usize) {
        8
    }

    fn decode(b: &[u8]) -> (r: F64Bits) {
        F64Bits(u64_from_le_bytes(b))
    }
}

} // verus!
