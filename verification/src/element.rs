//! Element types that a channel can be both written from and read into, and the fact
//! that ties the two: the bytes that writing a value appends read back as that value.
use vstd::prelude::*;
use crate::datatypes::{type_size, DataType};
use crate::encoding::{le_u16, le_u32, le_u64, lemma_le_roundtrip};
use crate::values::{F32Bits, F64Bits, Pod};
use crate::writable::{
    encode_each, enc_bool_fn, enc_f32_fn, enc_f64_fn, enc_i16_fn, enc_i32_fn, enc_i64_fn, enc_i8_fn, enc_u16_fn,
    enc_u32_fn, enc_u64_fn, enc_u8_fn, WritableType,
};

verus! {

/// A fixed-size element type that a channel can be written from and read into.
pub trait ChannelValue: Pod + WritableType {
    /// The bytes that writing one value appends.
    spec fn spec_encoder() -> spec_fn(Self) -> Seq<u8>;

    /// One value's bytes have the value's size and read back as the value.
    proof fn lemma_value_encoding(v: Self)
        ensures
            (Self::spec_encoder())(v).len() == Self::spec_size(),
            Self::spec_decode((Self::spec_encoder())(v)) == v,
    ;

    /// Writing values appends the bytes of each in turn, no end offset, and never fails, and a channel of
    /// such values has the data type whose size is the size of a value.
    proof fn lemma_write_encodes(data: Seq<Self>, base: nat)
        ensures
            Self::spec_write(data, base) == (Seq::<u8>::empty(), encode_each(data, Self::spec_encoder()), true),
            Self::spec_size() == type_size(Self::spec_data_type()),
            Self::spec_data_type() != DataType::String,
    ;
}

impl ChannelValue for i8 {
    open spec fn spec_encoder() -> spec_fn(i8) -> Seq<u8> {
        enc_i8_fn()
    }

    proof fn lemma_value_encoding(v: i8) {
        lemma_le_roundtrip();
        assert((v as u8) as i8 == v) by (bit_vector);
    }

    proof fn lemma_write_encodes(data: Seq<i8>, base: nat) {
    }
}

impl ChannelValue for u8 {
    open spec fn spec_encoder() -> spec_fn(u8) -> Seq<u8> {
        enc_u8_fn()
    }

    proof fn lemma_value_encoding(v: u8) {
        lemma_le_roundtrip();
        
    }

    proof fn lemma_write_encodes(data: Seq<u8>, base: nat) {
    }
}

impl ChannelValue for bool {
    open spec fn spec_encoder() -> spec_fn(bool) -> Seq<u8> {
        enc_bool_fn()
    }

    proof fn lemma_value_encoding(v: bool) {
        lemma_le_roundtrip();
        
    }

    proof fn lemma_write_encodes(data: Seq<bool>, base: nat) {
    }
}

impl ChannelValue for i16 {
    open spec fn spec_encoder() -> spec_fn(i16) -> Seq<u8> {
        enc_i16_fn()
    }

    proof fn lemma_value_encoding(v: i16) {
        lemma_le_roundtrip();
        assert(le_u16(v as u16).len() == 2);
        assert((v as u16) as i16 == v) by (bit_vector);
    }

    proof fn lemma_write_encodes(data: Seq<i16>, base: nat) {
    }
}

impl ChannelValue for u16 {
    open spec fn spec_encoder() -> spec_fn(u16) -> Seq<u8> {
        enc_u16_fn()
    }

    proof fn lemma_value_encoding(v: u16) {
        lemma_le_roundtrip();
        assert(le_u16(v).len() == 2);
    }

    proof fn lemma_write_encodes(data: Seq<u16>, base: nat) {
    }
}

impl ChannelValue for i32 {
    open spec fn spec_encoder() -> spec_fn(i32) -> Seq<u8> {
        enc_i32_fn()
    }

    proof fn lemma_value_encoding(v: i32) {
        lemma_le_roundtrip();
        assert(le_u32(v as u32).len() == 4);
        assert((v as u32) as i32 == v) by (bit_vector);
    }

    proof fn lemma_write_encodes(data: Seq<i32>, base: nat) {
    }
}

impl ChannelValue for u32 {
    open spec fn spec_encoder() -> spec_fn(u32) -> Seq<u8> {
        enc_u32_fn()
    }

    proof fn lemma_value_encoding(v: u32) {
        lemma_le_roundtrip();
        assert(le_u32(v).len() == 4);
    }

    proof fn lemma_write_encodes(data: Seq<u32>, base: nat) {
    }
}

impl ChannelValue for i64 {
    open spec fn spec_encoder() -> spec_fn(i64) -> Seq<u8> {
        enc_i64_fn()
    }

    proof fn lemma_value_encoding(v: i64) {
        lemma_le_roundtrip();
        assert(le_u64(v as u64).len() == 8);
        assert((v as u64) as i64 == v) by (bit_vector);
    }

    proof fn lemma_write_encodes(data: Seq<i64>, base: nat) {
    }
}

impl ChannelValue for u64 {
    open spec fn spec_encoder() -> spec_fn(u64) -> Seq<u8> {
        enc_u64_fn()
    }

    proof fn lemma_value_encoding(v: u64) {
        lemma_le_roundtrip();
        assert(le_u64(v).len() == 8);
    }

    proof fn lemma_write_encodes(data: Seq<u64>, base: nat) {
    }
}

impl ChannelValue for F32Bits {
    open spec fn spec_encoder() -> spec_fn(F32Bits) -> Seq<u8> {
        enc_f32_fn()
    }

    proof fn lemma_value_encoding(v: F32Bits) {
        lemma_le_roundtrip();
        assert(le_u32(v.0).len() == 4);
    }

    proof fn lemma_write_encodes(data: Seq<F32Bits>, base: nat) {
    }
}

impl ChannelValue for F64Bits {
    open spec fn spec_encoder() -> spec_fn(F64Bits) -> Seq<u8> {
        enc_f64_fn()
    }

    proof fn lemma_value_encoding(v: F64Bits) {
        lemma_le_roundtrip();
        assert(le_u64(v.0).len() == 8);
    }

    proof fn lemma_write_encodes(data: Seq<F64Bits>, base: nat) {
    }
}

} // verus!
