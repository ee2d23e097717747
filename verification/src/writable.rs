//! Element types that channel values can be written from.
use vstd::prelude::*;
use vstd::bytes::{spec_u32_to_le_bytes, spec_u64_to_le_bytes};
use vstd::utf8::encode_utf8;
use vstd::string::StringSliceAdditionalSpecFns;
use crate::datatypes::{type_size, DataType};
use crate::encoding::{lemma_le_roundtrip, le_u16, le_u32, le_u64, le_u8, push_bytes, push_u16, push_u32, push_u64, push_u8};
use crate::error::{ErrorModel, TdmsError};
use crate::values::{F32Bits, F64Bits};
use crate::reader::concat;

verus! {

/// The message for string values whose bytes do not fit 32-bit offsets.
pub open spec fn string_overflow_text() -> Seq<char> {
    "string channel payload exceeds u32 offset range (4 GiB)"@
}

/// An element type whose values a channel can be written from.
///
/// A channel keeps two buffers: the end offsets of string values (empty for fixed-size
/// values), and the bytes of the values. A write appends to both, so that the strings of
/// all writes share one table of end offsets.
pub trait WritableType: Sized {
    /// The data type of a channel of such values.
    spec fn spec_data_type() -> DataType;

    /// What writing `data` to a channel that holds `base` value bytes appends to its end
    /// offsets and to its value bytes, and whether the write succeeds (a failed write
    /// appends nothing).
    spec fn spec_write(data: Seq<Self>, base: nat) -> (Seq<u8>, Seq<u8>, bool);

    /// A write of fixed-size values appends the size of each value and no offset, and
    /// never fails; a write of strings that succeeds appends one 4-byte offset for each
    /// string, and no byte for no string; a failed write appends nothing.
    proof fn lemma_write_shape(data: Seq<Self>, base: nat)
        ensures
            Self::spec_data_type() != DataType::String ==> {
                &&& Self::spec_write(data, base).0 == Seq::<u8>::empty()
                &&& Self::spec_write(data, base).1.len() == type_size(Self::spec_data_type()) * data.len()
                &&& Self::spec_write(data, base).2
            },
            Self::spec_data_type() == DataType::String && Self::spec_write(data, base).2 ==> {
                &&& Self::spec_write(data, base).0.len() == 4 * data.len()
                &&& data.len() == 0 ==> Self::spec_write(data, base).1.len() == 0
            },
            !Self::spec_write(data, base).2 ==> Self::spec_write(data, base).0 == Seq::<u8>::empty()
                && Self::spec_write(data, base).1 == Seq::<u8>::empty(),
    ;

    fn data_type() -> (r: DataType)
        ensures
            r == Self::spec_data_type(),
    ;

    fn write_to_buffer(data: &[Self], offsets: &mut Vec<u8>, buffer: &mut Vec<u8>) -> (r: Result<(), TdmsError>)
        ensures
            final(offsets)@ == old(offsets)@ + Self::spec_write(data@, old(buffer)@.len()).0,
            final(buffer)@ == old(buffer)@ + Self::spec_write(data@, old(buffer)@.len()).1,
            r is Ok == Self::spec_write(data@, old(buffer)@.len()).2,
            r matches Err(e) ==> e@ == ErrorModel::InvalidFormat(string_overflow_text()),
    ;

    /// The number of values that `data` holds.
    fn count(data: &[Self]) -> (r: usize)
        ensures
            r == data@.len(),
    {
        data.len()
    }
}

/// Encodings that all have `k` bytes make `k` bytes per value.
pub proof fn lemma_encode_each_len<T>(data: Seq<T>, enc: spec_fn(T) -> Seq<u8>, k: nat)
    requires
        forall|v: T| #[trigger] enc(v).len() == k,
    ensures
        encode_each(data, enc).len() == k * data.len(),
    decreases data.len(),
{
    if data.len() > 0 {
        lemma_encode_each_len(data.drop_last(), enc, k);
        assert(k * (data.len() - 1) + k == k * data.len()) by (nonlinear_arith);
    }
}

/// The concatenation of the encodings of each value.
pub open spec fn encode_each<T>(data: Seq<T>, enc: spec_fn(T) -> Seq<u8>) -> Seq<u8>
    decreases data.len(),
{
    if data.len() == 0 {
        Seq::empty()
    } else {
        encode_each(data.drop_last(), enc) + enc(data.last())
    }
}

pub open spec fn enc_i8(v: i8) -> Seq<u8> {
    le_u8(v as u8)
}

pub open spec fn enc_u8(v: u8) -> Seq<u8> {
    le_u8(v)
}

pub open spec fn enc_bool(v: bool) -> Seq<u8> {
    le_u8(if v { 1 } else { 0 })
}

pub open spec fn enc_i16(v: i16) -> Seq<u8> {
    le_u16(v as u16)
}

pub open spec fn enc_u16(v: u16) -> Seq<u8> {
    le_u16(v)
}

pub open spec fn enc_i32(v: i32) -> Seq<u8> {
    le_u32(v as u32)
}

pub open spec fn enc_u32(v: u32) -> Seq<u8> {
    le_u32(v)
}

pub open spec fn enc_i64(v: i64) -> Seq<u8> {
    le_u64(v as u64)
}

pub open spec fn enc_u64(v: u64) -> Seq<u8> {
    le_u64(v)
}

pub open spec fn enc_f32(v: F32Bits) -> Seq<u8> {
    le_u32(v.0)
}

pub open spec fn enc_f64(v: F64Bits) -> Seq<u8> {
    le_u64(v.0)
}


/// [`enc_i8`] as a function value.
pub open spec fn enc_i8_fn() -> spec_fn(i8) -> Seq<u8> {
    |v: i8| enc_i8(v)
}

impl WritableType for i8 {
    open spec fn spec_data_type() -> DataType {
        DataType::I8
    }

    open spec fn spec_write(data: Seq<i8>, base: nat) -> (Seq<u8>, Seq<u8>, bool) {
        (Seq::empty(), encode_each(data, enc_i8_fn()), true)
    }

    proof fn lemma_write_shape(data: Seq<i8>, base: nat) {
        lemma_le_roundtrip();
        assert forall|v: i8| #[trigger] (enc_i8_fn())(v).len() == 1 by {}
        lemma_encode_each_len(data, enc_i8_fn(), 1);
    }

    fn data_type() -> (r: DataType) {
        DataType::I8
    }

    fn write_to_buffer(data: &[i8], offsets: &mut Vec<u8>, buffer: &mut Vec<u8>) -> (r: Result<(), TdmsError>) {
        let mut i: usize = 0;
        while i < data.len()
            invariant
                i <= data@.len(),
                buffer@ == old(buffer)@ + encode_each(data@.take(i as int), enc_i8_fn()),
            decreases data@.len() - i,
        {
            assert(data@.take(i + 1).drop_last() =~= data@.take(i as int));
            let ghost before = buffer@;
            push_u8(buffer, data[i] as u8);
            assert(buffer@ =~= old(buffer)@ + encode_each(data@.take(i + 1), enc_i8_fn())) by {
                assert(before + enc_i8(data@[i as int]) =~= old(buffer)@ + (encode_each(data@.take(i as int), enc_i8_fn()) + enc_i8(data@[i as int])));
            }
            i = i + 1;
        }
        assert(data@.take(data@.len() as int) =~= data@);
        Ok(())
    }
}

/// [`enc_u8`] as a function value.
pub open spec fn enc_u8_fn() -> spec_fn(u8) -> Seq<u8> {
    |v: u8| enc_u8(v)
}

impl WritableType for u8 {
    open spec fn spec_data_type() -> DataType {
        DataType::U8
    }

    open spec fn spec_write(data: Seq<u8>, base: nat) -> (Seq<u8>, Seq<u8>, bool) {
        (Seq::empty(), encode_each(data, enc_u8_fn()), true)
    }

    proof fn lemma_write_shape(data: Seq<u8>, base: nat) {
        lemma_le_roundtrip();
        assert forall|v: u8| #[trigger] (enc_u8_fn())(v).len() == 1 by {}
        lemma_encode_each_len(data, enc_u8_fn(), 1);
    }

    fn data_type() -> (r: DataType) {
        DataType::U8
    }

    fn write_to_buffer(data: &[u8], offsets: &mut Vec<u8>, buffer: &mut Vec<u8>) -> (r: Result<(), TdmsError>) {
        push_bytes(buffer, data);
        proof {
            lemma_encode_bytes(data@);
        }
        Ok(())
    }
}

/// [`enc_bool`] as a function value.
pub open spec fn enc_bool_fn() -> spec_fn(bool) -> Seq<u8> {
    |v: bool| enc_bool(v)
}

impl WritableType for bool {
    open spec fn spec_data_type() -> DataType {
        DataType::Boolean
    }

    open spec fn spec_write(data: Seq<bool>, base: nat) -> (Seq<u8>, Seq<u8>, bool) {
        (Seq::empty(), encode_each(data, enc_bool_fn()), true)
    }

    proof fn lemma_write_shape(data: Seq<bool>, base: nat) {
        lemma_le_roundtrip();
        assert forall|v: bool| #[trigger] (enc_bool_fn())(v).len() == 1 by {}
        lemma_encode_each_len(data, enc_bool_fn(), 1);
    }

    fn data_type() -> (r: DataType) {
        DataType::Boolean
    }

    fn write_to_buffer(data: &[bool], offsets: &mut Vec<u8>, buffer: &mut Vec<u8>) -> (r: Result<(), TdmsError>) {
        let mut i: usize = 0;
        while i < data.len()
            invariant
                i <= data@.len(),
                buffer@ == old(buffer)@ + encode_each(data@.take(i as int), enc_bool_fn()),
            decreases data@.len() - i,
        {
            assert(data@.take(i + 1).drop_last() =~= data@.take(i as int));
            let ghost before = buffer@;
            push_u8(buffer, if data[i] { 1 } else { 0 });
            assert(buffer@ =~= old(buffer)@ + encode_each(data@.take(i + 1), enc_bool_fn())) by {
                assert(before + enc_bool(data@[i as int]) =~= old(buffer)@ + (encode_each(data@.take(i as int), enc_bool_fn()) + enc_bool(data@[i as int])));
            }
            i = i + 1;
        }
        assert(data@.take(data@.len() as int) =~= data@);
        Ok(())
    }
}

/// [`enc_i16`] as a function value.
pub open spec fn enc_i16_fn() -> spec_fn(i16) -> Seq<u8> {
    |v: i16| enc_i16(v)
}

impl WritableType for i16 {
    open spec fn spec_data_type() -> DataType {
        DataType::I16
    }

    open spec fn spec_write(data: Seq<i16>, base: nat) -> (Seq<u8>, Seq<u8>, bool) {
        (Seq::empty(), encode_each(data, enc_i16_fn()), true)
    }

    proof fn lemma_write_shape(data: Seq<i16>, base: nat) {
        lemma_le_roundtrip();
        assert forall|v: i16| #[trigger] (enc_i16_fn())(v).len() == 2 by {}
        lemma_encode_each_len(data, enc_i16_fn(), 2);
    }

    fn data_type() -> (r: DataType) {
        DataType::I16
    }

    fn write_to_buffer(data: &[i16], offsets: &mut Vec<u8>, buffer: &mut Vec<u8>) -> (r: Result<(), TdmsError>) {
        let mut i: usize = 0;
        while i < data.len()
            invariant
                i <= data@.len(),
                buffer@ == old(buffer)@ + encode_each(data@.take(i as int), enc_i16_fn()),
            decreases data@.len() - i,
        {
            assert(data@.take(i + 1).drop_last() =~= data@.take(i as int));
            let ghost before = buffer@;
            push_u16(buffer, data[i] as u16);
            assert(buffer@ =~= old(buffer)@ + encode_each(data@.take(i + 1), enc_i16_fn())) by {
                assert(before + enc_i16(data@[i as int]) =~= old(buffer)@ + (encode_each(data@.take(i as int), enc_i16_fn()) + enc_i16(data@[i as int])));
            }
            i = i + 1;
        }
        assert(data@.take(data@.len() as int) =~= data@);
        Ok(())
    }
}

/// [`enc_u16`] as a function value.
pub open spec fn enc_u16_fn() -> spec_fn(u16) -> Seq<u8> {
    |v: u16| enc_u16(v)
}

impl WritableType for u16 {
    open spec fn spec_data_type() -> DataType {
        DataType::U16
    }

    open spec fn spec_write(data: Seq<u16>, base: nat) -> (Seq<u8>, Seq<u8>, bool) {
        (Seq::empty(), encode_each(data, enc_u16_fn()), true)
    }

    proof fn lemma_write_shape(data: Seq<u16>, base: nat) {
        lemma_le_roundtrip();
        assert forall|v: u16| #[trigger] (enc_u16_fn())(v).len() == 2 by {}
        lemma_encode_each_len(data, enc_u16_fn(), 2);
    }

    fn data_type() -> (r: DataType) {
        DataType::U16
    }

    fn write_to_buffer(data: &[u16], offsets: &mut Vec<u8>, buffer: &mut Vec<u8>) -> (r: Result<(), TdmsError>) {
        let mut i: usize = 0;
        while i < data.len()
            invariant
                i <= data@.len(),
                buffer@ == old(buffer)@ + encode_each(data@.take(i as int), enc_u16_fn()),
            decreases data@.len() - i,
        {
            assert(data@.take(i + 1).drop_last() =~= data@.take(i as int));
            let ghost before = buffer@;
            push_u16(buffer, data[i]);
            assert(buffer@ =~= old(buffer)@ + encode_each(data@.take(i + 1), enc_u16_fn())) by {
                assert(before + enc_u16(data@[i as int]) =~= old(buffer)@ + (encode_each(data@.take(i as int), enc_u16_fn()) + enc_u16(data@[i as int])));
            }
            i = i + 1;
        }
        assert(data@.take(data@.len() as int) =~= data@);
        Ok(())
    }
}

/// [`enc_i32`] as a function value.
pub open spec fn enc_i32_fn() -> spec_fn(i32) -> Seq<u8> {
    |v: i32| enc_i32(v)
}

impl WritableType for i32 {
    open spec fn spec_data_type() -> DataType {
        DataType::I32
    }

    open spec fn spec_write(data: Seq<i32>, base: nat) -> (Seq<u8>, Seq<u8>, bool) {
        (Seq::empty(), encode_each(data, enc_i32_fn()), true)
    }

    proof fn lemma_write_shape(data: Seq<i32>, base: nat) {
        lemma_le_roundtrip();
        assert forall|v: i32| #[trigger] (enc_i32_fn())(v).len() == 4 by {}
        lemma_encode_each_len(data, enc_i32_fn(), 4);
    }

    fn data_type() -> (r: DataType) {
        DataType::I32
    }

    fn write_to_buffer(data: &[i32], offsets: &mut Vec<u8>, buffer: &mut Vec<u8>) -> (r: Result<(), TdmsError>) {
        let mut i: usize = 0;
        while i < data.len()
            invariant
                i <= data@.len(),
                buffer@ == old(buffer)@ + encode_each(data@.take(i as int), enc_i32_fn()),
            decreases data@.len() - i,
        {
            assert(data@.take(i + 1).drop_last() =~= data@.take(i as int));
            let ghost before = buffer@;
            push_u32(buffer, data[i] as u32);
            assert(buffer@ =~= old(buffer)@ + encode_each(data@.take(i + 1), enc_i32_fn())) by {
                assert(before + enc_i32(data@[i as int]) =~= old(buffer)@ + (encode_each(data@.take(i as int), enc_i32_fn()) + enc_i32(data@[i as int])));
            }
            i = i + 1;
        }
        assert(data@.take(data@.len() as int) =~= data@);
        Ok(())
    }
}

/// [`enc_u32`] as a function value.
pub open spec fn enc_u32_fn() -> spec_fn(u32) -> Seq<u8> {
    |v: u32| enc_u32(v)
}

impl WritableType for u32 {
    open spec fn spec_data_type() -> DataType {
        DataType::U32
    }

    open spec fn spec_write(data: Seq<u32>, base: nat) -> (Seq<u8>, Seq<u8>, bool) {
        (Seq::empty(), encode_each(data, enc_u32_fn()), true)
    }

    proof fn lemma_write_shape(data: Seq<u32>, base: nat) {
        lemma_le_roundtrip();
        assert forall|v: u32| #[trigger] (enc_u32_fn())(v).len() == 4 by {}
        lemma_encode_each_len(data, enc_u32_fn(), 4);
    }

    fn data_type() -> (r: DataType) {
        DataType::U32
    }

    fn write_to_buffer(data: &[u32], offsets: &mut Vec<u8>, buffer: &mut Vec<u8>) -> (r: Result<(), TdmsError>) {
        let mut i: usize = 0;
        while i < data.len()
            invariant
                i <= data@.len(),
                buffer@ == old(buffer)@ + encode_each(data@.take(i as int), enc_u32_fn()),
            decreases data@.len() - i,
        {
            assert(data@.take(i + 1).drop_last() =~= data@.take(i as int));
            let ghost before = buffer@;
            push_u32(buffer, data[i]);
            assert(buffer@ =~= old(buffer)@ + encode_each(data@.take(i + 1), enc_u32_fn())) by {
                assert(before + enc_u32(data@[i as int]) =~= old(buffer)@ + (encode_each(data@.take(i as int), enc_u32_fn()) + enc_u32(data@[i as int])));
            }
            i = i + 1;
        }
        assert(data@.take(data@.len() as int) =~= data@);
        Ok(())
    }
}

/// [`enc_i64`] as a function value.
pub open spec fn enc_i64_fn() -> spec_fn(i64) -> Seq<u8> {
    |v: i64| enc_i64(v)
}

impl WritableType for i64 {
    open spec fn spec_data_type() -> DataType {
        DataType::I64
    }

    open spec fn spec_write(data: Seq<i64>, base: nat) -> (Seq<u8>, Seq<u8>, bool) {
        (Seq::empty(), encode_each(data, enc_i64_fn()), true)
    }

    proof fn lemma_write_shape(data: Seq<i64>, base: nat) {
        lemma_le_roundtrip();
        assert forall|v: i64| #[trigger] (enc_i64_fn())(v).len() == 8 by {}
        lemma_encode_each_len(data, enc_i64_fn(), 8);
    }

    fn data_type() -> (r: DataType) {
        DataType::I64
    }

    fn write_to_buffer(data: &[i64], offsets: &mut Vec<u8>, buffer: &mut Vec<u8>) -> (r: Result<(), TdmsError>) {
        let mut i: usize = 0;
        while i < data.len()
            invariant
                i <= data@.len(),
                buffer@ == old(buffer)@ + encode_each(data@.take(i as int), enc_i64_fn()),
            decreases data@.len() - i,
        {
            assert(data@.take(i + 1).drop_last() =~= data@.take(i as int));
            let ghost before = buffer@;
            push_u64(buffer, data[i] as u64);
            assert(buffer@ =~= old(buffer)@ + encode_each(data@.take(i + 1), enc_i64_fn())) by {
                assert(before + enc_i64(data@[i as int]) =~= old(buffer)@ + (encode_each(data@.take(i as int), enc_i64_fn()) + enc_i64(data@[i as int])));
            }
            i = i + 1;
        }
        assert(data@.take(data@.len() as int) =~= data@);
        Ok(())
    }
}

/// [`enc_u64`] as a function value.
pub open spec fn enc_u64_fn() -> spec_fn(u64) -> Seq<u8> {
    |v: u64| enc_u64(v)
}

impl WritableType for u64 {
    open spec fn spec_data_type() -> DataType {
        DataType::U64
    }

    open spec fn spec_write(data: Seq<u64>, base: nat) -> (Seq<u8>, Seq<u8>, bool) {
        (Seq::empty(), encode_each(data, enc_u64_fn()), true)
    }

    proof fn lemma_write_shape(data: Seq<u64>, base: nat) {
        lemma_le_roundtrip();
        assert forall|v: u64| #[trigger] (enc_u64_fn())(v).len() == 8 by {}
        lemma_encode_each_len(data, enc_u64_fn(), 8);
    }

    fn data_type() -> (r: DataType) {
        DataType::U64
    }

    fn write_to_buffer(data: &[u64], offsets: &mut Vec<u8>, buffer: &mut Vec<u8>) -> (r: Result<(), TdmsError>) {
        let mut i: usize = 0;
        while i < data.len()
            invariant
                i <= data@.len(),
                buffer@ == old(buffer)@ + encode_each(data@.take(i as int), enc_u64_fn()),
            decreases data@.len() - i,
        {
            assert(data@.take(i + 1).drop_last() =~= data@.take(i as int));
            let ghost before = buffer@;
            push_u64(buffer, data[i]);
            assert(buffer@ =~= old(buffer)@ + encode_each(data@.take(i + 1), enc_u64_fn())) by {
                assert(before + enc_u64(data@[i as int]) =~= old(buffer)@ + (encode_each(data@.take(i as int), enc_u64_fn()) + enc_u64(data@[i as int])));
            }
            i = i + 1;
        }
        assert(data@.take(data@.len() as int) =~= data@);
        Ok(())
    }
}

/// [`enc_f32`] as a function value.
pub open spec fn enc_f32_fn() -> spec_fn(F32Bits) -> Seq<u8> {
    |v: F32Bits| enc_f32(v)
}

impl WritableType for F32Bits {
    open spec fn spec_data_type() -> DataType {
        DataType::Float
    }

    open spec fn spec_write(data: Seq<F32Bits>, base: nat) -> (Seq<u8>, Seq<u8>, bool) {
        (Seq::empty(), encode_each(data, enc_f32_fn()), true)
    }

    proof fn lemma_write_shape(data: Seq<F32Bits>, base: nat) {
        lemma_le_roundtrip();
        assert forall|v: F32Bits| #[trigger] (enc_f32_fn())(v).len() == 4 by {}
        lemma_encode_each_len(data, enc_f32_fn(), 4);
    }

    fn data_type() -> (r: DataType) {
        DataType::Float
    }

    fn write_to_buffer(data: &[F32Bits], offsets: &mut Vec<u8>, buffer: &mut Vec<u8>) -> (r: Result<(), TdmsError>) {
        let mut i: usize = 0;
        while i < data.len()
            invariant
                i <= data@.len(),
                buffer@ == old(buffer)@ + encode_each(data@.take(i as int), enc_f32_fn()),
            decreases data@.len() - i,
        {
            assert(data@.take(i + 1).drop_last() =~= data@.take(i as int));
            let ghost before = buffer@;
            push_u32(buffer, data[i].0);
            assert(buffer@ =~= old(buffer)@ + encode_each(data@.take(i + 1), enc_f32_fn())) by {
                assert(before + enc_f32(data@[i as int]) =~= old(buffer)@ + (encode_each(data@.take(i as int), enc_f32_fn()) + enc_f32(data@[i as int])));
            }
            i = i + 1;
        }
        assert(data@.take(data@.len() as int) =~= data@);
        Ok(())
    }
}

/// [`enc_f64`] as a function value.
pub open spec fn enc_f64_fn() -> spec_fn(F64Bits) -> Seq<u8> {
    |v: F64Bits| enc_f64(v)
}

impl WritableType for F64Bits {
    open spec fn spec_data_type() -> DataType {
        DataType::Double
    }

    open spec fn spec_write(data: Seq<F64Bits>, base: nat) -> (Seq<u8>, Seq<u8>, bool) {
        (Seq::empty(), encode_each(data, enc_f64_fn()), true)
    }

    proof fn lemma_write_shape(data: Seq<F64Bits>, base: nat) {
        lemma_le_roundtrip();
        assert forall|v: F64Bits| #[trigger] (enc_f64_fn())(v).len() == 8 by {}
        lemma_encode_each_len(data, enc_f64_fn(), 8);
    }

    fn data_type() -> (r: DataType) {
        DataType::Double
    }

    fn write_to_buffer(data: &[F64Bits], offsets: &mut Vec<u8>, buffer: &mut Vec<u8>) -> (r: Result<(), TdmsError>) {
        let mut i: usize = 0;
        while i < data.len()
            invariant
                i <= data@.len(),
                buffer@ == old(buffer)@ + encode_each(data@.take(i as int), enc_f64_fn()),
            decreases data@.len() - i,
        {
            assert(data@.take(i + 1).drop_last() =~= data@.take(i as int));
            let ghost before = buffer@;
            push_u64(buffer, data[i].0);
            assert(buffer@ =~= old(buffer)@ + encode_each(data@.take(i + 1), enc_f64_fn())) by {
                assert(before + enc_f64(data@[i as int]) =~= old(buffer)@ + (encode_each(data@.take(i as int), enc_f64_fn()) + enc_f64(data@[i as int])));
            }
            i = i + 1;
        }
        assert(data@.take(data@.len() as int) =~= data@);
        Ok(())
    }
}

/// Bytes are written as they are.
proof fn lemma_encode_bytes(data: Seq<u8>)
    ensures
        encode_each(data, enc_u8_fn()) == data,
    decreases data.len(),
{
    if data.len() > 0 {
        lemma_encode_bytes(data.drop_last());
        assert(data.drop_last() + seq![data.last()] =~= data);
    }
}

/// The end offsets, 4 bytes each, of strings whose bytes are `bs`, after `base` bytes of
/// earlier strings.
pub open spec fn ends_bytes(bs: Seq<Seq<u8>>, base: nat) -> Seq<u8>
    decreases bs.len(),
{
    if bs.len() == 0 {
        Seq::empty()
    } else {
        ends_bytes(bs.drop_last(), base) + le_u32((base + concat(bs).len()) as u32)
    }
}

/// What writing strings whose bytes are `bs` appends to a channel that holds `base` bytes
/// of strings: their end offsets, counted on from `base`, and their bytes; nothing, and a
/// failure, where the last end would not fit 32 bits.
pub open spec fn write_strings(bs: Seq<Seq<u8>>, base: nat) -> (Seq<u8>, Seq<u8>, bool) {
    if bs.len() == 0 || base + concat(bs).len() <= u32::MAX {
        (ends_bytes(bs, base), concat(bs), true)
    } else {
        (Seq::empty(), Seq::empty(), false)
    }
}

/// One end offset per string.
pub proof fn lemma_ends_bytes_len(bs: Seq<Seq<u8>>, base: nat)
    ensures
        ends_bytes(bs, base).len() == 4 * bs.len(),
    decreases bs.len(),
{
    lemma_le_roundtrip();
    if bs.len() > 0 {
        lemma_ends_bytes_len(bs.drop_last(), base);
        assert(le_u32((base + concat(bs).len()) as u32).len() == 4);
    }
}

/// The bytes of the first `i + 1` strings are those of the first `i`, then string `i`.
pub proof fn lemma_concat_skip(bs: Seq<Seq<u8>>, i: int)
    requires
        0 <= i < bs.len(),
    ensures
        concat(bs.take(i + 1)) == concat(bs.take(i)) + bs[i],
{
    assert(bs.take(i + 1).drop_last() =~= bs.take(i));
}

/// The bytes of the first `m` strings are no more than those of all of them.
pub proof fn lemma_concat_take_len(bs: Seq<Seq<u8>>, m: int)
    requires
        0 <= m <= bs.len(),
    ensures
        concat(bs.take(m)).len() <= concat(bs).len(),
    decreases bs.len(),
{
    if m == bs.len() {
        assert(bs.take(m) =~= bs);
    } else {
        lemma_concat_take_len(bs.drop_last(), m);
        assert(bs.drop_last().take(m) =~= bs.take(m));
    }
}


impl WritableType for String {
    open spec fn spec_data_type() -> DataType {
        DataType::String
    }

    open spec fn spec_write(data: Seq<String>, base: nat) -> (Seq<u8>, Seq<u8>, bool) {
        write_strings(Seq::new(data.len(), |k: int| encode_utf8(data[k]@)), base)
    }

    proof fn lemma_write_shape(data: Seq<String>, base: nat) {
        let bs = Seq::new(data.len(), |k: int| encode_utf8(data[k]@));
        lemma_ends_bytes_len(bs, base);
    }

    fn data_type() -> (r: DataType) {
        DataType::String
    }

    fn write_to_buffer(data: &[String], offsets: &mut Vec<u8>, buffer: &mut Vec<u8>) -> (r: Result<(), TdmsError>) {
        let ghost bs = Seq::new(data@.len(), |k: int| encode_utf8(data@[k]@));
        let ghost base = buffer@.len();
        if data.len() == 0 {
            assert(ends_bytes(bs, base) == Seq::<u8>::empty());
            assert(offsets@ =~= old(offsets)@ + Seq::<u8>::empty());
            assert(buffer@ =~= old(buffer)@ + Seq::<u8>::empty());
            return Ok(());
        }
        proof {
            lemma_concat_take_len(bs, 0);
            assert(bs.take(0) =~= Seq::<Seq<u8>>::empty());
        }
        let start = buffer.len() as u64;
        if start > u32::MAX as u64 {
            return Err(TdmsError::InvalidFormat("string channel payload exceeds u32 offset range (4 GiB)".to_owned()));
        }
        let mut ends: Vec<u8> = Vec::new();
        let mut offset: u64 = start;
        let mut i: usize = 0;
        while i < data.len()
            invariant
                i <= data@.len(),
                bs == Seq::new(data@.len(), |k: int| encode_utf8(data@[k]@)),
                base == old(buffer)@.len(),
                buffer@ == old(buffer)@,
                offsets@ == old(offsets)@,
                offset == base + concat(bs.take(i as int)).len(),
                offset <= u32::MAX,
                ends@ == ends_bytes(bs.take(i as int), base),
            decreases data@.len() - i,
        {
            let b = data[i].as_str().as_bytes();
            proof {
                lemma_concat_skip(bs, i as int);
                lemma_concat_take_len(bs, i + 1);
            }
            let n = b.len() as u64;
            if n > u32::MAX as u64 - offset {
                return Err(TdmsError::InvalidFormat("string channel payload exceeds u32 offset range (4 GiB)".to_owned()));
            }
            offset = offset + n;
            push_u32(&mut ends, offset as u32);
            assert(bs.take(i + 1).drop_last() =~= bs.take(i as int));
            i = i + 1;
        }
        assert(bs.take(data@.len() as int) =~= bs);
        push_bytes(offsets, ends.as_slice());
        let mut j: usize = 0;
        while j < data.len()
            invariant
                j <= data@.len(),
                bs == Seq::new(data@.len(), |k: int| encode_utf8(data@[k]@)),
                buffer@ == old(buffer)@ + concat(bs.take(j as int)),
            decreases data@.len() - j,
        {
            proof {
                lemma_concat_skip(bs, j as int);
            }
            let b = data[j].as_str().as_bytes();
            push_bytes(buffer, b);
            assert(buffer@ =~= old(buffer)@ + concat(bs.take(j + 1)));
            j = j + 1;
        }
        Ok(())
    }
}

impl<'a> WritableType for &'a str {
    open spec fn spec_data_type() -> DataType {
        DataType::String
    }

    open spec fn spec_write(data: Seq<&'a str>, base: nat) -> (Seq<u8>, Seq<u8>, bool) {
        write_strings(Seq::new(data.len(), |k: int| encode_utf8(data[k]@)), base)
    }

    proof fn lemma_write_shape(data: Seq<&'a str>, base: nat) {
        let bs = Seq::new(data.len(), |k: int| encode_utf8(data[k]@));
        lemma_ends_bytes_len(bs, base);
    }

    fn data_type() -> (r: DataType) {
        DataType::String
    }

    fn write_to_buffer(data: &[&'a str], offsets: &mut Vec<u8>, buffer: &mut Vec<u8>) -> (r: Result<(), TdmsError>) {
        let ghost bs = Seq::new(data@.len(), |k: int| encode_utf8(data@[k]@));
        let ghost base = buffer@.len();
        if data.len() == 0 {
            assert(ends_bytes(bs, base) == Seq::<u8>::empty());
            assert(offsets@ =~= old(offsets)@ + Seq::<u8>::empty());
            assert(buffer@ =~= old(buffer)@ + Seq::<u8>::empty());
            return Ok(());
        }
        proof {
            lemma_concat_take_len(bs, 0);
            assert(bs.take(0) =~= Seq::<Seq<u8>>::empty());
        }
        let start = buffer.len() as u64;
        if start > u32::MAX as u64 {
            return Err(TdmsError::InvalidFormat("string channel payload exceeds u32 offset range (4 GiB)".to_owned()));
        }
        let mut ends: Vec<u8> = Vec::new();
        let mut offset: u64 = start;
        let mut i: usize = 0;
        while i < data.len()
            invariant
                i <= data@.len(),
                bs == Seq::new(data@.len(), |k: int| encode_utf8(data@[k]@)),
                base == old(buffer)@.len(),
                buffer@ == old(buffer)@,
                offsets@ == old(offsets)@,
                offset == base + concat(bs.take(i as int)).len(),
                offset <= u32::MAX,
                ends@ == ends_bytes(bs.take(i as int), base),
            decreases data@.len() - i,
        {
            let b = data[i].as_bytes();
            proof {
                lemma_concat_skip(bs, i as int);
                lemma_concat_take_len(bs, i + 1);
            }
            let n = b.len() as u64;
            if n > u32::MAX as u64 - offset {
                return Err(TdmsError::InvalidFormat("string channel payload exceeds u32 offset range (4 GiB)".to_owned()));
            }
            offset = offset + n;
            push_u32(&mut ends, offset as u32);
            assert(bs.take(i + 1).drop_last() =~= bs.take(i as int));
            i = i + 1;
        }
        assert(bs.take(data@.len() as int) =~= bs);
        push_bytes(offsets, ends.as_slice());
        let mut j: usize = 0;
        while j < data.len()
            invariant
                j <= data@.len(),
                bs == Seq::new(data@.len(), |k: int| encode_utf8(data@[k]@)),
                buffer@ == old(buffer)@ + concat(bs.take(j as int)),
            decreases data@.len() - j,
        {
            proof {
                lemma_concat_skip(bs, j as int);
            }
            let b = data[j].as_bytes();
            push_bytes(buffer, b);
            assert(buffer@ =~= old(buffer)@ + concat(bs.take(j + 1)));
            j = j + 1;
        }
        Ok(())
    }
}

} // verus!
