//! The element types of channels and the values of properties.
use vstd::prelude::*;
use crate::error::{ErrorModel, TdmsError};
use crate::text::push_decimal;

verus! {

/// The data type of a channel or of a property value.
#[derive(Debug, Clone, Copy, PartialEq, Eq, Structural)]
pub enum DataType {
    I8,
    I16,
    I32,
    I64,
    U8,
    U16,
    U32,
    U64,
    Float,
    Double,
    String,
    Boolean,
    TimeStamp,
}

/// The code by which the format names a data type.
pub open spec fn type_code(t: DataType) -> u32 {
    match t {
        DataType::I8 => 1,
        DataType::I16 => 2,
        DataType::I32 => 3,
        DataType::I64 => 4,
        DataType::U8 => 5,
        DataType::U16 => 6,
        DataType::U32 => 7,
        DataType::U64 => 8,
        DataType::Float => 9,
        DataType::Double => 10,
        DataType::String => 32,
        DataType::Boolean => 33,
        DataType::TimeStamp => 68,
    }
}

/// The data type that a code names, if any.
pub open spec fn type_of_code(val: u32) -> Option<DataType> {
    if val == 1 {
        Some(DataType::I8)
    } else if val == 2 {
        Some(DataType::I16)
    } else if val == 3 {
        Some(DataType::I32)
    } else if val == 4 {
        Some(DataType::I64)
    } else if val == 5 {
        Some(DataType::U8)
    } else if val == 6 {
        Some(DataType::U16)
    } else if val == 7 {
        Some(DataType::U32)
    } else if val == 8 {
        Some(DataType::U64)
    } else if val == 9 {
        Some(DataType::Float)
    } else if val == 10 {
        Some(DataType::Double)
    } else if val == 32 {
        Some(DataType::String)
    } else if val == 33 {
        Some(DataType::Boolean)
    } else if val == 68 {
        Some(DataType::TimeStamp)
    } else {
        None
    }
}

/// The number of bytes that one value of a fixed-size type takes; 0 for strings.
pub open spec fn type_size(t: DataType) -> nat {
    match t {
        DataType::I8 | DataType::U8 | DataType::Boolean => 1,
        DataType::I16 | DataType::U16 => 2,
        DataType::I32 | DataType::U32 | DataType::Float => 4,
        DataType::I64 | DataType::U64 | DataType::Double => 8,
        DataType::TimeStamp => 16,
        DataType::String => 0,
    }
}

/// The decimal digit character for `d`.
pub open spec fn digit_char(d: nat) -> char {
    seq!['0', '1', '2', '3', '4', '5', '6', '7', '8', '9'][d as int % 10]
}

/// The decimal notation of `v`, without sign or leading zeros.
pub open spec fn decimal_chars(v: nat) -> Seq<char>
    decreases v,
{
    if v < 10 {
        seq![digit_char(v)]
    } else {
        decimal_chars(v / 10).push(digit_char(v % 10))
    }
}

/// The message of the error for a code that names no supported data type.
pub open spec fn unsupported_code_text(val: u32) -> Seq<char> {
    if val == 0 {
        "Void DataType not supported in public API"@
    } else {
        "DataType "@ + decimal_chars(val as nat)
    }
}

/// The message for a non-zero code that names no supported data type.
fn unsupported_code_message(val: u32) -> (r: String)
    requires
        val != 0,
    ensures
        r@ == unsupported_code_text(val),
{
    let mut m = "DataType ".to_owned();
    push_decimal(&mut m, val as u64);
    proof {
        reveal_strlit("DataType ");
    }
    m
}

impl DataType {
    /// The data type that a code names; an error for codes that name none.
    pub fn from_u32(val: u32) -> (r: Result<DataType, TdmsError>)
        ensures
            match type_of_code(val) {
                Some(t) => r == Ok::<DataType, TdmsError>(t),
                None => r matches Err(e) && e@ == ErrorModel::NotImplemented(
                    unsupported_code_text(val),
                ),
            },
    {
        match val {
            1 => Ok(DataType::I8),
            2 => Ok(DataType::I16),
            3 => Ok(DataType::I32),
            4 => Ok(DataType::I64),
            5 => Ok(DataType::U8),
            6 => Ok(DataType::U16),
            7 => Ok(DataType::U32),
            8 => Ok(DataType::U64),
            9 => Ok(DataType::Float),
            10 => Ok(DataType::Double),
            32 => Ok(DataType::String),
            33 => Ok(DataType::Boolean),
            68 => Ok(DataType::TimeStamp),
            0 => Err(TdmsError::NotImplemented("Void DataType not supported in public API".to_owned())),
            _ => Err(TdmsError::NotImplemented(unsupported_code_message(val))),
        }
    }

    /// The code of this data type.
    pub fn to_u32(&self) -> (r: u32)
        ensures
            r == type_code(*self),
    {
        match self {
            DataType::I8 => 1,
            DataType::I16 => 2,
            DataType::I32 => 3,
            DataType::I64 => 4,
            DataType::U8 => 5,
            DataType::U16 => 6,
            DataType::U32 => 7,
            DataType::U64 => 8,
            DataType::Float => 9,
            DataType::Double => 10,
            DataType::String => 32,
            DataType::Boolean => 33,
            DataType::TimeStamp => 68,
        }
    }

    /// The number of bytes of one value; 0 for strings, whose values vary in size.
    pub fn itemsize(&self) -> (r: usize)
        ensures
            r == type_size(*self),
    {
        match self {
            DataType::I8 | DataType::U8 | DataType::Boolean => 1,
            DataType::I16 | DataType::U16 => 2,
            DataType::I32 | DataType::U32 | DataType::Float => 4,
            DataType::I64 | DataType::U64 | DataType::Double => 8,
            DataType::TimeStamp => 16,
            DataType::String => 0,
        }
    }
}

/// A code names at most one data type, and every data type is named by its own code.
pub proof fn lemma_type_code_roundtrip(t: DataType, val: u32)
    ensures
        type_of_code(type_code(t)) == Some(t),
        type_of_code(val) matches Some(u) ==> type_code(u) == val,
{
}

/// The value of a property.
///
/// Floating-point values are held by their IEEE 754 bit patterns (`Float` the
/// single-precision bits, `Double` the double-precision bits), exactly as the file stores them.
#[derive(Debug, PartialEq)]
pub enum PropertyValue {
    I8(i8),
    I16(i16),
    I32(i32),
    I64(i64),
    U8(u8),
    U16(u16),
    U32(u32),
    U64(u64),
    Float(u32),
    Double(u64),
    String(String),
    Boolean(bool),
    TimeStamp((i64, u64)),
}

/// The mathematical value of a [`PropertyValue`]: a string by its characters.
pub enum PropertyModel {
    I8(i8),
    I16(i16),
    I32(i32),
    I64(i64),
    U8(u8),
    U16(u16),
    U32(u32),
    U64(u64),
    Float(u32),
    Double(u64),
    String(Seq<char>),
    Boolean(bool),
    TimeStamp((i64, u64)),
}

impl View for PropertyValue {
    type V = PropertyModel;

    open spec fn view(&self) -> PropertyModel {
        match self {
            PropertyValue::I8(v) => PropertyModel::I8(*v),
            PropertyValue::I16(v) => PropertyModel::I16(*v),
            PropertyValue::I32(v) => PropertyModel::I32(*v),
            PropertyValue::I64(v) => PropertyModel::I64(*v),
            PropertyValue::U8(v) => PropertyModel::U8(*v),
            PropertyValue::U16(v) => PropertyModel::U16(*v),
            PropertyValue::U32(v) => PropertyModel::U32(*v),
            PropertyValue::U64(v) => PropertyModel::U64(*v),
            PropertyValue::Float(v) => PropertyModel::Float(*v),
            PropertyValue::Double(v) => PropertyModel::Double(*v),
            PropertyValue::String(s) => PropertyModel::String(s@),
            PropertyValue::Boolean(b) => PropertyModel::Boolean(*b),
            PropertyValue::TimeStamp(t) => PropertyModel::TimeStamp(*t),
        }
    }
}

/// The data type under which a property value is stored.
pub open spec fn property_type(v: PropertyModel) -> DataType {
    match v {
        PropertyModel::I8(_) => DataType::I8,
        PropertyModel::I16(_) => DataType::I16,
        PropertyModel::I32(_) => DataType::I32,
        PropertyModel::I64(_) => DataType::I64,
        PropertyModel::U8(_) => DataType::U8,
        PropertyModel::U16(_) => DataType::U16,
        PropertyModel::U32(_) => DataType::U32,
        PropertyModel::U64(_) => DataType::U64,
        PropertyModel::Float(_) => DataType::Float,
        PropertyModel::Double(_) => DataType::Double,
        PropertyModel::String(_) => DataType::String,
        PropertyModel::Boolean(_) => DataType::Boolean,
        PropertyModel::TimeStamp(_) => DataType::TimeStamp,
    }
}

impl PropertyValue {
    /// A copy of this value, with the same view.
    pub fn duplicate(&self) -> (r: PropertyValue)
        ensures
            r@ == self@,
    {
        match self {
            PropertyValue::I8(v) => PropertyValue::I8(*v),
            PropertyValue::I16(v) => PropertyValue::I16(*v),
            PropertyValue::I32(v) => PropertyValue::I32(*v),
            PropertyValue::I64(v) => PropertyValue::I64(*v),
            PropertyValue::U8(v) => PropertyValue::U8(*v),
            PropertyValue::U16(v) => PropertyValue::U16(*v),
            PropertyValue::U32(v) => PropertyValue::U32(*v),
            PropertyValue::U64(v) => PropertyValue::U64(*v),
            PropertyValue::Float(v) => PropertyValue::Float(*v),
            PropertyValue::Double(v) => PropertyValue::Double(*v),
            PropertyValue::String(s) => PropertyValue::String(s.clone()),
            PropertyValue::Boolean(b) => PropertyValue::Boolean(*b),
            PropertyValue::TimeStamp(t) => PropertyValue::TimeStamp(*t),
        }
    }
}

impl From<(i64, u64)> for PropertyValue {
    fn from(t: (i64, u64)) -> (r: PropertyValue) {
        PropertyValue::TimeStamp(t)
    }
}

impl vstd::std_specs::convert::FromSpecImpl<(i64, u64)> for PropertyValue {
    open spec fn obeys_from_spec() -> bool {
        true
    }

    open spec fn from_spec(t: (i64, u64)) -> PropertyValue {
        PropertyValue::TimeStamp(t)
    }
}

impl From<String> for PropertyValue {
    fn from(s: String) -> (r: PropertyValue) {
        PropertyValue::String(s)
    }
}

impl vstd::std_specs::convert::FromSpecImpl<String> for PropertyValue {
    open spec fn obeys_from_spec() -> bool {
        true
    }

    open spec fn from_spec(s: String) -> PropertyValue {
        PropertyValue::String(s)
    }
}

impl From<i32> for PropertyValue {
    fn from(i: i32) -> (r: PropertyValue) {
        PropertyValue::I32(i)
    }
}

impl vstd::std_specs::convert::FromSpecImpl<i32> for PropertyValue {
    open spec fn obeys_from_spec() -> bool {
        true
    }

    open spec fn from_spec(i: i32) -> PropertyValue {
        PropertyValue::I32(i)
    }
}

impl From<bool> for PropertyValue {
    fn from(b: bool) -> (r: PropertyValue) {
        PropertyValue::Boolean(b)
    }
}

impl vstd::std_specs::convert::FromSpecImpl<bool> for PropertyValue {
    open spec fn obeys_from_spec() -> bool {
        true
    }

    open spec fn from_spec(b: bool) -> PropertyValue {
        PropertyValue::Boolean(b)
    }
}


impl<'a> From<&'a str> for PropertyValue {
    fn from(s: &'a str) -> (r: PropertyValue)
        ensures
            r@ == PropertyModel::String(s@),
    {
        PropertyValue::String(s.to_owned())
    }
}

impl<'a> vstd::std_specs::convert::FromSpecImpl<&'a str> for PropertyValue {
    /// A `String` is not a mathematical value, so the conversion is described by its view,
    /// in the `ensures` of `from`, not by a spec function.
    open spec fn obeys_from_spec() -> bool {
        false
    }

    open spec fn from_spec(s: &'a str) -> PropertyValue {
        choose|v: PropertyValue| v@ == PropertyModel::String(s@)
    }
}

impl<'a> From<&'a String> for PropertyValue {
    fn from(s: &'a String) -> (r: PropertyValue)
        ensures
            r@ == PropertyModel::String(s@),
    {
        PropertyValue::String(s.clone())
    }
}

impl<'a> vstd::std_specs::convert::FromSpecImpl<&'a String> for PropertyValue {
    /// A `String` is not a mathematical value, so the conversion is described by its view,
    /// in the `ensures` of `from`, not by a spec function.
    open spec fn obeys_from_spec() -> bool {
        false
    }

    open spec fn from_spec(s: &'a String) -> PropertyValue {
        choose|v: PropertyValue| v@ == PropertyModel::String(s@)
    }
}

} // verus!
