//! Errors reported by the reader and the writer.
use vstd::prelude::*;

verus! {

/// Everything that can go wrong while indexing, reading or writing a TDMS image.
#[derive(Debug)]
pub enum TdmsError {
    /// The data ended before a value that the format announces could be read.
    UnexpectedEof,
    /// A segment does not start with the `TDSm` lead-in.
    InvalidSignature,
    /// A data type code that this library does not handle.
    NotImplemented(String),
    /// A name, path or string value is not valid UTF-8.
    StringEncoding,
    /// A requested value range lies outside the channel: start, end, channel length.
    InvalidRange(usize, usize, usize),
    /// The element type of a read does not match the channel's data type.
    TypeMismatch,
    /// The data or a caller's buffer does not have the expected shape.
    InvalidFormat(String),
    /// An empty group, channel or property name.
    InvalidName(String),
    /// A writer handle names a group that the writer does not hold.
    GroupNotFound(String),
    /// A writer handle names a channel that the group does not hold: channel, group.
    ChannelNotFound(String, String),
}

/// The mathematical value of a [`TdmsError`]: its texts as character sequences.
pub enum ErrorModel {
    UnexpectedEof,
    InvalidSignature,
    NotImplemented(Seq<char>),
    StringEncoding,
    InvalidRange(usize, usize, usize),
    TypeMismatch,
    InvalidFormat(Seq<char>),
    InvalidName(Seq<char>),
    GroupNotFound(Seq<char>),
    ChannelNotFound(Seq<char>, Seq<char>),
}

impl View for TdmsError {
    type V = ErrorModel;

    open spec fn view(&self) -> ErrorModel {
        match self {
            TdmsError::UnexpectedEof => ErrorModel::UnexpectedEof,
            TdmsError::InvalidSignature => ErrorModel::InvalidSignature,
            TdmsError::NotImplemented(m) => ErrorModel::NotImplemented(m@),
            TdmsError::StringEncoding => ErrorModel::StringEncoding,
            TdmsError::InvalidRange(a, b, c) => ErrorModel::InvalidRange(*a, *b, *c),
            TdmsError::TypeMismatch => ErrorModel::TypeMismatch,
            TdmsError::InvalidFormat(m) => ErrorModel::InvalidFormat(m@),
            TdmsError::InvalidName(m) => ErrorModel::InvalidName(m@),
            TdmsError::GroupNotFound(g) => ErrorModel::GroupNotFound(g@),
            TdmsError::ChannelNotFound(c, g) => ErrorModel::ChannelNotFound(c@, g@),
        }
    }
}

} // verus!
