//! Reading and writing of TDMS files (the NI Technical Data Management Streaming format),
//! verified with Verus.
pub mod bench;
pub mod cut;
pub mod datatypes;
pub mod element;
pub mod encoding;
pub mod image;
pub mod error;
pub mod names;
pub mod order;
pub mod path;
pub mod index;
pub mod laws;
pub mod reader;
pub mod runs;
pub mod roundtrip;
pub mod segment;
pub mod tail;
pub mod text;
pub mod values;
pub mod writable;
pub mod writer;

pub use datatypes::{DataType, PropertyValue};
pub use error::TdmsError;
pub use reader::{TdmsChannel, TdmsFile, TdmsGroup};
pub use values::{F32Bits, F64Bits, Pod};
pub use writable::WritableType;
pub use writer::{TdmsWriter, WriterChannel, WriterGroup};
