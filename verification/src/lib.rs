//! Parser and query library for the NSS trust-store text dump format
//! ("certdata.txt"): a line-oriented encoding of PKCS#11 attribute records.
//!
//! The pipeline runs in one direction: bytes are recognised by the grammar
//! in [`syntax`], grouped into attribute records by the iterators in
//! [`reader`], validated into typed entities by [`structured`], and finally
//! collected into the sorted, queryable store in [`collect`].

pub mod collect;
pub mod reader;
pub mod structured;
pub mod syntax;
pub mod text;

pub use collect::CertData;
pub use reader::{AttrIter, AttrStep, ObjStep, ObjectIter, ParseError, RawObject, RawObjectIter, RawStep};
pub use structured::{
    Blob, Certificate, Object, StructureError, Trust, TrustLevel, TypeError, Usage, ValueError,
};
pub use syntax::{Parsed, Value};
