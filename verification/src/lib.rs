//! A minimal columnar-conversion engine: it takes dynamically typed records
//! (as a JSON parser would produce them), infers a unified column schema,
//! decodes each record into typed column values, batches them into bounded
//! row groups, encodes every column with dictionary or plain encoding plus a
//! selectable byte-level compression, and assembles the encoded blocks into a
//! single binary file image with a trailing footer and fixed-size trailer.

use vstd::prelude::*;

pub mod bytes;
pub mod codec;
pub mod convert;
pub mod decode;
pub mod encode;
pub mod file;
pub mod fp;
pub mod group;
pub mod schema;
pub mod value;

verus! {

/// Fatal errors of a conversion run. Per-row decode errors are counted and
/// skipped instead; they are reported through `RowError`.
#[derive(Debug, Clone, Copy, PartialEq, Eq, Structural)]
pub enum ConvertError {
    /// The input was empty (or the sampled prefix was), so no schema could
    /// be committed.
    SchemaInference,
    /// A column buffer handed to the encoder contained a value that does not
    /// match the column's committed logical type.
    Encoding,
    /// A file image handed to the reader is not a well-formed output of the
    /// writer.
    CorruptFile,
}

} // verus!
