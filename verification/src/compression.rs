//! Column codecs.

use vstd::prelude::*;

pub mod dictionary;

verus! {

/// How a column of a segment is compressed.
#[derive(Clone, Copy, PartialEq, Eq, Structural, Debug)]
pub enum CompressionType {
    Gorilla,
    DeltaVarint,
    Dictionary,
    DictionaryLz4,
    Lz4,
    Lz4Blocked,
    BooleanBitmap,
}

/// A compressed column of a segment: the values of its non-null rows, and which rows are null.
pub struct CompressedColumn {
    pub type_tag: CompressionType,
    pub row_count: u32,
    pub null_bitmap: Vec<u8>,
    pub data: Vec<u8>,
}

} // verus!
