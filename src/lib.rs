//! A zero-copy, schema-evolvable binary object format: a builder that packs
//! records into one backward-growing byte buffer, and accessors that read
//! fields straight out of the finished bytes.
use vstd::prelude::*;

pub mod builder;
pub mod codec;
pub mod table;

pub use builder::{BuildError, Builder};
pub use codec::Scalar;
pub use table::{root_table, ReadError, Struct, Table};

verus! {

/// A vector inside a finished buffer: an element handle and the buffer
/// byte where the vector's length prefix starts.
pub struct FlatVec<'a, A> {
    pub elem: A,
    pub start: &'a u8,
}

/// A string inside a finished buffer: the byte where its length prefix
/// starts.
pub struct FlatStr<'a> {
    pub start: &'a u8,
}

} // verus!
