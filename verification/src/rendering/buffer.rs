//! What a buffer is used for and what it is filled with.

use vstd::prelude::*;

verus! {

/// Enumeration of possible buffer usages
#[derive(Clone, Copy, Debug, PartialEq, Eq, Structural)]
pub enum BufferUsage {
    /// Buffer is used for vertices
    Vertex,
    /// Buffer is used for indices
    Index,
    /// Buffer is used for shader data
    Uniform,
}

/// Enumeration of buffer data source
pub enum BufferData<'a, T> {
    /// Data is a single value
    Value(T),
    /// Data is an empty slice
    EmptySlice(usize),
    /// Data is slice
    Slice(&'a [T]),
}

impl<'a, T> BufferData<'a, T> {
    /// The number of elements that a buffer of this data holds.
    pub open spec fn spec_len(&self) -> nat {
        match *self {
            BufferData::Value(_) => 1,
            BufferData::EmptySlice(len) => len as nat,
            BufferData::Slice(slice) => slice@.len(),
        }
    }

    /// The number of elements that a buffer of this data holds
    pub fn len(&self) -> (len: usize)
        ensures
            len == self.spec_len(),
    {
        match self {
            BufferData::Value(_) => 1,
            BufferData::EmptySlice(len) => *len,
            BufferData::Slice(slice) => slice.len(),
        }
    }
}

} // verus!
