//! The layout of the data that a pipeline reads.

use vstd::prelude::*;

verus! {

/// Enumeration of data rates of [InputDataBinding]
#[derive(Clone, Copy, Debug, PartialEq, Eq, Structural)]
pub enum InputDataRate {
    /// Each element of the data source corresponds to a vertex
    PerVertex,
    /// Each element of the data source corresponds to an instance
    PerInstance,
}

/// Enumeration of data formats for [InputDataAttribute]
#[derive(Clone, Copy, Debug, PartialEq, Eq, Structural)]
pub enum InputDataFormat {
    /// Two 32-bit numbers
    Vec2,
}

impl InputDataFormat {
    /// The number of bytes that a value of the format takes.
    pub open spec fn spec_size(self) -> usize {
        match self {
            InputDataFormat::Vec2 => 8,
        }
    }

    /// The number of bytes that a value of the format takes
    #[verifier::when_used_as_spec(spec_size)]
    pub fn size(self) -> (size: usize)
        ensures
            size == self.spec_size(),
    {
        match self {
            InputDataFormat::Vec2 => 8,
        }
    }
}

/// Input attribute definition in the [InputDataBinding]
#[derive(Clone, Copy, Debug, PartialEq, Eq, Structural)]
pub struct InputDataAttribute {
    /// Attribute offset
    pub offset: usize,
    /// Attribute format
    pub format: InputDataFormat,
}

/// Input definition of the vertex stage
#[derive(Debug)]
pub struct InputDataBinding {
    /// Stride of input
    pub stride: usize,
    /// Input data rate
    pub rate: InputDataRate,
    /// Attributes of this binding
    pub attributes: Vec<InputDataAttribute>,
}

impl InputDataBinding {
    /// Every attribute lies within one element of the binding.
    pub open spec fn fits(&self) -> bool {
        forall|at: int|
            0 <= at < self.attributes@.len() ==> (#[trigger] self.attributes@[at]).offset
                + self.attributes@[at].format.spec_size() <= self.stride
    }

    /// Whether every attribute lies within one element of the binding
    pub fn is_consistent(&self) -> (consistent: bool)
        ensures
            consistent == self.fits(),
    {
        let mut at: usize = 0;
        while at < self.attributes.len()
            invariant
                at <= self.attributes@.len(),
                forall|k: int|
                    0 <= k < at ==> (#[trigger] self.attributes@[k]).offset
                        + self.attributes@[k].format.spec_size() <= self.stride,
            decreases self.attributes@.len() - at,
        {
            let attribute = self.attributes[at];
            let size = attribute.format.size();
            if attribute.offset > self.stride || self.stride - attribute.offset < size {
                return false;
            }
            at += 1;
        }
        true
    }
}

} // verus!
