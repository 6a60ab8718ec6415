//! Formats and usages of images.

use vstd::prelude::*;

verus! {

/// Enumeration of possible image formats
#[derive(Clone, Copy, Debug, PartialEq, Eq, Structural)]
pub enum ImageFormat {
    /// Grayscale
    Y,
    /// Grayscale with alpha channel
    YA,
    /// RGB
    RGB,
    /// RGB with alpha channel
    RGBA,
}

impl ImageFormat {
    /// The number of channels of a pixel.
    pub open spec fn spec_channels(self) -> usize {
        match self {
            ImageFormat::Y => 1,
            ImageFormat::YA => 2,
            ImageFormat::RGB => 3,
            ImageFormat::RGBA => 4,
        }
    }

    /// The number of channels of a pixel
    #[verifier::when_used_as_spec(spec_channels)]
    pub fn channels(self) -> (channels: usize)
        ensures
            channels == self.spec_channels(),
    {
        match self {
            ImageFormat::Y => 1,
            ImageFormat::YA => 2,
            ImageFormat::RGB => 3,
            ImageFormat::RGBA => 4,
        }
    }
}

/// Usage flags of an image
#[derive(Clone, Copy, Debug, PartialEq, Eq, Structural)]
pub struct ImageUsage {
    /// Image can be used as color attachment of a pass
    pub color_attachment: bool,
    /// Image can be used as depth attachment of a pass
    pub depth_attachment: bool,
}

impl ImageUsage {
    /// The usage without any flag
    pub fn empty() -> (usage: ImageUsage)
        ensures
            usage == (ImageUsage { color_attachment: false, depth_attachment: false }),
    {
        ImageUsage { color_attachment: false, depth_attachment: false }
    }

    /// The flags as bits: bit 0 for color, bit 1 for depth.
    pub open spec fn spec_bits(self) -> u8 {
        if self.color_attachment && self.depth_attachment {
            3
        } else if self.depth_attachment {
            2
        } else if self.color_attachment {
            1
        } else {
            0
        }
    }

    /// The flags as bits: bit 0 for color, bit 1 for depth
    pub fn bits(self) -> (bits: u8)
        ensures
            bits == self.spec_bits(),
    {
        let color: u8 = if self.color_attachment {
            1
        } else {
            0
        };
        let depth: u8 = if self.depth_attachment {
            2
        } else {
            0
        };
        color + depth
    }

    /// Whether every flag of `other` is set here
    pub fn contains(self, other: ImageUsage) -> (contains: bool)
        ensures
            contains == ((other.color_attachment ==> self.color_attachment) && (
            other.depth_attachment ==> self.depth_attachment)),
    {
        (!other.color_attachment || self.color_attachment) && (!other.depth_attachment
            || self.depth_attachment)
    }

    /// The flags that are set in either
    pub fn union(self, other: ImageUsage) -> (usage: ImageUsage)
        ensures
            usage.color_attachment == (self.color_attachment || other.color_attachment),
            usage.depth_attachment == (self.depth_attachment || other.depth_attachment),
    {
        ImageUsage {
            color_attachment: self.color_attachment || other.color_attachment,
            depth_attachment: self.depth_attachment || other.depth_attachment,
        }
    }
}

} // verus!
