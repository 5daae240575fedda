//! Pixel formats and their properties.
use vstd::prelude::*;

verus! {

#[derive(Clone, Copy, Debug, PartialEq, Eq, Structural, Hash)]
pub enum Format {
    Unknown,
    R32UNorm,
    R16UNorm,
    R8Unorm,
    RGBA8UNorm,
    RGBA8Srgb,
    BGR8UNorm,
    BGRA8UNorm,
    DXT1,
    DXT1Alpha,
    DXT3,
    DXT5,
    R16Float,
    R32Float,
    RG32Float,
    RG16Float,
    RGB32Float,
    RGBA32Float,
    RG16UNorm,
    RG8UNorm,
    R32UInt,
    RGBA16Float,
    R11G11B10Float,
    RG16UInt,
    R16UInt,
    R16SNorm,
    D16,
    D16S8,
    D32,
    D32S8,
    D24,
}

impl Format {
    pub open spec fn spec_is_depth(&self) -> bool {
        matches!(self, Format::D32 | Format::D16 | Format::D16S8 | Format::D24 | Format::D32S8)
    }

    pub open spec fn spec_is_stencil(&self) -> bool {
        matches!(self, Format::D16S8 | Format::D24 | Format::D32S8)
    }

    /// The formats whose texel size `element_size` gives.
    pub open spec fn has_element_size(&self) -> bool {
        matches!(self, Format::R32Float | Format::R16Float | Format::RG32Float | Format::RGB32Float | Format::RGBA32Float)
    }

    pub fn is_depth(&self) -> (r: bool)
        ensures
            r == self.spec_is_depth(),
    {
        matches!(self, Format::D32 | Format::D16 | Format::D16S8 | Format::D24 | Format::D32S8)
    }

    pub fn is_stencil(&self) -> (r: bool)
        ensures
            r == self.spec_is_stencil(),
    {
        matches!(self, Format::D16S8 | Format::D24 | Format::D32S8)
    }

    pub fn is_compressed(&self) -> (r: bool)
        ensures
            r == matches!(self, Format::DXT1 | Format::DXT1Alpha | Format::DXT3 | Format::DXT5),
    {
        matches!(self, Format::DXT1 | Format::DXT1Alpha | Format::DXT3 | Format::DXT5)
    }

    /// Size in bytes of one texel, for the float formats that have one.
    pub fn element_size(&self) -> (r: u32)
        requires
            self.has_element_size(),
        ensures
            *self == Format::R32Float ==> r == 4,
            *self == Format::R16Float ==> r == 2,
            *self == Format::RG32Float ==> r == 8,
            *self == Format::RGB32Float ==> r == 12,
            *self == Format::RGBA32Float ==> r == 16,
    {
        match self {
            Format::R32Float => 4,
            Format::R16Float => 2,
            Format::RG32Float => 8,
            Format::RGB32Float => 12,
            _ => 16,
        }
    }

    /// The sRGB counterpart of a linear format, where there is one.
    pub fn srgb_format(&self) -> (r: Option<Format>)
        ensures
            *self == Format::RGBA8UNorm ==> r == Some(Format::RGBA8Srgb),
            *self != Format::RGBA8UNorm ==> r.is_none(),
    {
        match self {
            Format::RGBA8UNorm => Some(Format::RGBA8Srgb),
            _ => None,
        }
    }
}

#[derive(Clone, Copy, Debug, PartialEq, Eq, Structural, Hash)]
pub enum SampleCount {
    Samples1,
    Samples2,
    Samples4,
    Samples8,
}

} // verus!
