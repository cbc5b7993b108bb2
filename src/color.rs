use vstd::prelude::*;

verus! {

/// An RGB color space.
#[derive(Clone, Copy, Debug, PartialEq, Eq, Structural)]
pub enum ColorSpace {
    Aces2065_1,
    Rec2020,
    DciP3,
    Srgb,
}

/// A tabulated standard illuminant.
#[derive(Clone, Copy, Debug, PartialEq, Eq, Structural)]
pub enum StandardIlluminant {
    CieD65,
}

/// How an RGB triple is turned into a spectrum.
#[derive(Clone, Copy, Debug, PartialEq, Eq, Structural)]
pub enum RgbSpectrumKind {
    Reflectance,
    Unbounded,
    Illuminant(StandardIlluminant),
}

impl RgbSpectrumKind {
    /// The illuminant spectrum of a color space's white point; only sRGB has one.
    pub fn new_illuminant(color_space: ColorSpace) -> (r: Self)
        requires
            color_space == ColorSpace::Srgb,
        ensures
            r == RgbSpectrumKind::Illuminant(StandardIlluminant::CieD65),
    {
        RgbSpectrumKind::Illuminant(StandardIlluminant::CieD65)
    }
}

} // verus!
