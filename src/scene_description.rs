use vstd::prelude::*;
use vstd::string::*;

verus! {

#[derive(Clone, Copy, Debug, PartialEq, Eq, Structural)]
pub enum CameraTyp {
    Orthographic,
    Perspective,
    Realistic,
    Spherical,
}

#[derive(Clone, Copy, Debug, PartialEq, Eq, Structural)]
pub enum SamplerTyp {
    Halton,
    ZSobol,
}

/// The sampler of a scene: its kind and the samples per pixel.
#[derive(Clone, Copy, Debug, PartialEq, Eq, Structural)]
pub struct Sampler {
    pub typ: SamplerTyp,
    pub pixel_samples: i32,
}

impl Default for Sampler {
    fn default() -> (r: Self)
        ensures
            r == (Sampler { typ: SamplerTyp::ZSobol, pixel_samples: 16 }),
    {
        Sampler { typ: SamplerTyp::ZSobol, pixel_samples: 16 }
    }
}

#[derive(Clone, Copy, Debug, PartialEq, Eq, Structural)]
pub enum FilmType {
    Rgb,
    GBuffer,
    Spetral,
}

/// The film of a scene: its kind, resolution and output file.
#[derive(Debug)]
pub struct Film {
    pub typ: FilmType,
    pub xresolution: i32,
    pub yresolution: i32,
    pub filename: String,
}

impl Default for Film {
    fn default() -> (r: Self)
        ensures
            r.typ == FilmType::Rgb,
            r.xresolution == 1280,
            r.yresolution == 720,
            r.filename@ == "pbrt.exr"@,
    {
        Film {
            typ: FilmType::Rgb,
            xresolution: 1280,
            yresolution: 720,
            filename: String::from_str("pbrt.exr"),
        }
    }
}

/// The directives of the scene format that open or close a block.
#[derive(Clone, Copy, Debug, PartialEq, Eq, Structural)]
pub enum Directive {
    AttributeBegin,
    AttributeEnd,
    ObjectBegin,
    ObjectEnd,
}

} // verus!
