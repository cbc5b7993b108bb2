use vstd::prelude::*;
use vstd::slice::slice_to_vec;

verus! {

/// The layout of a texel.
#[derive(Clone, Copy, Debug, PartialEq, Eq, Structural)]
pub enum Format {
    R8,
    R8G8,
    R8G8B8,
    R8G8B8A8,
}

impl Format {
    /// Bytes per texel.
    pub open spec fn spec_size(self) -> nat {
        match self {
            Format::R8 => 1,
            Format::R8G8 => 2,
            Format::R8G8B8 => 3,
            Format::R8G8B8A8 => 4,
        }
    }

    /// Bytes per texel.
    pub fn size(self) -> (r: u32)
        ensures
            r == self.spec_size(),
    {
        match self {
            Format::R8 => 1,
            Format::R8G8 => 2,
            Format::R8G8B8 => 3,
            Format::R8G8B8A8 => 4,
        }
    }
}

/// How coordinates outside `[0, 1]` are brought back.
#[derive(Clone, Copy, Debug, PartialEq, Eq, Structural)]
pub enum WrapMode {
    Clamp,
    Repeat,
}

/// An image of `width` by `height` texels stored row by row.
pub struct Texture {
    bytes: Vec<u8>,
    width: u32,
    height: u32,
    format: Format,
    wrap_u: WrapMode,
    wrap_v: WrapMode,
}

impl Texture {
    pub closed spec fn bytes(&self) -> Seq<u8> {
        self.bytes@
    }

    pub closed spec fn width(&self) -> nat {
        self.width as nat
    }

    pub closed spec fn height(&self) -> nat {
        self.height as nat
    }

    pub closed spec fn format(&self) -> Format {
        self.format
    }

    pub closed spec fn wrap_u(&self) -> WrapMode {
        self.wrap_u
    }

    pub closed spec fn wrap_v(&self) -> WrapMode {
        self.wrap_v
    }

    /// A texture over a copy of `pixels`, which must hold exactly one texel per
    /// position.
    pub fn new(
        width: u32,
        height: u32,
        format: Format,
        pixels: &[u8],
        wrap_u: WrapMode,
        wrap_v: WrapMode,
    ) -> (r: Self)
        requires
            width * height * format.spec_size() <= u32::MAX,
            width * height * format.spec_size() == pixels@.len(),
        ensures
            r.bytes() == pixels@,
            r.width() == width,
            r.height() == height,
            r.format() == format,
            r.wrap_u() == wrap_u,
            r.wrap_v() == wrap_v,
    {
        assert(width * height <= u32::MAX) by (nonlinear_arith)
            requires
                width * height * format.spec_size() <= u32::MAX,
                format.spec_size() >= 1,
        ;
        Self { bytes: slice_to_vec(pixels), width, height, format, wrap_u, wrap_v }
    }
}

} // verus!
