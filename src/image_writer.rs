use crate::scene_description::Film;
use vstd::prelude::*;

verus! {

/// Where and at what size the rendered image is written.
pub struct ImageWriter {
    filepath: String,
    width: u64,
    height: u64,
}

impl ImageWriter {
    /// The output path, without extension.
    pub closed spec fn filepath(&self) -> Seq<char> {
        self.filepath@
    }

    pub closed spec fn width(&self) -> u64 {
        self.width
    }

    pub closed spec fn height(&self) -> u64 {
        self.height
    }

    pub fn new(film: &Film) -> (r: Self)
        ensures
            r.filepath() == film.filename@,
            r.width() == film.xresolution as u64,
            r.height() == film.yresolution as u64,
    {
        ImageWriter {
            filepath: film.filename.clone(),
            width: film.xresolution as u64,
            height: film.yresolution as u64,
        }
    }

    pub fn filepath_str(&self) -> (r: &str)
        ensures
            r@ == self.filepath(),
    {
        self.filepath.as_str()
    }

    pub fn width_px(&self) -> (r: u64)
        ensures
            r == self.width(),
    {
        self.width
    }

    pub fn height_px(&self) -> (r: u64)
        ensures
            r == self.height(),
    {
        self.height
    }
}

} // verus!
