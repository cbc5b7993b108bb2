use spectral_rt::cmdargs::CmdArgs;
use spectral_rt::color::{ColorSpace, RgbSpectrumKind, StandardIlluminant};
use spectral_rt::image_writer::ImageWriter;
use spectral_rt::integrator::{Integrator, IntegratorError, RandomWalkIntegrator, SimplePathIntegrator};
use spectral_rt::math::{barycentric_interp, sqr};
use spectral_rt::scene_description::{Film, FilmType, Sampler, SamplerTyp};
use spectral_rt::texture::{Format, Texture, WrapMode};

#[test]
fn squares_and_interpolation() {
    assert_eq!(sqr(7), 49);
    assert_eq!(sqr(-3), 9);
    assert_eq!(barycentric_interp(&[1, 2, 3], &10, &100, &1000), 3210);
}

#[test]
fn texel_sizes_and_textures() {
    assert_eq!(Format::R8.size(), 1);
    assert_eq!(Format::R8G8.size(), 2);
    assert_eq!(Format::R8G8B8.size(), 3);
    assert_eq!(Format::R8G8B8A8.size(), 4);
    let pixels = [0u8; 2 * 3 * 3];
    let _t = Texture::new(2, 3, Format::R8G8B8, &pixels, WrapMode::Clamp, WrapMode::Repeat);
}

#[test]
fn integrator_by_name() {
    assert_eq!(Integrator::new("random-walk"), Ok(Integrator::RandomWalk(RandomWalkIntegrator)));
    assert_eq!(Integrator::new("simple-path"), Ok(Integrator::SimplePath(SimplePathIntegrator)));
    assert_eq!(Integrator::new("simple"), Err(IntegratorError::UnknownKind));
    assert_eq!(Integrator::new(""), Err(IntegratorError::UnknownKind));
}

#[test]
fn illuminant_of_srgb() {
    assert_eq!(
        RgbSpectrumKind::new_illuminant(ColorSpace::Srgb),
        RgbSpectrumKind::Illuminant(StandardIlluminant::CieD65)
    );
}

#[test]
fn scene_defaults_and_image_writer() {
    let s = Sampler::default();
    assert_eq!(s.typ, SamplerTyp::ZSobol);
    assert_eq!(s.pixel_samples, 16);
    let film = Film::default();
    assert_eq!(film.typ, FilmType::Rgb);
    let w = ImageWriter::new(&film);
    assert_eq!(w.filepath_str(), "pbrt.exr");
    assert_eq!(w.width_px(), 1280);
    assert_eq!(w.height_px(), 720);
}

#[test]
fn default_settings() {
    let a = CmdArgs::default();
    assert!(a.num_threads >= 1);
    assert_eq!(a.scene_path, "resources/scenes/cornell-box/scene-v4.pbrt");
    assert_eq!(a.integrator, "simple-path");
}
