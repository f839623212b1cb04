//! Loading an encoded PNG or WebP image into the channel layout that holds it most directly.

use crate::error::BrpError;
use crate::image::{len_fits, RawImage};
use image::{GenericImageView, ImageEncoder};
use vstd::prelude::*;

verus! {

#[verifier::external_type_specification]
#[verifier::external_body]
pub struct ExDynamicImage(image::DynamicImage);

/// An image loaded from encoded bytes, and whether loading it was lossless.
pub struct Loaded {
    pub image: RawImage,
    /// True when the source had more than 8 bits per sample and was reduced to 8.
    pub narrowed: bool,
}

/// Why encoded bytes gave no image.
#[derive(Debug, Clone, PartialEq, Eq)]
pub enum LoadError {
    /// The `image` crate could not decode the bytes, or could not encode the image.
    NotAnImage,
    /// The decoded samples did not make a valid image.
    Image(BrpError),
}

/// What an image decoder produced, as the layout decision needs it.
#[derive(Debug, Clone, Copy, PartialEq, Eq, Structural)]
pub struct ImageShape {
    /// Channels of the decoded colour type.
    pub color_channels: u8,
    /// Whether the decoded colour type has alpha.
    pub has_alpha: bool,
    /// The channel count when the decoded buffer is already one of the four 8-bit layouts.
    pub native: Option<u8>,
}

/// Which 8-bit layout an image of shape `s` is stored in: its own when it already is one, else
/// grey or colour, with or without alpha, as its colour type has.
pub open spec fn layout_channels(s: ImageShape) -> u8 {
    match s.native {
        Some(c) => c,
        None => {
            let grey = s.color_channels <= 2;
            if grey && !s.has_alpha {
                1
            } else if grey {
                2
            } else if !s.has_alpha {
                3
            } else {
                4
            }
        },
    }
}

/// Calls `image::load_from_memory`. Nothing is claimed of the decoded image.
#[verifier::external_body]
fn load_from_memory(bytes: &[u8]) -> (r: Option<image::DynamicImage>) {
    image::load_from_memory(bytes).ok()
}

/// Calls `GenericImageView::dimensions` on a decoded image.
#[verifier::external_body]
fn dimensions_of(img: &image::DynamicImage) -> (r: (u32, u32)) {
    img.dimensions()
}

/// Calls `DynamicImage::color` and reads the colour type's channel count and alpha flag.
#[verifier::external_body]
fn color_of(img: &image::DynamicImage) -> (r: (u8, bool)) {
    let c = img.color();
    (c.channel_count(), c.has_alpha())
}

/// Tells the four 8-bit buffer variants of `DynamicImage` apart from the rest.
#[verifier::external_body]
fn native_channels(img: &image::DynamicImage) -> (r: Option<u8>) {
    match img {
        image::DynamicImage::ImageLuma8(_) => Some(1),
        image::DynamicImage::ImageLumaA8(_) => Some(2),
        image::DynamicImage::ImageRgb8(_) => Some(3),
        image::DynamicImage::ImageRgba8(_) => Some(4),
        _ => None,
    }
}

/// Calls `DynamicImage::to_luma8` and hands out the samples.
#[verifier::external_body]
fn luma8_samples(img: &image::DynamicImage) -> (r: Vec<u8>) {
    img.to_luma8().into_raw()
}

/// Calls `DynamicImage::to_luma_alpha8` and hands out the samples.
#[verifier::external_body]
fn luma_alpha8_samples(img: &image::DynamicImage) -> (r: Vec<u8>) {
    img.to_luma_alpha8().into_raw()
}

/// Calls `DynamicImage::to_rgb8` and hands out the samples.
#[verifier::external_body]
fn rgb8_samples(img: &image::DynamicImage) -> (r: Vec<u8>) {
    img.to_rgb8().into_raw()
}

/// Calls `DynamicImage::to_rgba8` and hands out the samples.
#[verifier::external_body]
fn rgba8_samples(img: &image::DynamicImage) -> (r: Vec<u8>) {
    img.to_rgba8().into_raw()
}

/// Puts samples of a `width` by `height` image of shape `shape` into its layout, marking it
/// narrowed unless it already was 8-bit.
pub fn from_shape(width: u32, height: u32, shape: ImageShape, samples: Vec<u8>) -> (r: Result<
    Loaded,
    LoadError,
>)
    requires
        shape.native matches Some(c) ==> 1 <= c <= 4,
    ensures
        ({
            let c = layout_channels(shape);
            &&& r is Ok <==> (width > 0 && height > 0 && len_fits(width, height, c)
                && samples@.len() == width * height * c)
            &&& r matches Ok(l) ==> {
                &&& l.image.wf()
                &&& l.image.spec_width() == width
                &&& l.image.spec_height() == height
                &&& l.image.spec_channels() == c
                &&& l.image.spec_data() == samples@
                &&& l.narrowed == shape.native.is_none()
            }
            &&& r matches Err(e) ==> e is Image
        }),
{
    let channels = match shape.native {
        Some(c) => c,
        None => {
            let grey = shape.color_channels <= 2;
            if grey && !shape.has_alpha {
                1
            } else if grey {
                2
            } else if !shape.has_alpha {
                3
            } else {
                4
            }
        },
    };
    match RawImage::new(width, height, channels, samples) {
        Ok(image) => Ok(Loaded { image, narrowed: shape.native.is_none() }),
        Err(e) => Err(LoadError::Image(e)),
    }
}

/// Decodes an in-memory PNG or WebP into the layout that holds it most directly: its own when
/// it is already 8-bit grey, grey and alpha, RGB or RGBA, and otherwise the 8-bit layout with
/// its channels, narrowed.
pub fn load_bytes(bytes: &[u8]) -> (r: Result<Loaded, LoadError>)
    ensures
        r matches Ok(l) ==> l.image.wf() && 1 <= l.image.spec_channels() <= 4,
{
    let img = match load_from_memory(bytes) {
        Some(i) => i,
        None => return Err(LoadError::NotAnImage),
    };
    let (width, height) = dimensions_of(&img);
    let (color_channels, has_alpha) = color_of(&img);
    let native = match native_channels(&img) {
        Some(c) if 1 <= c && c <= 4 => Some(c),
        _ => None,
    };
    let shape = ImageShape { color_channels, has_alpha, native };
    let samples = match layout_channels_exec(shape) {
        1 => luma8_samples(&img),
        2 => luma_alpha8_samples(&img),
        3 => rgb8_samples(&img),
        _ => rgba8_samples(&img),
    };
    from_shape(width, height, shape, samples)
}

fn layout_channels_exec(shape: ImageShape) -> (c: u8)
    requires
        shape.native matches Some(c) ==> 1 <= c <= 4,
    ensures
        c == layout_channels(shape),
        1 <= c <= 4,
{
    match shape.native {
        Some(c) => c,
        None => {
            let grey = shape.color_channels <= 2;
            if grey && !shape.has_alpha {
                1
            } else if grey {
                2
            } else if !shape.has_alpha {
                3
            } else {
                4
            }
        },
    }
}

/// The 8-bit colour layouts a PNG is written in.
#[derive(Debug, Clone, Copy, PartialEq, Eq, Structural)]
pub enum PngColor {
    L8,
    La8,
    Rgb8,
    Rgba8,
}

/// What `image`'s PNG encoder writes for samples `data` of a `width` by `height` image in layout
/// `color`, or `None` where it reports an error. A function of its arguments alone.
pub uninterp spec fn png_written(data: Seq<u8>, width: u32, height: u32, color: PngColor) -> Option<
    Seq<u8>,
>;

/// Calls `PngEncoder::write_image` into a `Vec`. Claims only that the outcome is
/// [`png_written`] of the arguments.
#[verifier::external_body]
fn png_encode(data: &[u8], width: u32, height: u32, color: PngColor) -> (r: Option<Vec<u8>>)
    requires
        data@.len() == width * height * png_channels(color),
    ensures
        r.is_some() == png_written(data@, width, height, color).is_some(),
        r matches Some(v) ==> png_written(data@, width, height, color) == Some(v@),
{
    let color = match color {
        PngColor::L8 => image::ExtendedColorType::L8,
        PngColor::La8 => image::ExtendedColorType::La8,
        PngColor::Rgb8 => image::ExtendedColorType::Rgb8,
        PngColor::Rgba8 => image::ExtendedColorType::Rgba8,
    };
    let mut out = Vec::new();
    let encoder = image::codecs::png::PngEncoder::new(std::io::Cursor::new(&mut out));
    match encoder.write_image(data, width, height, color) {
        Ok(()) => Some(out),
        Err(_) => None,
    }
}

/// Bytes per pixel of a PNG layout; the encoder panics on a buffer of any other length.
pub open spec fn png_channels(color: PngColor) -> nat {
    match color {
        PngColor::L8 => 1,
        PngColor::La8 => 2,
        PngColor::Rgb8 => 3,
        PngColor::Rgba8 => 4,
    }
}

/// The PNG layout that holds an image of `channels` channels.
pub open spec fn png_color_of(channels: u8) -> PngColor {
    if channels == 1 {
        PngColor::L8
    } else if channels == 2 {
        PngColor::La8
    } else if channels == 3 {
        PngColor::Rgb8
    } else {
        PngColor::Rgba8
    }
}

/// Encodes an image as PNG bytes, preserving its channel layout.
pub fn encode_png(raw: &RawImage) -> (r: Result<Vec<u8>, LoadError>)
    requires
        raw.wf(),
    ensures
        match png_written(
            raw.spec_data(),
            raw.spec_width(),
            raw.spec_height(),
            png_color_of(raw.spec_channels()),
        ) {
            Some(b) => r matches Ok(v) && v@ == b,
            None => r == Err::<Vec<u8>, LoadError>(LoadError::NotAnImage),
        },
{
    let color = match raw.channels() {
        1 => PngColor::L8,
        2 => PngColor::La8,
        3 => PngColor::Rgb8,
        _ => PngColor::Rgba8,
    };
    proof {
        raw.lemma_wf();
    }
    match png_encode(raw.data(), raw.width(), raw.height(), color) {
        Some(v) => Ok(v),
        None => Err(LoadError::NotAnImage),
    }
}

} // verus!
