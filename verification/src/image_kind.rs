//! Which image files the tools accept as sources, judged by file extension.

use vstd::prelude::*;

verus! {

/// The image format a file name's extension names.
#[derive(Debug, Clone, Copy, PartialEq, Eq, Structural)]
pub enum ImageKind {
    Png,
    WebP,
    /// A format the `image` crate knows, other than the two above.
    Other,
}

/// What `image::ImageFormat::from_path` makes of a path, as an [`ImageKind`], or `None` where it
/// recognises no extension. A function of the path's text alone: the crate reads only the
/// extension, never the file.
pub uninterp spec fn format_from_path(path: Seq<char>) -> Option<ImageKind>;

/// Calls `image::ImageFormat::from_path`. Claims only that the answer is a function of the path
/// text, named [`format_from_path`]; which extension maps to which format is the crate's table.
#[verifier::external_body]
fn image_format_of(path: &str) -> (r: Option<ImageKind>)
    ensures
        r == format_from_path(path@),
{
    match image::ImageFormat::from_path(path) {
        Ok(image::ImageFormat::Png) => Some(ImageKind::Png),
        Ok(image::ImageFormat::WebP) => Some(ImageKind::WebP),
        Ok(_) => Some(ImageKind::Other),
        Err(_) => None,
    }
}

/// Whether a format is one the tools load: the two lossless ones. JPEG and the rest are refused,
/// since a lossy source would flatter any lossless codec.
pub open spec fn is_supported_kind(k: Option<ImageKind>) -> bool {
    k == Some(ImageKind::Png) || k == Some(ImageKind::WebP)
}

/// Decides from a format whether it is a supported source.
pub fn supported_kind(k: Option<ImageKind>) -> (b: bool)
    ensures
        b == is_supported_kind(k),
{
    match k {
        Some(ImageKind::Png) => true,
        Some(ImageKind::WebP) => true,
        _ => false,
    }
}

/// Whether `path` names a PNG or WebP file, by its extension.
pub fn is_supported_image(path: &str) -> (b: bool)
    ensures
        b == is_supported_kind(format_from_path(path@)),
{
    supported_kind(image_format_of(path))
}

} // verus!
