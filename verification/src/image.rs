use crate::error::BrpError;
use vstd::prelude::*;

verus! {

/// Largest channel count the format defines.
pub const MAX_CHANNELS: usize = 4;

/// `width * height * channels`, when every product along the way fits in a `usize`.
pub open spec fn len_fits(width: u32, height: u32, channels: u8) -> bool {
    &&& width * height <= usize::MAX
    &&& width * height * channels <= usize::MAX
}

/// The channel counts the format defines: gray, gray+alpha, RGB, RGBA.
pub open spec fn valid_channels(channels: u8) -> bool {
    1 <= channels <= 4
}

/// An 8-bit raster image: interleaved samples, row-major, no stride padding.
///
/// The codec's only input and output type, and deliberately free of any image-file concepts.
#[derive(Debug, Clone, PartialEq, Eq)]
pub struct RawImage {
    width: u32,
    height: u32,
    channels: u8,
    data: Vec<u8>,
}

impl RawImage {
    pub closed spec fn spec_width(&self) -> u32 {
        self.width
    }

    pub closed spec fn spec_height(&self) -> u32 {
        self.height
    }

    pub closed spec fn spec_channels(&self) -> u8 {
        self.channels
    }

    pub closed spec fn spec_data(&self) -> Seq<u8> {
        self.data@
    }

    /// What every image satisfies: a defined channel count, no empty dimension, and exactly
    /// `width * height * channels` samples.
    pub closed spec fn wf(&self) -> bool {
        &&& valid_channels(self.channels)
        &&& self.width > 0
        &&& self.height > 0
        &&& len_fits(self.width, self.height, self.channels)
        &&& self.data@.len() == self.width * self.height * self.channels
    }

    pub proof fn lemma_wf(&self)
        requires
            self.wf(),
        ensures
            valid_channels(self.spec_channels()),
            self.spec_width() > 0,
            self.spec_height() > 0,
            len_fits(self.spec_width(), self.spec_height(), self.spec_channels()),
            self.spec_data().len() == self.spec_width() * self.spec_height()
                * self.spec_channels(),
    {
    }

    /// Wraps an existing sample buffer.
    ///
    /// Fails if `channels` is not 1, 2, 3 or 4, if either dimension is zero, or if `data` is not
    /// exactly `width * height * channels` bytes long.
    pub fn new(width: u32, height: u32, channels: u8, data: Vec<u8>) -> (r: Result<Self, BrpError>)
        ensures
            !valid_channels(channels) ==> r == Err::<Self, BrpError>(
                BrpError::InvalidChannelCount(channels),
            ),
            valid_channels(channels) && width == 0 ==> r == Err::<Self, BrpError>(
                BrpError::ZeroDimension { what: "width" },
            ),
            valid_channels(channels) && width > 0 && height == 0 ==> r == Err::<Self, BrpError>(
                BrpError::ZeroDimension { what: "height" },
            ),
            valid_channels(channels) && width > 0 && height > 0 && !len_fits(
                width,
                height,
                channels,
            ) ==> r == Err::<Self, BrpError>(BrpError::DimensionOverflow),
            valid_channels(channels) && width > 0 && height > 0 && len_fits(width, height, channels)
                && data@.len() != width * height * channels ==> r == Err::<Self, BrpError>(
                BrpError::BufferLengthMismatch {
                    got: data@.len() as usize,
                    need: (width * height * channels) as usize,
                    width,
                    height,
                    channels,
                },
            ),
            r is Ok <==> (valid_channels(channels) && width > 0 && height > 0 && len_fits(
                width,
                height,
                channels,
            ) && data@.len() == width * height * channels),
            r matches Ok(img) ==> {
                &&& img.wf()
                &&& img.spec_width() == width
                &&& img.spec_height() == height
                &&& img.spec_channels() == channels
                &&& img.spec_data() == data@
            },
    {
        if !(1 <= channels && channels <= 4) {
            return Err(BrpError::InvalidChannelCount(channels));
        }
        if width == 0 {
            return Err(BrpError::ZeroDimension { what: "width" });
        }
        if height == 0 {
            return Err(BrpError::ZeroDimension { what: "height" });
        }
        let need = match required_len(width, height, channels) {
            Ok(n) => n,
            Err(e) => return Err(e),
        };
        if data.len() != need {
            return Err(
                BrpError::BufferLengthMismatch { got: data.len(), need, width, height, channels },
            );
        }
        Ok(RawImage { width, height, channels, data })
    }

    pub fn width(&self) -> (r: u32)
        ensures
            r == self.spec_width(),
    {
        self.width
    }

    pub fn height(&self) -> (r: u32)
        ensures
            r == self.spec_height(),
    {
        self.height
    }

    pub fn channels(&self) -> (r: u8)
        ensures
            r == self.spec_channels(),
    {
        self.channels
    }

    pub fn data(&self) -> (r: &[u8])
        ensures
            r@ == self.spec_data(),
    {
        self.data.as_slice()
    }

    pub fn into_data(self) -> (r: Vec<u8>)
        ensures
            r@ == self.spec_data(),
    {
        self.data
    }

    /// True for Gray+Alpha and RGBA. Alpha is always the last channel.
    pub fn has_alpha(&self) -> (r: bool)
        ensures
            r == (self.spec_channels() == 2 || self.spec_channels() == 4),
    {
        self.channels == 2 || self.channels == 4
    }
}

/// `width * height * channels`, or [`BrpError::DimensionOverflow`].
pub fn required_len(width: u32, height: u32, channels: u8) -> (r: Result<usize, BrpError>)
    ensures
        len_fits(width, height, channels) ==> r == Ok::<usize, BrpError>(
            (width * height * channels) as usize,
        ),
        !len_fits(width, height, channels) ==> r == Err::<usize, BrpError>(
            BrpError::DimensionOverflow,
        ),
{
    match (width as usize).checked_mul(height as usize) {
        Some(n) => match n.checked_mul(channels as usize) {
            Some(m) => Ok(m),
            None => Err(BrpError::DimensionOverflow),
        },
        None => Err(BrpError::DimensionOverflow),
    }
}

} // verus!
