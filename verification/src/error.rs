use vstd::prelude::*;

verus! {

/// Every way a BRP bitstream or an API call can be invalid.
///
/// One variant per validation rule of the format. The decoder returns these; it never panics on
/// malformed input.
#[derive(Debug, Clone, PartialEq, Eq)]
pub enum BrpError {
    BadMagic,
    HeaderTooShort { got: usize, need: usize },
    UnsupportedVersion { found: u8, expected: u8 },
    UnsupportedBitDepth(u8),
    InvalidChannelCount(u8),
    ZeroDimension { what: &'static str },
    ReservedFlagsSet(u8),
    AlphaConstantWithoutAlpha(u8),
    DimensionOverflow,
    InvalidWidthCode(u8),
    UnexpectedEof,
    NonZeroPadding,
    ImageTooLarge { need: usize, limit: usize },
    AllocationFailed { bytes: usize },
    BufferLengthMismatch { got: usize, need: usize, width: u32, height: u32, channels: u8 },
    InvalidRiceMode(u8),
    UnsupportedFilterMode(u8),
    UnsupportedBlockCoder(u8),
    FilterWithoutCodedChannels,
    InvalidFilterKind(u8),
    ChannelModeBitsSet(u8),
    AliasOnFirstChannel,
    ReservedChannelMode(u8),
    AliasTargetBitsSet(u8),
    InvalidAliasTarget { channel: u8, target: u8 },
    AliasTargetNotCoded { channel: u8, target: u8 },
    AlphabetTruncated,
    AlphabetRangeInverted { lo: u8, hi: u8 },
    AlphabetPaddingSet,
    AlphabetListDisordered(u8),
    UnsupportedAlphabetForm(u8),
    AlphabetSectionEmpty,
    AlphabetRankOutOfRange { rank: u8, size: usize },
}

} // verus!
