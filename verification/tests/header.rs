use brp::alphabet::AlphabetMaps;
use brp::channels::{plan, ChannelMode, ChannelOptions, ChannelPlan};
use brp::error::BrpError;
use brp::header::{
    Header, BIT_DEPTH, BLOCK_CODER_CONTEXT, BLOCK_CODER_FIXED, BLOCK_CODER_RICE,
    FILTER_MODE_ADAPTIVE, FILTER_MODE_NONE, FLAG_ALPHABET_MAPS, HEADER_BASE_SIZE,
};

fn sample() -> Header {
    Header {
        width: 640,
        height: 480,
        channels: 4,
        bit_depth: BIT_DEPTH,
        block_w: 640,
        block_h: 480,
        filter_mode: FILTER_MODE_NONE,
        block_coder: BLOCK_CODER_FIXED,
        plan: ChannelPlan::all_coded(4),
        alphabet: AlphabetMaps::none(4),
    }
}

fn encoded(h: &Header) -> Vec<u8> {
    let mut v = Vec::new();
    h.write_to(&mut v);
    v
}

#[test]
fn round_trips_an_all_coded_header() {
    let h = sample();
    let bytes = encoded(&h);
    assert_eq!(bytes.len(), HEADER_BASE_SIZE);
    let (parsed, used) = Header::parse(&bytes).unwrap();
    assert_eq!(parsed, h);
    assert_eq!(used, HEADER_BASE_SIZE);
}

#[test]
fn round_trips_constants_and_aliases() {
    // Grayscale carried in RGBA, fully opaque: G and B alias R, alpha is constant.
    let data: Vec<u8> = (0..16u8).flat_map(|v| [v, v, v, 255]).collect();
    let plan = plan(&data, 4, &ChannelOptions::default());
    let alphabet = AlphabetMaps::none(4);
    let h = Header {
        width: 4,
        height: 4,
        channels: 4,
        plan,
        alphabet,
        ..sample()
    };
    let bytes = encoded(&h);
    // modes byte + alias byte + one constant.
    assert_eq!(bytes.len(), HEADER_BASE_SIZE + 2);

    let (parsed, used) = Header::parse(&bytes).unwrap();
    assert_eq!(parsed, h);
    assert_eq!(used, bytes.len());
    assert_eq!(parsed.coded_channels(), 1);
    assert_eq!(parsed.plan.mode(3), ChannelMode::Constant(255));
}

#[test]
fn field_offsets_match_the_spec() {
    let bytes = encoded(&sample());
    assert_eq!(&bytes[0..4], &[b'B', b'R', b'P', 0x1A]);
    assert_eq!(bytes[4], 7); // version
    assert_eq!(bytes[5], 0); // flags
    assert_eq!(&bytes[6..10], &640u32.to_le_bytes());
    assert_eq!(&bytes[10..14], &480u32.to_le_bytes());
    assert_eq!(bytes[14], 4); // channels
    assert_eq!(bytes[15], 8); // bit depth
    assert_eq!(&bytes[16..20], &640u32.to_le_bytes());
    assert_eq!(&bytes[20..24], &480u32.to_le_bytes());
    assert_eq!(bytes[24], 0); // filter mode: none
    assert_eq!(bytes[25], 0); // block coder: fixed
    assert_eq!(bytes[26], 0); // channel modes: all coded
}

#[test]
fn rejects_bad_magic_and_version() {
    let mut bytes = encoded(&sample());
    bytes[3] = b'1'; // the v1 magic
    assert_eq!(Header::parse(&bytes).unwrap_err(), BrpError::BadMagic);

    let mut bytes = encoded(&sample());
    bytes[4] = 3;
    assert_eq!(
        Header::parse(&bytes).unwrap_err(),
        BrpError::UnsupportedVersion {
            found: 3,
            expected: 7
        }
    );
}

#[test]
fn rejects_reserved_flag_bits() {
    // Bit 0 is the alphabet map flag; the other seven are still reserved.
    for bit in 1..8 {
        let mut bytes = encoded(&sample());
        bytes[5] = 1 << bit;
        assert!(matches!(
            Header::parse(&bytes).unwrap_err(),
            BrpError::ReservedFlagsSet(_)
        ));
    }
}

/// The map flag with no section behind it, and with nothing it could map.
#[test]
fn rejects_a_map_flag_it_cannot_honour() {
    let mut bytes = encoded(&sample());
    bytes[5] = FLAG_ALPHABET_MAPS;
    assert_eq!(
        Header::parse(&bytes).unwrap_err(),
        BrpError::AlphabetTruncated
    );

    // A section of four `none` bytes says nothing and must not be written at all.
    let mut bytes = encoded(&sample());
    bytes[5] = FLAG_ALPHABET_MAPS;
    bytes.extend_from_slice(&[0, 0, 0, 0]);
    assert_eq!(
        Header::parse(&bytes).unwrap_err(),
        BrpError::AlphabetSectionEmpty
    );
}

#[test]
fn rejects_zero_dimensions() {
    for (offset, what) in [
        (6, "width"),
        (10, "height"),
        (16, "block_w"),
        (20, "block_h"),
    ] {
        let mut bytes = encoded(&sample());
        bytes[offset..offset + 4].copy_from_slice(&0u32.to_le_bytes());
        assert_eq!(
            Header::parse(&bytes).unwrap_err(),
            BrpError::ZeroDimension { what },
            "offset {offset}"
        );
    }
}

#[test]
fn rejects_bad_channels_and_depth() {
    let mut bytes = encoded(&sample());
    bytes[14] = 0;
    assert_eq!(
        Header::parse(&bytes).unwrap_err(),
        BrpError::InvalidChannelCount(0)
    );

    let mut bytes = encoded(&sample());
    bytes[15] = 16;
    assert_eq!(
        Header::parse(&bytes).unwrap_err(),
        BrpError::UnsupportedBitDepth(16)
    );
}

#[test]
fn rejects_an_unknown_filter_mode() {
    for mode in 3..=255u8 {
        let mut bytes = encoded(&sample());
        bytes[24] = mode;
        assert_eq!(
            Header::parse(&bytes).unwrap_err(),
            BrpError::UnsupportedFilterMode(mode)
        );
    }
}

#[test]
fn rejects_an_unknown_block_coder() {
    for coder in (BLOCK_CODER_CONTEXT + 1)..=255u8 {
        let mut bytes = encoded(&sample());
        bytes[25] = coder;
        assert_eq!(
            Header::parse(&bytes).unwrap_err(),
            BrpError::UnsupportedBlockCoder(coder)
        );
    }
    // The three the format does define must all parse.
    for coder in [BLOCK_CODER_FIXED, BLOCK_CODER_RICE, BLOCK_CODER_CONTEXT] {
        let mut bytes = encoded(&sample());
        bytes[25] = coder;
        assert_eq!(Header::parse(&bytes).unwrap().0.block_coder, coder);
    }
}

#[test]
fn rejects_prediction_with_nothing_to_predict() {
    // Every channel constant, so no channel reaches the block stream.
    let data = vec![7u8; 4 * 4 * 3];
    let plan = plan(&data, 3, &ChannelOptions::default());
    let h = Header {
        width: 4,
        height: 4,
        channels: 3,
        filter_mode: FILTER_MODE_ADAPTIVE,
        plan,
        ..sample()
    };
    assert_eq!(
        Header::parse(&encoded(&h)).unwrap_err(),
        BrpError::FilterWithoutCodedChannels
    );
}

#[test]
fn header_rejects_truncation() {
    let bytes = encoded(&sample());
    assert!(matches!(
        Header::parse(&bytes[..HEADER_BASE_SIZE - 1]).unwrap_err(),
        BrpError::HeaderTooShort { .. }
    ));
}

#[test]
fn rejects_dimensions_that_overflow() {
    let mut bytes = encoded(&sample());
    bytes[6..10].copy_from_slice(&u32::MAX.to_le_bytes());
    bytes[10..14].copy_from_slice(&u32::MAX.to_le_bytes());
    assert_eq!(
        Header::parse(&bytes).unwrap_err(),
        BrpError::DimensionOverflow
    );
}
