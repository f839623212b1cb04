use brp::alphabet::RemapChoice;
use brp::channels::ChannelOptions;
use brp::decode::{decode, decode_with, DecodeOptions, DEFAULT_MAX_IMAGE_BYTES};
use brp::encode::{encode, CoderChoice, EncodeOptions, FilterChoice};
use brp::error::BrpError;
use brp::image::RawImage;

/// Most decoder tests reason about the block stream directly, so they pin both stages off.
fn plain() -> EncodeOptions {
    EncodeOptions {
        filter: FilterChoice::Off,
        coder: CoderChoice::Fixed,
        ..Default::default()
    }
}

fn img(w: u32, h: u32, ch: u8, data: Vec<u8>) -> RawImage {
    RawImage::new(w, h, ch, data).unwrap()
}

#[test]
fn round_trips_a_gradient() {
    let src = img(4, 4, 1, (0..16u8).collect());
    let bytes = encode(&src, &plain()).unwrap();
    assert_eq!(decode(&bytes).unwrap(), src);
}

#[test]
fn constant_channel_costs_nothing_at_all() {
    let src = img(8, 8, 1, vec![42; 64]);
    let bytes = encode(&src, &EncodeOptions::default()).unwrap();
    // 26 fixed header bytes + modes byte + one constant. No block stream.
    assert_eq!(bytes.len(), 28);
    assert_eq!(decode(&bytes).unwrap(), src);
}

#[test]
fn grayscale_in_rgb_costs_one_channel() {
    let gray: Vec<u8> = (0..64u8).collect();
    let as_rgb: Vec<u8> = gray.iter().flat_map(|&v| [v, v, v]).collect();
    let one = img(8, 8, 1, gray);
    let three = img(8, 8, 3, as_rgb);

    let a = encode(&one, &plain()).unwrap();
    let b = encode(&three, &plain()).unwrap();
    assert_eq!(decode(&b).unwrap(), three);
    // Same payload; the RGB file pays only for the alias byte.
    assert_eq!(b.len(), a.len() + 1);
}

#[test]
fn truncated_bitstream_is_an_error() {
    let src = img(4, 4, 3, (0..48u8).collect());
    let bytes = encode(&src, &plain()).unwrap();
    for cut in 27..bytes.len() {
        assert!(
            decode(&bytes[..cut]).is_err(),
            "truncation to {cut} bytes should fail"
        );
    }
}

#[test]
fn rejects_an_out_of_range_width_code() {
    let src = img(2, 2, 1, vec![0, 1, 2, 3]);
    let mut bytes = encode(&src, &plain()).unwrap();
    // Block header is base (8 bits) then width_code (4 bits): the code is the high nibble
    // of the byte right after the header.
    let wc_byte = 27 + 1;
    bytes[wc_byte] = (bytes[wc_byte] & 0x0F) | 0x90; // width_code = 9
    assert_eq!(decode(&bytes).unwrap_err(), BrpError::InvalidWidthCode(9));
}

#[test]
fn rejects_dirty_padding() {
    let src = img(2, 2, 1, vec![1, 2, 3, 4]);
    let mut bytes = encode(&src, &plain()).unwrap();
    let last = bytes.len() - 1;
    bytes[last] |= 0b0000_0001;
    assert_eq!(decode(&bytes).unwrap_err(), BrpError::NonZeroPadding);
}

#[test]
fn trailing_bytes_are_ignored() {
    let src = img(4, 4, 1, (0..16u8).collect());
    let mut bytes = encode(&src, &plain()).unwrap();
    bytes.extend_from_slice(&[0xDE, 0xAD, 0xBE, 0xEF]);
    assert_eq!(decode(&bytes).unwrap(), src);
}

/// A file that declares a huge image must be refused before the buffer is allocated, even
/// though such a file can be perfectly well-formed.
#[test]
fn enforces_the_size_limit() {
    let src = img(4, 4, 1, (0..16u8).collect());
    let mut bytes = encode(&src, &plain()).unwrap();
    bytes[6..10].copy_from_slice(&100_000u32.to_le_bytes());
    bytes[10..14].copy_from_slice(&100_000u32.to_le_bytes());

    assert_eq!(
        decode(&bytes).unwrap_err(),
        BrpError::ImageTooLarge {
            need: 10_000_000_000,
            limit: DEFAULT_MAX_IMAGE_BYTES,
        }
    );
}

#[test]
fn the_limit_is_adjustable() {
    let src = img(64, 64, 3, (0..(64 * 64 * 3)).map(|i| i as u8).collect());
    let bytes = encode(&src, &plain()).unwrap();

    let tight = DecodeOptions { max_image_bytes: 8 };
    assert!(matches!(
        decode_with(&bytes, &tight).unwrap_err(),
        BrpError::ImageTooLarge { .. }
    ));

    let roomy = DecodeOptions {
        max_image_bytes: 64 * 64 * 3,
    };
    assert_eq!(decode_with(&bytes, &roomy).unwrap(), src);
}

/// Disabling stage 1 must still produce a valid, losslessly decodable file.
#[test]
fn stage_one_is_optional() {
    let src = img(8, 8, 4, (0..64u8).flat_map(|v| [v, v, v, 255]).collect());
    let opts = EncodeOptions {
        block_size: None,
        channels: ChannelOptions {
            constants: false,
            aliases: false,
        },
        filter: FilterChoice::Off,
        coder: CoderChoice::Fixed,
        remap: RemapChoice::Gaps,
    };
    let all_coded = encode(&src, &opts).unwrap();
    let reduced = encode(&src, &plain()).unwrap();

    assert_eq!(decode(&all_coded).unwrap(), src);
    assert_eq!(decode(&reduced).unwrap(), src);
    assert!(reduced.len() < all_coded.len());
}

fn with_filter(choice: FilterChoice) -> EncodeOptions {
    EncodeOptions {
        block_size: Some((8, 8)),
        filter: choice,
        coder: CoderChoice::Fixed,
        ..Default::default()
    }
}

/// Prediction is a round trip in its own right, and `Auto` must never lose to either fixed
/// choice, since it encodes both and keeps the smaller.
#[test]
fn prediction_round_trips_and_auto_never_loses() {
    let data: Vec<u8> = (0..(32 * 32 * 3))
        .map(|i| (100 + (i / 3) % 5) as u8)
        .collect();
    let smooth = img(32, 32, 3, data);

    let off = encode(&smooth, &with_filter(FilterChoice::Off)).unwrap();
    let on = encode(&smooth, &with_filter(FilterChoice::Row)).unwrap();
    let auto = encode(&smooth, &with_filter(FilterChoice::Auto)).unwrap();

    assert_eq!(decode(&off).unwrap(), smooth);
    assert_eq!(decode(&on).unwrap(), smooth);
    assert_eq!(decode(&auto).unwrap(), smooth);
    assert_eq!(auto.len(), on.len().min(off.len()));
}

#[test]
fn rejects_an_invalid_filter_kind() {
    let src = img(8, 8, 1, (0..64u8).map(|v| v / 2).collect());
    let mut bytes = encode(&src, &with_filter(FilterChoice::Row)).unwrap();
    // The first row's predictor occupies the top three bits of the first body byte.
    bytes[27] = (bytes[27] & 0b0001_1111) | 0b1110_0000; // kind 7
    assert_eq!(decode(&bytes).unwrap_err(), BrpError::InvalidFilterKind(7));
}
