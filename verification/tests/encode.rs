use brp::block::BlockRect;
use brp::channels::scan_plane;
use brp::encode::{bit_length, encode, scan_block, EncodeOptions, FilterChoice};
use brp::error::BrpError;
use brp::image::RawImage;

#[test]
fn bit_length_matches_the_spec() {
    assert_eq!(bit_length(0), 0, "a constant channel needs no bits");
    assert_eq!(bit_length(1), 1);
    assert_eq!(bit_length(15), 4, "the worked example from the format description");
    assert_eq!(bit_length(16), 5);
    assert_eq!(bit_length(255), 8);
}

#[test]
fn scan_plane_walks_one_channel_only() {
    // RGB pixels: red climbs, green is constant, blue descends.
    let data = vec![0, 7, 9, 10, 7, 5, 20, 7, 1];
    assert_eq!(scan_plane(&data, 0, 3), (0, 20));
    assert_eq!(scan_plane(&data, 1, 3), (7, 7));
    assert_eq!(scan_plane(&data, 2, 3), (1, 9));
}

#[test]
fn scan_block_respects_the_rectangle() {
    // 3x2 grayscale: [1 2 3 / 4 5 6]
    let data = vec![1, 2, 3, 4, 5, 6];
    let all = BlockRect {
        x: 0,
        y: 0,
        w: 3,
        h: 2,
    };
    assert_eq!(scan_block(&data, 3, 1, &all, 0), (1, 6));

    let left = BlockRect {
        x: 0,
        y: 0,
        w: 2,
        h: 2,
    };
    assert_eq!(scan_block(&data, 3, 1, &left, 0), (1, 5));

    let top_right = BlockRect {
        x: 2,
        y: 0,
        w: 1,
        h: 1,
    };
    assert_eq!(scan_block(&data, 3, 1, &top_right, 0), (3, 3));
}

#[test]
fn rejects_zero_block_size() {
    let img = RawImage::new(2, 2, 1, vec![0; 4]).unwrap();
    let opts = EncodeOptions {
        block_size: Some((0, 4)),
        ..Default::default()
    };
    assert_eq!(
        encode(&img, &opts).unwrap_err(),
        BrpError::ZeroDimension { what: "block_w" }
    );
}

/// A solid colour reduces to a bare header, whatever the image size or block size.
#[test]
fn encode_a_solid_colour_is_header_only() {
    let img = RawImage::new(256, 256, 3, [7u8, 8, 9].repeat(256 * 256)).unwrap();
    for block in [None, Some((8, 8)), Some((4, 4))] {
        let opts = EncodeOptions {
            block_size: block,
            ..Default::default()
        };
        let bytes = encode(&img, &opts).unwrap();
        // 26 fixed bytes + modes byte + three constants.
        assert_eq!(bytes.len(), 30, "block {block:?}");
    }
}

/// `Auto` must never produce a larger file than either fixed choice. Prediction has to earn
/// its place before the finer layout is tried, so the finer layout counts only once rows win.
#[test]
fn auto_picks_the_smaller_encoding() {
    let noise: Vec<u8> = (0..(24 * 24 * 3))
        .map(|i: u32| {
            let mut v = i.wrapping_mul(2_654_435_761);
            v ^= v >> 13;
            v as u8
        })
        .collect();
    let smooth: Vec<u8> = (0..(24 * 24 * 3))
        .map(|i| (40 + (i / 3) % 4) as u8)
        .collect();

    for data in [noise, smooth] {
        let img = RawImage::new(24, 24, 3, data).unwrap();
        let base = EncodeOptions {
            block_size: Some((8, 8)),
            ..Default::default()
        };
        let off = encode(
            &img,
            &EncodeOptions {
                filter: FilterChoice::Off,
                ..base.clone()
            },
        )
        .unwrap();
        let on = encode(
            &img,
            &EncodeOptions {
                filter: FilterChoice::Row,
                ..base.clone()
            },
        )
        .unwrap();
        let by_block = encode(
            &img,
            &EncodeOptions {
                filter: FilterChoice::Block,
                ..base.clone()
            },
        )
        .unwrap();
        let auto = encode(&img, &base).unwrap();
        assert!(auto.len() <= on.len().min(off.len()));
        let expected = if on.len() < off.len() {
            on.len().min(by_block.len())
        } else {
            off.len()
        };
        assert_eq!(auto.len(), expected);
    }
}
