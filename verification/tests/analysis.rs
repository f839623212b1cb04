use brp::analysis::analyze;
use brp::channels::ChannelMode;
use brp::encode::{encode, CoderChoice, EncodeOptions, FilterChoice};
use brp::image::RawImage;

/// Analysis tests want the block stream unobscured by prediction, except where they say so.
fn plain() -> EncodeOptions {
    EncodeOptions {
        filter: FilterChoice::Off,
        coder: CoderChoice::Fixed,
        ..Default::default()
    }
}

#[test]
fn accounts_for_every_bit_in_the_file() {
    let src = RawImage::new(8, 8, 3, (0..192u32).map(|v| v as u8).collect()).unwrap();
    let bytes = encode(&src, &plain()).unwrap();
    let a = analyze(&bytes).unwrap();

    assert_eq!(a.file_bytes, bytes.len());
    assert_eq!(a.header_bytes, 27);
    assert_eq!(a.raw_bytes, 192);
    assert_eq!(a.blocks.len(), 1);
    assert_eq!(a.trailing_bytes, 0);

    let body_bits = a.filter_bits + a.block_header_bits + a.payload_bits + a.padding_bits;
    assert_eq!(body_bits % 8, 0);
    assert_eq!(
        a.header_bytes + (body_bits / 8) as usize,
        a.file_bytes,
        "header + filters + block headers + payload + padding must be the whole file"
    );
}

/// The same accounting must hold with prediction on, where the filter codes shift everything.
#[test]
fn accounts_for_every_bit_with_prediction() {
    let data: Vec<u8> = (0..(16 * 16 * 3))
        .map(|i| (60 + (i / 3) % 7) as u8)
        .collect();
    let src = RawImage::new(16, 16, 3, data).unwrap();
    let bytes = encode(
        &src,
        &EncodeOptions {
            block_size: Some((4, 4)),
            filter: FilterChoice::Row,
            coder: CoderChoice::Fixed,
            ..Default::default()
        },
    )
    .unwrap();
    let a = analyze(&bytes).unwrap();

    assert_eq!(a.filter_kinds.len(), 16, "one predictor per row");
    assert_eq!(a.filter_bits, 16 * 3);
    let body_bits = a.filter_bits + a.block_header_bits + a.payload_bits + a.padding_bits;
    assert_eq!(body_bits % 8, 0);
    assert_eq!(a.header_bytes + (body_bits / 8) as usize, a.file_bytes);
}

#[test]
fn a_constant_channel_never_reaches_the_block_stream() {
    let src = RawImage::new(4, 4, 1, vec![77; 16]).unwrap();
    let bytes = encode(&src, &EncodeOptions::default()).unwrap();
    let a = analyze(&bytes).unwrap();

    assert!(a.blocks.is_empty());
    assert_eq!(a.block_header_bits, 0);
    assert_eq!(a.payload_bits, 0);
    assert_eq!(a.filter_bits, 0, "nothing to predict");
    assert_eq!(a.header.plan.mode(0), ChannelMode::Constant(77));
    assert_eq!(a.file_bytes, 28);
}

#[test]
fn histogram_is_indexed_by_image_channel() {
    // Green aliases red, so the coded channels are 0 and 2 and the histogram must skip 1.
    let data: Vec<u8> = (0..16u8).flat_map(|v| [v, v, 255 - v]).collect();
    let src = RawImage::new(4, 4, 3, data).unwrap();
    let bytes = encode(&src, &plain()).unwrap();
    let a = analyze(&bytes).unwrap();

    assert_eq!(a.header.plan.mode(1), ChannelMode::Alias(0));
    let counted: u64 = a.width_code_histogram[1].iter().sum();
    assert_eq!(counted, 0, "an aliased channel contributes no width codes");
    assert!(a.width_code_histogram[0].iter().sum::<u64>() > 0);
    assert!(a.width_code_histogram[2].iter().sum::<u64>() > 0);
}

#[test]
fn counts_blocks_across_a_grid() {
    let src = RawImage::new(10, 6, 1, (0..60u8).collect()).unwrap();
    let opts = EncodeOptions {
        block_size: Some((4, 4)),
        filter: FilterChoice::Off,
        coder: CoderChoice::Fixed,
        ..Default::default()
    };
    let bytes = encode(&src, &opts).unwrap();
    let a = analyze(&bytes).unwrap();

    assert_eq!(a.blocks.len(), 6);
    assert_eq!(a.block_header_bits, 6 * 12);
    let covered: u64 = a.blocks.iter().map(|b| b.rect.pixel_count()).sum();
    assert_eq!(covered, 60);
}
