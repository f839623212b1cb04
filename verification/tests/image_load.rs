use brp::image_load::{from_shape, load_bytes, ImageShape, LoadError};
use image::ImageEncoder;

fn png(width: u32, height: u32, color: image::ExtendedColorType, data: &[u8]) -> Vec<u8> {
    let mut out = Vec::new();
    image::codecs::png::PngEncoder::new(std::io::Cursor::new(&mut out))
        .write_image(data, width, height, color)
        .unwrap();
    out
}

#[test]
fn png_round_trips_every_channel_layout() {
    let colors = [
        image::ExtendedColorType::L8,
        image::ExtendedColorType::La8,
        image::ExtendedColorType::Rgb8,
        image::ExtendedColorType::Rgba8,
    ];
    for (i, color) in colors.into_iter().enumerate() {
        let ch = i as u32 + 1;
        let data: Vec<u8> = (0..(8 * 8 * ch)).map(|i| (i * 5 % 251) as u8).collect();
        let loaded = load_bytes(&png(8, 8, color, &data)).unwrap();
        assert!(!loaded.narrowed, "{ch} channels");
        assert_eq!(loaded.image.channels() as u32, ch);
        assert_eq!(loaded.image.data(), &data[..]);
    }
}

#[test]
fn sixteen_bit_sources_are_narrowed() {
    // One 16-bit grey pixel, big-endian as PNG stores it.
    let loaded = load_bytes(&png(1, 1, image::ExtendedColorType::L16, &[0x12, 0x34])).unwrap();
    assert!(loaded.narrowed);
    assert_eq!(loaded.image.channels(), 1);
}

#[test]
fn garbage_is_not_an_image() {
    assert_eq!(load_bytes(b"not an image").err(), Some(LoadError::NotAnImage));
}

#[test]
fn the_layout_follows_the_colour_type() {
    let shape = |color_channels, has_alpha, native| ImageShape { color_channels, has_alpha, native };
    let l = from_shape(1, 1, shape(3, false, None), vec![1, 2, 3]).unwrap();
    assert!(l.narrowed && l.image.channels() == 3);
    let l = from_shape(1, 1, shape(2, true, None), vec![1, 2]).unwrap();
    assert!(l.narrowed && l.image.channels() == 2);
    let l = from_shape(1, 1, shape(4, true, Some(4)), vec![1, 2, 3, 4]).unwrap();
    assert!(!l.narrowed && l.image.channels() == 4);
    assert!(matches!(
        from_shape(1, 1, shape(1, false, None), vec![1, 2]),
        Err(LoadError::Image(_))
    ));
}

#[test]
fn encode_png_round_trips_through_load_bytes() {
    for ch in 1..=4u8 {
        let data: Vec<u8> = (0..(8 * 8 * u32::from(ch))).map(|i| (i * 5 % 251) as u8).collect();
        let src = brp::RawImage::new(8, 8, ch, data).unwrap();
        let png = brp::image_load::encode_png(&src).unwrap();
        let loaded = load_bytes(&png).unwrap();
        assert!(!loaded.narrowed, "{ch} channels");
        assert_eq!(loaded.image, src, "{ch} channels");
    }
}
