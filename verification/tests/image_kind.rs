use brp::image_kind::{is_supported_image, supported_kind, ImageKind};

#[test]
fn recognizes_supported_extensions() {
    assert!(is_supported_image("a.png"));
    assert!(is_supported_image("a.webp"));
    assert!(!is_supported_image("a.jpg"), "lossy sources are refused");
    assert!(!is_supported_image("a.brp"));
    assert!(!is_supported_image("a.txt"));
}

#[test]
fn only_the_two_lossless_kinds_are_supported() {
    assert!(supported_kind(Some(ImageKind::Png)));
    assert!(supported_kind(Some(ImageKind::WebP)));
    assert!(!supported_kind(Some(ImageKind::Other)));
    assert!(!supported_kind(None));
    assert!(is_supported_image("dir.with.dots/photo.PNG"));
}
