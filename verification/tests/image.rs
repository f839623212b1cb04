use brp::error::BrpError;
use brp::image::{required_len, RawImage};

#[test]
fn rejects_mismatched_buffer_length() {
    let err = RawImage::new(2, 2, 3, vec![0; 11]).unwrap_err();
    assert!(matches!(err, BrpError::BufferLengthMismatch { need: 12, got: 11, .. }));
}

#[test]
fn rejects_bad_geometry() {
    assert_eq!(
        RawImage::new(0, 2, 3, vec![]).unwrap_err(),
        BrpError::ZeroDimension { what: "width" }
    );
    assert_eq!(
        RawImage::new(2, 0, 3, vec![]).unwrap_err(),
        BrpError::ZeroDimension { what: "height" }
    );
    assert_eq!(
        RawImage::new(2, 2, 5, vec![0; 20]).unwrap_err(),
        BrpError::InvalidChannelCount(5)
    );
}

#[test]
fn detects_dimension_overflow() {
    assert_eq!(
        required_len(u32::MAX, u32::MAX, 4).unwrap_err(),
        BrpError::DimensionOverflow
    );
}

#[test]
fn alpha_is_the_last_channel() {
    assert!(!RawImage::new(1, 1, 1, vec![0]).unwrap().has_alpha());
    assert!(RawImage::new(1, 1, 2, vec![0; 2]).unwrap().has_alpha());
    assert!(!RawImage::new(1, 1, 3, vec![0; 3]).unwrap().has_alpha());
    assert!(RawImage::new(1, 1, 4, vec![0; 4]).unwrap().has_alpha());
}
