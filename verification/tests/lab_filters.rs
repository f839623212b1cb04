use brp::image::RawImage;
use brp::lab::filters::{
    apply, join, join_zigzag, split, split_zigzag, undo, unzigzag, zigzag, FilterError,
};

fn image(w: u32, h: u32, ch: u8, f: impl Fn(u32, u32, u8) -> u8) -> RawImage {
    let mut data = Vec::new();
    for y in 0..h {
        for x in 0..w {
            for c in 0..ch {
                data.push(f(x, y, c));
            }
        }
    }
    RawImage::new(w, h, ch, data).unwrap()
}

#[test]
fn round_trips_every_channel_count() {
    for ch in 1..=4u8 {
        let img = image(13, 7, ch, |x, y, c| (x * 3 + y * 5 + u32::from(c) * 17) as u8);
        let filtered = apply(&img);
        assert_eq!(filtered.len(), 7 * (1 + 13 * usize::from(ch)));
        assert_eq!(undo(&filtered, 13, 7, ch).unwrap(), img);
    }
}

#[test]
fn filters_round_trips_edge_geometry() {
    for (w, h) in [(1, 1), (1, 9), (9, 1)] {
        let img = image(w, h, 3, |x, y, c| (x ^ y ^ u32::from(c)) as u8);
        let filtered = apply(&img);
        assert_eq!(undo(&filtered, w, h, 3).unwrap(), img);
    }
}

#[test]
fn a_flat_image_filters_to_zeros() {
    let img = image(8, 8, 3, |_, _, _| 200);
    let filtered = apply(&img);
    // Every row after the first predicts perfectly from the row above.
    let row_bytes = 8 * 3;
    for y in 1..8 {
        let row = &filtered[y * (1 + row_bytes) + 1..(y + 1) * (1 + row_bytes)];
        assert!(row.iter().all(|&b| b == 0), "row {y} should be all zeros");
    }
}

#[test]
fn split_and_join_are_inverses() {
    for ch in 1..=4u8 {
        let img = image(11, 9, ch, |x, y, c| (x * 5 + y * 7 + u32::from(c) * 3) as u8);
        let (types, residuals) = split(&img);
        assert_eq!(types.len(), 9);
        assert_eq!(residuals.width(), 11);
        assert_eq!(residuals.channels(), ch);
        assert_eq!(join(&types, &residuals).unwrap(), img);
    }
}

#[test]
fn filters_zigzag_is_a_bijection_that_keeps_magnitudes_small() {
    for v in 0..=255u8 {
        assert_eq!(unzigzag(zigzag(v)), v, "not a bijection at {v}");
    }
    // The point of the mapping: -1 and +1 both land near zero.
    assert_eq!(zigzag(0), 0);
    assert_eq!(zigzag(1), 2);
    assert_eq!(zigzag(255), 1, "-1 must map next to zero, not to 255");
    assert_eq!(zigzag(254), 3, "-2 as well");
    assert_eq!(zigzag(128), 255, "-128 is the largest magnitude");
}

#[test]
fn split_zigzag_round_trips() {
    for ch in 1..=4u8 {
        let img = image(11, 9, ch, |x, y, c| (x * 5 + y * 7 + u32::from(c) * 3) as u8);
        let (types, residuals) = split_zigzag(&img);
        assert_eq!(join_zigzag(&types, &residuals).unwrap(), img);
    }
}

/// The measured failure that motivated zigzag: an image smooth enough for prediction to work
/// still produces residuals spanning the whole byte range once signs wrap.
#[test]
fn zigzag_narrows_the_residual_range() {
    let img = image(64, 64, 1, |x, y, _| (128 + ((x + y) % 5) as i32 - 2) as u8);
    let plain = split(&img).1;
    let zigzagged = split_zigzag(&img).1;

    let span = |d: &[u8]| {
        let (mn, mx) = d.iter().fold((255u8, 0u8), |(a, b), &v| (a.min(v), b.max(v)));
        u32::from(mx) - u32::from(mn)
    };
    assert!(
        span(zigzagged.data()) < span(plain.data()),
        "zigzag should shrink the range: {} vs {}",
        span(zigzagged.data()),
        span(plain.data())
    );
}

#[test]
fn join_rejects_a_row_count_mismatch() {
    let img = image(4, 4, 3, |x, _, _| x as u8);
    let (_, residuals) = split(&img);
    assert!(join(&[0, 0], &residuals).is_err());
}

#[test]
fn filters_rejects_malformed_input() {
    assert!(undo(&[], 4, 4, 3).is_err());
    let img = image(4, 4, 3, |x, _, _| x as u8);
    let mut filtered = apply(&img);
    filtered[0] = 9; // no such filter type
    assert!(undo(&filtered, 4, 4, 3).is_err());
}

#[test]
fn the_type_of_each_row_is_the_cheapest() {
    // Row 0 has nothing above it, so Sub wins on a ramp; later rows repeat the first exactly, so Up
    // predicts them perfectly and wins.
    let img = image(6, 3, 1, |x, _, _| (x * 10) as u8);
    let (types, residuals) = split(&img);
    assert_eq!(types, vec![1, 2, 2]);
    assert_eq!(&residuals.data()[..6], &[0, 10, 10, 10, 10, 10]);
    assert!(residuals.data()[6..].iter().all(|&b| b == 0));
}

#[test]
fn undo_reports_the_first_bad_row_and_the_length() {
    let img = image(2, 3, 1, |x, y, _| (x + y) as u8);
    let mut filtered = apply(&img);
    filtered[3] = 7;
    filtered[6] = 8;
    assert_eq!(
        undo(&filtered, 2, 3, 1),
        Err(FilterError::UnknownFilterType { kind: 7, row: 1 })
    );
    assert_eq!(
        undo(&filtered[..5], 2, 3, 1),
        Err(FilterError::LengthMismatch { got: 5, expected: 9 })
    );
}
