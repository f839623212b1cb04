use brp::channels::{ChannelPlan, CodedIndices};
use brp::predict::{apply, undo_in_place, unzigzag, zigzag, FilterLayout, FILTER_KINDS};

fn coded(channels: u8) -> CodedIndices {
    ChannelPlan::all_coded(channels).coded_indices()
}

fn sample(w: u32, h: u32, ch: u8, f: impl Fn(u32, u32, u8) -> u8) -> Vec<u8> {
    let mut data = Vec::new();
    for y in 0..h {
        for x in 0..w {
            for c in 0..ch {
                data.push(f(x, y, c));
            }
        }
    }
    data
}

fn round_trip(w: u32, h: u32, ch: u8, f: impl Fn(u32, u32, u8) -> u8) {
    let stride = usize::from(ch);
    let src = sample(w, h, ch, f);
    let idx = coded(ch);
    for layout in [FilterLayout::Row, FilterLayout::Block] {
        let (kinds, mut residuals) = apply(layout, &src, w, h, stride, &idx);
        assert_eq!(kinds.len(), layout.units(w, h));
        assert!(kinds.iter().all(|&k| k < FILTER_KINDS));
        undo_in_place(layout, &mut residuals, w, h, stride, &idx, &kinds);
        assert_eq!(residuals, src, "{layout:?} {w}x{h}x{ch}");
    }
}

#[test]
fn round_trips_every_geometry_and_channel_count() {
    for ch in 1..=4u8 {
        for (w, h) in [(1, 1), (1, 9), (9, 1), (13, 7), (16, 16), (17, 9)] {
            round_trip(w, h, ch, |x, y, c| (x * 3 + y * 5 + u32::from(c) * 17) as u8);
        }
    }
}

#[test]
fn predict_round_trips_full_range_noise() {
    round_trip(31, 17, 3, |x, y, c| {
        let mut v = x
            .wrapping_mul(2_654_435_761)
            .wrapping_add(y.wrapping_mul(40_503));
        v ^= v >> 13;
        (v.wrapping_add(u32::from(c))) as u8
    });
}

#[test]
fn predict_round_trips_the_extremes() {
    round_trip(8, 8, 3, |_, _, _| 0);
    round_trip(8, 8, 3, |_, _, _| 255);
    round_trip(8, 8, 3, |x, _, _| if x % 2 == 0 { 0 } else { 255 });
}

#[test]
fn predict_zigzag_is_a_bijection_that_keeps_magnitudes_small() {
    for v in 0..=255u8 {
        assert_eq!(unzigzag(zigzag(v)), v, "not a bijection at {v}");
    }
    assert_eq!(zigzag(0), 0);
    assert_eq!(zigzag(1), 2);
    assert_eq!(zigzag(255), 1, "-1 must land next to zero, not at 255");
    assert_eq!(zigzag(254), 3);
    assert_eq!(zigzag(128), 255, "-128 is the largest magnitude");
}

/// After prediction a smooth image needs far fewer bits per sample.
#[test]
fn prediction_narrows_the_range_a_block_must_cover() {
    let (w, h, ch) = (32u32, 32u32, 1u8);
    let src = sample(w, h, ch, |x, y, _| (100 + (x + y) % 3) as u8);
    let (_, residuals) = apply(FilterLayout::Row, &src, w, h, 1, &coded(ch));

    // Skip row 0: pixel (0,0) has no neighbours, so its residual is the sample itself.
    let rest = &residuals[w as usize..];
    let max = rest.iter().copied().max().unwrap();
    assert!(
        max < 16,
        "expected a 4-bit width code, largest residual was {max}"
    );
}

/// A per-block choice must be able to do what a per-row choice cannot: two halves of one row
/// that want different predictors get them.
#[test]
fn a_block_choice_adapts_within_a_row() {
    // Left half varies down the columns, right half along the rows: `up` suits one and `sub`
    // the other, and no single kind suits the row.
    let (w, h, ch) = (16u32, 16u32, 1u8);
    let src = sample(w, h, ch, |x, y, _| {
        if x < 8 {
            (y % 2 * 100) as u8
        } else {
            (x % 2 * 100) as u8
        }
    });
    let idx = coded(ch);
    let (kinds, _) = apply(FilterLayout::Block, &src, w, h, 1, &idx);
    assert_eq!(kinds.len(), 4, "two blocks across, two down");
    assert_ne!(
        kinds[0], kinds[1],
        "the halves of a row should pick different predictors"
    );

    let (_, block_residuals) = apply(FilterLayout::Block, &src, w, h, 1, &idx);
    let (_, row_residuals) = apply(FilterLayout::Row, &src, w, h, 1, &idx);
    let magnitude = |r: &[u8]| r.iter().map(|&v| u64::from(v)).sum::<u64>();
    assert!(
        magnitude(&block_residuals) < magnitude(&row_residuals),
        "the finer choice should leave smaller residuals"
    );
}

/// Elided channels are copied through, so the block packer never reads stale data from them.
#[test]
fn untouched_channels_are_preserved() {
    let (w, h, ch) = (4u32, 4u32, 3u8);
    let src = sample(w, h, ch, |x, y, c| (x + y + u32::from(c) * 100) as u8);
    // Code only channel 0.
    let plan = ChannelPlan::all_coded(1);
    let idx = plan.coded_indices();
    let (_, residuals) = apply(FilterLayout::Row, &src, w, h, 3, &idx);

    for i in (1..src.len()).step_by(3) {
        assert_eq!(residuals[i], src[i], "channel 1 must be untouched at {i}");
    }
}
