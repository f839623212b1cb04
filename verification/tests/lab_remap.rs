use brp::image::RawImage;
use brp::lab::remap::{apply, census, plan, plan_by, undo, Criterion};

fn image(w: u32, h: u32, ch: u8, f: impl Fn(u32, u32, u8) -> u8) -> RawImage {
    let mut data = Vec::new();
    for y in 0..h {
        for x in 0..w {
            for c in 0..ch {
                data.push(f(x, y, c));
            }
        }
    }
    RawImage::new(w, h, ch, data).unwrap()
}

#[test]
fn round_trips_at_every_threshold() {
    let img = image(17, 9, 3, |x, y, c| {
        // Values are spread out on purpose, so most of the alphabet is missing.
        ((x * 8 + y * 3 + u32::from(c) * 40) % 256) as u8
    });
    let c = census(&img);
    for threshold in [1usize, 4, 16, 64, 200, 256] {
        let map = plan_by(&c, Criterion::Missing, threshold);
        let there = apply(&img, &map);
        assert_eq!(undo(&there, &map).unwrap(), img, "threshold {threshold}");
    }
}

#[test]
fn interior_gaps_ignore_a_contiguous_band() {
    // Sixteen consecutive values high in the range: 240 missing, no interior gap.
    let img = image(16, 16, 1, |x, _, _| 200 + (x % 16) as u8);
    let c = census(&img);
    assert_eq!(c[0].missing(), 240);
    assert_eq!(c[0].interior_gaps(), 0);
    assert_eq!(plan(&c, 1).touched(), 0, "nothing to gain, so leave it alone");
    assert_eq!(
        plan_by(&c, Criterion::Missing, 1).touched(),
        1,
        "the other criterion fires, which is why it is the wrong one"
    );
}

#[test]
fn a_two_valued_channel_collapses_to_two_ranks() {
    let img = image(8, 8, 1, |x, _, _| if x % 2 == 0 { 0 } else { 255 });
    let c = census(&img);
    assert_eq!(c[0].distinct(), 2);
    assert_eq!(c[0].missing(), 254);

    let map = plan(&c, 1);
    let there = apply(&img, &map);
    assert_eq!(there.data().iter().copied().max().unwrap(), 1);
    assert_eq!(undo(&there, &map).unwrap(), img);

    // A bitmap over the range is cheaper than listing 254 values, and the choice is priced,
    // not guessed: two endpoints and 256 bits against a count and 254 bytes.
    assert_eq!(map.table_bits(1, &c), 1 + 1 + 16 + 256);
}

#[test]
fn the_threshold_is_respected() {
    // One missing value only.
    let img = image(16, 16, 1, |x, y, _| {
        let v = (x * 16 + y) as u8;
        if v == 7 {
            8
        } else {
            v
        }
    });
    let c = census(&img);
    assert_eq!(c[0].missing(), 1);
    assert_eq!(c[0].interior_gaps(), 1);
    assert_eq!(plan(&c, 2).touched(), 0, "below the threshold, left alone");
    assert_eq!(plan(&c, 1).touched(), 1, "at the threshold, remapped");
}

/// The map is monotone, so it can only shrink the arithmetic distance between two samples.
#[test]
fn ranks_never_grow_an_arithmetic_difference() {
    let img = image(16, 16, 1, |x, y, _| ((x * 13 + y * 7) % 200) as u8);
    let c = census(&img);
    let map = plan(&c, 1);
    let there = apply(&img, &map);
    for (a, b) in img.data().windows(2).zip(there.data().windows(2)) {
        let before = i32::from(a[1]) - i32::from(a[0]);
        let after = i32::from(b[1]) - i32::from(b[0]);
        assert!(after.abs() <= before.abs(), "{before} -> {after}");
    }
}

/// A census reports the range and the names of the two criteria.
#[test]
fn census_range_and_criterion_names() {
    let img = image(4, 1, 1, |x, _, _| [9u8, 3, 200, 3][x as usize]);
    let c = census(&img);
    assert_eq!(c[0].range(), Some((3, 200)));
    assert_eq!(c[0].distinct(), 3);
    assert_eq!(c[0].interior_gaps(), 200 - 3 + 1 - 3);
    assert_eq!(Criterion::Missing.name(), "missing");
    assert_eq!(Criterion::InteriorGaps.name(), "gaps");
    assert_eq!(Criterion::Missing.count(&c[0]), 253);
}
