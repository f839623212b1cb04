use brp::bitio::{BitReader, BitWriter};
use brp::error::BrpError;
use brp::rice;
use brp::rice::{
    block_cost, choose_mode, cost, parameter_for, read, ESCAPE, MAX_K, MAX_MODE, MODE_CONSTANT,
    SAMPLE_BITS,
};

#[test]
fn round_trips_every_value_at_every_parameter() {
    for k in 0..=MAX_K {
        let mut w = BitWriter::new();
        for v in 0..=255u32 {
            rice::write(&mut w, v, k);
        }
        let bytes = w.finish();
        let mut r = BitReader::new(&bytes);
        for v in 0..=255u32 {
            assert_eq!(read(&mut r, k).unwrap(), v, "k {k}, value {v}");
        }
    }
}

#[test]
fn cost_matches_what_write_actually_emits() {
    for k in 0..=MAX_K {
        for v in 0..=255u32 {
            let mut w = BitWriter::new();
            rice::write(&mut w, v, k);
            assert_eq!(w.bit_len(), u64::from(cost(v, k)), "k {k}, value {v}");
        }
    }
}

#[test]
fn a_constant_block_costs_nothing() {
    let (mode, bits) = choose_mode(&[0; 64]);
    assert_eq!(mode, MODE_CONSTANT);
    assert_eq!(
        bits, 0,
        "this is the case plain Rice would charge 64 bits for"
    );
}

#[test]
fn chooses_the_cheapest_parameter() {
    // Geometric-ish: mostly small, one outlier.
    let mut values: Vec<u8> = (0..63).map(|i| u8::from(i % 3 == 0)).collect();
    values.push(40);
    let (mode, bits) = choose_mode(&values);
    let k = mode - 1;
    assert_eq!(bits, block_cost(&values, k));
    for other in 0..=MAX_K {
        assert!(
            bits <= block_cost(&values, other),
            "k {k} should be optimal"
        );
    }

    // And it beats the fixed width this block would otherwise need.
    let width = values
        .iter()
        .copied()
        .max()
        .map_or(0, |m| 8 - m.leading_zeros());
    assert!(bits < values.len() as u64 * u64::from(width));
}

/// Rice's worst case, and the reason the format keeps fixed-width packing available.
#[test]
fn uniform_data_costs_more_than_fixed_width() {
    let values: Vec<u8> = (0..=255u8).collect();
    let (mode, bits) = choose_mode(&values);
    assert!(mode > MODE_CONSTANT);

    // Every value needs all eight bits under fixed packing.
    let fixed = values.len() as u64 * 8;
    assert!(
        bits > fixed,
        "rice {bits} should lose to fixed {fixed} on a uniform source"
    );
}

#[test]
fn modes_map_to_parameters_and_reject_the_reserved_range() {
    assert_eq!(parameter_for(MODE_CONSTANT).unwrap(), None);
    for k in 0..=MAX_K {
        assert_eq!(parameter_for(k + 1).unwrap(), Some(k));
    }
    for m in (MAX_MODE + 1)..16 {
        assert_eq!(
            parameter_for(m).unwrap_err(),
            BrpError::InvalidRiceMode(m as u8)
        );
    }
}

#[test]
fn escapes_bound_the_worst_case() {
    // At k = 0 a large value would otherwise need a 255-bit unary prefix.
    assert_eq!(cost(255, 0), ESCAPE + SAMPLE_BITS);
    let mut w = BitWriter::new();
    rice::write(&mut w, 255, 0);
    assert_eq!(w.bit_len(), 16);
}

#[test]
fn rice_codes_round_trip_at_every_parameter() {
    for k in 0..=8u32 {
        let mut w = brp::bitio::BitWriter::new();
        for v in 0..=255u32 {
            brp::rice::write(&mut w, v, k);
        }
        let bytes = w.finish();
        let mut r = brp::bitio::BitReader::new(&bytes);
        for v in 0..=255u32 {
            assert_eq!(brp::rice::read(&mut r, k).unwrap(), v, "k {k}, value {v}");
        }
    }
}
