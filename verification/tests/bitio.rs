use brp::bitio::{BitReader, BitWriter};
use brp::error::BrpError;

#[test]
fn bitio_zero_width_field_is_a_no_op() {
    let mut w = BitWriter::new();
    w.write(0xFFFF_FFFF, 0);
    assert_eq!(w.bit_len(), 0);
    assert!(w.finish().is_empty());

    let mut r = BitReader::new(&[0xAB]);
    assert_eq!(r.read(0).unwrap(), 0);
    assert_eq!(r.bit_pos(), 0, "zero-width read must not advance");
}

#[test]
fn bitio_writes_msb_first() {
    let mut w = BitWriter::new();
    w.write(0b1, 1);
    w.write(0b011, 3);
    w.write(0b1010, 4);
    assert_eq!(w.finish(), vec![0b1_011_1010]);
}

#[test]
fn bitio_pads_final_byte_with_zeros() {
    let mut w = BitWriter::new();
    w.write(0b111, 3);
    assert_eq!(w.finish(), vec![0b111_00000]);
}

#[test]
fn bitio_round_trips_every_width() {
    for nbits in 1u32..=32 {
        let values: Vec<u32> = (0..37)
            .map(|i| {
                let mask = if nbits >= 32 {
                    u32::MAX
                } else {
                    (1u32 << nbits) - 1
                };
                (i as u32).wrapping_mul(2_654_435_761) & mask
            })
            .collect();

        let mut w = BitWriter::new();
        for &v in &values {
            w.write(v, nbits);
        }
        let bytes = w.finish();

        let mut r = BitReader::new(&bytes);
        for (i, &v) in values.iter().enumerate() {
            assert_eq!(r.read(nbits).unwrap(), v, "width {nbits}, value {i}");
        }
    }
}

#[test]
fn bitio_fields_cross_byte_boundaries() {
    let mut w = BitWriter::new();
    w.write(0b101, 3);
    w.write(0b1100_1100, 8); // straddles the boundary
    w.write(0b11111, 5);
    let bytes = w.finish();
    assert_eq!(bytes.len(), 2);

    let mut r = BitReader::new(&bytes);
    assert_eq!(r.read(3).unwrap(), 0b101);
    assert_eq!(r.read(8).unwrap(), 0b1100_1100);
    assert_eq!(r.read(5).unwrap(), 0b11111);
}

#[test]
fn bitio_reading_past_the_end_is_an_error() {
    let mut r = BitReader::new(&[0xFF]);
    assert_eq!(r.read(8).unwrap(), 0xFF);
    assert_eq!(r.read(1), Err(BrpError::UnexpectedEof));

    let mut r = BitReader::new(&[0xFF, 0xFF]);
    assert_eq!(r.read(17), Err(BrpError::UnexpectedEof));

    let mut r = BitReader::new(&[]);
    assert_eq!(r.read(1), Err(BrpError::UnexpectedEof));
}

#[test]
fn bitio_skip_is_bounds_checked() {
    let mut r = BitReader::new(&[0x00, 0x00]);
    assert!(r.skip(16).is_ok());
    assert_eq!(r.skip(1), Err(BrpError::UnexpectedEof));
}

#[test]
fn bitio_padding_verification() {
    // Three bits used, five zero pad bits: clean.
    let mut r = BitReader::new(&[0b111_00000]);
    r.read(3).unwrap();
    assert!(r.verify_padding().is_ok());

    // Same three bits, but the padding carries data.
    let mut r = BitReader::new(&[0b111_00001]);
    r.read(3).unwrap();
    assert_eq!(r.verify_padding(), Err(BrpError::NonZeroPadding));

    // Byte-aligned position: nothing to check.
    let mut r = BitReader::new(&[0xFF, 0xFF]);
    r.read(8).unwrap();
    assert!(r.verify_padding().is_ok());
}
