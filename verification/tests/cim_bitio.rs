use brp::bitio::{BitReader, BitWriter};
use brp::error::BrpError;

/// A deliberately naive reader, one bit at a time. The real reader is only worth having if it is
/// indistinguishable from this, position included.
struct Naive<'a> {
    buf: &'a [u8],
    pos: usize,
}

impl<'a> Naive<'a> {
    fn new(buf: &'a [u8]) -> Self {
        Self { buf, pos: 0 }
    }

    fn total_bits(&self) -> usize {
        self.buf.len() * 8
    }

    fn bit(&mut self) -> Option<u32> {
        if self.pos >= self.total_bits() {
            return None;
        }
        let byte = self.buf[self.pos >> 3];
        let bit = (byte >> (7 - (self.pos & 7))) & 1;
        self.pos += 1;
        Some(u32::from(bit))
    }

    fn read(&mut self, nbits: u32) -> Result<u32, BrpError> {
        if nbits == 0 {
            return Ok(0);
        }
        if self.pos + nbits as usize > self.total_bits() {
            return Err(BrpError::UnexpectedEof);
        }
        let mut value = 0u32;
        for _ in 0..nbits {
            let bit = self.bit().expect("bounds were checked");
            value = (value << 1) | bit;
        }
        Ok(value)
    }

    /// Counts ones to a zero or to `max`, and demands at least one bit remain even when `max` is
    /// zero.
    fn read_unary(&mut self, max: u32) -> Result<u32, BrpError> {
        if self.pos >= self.total_bits() {
            return Err(BrpError::UnexpectedEof);
        }
        let mut count = 0;
        while count < max {
            match self.bit() {
                None => return Err(BrpError::UnexpectedEof),
                Some(0) => return Ok(count),
                Some(_) => count += 1,
            }
        }
        Ok(max)
    }

    fn skip(&mut self, nbits: u64) -> Result<(), BrpError> {
        let nbits = usize::try_from(nbits).map_err(|_| BrpError::UnexpectedEof)?;
        if self.pos + nbits > self.total_bits() {
            return Err(BrpError::UnexpectedEof);
        }
        self.pos += nbits;
        Ok(())
    }
}

#[test]
fn both_refill_paths_agree_at_every_length() {
    for len in 0..24usize {
        // A pattern with long one-runs, so unary prefixes meet the boundary too.
        let bytes: Vec<u8> = (0..len).map(|i| (i as u8).wrapping_mul(37) | 0x81).collect();
        for width in 1..=32u32 {
            let mut fast = BitReader::new(&bytes);
            let mut slow = Naive::new(&bytes);
            loop {
                let got = fast.read(width);
                assert_eq!(got, slow.read(width), "len {len}, width {width}");
                if got.is_err() {
                    break;
                }
                assert_eq!(fast.bit_pos(), slow.pos, "len {len}, width {width}");
            }
        }
    }
}

#[test]
fn matches_the_naive_reader_under_a_mixed_script() {
    let mut bytes: Vec<u8> = (0..400u32).map(|i| (i.wrapping_mul(2_654_435_761) >> 13) as u8).collect();
    // A stretch of solid ones, so some unary run is longer than any short read.
    bytes[40..60].fill(0xFF);

    let mut state = 0x1234_5678u32;
    let mut rand = move |bound: u32| {
        state ^= state << 13;
        state ^= state >> 17;
        state ^= state << 5;
        state % bound
    };

    let mut fast = BitReader::new(&bytes);
    let mut slow = Naive::new(&bytes);
    for step in 0..20_000 {
        let got = match rand(3) {
            0 => {
                let nbits = rand(33);
                let want = slow.read(nbits);
                let got = fast.read(nbits);
                assert_eq!(got, want, "read({nbits}) at step {step}");
                got.map(|_| ())
            }
            1 => {
                let max = rand(20);
                let want = slow.read_unary(max);
                let got = fast.read_unary(max);
                assert_eq!(got, want, "read_unary({max}) at step {step}");
                got.map(|_| ())
            }
            _ => {
                let nbits = u64::from(rand(40));
                let want = slow.skip(nbits);
                let got = fast.skip(nbits);
                assert_eq!(got, want, "skip({nbits}) at step {step}");
                got
            }
        };
        if got.is_err() {
            // End of buffer: start both over, so the script keeps covering new alignments.
            fast = BitReader::new(&bytes);
            slow = Naive::new(&bytes);
            continue;
        }
        assert_eq!(fast.bit_pos(), slow.pos, "position differs at step {step}");
    }
}

#[test]
fn skipping_lands_mid_byte_and_reading_carries_on() {
    let mut w = BitWriter::new();
    for v in 0..40u32 {
        w.write(v, 6);
    }
    let bytes = w.finish();

    for skipped in 0..=60u64 {
        let mut fast = BitReader::new(&bytes);
        let mut slow = Naive::new(&bytes);
        fast.skip(skipped).unwrap();
        slow.skip(skipped).unwrap();
        assert_eq!(fast.bit_pos(), skipped as usize);
        assert_eq!(fast.read(6), slow.read(6), "after skipping {skipped}");
        assert_eq!(fast.bit_pos(), slow.pos);
    }
}

#[test]
fn a_unary_run_can_outlive_the_accumulator() {
    // 120 ones and a terminating zero.
    let mut w = BitWriter::new();
    for _ in 0..15 {
        w.write(0xFF, 8);
    }
    w.write(0, 1);
    let bytes = w.finish();

    let mut r = BitReader::new(&bytes);
    assert_eq!(r.read_unary(200).unwrap(), 120);
    assert_eq!(r.bit_pos(), 121, "the terminating zero is consumed");

    // The same run, capped before its end: there is no terminator to consume.
    let mut r = BitReader::new(&bytes);
    assert_eq!(r.read_unary(100).unwrap(), 100);
    assert_eq!(r.bit_pos(), 100);
}

#[test]
fn read_unary_matches_reading_bit_by_bit() {
    // Every arrangement of a short run, against the obvious implementation.
    for pattern in 0..=0xFFFFu32 {
        for max in 1..=8u32 {
            let bytes = pattern.to_be_bytes();
            let bytes = &bytes[2..];

            let mut slow = BitReader::new(bytes);
            let mut expected = 0u32;
            while expected < max {
                match slow.read(1) {
                    Ok(1) => expected += 1,
                    Ok(_) => break,
                    Err(_) => break,
                }
            }

            let mut fast = BitReader::new(bytes);
            let got = fast.read_unary(max).unwrap();
            assert_eq!(got, expected, "pattern {pattern:#06x}, max {max}");
            assert_eq!(
                fast.bit_pos(),
                slow.bit_pos(),
                "position differs: pattern {pattern:#06x}, max {max}"
            );
        }
    }
}

#[test]
fn read_unary_reports_eof() {
    let mut r = BitReader::new(&[0xFF]);
    assert_eq!(r.read_unary(8).unwrap(), 8, "a full byte of ones hits the cap");

    let mut r = BitReader::new(&[0xFF]);
    assert_eq!(r.read_unary(16), Err(BrpError::UnexpectedEof));

    let mut r = BitReader::new(&[]);
    assert_eq!(r.read_unary(1), Err(BrpError::UnexpectedEof));
}

#[test]
fn read_unary_with_a_zero_cap_reads_nothing() {
    let mut r = BitReader::new(&[0xFF]);
    assert_eq!(r.read_unary(0), Ok(0));
    assert_eq!(r.bit_pos(), 0);
    r.skip(8).unwrap();
    assert_eq!(r.read_unary(0), Err(BrpError::UnexpectedEof));
}
