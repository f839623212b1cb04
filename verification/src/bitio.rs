//! MSB-first bit packing.
//!
//! This module is the only place in the crate where bit order is decided. A value of `n` bits
//! contributes its bit `n-1` first and its bit `0` last; bits fill each byte from bit 7 down to
//! bit 0.

use crate::bits::{bits_of, bits_val, byte_bits, lemma_bits_of_concat, lemma_bits_of_len, lemma_bits_of_mod, lemma_bits_of_split, lemma_bits_of_window, lemma_bits_of_zero, lemma_bits_val_append, lemma_bits_val_bound, lemma_bits_val_of, lemma_bits_val_zero, lemma_byte_bits_len, lemma_byte_bits_push, lemma_byte_bits_within, pad_len, padded};
use crate::error::BrpError;
use vstd::arithmetic::div_mod::*;
use vstd::arithmetic::power2::*;
use vstd::bits::*;
use vstd::prelude::*;

verus! {

/// The `n` bits of `s` starting at `pos`, read as a number.
pub open spec fn field(s: Seq<bool>, pos: nat, n: nat) -> nat {
    bits_val(s.subrange(pos as int, (pos + n) as int))
}

/// The bits a run of same-width writes appends: each value's low `n` bits, in order.
pub open spec fn fixed_run(vals: Seq<u32>, n: nat) -> Seq<bool>
    decreases vals.len(),
{
    if vals.len() == 0 {
        Seq::empty()
    } else {
        fixed_run(vals.drop_last(), n) + bits_of(vals.last() as nat, n)
    }
}

/// A run of same-width writes reads back value by value: the `i`-th field of width `n` is the
/// `i`-th value written, for values that fit the width.
pub proof fn lemma_fixed_run_reads_back(vals: Seq<u32>, n: nat, i: int)
    requires
        0 <= i < vals.len(),
        forall|j: int| 0 <= j < vals.len() ==> (#[trigger] vals[j]) < pow2(n),
    ensures
        fixed_run(vals, n).len() == vals.len() * n,
        field(fixed_run(vals, n), (i * n) as nat, n) == vals[i],
    decreases vals.len(),
{
    let prev = vals.drop_last();
    let last = vals.last();
    lemma_fixed_run_len(vals, n);
    lemma_fixed_run_len(prev, n);
    lemma_bits_of_len(last as nat, n);
    let s = fixed_run(vals, n);
    assert(s == fixed_run(prev, n) + bits_of(last as nat, n));
    let m = prev.len() as int;
    if i == m {
        assert(i * n == m * n);
        assert(s.subrange(i * n, i * n + n) =~= bits_of(last as nat, n));
        lemma_bits_val_of(last as nat, n);
        vstd::arithmetic::div_mod::lemma_small_mod(last as nat, pow2(n));
    } else {
        lemma_fixed_run_reads_back(prev, n, i);
        assert(i * n + n <= m * n) by (nonlinear_arith)
            requires
                0 <= i < m,
                n >= 0,
        ;
        assert(0 <= i * n) by (nonlinear_arith)
            requires
                0 <= i,
                n >= 0,
        ;
        assert(s.subrange(i * n, i * n + n) =~= fixed_run(prev, n).subrange(i * n, i * n + n));
    }
}

proof fn lemma_fixed_run_len(vals: Seq<u32>, n: nat)
    ensures
        fixed_run(vals, n).len() == vals.len() * n,
    decreases vals.len(),
{
    if vals.len() > 0 {
        lemma_fixed_run_len(vals.drop_last(), n);
        lemma_bits_of_len(vals.last() as nat, n);
        assert((vals.len() - 1) * n + n == vals.len() * n) by (nonlinear_arith);
    }
}

/// Ones from bit `p + count` of `s` on, until a zero or until `max` of them: how many, and how
/// many bits that uses (the terminating zero included); or `None` when the stream ends first.
pub open spec fn unary_run(s: Seq<bool>, p: nat, count: nat, max: nat) -> Option<(nat, nat)>
    decreases max - count,
{
    if count >= max {
        Some((max, max))
    } else if p + count >= s.len() {
        None
    } else if !s[(p + count) as int] {
        Some((count, count + 1))
    } else {
        unary_run(s, p, count + 1, max)
    }
}

/// A one-bit field is the bit.
proof fn lemma_field_one(s: Seq<bool>, pos: nat)
    requires
        pos < s.len(),
    ensures
        field(s, pos, 1) == if s[pos as int] {
            1nat
        } else {
            0nat
        },
{
    let t = s.subrange(pos as int, pos as int + 1);
    assert(t.drop_last() =~= Seq::<bool>::empty());
    assert(t.last() == s[pos as int]);
    assert(bits_val(t.drop_last()) == 0);
    assert(bits_val(t) == 2 * bits_val(t.drop_last()) + crate::bits::bit_value(t.last()));
    assert(field(s, pos, 1) == bits_val(t));
}

/// Appends bit fields to a growable byte buffer.
#[derive(Debug, Clone)]
pub struct BitWriter {
    buf: Vec<u8>,
    /// Pending bits, right-aligned in the low `acc_bits` bits.
    acc: u64,
    acc_bits: u32,
}

impl View for BitWriter {
    type V = Seq<bool>;

    /// Every bit written so far, including those still pending.
    closed spec fn view(&self) -> Seq<bool> {
        byte_bits(self.buf@) + bits_of(self.acc as nat, self.acc_bits as nat)
    }
}

/// `(a << t) | c` with `c` below `2^t` is `a * 2^t + c`.
proof fn lemma_shift_or(a: u64, t: u64, c: u64)
    requires
        t < 64,
        c < pow2(t as nat),
        a * pow2(t as nat) <= u64::MAX,
    ensures
        (a << t) | c == a * pow2(t as nat) + c,
{
    lemma_u64_shl_is_mul(a, t);
    lemma_u64_pow2_no_overflow(t as nat);
    lemma_u64_shl_is_mul(1, t);
    assert((a << t) | c == (a << t) + c) by (bit_vector)
        requires
            c < (1u64 << t),
            t < 64,
    ;
}

impl BitWriter {
    /// The accumulator holds fewer than eight bits, and nothing above them.
    pub closed spec fn wf(&self) -> bool {
        &&& self.acc_bits < 8
        &&& self.acc < pow2(self.acc_bits as nat)
    }

    pub fn new() -> (w: Self)
        ensures
            w.wf(),
            w@ == Seq::<bool>::empty(),
    {
        let w = BitWriter { buf: Vec::new(), acc: 0, acc_bits: 0 };
        proof {
            lemma2_to64();
            assert(w@ =~= Seq::<bool>::empty());
        }
        w
    }

    pub fn with_capacity(bytes: usize) -> (w: Self)
        ensures
            w.wf(),
            w@ == Seq::<bool>::empty(),
    {
        let w = BitWriter { buf: Vec::with_capacity(bytes), acc: 0, acc_bits: 0 };
        proof {
            lemma2_to64();
            assert(w@ =~= Seq::<bool>::empty());
        }
        w
    }

    /// Writes the low `nbits` of `value`, most significant bit first.
    ///
    /// `nbits == 0` writes nothing. Bits of `value` above `nbits` are ignored.
    pub fn write(&mut self, value: u32, nbits: u32)
        requires
            old(self).wf(),
            nbits <= 32,
        ensures
            final(self).wf(),
            final(self)@ == old(self)@ + bits_of(value as nat, nbits as nat),
    {
        if nbits == 0 {
            proof {
                assert(old(self)@ + bits_of(value as nat, 0) =~= old(self)@);
            }
            return;
        }
        let ghost before = self@;
        let n64 = nbits as u64;
        proof {
            lemma_u64_pow2_no_overflow(nbits as nat);
            lemma_u64_shl_is_mul(1, n64);
        }
        let mask: u64 = (1u64 << n64) - 1;
        let low: u64 = (value as u64) & mask;
        proof {
            lemma_u64_shl_is_mul(1, n64);
            lemma_u64_pow2_no_overflow(nbits as nat);
            assert(mask == low_bits_mask(nbits as nat));
            lemma_u64_low_bits_mask_is_mod(value as u64, nbits as nat);
            lemma_pow2_pos(nbits as nat);
            lemma_mod_bound(value as int, pow2(nbits as nat) as int);
            lemma_pow2_adds(self.acc_bits as nat, nbits as nat);
            lemma_pow2_strictly_increases((self.acc_bits + nbits) as nat, 64);
            lemma2_to64();
            assert(self.acc * pow2(nbits as nat) < pow2(self.acc_bits as nat) * pow2(nbits as nat))
                by (nonlinear_arith)
                requires
                    self.acc < pow2(self.acc_bits as nat),
                    pow2(nbits as nat) > 0,
            ;
            lemma_shift_or(self.acc, n64, low);
            assert(self.acc * pow2(nbits as nat) + low < pow2(self.acc_bits as nat) * pow2(
                nbits as nat,
            )) by (nonlinear_arith)
                requires
                    self.acc < pow2(self.acc_bits as nat),
                    low < pow2(nbits as nat),
            ;
            lemma_bits_of_concat(self.acc as nat, low as nat, self.acc_bits as nat, nbits as nat);
            lemma_bits_of_mod(value as nat, nbits as nat);
        }
        self.acc = (self.acc << n64) | low;
        self.acc_bits = self.acc_bits + nbits;
        proof {
            assert(self@ =~= before + bits_of(value as nat, nbits as nat));
        }
        while self.acc_bits >= 8
            invariant
                self.acc_bits <= 39,
                self.acc < pow2(self.acc_bits as nat),
                self@ == before + bits_of(value as nat, nbits as nat),
            decreases self.acc_bits,
        {
            let ghost prev_buf = self.buf@;
            let k = self.acc_bits - 8;
            let byte = (self.acc >> (k as u64)) as u8;
            proof {
                lemma_u64_pow2_no_overflow(k as nat);
                lemma_u64_shl_is_mul(1, k as u64);
            }
            let rest = self.acc & ((1u64 << (k as u64)) - 1);
            proof {
                lemma_u64_shr_is_div(self.acc, k as u64);
                lemma_pow2_pos(k as nat);
                lemma_pow2_adds(8, k as nat);
                lemma2_to64();
                assert(self.acc as nat / pow2(k as nat) < 256) by {
                    vstd::arithmetic::mul::lemma_mul_is_commutative(256, pow2(k as nat) as int);
                    lemma_multiply_divide_lt(self.acc as int, pow2(k as nat) as int, 256);
                }
                lemma_u64_shl_is_mul(1, k as u64);
                lemma_u64_pow2_no_overflow(k as nat);
                lemma_u64_low_bits_mask_is_mod(self.acc, k as nat);
                lemma_mod_bound(self.acc as int, pow2(k as nat) as int);
                lemma_bits_of_split(self.acc as nat, 8, k as nat);
                lemma_byte_bits_push(prev_buf, byte);
            }
            self.buf.push(byte);
            self.acc = rest;
            self.acc_bits = k;
            proof {
                assert(self@ =~= before + bits_of(value as nat, nbits as nat));
            }
        }
    }

    /// Bits written so far, including those still pending in the accumulator.
    pub fn bit_len(&self) -> (n: u64)
        requires
            self.wf(),
            self@.len() <= u64::MAX,
        ensures
            n == self@.len(),
    {
        proof {
            lemma_byte_bits_len(self.buf@);
            lemma_bits_of_len(self.acc as nat, self.acc_bits as nat);
        }
        self.buf.len() as u64 * 8 + self.acc_bits as u64
    }

    /// Flushes the accumulator, zero-padding the final byte, and yields the bytes.
    pub fn finish(self) -> (bytes: Vec<u8>)
        requires
            self.wf(),
        ensures
            byte_bits(bytes@) == padded(self@),
            bytes@.len() == (self@.len() + 7) / 8,
    {
        let mut buf = self.buf;
        proof {
            lemma_byte_bits_len(self.buf@);
            lemma_bits_of_len(self.acc as nat, self.acc_bits as nat);
        }
        if self.acc_bits > 0 {
            let pad = 8 - self.acc_bits;
            let byte = (self.acc << (pad as u64)) as u8;
            proof {
                lemma_pow2_adds(self.acc_bits as nat, pad as nat);
                lemma2_to64();
                lemma_pow2_pos(pad as nat);
                assert(self.acc * pow2(pad as nat) < pow2(self.acc_bits as nat) * pow2(pad as nat))
                    by (nonlinear_arith)
                    requires
                        self.acc < pow2(self.acc_bits as nat),
                        pow2(pad as nat) > 0,
                ;
                lemma_u64_shl_is_mul(self.acc, pad as u64);
                lemma_bits_of_concat(self.acc as nat, 0, self.acc_bits as nat, pad as nat);
                lemma_bits_of_zero(pad as nat);
                lemma_byte_bits_push(self.buf@, byte);
                assert(self.acc * pow2(pad as nat) + 0 == byte);
                assert(self.acc_bits + pad == 8);
                assert(pad_len(self@.len()) == pad) by {
                    assert(self@.len() == 8 * self.buf@.len() + self.acc_bits);
                }
            }
            buf.push(byte);
            proof {
                assert(byte_bits(buf@) =~= padded(self@));
            }
        } else {
            proof {
                assert(pad_len(self@.len()) == 0) by {
                    assert(self@.len() == 8 * self.buf@.len());
                }
                assert(bits_of(self.acc as nat, 0) =~= Seq::<bool>::empty());
                assert(byte_bits(buf@) =~= padded(self@));
            }
        }
        buf
    }
}

/// Reads bit fields from a byte slice, with bounds checking on every access.
#[derive(Debug, Clone)]
pub struct BitReader<'a> {
    buf: &'a [u8],
    bit_pos: usize,
}

impl<'a> BitReader<'a> {
    /// The whole stream, as bits.
    pub closed spec fn bits(&self) -> Seq<bool> {
        byte_bits(self.buf@)
    }

    /// The bytes being read.
    pub closed spec fn bytes(&self) -> Seq<u8> {
        self.buf@
    }

    /// The position, in bits from the start of the buffer.
    pub closed spec fn pos(&self) -> nat {
        self.bit_pos as nat
    }

    pub closed spec fn wf(&self) -> bool {
        &&& self.bit_pos <= 8 * self.buf@.len()
        &&& 8 * self.buf@.len() <= usize::MAX
    }

    pub proof fn lemma_bits_len(&self)
        ensures
            self.bits().len() == 8 * self.bytes().len(),
            self.wf() ==> self.pos() <= self.bits().len(),
    {
        lemma_byte_bits_len(self.buf@);
    }

    pub fn new(buf: &'a [u8]) -> (r: Self)
        requires
            buf@.len() <= usize::MAX / 8,
        ensures
            r.wf(),
            r.bytes() == buf@,
            r.bits() == byte_bits(buf@),
            r.pos() == 0,
    {
        BitReader { buf, bit_pos: 0 }
    }

    /// Total bits in the underlying buffer.
    fn total_bits(&self) -> (n: usize)
        requires
            self.wf(),
        ensures
            n == self.bits().len(),
    {
        proof {
            lemma_byte_bits_len(self.buf@);
        }
        self.buf.len() * 8
    }

    /// Current position, in bits from the start of the buffer.
    pub fn bit_pos(&self) -> (p: usize)
        ensures
            p == self.pos(),
    {
        self.bit_pos
    }

    /// Reads `nbits` bits, most significant bit first, into the low bits of the result.
    ///
    /// `nbits == 0` returns `Ok(0)` and does not advance. Returns [`BrpError::UnexpectedEof`] if
    /// the buffer does not hold that many more bits.
    #[verifier::spinoff_prover]
    #[verifier::rlimit(50)]
    pub fn read(&mut self, nbits: u32) -> (r: Result<u32, BrpError>)
        requires
            old(self).wf(),
            nbits <= 32,
        ensures
            final(self).wf(),
            final(self).bytes() == old(self).bytes(),
            final(self).bits() == old(self).bits(),
            old(self).pos() + nbits <= old(self).bits().len() ==> {
                &&& r == Ok::<u32, BrpError>(
                    field(old(self).bits(), old(self).pos(), nbits as nat) as u32,
                )
                &&& field(old(self).bits(), old(self).pos(), nbits as nat) < pow2(nbits as nat)
                &&& final(self).pos() == old(self).pos() + nbits
            },
            old(self).pos() + nbits > old(self).bits().len() ==> {
                &&& r == Err::<u32, BrpError>(BrpError::UnexpectedEof)
                &&& final(self).pos() == old(self).pos()
            },
    {
        let ghost s = self.bits();
        let ghost start = self.bit_pos as nat;
        proof {
            lemma_byte_bits_len(self.buf@);
        }
        if nbits == 0 {
            proof {
                assert(s.subrange(start as int, start as int) =~= Seq::<bool>::empty());
                lemma2_to64();
            }
            return Ok(0);
        }
        let end = match self.bit_pos.checked_add(nbits as usize) {
            Some(e) => e,
            None => return Err(BrpError::UnexpectedEof),
        };
        if end > self.total_bits() {
            return Err(BrpError::UnexpectedEof);
        }
        let mut acc: u64 = 0;
        let mut got: u32 = 0;
        let mut pos: usize = self.bit_pos;
        proof {
            assert(s.subrange(start as int, start as int) =~= Seq::<bool>::empty());
            lemma2_to64();
        }
        while got < nbits
            invariant
                s == byte_bits(self.buf@),
                s.len() == 8 * self.buf@.len(),
                start == self.bit_pos,
                end == start + nbits,
                end <= s.len(),
                nbits <= 32,
                got <= nbits,
                pos == start + got,
                acc == bits_val(s.subrange(start as int, pos as int)),
                acc < pow2(got as nat),
            decreases nbits - got,
        {
            let byte: u64 = self.buf[pos / 8] as u64;
            let consumed_in_byte = (pos % 8) as u32;
            let avail = 8 - consumed_in_byte;
            let take = if avail < nbits - got {
                avail
            } else {
                nbits - got
            };
            let shift = (avail - take) as u64;
            proof {
                lemma_u64_pow2_no_overflow(take as nat);
                lemma_u64_shl_is_mul(1, take as u64);
            }
            let chunk = (byte >> shift) & ((1u64 << (take as u64)) - 1);
            proof {
                lemma_byte_bits_within(self.buf@, pos as nat, take as nat);
                lemma_bits_of_window(
                    byte as nat,
                    8,
                    consumed_in_byte as nat,
                    (consumed_in_byte + take) as nat,
                );
                lemma_u64_shr_is_div(byte, shift);
                lemma_u64_shl_is_mul(1, take as u64);
                lemma_u64_pow2_no_overflow(take as nat);
                lemma_u64_low_bits_mask_is_mod(byte >> shift, take as nat);
                let w = (byte as nat) / pow2(shift as nat);
                lemma_bits_val_of(w, take as nat);
                lemma_pow2_pos(take as nat);
                lemma_mod_bound(w as int, pow2(take as nat) as int);
                let piece = s.subrange(pos as int, (pos + take) as int);
                assert(chunk == bits_val(piece));
                lemma_pow2_adds(got as nat, take as nat);
                lemma_pow2_strictly_increases((got + take) as nat, 64);
                lemma2_to64();
                assert(acc * pow2(take as nat) < pow2(got as nat) * pow2(take as nat))
                    by (nonlinear_arith)
                    requires
                        acc < pow2(got as nat),
                        pow2(take as nat) > 0,
                ;
                lemma_shift_or(acc, take as u64, chunk);
                let prefix = s.subrange(start as int, pos as int);
                lemma_bits_val_append(prefix, piece);
                assert(prefix + piece =~= s.subrange(start as int, (pos + take) as int));
                lemma_bits_val_bound(s.subrange(start as int, (pos + take) as int));
            }
            acc = (acc << (take as u64)) | chunk;
            got = got + take;
            pos = pos + take as usize;
        }
        self.bit_pos = end;
        proof {
            lemma2_to64();
        }
        Ok(acc as u32)
    }

    /// Counts one-bits until a zero, or until `max` of them, whichever comes first.
    ///
    /// The terminating zero is consumed; a run that reaches `max` has no terminator to consume.
    /// At least one bit must remain, even when `max` is zero.
    pub fn read_unary(&mut self, max: u32) -> (r: Result<u32, BrpError>)
        requires
            old(self).wf(),
        ensures
            final(self).wf(),
            final(self).bytes() == old(self).bytes(),
            final(self).bits() == old(self).bits(),
            old(self).pos() >= old(self).bits().len() ==> r == Err::<u32, BrpError>(
                BrpError::UnexpectedEof,
            ) && final(self).pos() == old(self).pos(),
            old(self).pos() < old(self).bits().len() ==> match unary_run(
                old(self).bits(),
                old(self).pos(),
                0,
                max as nat,
            ) {
                Some((v, used)) => r == Ok::<u32, BrpError>(v as u32) && final(self).pos() == old(
                    self,
                ).pos() + used,
                None => r == Err::<u32, BrpError>(BrpError::UnexpectedEof),
            },
    {
        let ghost s = self.bits();
        let ghost start = self.pos();
        proof {
            lemma_byte_bits_len(self.buf@);
        }
        if self.bit_pos >= self.total_bits() {
            return Err(BrpError::UnexpectedEof);
        }
        let mut count: u32 = 0;
        while count < max
            invariant
                self.wf(),
                self.bits() == s,
                self.bytes() == old(self).bytes(),
                s == old(self).bits(),
                start == old(self).pos(),
                start < s.len(),
                count <= max,
                self.pos() == start + count,
                unary_run(s, start, 0, max as nat) == unary_run(s, start, count as nat, max as nat),
            decreases max - count,
        {
            let ghost here = self.pos();
            let bit = match self.read(1) {
                Ok(b) => b,
                Err(e) => {
                    return Err(e);
                },
            };
            proof {
                lemma_field_one(s, here);
            }
            if bit == 0 {
                return Ok(count);
            }
            count = count + 1;
        }
        Ok(max)
    }

    /// Advances by `nbits` without decoding them.
    pub fn skip(&mut self, nbits: u64) -> (r: Result<(), BrpError>)
        requires
            old(self).wf(),
        ensures
            final(self).wf(),
            final(self).bytes() == old(self).bytes(),
            final(self).bits() == old(self).bits(),
            old(self).pos() + nbits <= old(self).bits().len() ==> {
                &&& r == Ok::<(), BrpError>(())
                &&& final(self).pos() == old(self).pos() + nbits
            },
            old(self).pos() + nbits > old(self).bits().len() ==> {
                &&& r == Err::<(), BrpError>(BrpError::UnexpectedEof)
                &&& final(self).pos() == old(self).pos()
            },
    {
        proof {
            lemma_byte_bits_len(self.buf@);
        }
        if nbits > usize::MAX as u64 {
            return Err(BrpError::UnexpectedEof);
        }
        let n = nbits as usize;
        let end = match self.bit_pos.checked_add(n) {
            Some(e) => e,
            None => return Err(BrpError::UnexpectedEof),
        };
        if end > self.total_bits() {
            return Err(BrpError::UnexpectedEof);
        }
        self.bit_pos = end;
        Ok(())
    }

    /// Whether the bits from `pos` to the end of its byte are all zero, where that byte exists.
    pub open spec fn padding_clear(s: Seq<bool>, pos: nat) -> bool {
        pos % 8 != 0 && pos < s.len() ==> forall|i: int|
            pos <= i < pos + pad_len(pos) ==> !#[trigger] s[i]
    }

    /// Checks that the unread bits of the current byte are zero.
    ///
    /// Whole bytes past that are trailing data and are ignored.
    pub fn verify_padding(&self) -> (r: Result<(), BrpError>)
        requires
            self.wf(),
        ensures
            Self::padding_clear(self.bits(), self.pos()) ==> r == Ok::<(), BrpError>(()),
            !Self::padding_clear(self.bits(), self.pos()) ==> r == Err::<(), BrpError>(
                BrpError::NonZeroPadding,
            ),
    {
        let ghost s = self.bits();
        proof {
            lemma_byte_bits_len(self.buf@);
        }
        let offset = (self.bit_pos % 8) as u32;
        if offset == 0 {
            return Ok(());
        }
        let byte_idx = self.bit_pos / 8;
        if byte_idx >= self.buf.len() {
            return Ok(());
        }
        let byte = self.buf[byte_idx];
        let pad_bits = 8 - offset;
        proof {
            lemma_u16_pow2_no_overflow(pad_bits as nat);
            lemma_u16_shl_is_mul(1, pad_bits as u16);
        }
        let mask: u16 = (1u16 << (pad_bits as u16)) - 1;
        let clear = (byte as u16) & mask == 0;
        proof {
            let p = self.bit_pos as nat;
            lemma_byte_bits_within(self.buf@, p, pad_bits as nat);
            lemma_bits_of_window(byte as nat, 8, offset as nat, 8);
            lemma2_to64();
            assert(pow2(0) == 1);
            lemma_u16_shl_is_mul(1, pad_bits as u16);
            lemma_u16_pow2_no_overflow(pad_bits as nat);
            lemma_u16_low_bits_mask_is_mod(byte as u16, pad_bits as nat);
            let piece = s.subrange(p as int, (p + pad_bits) as int);
            assert((byte as nat) / 1 == byte as nat) by (nonlinear_arith);
            assert((byte as nat) / pow2(0) == byte as nat);
            assert(piece == bits_of(byte as nat, pad_bits as nat));
            assert(mask == low_bits_mask(pad_bits as nat) as u16);
            lemma_bits_val_of(byte as nat, pad_bits as nat);
            assert(bits_val(piece) == 0 <==> clear);
            lemma_bits_val_zero(piece);
            assert(offset as nat == p % 8);
            assert(pad_len(p) == pad_bits);
            if clear {
                assert forall|i: int| p <= i < p + pad_len(p) implies !#[trigger] s[i] by {
                    assert(s[i] == piece[i - p]);
                }
            } else {
                assert(!(forall|i: int| 0 <= i < piece.len() ==> !piece[i]));
                let j = choose|j: int| 0 <= j < piece.len() && piece[j];
                assert(s[p + j]);
            }
        }
        if clear {
            Ok(())
        } else {
            Err(BrpError::NonZeroPadding)
        }
    }
}

/// Bits written by one writer are the bits a reader finds, padded to a byte.
pub proof fn lemma_written_bits_are_read(w: Seq<bool>, bytes: Seq<u8>)
    requires
        byte_bits(bytes) == padded(w),
    ensures
        byte_bits(bytes).subrange(0, w.len() as int) == w,
{
    assert(padded(w).subrange(0, w.len() as int) =~= w);
}

} // verus!
