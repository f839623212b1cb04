//! Golomb-Rice coding of block residuals.
//!
//! Rice charges each sample for its own magnitude instead of the block's extreme, and needs no
//! code table: one 4-bit mode per block is the whole model.
//!
//! The 4-bit per-block field is a *mode* rather than a bare parameter, because Rice cannot
//! express "zero bits per sample":
//!
//! | Mode | Meaning |
//! |-----:|---------|
//! | 0 | Every residual is zero. No payload at all. |
//! | 1..=9 | Rice with `k = mode - 1`. |
//! | 10..=15 | Reserved. |

use crate::bitio::{field, BitReader, BitWriter};
use crate::bits::{
    bit_value, bits_of, bits_val, lemma_bits_of_len, lemma_bits_of_mod, lemma_bits_val_of, ones,
};
use crate::error::BrpError;
use vstd::arithmetic::div_mod::*;
use vstd::arithmetic::power2::*;
use vstd::bits::*;
use vstd::prelude::*;

verus! {

/// Mode value for a block whose residuals are all zero.
pub const MODE_CONSTANT: u32 = 0;

/// Largest Rice parameter, matching the bit depth.
pub const MAX_K: u32 = 8;

/// Highest valid mode.
pub const MAX_MODE: u32 = MAX_K + 1;

/// Unary prefix cap. Past this the value is written verbatim, so one wild residual costs 16 bits
/// rather than hundreds.
pub const ESCAPE: u32 = 8;

pub const SAMPLE_BITS: u32 = 8;

/// The code of `v` at parameter `k`: a unary quotient and a terminating zero, then the low `k`
/// bits; or, for a quotient of [`ESCAPE`] or more, eight ones and the value's eight bits.
pub open spec fn rice_bits(v: nat, k: nat) -> Seq<bool> {
    let q = v / pow2(k);
    if q >= 8 {
        ones(8) + bits_of(v, 8)
    } else {
        ones(q) + seq![false] + bits_of(v, k)
    }
}

/// Bits a Rice code of `v` costs at parameter `k`.
pub open spec fn rice_cost(v: nat, k: nat) -> nat {
    let q = v / pow2(k);
    if q >= 8 {
        16
    } else {
        q + 1 + k
    }
}

/// Total payload bits of a sequence of residuals at one parameter.
pub open spec fn cost_sum(values: Seq<u8>, k: nat) -> nat
    decreases values.len(),
{
    if values.len() == 0 {
        0
    } else {
        cost_sum(values.drop_last(), k) + rice_cost(values.last() as nat, k)
    }
}

/// Consecutive one bits of `s` from `pos`, at most `max` of them.
pub open spec fn leading_ones(s: Seq<bool>, pos: nat, max: nat) -> nat
    decreases max,
{
    if max == 0 || pos >= s.len() || !s[pos as int] {
        0
    } else {
        1 + leading_ones(s, pos + 1, (max - 1) as nat)
    }
}

/// The residual a Rice code at `pos` stands for, and where the code ends; `None` where the stream
/// ends first.
pub open spec fn rice_decode(s: Seq<bool>, pos: nat, k: nat) -> Option<(nat, nat)> {
    let q = leading_ones(s, pos, 8);
    if q == 8 {
        if pos + 16 <= s.len() {
            Some((field(s, pos + 8, 8), pos + 16))
        } else {
            None
        }
    } else if pos + q >= s.len() {
        None
    } else if pos + q + 1 + k <= s.len() {
        Some((q * pow2(k) + field(s, pos + q + 1, k), pos + q + 1 + k))
    } else {
        None
    }
}

/// Whether every value is zero.
pub open spec fn all_zero(values: Seq<u8>) -> bool {
    forall|i: int| 0 <= i < values.len() ==> values[i] == 0
}

/// The first parameter at which `values` cost least: the one `choose_mode` settles on.
pub open spec fn is_best_k(values: Seq<u8>, k: nat) -> bool {
    &&& k <= MAX_K
    &&& forall|j: nat| j <= MAX_K ==> cost_sum(values, k) <= #[trigger] cost_sum(values, j)
    &&& forall|j: nat| j < k ==> cost_sum(values, k) < #[trigger] cost_sum(values, j)
}

/// Bits a Rice code of `v` costs at parameter `k`.
pub fn cost(v: u32, k: u32) -> (c: u32)
    requires
        k < 32,
    ensures
        c == rice_cost(v as nat, k as nat),
{
    proof {
        lemma_u32_shr_is_div(v, k);
    }
    let q = v >> k;
    if q >= ESCAPE {
        ESCAPE + SAMPLE_BITS
    } else {
        q + 1 + k
    }
}

pub proof fn lemma_cost_bound(v: nat, k: nat)
    requires
        k <= MAX_K,
    ensures
        rice_cost(v, k) <= 16,
{
    assert(MAX_K == 8);
    let q = v / pow2(k);
    if q >= 8 {
        assert(rice_cost(v, k) == 16);
    } else {
        assert(q <= 7);
        assert(k <= 8);
        assert(rice_cost(v, k) == q + 1 + k);
        assert(q + 1 + k <= 16) by (nonlinear_arith)
            requires
                q <= 7,
                k <= 8,
        ;
    }
}

pub proof fn lemma_cost_sum_bound(values: Seq<u8>, k: nat)
    requires
        k <= MAX_K,
    ensures
        cost_sum(values, k) <= 16 * values.len(),
    decreases values.len(),
{
    if values.len() > 0 {
        lemma_cost_sum_bound(values.drop_last(), k);
        lemma_cost_bound(values.last() as nat, k);
    }
}

/// Total payload bits for a block at parameter `k`.
pub fn block_cost(values: &[u8], k: u32) -> (total: u64)
    requires
        k <= MAX_K,
        values@.len() <= u64::MAX / 16,
    ensures
        total == cost_sum(values@, k as nat),
{
    let mut total: u64 = 0;
    let mut i: usize = 0;
    proof {
        assert(values@.take(0) =~= Seq::<u8>::empty());
    }
    while i < values.len()
        invariant
            k <= MAX_K,
            i <= values@.len(),
            values@.len() <= u64::MAX / 16,
            total == cost_sum(values@.take(i as int), k as nat),
        decreases values@.len() - i,
    {
        proof {
            assert(values@.take(i + 1).drop_last() =~= values@.take(i as int));
            lemma_cost_sum_bound(values@.take(i as int), k as nat);
            lemma_cost_bound(values@[i as int] as nat, k as nat);
            assert(16 * i + 16 <= u64::MAX) by (nonlinear_arith)
                requires
                    i < values@.len(),
                    values@.len() <= u64::MAX / 16,
            ;
        }
        let c = cost(values[i] as u32, k);
        total = total + c as u64;
        i = i + 1;
    }
    proof {
        assert(values@.take(i as int) =~= values@);
    }
    total
}

/// The mode this block should use, and the payload bits it will cost.
///
/// Exhaustive over the nine parameters, so the choice is exact rather than heuristic: the first
/// parameter with the least cost.
pub fn choose_mode(values: &[u8]) -> (r: (u32, u64))
    requires
        values@.len() <= u64::MAX / 16,
    ensures
        all_zero(values@) ==> r == (MODE_CONSTANT, 0u64),
        !all_zero(values@) ==> {
            &&& 1 <= r.0 <= MAX_MODE
            &&& is_best_k(values@, (r.0 - 1) as nat)
            &&& r.1 == cost_sum(values@, (r.0 - 1) as nat)
        },
        r.0 == spec_mode(values@),
        r.1 == mode_cost(values@),
{
    let mut i: usize = 0;
    let mut zero = true;
    while i < values.len()
        invariant
            i <= values@.len(),
            zero == (forall|j: int| 0 <= j < i ==> values@[j] == 0),
        decreases values@.len() - i,
    {
        if values[i] != 0 {
            zero = false;
        }
        i = i + 1;
    }
    if zero {
        return (MODE_CONSTANT, 0);
    }
    let mut best_k: u32 = 0;
    let mut best = block_cost(values, 0);
    let mut k: u32 = 1;
    while k <= MAX_K
        invariant
            1 <= k <= MAX_K + 1,
            best_k < k,
            values@.len() <= u64::MAX / 16,
            best == cost_sum(values@, best_k as nat),
            forall|j: nat| j < k ==> best <= #[trigger] cost_sum(values@, j),
            forall|j: nat| j < best_k ==> best < #[trigger] cost_sum(values@, j),
        decreases MAX_K + 1 - k,
    {
        let c = block_cost(values, k);
        if c < best {
            best = c;
            best_k = k;
        }
        k = k + 1;
    }
    proof {
        lemma_best_k_unique(values@, best_k as nat);
    }
    (best_k + 1, best)
}

/// The parameter `choose_mode` settles on for a block that is not all zero.
pub open spec fn best_k(values: Seq<u8>) -> nat {
    choose|k: nat| is_best_k(values, k)
}

/// The mode `choose_mode` picks: 0 for an all-zero block, else one more than the best parameter.
pub open spec fn spec_mode(values: Seq<u8>) -> nat {
    if all_zero(values) {
        0
    } else {
        best_k(values) + 1
    }
}

/// The payload bits that mode costs.
pub open spec fn mode_cost(values: Seq<u8>) -> nat {
    if all_zero(values) {
        0
    } else {
        cost_sum(values, best_k(values))
    }
}

/// Only one parameter is the first to cost least.
pub proof fn lemma_best_k_unique(values: Seq<u8>, k: nat)
    requires
        is_best_k(values, k),
    ensures
        best_k(values) == k,
{
    let b = best_k(values);
    assert(is_best_k(values, b));
    if b < k {
        assert(cost_sum(values, k) < cost_sum(values, b));
        assert(cost_sum(values, b) <= cost_sum(values, k));
    } else if k < b {
        assert(cost_sum(values, b) < cost_sum(values, k));
        assert(cost_sum(values, k) <= cost_sum(values, b));
    }
}

proof fn lemma_bits_of_one_bit(v: nat)
    ensures
        bits_of(v, 1) == seq![v % 2 == 1],
{
    assert(bits_of(v / 2, 0) =~= Seq::<bool>::empty());
    assert(bits_of(v, 1) =~= seq![v % 2 == 1]);
}

/// Writes one residual.
pub fn write(w: &mut BitWriter, v: u32, k: u32)
    requires
        old(w).wf(),
        k <= MAX_K,
    ensures
        final(w).wf(),
        final(w)@ == old(w)@ + rice_bits(v as nat, k as nat),
{
    let ghost start = w@;
    proof {
        lemma_u32_shr_is_div(v, k);
        lemma_bits_of_one_bit(1);
        lemma_bits_of_one_bit(0);
    }
    let q = v >> k;
    if q >= ESCAPE {
        let mut i: u32 = 0;
        proof {
            assert(start + ones(0) =~= start);
        }
        while i < ESCAPE
            invariant
                w.wf(),
                i <= ESCAPE,
                w@ == start + ones(i as nat),
                bits_of(1, 1) == seq![true],
            decreases ESCAPE - i,
        {
            w.write(1, 1);
            proof {
                assert(start + ones(i as nat) + seq![true] =~= start + ones((i + 1) as nat));
            }
            i = i + 1;
        }
        w.write(v, SAMPLE_BITS);
        proof {
            assert(start + ones(8) + bits_of(v as nat, 8) =~= start + rice_bits(
                v as nat,
                k as nat,
            ));
        }
    } else {
        let mut i: u32 = 0;
        proof {
            assert(start + ones(0) =~= start);
        }
        while i < q
            invariant
                w.wf(),
                i <= q,
                w@ == start + ones(i as nat),
                bits_of(1, 1) == seq![true],
            decreases q - i,
        {
            w.write(1, 1);
            proof {
                assert(start + ones(i as nat) + seq![true] =~= start + ones((i + 1) as nat));
            }
            i = i + 1;
        }
        w.write(0, 1);
        let ghost mid = w@;
        if k > 0 {
            proof {
                lemma_u32_pow2_no_overflow(k as nat);
                lemma_u32_shl_is_mul(1, k);
            }
            let low = v & ((1u32 << k) - 1);
            proof {
                lemma_u32_low_bits_mask_is_mod(v, k as nat);
                lemma_bits_of_mod(v as nat, k as nat);
            }
            w.write(low, k);
        } else {
            proof {
                assert(mid + bits_of(v as nat, 0) =~= mid);
            }
        }
        proof {
            assert(w@ =~= start + rice_bits(v as nat, k as nat));
        }
    }
}

/// Peeling ones off the front of a run: the run from `pos` is `q` plus the run after them.
proof fn lemma_leading_ones_peel(s: Seq<bool>, pos: nat, q: nat, max: nat)
    requires
        q <= max,
        pos + q <= s.len(),
        forall|i: int| pos <= i < pos + q ==> s[i],
    ensures
        leading_ones(s, pos, max) == q + leading_ones(s, pos + q, (max - q) as nat),
    decreases q,
{
    if q > 0 {
        assert(s[pos as int]);
        lemma_leading_ones_peel(s, pos + 1, (q - 1) as nat, (max - 1) as nat);
    }
}

/// Reads one residual.
pub fn read(r: &mut BitReader, k: u32) -> (res: Result<u32, BrpError>)
    requires
        old(r).wf(),
        k <= MAX_K,
    ensures
        final(r).wf(),
        final(r).bytes() == old(r).bytes(),
        final(r).bits() == old(r).bits(),
        final(r).pos() >= old(r).pos(),
        match rice_decode(old(r).bits(), old(r).pos(), k as nat) {
            Some((v, end)) => res == Ok::<u32, BrpError>(v as u32) && v < 2048
                && final(r).pos() == end,
            None => res == Err::<u32, BrpError>(BrpError::UnexpectedEof),
        },
{
    let ghost s = r.bits();
    let ghost p0 = r.pos();
    let mut q: u32 = 0;
    proof {
        r.lemma_bits_len();
    }
    while q < ESCAPE
        invariant_except_break
            r.pos() == p0 + q,
        invariant
            s == old(r).bits(),
            p0 == old(r).pos(),
            r.wf(),
            r.bits() == s,
            r.bytes() == old(r).bytes(),
            q <= ESCAPE,
            forall|i: int| p0 <= i < p0 + q ==> s[i],
            p0 + q <= s.len(),
        ensures
            q <= ESCAPE,
            q < ESCAPE ==> (p0 + q < s.len() && !s[(p0 + q) as int] && r.pos() == p0 + q + 1),
            q == ESCAPE ==> r.pos() == p0 + q,
            r.wf(),
            r.bits() == s,
            r.bytes() == old(r).bytes(),
            forall|i: int| p0 <= i < p0 + q ==> s[i],
        decreases ESCAPE - q,
    {
        let b = match r.read(1) {
            Ok(b) => b,
            Err(e) => {
                proof {
                    lemma_leading_ones_peel(s, p0, q as nat, 8);
                }
                return Err(e);
            },
        };
        proof {
            r.lemma_bits_len();
            assert(p0 + q + 1 <= s.len());
            assert(s.subrange((p0 + q) as int, (p0 + q + 1) as int) =~= seq![s[(p0 + q) as int]]);
            assert(seq![s[(p0 + q) as int]].drop_last() =~= Seq::<bool>::empty());
            assert(bits_val(Seq::<bool>::empty()) == 0);
            assert(bits_val(seq![s[(p0 + q) as int]]) == bit_value(s[(p0 + q) as int]));
            assert(b as nat == bit_value(s[(p0 + q) as int]));
        }
        if b == 0 {
            break;
        }
        q = q + 1;
    }
    proof {
        lemma_leading_ones_peel(s, p0, q as nat, 8);
    }
    if q >= ESCAPE {
        let v = r.read(SAMPLE_BITS);
        proof {
            lemma2_to64();
        }
        return v;
    }
    let low = if k > 0 {
        match r.read(k) {
            Ok(x) => x,
            Err(e) => return Err(e),
        }
    } else {
        0
    };
    proof {
        lemma2_to64();
        lemma_pow2_pos(k as nat);
        if k == 0 {
            assert(s.subrange((p0 + q + 1) as int, (p0 + q + 1) as int) =~= Seq::<bool>::empty());
        }
        lemma_pow2_strictly_increases(k as nat, 9);
        lemma_u32_pow2_no_overflow(k as nat);
        assert(q * pow2(k as nat) + low < 8 * pow2(k as nat)) by (nonlinear_arith)
            requires
                q < 8,
                low < pow2(k as nat),
        ;
        assert(8 * pow2(k as nat) <= 2048);
        lemma_u32_shl_is_mul(q, k);
        lemma_u32_shl_is_mul(1, k);
        assert((q << k) | low == (q << k) + low) by (bit_vector)
            requires
                low < (1u32 << k),
                k <= 8,
                q < 8,
        ;
        lemma_u32_shl_is_mul(1, k);
    }
    Ok((q << k) | low)
}

/// Turns a mode field into a Rice parameter, rejecting the reserved values.
pub fn parameter_for(mode: u32) -> (r: Result<Option<u32>, BrpError>)
    ensures
        mode == MODE_CONSTANT ==> r == Ok::<Option<u32>, BrpError>(None),
        1 <= mode <= MAX_MODE ==> r == Ok::<Option<u32>, BrpError>(Some((mode - 1) as u32)),
        mode > MAX_MODE ==> r == Err::<Option<u32>, BrpError>(
            BrpError::InvalidRiceMode(mode as u8),
        ),
{
    if mode == MODE_CONSTANT {
        Ok(None)
    } else if mode <= MAX_MODE {
        Ok(Some(mode - 1))
    } else {
        Err(BrpError::InvalidRiceMode(mode as u8))
    }
}

/// A code costs exactly the bits it writes.
pub proof fn lemma_rice_cost_is_length(v: nat, k: nat)
    ensures
        rice_bits(v, k).len() == rice_cost(v, k),
{
    lemma_bits_of_len(v, 8);
    lemma_bits_of_len(v, k);
    lemma_pow2_pos(k);
    let q = v / pow2(k);
    if q >= 8 {
        assert(rice_bits(v, k).len() == 16);
    } else {
        assert(ones(q).len() == q);
        assert(rice_bits(v, k).len() == q + 1 + k);
    }
}

/// Reading a Rice code back gives the residual that was written, and ends where the code ends.
pub proof fn lemma_rice_round_trip(s: Seq<bool>, pos: nat, v: nat, k: nat)
    requires
        v < 256,
        k <= MAX_K,
        pos + rice_bits(v, k).len() <= s.len(),
        s.subrange(pos as int, (pos + rice_bits(v, k).len()) as int) == rice_bits(v, k),
    ensures
        rice_decode(s, pos, k) == Some((v, pos + rice_bits(v, k).len())),
{
    let code = rice_bits(v, k);
    let q = v / pow2(k);
    let p = pos as int;
    lemma_pow2_pos(k);
    lemma_bits_of_len(v, 8);
    lemma_bits_of_len(v, k);
    assert forall|i: int| 0 <= i < code.len() implies s[p + i] == code[i] by {
        assert(s.subrange(p, p + code.len())[i] == s[p + i]);
    }
    lemma2_to64();
    if q >= 8 {
        assert forall|i: int| p <= i < p + 8 implies s[i] by {
            assert(s[p + (i - p)] == code[i - p]);
        }
        lemma_leading_ones_peel(s, pos, 8, 8);
        assert forall|j: int| 0 <= j < 8 implies #[trigger] s.subrange(p + 8, p + 16)[j]
            == bits_of(v, 8)[j] by {
            assert(s[p + (8 + j)] == code[8 + j]);
        }
        assert(s.subrange(p + 8, p + 16) =~= bits_of(v, 8));
        lemma_bits_val_of(v, 8);
        lemma_small_mod(v, 256);
    } else {
        assert forall|i: int| p <= i < p + q implies s[i] by {
            assert(s[p + (i - p)] == code[i - p]);
        }
        lemma_leading_ones_peel(s, pos, q, 8);
        assert(!s[p + q]) by {
            assert(code[q as int] == false);
        }
        assert(leading_ones(s, pos + q, (8 - q) as nat) == 0);
        assert forall|j: int| 0 <= j < k implies #[trigger] s.subrange(p + q + 1, p + q + 1 + k)[j]
            == bits_of(v, k)[j] by {
            assert(s[p + (q + 1 + j)] == code[q + 1 + j]);
        }
        assert(s.subrange(p + q + 1, p + q + 1 + k) =~= bits_of(v, k));
        lemma_bits_val_of(v, k);
        lemma_fundamental_div_mod(v as int, pow2(k) as int);
        vstd::arithmetic::mul::lemma_mul_is_commutative(q as int, pow2(k) as int);
    }
}

} // verus!
