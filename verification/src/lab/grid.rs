//! Block-grid prescans: what a block would cost, estimated from its totals alone.

use vstd::arithmetic::power2::{
    lemma2_to64, lemma_pow2_pos, lemma_pow2_strictly_increases, lemma_pow2_unfold, pow2,
};
use vstd::bits::lemma_u64_shr_is_div;
use vstd::prelude::*;

verus! {

/// The largest Rice parameter the context coder will pick.
pub const MEAN_MAX_K: u32 = 8;

/// The context coder's parameter rule, searched upward from `k`: the smallest `k` with
/// `n * 2^k >= total`, capped at [`MEAN_MAX_K`].
pub open spec fn mean_parameter(n: nat, total: nat, k: nat) -> nat
    decreases 8 - k,
{
    if k < 8 && n * pow2(k) < total {
        mean_parameter(n, total, k + 1)
    } else {
        k
    }
}

/// Rice cost of `n` residuals summing to `total` at the parameter [`mean_parameter`] picks:
/// `n` terminators and `k` low bits each, plus `total >> k` unary ones.
pub open spec fn mean_rice_bits(n: nat, total: nat) -> nat {
    if total == 0 {
        0
    } else {
        let k = mean_parameter(n, total, 0);
        n * (k + 1) + total / pow2(k)
    }
}

proof fn lemma_mean_parameter_bound(n: nat, total: nat, k: nat)
    requires
        k <= 8,
    ensures
        k <= mean_parameter(n, total, k) <= 8,
    decreases 8 - k,
{
    if k < 8 && n * pow2(k) < total {
        lemma_mean_parameter_bound(n, total, k + 1);
    }
}

/// Rice cost of `n` residuals summing to `total`, at the parameter the context coder's rule
/// picks. Written over a block's totals, so that a prescan need not run the model.
pub fn rice_bits_from_mean(n: u64, total: u64) -> (bits: u64)
    requires
        n < 0x100_0000_0000_0000,
        mean_rice_bits(n as nat, total as nat) <= u64::MAX,
    ensures
        bits == mean_rice_bits(n as nat, total as nat),
{
    if total == 0 {
        return 0;
    }
    let mut k: u32 = 0;
    let mut scaled: u64 = n;
    proof {
        lemma2_to64();
        lemma_mean_parameter_bound(n as nat, total as nat, 0);
    }
    while k < MEAN_MAX_K && scaled < total
        invariant
            k <= 8,
            n < 0x100_0000_0000_0000,
            scaled == n * pow2(k as nat),
            pow2(k as nat) <= 256,
            pow2(8) == 256,
            mean_parameter(n as nat, total as nat, k as nat) == mean_parameter(
                n as nat,
                total as nat,
                0,
            ),
        decreases 8 - k,
    {
        proof {
            lemma_pow2_unfold((k + 1) as nat);
            if k + 1 < 8 {
                lemma_pow2_strictly_increases((k + 1) as nat, 8);
            }
            let p = pow2(k as nat);
            assert(n * (2 * p) == 2 * (n * p)) by (nonlinear_arith);
            assert(n * p <= n * 128) by (nonlinear_arith)
                requires
                    2 * p <= 256,
            ;
        }
        scaled = scaled * 2;
        k = k + 1;
    }
    proof {
        lemma_mean_parameter_bound(n as nat, total as nat, 0);
        lemma_u64_shr_is_div(total, k as u64);
        lemma_pow2_pos(k as nat);
        assert(n * (k + 1) <= n * 9) by (nonlinear_arith)
            requires
                k <= 8,
        ;
    }
    n * (k as u64 + 1) + (total >> (k as u64))
}

} // verus!
