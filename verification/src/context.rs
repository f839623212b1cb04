//! The context model behind the context block coder.
//!
//! Under the other two coders a block-channel names its own parameter in a four-bit field. Here
//! the parameter is derived instead of stored: both sides quantise the same three gradients out of
//! neighbours they have already seen, look up a running mean of recent magnitudes in that
//! context, and take the Rice parameter it implies.
//!
//! Everything here is normative: encoder and decoder must derive bit-identical parameters or the
//! stream desynchronises after the first disagreement.

use crate::predict::{
    above_at, col_of, left_at, lemma_index, lemma_neighbours, row_of, signed, spec_unzigzag,
    unzigzag, upper_left_at,
};
use crate::rice::MAX_K;
use vstd::arithmetic::power2::*;
use vstd::prelude::*;

verus! {

/// Quantised gradient levels per axis, `-4..=4`.
pub const LEVELS: usize = 9;

/// Three gradients. Sign folding leaves 365 of these reachable.
pub const CONTEXTS: usize = 729;

/// Gradient bucket boundaries, JPEG-LS's for 8-bit samples.
pub const T1: i32 = 3;

pub const T2: i32 = 7;

pub const T3: i32 = 21;

/// Initial accumulator, `max(2, (range + 32) / 64)` at 8 bits.
pub const A_INIT: u32 = 4;

/// Both counters halve once a context has seen this many samples, so the model tracks the image
/// rather than averaging it.
pub const RESET: u32 = 64;

/// The level of a gradient's magnitude: 0 for none, then 1 to 4 by the bucket boundaries.
pub open spec fn level(m: int) -> int {
    if m == 0 {
        0
    } else if m <= T1 {
        1
    } else if m <= T2 {
        2
    } else if m <= T3 {
        3
    } else {
        4
    }
}

/// The quantised gradient: the level of its magnitude, with its sign.
pub open spec fn spec_quantise(d: int) -> int {
    if d < 0 {
        -level(-d)
    } else {
        level(d)
    }
}

/// The signed prediction error a zigzagged residual carries.
pub open spec fn spec_signed_error(r: u8) -> int {
    signed(spec_unzigzag(r))
}

/// A context and its mirror image as one index: the triple is negated when its first non-zero
/// entry is negative.
pub open spec fn spec_fold(q1: int, q2: int, q3: int) -> int {
    let negate = q1 < 0 || (q1 == 0 && (q2 < 0 || (q2 == 0 && q3 < 0)));
    let (a, b, c) = if negate {
        (-q1, -q2, -q3)
    } else {
        (q1, q2, q3)
    };
    ((a + 4) * 9 + (b + 4)) * 9 + (c + 4)
}

/// Recovers the signed prediction error a zigzagged residual carries.
pub fn signed_error(residual: u8) -> (e: i32)
    ensures
        e == spec_signed_error(residual),
        -128 <= e <= 127,
{
    let u = unzigzag(residual);
    if u < 128 {
        u as i32
    } else {
        u as i32 - 256
    }
}

/// The quantised level of a gradient between two samples.
pub fn quantise(gradient: i32) -> (q: i32)
    requires
        -255 <= gradient <= 255,
    ensures
        q == spec_quantise(gradient as int),
        -4 <= q <= 4,
{
    let m = if gradient < 0 {
        -gradient
    } else {
        gradient
    };
    let l = if m == 0 {
        0
    } else if m <= T1 {
        1
    } else if m <= T2 {
        2
    } else if m <= T3 {
        3
    } else {
        4
    };
    if gradient < 0 {
        -l
    } else {
        l
    }
}

/// Folds a context together with its mirror image.
///
/// The value being coded is a magnitude, and a context and its negation describe the same local
/// activity, so the two halves are one model.
pub fn fold(q1: i32, q2: i32, q3: i32) -> (f: usize)
    requires
        -4 <= q1 <= 4,
        -4 <= q2 <= 4,
        -4 <= q3 <= 4,
    ensures
        f == spec_fold(q1 as int, q2 as int, q3 as int),
        f < CONTEXTS,
{
    let negate = q1 < 0 || (q1 == 0 && (q2 < 0 || (q2 == 0 && q3 < 0)));
    let (a, b, c) = if negate {
        (-q1, -q2, -q3)
    } else {
        (q1, q2, q3)
    };
    (((a + 4) as usize) * LEVELS + (b + 4) as usize) * LEVELS + (c + 4) as usize
}

/// The interleaved buffer's shape, so the context lookup can find a sample's neighbours.
#[derive(Debug, Clone, Copy)]
pub struct Plane {
    pub width: u32,
    pub stride: usize,
    /// Bytes per image row: `width * stride`.
    pub row: usize,
}

impl Plane {
    pub open spec fn wf(&self) -> bool {
        &&& self.row == self.width * self.stride
        &&& self.width > 0
        &&& self.stride > 0
    }

    pub fn new(width: u32, stride: usize) -> (p: Self)
        requires
            width * stride <= usize::MAX,
        ensures
            p.width == width,
            p.stride == stride,
            p.row == width * stride,
    {
        Plane { width, stride, row: width as usize * stride }
    }

    /// The context index for the residual at `(x, y)` of `channel`: the folded, quantised
    /// signed errors above, above-left and left of it, each zero outside the image.
    pub fn context(&self, data: &[u8], x: u32, y: u32, channel: usize) -> (ctx: usize)
        requires
            self.wf(),
            x < self.width,
            channel < self.stride,
            (y * self.width + x) * self.stride + channel < data@.len(),
        ensures
            ctx < CONTEXTS,
            ({
                let i = (y * self.width + x) * self.stride + channel;
                let w = self.width as int;
                let s = self.stride as int;
                ctx == spec_fold(
                    spec_quantise(spec_signed_error(above_at(data@, i, w, s))),
                    spec_quantise(spec_signed_error(upper_left_at(data@, i, w, s))),
                    spec_quantise(spec_signed_error(left_at(data@, i, w, s))),
                )
            }),
    {
        let ghost w = self.width as int;
        let ghost s = self.stride as int;
        let ghost h = y + 1;
        proof {
            lemma_index(w, h, s, x as int, y as int, channel as int);
            lemma_neighbours(((y * w + x) * s + channel) as int, w, s);
            assert((y * self.width + x) * self.stride <= (y * self.width + x) * self.stride
                + channel);
            assert(y * self.width + x <= (y * self.width + x) * self.stride) by (nonlinear_arith)
                requires
                    self.stride > 0,
            ;
            assert(y * self.width <= y * self.width + x);
        }
        let len = data.len();
        let i = (y as usize * self.width as usize + x as usize) * self.stride + channel;
        proof {
            assert(y * (w * s) + x * s + channel == i);
        }
        let left = if x > 0 {
            data[i - self.stride]
        } else {
            0
        };
        let above = if y > 0 {
            data[i - self.row]
        } else {
            0
        };
        let upper_left = if x > 0 && y > 0 {
            data[i - self.row - self.stride]
        } else {
            0
        };
        fold(
            quantise(signed_error(above)),
            quantise(signed_error(upper_left)),
            quantise(signed_error(left)),
        )
    }
}

/// The smallest `k` with `n * 2^k >= a`, capped at [`MAX_K`].
pub open spec fn is_parameter(a: nat, n: nat, k: nat) -> bool {
    &&& k <= MAX_K
    &&& (k < MAX_K ==> n * pow2(k) >= a)
    &&& forall|j: nat| j < k ==> n * #[trigger] pow2(j) < a
}

/// The smallest `k` from `k` on with `n * 2^k >= a`, capped at [`MAX_K`].
pub open spec fn param_from(a: nat, n: nat, k: nat) -> nat
    decreases MAX_K - k,
{
    if k >= MAX_K || n * pow2(k) >= a {
        k
    } else {
        param_from(a, n, k + 1)
    }
}

/// The Rice parameter a context's counters imply.
pub open spec fn spec_parameter(a: nat, n: nat) -> nat {
    param_from(a, n, 0)
}

/// The parameter rule has one answer.
pub proof fn lemma_parameter_unique(a: nat, n: nat, k: nat)
    requires
        is_parameter(a, n, k),
    ensures
        k == spec_parameter(a, n),
{
    lemma_param_from(a, n, k, 0);
}

proof fn lemma_param_from(a: nat, n: nat, k: nat, j: nat)
    requires
        is_parameter(a, n, k),
        j <= k,
    ensures
        param_from(a, n, j) == k,
    decreases k - j,
{
    if j < k {
        assert(n * pow2(j) < a);
        assert(j < MAX_K);
        lemma_param_from(a, n, k, j + 1);
    }
}

/// The counters of every context: accumulated magnitudes, then sample counts.
pub open spec fn initial_state() -> (Seq<u32>, Seq<u32>) {
    (Seq::new(CONTEXTS as nat, |c: int| A_INIT), Seq::new(CONTEXTS as nat, |c: int| 1u32))
}

/// The counters after context `c` codes the value `v`.
pub open spec fn state_step(st: (Seq<u32>, Seq<u32>), c: int, v: nat) -> (Seq<u32>, Seq<u32>) {
    let a = st.0[c] + (v + 1) / 2;
    let n = st.1[c];
    (
        st.0.update(
            c,
            (if n == RESET {
                a / 2
            } else {
                a
            }) as u32,
        ),
        st.1.update(
            c,
            (if n == RESET {
                n / 2 + 1
            } else {
                n + 1
            }) as u32,
        ),
    )
}

/// A running mean of coded magnitudes per context, and the Rice parameter it implies.
///
/// One set of counters for the whole file, shared by every coded channel.
pub struct ContextModel {
    a: Vec<u32>,
    n: Vec<u32>,
}

impl ContextModel {
    /// The accumulated magnitude of each context.
    pub closed spec fn spec_a(&self) -> Seq<u32> {
        self.a@
    }

    /// The sample count of each context.
    pub closed spec fn spec_n(&self) -> Seq<u32> {
        self.n@
    }

    /// Well formed, and every context within the looser bound a decoded value keeps.
    pub open spec fn within(m: ContextModel) -> bool {
        m.wf() && m.all_within_limits()
    }

    /// Both counter tables.
    pub open spec fn state(&self) -> (Seq<u32>, Seq<u32>) {
        (self.spec_a(), self.spec_n())
    }

    /// One counter pair per context, each count between 1 and [`RESET`].
    pub open spec fn wf(&self) -> bool {
        &&& self.spec_a().len() == CONTEXTS
        &&& self.spec_n().len() == CONTEXTS
        &&& forall|c: int| 0 <= c < CONTEXTS ==> 1 <= #[trigger] self.spec_n()[c] <= RESET
    }

    /// The bound the update rule keeps: a context grows by at most 128 per sample and halves
    /// every [`RESET`], so it never passes `128 * (count + 62)`, at most 16128.
    pub open spec fn bounded(&self, c: int) -> bool {
        self.spec_a()[c] <= 128 * (self.spec_n()[c] + 62)
    }

    /// Every context within the bound the update rule keeps.
    pub open spec fn all_bounded(&self) -> bool {
        forall|c: int| 0 <= c < CONTEXTS ==> #[trigger] self.bounded(c)
    }

    /// The looser bound any Rice-decoded value keeps: a code decodes to less than 2048, so a
    /// context grows by at most 1024 per sample.
    pub open spec fn within_limits(&self, c: int) -> bool {
        self.spec_a()[c] <= 1024 * (self.spec_n()[c] + 62)
    }

    pub open spec fn all_within_limits(&self) -> bool {
        forall|c: int| 0 <= c < CONTEXTS ==> #[trigger] self.within_limits(c)
    }

    pub fn new() -> (m: Self)
        ensures
            m.wf(),
            m.all_bounded(),
            m.all_within_limits(),
            forall|c: int| 0 <= c < CONTEXTS ==> #[trigger] m.spec_a()[c] == A_INIT,
            forall|c: int| 0 <= c < CONTEXTS ==> #[trigger] m.spec_n()[c] == 1,
            m.state() == initial_state(),
    {
        let mut a: Vec<u32> = Vec::new();
        let mut n: Vec<u32> = Vec::new();
        let mut c: usize = 0;
        while c < CONTEXTS
            invariant
                c <= CONTEXTS,
                a@.len() == c,
                n@.len() == c,
                forall|k: int| 0 <= k < c ==> #[trigger] a@[k] == A_INIT,
                forall|k: int| 0 <= k < c ==> #[trigger] n@[k] == 1,
            decreases CONTEXTS - c,
        {
            a.push(A_INIT);
            n.push(1);
            c = c + 1;
        }
        assert(a@ =~= initial_state().0);
        assert(n@ =~= initial_state().1);
        ContextModel { a, n }
    }

    /// The counters of one context: accumulated magnitude and sample count.
    pub fn counters(&self, context: usize) -> (r: (u32, u32))
        requires
            self.wf(),
            context < CONTEXTS,
        ensures
            r == (self.spec_a()[context as int], self.spec_n()[context as int]),
    {
        (self.a[context], self.n[context])
    }

    /// Puts one context into a given state.
    pub fn set_counters(&mut self, context: usize, a: u32, n: u32)
        requires
            old(self).wf(),
            context < CONTEXTS,
            1 <= n <= RESET,
        ensures
            final(self).wf(),
            final(self).spec_a() == old(self).spec_a().update(context as int, a),
            final(self).spec_n() == old(self).spec_n().update(context as int, n),
    {
        self.a.set(context, a);
        self.n.set(context, n);
    }

    /// The smallest `k` with `n << k >= a`, capped at [`MAX_K`].
    pub fn parameter(&self, context: usize) -> (k: u32)
        requires
            self.wf(),
            context < CONTEXTS,
        ensures
            is_parameter(
                self.spec_a()[context as int] as nat,
                self.spec_n()[context as int] as nat,
                k as nat,
            ),
            k == spec_parameter(self.spec_a()[context as int] as nat, self.spec_n()[context as int] as nat),
    {
        let a = self.a[context];
        let n = self.n[context];
        let mut k: u32 = 0;
        proof {
            lemma2_to64();
        }
        while k < MAX_K && (n << k) < a
            invariant
                k <= MAX_K,
                1 <= n <= RESET,
                forall|j: nat| j < k ==> n * #[trigger] pow2(j) < a,
            decreases MAX_K - k,
        {
            proof {
                lemma_pow2_small(k as nat);
                assert(n * pow2(k as nat) <= 64 * 256) by (nonlinear_arith)
                    requires
                        n <= 64,
                        pow2(k as nat) <= 256,
                ;
                vstd::bits::lemma_u32_shl_is_mul(n, k);
            }
            assert(n * pow2(k as nat) < a);
            k = k + 1;
        }
        proof {
            if k < MAX_K {
                lemma_pow2_small(k as nat);
                assert(n * pow2(k as nat) <= 64 * 256) by (nonlinear_arith)
                    requires
                        n <= 64,
                        pow2(k as nat) <= 256,
                ;
                vstd::bits::lemma_u32_shl_is_mul(n, k);
            }
            lemma_parameter_unique(a as nat, n as nat, k as nat);
        }
        k
    }

    /// Advances the context by one coded residual.
    ///
    /// `(v + 1) >> 1` is the magnitude of the prediction error; `v` is the zigzag code carrying
    /// it, which is twice as large.
    pub fn update(&mut self, context: usize, v: u32)
        requires
            old(self).wf(),
            context < CONTEXTS,
            v < 2048,
            old(self).within_limits(context as int),
        ensures
            final(self).wf(),
            final(self).within_limits(context as int),
            old(self).all_within_limits() ==> final(self).all_within_limits(),
            v <= 255 && old(self).bounded(context as int) ==> final(self).bounded(context as int),
            v <= 255 && old(self).all_bounded() ==> final(self).all_bounded(),
            final(self).state() == state_step(old(self).state(), context as int, v as nat),
            ({
                let a = old(self).spec_a()[context as int] + (v + 1) / 2;
                let n = old(self).spec_n()[context as int];
                &&& final(self).spec_a() == old(self).spec_a().update(
                    context as int,
                    (if n == RESET {
                        a / 2
                    } else {
                        a
                    }) as u32,
                )
                &&& final(self).spec_n() == old(self).spec_n().update(
                    context as int,
                    (if n == RESET {
                        n / 2 + 1
                    } else {
                        n + 1
                    }) as u32,
                )
            }),
    {
        let v1: u32 = v + 1;
        assert(v1 >> 1u32 == v1 / 2) by (bit_vector);
        let mut a = self.a[context] + (v1 >> 1u32);
        let mut n = self.n[context];
        if n == RESET {
            assert(a >> 1u32 == a / 2) by (bit_vector);
            assert(n >> 1u32 == n / 2) by (bit_vector);
            a = a >> 1u32;
            n = n >> 1u32;
        }
        n = n + 1;
        self.a.set(context, a);
        self.n.set(context, n);
        proof {
            if v <= 255 && old(self).all_bounded() {
                assert(old(self).bounded(context as int));
                assert(self.bounded(context as int));
            }
            assert forall|c: int|
                0 <= c < CONTEXTS && v <= 255 && old(self).all_bounded() implies #[trigger] self.bounded(c) by {
                if c != context {
                    assert(old(self).bounded(c));
                }
            }
            assert forall|c: int|
                0 <= c < CONTEXTS && old(self).all_within_limits() implies #[trigger] self.within_limits(c) by {
                if c != context {
                    assert(old(self).within_limits(c));
                }
            }
        }
    }
}

proof fn lemma_pow2_small(k: nat)
    requires
        k <= 8,
    ensures
        pow2(k) <= 256,
{
    lemma2_to64();
    if k == 0 {
    } else if k == 1 {
    } else if k == 2 {
    } else if k == 3 {
    } else if k == 4 {
    } else if k == 5 {
    } else if k == 6 {
    } else if k == 7 {
    } else {
    }
}

impl Default for ContextModel {
    fn default() -> (m: Self)
        ensures
            m.wf(),
            m.all_bounded(),
            m.all_within_limits(),
            forall|c: int| 0 <= c < CONTEXTS ==> #[trigger] m.spec_a()[c] == A_INIT,
            forall|c: int| 0 <= c < CONTEXTS ==> #[trigger] m.spec_n()[c] == 1,
    {
        Self::new()
    }
}


/// The parameter rule never passes [`MAX_K`].
pub proof fn lemma_parameter_bound(a: nat, n: nat)
    ensures
        spec_parameter(a, n) <= MAX_K,
{
    lemma_param_from_bound(a, n, 0);
}

proof fn lemma_param_from_bound(a: nat, n: nat, k: nat)
    requires
        k <= MAX_K,
    ensures
        param_from(a, n, k) <= MAX_K,
    decreases MAX_K - k,
{
    if k < MAX_K && n * pow2(k) < a {
        lemma_param_from_bound(a, n, k + 1);
    }
}

} // verus!
