//! Spatial prediction with zigzagged residuals.
//!
//! Each unit of the image (a row, or an 8x8 square) picks one of five predictors, shared by every
//! coded channel, and every coded sample is replaced by the zigzagged difference from its
//! prediction. The block packer then operates on those residuals instead of on the samples.

use crate::block::{ceil_div, lemma_block_origin, lemma_ceil_div};
use crate::channels::{ascending_below, CodedIndices};
use crate::header::{FILTER_MODE_ADAPTIVE, FILTER_MODE_BLOCK};
use vstd::arithmetic::div_mod::*;
use vstd::prelude::*;

verus! {

/// Filter kinds: None, Sub, Up, Average, Paeth. The same five PNG defines.
pub const FILTER_KINDS: u8 = 5;

/// Bits per kind code in the bitstream. Five kinds need three bits; 5..=7 are reserved.
pub const FILTER_KIND_BITS: u32 = 3;

/// Side of the square a per-block predictor choice covers. Fixed by the format, not signalled.
pub const FILTER_BLOCK: u32 = 8;

// ---------------------------------------------------------------------------------------------
// Sample arithmetic
// ---------------------------------------------------------------------------------------------

/// The byte read as a two's-complement signed value.
pub open spec fn signed(v: u8) -> int {
    if v < 128 {
        v as int
    } else {
        v - 256
    }
}

pub open spec fn abs(v: int) -> int {
    if v < 0 {
        -v
    } else {
        v
    }
}

/// `a - b` modulo 256.
pub open spec fn sub8(a: u8, b: u8) -> u8 {
    ((a - b + 256) % 256) as u8
}

/// `a + b` modulo 256.
pub open spec fn add8(a: u8, b: u8) -> u8 {
    ((a + b) % 256) as u8
}

/// Zigzag: a signed value `s` becomes `2s` when non-negative and `-2s - 1` when negative, so
/// `0, -1, 1, -2, 2` becomes `0, 1, 2, 3, 4`.
pub open spec fn spec_zigzag(v: u8) -> u8 {
    if v < 128 {
        (2 * v) as u8
    } else {
        (511 - 2 * v) as u8
    }
}

pub open spec fn spec_unzigzag(z: u8) -> u8 {
    if z % 2 == 0 {
        (z / 2) as u8
    } else {
        (256 - (z + 1) / 2) as u8
    }
}

/// Interleaves the sign, so magnitude rather than sign decides a block's range.
///
/// `0, -1, 1, -2, 2` becomes `0, 1, 2, 3, 4`.
pub fn zigzag(v: u8) -> (z: u8)
    ensures
        z == spec_zigzag(v),
{
    let sign: u8 = if v >= 128 {
        0xFF
    } else {
        0
    };
    let z = (v << 1u32) ^ sign;
    assert(v < 128 ==> (v << 1u32) ^ 0u8 == 2 * v) by (bit_vector);
    assert(v >= 128 ==> (v << 1u32) ^ 0xFFu8 == 511 - 2 * v) by (bit_vector);
    z
}

pub fn unzigzag(z: u8) -> (v: u8)
    ensures
        v == spec_unzigzag(z),
{
    let odd = z & 1 == 1;
    let mask: u8 = if odd {
        0xFF
    } else {
        0
    };
    let v = (z >> 1u32) ^ mask;
    assert((z & 1 == 1) == (z % 2 == 1)) by (bit_vector);
    assert(z % 2 == 0 ==> (z >> 1u32) ^ 0u8 == z / 2) by (bit_vector);
    assert(z % 2 == 1 ==> (z >> 1u32) ^ 0xFFu8 == 256 - (z + 1) / 2) by (bit_vector);
    v
}

/// Zigzag is a bijection on bytes, both ways round.
pub proof fn lemma_zigzag_bijection(v: u8, z: u8)
    ensures
        spec_unzigzag(spec_zigzag(v)) == v,
        spec_zigzag(spec_unzigzag(z)) == z,
{
}

/// Subtracting a prediction is undone by adding it back, and the difference determines the
/// sample.
pub proof fn lemma_wrapping(a: u8, b: u8, p: u8)
    ensures
        sub8(add8(a, p), p) == a,
        sub8(a, p) == sub8(b, p) ==> a == b,
{
    if a + p < 256 {
        assert(add8(a, p) == a + p);
        assert(sub8(add8(a, p), p) == a) by {
            lemma_fundamental_div_mod_converse(a + 256, 256, 1, a as int);
        }
    } else {
        assert(add8(a, p) == a + p - 256) by {
            lemma_fundamental_div_mod_converse(a + p, 256, 1, a + p - 256);
        }
        assert(sub8(add8(a, p), p) == a) by {
            lemma_small_mod(a as nat, 256);
        }
    }
    if sub8(a, p) == sub8(b, p) {
        let da: int = if a >= p { a - p } else { a - p + 256 };
        let db: int = if b >= p { b - p } else { b - p + 256 };
        assert(sub8(a, p) == da) by {
            lemma_fundamental_div_mod_converse(a - p + 256, 256, if a >= p { 1 } else { 0 }, da);
        }
        assert(sub8(b, p) == db) by {
            lemma_fundamental_div_mod_converse(b - p + 256, 256, if b >= p { 1 } else { 0 }, db);
        }
    }
}

// ---------------------------------------------------------------------------------------------
// Predictors
// ---------------------------------------------------------------------------------------------

/// PNG's Paeth predictor: whichever neighbour is closest to `left + above - upper_left`, ties
/// going to left, then above.
pub open spec fn spec_paeth(a: u8, b: u8, c: u8) -> u8 {
    let p = a + b - c;
    let pa = abs(p - a);
    let pb = abs(p - b);
    let pc = abs(p - c);
    if pa <= pb && pa <= pc {
        a
    } else if pb <= pc {
        b
    } else {
        c
    }
}

/// The predicted value for one sample under `kind`, given its three neighbours.
pub open spec fn spec_predict(kind: u8, left: u8, above: u8, upper_left: u8) -> u8 {
    if kind == 1 {
        left
    } else if kind == 2 {
        above
    } else if kind == 3 {
        ((left + above) / 2) as u8
    } else if kind == 4 {
        spec_paeth(left, above, upper_left)
    } else {
        0
    }
}

fn paeth(a: u8, b: u8, c: u8) -> (r: u8)
    ensures
        r == spec_paeth(a, b, c),
{
    let p = a as i16 + b as i16 - c as i16;
    let pa = abs_i16(p - a as i16);
    let pb = abs_i16(p - b as i16);
    let pc = abs_i16(p - c as i16);
    if pa <= pb && pa <= pc {
        a
    } else if pb <= pc {
        b
    } else {
        c
    }
}

fn abs_i16(v: i16) -> (r: i16)
    requires
        v > i16::MIN,
    ensures
        r == abs(v as int),
{
    if v < 0 {
        -v
    } else {
        v
    }
}

/// The predicted value for one sample, given its three neighbours.
pub(crate) fn predict(kind: u8, left: u8, above: u8, upper_left: u8) -> (r: u8)
    ensures
        r == spec_predict(kind, left, above, upper_left),
{
    match kind {
        1 => left,
        2 => above,
        3 => ((left as u16 + above as u16) / 2) as u8,
        4 => paeth(left, above, upper_left),
        _ => 0,
    }
}

// ---------------------------------------------------------------------------------------------
// Layouts
// ---------------------------------------------------------------------------------------------

/// Where a filter kind applies: to a row, or to a [`FILTER_BLOCK`] square.
///
/// The two layouts share everything else: the same five predictors, the same three-bit codes in
/// the same place in the stream, the same zigzag. Only how many codes there are, and which
/// samples each one governs, differs.
#[derive(Debug, Clone, Copy, PartialEq, Eq, Structural)]
pub enum FilterLayout {
    /// One kind per row, shared by every coded channel.
    Row,
    /// One kind per [`FILTER_BLOCK`] square, shared by every coded channel.
    Block,
}

/// How many kind codes an image of this size carries.
pub open spec fn spec_units(layout: FilterLayout, width: nat, height: nat) -> nat {
    match layout {
        FilterLayout::Row => height,
        FilterLayout::Block => ceil_div(width, 8) * ceil_div(height, 8),
    }
}

/// The unit whose kind governs pixel `(x, y)`.
pub open spec fn unit_of(layout: FilterLayout, width: nat, x: nat, y: nat) -> nat {
    match layout {
        FilterLayout::Row => y,
        FilterLayout::Block => (y / 8) * ceil_div(width, 8) + x / 8,
    }
}

/// The pixel rectangle `(x0, y0, x1, y1)` a unit governs.
pub open spec fn unit_rect(layout: FilterLayout, width: nat, height: nat, u: nat) -> (
    nat,
    nat,
    nat,
    nat,
) {
    match layout {
        FilterLayout::Row => (0, u, width, u + 1),
        FilterLayout::Block => {
            let across = ceil_div(width, 8);
            let x0 = (u % across) * 8;
            let y0 = (u / across) * 8;
            (
                x0,
                y0,
                if x0 + 8 <= width {
                    x0 + 8
                } else {
                    width
                },
                if y0 + 8 <= height {
                    y0 + 8
                } else {
                    height
                },
            )
        },
    }
}

impl FilterLayout {
    /// The `filter_mode` a header carries for this layout.
    pub open spec fn spec_mode(self) -> u8 {
        match self {
            FilterLayout::Row => FILTER_MODE_ADAPTIVE,
            FilterLayout::Block => FILTER_MODE_BLOCK,
        }
    }

    /// The layout a header's `filter_mode` selects, or `None` when prediction is off.
    pub fn from_mode(mode: u8) -> (r: Option<Self>)
        ensures
            r == (if mode == FILTER_MODE_ADAPTIVE {
                Some(FilterLayout::Row)
            } else if mode == FILTER_MODE_BLOCK {
                Some(FilterLayout::Block)
            } else {
                None
            }),
    {
        if mode == FILTER_MODE_ADAPTIVE {
            Some(FilterLayout::Row)
        } else if mode == FILTER_MODE_BLOCK {
            Some(FilterLayout::Block)
        } else {
            None
        }
    }

    pub fn mode(self) -> (m: u8)
        ensures
            m == self.spec_mode(),
    {
        match self {
            FilterLayout::Row => FILTER_MODE_ADAPTIVE,
            FilterLayout::Block => FILTER_MODE_BLOCK,
        }
    }

    /// How many kind codes the stream carries for an image of this size.
    pub fn units(self, width: u32, height: u32) -> (n: usize)
        requires
            spec_units(self, width as nat, height as nat) <= usize::MAX,
        ensures
            n == spec_units(self, width as nat, height as nat),
    {
        match self {
            FilterLayout::Row => height as usize,
            FilterLayout::Block => {
                let across = div_ceil8(width) as usize;
                let down = div_ceil8(height) as usize;
                across * down
            },
        }
    }

    /// The runs of row `y` over which the kind is constant, as `(x0, x1, unit)`, left to right.
    fn runs(self, width: u32, y: u32, height: Ghost<nat>) -> (r: Vec<(u32, u32, usize)>)
        requires
            width > 0,
            y < height@,
            spec_units(self, width as nat, height@) <= usize::MAX,
        ensures
            r.len() > 0,
            r[0].0 == 0,
            r[r.len() - 1].1 == width,
            forall|k: int| 0 <= k < r.len() ==> #[trigger] r[k].0 < r[k].1 && r[k].1 <= width,
            forall|k: int| 0 <= k < r.len() - 1 ==> r[k].1 == r[k + 1].0,
            forall|k: int, x: nat|
                0 <= k < r.len() && r[k].0 <= x < r[k].1 ==> unit_of(self, width as nat, x, y as nat)
                    == r[k].2 as nat,
    {
        let mut r: Vec<(u32, u32, usize)> = Vec::new();
        match self {
            FilterLayout::Row => {
                r.push((0, width, y as usize));
            },
            FilterLayout::Block => {
                let across = div_ceil8(width);
                proof {
                    lemma_ceil_div(width as nat, 8);
                    lemma_block_units(width as nat, y as nat, height@);
                }
                let base = (y / FILTER_BLOCK) as usize * across as usize;
                let mut i: u32 = 0;
                while i < across
                    invariant
                        width > 0,
                        across == ceil_div(width as nat, 8),
                        across * 8 >= width,
                        (across - 1) * 8 < width,
                        base == (y / 8) * across,
                        base + across <= usize::MAX,
                        i <= across,
                        r.len() == i,
                        i > 0 ==> r[0].0 == 0,
                        i > 0 ==> r[i - 1].1 == (if i * 8 <= width {
                            i * 8
                        } else {
                            width as int
                        }),
                        forall|k: int| 0 <= k < i ==> r[k].0 == k * 8,
                        forall|k: int| 0 <= k < i ==> r[k].0 < r[k].1,
                        forall|k: int| 0 <= k < i - 1 ==> r[k].1 == r[k + 1].0,
                        forall|k: int| 0 <= k < i ==> r[k].2 == base + k,
                        forall|k: int| 0 <= k < i ==> r[k].1 == (if (k + 1) * 8 <= width {
                            (k + 1) * 8
                        } else {
                            width as int
                        }),
                    decreases across - i,
                {
                    let x0 = i * FILTER_BLOCK;
                    let x1 = if width - x0 >= FILTER_BLOCK {
                        x0 + FILTER_BLOCK
                    } else {
                        width
                    };
                    r.push((x0, x1, base + i as usize));
                    i = i + 1;
                }
                assert forall|k: int, x: nat|
                    0 <= k < r.len() && r[k].0 <= x < r[k].1 implies unit_of(
                    self,
                    width as nat,
                    x,
                    y as nat,
                ) == r[k].2 as nat by {
                    assert(k * 8 <= x < k * 8 + 8);
                    lemma_div_of_range(x, k as nat);
                }
            },
        }
        r
    }
}

/// `ceil(v / 8)`.
fn div_ceil8(v: u32) -> (r: u32)
    ensures
        r == ceil_div(v as nat, 8),
{
    proof {
        lemma_ceil_div(v as nat, 8);
    }
    let q = v / FILTER_BLOCK;
    if v % FILTER_BLOCK != 0 {
        q + 1
    } else {
        q
    }
}

proof fn lemma_div_of_range(x: nat, k: nat)
    requires
        k * 8 <= x < k * 8 + 8,
    ensures
        x / 8 == k,
{
    lemma_fundamental_div_mod_converse(x as int, 8, k as int, x - k * 8);
}

proof fn lemma_block_units(width: nat, y: nat, height: nat)
    requires
        width > 0,
        y < height,
        ceil_div(width, 8) * ceil_div(height, 8) <= usize::MAX,
    ensures
        (y / 8) * ceil_div(width, 8) + ceil_div(width, 8) <= usize::MAX,
        ceil_div(width, 8) * 8 >= width,
        (ceil_div(width, 8) - 1) * 8 < width,
{
    lemma_ceil_div(width, 8);
    lemma_ceil_div(height, 8);
    let a = ceil_div(width, 8);
    let d = ceil_div(height, 8);
    assert(y / 8 + 1 <= d) by {
        lemma_fundamental_div_mod(y as int, 8);
        lemma_fundamental_div_mod(height as int, 8);
    }
    assert((y / 8) * a + a <= d * a) by (nonlinear_arith)
        requires
            y / 8 + 1 <= d,
    ;
    assert(d * a == a * d) by (nonlinear_arith);
    assert((a - 1) * 8 < width) by {
        lemma_fundamental_div_mod(width as int, 8);
    }
}

/// Every pixel's unit is one the stream carries.
proof fn lemma_unit_bound(layout: FilterLayout, w: nat, h: nat, x: nat, y: nat)
    requires
        x < w,
        y < h,
    ensures
        unit_of(layout, w, x, y) < spec_units(layout, w, h),
{
    if layout == FilterLayout::Block {
        lemma_ceil_div(w, 8);
        lemma_ceil_div(h, 8);
        let a = ceil_div(w, 8);
        let d = ceil_div(h, 8);
        assert(x / 8 < a) by {
            lemma_fundamental_div_mod(x as int, 8);
            lemma_fundamental_div_mod(w as int, 8);
        }
        assert(y / 8 < d) by {
            lemma_fundamental_div_mod(y as int, 8);
            lemma_fundamental_div_mod(h as int, 8);
        }
        assert((y / 8) * a + x / 8 < a * d) by (nonlinear_arith)
            requires
                x / 8 < a,
                y / 8 < d,
        ;
    }
}

// ---------------------------------------------------------------------------------------------
// Sample geometry
// ---------------------------------------------------------------------------------------------
//
// Samples are interleaved: sample `i` belongs to pixel `i / stride` and channel `i % stride`, and
// pixel `p` sits at column `p % width` of row `p / width`.

pub open spec fn col_of(i: int, width: int, stride: int) -> int {
    (i / stride) % width
}

pub open spec fn row_of(i: int, width: int, stride: int) -> int {
    (i / stride) / width
}

/// The same channel of the pixel to the left, or zero at the left edge.
pub open spec fn left_at(s: Seq<u8>, i: int, width: int, stride: int) -> u8 {
    if col_of(i, width, stride) > 0 {
        s[i - stride]
    } else {
        0
    }
}

/// The same channel of the pixel above, or zero on the top row.
pub open spec fn above_at(s: Seq<u8>, i: int, width: int, stride: int) -> u8 {
    if row_of(i, width, stride) > 0 {
        s[i - width * stride]
    } else {
        0
    }
}

/// The same channel of the pixel above and to the left, or zero on either edge.
pub open spec fn upper_left_at(s: Seq<u8>, i: int, width: int, stride: int) -> u8 {
    if col_of(i, width, stride) > 0 && row_of(i, width, stride) > 0 {
        s[i - width * stride - stride]
    } else {
        0
    }
}

/// The kind in force at sample `i`.
pub open spec fn kind_at(layout: FilterLayout, kinds: Seq<u8>, i: int, width: int, stride: int) -> u8 {
    kinds[unit_of(
        layout,
        width as nat,
        col_of(i, width, stride) as nat,
        row_of(i, width, stride) as nat,
    ) as int]
}

/// What kind `kind` predicts for sample `i` of `s`.
pub open spec fn prediction(kind: u8, s: Seq<u8>, i: int, width: int, stride: int) -> u8 {
    spec_predict(
        kind,
        left_at(s, i, width, stride),
        above_at(s, i, width, stride),
        upper_left_at(s, i, width, stride),
    )
}

/// Whether sample `i` belongs to a coded channel.
pub open spec fn is_coded(slots: Seq<usize>, i: int, stride: int) -> bool {
    slots.contains((i % stride) as usize)
}

/// Sample `i` of the residual buffer for `src`: the zigzagged prediction error on coded
/// channels, the sample itself elsewhere.
pub open spec fn residual_at(
    layout: FilterLayout,
    kinds: Seq<u8>,
    src: Seq<u8>,
    i: int,
    width: int,
    stride: int,
    slots: Seq<usize>,
) -> u8 {
    if is_coded(slots, i, stride) {
        spec_zigzag(
            sub8(src[i], prediction(kind_at(layout, kinds, i, width, stride), src, i, width, stride)),
        )
    } else {
        src[i]
    }
}

/// `res` is the residual buffer of `src` under `kinds`.
pub open spec fn is_residual_plane(
    layout: FilterLayout,
    kinds: Seq<u8>,
    src: Seq<u8>,
    res: Seq<u8>,
    width: int,
    stride: int,
    slots: Seq<usize>,
) -> bool {
    &&& res.len() == src.len()
    &&& forall|i: int|
        0 <= i < src.len() ==> res[i] == #[trigger] residual_at(
            layout,
            kinds,
            src,
            i,
            width,
            stride,
            slots,
        )
}

/// The geometry every prediction entry point assumes: `stride` interleaved channels, of which
/// the coded ones are listed in ascending order.
pub open spec fn geometry_ok(len: nat, width: nat, height: nat, stride: nat, slots: Seq<usize>) -> bool {
    &&& stride > 0
    &&& len == width * height * stride
    &&& forall|s: int| 0 <= s < slots.len() ==> slots[s] < stride
}

/// Sample `(x, y, c)` sits at `(y * width + x) * stride + c`, and every quantity read back from
/// that index is the one put in.
pub proof fn lemma_index(w: int, h: int, stride: int, x: int, y: int, c: int)
    requires
        0 <= x < w,
        0 <= y < h,
        0 <= c < stride,
    ensures
        ({
            let i = y * (w * stride) + x * stride + c;
            &&& i == (y * w + x) * stride + c
            &&& 0 <= x * stride <= i
            &&& 0 <= y * (w * stride) <= i
            &&& i < w * h * stride
            &&& i / stride == y * w + x
            &&& i % stride == c
            &&& col_of(i, w, stride) == x
            &&& row_of(i, w, stride) == y
            &&& (x > 0 ==> x * stride >= stride)
            &&& (y > 0 ==> y * (w * stride) >= w * stride)
        }),
{
    let i = y * (w * stride) + x * stride + c;
    assert(i == (y * w + x) * stride + c) by (nonlinear_arith)
        requires
            i == y * (w * stride) + x * stride + c,
    ;
    assert(0 <= x * stride) by (nonlinear_arith)
        requires
            0 <= x,
            0 <= stride,
    ;
    assert(0 <= y * (w * stride)) by (nonlinear_arith)
        requires
            0 <= y,
            0 <= w,
            0 <= stride,
    ;
    assert(y * w + x + 1 <= w * h) by (nonlinear_arith)
        requires
            0 <= x < w,
            0 <= y < h,
    ;
    assert((y * w + x) * stride + c < w * h * stride) by (nonlinear_arith)
        requires
            y * w + x + 1 <= w * h,
            0 <= c < stride,
    ;
    lemma_fundamental_div_mod_converse(i, stride, y * w + x, c);
    lemma_fundamental_div_mod_converse(y * w + x, w, y, x);
    assert(x > 0 ==> x * stride >= stride) by (nonlinear_arith)
        requires
            0 <= stride,
    ;
    assert(y > 0 ==> y * (w * stride) >= w * stride) by (nonlinear_arith)
        requires
            0 <= w,
            0 <= stride,
    ;
}

/// The neighbours of a sample are earlier samples of the same channel, at earlier pixels.
pub proof fn lemma_neighbours(i: int, w: int, stride: int)
    requires
        0 <= i,
        w > 0,
        stride > 0,
    ensures
        col_of(i, w, stride) > 0 ==> {
            &&& 0 <= i - stride < i
            &&& (i - stride) / stride == i / stride - 1
            &&& (i - stride) % stride == i % stride
        },
        row_of(i, w, stride) > 0 ==> {
            &&& 0 <= i - w * stride < i
            &&& (i - w * stride) / stride == i / stride - w
            &&& (i - w * stride) % stride == i % stride
        },
        col_of(i, w, stride) > 0 && row_of(i, w, stride) > 0 ==> {
            &&& 0 <= i - w * stride - stride < i
            &&& (i - w * stride - stride) / stride == i / stride - w - 1
            &&& (i - w * stride - stride) % stride == i % stride
        },
{
    let p = i / stride;
    let c = i % stride;
    lemma_fundamental_div_mod(i, stride);
    lemma_fundamental_div_mod(p, w);
    assert(p >= 0) by {
        lemma_div_pos_is_pos(i, stride);
    }
    assert(i == p * stride + c) by (nonlinear_arith)
        requires
            i == stride * p + c,
    ;
    if col_of(i, w, stride) > 0 {
        assert(p >= 1) by {
            lemma_fundamental_div_mod(p, w);
            lemma_mod_pos_bound(p, w);
            if p == 0 {
                lemma_small_mod(0, w as nat);
            }
        }
        assert(i - stride == (p - 1) * stride + c) by (nonlinear_arith)
            requires
                i == p * stride + c,
        ;
        lemma_fundamental_div_mod_converse(i - stride, stride, p - 1, c);
        assert(i - stride >= 0) by (nonlinear_arith)
            requires
                p >= 1,
                i - stride == (p - 1) * stride + c,
                0 <= c,
                stride > 0,
        ;
    }
    if row_of(i, w, stride) > 0 {
        assert(p >= w) by (nonlinear_arith)
            requires
                p == w * (p / w) + p % w,
                p / w > 0,
                p % w >= 0,
                w > 0,
        ;
        assert(i - w * stride == (p - w) * stride + c) by (nonlinear_arith)
            requires
                i == p * stride + c,
        ;
        lemma_fundamental_div_mod_converse(i - w * stride, stride, p - w, c);
        assert(i - w * stride >= 0 && w * stride > 0) by (nonlinear_arith)
            requires
                p >= w,
                w > 0,
                i - w * stride == (p - w) * stride + c,
                0 <= c,
                stride > 0,
        ;
    }
    if col_of(i, w, stride) > 0 && row_of(i, w, stride) > 0 {
        assert(p % w >= 1);
        assert(p >= w + 1) by (nonlinear_arith)
            requires
                p == w * (p / w) + p % w,
                p / w > 0,
                p % w >= 1,
                w > 0,
        ;
        assert(i - w * stride - stride == (p - w - 1) * stride + c) by (nonlinear_arith)
            requires
                i == p * stride + c,
        ;
        lemma_fundamental_div_mod_converse(i - w * stride - stride, stride, p - w - 1, c);
        assert(i - w * stride - stride >= 0) by (nonlinear_arith)
            requires
                p >= w + 1,
                i - w * stride - stride == (p - w - 1) * stride + c,
                0 <= c,
                stride > 0,
        ;
    }
}

// ---------------------------------------------------------------------------------------------
// Choosing a predictor
// ---------------------------------------------------------------------------------------------

/// How far a residual is from zero, reading it as a signed byte.
pub open spec fn magnitude(r: u8) -> nat {
    if r < 128 {
        r as nat
    } else {
        (256 - r) as nat
    }
}

/// The cost of sample `i` under `kind`: the magnitude of its prediction error.
pub open spec fn cost_at(kind: u8, s: Seq<u8>, i: int, width: int, stride: int) -> nat {
    magnitude(sub8(s[i], prediction(kind, s, i, width, stride)))
}

/// Cost of channel `c` of row `y`, over columns `x0..x`.
pub open spec fn run_cost(
    kind: u8,
    s: Seq<u8>,
    width: int,
    stride: int,
    c: int,
    y: int,
    x0: int,
    x: int,
) -> nat
    decreases x - x0,
{
    if x <= x0 {
        0
    } else {
        run_cost(kind, s, width, stride, c, y, x0, x - 1) + cost_at(
            kind,
            s,
            (y * width + x - 1) * stride + c,
            width,
            stride,
        )
    }
}

/// Cost of channel `c` over columns `x0..x1` of rows `y0..y`.
pub open spec fn channel_cost(
    kind: u8,
    s: Seq<u8>,
    width: int,
    stride: int,
    c: int,
    x0: int,
    x1: int,
    y0: int,
    y: int,
) -> nat
    decreases y - y0,
{
    if y <= y0 {
        0
    } else {
        channel_cost(kind, s, width, stride, c, x0, x1, y0, y - 1) + run_cost(
            kind,
            s,
            width,
            stride,
            c,
            y - 1,
            x0,
            x1,
        )
    }
}

/// Cost of the rectangle `x0..x1` by `y0..y1` over the first `n` coded channels.
pub open spec fn rect_cost(
    kind: u8,
    s: Seq<u8>,
    width: int,
    stride: int,
    slots: Seq<usize>,
    x0: int,
    y0: int,
    x1: int,
    y1: int,
    n: int,
) -> nat
    decreases n,
{
    if n <= 0 {
        0
    } else {
        rect_cost(kind, s, width, stride, slots, x0, y0, x1, y1, n - 1) + channel_cost(
            kind,
            s,
            width,
            stride,
            slots[n - 1] as int,
            x0,
            x1,
            y0,
            y1,
        )
    }
}

/// Sum of absolute residuals over unit `u` under `kind`, every coded channel counted.
pub open spec fn unit_cost(
    layout: FilterLayout,
    s: Seq<u8>,
    width: nat,
    height: nat,
    stride: nat,
    slots: Seq<usize>,
    u: nat,
    kind: u8,
) -> nat {
    let r = unit_rect(layout, width, height, u);
    rect_cost(kind, s, width as int, stride as int, slots, r.0 as int, r.1 as int, r.2 as int, r.3 as int, slots.len() as int)
}

/// `kind` is the predictor with the lowest cost for unit `u`, ties going to the lower kind.
pub open spec fn is_cheapest(
    layout: FilterLayout,
    s: Seq<u8>,
    width: nat,
    height: nat,
    stride: nat,
    slots: Seq<usize>,
    u: nat,
    kind: u8,
) -> bool {
    &&& kind < FILTER_KINDS
    &&& forall|k: u8|
        k < FILTER_KINDS ==> unit_cost(layout, s, width, height, stride, slots, u, k) >= unit_cost(
            layout,
            s,
            width,
            height,
            stride,
            slots,
            u,
            kind,
        )
    &&& forall|k: u8|
        k < kind ==> unit_cost(layout, s, width, height, stride, slots, u, k) > unit_cost(
            layout,
            s,
            width,
            height,
            stride,
            slots,
            u,
            kind,
        )
}

const CELL: u64 = 128;

const ROW_BOUND: u64 = 0x80_0000_0000;

const SLOT_BOUND: u64 = 0x400_0000_0000;

/// Sum of absolute residuals over one rectangle under every predictor, in a single pass.
///
/// Neighbours outside the image read as zero, exactly as PNG specifies.
fn rect_costs(
    data: &[u8],
    w: usize,
    h: Ghost<nat>,
    stride: usize,
    coded: &CodedIndices,
    x0: usize,
    y0: usize,
    x1: usize,
    y1: usize,
) -> (acc: Vec<u64>)
    requires
        coded.wf(),
        geometry_ok(data@.len(), w as nat, h@, stride as nat, coded.spec_slots()),
        w <= u32::MAX,
        x0 <= x1 <= w,
        y0 <= y1 <= h@ <= u32::MAX,
        y1 <= y0 + 8,
        h@ > 0,
    ensures
        acc@.len() == FILTER_KINDS,
        forall|k: int|
            0 <= k < FILTER_KINDS ==> acc@[k] == rect_cost(
                k as u8,
                data@,
                w as int,
                stride as int,
                coded.spec_slots(),
                x0 as int,
                y0 as int,
                x1 as int,
                y1 as int,
                coded.spec_slots().len() as int,
            ),
{
    let ghost slots = coded.spec_slots();
    let ghost s = data@;
    proof {
        coded.lemma_wf();
    }
    let total_len = data.len();
    assert(w * stride <= s.len()) by (nonlinear_arith)
        requires
            s.len() == w * h@ * stride,
            h@ > 0,
    ;
    let mut acc: Vec<u64> = vec![0u64; 5];
    let n = coded.len();
    let row = w * stride;
    let mut slot: usize = 0;
    while slot < n
        invariant
            coded.wf(),
            slots == coded.spec_slots(),
            s == data@,
            s.len() == total_len,
            n == slots.len(),
            n <= 4,
            geometry_ok(s.len(), w as nat, h@, stride as nat, slots),
            w <= u32::MAX,
            x0 <= x1 <= w,
            y0 <= y1 <= h@ <= u32::MAX,
            y1 <= y0 + 8,
            row == w * stride,
            slot <= n,
            acc@.len() == 5,
            forall|k: int|
                0 <= k < 5 ==> acc@[k] == rect_cost(
                    k as u8,
                    s,
                    w as int,
                    stride as int,
                    slots,
                    x0 as int,
                    y0 as int,
                    x1 as int,
                    y1 as int,
                    slot as int,
                ),
            forall|k: int| 0 <= k < 5 ==> acc@[k] <= slot * SLOT_BOUND,
        decreases n - slot,
    {
        let c = coded.channel(slot);
        let ghost before = acc@;
        let mut y = y0;
        while y < y1
            invariant
                coded.wf(),
                slots == coded.spec_slots(),
                s == data@,
                s.len() == total_len,
                n == slots.len(),
                n <= 4,
                geometry_ok(s.len(), w as nat, h@, stride as nat, slots),
                w <= u32::MAX,
                x0 <= x1 <= w,
                y0 <= y <= y1,
                y1 <= h@ <= u32::MAX,
                y1 <= y0 + 8,
                row == w * stride,
                slot < n,
                c == slots[slot as int],
                c < stride,
                acc@.len() == 5,
                before.len() == 5,
                forall|k: int|
                    0 <= k < 5 ==> before[k] == rect_cost(
                        k as u8,
                        s,
                        w as int,
                        stride as int,
                        slots,
                        x0 as int,
                        y0 as int,
                        x1 as int,
                        y1 as int,
                        slot as int,
                    ),
                forall|k: int|
                    0 <= k < 5 ==> acc@[k] == before[k] + channel_cost(
                        k as u8,
                        s,
                        w as int,
                        stride as int,
                        c as int,
                        x0 as int,
                        x1 as int,
                        y0 as int,
                        y as int,
                    ),
                forall|k: int|
                    0 <= k < 5 ==> acc@[k] <= slot * SLOT_BOUND + (y - y0) * ROW_BOUND,
            decreases y1 - y,
        {
            let ghost row_start = acc@;
            let mut x = x0;
            while x < x1
                invariant
                    coded.wf(),
                    slots == coded.spec_slots(),
                    s == data@,
                    s.len() == total_len,
                    geometry_ok(s.len(), w as nat, h@, stride as nat, slots),
                    w <= u32::MAX,
                    x0 <= x <= x1,
                    x1 <= w,
                    y0 <= y < y1,
                    y1 <= h@ <= u32::MAX,
                    y1 <= y0 + 8,
                    row == w * stride,
                    slot < 4,
                    c < stride,
                    acc@.len() == 5,
                    row_start.len() == 5,
                    forall|k: int|
                        0 <= k < 5 ==> acc@[k] == row_start[k] + run_cost(
                            k as u8,
                            s,
                            w as int,
                            stride as int,
                            c as int,
                            y as int,
                            x0 as int,
                            x as int,
                        ),
                    forall|k: int|
                        0 <= k < 5 ==> row_start[k] <= slot * SLOT_BOUND + (y - y0) * ROW_BOUND,
                    forall|k: int|
                        0 <= k < 5 ==> acc@[k] <= slot * SLOT_BOUND + (y - y0) * ROW_BOUND + (x
                            - x0) * CELL,
                decreases x1 - x,
            {
                proof {
                    lemma_index(w as int, h@ as int, stride as int, x as int, y as int, c as int);
                    lemma_neighbours((y * (w * stride) + x * stride + c) as int, w as int, stride as int);
                }
                let i = y * row + x * stride + c;
                let (left, above, upper_left) = neighbours(
                    data,
                    i,
                    x as u32,
                    y as u32,
                    row,
                    stride,
                    Ghost(w as int),
                );
                let sample = data[i];
                let ghost cell_start = acc@;
                let mut kind: usize = 0;
                while kind < 5
                    invariant
                        kind <= 5,
                        acc@.len() == 5,
                        cell_start.len() == 5,
                        i < s.len(),
                        s == data@,
                        sample == s[i as int],
                        left == left_at(s, i as int, w as int, stride as int),
                        above == above_at(s, i as int, w as int, stride as int),
                        upper_left == upper_left_at(s, i as int, w as int, stride as int),
                        forall|k: int| kind <= k < 5 ==> acc@[k] == cell_start[k],
                        forall|k: int|
                            0 <= k < kind ==> acc@[k] == cell_start[k] + cost_at(
                                k as u8,
                                s,
                                i as int,
                                w as int,
                                stride as int,
                            ),
                        forall|k: int|
                            0 <= k < 5 ==> cell_start[k] <= slot * SLOT_BOUND + (y - y0)
                                * ROW_BOUND + (x - x0) * CELL,
                        slot < 4,
                        y < y0 + 8,
                        x < x1 <= u32::MAX,
                        x0 <= x,
                        y0 <= y,
                    decreases 5 - kind,
                {
                    let p = predict(kind as u8, left, above, upper_left);
                    let r = sample.wrapping_sub(p);
                    let m: u64 = if r < 128 {
                        r as u64
                    } else {
                        256 - r as u64
                    };
                    assert(r == sub8(sample, p));
                    assert(m == cost_at(kind as u8, s, i as int, w as int, stride as int));
                    assert(acc@[kind as int] == cell_start[kind as int]);
                    assert(cell_start[kind as int] <= 3 * SLOT_BOUND + 7 * ROW_BOUND + 0xFFFF_FFFF
                        * CELL);
                    let total = acc[kind] + m;
                    acc.set(kind, total);
                    kind = kind + 1;
                }
                x = x + 1;
            }
            y = y + 1;
        }
        slot = slot + 1;
    }
    acc
}

/// The predictor with the lowest cost, ties going to the lower kind.
fn cheapest(costs: &Vec<u64>) -> (best: u8)
    requires
        costs@.len() == FILTER_KINDS,
    ensures
        best < FILTER_KINDS,
        forall|k: int| 0 <= k < FILTER_KINDS ==> costs@[k] >= costs@[best as int],
        forall|k: int| 0 <= k < best ==> costs@[k] > costs@[best as int],
{
    let mut best: u8 = 0;
    let mut best_cost = costs[0];
    let mut kind: usize = 1;
    while kind < 5
        invariant
            costs@.len() == 5,
            1 <= kind <= 5,
            best < kind,
            best_cost == costs@[best as int],
            forall|k: int| 0 <= k < kind ==> costs@[k] >= best_cost,
            forall|k: int| 0 <= k < best ==> costs@[k] > best_cost,
        decreases 5 - kind,
    {
        if costs[kind] < best_cost {
            best_cost = costs[kind];
            best = kind as u8;
        }
        kind = kind + 1;
    }
    best
}

// ---------------------------------------------------------------------------------------------
// Processing order
// ---------------------------------------------------------------------------------------------

/// The lowest channel index not yet reached once `s` coded slots of a pixel are done.
pub open spec fn limit(slots: Seq<usize>, s: int, stride: int) -> int {
    if s < slots.len() {
        slots[s] as int
    } else {
        stride
    }
}

/// Sample `j` comes before channel `lim` of pixel `p` in raster order.
pub open spec fn precedes(j: int, stride: int, p: int, lim: int) -> bool {
    j / stride < p || (j / stride == p && j % stride < lim)
}

/// `res` is `src` with the residuals written in, in raster order, up to channel `lim` of pixel
/// `p`; every other sample still holds the source.
pub open spec fn partly_residual(
    layout: FilterLayout,
    kinds: Seq<u8>,
    src: Seq<u8>,
    res: Seq<u8>,
    width: int,
    stride: int,
    slots: Seq<usize>,
    p: int,
    lim: int,
) -> bool {
    &&& res.len() == src.len()
    &&& forall|j: int|
        0 <= j < src.len() ==> #[trigger] res[j] == (if is_coded(slots, j, stride) && precedes(
            j,
            stride,
            p,
            lim,
        ) {
            residual_at(layout, kinds, src, j, width, stride, slots)
        } else {
            src[j]
        })
}

/// Finishing slot `s` of pixel `p` adds exactly that one sample to the processed set.
proof fn lemma_slot_step(slots: Seq<usize>, s: int, stride: int, p: int, j: int)
    requires
        ascending_below(slots, 4),
        0 <= s < slots.len(),
        forall|t: int| 0 <= t < slots.len() ==> slots[t] < stride,
        0 < stride <= usize::MAX,
        0 <= j,
        0 <= p,
    ensures
        (is_coded(slots, j, stride) && precedes(j, stride, p, limit(slots, s + 1, stride))) == ((
        is_coded(slots, j, stride) && precedes(j, stride, p, limit(slots, s, stride))) || j == p
            * stride + slots[s]),
{
    let i = p * stride + slots[s];
    lemma_fundamental_div_mod_converse(i, stride, p, slots[s] as int);
    if j == i {
        assert(slots[s] == (j % stride) as usize);
        assert(is_coded(slots, j, stride));
    }
    lemma_mod_pos_bound(j, stride);
    if is_coded(slots, j, stride) && j / stride == p && limit(slots, s, stride) <= j % stride < limit(
        slots,
        s + 1,
        stride,
    ) {
        let t = choose|t: int| 0 <= t < slots.len() && slots[t] == (j % stride) as usize;
        assert(slots[t] == j % stride) by {
            lemma_mod_pos_bound(j, stride);
        }
        if t < s {
            assert(slots[t] < slots[s]);
        } else if t > s {
            assert(slots[s + 1] <= slots[t]);
        }
        assert(t == s);
        lemma_fundamental_div_mod(j, stride);
        assert(j == p * stride + slots[s]) by (nonlinear_arith)
            requires
                j == stride * (j / stride) + j % stride,
                j / stride == p,
                j % stride == slots[s],
        ;
    }
}

/// Moving from the last slot of one pixel to the first slot of the next changes nothing.
proof fn lemma_pixel_step(slots: Seq<usize>, stride: int, p: int, j: int)
    requires
        ascending_below(slots, 4),
        forall|t: int| 0 <= t < slots.len() ==> slots[t] < stride,
        0 < stride <= usize::MAX,
        0 <= j,
    ensures
        (is_coded(slots, j, stride) && precedes(j, stride, p, limit(slots, slots.len() as int, stride)))
            == (is_coded(slots, j, stride) && precedes(j, stride, p + 1, limit(slots, 0, stride))),
        (is_coded(slots, j, stride) && precedes(j, stride, p, limit(slots, 0, stride))) == (
        is_coded(slots, j, stride) && j / stride < p),
{
    lemma_mod_pos_bound(j, stride);
    if is_coded(slots, j, stride) {
        let t = choose|t: int| 0 <= t < slots.len() && slots[t] == (j % stride) as usize;
        assert(slots[t] == j % stride);
        if t > 0 {
            assert(slots[0] < slots[t]);
        }
        assert(slots.len() > 0);
        assert(limit(slots, 0, stride) <= j % stride);
    }
}

pub proof fn lemma_units_fit(layout: FilterLayout, w: nat, h: nat, stride: nat)
    requires
        w * h * stride <= usize::MAX,
        stride > 0,
        h <= u32::MAX,
    ensures
        spec_units(layout, w, h) <= usize::MAX,
{
    assert(w * h <= w * h * stride) by (nonlinear_arith)
        requires
            stride > 0,
    ;
    if w > 0 && h > 0 {
        lemma_ceil_div(w, 8);
        lemma_ceil_div(h, 8);
        let a = ceil_div(w, 8);
        let d = ceil_div(h, 8);
        assert(a * d <= w * h) by (nonlinear_arith)
            requires
                a <= w,
                d <= h,
        ;
    } else if w == 0 {
        assert(ceil_div(w, 8) == 0);
    } else {
        assert(ceil_div(h, 8) == 0);
        assert(ceil_div(w, 8) * ceil_div(h, 8) == 0) by (nonlinear_arith)
            requires
                ceil_div(h, 8) == 0,
        ;
    }
}

// ---------------------------------------------------------------------------------------------
// Applying and undoing prediction
// ---------------------------------------------------------------------------------------------

/// Chooses a predictor per unit of `layout` and produces the residual buffer.
///
/// The returned buffer has the same layout as `data`; channels that stage 1 elided are copied
/// through untouched, since nothing reads them.
pub fn apply(
    layout: FilterLayout,
    data: &[u8],
    width: u32,
    height: u32,
    stride: usize,
    coded: &CodedIndices,
) -> (r: (Vec<u8>, Vec<u8>))
    requires
        coded.wf(),
        geometry_ok(data@.len(), width as nat, height as nat, stride as nat, coded.spec_slots()),
    ensures
        r.0@.len() == spec_units(layout, width as nat, height as nat),
        forall|u: int|
            0 <= u < r.0@.len() ==> is_cheapest(
                layout,
                data@,
                width as nat,
                height as nat,
                stride as nat,
                coded.spec_slots(),
                u as nat,
                #[trigger] r.0@[u],
            ),
        is_residual_plane(
            layout,
            r.0@,
            data@,
            r.1@,
            width as int,
            stride as int,
            coded.spec_slots(),
        ),
{
    let kinds = choose_kinds(layout, data, width, height, stride, coded);
    let residuals = residuals_for(layout, data, width, height, stride, coded, &kinds);
    (kinds, residuals)
}

/// One kind per unit, each the cheapest for its unit.
fn choose_kinds(
    layout: FilterLayout,
    data: &[u8],
    width: u32,
    height: u32,
    stride: usize,
    coded: &CodedIndices,
) -> (kinds: Vec<u8>)
    requires
        coded.wf(),
        geometry_ok(data@.len(), width as nat, height as nat, stride as nat, coded.spec_slots()),
    ensures
        kinds@.len() == spec_units(layout, width as nat, height as nat),
        forall|u: int|
            0 <= u < kinds@.len() ==> is_cheapest(
                layout,
                data@,
                width as nat,
                height as nat,
                stride as nat,
                coded.spec_slots(),
                u as nat,
                #[trigger] kinds@[u],
            ),
{
    let ghost slots = coded.spec_slots();
    let ghost wn = width as nat;
    let ghost hn = height as nat;
    let len = data.len();
    proof {
        lemma_units_fit(layout, wn, hn, stride as nat);
    }
    let units = layout.units(width, height);
    let w = width as usize;
    let h = height as usize;
    let mut kinds: Vec<u8> = Vec::new();
    let mut u: usize = 0;
    while u < units
        invariant
            coded.wf(),
            slots == coded.spec_slots(),
            wn == width,
            hn == height,
            w == width,
            h == height,
            data@.len() == len,
            geometry_ok(len as nat, wn, hn, stride as nat, slots),
            units == spec_units(layout, wn, hn),
            u <= units,
            kinds@.len() == u,
            forall|v: int|
                0 <= v < u ==> is_cheapest(
                    layout,
                    data@,
                    wn,
                    hn,
                    stride as nat,
                    slots,
                    v as nat,
                    #[trigger] kinds@[v],
                ),
        decreases units - u,
    {
        let ghost rect = unit_rect(layout, wn, hn, u as nat);
        let costs = match layout {
            FilterLayout::Row => {
                rect_costs(data, w, Ghost(hn), stride, coded, 0, u, w, u + 1)
            },
            FilterLayout::Block => {
                let across = div_ceil8(width) as usize;
                proof {
                    lemma_ceil_div(wn, 8);
                    lemma_ceil_div(hn, 8);
                    let d = ceil_div(hn, 8);
                    assert(across > 0) by (nonlinear_arith)
                        requires
                            u < across * d,
                            0 <= u,
                            across >= 0,
                    ;
                    lemma_fundamental_div_mod(u as int, across as int);
                    lemma_mod_pos_bound(u as int, across as int);
                    assert(u / across < d) by (nonlinear_arith)
                        requires
                            u < across * d,
                            u == across * (u / across) + u % across,
                            0 <= u % across,
                            across > 0,
                    ;
                    lemma_block_origin((u % across) as nat, 8, wn);
                    lemma_block_origin((u / across) as nat, 8, hn);
                }
                let x0 = (u % across) * 8;
                let y0 = (u / across) * 8;
                let x1 = if w - x0 >= 8 {
                    x0 + 8
                } else {
                    w
                };
                let y1 = if h - y0 >= 8 {
                    y0 + 8
                } else {
                    h
                };
                assert(rect == (x0 as nat, y0 as nat, x1 as nat, y1 as nat));
                rect_costs(data, w, Ghost(hn), stride, coded, x0, y0, x1, y1)
            },
        };
        let best = cheapest(&costs);
        assert forall|k: u8| k < FILTER_KINDS implies #[trigger] unit_cost(
            layout,
            data@,
            wn,
            hn,
            stride as nat,
            slots,
            u as nat,
            k,
        ) == costs@[k as int] by {
            assert((k as int) as u8 == k);
        }
        assert(unit_cost(layout, data@, wn, hn, stride as nat, slots, u as nat, best)
            == costs@[best as int]);
        kinds.push(best);
        u = u + 1;
    }
    kinds
}

/// The residual buffer for `kinds`, in raster order.
fn residuals_for(
    layout: FilterLayout,
    data: &[u8],
    width: u32,
    height: u32,
    stride: usize,
    coded: &CodedIndices,
    kinds: &Vec<u8>,
) -> (res: Vec<u8>)
    requires
        coded.wf(),
        geometry_ok(data@.len(), width as nat, height as nat, stride as nat, coded.spec_slots()),
        kinds@.len() == spec_units(layout, width as nat, height as nat),
    ensures
        is_residual_plane(layout, kinds@, data@, res@, width as int, stride as int, coded.spec_slots()),
{
    let ghost slots = coded.spec_slots();
    let ghost src = data@;
    let ghost wi = width as int;
    let ghost hn = height as nat;
    let ghost si = stride as int;
    let len = data.len();
    let mut res = vstd::slice::slice_to_vec(data);
    proof {
        coded.lemma_wf();
        lemma_units_fit(layout, width as nat, hn, stride as nat);
    }
    if width == 0 || height == 0 {
        assert(len == 0) by (nonlinear_arith)
            requires
                width == 0 || height == 0,
                len == width * height * stride,
        ;
        return res;
    }
    let w = width as usize;
    assert(w * stride <= len) by (nonlinear_arith)
        requires
            len == w * height * stride,
            height > 0,
    ;
    let row = w * stride;
    let n = coded.len();
    proof {
        assert forall|j: int| 0 <= j < len implies #[trigger] res@[j] == (if is_coded(slots, j, si)
            && precedes(j, si, 0, limit(slots, 0, si)) {
            residual_at(layout, kinds@, src, j, wi, si, slots)
        } else {
            src[j]
        }) by {
            lemma_pixel_step(slots, si, 0, j);
            lemma_div_pos_is_pos(j, si);
        }
    }
    let mut y: u32 = 0;
    while y < height
        invariant
            coded.wf(),
            slots == coded.spec_slots(),
            ascending_below(slots, 4),
            src == data@,
            src.len() == len,
            wi == width,
            hn == height,
            si == stride,
            w == width,
            width > 0,
            row == w * stride,
            n == slots.len(),
            geometry_ok(len as nat, width as nat, hn, stride as nat, slots),
            spec_units(layout, width as nat, hn) <= usize::MAX,
            kinds@.len() == spec_units(layout, width as nat, hn),
            y <= height,
            partly_residual(layout, kinds@, src, res@, wi, si, slots, y * wi, limit(slots, 0, si)),
        decreases height - y,
    {
        let runs = layout.runs(width, y, Ghost(hn));
        let mut r: usize = 0;
        while r < runs.len()
            invariant
                coded.wf(),
                slots == coded.spec_slots(),
                ascending_below(slots, 4),
                src == data@,
                src.len() == len,
                wi == width,
                hn == height,
                si == stride,
                w == width,
                row == w * stride,
                n == slots.len(),
                geometry_ok(len as nat, width as nat, hn, stride as nat, slots),
                kinds@.len() == spec_units(layout, width as nat, hn),
                y < height,
                runs.len() > 0,
                runs[0].0 == 0,
                runs[runs.len() - 1].1 == width,
                forall|k: int| 0 <= k < runs.len() ==> #[trigger] runs[k].0 < runs[k].1 && runs[k].1 <= width,
                forall|k: int| 0 <= k < runs.len() - 1 ==> runs[k].1 == runs[k + 1].0,
                forall|k: int, x: nat|
                    0 <= k < runs.len() && runs[k].0 <= x < runs[k].1 ==> unit_of(
                        layout,
                        width as nat,
                        x,
                        y as nat,
                    ) == runs[k].2 as nat,
                r <= runs.len(),
                partly_residual(
                    layout,
                    kinds@,
                    src,
                    res@,
                    wi,
                    si,
                    slots,
                    y * wi + (if r < runs.len() {
                        runs[r as int].0 as int
                    } else {
                        wi
                    }),
                    limit(slots, 0, si),
                ),
            decreases runs.len() - r,
        {
            let (x0, x1, unit) = runs[r];
            proof {
                lemma_unit_bound(layout, width as nat, hn, x0 as nat, y as nat);
            }
            let kind = kinds[unit];
            let mut x = x0;
            while x < x1
                invariant
                    coded.wf(),
                    slots == coded.spec_slots(),
                    ascending_below(slots, 4),
                    src == data@,
                    src.len() == len,
                    wi == width,
                    hn == height,
                    si == stride,
                    w == width,
                    row == w * stride,
                    n == slots.len(),
                    geometry_ok(len as nat, width as nat, hn, stride as nat, slots),
                    y < height,
                    x0 <= x <= x1,
                    x1 <= width,
                    forall|xx: nat|
                        x0 <= xx < x1 ==> unit_of(layout, width as nat, xx, y as nat) == unit as nat,
                    unit < kinds@.len(),
                    kind == kinds@[unit as int],
                    partly_residual(
                        layout,
                        kinds@,
                        src,
                        res@,
                        wi,
                        si,
                        slots,
                        y * wi + x,
                        limit(slots, 0, si),
                    ),
                decreases x1 - x,
            {
                let mut s: usize = 0;
                while s < n
                    invariant
                        coded.wf(),
                        slots == coded.spec_slots(),
                        ascending_below(slots, 4),
                        src == data@,
                        src.len() == len,
                        wi == width,
                        hn == height,
                        si == stride,
                        w == width,
                        row == w * stride,
                        n == slots.len(),
                        geometry_ok(len as nat, width as nat, hn, stride as nat, slots),
                        y < height,
                        x < x1 <= width,
                        unit_of(layout, width as nat, x as nat, y as nat) == unit as nat,
                        unit < kinds@.len(),
                        kind == kinds@[unit as int],
                        s <= n,
                        partly_residual(
                            layout,
                            kinds@,
                            src,
                            res@,
                            wi,
                            si,
                            slots,
                            y * wi + x,
                            limit(slots, s as int, si),
                        ),
                    decreases n - s,
                {
                    let c = coded.channel(s);
                    proof {
                        lemma_index(wi, hn as int, si, x as int, y as int, c as int);
                        lemma_neighbours((y * (w * stride) + x * stride + c) as int, wi, si);
                    }
                    let i = y as usize * row + x as usize * stride + c;
                    let (left, above, upper_left) = neighbours(
                        data,
                        i,
                        x,
                        y,
                        row,
                        stride,
                        Ghost(wi),
                    );
                    let p = predict(kind, left, above, upper_left);
                    let d = data[i].wrapping_sub(p);
                    assert(d == sub8(data@[i as int], p));
                    let z = zigzag(d);
                    proof {
                        lemma_sample_residual(
                            layout,
                            kinds@,
                            src,
                            i as int,
                            wi,
                            si,
                            slots,
                            s as int,
                            unit as nat,
                            z,
                        );
                    }
                    let ghost before = res@;
                    res.set(i, z);
                    proof {
                        lemma_residual_step(
                            layout,
                            kinds@,
                            src,
                            before,
                            wi,
                            si,
                            slots,
                            y * wi + x,
                            s as int,
                            i as int,
                            z,
                        );
                    }
                    s = s + 1;
                }
                proof {
                    lemma_residual_pixel(layout, kinds@, src, res@, wi, si, slots, y * wi + x);
                }
                x = x + 1;
            }
            r = r + 1;
        }
        proof {
            assert(y * wi + wi == (y + 1) * wi) by (nonlinear_arith);
        }
        y = y + 1;
    }
    proof {
        assert forall|j: int| 0 <= j < len implies #[trigger] res@[j] == residual_at(
            layout,
            kinds@,
            src,
            j,
            wi,
            si,
            slots,
        ) by {
            lemma_pixel_step(slots, si, hn * wi, j);
            assert(j / si < hn * wi) by {
                lemma_fundamental_div_mod(j, si);
                lemma_mod_pos_bound(j, si);
                assert(j / si < hn * wi) by (nonlinear_arith)
                    requires
                        j == si * (j / si) + j % si,
                        0 <= j % si,
                        j < wi * hn * si,
                        si > 0,
                ;
            }
        }
    }
    res
}

proof fn lemma_residual_step(
    layout: FilterLayout,
    kinds: Seq<u8>,
    src: Seq<u8>,
    before: Seq<u8>,
    wi: int,
    si: int,
    slots: Seq<usize>,
    p: int,
    s: int,
    i: int,
    z: u8,
)
    requires
        ascending_below(slots, 4),
        0 <= s < slots.len(),
        forall|t: int| 0 <= t < slots.len() ==> slots[t] < si,
        0 < si <= usize::MAX,
        0 <= p,
        i == p * si + slots[s],
        0 <= i < src.len(),
        z == residual_at(layout, kinds, src, i, wi, si, slots),
        partly_residual(layout, kinds, src, before, wi, si, slots, p, limit(slots, s, si)),
    ensures
        partly_residual(
            layout,
            kinds,
            src,
            before.update(i, z),
            wi,
            si,
            slots,
            p,
            limit(slots, s + 1, si),
        ),
{
    let after = before.update(i, z);
    assert forall|j: int| 0 <= j < src.len() implies #[trigger] after[j] == (if is_coded(
        slots,
        j,
        si,
    ) && precedes(j, si, p, limit(slots, s + 1, si)) {
        residual_at(layout, kinds, src, j, wi, si, slots)
    } else {
        src[j]
    }) by {
        lemma_slot_step(slots, s, si, p, j);
    }
}

proof fn lemma_residual_pixel(
    layout: FilterLayout,
    kinds: Seq<u8>,
    src: Seq<u8>,
    res: Seq<u8>,
    wi: int,
    si: int,
    slots: Seq<usize>,
    p: int,
)
    requires
        ascending_below(slots, 4),
        forall|t: int| 0 <= t < slots.len() ==> slots[t] < si,
        0 < si <= usize::MAX,
        partly_residual(layout, kinds, src, res, wi, si, slots, p, limit(slots, slots.len() as int, si)),
    ensures
        partly_residual(layout, kinds, src, res, wi, si, slots, p + 1, limit(slots, 0, si)),
{
    assert forall|j: int| 0 <= j < src.len() implies #[trigger] res[j] == (if is_coded(
        slots,
        j,
        si,
    ) && precedes(j, si, p + 1, limit(slots, 0, si)) {
        residual_at(layout, kinds, src, j, wi, si, slots)
    } else {
        src[j]
    }) by {
        lemma_pixel_step(slots, si, p, j);
    }
}

/// The left, above and upper-left samples of sample `i`, zero outside the image.
fn neighbours(
    data: &[u8],
    i: usize,
    x: u32,
    y: u32,
    row: usize,
    stride: usize,
    w: Ghost<int>,
) -> (r: (u8, u8, u8))
    requires
        i < data@.len(),
        w@ > 0,
        stride > 0,
        row == w@ * stride,
        col_of(i as int, w@, stride as int) == x,
        row_of(i as int, w@, stride as int) == y,
        x > 0 ==> i >= stride,
        y > 0 ==> i >= row,
        x > 0 && y > 0 ==> i >= row + stride,
    ensures
        r.0 == left_at(data@, i as int, w@, stride as int),
        r.1 == above_at(data@, i as int, w@, stride as int),
        r.2 == upper_left_at(data@, i as int, w@, stride as int),
{
    let left = if x > 0 {
        data[i - stride]
    } else {
        0
    };
    let above = if y > 0 {
        data[i - row]
    } else {
        0
    };
    let upper_left = if x > 0 && y > 0 {
        data[i - row - stride]
    } else {
        0
    };
    (left, above, upper_left)
}

/// The value the residual loop writes at sample `i` is the residual the contract names.
proof fn lemma_sample_residual(
    layout: FilterLayout,
    kinds: Seq<u8>,
    src: Seq<u8>,
    i: int,
    wi: int,
    si: int,
    slots: Seq<usize>,
    s: int,
    unit: nat,
    z: u8,
)
    requires
        0 <= i < src.len(),
        0 < si <= usize::MAX,
        0 <= s < slots.len(),
        slots[s] == i % si,
        unit_of(layout, wi as nat, col_of(i, wi, si) as nat, row_of(i, wi, si) as nat) == unit,
        unit < kinds.len(),
        z == spec_zigzag(
            sub8(
                src[i],
                spec_predict(
                    kinds[unit as int],
                    left_at(src, i, wi, si),
                    above_at(src, i, wi, si),
                    upper_left_at(src, i, wi, si),
                ),
            ),
        ),
    ensures
        is_coded(slots, i, si),
        z == residual_at(layout, kinds, src, i, wi, si, slots),
{
    assert(slots[s] == (i % si) as usize);
}

/// `res` holds the residuals of `data` at every coded sample before channel `lim` of pixel `p`;
/// every other sample of `data` still holds its residual unchanged.
pub open spec fn partly_restored(
    layout: FilterLayout,
    kinds: Seq<u8>,
    data: Seq<u8>,
    res: Seq<u8>,
    width: int,
    stride: int,
    slots: Seq<usize>,
    p: int,
    lim: int,
) -> bool {
    &&& data.len() == res.len()
    &&& forall|j: int|
        0 <= j < res.len() ==> #[trigger] res[j] == (if is_coded(slots, j, stride) && precedes(
            j,
            stride,
            p,
            lim,
        ) {
            residual_at(layout, kinds, data, j, width, stride, slots)
        } else {
            data[j]
        })
}

/// Changing a sample at or after pixel `j / stride` leaves the residual of sample `j` alone:
/// a residual reads only its own sample and earlier pixels.
proof fn lemma_residual_frame(
    layout: FilterLayout,
    kinds: Seq<u8>,
    b: Seq<u8>,
    j: int,
    i: int,
    v: u8,
    wi: int,
    si: int,
    slots: Seq<usize>,
)
    requires
        0 <= j < b.len(),
        0 <= i < b.len(),
        i != j,
        j / si <= i / si,
        wi > 0,
        si > 0,
    ensures
        residual_at(layout, kinds, b.update(i, v), j, wi, si, slots) == residual_at(
            layout,
            kinds,
            b,
            j,
            wi,
            si,
            slots,
        ),
{
    lemma_neighbours(j, wi, si);
    let a = b.update(i, v);
    assert(left_at(a, j, wi, si) == left_at(b, j, wi, si));
    assert(above_at(a, j, wi, si) == above_at(b, j, wi, si));
    assert(upper_left_at(a, j, wi, si) == upper_left_at(b, j, wi, si));
}

proof fn lemma_restore_step(
    layout: FilterLayout,
    kinds: Seq<u8>,
    before: Seq<u8>,
    res: Seq<u8>,
    wi: int,
    si: int,
    slots: Seq<usize>,
    p: int,
    s: int,
    i: int,
    unit: nat,
    v: u8,
)
    requires
        ascending_below(slots, 4),
        0 <= s < slots.len(),
        forall|t: int| 0 <= t < slots.len() ==> slots[t] < si,
        0 < si <= usize::MAX,
        wi > 0,
        0 <= p,
        i == p * si + slots[s],
        0 <= i < res.len(),
        unit_of(layout, wi as nat, col_of(i, wi, si) as nat, row_of(i, wi, si) as nat) == unit,
        unit < kinds.len(),
        v == add8(
            spec_unzigzag(before[i]),
            spec_predict(
                kinds[unit as int],
                left_at(before, i, wi, si),
                above_at(before, i, wi, si),
                upper_left_at(before, i, wi, si),
            ),
        ),
        partly_restored(layout, kinds, before, res, wi, si, slots, p, limit(slots, s, si)),
    ensures
        partly_restored(
            layout,
            kinds,
            before.update(i, v),
            res,
            wi,
            si,
            slots,
            p,
            limit(slots, s + 1, si),
        ),
{
    let after = before.update(i, v);
    lemma_fundamental_div_mod_converse(i, si, p, slots[s] as int);
    assert(slots[s] == (i % si) as usize);
    assert(is_coded(slots, i, si));
    assert(res[i] == before[i]);
    lemma_neighbours(i, wi, si);
    let pred = spec_predict(
        kinds[unit as int],
        left_at(before, i, wi, si),
        above_at(before, i, wi, si),
        upper_left_at(before, i, wi, si),
    );
    assert(left_at(after, i, wi, si) == left_at(before, i, wi, si));
    assert(above_at(after, i, wi, si) == above_at(before, i, wi, si));
    assert(upper_left_at(after, i, wi, si) == upper_left_at(before, i, wi, si));
    lemma_wrapping(spec_unzigzag(before[i]), 0, pred);
    lemma_zigzag_bijection(0, before[i]);
    assert(residual_at(layout, kinds, after, i, wi, si, slots) == res[i]);
    assert forall|j: int| 0 <= j < res.len() implies #[trigger] res[j] == (if is_coded(
        slots,
        j,
        si,
    ) && precedes(j, si, p, limit(slots, s + 1, si)) {
        residual_at(layout, kinds, after, j, wi, si, slots)
    } else {
        after[j]
    }) by {
        lemma_slot_step(slots, s, si, p, j);
        if j != i && is_coded(slots, j, si) && precedes(j, si, p, limit(slots, s, si)) {
            lemma_residual_frame(layout, kinds, before, j, i, v, wi, si, slots);
        }
    }
}

proof fn lemma_restore_pixel(
    layout: FilterLayout,
    kinds: Seq<u8>,
    data: Seq<u8>,
    res: Seq<u8>,
    wi: int,
    si: int,
    slots: Seq<usize>,
    p: int,
)
    requires
        ascending_below(slots, 4),
        forall|t: int| 0 <= t < slots.len() ==> slots[t] < si,
        0 < si <= usize::MAX,
        partly_restored(layout, kinds, data, res, wi, si, slots, p, limit(slots, slots.len() as int, si)),
    ensures
        partly_restored(layout, kinds, data, res, wi, si, slots, p + 1, limit(slots, 0, si)),
{
    assert forall|j: int| 0 <= j < res.len() implies #[trigger] res[j] == (if is_coded(
        slots,
        j,
        si,
    ) && precedes(j, si, p + 1, limit(slots, 0, si)) {
        residual_at(layout, kinds, data, j, wi, si, slots)
    } else {
        data[j]
    }) by {
        lemma_pixel_step(slots, si, p, j);
    }
}

/// Turns residuals back into samples, in place.
///
/// Runs in raster order: each prediction reads neighbours that this loop has already restored.
pub fn undo_in_place(
    layout: FilterLayout,
    data: &mut Vec<u8>,
    width: u32,
    height: u32,
    stride: usize,
    coded: &CodedIndices,
    kinds: &[u8],
)
    requires
        coded.wf(),
        geometry_ok(old(data)@.len(), width as nat, height as nat, stride as nat, coded.spec_slots()),
        kinds@.len() == spec_units(layout, width as nat, height as nat),
    ensures
        is_residual_plane(
            layout,
            kinds@,
            final(data)@,
            old(data)@,
            width as int,
            stride as int,
            coded.spec_slots(),
        ),
{
    let ghost slots = coded.spec_slots();
    let ghost res = data@;
    let ghost wi = width as int;
    let ghost hn = height as nat;
    let ghost si = stride as int;
    let len = data.len();
    proof {
        coded.lemma_wf();
        lemma_units_fit(layout, width as nat, hn, stride as nat);
    }
    if width == 0 || height == 0 {
        assert(len == 0) by (nonlinear_arith)
            requires
                width == 0 || height == 0,
                len == width * height * stride,
        ;
        return;
    }
    let w = width as usize;
    assert(w * stride <= len) by (nonlinear_arith)
        requires
            len == w * height * stride,
            height > 0,
    ;
    let row = w * stride;
    let n = coded.len();
    proof {
        assert forall|j: int| 0 <= j < len implies #[trigger] res[j] == (if is_coded(slots, j, si)
            && precedes(j, si, 0, limit(slots, 0, si)) {
            residual_at(layout, kinds@, data@, j, wi, si, slots)
        } else {
            data@[j]
        }) by {
            lemma_pixel_step(slots, si, 0, j);
            lemma_div_pos_is_pos(j, si);
        }
    }
    let mut y: u32 = 0;
    while y < height
        invariant
            coded.wf(),
            slots == coded.spec_slots(),
            ascending_below(slots, 4),
            res.len() == len,
            wi == width,
            hn == height,
            si == stride,
            w == width,
            width > 0,
            row == w * stride,
            n == slots.len(),
            geometry_ok(len as nat, width as nat, hn, stride as nat, slots),
            spec_units(layout, width as nat, hn) <= usize::MAX,
            kinds@.len() == spec_units(layout, width as nat, hn),
            y <= height,
            partly_restored(layout, kinds@, data@, res, wi, si, slots, y * wi, limit(slots, 0, si)),
        decreases height - y,
    {
        let runs = layout.runs(width, y, Ghost(hn));
        let mut r: usize = 0;
        while r < runs.len()
            invariant
                coded.wf(),
                slots == coded.spec_slots(),
                ascending_below(slots, 4),
                res.len() == len,
                wi == width,
                hn == height,
                si == stride,
                w == width,
                row == w * stride,
                n == slots.len(),
                geometry_ok(len as nat, width as nat, hn, stride as nat, slots),
                kinds@.len() == spec_units(layout, width as nat, hn),
                y < height,
                runs.len() > 0,
                runs[0].0 == 0,
                runs[runs.len() - 1].1 == width,
                forall|k: int| 0 <= k < runs.len() ==> #[trigger] runs[k].0 < runs[k].1 && runs[k].1 <= width,
                forall|k: int| 0 <= k < runs.len() - 1 ==> runs[k].1 == runs[k + 1].0,
                forall|k: int, x: nat|
                    0 <= k < runs.len() && runs[k].0 <= x < runs[k].1 ==> unit_of(
                        layout,
                        width as nat,
                        x,
                        y as nat,
                    ) == runs[k].2 as nat,
                r <= runs.len(),
                partly_restored(
                    layout,
                    kinds@,
                    data@,
                    res,
                    wi,
                    si,
                    slots,
                    y * wi + (if r < runs.len() {
                        runs[r as int].0 as int
                    } else {
                        wi
                    }),
                    limit(slots, 0, si),
                ),
            decreases runs.len() - r,
        {
            let (x0, x1, unit) = runs[r];
            proof {
                lemma_unit_bound(layout, width as nat, hn, x0 as nat, y as nat);
            }
            let kind = kinds[unit];
            let mut x = x0;
            while x < x1
                invariant
                    coded.wf(),
                    slots == coded.spec_slots(),
                    ascending_below(slots, 4),
                    res.len() == len,
                    wi == width,
                    hn == height,
                    si == stride,
                    w == width,
                    row == w * stride,
                    n == slots.len(),
                    geometry_ok(len as nat, width as nat, hn, stride as nat, slots),
                    y < height,
                    x0 <= x <= x1,
                    x1 <= width,
                    forall|xx: nat|
                        x0 <= xx < x1 ==> unit_of(layout, width as nat, xx, y as nat) == unit as nat,
                    unit < kinds@.len(),
                    kind == kinds@[unit as int],
                    partly_restored(
                        layout,
                        kinds@,
                        data@,
                        res,
                        wi,
                        si,
                        slots,
                        y * wi + x,
                        limit(slots, 0, si),
                    ),
                decreases x1 - x,
            {
                let mut s: usize = 0;
                while s < n
                    invariant
                        coded.wf(),
                        slots == coded.spec_slots(),
                        ascending_below(slots, 4),
                        res.len() == len,
                        wi == width,
                        hn == height,
                        si == stride,
                        w == width,
                        row == w * stride,
                        n == slots.len(),
                        geometry_ok(len as nat, width as nat, hn, stride as nat, slots),
                        y < height,
                        x < x1 <= width,
                        unit_of(layout, width as nat, x as nat, y as nat) == unit as nat,
                        unit < kinds@.len(),
                        kind == kinds@[unit as int],
                        s <= n,
                        partly_restored(
                            layout,
                            kinds@,
                            data@,
                            res,
                            wi,
                            si,
                            slots,
                            y * wi + x,
                            limit(slots, s as int, si),
                        ),
                    decreases n - s,
                {
                    let c = coded.channel(s);
                    proof {
                        lemma_index(wi, hn as int, si, x as int, y as int, c as int);
                        lemma_neighbours((y * (w * stride) + x * stride + c) as int, wi, si);
                    }
                    let i = y as usize * row + x as usize * stride + c;
                    let (left, above, upper_left) = neighbours(
                        data.as_slice(),
                        i,
                        x,
                        y,
                        row,
                        stride,
                        Ghost(wi),
                    );
                    let p = predict(kind, left, above, upper_left);
                    let v = unzigzag(data[i]).wrapping_add(p);
                    assert(v == add8(spec_unzigzag(data@[i as int]), p));
                    let ghost before = data@;
                    data.set(i, v);
                    proof {
                        lemma_restore_step(
                            layout,
                            kinds@,
                            before,
                            res,
                            wi,
                            si,
                            slots,
                            y * wi + x,
                            s as int,
                            i as int,
                            unit as nat,
                            v,
                        );
                    }
                    s = s + 1;
                }
                proof {
                    lemma_restore_pixel(layout, kinds@, data@, res, wi, si, slots, y * wi + x);
                }
                x = x + 1;
            }
            r = r + 1;
        }
        proof {
            assert(y * wi + wi == (y + 1) * wi) by (nonlinear_arith);
        }
        y = y + 1;
    }
    proof {
        assert forall|j: int| 0 <= j < len implies res[j] == #[trigger] residual_at(
            layout,
            kinds@,
            data@,
            j,
            wi,
            si,
            slots,
        ) by {
            lemma_pixel_step(slots, si, hn * wi, j);
            lemma_fundamental_div_mod(j, si);
            lemma_mod_pos_bound(j, si);
            assert(j / si < hn * wi) by (nonlinear_arith)
                requires
                    j == si * (j / si) + j % si,
                    0 <= j % si,
                    j < wi * hn * si,
                    si > 0,
            ;
        }
    }
}

/// A coded sample's residual reads only samples of its own channel, so two sources that agree
/// on every coded sample give it the same residual.
pub proof fn lemma_residual_on_coded(
    layout: FilterLayout,
    kinds: Seq<u8>,
    a: Seq<u8>,
    b: Seq<u8>,
    i: int,
    width: int,
    stride: int,
    slots: Seq<usize>,
)
    requires
        width > 0,
        stride > 0,
        a.len() == b.len(),
        0 <= i < a.len(),
        is_coded(slots, i, stride),
        forall|j: int| 0 <= j < a.len() && is_coded(slots, j, stride) ==> a[j] == b[j],
    ensures
        residual_at(layout, kinds, a, i, width, stride, slots) == residual_at(
            layout,
            kinds,
            b,
            i,
            width,
            stride,
            slots,
        ),
{
    lemma_neighbours(i, width, stride);
    if col_of(i, width, stride) > 0 {
        assert(is_coded(slots, i - stride, stride));
    }
    if row_of(i, width, stride) > 0 {
        assert(is_coded(slots, i - width * stride, stride));
    }
    if col_of(i, width, stride) > 0 && row_of(i, width, stride) > 0 {
        assert(is_coded(slots, i - width * stride - stride, stride));
    }
}

/// Undoing prediction gives back the samples it was applied to.
///
/// A residual buffer determines the source it was computed from, whatever the kinds: two
/// sources with the same residuals under the same kinds are equal. So the buffer
/// [`undo_in_place`] restores from [`apply`]'s residuals and kinds is `apply`'s input.
pub proof fn lemma_residuals_determine_source(
    layout: FilterLayout,
    kinds: Seq<u8>,
    a: Seq<u8>,
    b: Seq<u8>,
    res: Seq<u8>,
    width: nat,
    height: nat,
    stride: nat,
    slots: Seq<usize>,
)
    requires
        geometry_ok(a.len(), width, height, stride, slots),
        is_residual_plane(layout, kinds, a, res, width as int, stride as int, slots),
        is_residual_plane(layout, kinds, b, res, width as int, stride as int, slots),
    ensures
        a == b,
{
    if a.len() > 0 {
        assert(width > 0) by (nonlinear_arith)
            requires
                a.len() == width * height * stride,
                a.len() > 0,
        ;
        lemma_prefix_determined(layout, kinds, a, b, res, width as int, stride as int, slots, a.len() as int);
    }
    assert(a =~= b);
}

proof fn lemma_prefix_determined(
    layout: FilterLayout,
    kinds: Seq<u8>,
    a: Seq<u8>,
    b: Seq<u8>,
    res: Seq<u8>,
    wi: int,
    si: int,
    slots: Seq<usize>,
    n: int,
)
    requires
        wi > 0,
        si > 0,
        0 <= n <= a.len(),
        is_residual_plane(layout, kinds, a, res, wi, si, slots),
        is_residual_plane(layout, kinds, b, res, wi, si, slots),
    ensures
        forall|j: int| 0 <= j < n ==> a[j] == b[j],
    decreases n,
{
    if n > 0 {
        lemma_prefix_determined(layout, kinds, a, b, res, wi, si, slots, n - 1);
        let j = n - 1;
        lemma_neighbours(j, wi, si);
        assert(res[j] == residual_at(layout, kinds, a, j, wi, si, slots));
        assert(res[j] == residual_at(layout, kinds, b, j, wi, si, slots));
        if is_coded(slots, j, si) {
            let k = kind_at(layout, kinds, j, wi, si);
            assert(prediction(k, a, j, wi, si) == prediction(k, b, j, wi, si));
            let pa = prediction(k, a, j, wi, si);
            lemma_zigzag_bijection(sub8(a[j], pa), 0);
            lemma_zigzag_bijection(sub8(b[j], pa), 0);
            lemma_wrapping(a[j], b[j], pa);
        }
    }
}

} // verus!
