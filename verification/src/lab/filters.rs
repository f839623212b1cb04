//! PNG's per-row prediction filters.
//!
//! Here so a comparison against PNG separates the two things PNG actually does: predict each
//! sample from its neighbours, then Deflate the residual. Without this, raw samples through Deflate
//! would understate PNG.
//!
//! Filter choice per row uses the minimum-sum-of-absolute-differences heuristic from the PNG
//! specification. Each row is prefixed with its filter type, exactly as PNG does.

use crate::error::BrpError;
use crate::image::{valid_channels, RawImage};
use crate::predict::{add8, lemma_wrapping, predict, spec_predict, spec_unzigzag, spec_zigzag, sub8};
pub use crate::predict::{unzigzag, zigzag};
use vstd::prelude::*;

verus! {

const NONE: u8 = 0;
const PAETH: u8 = 4;

/// Why filtered bytes could not be turned back into an image.
#[derive(Debug, Clone, PartialEq, Eq)]
pub enum FilterError {
    /// The filtered bytes are not `height * (1 + width * channels)` long.
    LengthMismatch { got: usize, expected: u128 },
    /// A row names a filter type PNG does not define.
    UnknownFilterType { kind: u8, row: usize },
    /// There is not one filter type per row.
    RowCountMismatch { types: usize, rows: u32 },
    /// The geometry does not describe an image.
    Image(BrpError),
}

// ---------------------------------------------------------------------------------------------
// The model: rows of `rb` bytes, each sample predicted from its left, upper and upper-left
// neighbours, with zero standing in outside the image.
// ---------------------------------------------------------------------------------------------

pub open spec fn left_of(s: Seq<u8>, rb: int, stride: int, y: int, i: int) -> u8 {
    if i >= stride {
        s[y * rb + i - stride]
    } else {
        0
    }
}

pub open spec fn above_of(s: Seq<u8>, rb: int, y: int, i: int) -> u8 {
    if y > 0 {
        s[(y - 1) * rb + i]
    } else {
        0
    }
}

pub open spec fn upper_left_of(s: Seq<u8>, rb: int, stride: int, y: int, i: int) -> u8 {
    if y > 0 && i >= stride {
        s[(y - 1) * rb + i - stride]
    } else {
        0
    }
}

/// The residual of byte `i` of row `y` under filter `kind`.
pub open spec fn residual_of(kind: u8, s: Seq<u8>, rb: int, stride: int, y: int, i: int) -> u8 {
    sub8(
        s[y * rb + i],
        spec_predict(
            kind,
            left_of(s, rb, stride, y, i),
            above_of(s, rb, y, i),
            upper_left_of(s, rb, stride, y, i),
        ),
    )
}

/// A residual read as a signed byte, by magnitude.
pub open spec fn magnitude(r: u8) -> nat {
    if r < 128 {
        r as nat
    } else {
        (256 - r) as nat
    }
}

/// PNG's score for the first `n` bytes of row `y` under `kind`.
pub open spec fn row_score(kind: u8, s: Seq<u8>, rb: int, stride: int, y: int, n: int) -> nat
    decreases n,
{
    if n <= 0 {
        0
    } else {
        row_score(kind, s, rb, stride, y, n - 1) + magnitude(residual_of(kind, s, rb, stride, y, n - 1))
    }
}

/// The best of the first `k` filter types for row `y` and its score: the lowest score, ties going
/// to the earlier type.
pub open spec fn best_upto(s: Seq<u8>, rb: int, stride: int, y: int, k: nat) -> (u8, nat)
    decreases k,
{
    if k == 0 {
        (0u8, u64::MAX as nat)
    } else {
        let prev = best_upto(s, rb, stride, y, (k - 1) as nat);
        let score = row_score((k - 1) as u8, s, rb, stride, y, rb);
        if score < prev.1 {
            ((k - 1) as u8, score)
        } else {
            prev
        }
    }
}

/// The filter type the encoder picks for row `y`.
pub open spec fn row_kind(s: Seq<u8>, rb: int, stride: int, y: int) -> u8 {
    best_upto(s, rb, stride, y, 5).0
}

/// The type byte of row `y` of filtered bytes.
pub open spec fn type_at(f: Seq<u8>, rb: int, y: int) -> u8 {
    f[y * (1 + rb)]
}

/// Residual `i` of row `y` of filtered bytes.
pub open spec fn body_at(f: Seq<u8>, rb: int, y: int, i: int) -> u8 {
    f[y * (1 + rb) + 1 + i]
}

/// `f` holds `h` rows, each a filter type PNG defines followed by the residuals of `src`'s row
/// under that type.
pub open spec fn filters_to(src: Seq<u8>, f: Seq<u8>, rb: int, stride: int, h: int) -> bool {
    &&& src.len() == h * rb
    &&& f.len() == h * (1 + rb)
    &&& forall|y: int| 0 <= y < h ==> #[trigger] type_at(f, rb, y) <= 4
    &&& forall|y: int, i: int|
        0 <= y < h && 0 <= i < rb ==> #[trigger] body_at(f, rb, y, i) == residual_of(
            type_at(f, rb, y),
            src,
            rb,
            stride,
            y,
            i,
        )
}

proof fn lemma_row_score_bound(kind: u8, s: Seq<u8>, rb: int, stride: int, y: int, n: int)
    ensures
        row_score(kind, s, rb, stride, y, n) <= 128 * (if n < 0 { 0 } else { n }),
    decreases n,
{
    if n > 0 {
        lemma_row_score_bound(kind, s, rb, stride, y, n - 1);
    }
}

proof fn lemma_best_upto_kind(s: Seq<u8>, rb: int, stride: int, y: int, k: nat)
    ensures
        best_upto(s, rb, stride, y, k).0 <= PAETH || k > 5,
        k <= 5 ==> best_upto(s, rb, stride, y, k).0 < k || k == 0,
    decreases k,
{
    if k > 0 {
        lemma_best_upto_kind(s, rb, stride, y, (k - 1) as nat);
    }
}

/// Index `j` of a raster of `rb`-byte rows is byte `j % rb` of row `j / rb`.
proof fn lemma_row_index(j: int, rb: int)
    requires
        0 <= j,
        rb > 0,
    ensures
        j == (j / rb) * rb + j % rb,
        0 <= j % rb < rb,
        0 <= j / rb,
{
    vstd::arithmetic::div_mod::lemma_fundamental_div_mod(j, rb);
    vstd::arithmetic::div_mod::lemma_div_pos_is_pos(j, rb);
    vstd::arithmetic::mul::lemma_mul_is_commutative(rb, j / rb);
}

/// Filtered bytes determine the samples they were made from: two sources that filter to the same
/// bytes are the same.
pub proof fn lemma_unfilter_unique(a: Seq<u8>, b: Seq<u8>, f: Seq<u8>, rb: int, stride: int, h: int)
    requires
        stride > 0,
        rb >= 0,
        filters_to(a, f, rb, stride, h),
        filters_to(b, f, rb, stride, h),
    ensures
        a == b,
{
    lemma_prefix_agrees(a, b, f, rb, stride, h, a.len() as int);
    assert(a =~= b);
}

proof fn lemma_prefix_agrees(a: Seq<u8>, b: Seq<u8>, f: Seq<u8>, rb: int, stride: int, h: int, n: int)
    requires
        stride > 0,
        rb >= 0,
        0 <= n <= a.len(),
        filters_to(a, f, rb, stride, h),
        filters_to(b, f, rb, stride, h),
    ensures
        forall|j: int| 0 <= j < n ==> a[j] == b[j],
    decreases n,
{
    if n > 0 {
        lemma_prefix_agrees(a, b, f, rb, stride, h, n - 1);
        let j = n - 1;
        assert(rb > 0) by {
            if rb == 0 {
                assert(a.len() == 0) by (nonlinear_arith)
                    requires
                        a.len() == h * rb,
                        rb == 0,
                ;
            }
        }
        lemma_row_index(j, rb);
        let y = j / rb;
        let i = j % rb;
        assert(y < h) by (nonlinear_arith)
            requires
                j == y * rb + i,
                0 <= i,
                j < h * rb,
                rb > 0,
        ;
        if y > 0 {
            assert(0 <= (y - 1) * rb + i < j) by (nonlinear_arith)
                requires
                    j == y * rb + i,
                    y > 0,
                    rb > 0,
                    0 <= i < rb,
            ;
        }
        let k = type_at(f, rb, y);
        assert(body_at(f, rb, y, i) == residual_of(k, a, rb, stride, y, i));
        assert(body_at(f, rb, y, i) == residual_of(k, b, rb, stride, y, i));
        assert(left_of(a, rb, stride, y, i) == left_of(b, rb, stride, y, i));
        assert(above_of(a, rb, y, i) == above_of(b, rb, y, i));
        assert(upper_left_of(a, rb, stride, y, i) == upper_left_of(b, rb, stride, y, i));
        let p = spec_predict(
            k,
            left_of(a, rb, stride, y, i),
            above_of(a, rb, y, i),
            upper_left_of(a, rb, stride, y, i),
        );
        lemma_wrapping(a[j], b[j], p);
    }
}


/// Row `y` of `h` rows of `rb` bytes lies inside them.
proof fn lemma_row_fits(y: int, h: int, rb: int)
    requires
        0 <= y < h,
        rb >= 0,
    ensures
        0 <= y * rb,
        y * rb + rb <= h * rb,
        (y + 1) * rb == y * rb + rb,
        y > 0 ==> y * rb - rb == (y - 1) * rb,
        y > 0 ==> y * rb >= rb,
        0 <= y * (1 + rb),
        (y + 1) * (1 + rb) == y * (1 + rb) + 1 + rb,
        (y + 1) * (1 + rb) <= h * (1 + rb),
{
    assert(0 <= y * rb && y * rb + rb <= h * rb && (y + 1) * rb == y * rb + rb) by (nonlinear_arith)
        requires
            0 <= y < h,
            rb >= 0,
    ;
    assert(y > 0 ==> y * rb - rb == (y - 1) * rb && y * rb >= rb) by (nonlinear_arith)
        requires
            0 <= y,
            rb >= 0,
    ;
    assert(0 <= y * (1 + rb) && (y + 1) * (1 + rb) == y * (1 + rb) + 1 + rb && (y + 1) * (1 + rb)
        <= h * (1 + rb)) by (nonlinear_arith)
        requires
            0 <= y < h,
            rb >= 0,
    ;
}

/// The residuals of row `y` under `kind`, into `candidate`, and PNG's score for them.
fn score_row(data: &[u8], row_bytes: usize, stride: usize, y: usize, kind: u8, candidate: &mut Vec<u8>) -> (score: u64)
    requires
        y * row_bytes + row_bytes <= data@.len(),
        data@.len() <= u64::MAX / 256,
        old(candidate)@.len() == row_bytes,
    ensures
        final(candidate)@.len() == row_bytes,
        score == row_score(kind, data@, row_bytes as int, stride as int, y as int, row_bytes as int),
        forall|j: int|
            0 <= j < row_bytes ==> #[trigger] final(candidate)@[j] == residual_of(
                kind,
                data@,
                row_bytes as int,
                stride as int,
                y as int,
                j,
            ),
{
    let ghost s = data@;
    let ghost rbi = row_bytes as int;
    let ghost si = stride as int;
    let total = data.len();
    proof {
        if y > 0 {
            lemma_row_fits(y as int, y as int + 1, rbi);
        }
    }
    let base = y * row_bytes;
    let mut score: u64 = 0;
    let mut i: usize = 0;
    while i < row_bytes
        invariant
            s == data@,
            s.len() == total,
            s.len() <= u64::MAX / 256,
            rbi == row_bytes,
            si == stride,
            base == y * rbi,
            base + rbi <= s.len(),
            y > 0 ==> base >= rbi && base - rbi == (y - 1) * rbi,
            i <= row_bytes,
            candidate@.len() == row_bytes,
            score == row_score(kind, s, rbi, si, y as int, i as int),
            score <= 128 * i,
            forall|j: int|
                0 <= j < i ==> #[trigger] candidate@[j] == residual_of(kind, s, rbi, si, y as int, j),
        decreases row_bytes - i,
    {
        let left = if i >= stride {
            data[base + i - stride]
        } else {
            0
        };
        let above = if y > 0 {
            data[base - row_bytes + i]
        } else {
            0
        };
        let upper_left = if y > 0 && i >= stride {
            data[base - row_bytes + i - stride]
        } else {
            0
        };
        let r = data[base + i].wrapping_sub(predict(kind, left, above, upper_left));
        assert(r == residual_of(kind, s, rbi, si, y as int, i as int));
        candidate.set(i, r);
        // PNG's heuristic: treat the residual as signed and sum absolute values.
        let m: u64 = if r < 128 {
            r as u64
        } else {
            256 - r as u64
        };
        assert(score + m <= 128 * (i + 1)) by {
            assert(m <= 128);
        }
        score = score + m;
        i = i + 1;
    }
    score
}

/// Filters an image into `height * (1 + row_bytes)` bytes: a filter type then the residual row.
///
/// Each row's type is the one whose residuals, read as signed bytes, have the least total
/// magnitude, ties going to the lower type.
pub fn apply(img: &RawImage) -> (out: Vec<u8>)
    requires
        img.wf(),
        img.spec_data().len() <= u64::MAX / 256,
    ensures
        ({
            let rb = img.spec_width() * img.spec_channels();
            let stride = img.spec_channels() as int;
            &&& filters_to(img.spec_data(), out@, rb, stride, img.spec_height() as int)
            &&& forall|y: int|
                0 <= y < img.spec_height() ==> #[trigger] type_at(out@, rb, y) == row_kind(
                    img.spec_data(),
                    rb,
                    stride,
                    y,
                )
        }),
{
    proof {
        img.lemma_wf();
    }
    let stride = img.channels() as usize;
    let height = img.height() as usize;
    let data = img.data();
    let ghost s = data@;
    let ghost si = stride as int;
    let ghost h = height as int;
    let ghost rbi = img.spec_width() * img.spec_channels();
    assert(img.spec_width() * img.spec_channels() <= s.len()) by (nonlinear_arith)
        requires
            s.len() == img.spec_width() * img.spec_height() * img.spec_channels(),
            img.spec_height() >= 1,
    ;
    let row_bytes = img.width() as usize * stride;
    assert(row_bytes == rbi);
    assert(s.len() == h * rbi) by (nonlinear_arith)
        requires
            s.len() == img.spec_width() * img.spec_height() * img.spec_channels(),
            h == img.spec_height(),
            rbi == img.spec_width() * img.spec_channels(),
    ;
    let total = data.len();
    let mut out: Vec<u8> = Vec::new();
    let mut candidate: Vec<u8> = Vec::new();
    candidate.resize(row_bytes, 0);
    let mut best: Vec<u8> = Vec::new();
    best.resize(row_bytes, 0);
    let mut y: usize = 0;
    while y < height
        invariant
            s == data@,
            s == img.spec_data(),
            s.len() == total,
            s.len() == h * rbi,
            s.len() <= u64::MAX / 256,
            h == height,
            rbi == row_bytes,
            si == stride,
            y <= height,
            candidate@.len() == row_bytes,
            best@.len() == row_bytes,
            out@.len() == y * (1 + rbi),
            forall|yy: int| 0 <= yy < y ==> #[trigger] type_at(out@, rbi, yy) == row_kind(s, rbi, si, yy),
            forall|yy: int| 0 <= yy < y ==> #[trigger] type_at(out@, rbi, yy) <= 4,
            forall|yy: int, i: int|
                0 <= yy < y && 0 <= i < rbi ==> #[trigger] body_at(out@, rbi, yy, i) == residual_of(
                    row_kind(s, rbi, si, yy),
                    s,
                    rbi,
                    si,
                    yy,
                    i,
                ),
        decreases height - y,
    {
        proof {
            lemma_row_fits(y as int, h, rbi);
        }
        let base = y * row_bytes;
        let mut best_kind: u8 = NONE;
        let mut best_score: u64 = u64::MAX;
        let mut kind: u8 = 0;
        while kind < 5
            invariant
                s == data@,
                s.len() == h * rbi,
                s.len() <= u64::MAX / 256,
                y < height,
                h == height,
                rbi == row_bytes,
                si == stride,
                base == y * rbi,
                base + rbi <= s.len(),
                y > 0 ==> base >= rbi && base - rbi == (y - 1) * rbi,
                kind <= 5,
                candidate@.len() == row_bytes,
                best@.len() == row_bytes,
                (best_kind, best_score as nat) == best_upto(s, rbi, si, y as int, kind as nat),
                kind > 0 ==> forall|i: int|
                    0 <= i < rbi ==> #[trigger] best@[i] == residual_of(best_kind, s, rbi, si, y as int, i),
            decreases 5 - kind,
        {
            let score = score_row(data, row_bytes, stride, y, kind, &mut candidate);
            proof {
                lemma_row_score_bound(kind, s, rbi, si, y as int, rbi);
                assert(score < u64::MAX);
            }
            if score < best_score {
                best_score = score;
                best_kind = kind;
                std::mem::swap(&mut best, &mut candidate);
            }
            kind = kind + 1;
        }
        proof {
            lemma_best_upto_kind(s, rbi, si, y as int, 5);
        }
        let ghost before = out@;
        out.push(best_kind);
        let mut i: usize = 0;
        while i < row_bytes
            invariant
                rbi == row_bytes,
                best@.len() == row_bytes,
                i <= row_bytes,
                out@.len() == y * (1 + rbi) + 1 + i,
                out@.subrange(0, y * (1 + rbi)) == before.subrange(0, y * (1 + rbi)),
                before.len() == y * (1 + rbi),
                out@[y * (1 + rbi)] == best_kind,
                forall|j: int| 0 <= j < i ==> #[trigger] out@[y * (1 + rbi) + 1 + j] == best@[j],
            decreases row_bytes - i,
        {
            out.push(best[i]);
            i = i + 1;
        }
        proof {
            assert forall|yy: int| 0 <= yy < y implies #[trigger] type_at(out@, rbi, yy) == type_at(
                before,
                rbi,
                yy,
            ) by {
                lemma_row_fits(yy, y as int, rbi);
                assert(out@.subrange(0, y * (1 + rbi))[yy * (1 + rbi)] == out@[yy * (1 + rbi)]);
            }
            assert forall|yy: int, j: int| 0 <= yy < y && 0 <= j < rbi implies #[trigger] body_at(
                out@,
                rbi,
                yy,
                j,
            ) == body_at(before, rbi, yy, j) by {
                lemma_row_fits(yy, y as int, rbi);
                assert(out@.subrange(0, y * (1 + rbi))[yy * (1 + rbi) + 1 + j] == out@[yy * (1 + rbi)
                    + 1 + j]);
            }
            assert(type_at(out@, rbi, y as int) == best_kind);
            assert forall|j: int| 0 <= j < rbi implies #[trigger] body_at(out@, rbi, y as int, j)
                == residual_of(row_kind(s, rbi, si, y as int), s, rbi, si, y as int, j) by {
                assert(out@[y * (1 + rbi) + 1 + j] == best@[j]);
            }
        }
        y = y + 1;
    }
    out
}


/// A residual reads only its own byte and bytes before it: two rasters that agree below `n`
/// give the same residuals wherever the byte itself is below `n`.
proof fn lemma_residual_frame(k: u8, a: Seq<u8>, b: Seq<u8>, rb: int, stride: int, y: int, i: int, n: int)
    requires
        rb >= 0,
        stride >= 0,
        0 <= y,
        0 <= i < rb,
        y * rb + i < n,
        n <= a.len(),
        n <= b.len(),
        forall|j: int| 0 <= j < n ==> a[j] == b[j],
    ensures
        residual_of(k, a, rb, stride, y, i) == residual_of(k, b, rb, stride, y, i),
{
    assert(0 <= y * rb) by (nonlinear_arith)
        requires
            0 <= y,
            rb >= 0,
    ;
    if y > 0 {
        assert((y - 1) * rb == y * rb - rb) by (nonlinear_arith);
    }
}

/// Writing byte `i` of row `y` so that its residual is `body` keeps the residuals of the bytes
/// before it in the row.
proof fn lemma_row_step(
    kind: u8,
    before: Seq<u8>,
    after: Seq<u8>,
    f: Seq<u8>,
    rb: int,
    stride: int,
    y: int,
    i: int,
)
    requires
        rb >= 0,
        stride > 0,
        0 <= y,
        0 <= i < rb,
        y * rb + i < before.len(),
        after == before.update(y * rb + i, add8(
            body_at(f, rb, y, i),
            spec_predict(
                kind,
                left_of(before, rb, stride, y, i),
                above_of(before, rb, y, i),
                upper_left_of(before, rb, stride, y, i),
            ),
        )),
        forall|k: int|
            0 <= k < i ==> #[trigger] body_at(f, rb, y, k) == residual_of(kind, before, rb, stride, y, k),
    ensures
        forall|k: int|
            0 <= k <= i ==> #[trigger] body_at(f, rb, y, k) == residual_of(kind, after, rb, stride, y, k),
{
    assert(0 <= y * rb) by (nonlinear_arith)
        requires
            0 <= y,
            rb >= 0,
    ;
    if y > 0 {
        assert((y - 1) * rb == y * rb - rb) by (nonlinear_arith);
    }
    let p = spec_predict(
        kind,
        left_of(before, rb, stride, y, i),
        above_of(before, rb, y, i),
        upper_left_of(before, rb, stride, y, i),
    );
    assert(left_of(after, rb, stride, y, i) == left_of(before, rb, stride, y, i));
    assert(above_of(after, rb, y, i) == above_of(before, rb, y, i));
    assert(upper_left_of(after, rb, stride, y, i) == upper_left_of(before, rb, stride, y, i));
    lemma_wrapping(body_at(f, rb, y, i), body_at(f, rb, y, i), p);
    assert forall|k: int| 0 <= k <= i implies #[trigger] body_at(f, rb, y, k) == residual_of(
        kind,
        after,
        rb,
        stride,
        y,
        k,
    ) by {
        if k < i {
            lemma_residual_frame(kind, before, after, rb, stride, y, k, y * rb + i);
        }
    }
}

/// Reverses the filter of row `y` under `kind`, reading the rows above from `data`.
#[verifier::spinoff_prover]
#[verifier::rlimit(40)]
fn unfilter_row(filtered: &[u8], data: &mut Vec<u8>, row_bytes: usize, stride: usize, y: usize, kind: u8)
    requires
        y * row_bytes + row_bytes <= old(data)@.len(),
        (y + 1) * (1 + row_bytes) <= filtered@.len(),
        stride > 0,
    ensures
        final(data)@.len() == old(data)@.len(),
        forall|j: int|
            0 <= j < old(data)@.len() && !(y * row_bytes <= j < y * row_bytes + row_bytes)
                ==> #[trigger] final(data)@[j] == old(data)@[j],
        forall|i: int|
            0 <= i < row_bytes ==> #[trigger] body_at(filtered@, row_bytes as int, y as int, i)
                == residual_of(kind, final(data)@, row_bytes as int, stride as int, y as int, i),
{
    let ghost rbi = row_bytes as int;
    let ghost si = stride as int;
    let ghost f = filtered@;
    let ghost start = data@;
    let flen = filtered.len();
    let dlen = data.len();
    proof {
        lemma_row_fits(y as int, y as int + 1, rbi);
    }
    let base = y * row_bytes;
    let fbase = y * (1 + row_bytes) + 1;
    let mut i: usize = 0;
    while i < row_bytes
        invariant
            f == filtered@,
            f.len() == flen,
            rbi == row_bytes,
            si == stride,
            stride > 0,
            base == y * rbi,
            fbase == y * (1 + rbi) + 1,
            fbase + rbi <= flen,
            base + rbi <= dlen,
            y > 0 ==> base >= rbi && base - rbi == (y - 1) * rbi,
            i <= row_bytes,
            data@.len() == dlen,
            start.len() == dlen,
            forall|j: int| 0 <= j < dlen && !(base <= j < base + i) ==> #[trigger] data@[j] == start[j],
            forall|k: int|
                0 <= k < i ==> #[trigger] body_at(f, rbi, y as int, k) == residual_of(kind, data@, rbi, si, y as int, k),
        decreases row_bytes - i,
    {
        let left = if i >= stride {
            data[base + i - stride]
        } else {
            0
        };
        let above = if y > 0 {
            data[base - row_bytes + i]
        } else {
            0
        };
        let upper_left = if y > 0 && i >= stride {
            data[base - row_bytes + i - stride]
        } else {
            0
        };
        let p = predict(kind, left, above, upper_left);
        let v = filtered[fbase + i].wrapping_add(p);
        let ghost before = data@;
        proof {
            assert(filtered@[fbase + i] == body_at(f, rbi, y as int, i as int));
        }
        data.set(base + i, v);
        proof {
            lemma_row_step(kind, before, data@, f, rbi, si, y as int, i as int);
        }
        i = i + 1;
    }
}

/// What reversing the filter of `f` for a `width` by `height` image of `channels` channels
/// gives: a length error, the first row with an undefined filter type, a geometry that is no
/// image, or the image whose samples filter to `f`.
pub open spec fn unfilter_outcome(
    f: Seq<u8>,
    width: u32,
    height: u32,
    channels: u8,
    r: Result<RawImage, FilterError>,
) -> bool {
    let rb = width * channels;
    let h = height as int;
    let stride = channels as int;
    let geometry = valid_channels(channels) && width > 0 && height > 0;
    &&& f.len() != h * (1 + rb) ==> r == Err::<RawImage, FilterError>(
        FilterError::LengthMismatch { got: f.len() as usize, expected: (h * (1 + rb)) as u128 },
    )
    &&& f.len() == h * (1 + rb) ==> match r {
        Ok(img) => {
            &&& img.spec_width() == width
            &&& img.spec_height() == height
            &&& img.spec_channels() == channels
            &&& filters_to(img.spec_data(), f, rb, stride, h)
        },
        Err(FilterError::UnknownFilterType { kind, row }) => {
            &&& row < h
            &&& type_at(f, rb, row as int) == kind
            &&& kind > 4
            &&& forall|y: int| 0 <= y < row ==> #[trigger] type_at(f, rb, y) <= 4
        },
        Err(FilterError::Image(_)) => !geometry,
        Err(_) => false,
    }
    &&& forall|src: Seq<u8>|
        geometry && #[trigger] filters_to(src, f, rb, stride, h) ==> (r matches Ok(img)
            && img.spec_data() == src)
}

/// Reverses [`apply`], given the geometry the filtered bytes belong to.
pub fn undo(filtered: &[u8], width: u32, height: u32, channels: u8) -> (r: Result<RawImage, FilterError>)
    ensures
        unfilter_outcome(filtered@, width, height, channels, r),
{
    let ghost f = filtered@;
    let ghost rbi = width * channels;
    let ghost h = height as int;
    let ghost si = channels as int;
    assert(width * channels <= 0xFFFF_FFFF * 255) by (nonlinear_arith)
        requires
            width <= 0xFFFF_FFFF,
            channels <= 255,
    ;
    let rb64: u64 = width as u64 * channels as u64;
    assert(height * (1 + rb64) <= 0xFFFF_FFFF * (1 + 0xFFFF_FFFF * 255)) by (nonlinear_arith)
        requires
            height <= 0xFFFF_FFFF,
            rb64 <= 0xFFFF_FFFF * 255,
    ;
    let expected: u128 = height as u128 * (1 + rb64 as u128);
    assert(expected == h * (1 + rbi));
    let flen = filtered.len();
    if flen as u128 != expected {
        return Err(FilterError::LengthMismatch { got: flen, expected });
    }
    if height == 0 || channels == 0 {
        let empty: Vec<u8> = Vec::new();
        proof {
            assert(h * rbi == 0) by (nonlinear_arith)
                requires
                    h == 0 || channels == 0,
                    rbi == width * channels,
            ;
            assert forall|src: Seq<u8>| #[trigger] filters_to(src, f, rbi, si, h) implies src
                =~= empty@ by {}
        }
        return match RawImage::new(width, height, channels, empty) {
            Ok(img) => Ok(img),
            Err(e) => Err(FilterError::Image(e)),
        };
    }
    let stride = channels as usize;
    assert(rb64 <= expected) by (nonlinear_arith)
        requires
            expected == height * (1 + rb64),
            height >= 1,
    ;
    let row_bytes = rb64 as usize;
    assert(h * rbi <= expected) by (nonlinear_arith)
        requires
            expected == h * (1 + rbi),
            rbi >= 0,
    ;
    let len = height as usize * row_bytes;
    let mut data: Vec<u8> = Vec::new();
    data.resize(len, 0);
    let mut y: usize = 0;
    while y < height as usize
        invariant
            f == filtered@,
            f.len() == h * (1 + rbi),
            f.len() == flen,
            rbi == width * channels,
            rbi == row_bytes,
            si == stride,
            stride > 0,
            h == height,
            y <= h,
            data@.len() == h * rbi,
            forall|yy: int| 0 <= yy < y ==> #[trigger] type_at(f, rbi, yy) <= 4,
            forall|yy: int, i: int|
                0 <= yy < y && 0 <= i < rbi ==> #[trigger] body_at(f, rbi, yy, i) == residual_of(
                    type_at(f, rbi, yy),
                    data@,
                    rbi,
                    si,
                    yy,
                    i,
                ),
        decreases h - y,
    {
        proof {
            lemma_row_fits(y as int, h, rbi);
            lemma_row_fits(y as int, h, 1 + rbi);
        }
        let kind = filtered[y * (1 + row_bytes)];
        assert(kind == type_at(f, rbi, y as int));
        if kind > PAETH {
            proof {
                assert forall|src: Seq<u8>| !#[trigger] filters_to(src, f, rbi, si, h) by {
                    assert(type_at(f, rbi, y as int) > 4);
                }
            }
            return Err(FilterError::UnknownFilterType { kind, row: y });
        }
        let ghost before = data@;
        unfilter_row(filtered, &mut data, row_bytes, stride, y, kind);
        proof {
            assert forall|yy: int, i: int| 0 <= yy < y && 0 <= i < rbi implies #[trigger] body_at(
                f,
                rbi,
                yy,
                i,
            ) == residual_of(type_at(f, rbi, yy), data@, rbi, si, yy, i) by {
                lemma_row_fits(yy, y as int, rbi);
                lemma_residual_frame(type_at(f, rbi, yy), before, data@, rbi, si, yy, i, y * rbi);
            }
        }
        y = y + 1;
    }
    let ghost out = data@;
    proof {
        assert(filters_to(out, f, rbi, si, h));
        assert forall|src: Seq<u8>| #[trigger] filters_to(src, f, rbi, si, h) implies src == out by {
            lemma_unfilter_unique(src, out, f, rbi, si, h);
        }
        assert(out.len() == width * height * channels) by (nonlinear_arith)
            requires
                out.len() == h * rbi,
                h == height,
                rbi == width * channels,
        ;
        assert(width * height <= width * height * channels) by (nonlinear_arith)
            requires
                channels >= 1,
        ;
    }
    match RawImage::new(width, height, channels, data) {
        Ok(img) => Ok(img),
        Err(e) => Err(FilterError::Image(e)),
    }
}


/// Residual `i` of row `y` of residuals kept in the source's geometry.
pub open spec fn residual_at(res: Seq<u8>, rb: int, y: int, i: int) -> u8 {
    res[y * rb + i]
}

/// `types` and `res` are `src` split by its filter: one type PNG defines per row, and the
/// residuals in the source's geometry.
pub open spec fn splits_to(src: Seq<u8>, types: Seq<u8>, res: Seq<u8>, rb: int, stride: int, h: int) -> bool {
    &&& src.len() == h * rb
    &&& res.len() == h * rb
    &&& types.len() == h
    &&& forall|y: int| 0 <= y < h ==> #[trigger] types[y] <= 4
    &&& forall|y: int, i: int|
        0 <= y < h && 0 <= i < rb ==> #[trigger] residual_at(res, rb, y, i) == residual_of(
            types[y],
            src,
            rb,
            stride,
            y,
            i,
        )
}

/// What joining `types` and the residual image `res` gives: a row count error, the first row with
/// an undefined filter type, or the image the two were split from.
pub open spec fn join_outcome(types: Seq<u8>, res: RawImage, r: Result<RawImage, FilterError>) -> bool {
    let rb = res.spec_width() * res.spec_channels();
    let h = res.spec_height() as int;
    let stride = res.spec_channels() as int;
    &&& types.len() != h ==> r == Err::<RawImage, FilterError>(
        FilterError::RowCountMismatch { types: types.len() as usize, rows: res.spec_height() },
    )
    &&& types.len() == h ==> match r {
        Ok(img) => {
            &&& img.spec_width() == res.spec_width()
            &&& img.spec_height() == res.spec_height()
            &&& img.spec_channels() == res.spec_channels()
            &&& splits_to(img.spec_data(), types, res.spec_data(), rb, stride, h)
        },
        Err(FilterError::UnknownFilterType { kind, row }) => {
            &&& row < h
            &&& types[row as int] == kind
            &&& kind > 4
            &&& forall|y: int| 0 <= y < row ==> #[trigger] types[y] <= 4
        },
        Err(_) => false,
    }
    &&& forall|src: Seq<u8>| #[trigger] splits_to(src, types, res.spec_data(), rb, stride, h)
        ==> (r matches Ok(img) && img.spec_data() == src)
}

/// Splits [`apply`]'s output into the per-row filter types and the residuals as an image.
///
/// The residuals keep the source geometry, so a codec built for images can be pointed straight at
/// them.
pub fn split(img: &RawImage) -> (r: (Vec<u8>, RawImage))
    requires
        img.wf(),
        img.spec_data().len() <= u64::MAX / 256,
    ensures
        r.1.wf(),
        r.1.spec_width() == img.spec_width(),
        r.1.spec_height() == img.spec_height(),
        r.1.spec_channels() == img.spec_channels(),
        splits_to(
            img.spec_data(),
            r.0@,
            r.1.spec_data(),
            img.spec_width() * img.spec_channels(),
            img.spec_channels() as int,
            img.spec_height() as int,
        ),
        forall|y: int|
            0 <= y < img.spec_height() ==> #[trigger] r.0@[y] == row_kind(
                img.spec_data(),
                img.spec_width() * img.spec_channels(),
                img.spec_channels() as int,
                y,
            ),
{
    proof {
        img.lemma_wf();
    }
    let ghost s = img.spec_data();
    let ghost si = img.spec_channels() as int;
    let ghost h = img.spec_height() as int;
    let ghost rbi = img.spec_width() * img.spec_channels();
    let stride = img.channels() as usize;
    assert(rbi <= s.len()) by (nonlinear_arith)
        requires
            s.len() == img.spec_width() * img.spec_height() * img.spec_channels(),
            rbi == img.spec_width() * img.spec_channels(),
            img.spec_height() >= 1,
    ;
    assert(s.len() == h * rbi) by (nonlinear_arith)
        requires
            s.len() == img.spec_width() * img.spec_height() * img.spec_channels(),
            h == img.spec_height(),
            rbi == img.spec_width() * img.spec_channels(),
    ;
    let row_bytes = img.width() as usize * stride;
    let height = img.height() as usize;
    let filtered = apply(img);
    let ghost f = filtered@;
    let flen = filtered.len();
    let mut types: Vec<u8> = Vec::new();
    let mut residuals: Vec<u8> = Vec::new();
    let mut y: usize = 0;
    while y < height
        invariant
            f == filtered@,
            f.len() == flen,
            filters_to(s, f, rbi, si, h),
            forall|yy: int| 0 <= yy < h ==> #[trigger] type_at(f, rbi, yy) == row_kind(s, rbi, si, yy),
            rbi == row_bytes,
            h == height,
            s.len() == h * rbi,
            y <= height,
            types@.len() == y,
            residuals@.len() == y * rbi,
            forall|yy: int| 0 <= yy < y ==> #[trigger] types@[yy] == type_at(f, rbi, yy),
            forall|yy: int, i: int|
                0 <= yy < y && 0 <= i < rbi ==> #[trigger] residual_at(residuals@, rbi, yy, i) == body_at(
                    f,
                    rbi,
                    yy,
                    i,
                ),
        decreases height - y,
    {
        proof {
            lemma_row_fits(y as int, h, rbi);
            lemma_row_fits(y as int, h, 1 + rbi);
        }
        let fbase = y * (1 + row_bytes);
        types.push(filtered[fbase]);
        let ghost before = residuals@;
        let mut i: usize = 0;
        while i < row_bytes
            invariant
                f == filtered@,
                f.len() == h * (1 + rbi),
                f.len() == flen,
                rbi == row_bytes,
                fbase == y * (1 + rbi),
                fbase + 1 + rbi <= f.len(),
                i <= row_bytes,
                residuals@.len() == y * rbi + i,
                before.len() == y * rbi,
                forall|j: int| 0 <= j < y * rbi ==> #[trigger] residuals@[j] == before[j],
                forall|k: int| 0 <= k < i ==> #[trigger] residuals@[y * rbi + k] == body_at(f, rbi, y as int, k),
            decreases row_bytes - i,
        {
            residuals.push(filtered[fbase + 1 + i]);
            i = i + 1;
        }
        proof {
            assert forall|yy: int, k: int| 0 <= yy < y + 1 && 0 <= k < rbi implies #[trigger] residual_at(
                residuals@,
                rbi,
                yy,
                k,
            ) == body_at(f, rbi, yy, k) by {
                if yy < y {
                    lemma_row_fits(yy, y as int, rbi);
                    assert(residuals@[yy * rbi + k] == before[yy * rbi + k]);
                    assert(residual_at(before, rbi, yy, k) == body_at(f, rbi, yy, k));
                } else {
                    assert(residuals@[y * rbi + k] == body_at(f, rbi, y as int, k));
                }
            }
        }
        y = y + 1;
    }
    proof {
        assert(residuals@.len() == img.spec_width() * img.spec_height() * img.spec_channels()) by (
        nonlinear_arith)
            requires
                residuals@.len() == h * rbi,
                h == img.spec_height(),
                rbi == img.spec_width() * img.spec_channels(),
        ;
    }
    let res = RawImage::new(img.width(), img.height(), img.channels(), residuals).expect(
        "residuals keep the source geometry",
    );
    (types, res)
}

/// Reverses [`split`].
pub fn join(types: &[u8], residuals: &RawImage) -> (r: Result<RawImage, FilterError>)
    requires
        residuals.wf(),
    ensures
        join_outcome(types@, *residuals, r),
{
    proof {
        residuals.lemma_wf();
    }
    let ghost res = residuals.spec_data();
    let ghost si = residuals.spec_channels() as int;
    let ghost h = residuals.spec_height() as int;
    let ghost rbi = residuals.spec_width() * residuals.spec_channels();
    let stride = residuals.channels() as usize;
    let height = residuals.height() as usize;
    if types.len() != height {
        return Err(FilterError::RowCountMismatch { types: types.len(), rows: residuals.height() });
    }
    assert(rbi <= res.len()) by (nonlinear_arith)
        requires
            res.len() == residuals.spec_width() * residuals.spec_height() * residuals.spec_channels(),
            rbi == residuals.spec_width() * residuals.spec_channels(),
            residuals.spec_height() >= 1,
    ;
    assert(res.len() == h * rbi) by (nonlinear_arith)
        requires
            res.len() == residuals.spec_width() * residuals.spec_height() * residuals.spec_channels(),
            h == residuals.spec_height(),
            rbi == residuals.spec_width() * residuals.spec_channels(),
    ;
    let row_bytes = residuals.width() as usize * stride;
    let data = residuals.data();
    let dlen = data.len();
    let mut filtered: Vec<u8> = Vec::new();
    let mut y: usize = 0;
    while y < height
        invariant
            data@ == res,
            res.len() == dlen,
            types@.len() == h,
            rbi == row_bytes,
            h == height,
            res.len() == h * rbi,
            y <= height,
            filtered@.len() == y * (1 + rbi),
            forall|yy: int| 0 <= yy < y ==> #[trigger] type_at(filtered@, rbi, yy) == types@[yy],
            forall|yy: int, i: int|
                0 <= yy < y && 0 <= i < rbi ==> #[trigger] body_at(filtered@, rbi, yy, i) == residual_at(
                    res,
                    rbi,
                    yy,
                    i,
                ),
        decreases height - y,
    {
        proof {
            lemma_row_fits(y as int, h, rbi);
            lemma_row_fits(y as int, h, 1 + rbi);
        }
        let ghost before = filtered@;
        filtered.push(types[y]);
        let base = y * row_bytes;
        let mut i: usize = 0;
        while i < row_bytes
            invariant
                data@ == res,
                res.len() == dlen,
                res.len() == h * rbi,
                rbi == row_bytes,
                base == y * rbi,
                base + rbi <= res.len(),
                i <= row_bytes,
                filtered@.len() == y * (1 + rbi) + 1 + i,
                before.len() == y * (1 + rbi),
                forall|j: int| 0 <= j < y * (1 + rbi) ==> #[trigger] filtered@[j] == before[j],
                filtered@[y * (1 + rbi)] == types@[y as int],
                forall|k: int|
                    0 <= k < i ==> #[trigger] filtered@[y * (1 + rbi) + 1 + k] == residual_at(
                        res,
                        rbi,
                        y as int,
                        k,
                    ),
            decreases row_bytes - i,
        {
            filtered.push(data[base + i]);
            i = i + 1;
        }
        proof {
            assert forall|yy: int| 0 <= yy < y + 1 implies #[trigger] type_at(filtered@, rbi, yy)
                == types@[yy] by {
                if yy < y {
                    lemma_row_fits(yy, y as int, 1 + rbi);
                    assert(filtered@[yy * (1 + rbi)] == before[yy * (1 + rbi)]);
                    assert(type_at(before, rbi, yy) == types@[yy]);
                }
            }
            assert forall|yy: int, k: int| 0 <= yy < y + 1 && 0 <= k < rbi implies #[trigger] body_at(
                filtered@,
                rbi,
                yy,
                k,
            ) == residual_at(res, rbi, yy, k) by {
                if yy < y {
                    lemma_row_fits(yy, y as int, 1 + rbi);
                    assert(filtered@[yy * (1 + rbi) + 1 + k] == before[yy * (1 + rbi) + 1 + k]);
                    assert(body_at(before, rbi, yy, k) == residual_at(res, rbi, yy, k));
                } else {
                    assert(filtered@[y * (1 + rbi) + 1 + k] == residual_at(res, rbi, y as int, k));
                }
            }
        }
        y = y + 1;
    }
    let ghost f = filtered@;
    let r = undo(filtered.as_slice(), residuals.width(), residuals.height(), residuals.channels());
    proof {
        assert forall|src: Seq<u8>| #[trigger] splits_to(src, types@, res, rbi, si, h) implies filters_to(
            src,
            f,
            rbi,
            si,
            h,
        ) by {
            assert forall|yy: int| 0 <= yy < h implies #[trigger] type_at(f, rbi, yy) <= 4 by {
                assert(types@[yy] <= 4);
            }
            assert forall|yy: int, i: int| 0 <= yy < h && 0 <= i < rbi implies #[trigger] body_at(
                f,
                rbi,
                yy,
                i,
            ) == residual_of(type_at(f, rbi, yy), src, rbi, si, yy, i) by {
                assert(residual_at(res, rbi, yy, i) == residual_of(types@[yy], src, rbi, si, yy, i));
            }
        }
        if r is Ok {
            let img = r->Ok_0;
            assert(splits_to(img.spec_data(), types@, res, rbi, si, h)) by {
                assert forall|yy: int| 0 <= yy < h implies #[trigger] types@[yy] <= 4 by {
                    assert(type_at(f, rbi, yy) <= 4);
                }
                assert forall|yy: int, i: int| 0 <= yy < h && 0 <= i < rbi implies #[trigger] residual_at(
                    res,
                    rbi,
                    yy,
                    i,
                ) == residual_of(types@[yy], img.spec_data(), rbi, si, yy, i) by {
                    assert(body_at(f, rbi, yy, i) == residual_at(res, rbi, yy, i));
                }
            }
        }
        if r matches Err(FilterError::UnknownFilterType { .. }) {
            let row = r->Err_0->row;
            assert forall|yy: int| 0 <= yy < row implies #[trigger] types@[yy] <= 4 by {
                assert(type_at(f, rbi, yy) <= 4);
            }
        }
    }
    r
}


/// [`splits_to`], with the residuals zigzagged.
pub open spec fn zigzag_splits_to(src: Seq<u8>, types: Seq<u8>, res: Seq<u8>, rb: int, stride: int, h: int) -> bool {
    splits_to(src, types, Seq::new(res.len(), |j: int| spec_unzigzag(res[j])), rb, stride, h)
}

/// [`join_outcome`], for zigzagged residuals.
pub open spec fn zigzag_join_outcome(types: Seq<u8>, res: RawImage, r: Result<RawImage, FilterError>) -> bool {
    let rb = res.spec_width() * res.spec_channels();
    let h = res.spec_height() as int;
    let stride = res.spec_channels() as int;
    &&& types.len() != h ==> r == Err::<RawImage, FilterError>(
        FilterError::RowCountMismatch { types: types.len() as usize, rows: res.spec_height() },
    )
    &&& types.len() == h ==> match r {
        Ok(img) => {
            &&& img.spec_width() == res.spec_width()
            &&& img.spec_height() == res.spec_height()
            &&& img.spec_channels() == res.spec_channels()
            &&& zigzag_splits_to(img.spec_data(), types, res.spec_data(), rb, stride, h)
        },
        Err(FilterError::UnknownFilterType { kind, row }) => {
            &&& row < h
            &&& types[row as int] == kind
            &&& kind > 4
            &&& forall|y: int| 0 <= y < row ==> #[trigger] types[y] <= 4
        },
        Err(_) => false,
    }
    &&& forall|src: Seq<u8>| #[trigger] zigzag_splits_to(src, types, res.spec_data(), rb, stride, h)
        ==> (r matches Ok(img) && img.spec_data() == src)
}

/// Each byte zigzagged.
fn zigzag_all(v: &[u8]) -> (r: Vec<u8>)
    ensures
        r@.len() == v@.len(),
        forall|j: int| 0 <= j < v@.len() ==> #[trigger] r@[j] == spec_zigzag(v@[j]),
{
    let mut r: Vec<u8> = Vec::new();
    let mut j: usize = 0;
    while j < v.len()
        invariant
            j <= v@.len(),
            r@.len() == j,
            forall|k: int| 0 <= k < j ==> #[trigger] r@[k] == spec_zigzag(v@[k]),
        decreases v@.len() - j,
    {
        r.push(zigzag(v[j]));
        j = j + 1;
    }
    r
}

/// Each byte unzigzagged.
fn unzigzag_all(v: &[u8]) -> (r: Vec<u8>)
    ensures
        r@ == Seq::new(v@.len(), |j: int| spec_unzigzag(v@[j])),
{
    let mut r: Vec<u8> = Vec::new();
    let mut j: usize = 0;
    while j < v.len()
        invariant
            j <= v@.len(),
            r@.len() == j,
            forall|k: int| 0 <= k < j ==> #[trigger] r@[k] == spec_unzigzag(v@[k]),
        decreases v@.len() - j,
    {
        r.push(unzigzag(v[j]));
        j = j + 1;
    }
    assert(r@ =~= Seq::new(v@.len(), |j: int| spec_unzigzag(v@[j])));
    r
}

/// [`split`], with the residuals zigzagged so a range-based coder can use them.
pub fn split_zigzag(img: &RawImage) -> (r: (Vec<u8>, RawImage))
    requires
        img.wf(),
        img.spec_data().len() <= u64::MAX / 256,
    ensures
        r.1.wf(),
        r.1.spec_width() == img.spec_width(),
        r.1.spec_height() == img.spec_height(),
        r.1.spec_channels() == img.spec_channels(),
        zigzag_splits_to(
            img.spec_data(),
            r.0@,
            r.1.spec_data(),
            img.spec_width() * img.spec_channels(),
            img.spec_channels() as int,
            img.spec_height() as int,
        ),
        forall|y: int|
            0 <= y < img.spec_height() ==> #[trigger] r.0@[y] == row_kind(
                img.spec_data(),
                img.spec_width() * img.spec_channels(),
                img.spec_channels() as int,
                y,
            ),
{
    let (types, residuals) = split(img);
    proof {
        residuals.lemma_wf();
    }
    let mapped = zigzag_all(residuals.data());
    let ghost plain = residuals.spec_data();
    let zz = RawImage::new(residuals.width(), residuals.height(), residuals.channels(), mapped).expect(
        "zigzag preserves geometry",
    );
    proof {
        assert(Seq::new(zz.spec_data().len(), |j: int| spec_unzigzag(zz.spec_data()[j])) =~= plain) by {
            assert forall|j: int| 0 <= j < plain.len() implies spec_unzigzag(zz.spec_data()[j])
                == plain[j] by {
                crate::predict::lemma_zigzag_bijection(plain[j], 0);
            }
        }
    }
    (types, zz)
}

/// Reverses [`split_zigzag`].
pub fn join_zigzag(types: &[u8], residuals: &RawImage) -> (r: Result<RawImage, FilterError>)
    requires
        residuals.wf(),
    ensures
        zigzag_join_outcome(types@, *residuals, r),
{
    proof {
        residuals.lemma_wf();
    }
    let mapped = unzigzag_all(residuals.data());
    let plain = match RawImage::new(residuals.width(), residuals.height(), residuals.channels(), mapped) {
        Ok(img) => img,
        Err(e) => {
            return Err(FilterError::Image(e));
        },
    };
    join(types, &plain)
}

/// Reversing the filter of what [`apply`] wrote gives back the image: `f` is an image's samples
/// filtered (the promise of [`apply`]), and `r` is what [`undo`] returns for `f` and the image's
/// geometry (the promise of [`undo`]).
pub proof fn lemma_filters_round_trip(img: RawImage, f: Seq<u8>, r: Result<RawImage, FilterError>)
    requires
        img.wf(),
        filters_to(
            img.spec_data(),
            f,
            img.spec_width() * img.spec_channels(),
            img.spec_channels() as int,
            img.spec_height() as int,
        ),
        unfilter_outcome(f, img.spec_width(), img.spec_height(), img.spec_channels(), r),
    ensures
        r matches Ok(out) && out.spec_width() == img.spec_width() && out.spec_height()
            == img.spec_height() && out.spec_channels() == img.spec_channels() && out.spec_data()
            == img.spec_data(),
{
    img.lemma_wf();
}

/// Joining what [`split`] produced gives back the image.
pub proof fn lemma_split_join_round_trip(
    img: RawImage,
    types: Seq<u8>,
    res: RawImage,
    r: Result<RawImage, FilterError>,
)
    requires
        img.wf(),
        res.spec_width() == img.spec_width(),
        res.spec_height() == img.spec_height(),
        res.spec_channels() == img.spec_channels(),
        splits_to(
            img.spec_data(),
            types,
            res.spec_data(),
            img.spec_width() * img.spec_channels(),
            img.spec_channels() as int,
            img.spec_height() as int,
        ),
        join_outcome(types, res, r),
    ensures
        r matches Ok(out) && out.spec_width() == img.spec_width() && out.spec_height()
            == img.spec_height() && out.spec_channels() == img.spec_channels() && out.spec_data()
            == img.spec_data(),
{
}

/// Joining what [`split_zigzag`] produced gives back the image.
pub proof fn lemma_split_zigzag_round_trip(
    img: RawImage,
    types: Seq<u8>,
    res: RawImage,
    r: Result<RawImage, FilterError>,
)
    requires
        img.wf(),
        res.spec_width() == img.spec_width(),
        res.spec_height() == img.spec_height(),
        res.spec_channels() == img.spec_channels(),
        zigzag_splits_to(
            img.spec_data(),
            types,
            res.spec_data(),
            img.spec_width() * img.spec_channels(),
            img.spec_channels() as int,
            img.spec_height() as int,
        ),
        zigzag_join_outcome(types, res, r),
    ensures
        r matches Ok(out) && out.spec_width() == img.spec_width() && out.spec_height()
            == img.spec_height() && out.spec_channels() == img.spec_channels() && out.spec_data()
            == img.spec_data(),
{
}


} // verus!
