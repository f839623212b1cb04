//! Encoder. Mirror of [`crate::decode`]: change both together.

use crate::alphabet::{self, bit_length_of, RemapChoice};
use crate::bitio::BitWriter;
use crate::block::{BlockGrid, BlockRect};
use crate::channels::{self, ChannelOptions, CodedIndices};
use crate::context::{ContextModel, Plane, CONTEXTS};
use crate::error::BrpError;
use crate::header::{
    same_header, Header, BIT_DEPTH, BLOCK_CODER_CONTEXT, BLOCK_CODER_FIXED, BLOCK_CODER_RICE,
    FILTER_MODE_NONE, HEADER_BASE_SIZE, WIDTH_CODE_BITS, ZERO_BLOCK_BITS,
};
use crate::file::{encodes, file_holds, header_grid, kind_bits, lemma_kind_bits_prefix, ranked_plane};
use crate::image::RawImage;
use crate::predict::{self, lemma_index, FilterLayout, FILTER_KIND_BITS};
use crate::rice;
use vstd::prelude::*;

verus! {

/// Which prediction the encoder applies before packing.
#[derive(Debug, Clone, Copy, PartialEq, Eq, Structural)]
pub enum FilterChoice {
    /// Never predict. Fastest, and best on images the block packer already handles well.
    Off,
    /// One predictor per row.
    Row,
    /// One predictor per 8x8 square.
    Block,
    /// Encode without prediction and with a per-row choice, and keep the smaller; when the rows
    /// won, also try the per-square choice and keep the smallest.
    Auto,
}

impl Default for FilterChoice {
    fn default() -> (r: Self)
        ensures
            r == FilterChoice::Auto,
    {
        FilterChoice::Auto
    }
}

/// How a block's residuals are written.
#[derive(Debug, Clone, Copy, PartialEq, Eq, Structural)]
pub enum CoderChoice {
    /// Every residual at the block's own fixed width. Fastest, and best on uniform data.
    Fixed,
    /// Golomb-Rice with a per-block parameter. Smaller on predicted residuals.
    Rice,
    /// The Rice codes with the parameter derived per sample from a context. Never chosen by
    /// [`CoderChoice::Auto`].
    Context,
    /// Cost fixed width and Rice over the same blocks and take the cheaper.
    Auto,
}

impl Default for CoderChoice {
    fn default() -> (r: Self)
        ensures
            r == CoderChoice::Auto,
    {
        CoderChoice::Auto
    }
}

#[derive(Debug, Clone, PartialEq, Eq)]
pub struct EncodeOptions {
    /// Block size in pixels. `None` means one block covering the whole image.
    pub block_size: Option<(u32, u32)>,
    /// Which whole-image channel reductions to apply.
    pub channels: ChannelOptions,
    /// Whether to predict before packing.
    pub filter: FilterChoice,
    /// How to write each block's residuals.
    pub coder: CoderChoice,
    /// Whether to compact channel alphabets.
    pub remap: RemapChoice,
}

impl Default for EncodeOptions {
    fn default() -> (o: Self)
        ensures
            o.block_size is None,
            o.channels.constants && o.channels.aliases,
            o.filter == FilterChoice::Auto,
            o.coder == CoderChoice::Auto,
            o.remap == RemapChoice::Gaps,
    {
        EncodeOptions {
            block_size: None,
            channels: ChannelOptions::default(),
            filter: FilterChoice::Auto,
            coder: CoderChoice::Auto,
            remap: RemapChoice::Gaps,
        }
    }
}

/// Bits needed to represent `v`. Zero for zero, so a constant block costs no payload.
pub fn bit_length(v: u8) -> (n: u8)
    ensures
        n == alphabet::bit_length(v as nat),
        n <= 8,
{
    bit_length_of(v) as u8
}

/// Where sample `c` of pixel `(x, y)` sits in an interleaved buffer.
pub open spec fn index_of(w: int, stride: int, x: int, y: int, c: int) -> int {
    (y * w + x) * stride + c
}

/// Byte offset of sample `channel` of pixel `(x, y)` in an interleaved buffer.
pub fn sample_index(img_w: u32, stride: usize, x: u32, y: u32, channel: usize) -> (i: usize)
    requires
        (y * img_w + x) * stride + channel <= usize::MAX,
    ensures
        i == index_of(img_w as int, stride as int, x as int, y as int, channel as int),
{
    proof {
        assert(y * img_w <= y * img_w + x);
        if stride > 0 {
            assert(y * img_w + x <= (y * img_w + x) * stride) by (nonlinear_arith)
                requires
                    stride > 0,
            ;
        } else {
            assert((y * img_w + x) * stride == 0);
        }
    }
    if stride == 0 {
        return channel;
    }
    (y as usize * img_w as usize + x as usize) * stride + channel
}

/// A rectangle that lies inside an image of `w` by `h` pixels.
pub open spec fn rect_inside(r: BlockRect, w: nat, h: nat) -> bool {
    r.x + r.w <= w && r.y + r.h <= h
}

/// Row `row` of channel `c` within block `r`, left to right.
pub open spec fn row_values(d: Seq<u8>, w: int, stride: int, r: BlockRect, c: int, row: int) -> Seq<
    u8,
> {
    Seq::new(r.w as nat, |col: int| d[index_of(w, stride, r.x + col, r.y + row, c)])
}

/// The first `rows` rows of channel `c` within block `r`, row after row.
pub open spec fn rows_values(
    d: Seq<u8>,
    w: int,
    stride: int,
    r: BlockRect,
    c: int,
    rows: nat,
) -> Seq<u8>
    decreases rows,
{
    if rows == 0 {
        Seq::empty()
    } else {
        rows_values(d, w, stride, r, c, (rows - 1) as nat) + row_values(
            d,
            w,
            stride,
            r,
            c,
            rows - 1,
        )
    }
}

/// Channel `c` of block `r`, in raster order within the block.
pub open spec fn block_values(d: Seq<u8>, w: int, stride: int, r: BlockRect, c: int) -> Seq<u8> {
    rows_values(d, w, stride, r, c, r.h as nat)
}

/// The least of `init` and every value of `s`.
pub open spec fn min_of(s: Seq<u8>, init: u8) -> u8
    decreases s.len(),
{
    if s.len() == 0 {
        init
    } else {
        let m = min_of(s.drop_last(), init);
        if s.last() < m {
            s.last()
        } else {
            m
        }
    }
}

/// The greatest of `init` and every value of `s`.
pub open spec fn max_of(s: Seq<u8>, init: u8) -> u8
    decreases s.len(),
{
    if s.len() == 0 {
        init
    } else {
        let m = max_of(s.drop_last(), init);
        if s.last() > m {
            s.last()
        } else {
            m
        }
    }
}

/// A block's base: its least value, or zero for an empty block.
pub open spec fn base_of(s: Seq<u8>) -> u8 {
    if s.len() == 0 {
        0
    } else {
        min_of(s, 255)
    }
}

/// Every value less `base`.
pub open spec fn rebase(s: Seq<u8>, base: u8) -> Seq<u8> {
    Seq::new(s.len(), |i: int| (s[i] - base) as u8)
}

pub proof fn lemma_min_of_le(s: Seq<u8>, init: u8)
    ensures
        forall|i: int| 0 <= i < s.len() ==> min_of(s, init) <= #[trigger] s[i],
        min_of(s, init) <= init,
    decreases s.len(),
{
    if s.len() > 0 {
        lemma_min_of_le(s.drop_last(), init);
        assert forall|i: int| 0 <= i < s.len() implies min_of(s, init) <= #[trigger] s[i] by {
            if i < s.len() - 1 {
                assert(s.drop_last()[i] == s[i]);
            }
        }
    }
}

pub proof fn lemma_max_of_ge(s: Seq<u8>, init: u8)
    ensures
        forall|i: int| 0 <= i < s.len() ==> max_of(s, init) >= #[trigger] s[i],
        max_of(s, init) >= init,
    decreases s.len(),
{
    if s.len() > 0 {
        lemma_max_of_ge(s.drop_last(), init);
        assert forall|i: int| 0 <= i < s.len() implies max_of(s, init) >= #[trigger] s[i] by {
            if i < s.len() - 1 {
                assert(s.drop_last()[i] == s[i]);
            }
        }
    }
}

/// Minimum and maximum of one channel within one block; `(255, 0)` for an empty block.
pub fn scan_block(data: &[u8], img_w: u32, stride: usize, rect: &BlockRect, channel: usize) -> (r: (
    u8,
    u8,
))
    requires
        channel < stride,
        rect.x + rect.w <= img_w,
        rect.y + rect.h <= u32::MAX,
        rect.h == 0 || index_of(
            img_w as int,
            stride as int,
            0,
            rect.y + rect.h,
            0,
        ) <= data@.len(),
    ensures
        ({
            let v = block_values(data@, img_w as int, stride as int, *rect, channel as int);
            r == (min_of(v, 255), max_of(v, 0))
        }),
{
    let ghost d = data@;
    let ghost w = img_w as int;
    let ghost s = stride as int;
    let ghost vals = block_values(d, w, s, *rect, channel as int);
    let mut min: u8 = 255;
    let mut max: u8 = 0;
    let mut out: Vec<u8> = Vec::new();
    collect_block(data, img_w, stride, rect, channel, &mut out);
    let mut i: usize = 0;
    while i < out.len()
        invariant
            out@ == vals,
            i <= out@.len(),
            min == min_of(vals.take(i as int), 255),
            max == max_of(vals.take(i as int), 0),
        decreases out@.len() - i,
    {
        let v = out[i];
        proof {
            assert(vals.take(i + 1).drop_last() =~= vals.take(i as int));
        }
        if v < min {
            min = v;
        }
        if v > max {
            max = v;
        }
        i = i + 1;
    }
    proof {
        assert(vals.take(i as int) =~= vals);
    }
    (min, max)
}

/// Channel `channel` of block `rect`, in raster order within the block, replacing `out`.
fn collect_block(
    data: &[u8],
    img_w: u32,
    stride: usize,
    rect: &BlockRect,
    channel: usize,
    out: &mut Vec<u8>,
)
    requires
        channel < stride,
        rect.x + rect.w <= img_w,
        rect.y + rect.h <= u32::MAX,
        rect.h == 0 || index_of(
            img_w as int,
            stride as int,
            0,
            rect.y + rect.h,
            0,
        ) <= data@.len(),
    ensures
        final(out)@ == block_values(data@, img_w as int, stride as int, *rect, channel as int),
{
    let ghost d = data@;
    let ghost w = img_w as int;
    let ghost s = stride as int;
    let ghost c = channel as int;
    let len = data.len();
    out.clear();
    let mut row: u32 = 0;
    while row < rect.h
        invariant
            channel < stride,
            rect.x + rect.w <= img_w,
            rect.y + rect.h <= u32::MAX,
            rect.h == 0 || index_of(w, s, 0, rect.y + rect.h, 0) <= d.len(),
            d.len() == len,
            d == data@,
            w == img_w,
            s == stride,
            c == channel,
            row <= rect.h,
            out@ == rows_values(d, w, s, *rect, c, row as nat),
        decreases rect.h - row,
    {
        let ghost before = out@;
        let mut col: u32 = 0;
        while col < rect.w
            invariant
                channel < stride,
                rect.x + rect.w <= img_w,
                rect.y + rect.h <= u32::MAX,
                index_of(w, s, 0, rect.y + rect.h, 0) <= d.len(),
                d.len() == len,
                d == data@,
                w == img_w,
                s == stride,
                c == channel,
                row < rect.h,
                col <= rect.w,
                out@ == before + row_values(d, w, s, *rect, c, row as int).take(col as int),
            decreases rect.w - col,
        {
            proof {
                lemma_index(w, (rect.y + rect.h) as int, s, (rect.x + col) as int, (rect.y + row) as int, c);
                assert(index_of(w, s, (rect.x + col) as int, (rect.y + row) as int, c) < d.len()) by {
                    assert(w * (rect.y + rect.h) * s == index_of(w, s, 0, rect.y + rect.h, 0)) by (nonlinear_arith);
                }
            }
            let i = sample_index(img_w, stride, rect.x + col, rect.y + row, channel);
            out.push(data[i]);
            proof {
                assert(out@ =~= before + row_values(d, w, s, *rect, c, row as int).take(col + 1));
            }
            col = col + 1;
        }
        proof {
            assert(row_values(d, w, s, *rect, c, row as int).take(rect.w as int) =~= row_values(
                d,
                w,
                s,
                *rect,
                c,
                row as int,
            ));
        }
        row = row + 1;
    }
}

/// Collects one channel of one block, rebased on the block minimum, and returns that minimum.
fn gather_block(
    data: &[u8],
    img_w: u32,
    stride: usize,
    rect: &BlockRect,
    channel: usize,
    out: &mut Vec<u8>,
) -> (base: u8)
    requires
        channel < stride,
        rect.x + rect.w <= img_w,
        rect.y + rect.h <= u32::MAX,
        rect.h == 0 || index_of(
            img_w as int,
            stride as int,
            0,
            rect.y + rect.h,
            0,
        ) <= data@.len(),
    ensures
        ({
            let v = block_values(data@, img_w as int, stride as int, *rect, channel as int);
            &&& base == base_of(v)
            &&& final(out)@ == rebase(v, base)
        }),
{
    let ghost vals = block_values(data@, img_w as int, stride as int, *rect, channel as int);
    collect_block(data, img_w, stride, rect, channel, out);
    let mut base: u8 = 255;
    let mut i: usize = 0;
    while i < out.len()
        invariant
            out@ == vals,
            i <= out@.len(),
            base == min_of(vals.take(i as int), 255),
        decreases out@.len() - i,
    {
        proof {
            assert(vals.take(i + 1).drop_last() =~= vals.take(i as int));
        }
        if out[i] < base {
            base = out[i];
        }
        i = i + 1;
    }
    proof {
        assert(vals.take(i as int) =~= vals);
        lemma_min_of_le(vals, 255);
    }
    if out.len() == 0 {
        base = 0;
    }
    let mut j: usize = 0;
    while j < out.len()
        invariant
            out@.len() == vals.len(),
            j <= out@.len(),
            base == base_of(vals),
            forall|k: int| 0 <= k < vals.len() ==> base <= #[trigger] vals[k],
            forall|k: int| 0 <= k < j ==> #[trigger] out@[k] == (vals[k] - base) as u8,
            forall|k: int| j <= k < vals.len() ==> #[trigger] out@[k] == vals[k],
        decreases out@.len() - j,
    {
        let v = out[j] - base;
        out.set(j, v);
        j = j + 1;
    }
    proof {
        assert(out@ =~= rebase(vals, base));
    }
    base
}

/// Payload bits the fixed-width coder spends on a rebased block.
pub open spec fn fixed_cost(values: Seq<u8>) -> nat {
    values.len() * alphabet::bit_length(max_of(values, 0) as nat)
}

/// The fixed-width coder's parameter for a rebased block: the bits of its largest value.
pub open spec fn fixed_param(values: Seq<u8>) -> nat {
    alphabet::bit_length(max_of(values, 0) as nat)
}

/// The largest of a block's values, zero for an empty block.
fn block_max(values: &Vec<u8>) -> (m: u8)
    ensures
        m == max_of(values@, 0),
{
    let mut m: u8 = 0;
    let mut i: usize = 0;
    while i < values.len()
        invariant
            i <= values@.len(),
            m == max_of(values@.take(i as int), 0),
        decreases values@.len() - i,
    {
        proof {
            assert(values@.take(i + 1).drop_last() =~= values@.take(i as int));
        }
        if values[i] > m {
            m = values[i];
        }
        i = i + 1;
    }
    proof {
        assert(values@.take(i as int) =~= values@);
    }
    m
}

/// Payload bits the fixed-width coder spends on a rebased block.
fn fixed_block_cost(values: &Vec<u8>) -> (c: u64)
    requires
        values@.len() <= u64::MAX / 8,
    ensures
        c == fixed_cost(values@),
        c <= 8 * values@.len(),
{
    let width = bit_length(block_max(values)) as u64;
    proof {
        assert(values@.len() * width <= values@.len() * 8) by (nonlinear_arith)
            requires
                width <= 8,
        ;
    }
    values.len() as u64 * width
}

/// Whether every residual of one channel in one block is zero.
fn block_is_zero(data: &[u8], plane: &Plane, rect: &BlockRect, channel: usize) -> (z: bool)
    requires
        channel < plane.stride,
        rect.x + rect.w <= plane.width,
        rect.y + rect.h <= u32::MAX,
        rect.h == 0 || index_of(
            plane.width as int,
            plane.stride as int,
            0,
            rect.y + rect.h,
            0,
        ) <= data@.len(),
    ensures
        z == rice::all_zero(
            block_values(data@, plane.width as int, plane.stride as int, *rect, channel as int),
        ),
{
    let ghost vals = block_values(
        data@,
        plane.width as int,
        plane.stride as int,
        *rect,
        channel as int,
    );
    let mut out: Vec<u8> = Vec::new();
    collect_block(data, plane.width, plane.stride, rect, channel, &mut out);
    let mut i: usize = 0;
    while i < out.len()
        invariant
            out@ == vals,
            vals == block_values(
                data@,
                plane.width as int,
                plane.stride as int,
                *rect,
                channel as int,
            ),
            i <= out@.len(),
            forall|k: int| 0 <= k < i ==> vals[k] == 0,
        decreases out@.len() - i,
    {
        if out[i] != 0 {
            assert(vals[i as int] != 0);
            assert(!rice::all_zero(vals));
            return false;
        }
        i = i + 1;
    }
    true
}

// ---------------------------------------------------------------------------------------------
// The parametered block stream
// ---------------------------------------------------------------------------------------------

/// Channel `slots[s]` of block `r`, as samples of the plane.
pub open spec fn slot_samples(d: Seq<u8>, w: int, stride: int, slots: Seq<usize>, r: BlockRect, s: int) -> Seq<u8> {
    block_values(d, w, stride, r, slots[s] as int)
}

/// The base a block-channel is written with.
pub open spec fn slot_base(d: Seq<u8>, w: int, stride: int, slots: Seq<usize>, r: BlockRect, s: int) -> u8 {
    base_of(slot_samples(d, w, stride, slots, r, s))
}

/// A block-channel less its base.
pub open spec fn slot_residuals(d: Seq<u8>, w: int, stride: int, slots: Seq<usize>, r: BlockRect, s: int) -> Seq<u8> {
    rebase(slot_samples(d, w, stride, slots, r, s), slot_base(d, w, stride, slots, r, s))
}

/// The four-bit field a coder writes for a rebased block: a bit width, or a Rice mode.
pub open spec fn block_param(coder: u8, values: Seq<u8>) -> nat {
    if coder == BLOCK_CODER_RICE {
        rice::spec_mode(values)
    } else {
        fixed_param(values)
    }
}

/// The code of one rebased value under a coder and its parameter.
pub open spec fn value_bits(coder: u8, v: u8, param: nat) -> Seq<bool> {
    if coder == BLOCK_CODER_RICE {
        if param == 0 {
            Seq::empty()
        } else {
            rice::rice_bits(v as nat, (param - 1) as nat)
        }
    } else {
        crate::bits::bits_of(v as nat, param)
    }
}

/// The payload of a rebased block: each value's code, in order.
pub open spec fn payload_bits(coder: u8, values: Seq<u8>, param: nat) -> Seq<bool>
    decreases values.len(),
{
    if values.len() == 0 {
        Seq::empty()
    } else {
        payload_bits(coder, values.drop_last(), param) + value_bits(coder, values.last(), param)
    }
}

/// The channel headers of block `r`'s first `n` coded channels: base, then parameter.
pub open spec fn heads_bits(
    d: Seq<u8>,
    w: int,
    stride: int,
    slots: Seq<usize>,
    r: BlockRect,
    coder: u8,
    n: nat,
) -> Seq<bool>
    decreases n,
{
    if n == 0 {
        Seq::empty()
    } else {
        let s = n - 1;
        heads_bits(d, w, stride, slots, r, coder, (n - 1) as nat) + crate::bits::bits_of(
            slot_base(d, w, stride, slots, r, s) as nat,
            8,
        ) + crate::bits::bits_of(
            block_param(coder, slot_residuals(d, w, stride, slots, r, s)),
            4,
        )
    }
}

/// The payloads of block `r`'s first `n` coded channels.
pub open spec fn payloads_bits(
    d: Seq<u8>,
    w: int,
    stride: int,
    slots: Seq<usize>,
    r: BlockRect,
    coder: u8,
    n: nat,
) -> Seq<bool>
    decreases n,
{
    if n == 0 {
        Seq::empty()
    } else {
        let res = slot_residuals(d, w, stride, slots, r, n - 1);
        payloads_bits(d, w, stride, slots, r, coder, (n - 1) as nat) + payload_bits(
            coder,
            res,
            block_param(coder, res),
        )
    }
}

/// One block of the stream: every channel header, then every payload.
pub open spec fn block_bits(d: Seq<u8>, w: int, stride: int, slots: Seq<usize>, r: BlockRect, coder: u8) -> Seq<bool> {
    heads_bits(d, w, stride, slots, r, coder, slots.len()) + payloads_bits(
        d,
        w,
        stride,
        slots,
        r,
        coder,
        slots.len(),
    )
}

/// The first `bx` blocks of block row `by`.
pub open spec fn row_bits(
    grid: BlockGrid,
    d: Seq<u8>,
    stride: int,
    slots: Seq<usize>,
    coder: u8,
    by: nat,
    bx: nat,
) -> Seq<bool>
    decreases bx,
{
    if bx == 0 {
        Seq::empty()
    } else {
        row_bits(grid, d, stride, slots, coder, by, (bx - 1) as nat) + block_bits(
            d,
            grid.spec_width() as int,
            stride,
            slots,
            grid.spec_rect((bx - 1) as nat, by),
            coder,
        )
    }
}

/// The first `by` block rows, each block in raster order.
pub open spec fn grid_bits(grid: BlockGrid, d: Seq<u8>, stride: int, slots: Seq<usize>, coder: u8, by: nat) -> Seq<bool>
    decreases by,
{
    if by == 0 {
        Seq::empty()
    } else {
        grid_bits(grid, d, stride, slots, coder, (by - 1) as nat) + row_bits(
            grid,
            d,
            stride,
            slots,
            coder,
            (by - 1) as nat,
            grid.spec_blocks_x(),
        )
    }
}

/// What every block of the stream can assume of the plane and the grid.
pub open spec fn plane_ok(d: Seq<u8>, grid: BlockGrid, stride: nat, slots: Seq<usize>) -> bool {
    &&& grid.wf()
    &&& stride > 0
    &&& d.len() == grid.spec_width() * grid.spec_height() * stride
    &&& d.len() <= u64::MAX / 64
    &&& forall|s: int| 0 <= s < slots.len() ==> slots[s] < stride
    &&& slots.len() <= 4
}

/// A block of the grid lies inside the image and is no larger than it.
pub proof fn lemma_rect_fits(grid: BlockGrid, d: Seq<u8>, stride: nat, bx: nat, by: nat)
    requires
        grid.wf(),
        stride > 0,
        d.len() == grid.spec_width() * grid.spec_height() * stride,
        bx < grid.spec_blocks_x(),
        by < grid.spec_blocks_y(),
    ensures
        ({
            let r = grid.spec_rect(bx, by);
            &&& r.x + r.w <= grid.spec_width()
            &&& r.y + r.h <= grid.spec_height()
            &&& index_of(grid.spec_width() as int, stride as int, 0, r.y + r.h, 0) <= d.len()
            &&& r.w * r.h <= d.len()
        }),
{
    let r = grid.spec_rect(bx, by);
    let w = grid.spec_width() as int;
    let h = grid.spec_height() as int;
    crate::block::lemma_block_origin(bx, grid.spec_block_w() as nat, w as nat);
    crate::block::lemma_block_origin(by, grid.spec_block_h() as nat, h as nat);
    assert(r.x == bx * grid.spec_block_w());
    assert(r.y == by * grid.spec_block_h());
    assert(r.x + r.w <= w);
    assert(r.y + r.h <= h);
    assert(index_of(w, stride as int, 0, r.y + r.h, 0) <= d.len()) by (nonlinear_arith)
        requires
            r.y + r.h <= h,
            d.len() == w * h * stride,
            w >= 0,
            stride > 0,
    ;
    assert(r.w * r.h <= d.len()) by (nonlinear_arith)
        requires
            r.x + r.w <= w,
            r.y + r.h <= h,
            d.len() == w * h * stride,
            stride > 0,
    ;
}

/// Writes every block under the fixed-width or per-block Rice coder.
fn write_parametered_blocks(
    writer: &mut BitWriter,
    data: &[u8],
    stride: usize,
    coded: &CodedIndices,
    grid: &BlockGrid,
    coder: u8,
) -> (r: Result<(), BrpError>)
    requires
        old(writer).wf(),
        coded.wf(),
        plane_ok(data@, *grid, stride as nat, coded.spec_slots()),
        coder == BLOCK_CODER_FIXED || coder == BLOCK_CODER_RICE,
    ensures
        r is Ok,
        final(writer).wf(),
        final(writer)@ == old(writer)@ + grid_bits(
            *grid,
            data@,
            stride as int,
            coded.spec_slots(),
            coder,
            grid.spec_blocks_y(),
        ),
{
    let ghost slots = coded.spec_slots();
    let ghost d = data@;
    let ghost start = writer@;
    let ghost w = grid.spec_width() as int;
    let img_w = grid.width();
    let n = coded.len();
    let nx = grid.blocks_x();
    let ny = grid.blocks_y();
    let mut by: u32 = 0;
    while by < ny
        invariant
            writer.wf(),
            coded.wf(),
            plane_ok(d, *grid, stride as nat, slots),
            d == data@,
            slots == coded.spec_slots(),
            w == grid.spec_width(),
            img_w == grid.spec_width(),
            n == slots.len(),
            nx == grid.spec_blocks_x(),
            ny == grid.spec_blocks_y(),
            coder == BLOCK_CODER_FIXED || coder == BLOCK_CODER_RICE,
            by <= ny,
            writer@ == start + grid_bits(*grid, d, stride as int, slots, coder, by as nat),
        decreases ny - by,
    {
        let ghost row_start = writer@;
        let mut bx: u32 = 0;
        while bx < nx
            invariant
                writer.wf(),
                coded.wf(),
                plane_ok(d, *grid, stride as nat, slots),
                d == data@,
                slots == coded.spec_slots(),
                w == grid.spec_width(),
                img_w == grid.spec_width(),
                n == slots.len(),
                nx == grid.spec_blocks_x(),
                ny == grid.spec_blocks_y(),
                coder == BLOCK_CODER_FIXED || coder == BLOCK_CODER_RICE,
                by < ny,
                bx <= nx,
                writer@ == row_start + row_bits(*grid, d, stride as int, slots, coder, by as nat, bx as nat),
            decreases nx - bx,
        {
            let rect = grid.rect(bx, by);
            proof {
                lemma_rect_fits(*grid, d, stride as nat, bx as nat, by as nat);
            }
            write_block(writer, data, img_w, stride, coded, &rect, coder);
            proof {
                assert(writer@ =~= row_start + row_bits(
                    *grid,
                    d,
                    stride as int,
                    slots,
                    coder,
                    by as nat,
                    (bx + 1) as nat,
                ));
            }
            bx = bx + 1;
        }
        proof {
            assert(writer@ =~= start + grid_bits(*grid, d, stride as int, slots, coder, (by + 1) as nat));
        }
        by = by + 1;
    }
    Ok(())
}

/// Writes one block: every coded channel's base and parameter, then every payload.
fn write_block(
    writer: &mut BitWriter,
    data: &[u8],
    img_w: u32,
    stride: usize,
    coded: &CodedIndices,
    rect: &BlockRect,
    coder: u8,
)
    requires
        old(writer).wf(),
        coded.wf(),
        coded.spec_slots().len() <= 4,
        forall|s: int| 0 <= s < coded.spec_slots().len() ==> coded.spec_slots()[s] < stride,
        rect.x + rect.w <= img_w,
        rect.y + rect.h <= u32::MAX,
        rect.h == 0 || index_of(img_w as int, stride as int, 0, rect.y + rect.h, 0) <= data@.len(),
        rect.w * rect.h <= u64::MAX / 64,
        coder == BLOCK_CODER_FIXED || coder == BLOCK_CODER_RICE,
    ensures
        final(writer).wf(),
        final(writer)@ == old(writer)@ + block_bits(
            data@,
            img_w as int,
            stride as int,
            coded.spec_slots(),
            *rect,
            coder,
        ),
{
    let ghost slots = coded.spec_slots();
    let ghost d = data@;
    let ghost w = img_w as int;
    let ghost st = stride as int;
    let n = coded.len();
    let mut bases: Vec<u8> = Vec::new();
    let mut params: Vec<u32> = Vec::new();
    let mut values: Vec<Vec<u8>> = Vec::new();
    let mut slot: usize = 0;
    while slot < n
        invariant
            coded.wf(),
            slots == coded.spec_slots(),
            d == data@,
            w == img_w,
            st == stride,
            n == slots.len(),
            n <= 4,
            forall|s: int| 0 <= s < slots.len() ==> slots[s] < stride,
            rect.x + rect.w <= img_w,
            rect.y + rect.h <= u32::MAX,
            rect.h == 0 || index_of(w, st, 0, rect.y + rect.h, 0) <= d.len(),
            rect.w * rect.h <= u64::MAX / 64,
            coder == BLOCK_CODER_FIXED || coder == BLOCK_CODER_RICE,
            slot <= n,
            bases@.len() == slot,
            params@.len() == slot,
            values@.len() == slot,
            forall|s: int| 0 <= s < slot ==> #[trigger] bases@[s] == slot_base(d, w, st, slots, *rect, s),
            forall|s: int| 0 <= s < slot ==> #[trigger] values@[s]@ == slot_residuals(d, w, st, slots, *rect, s),
            forall|s: int|
                0 <= s < slot ==> #[trigger] params@[s] == block_param(coder, slot_residuals(d, w, st, slots, *rect, s)),
            forall|s: int| 0 <= s < slot ==> #[trigger] params@[s] <= 9,
            forall|s: int| 0 <= s < slot ==> (coder == BLOCK_CODER_FIXED ==> #[trigger] params@[s] <= 8),
        decreases n - slot,
    {
        let c = coded.channel(slot);
        let mut vals: Vec<u8> = Vec::new();
        let base = gather_block(data, img_w, stride, rect, c, &mut vals);
        proof {
            crate::block::lemma_block_values_len(d, w, st, *rect, c as int);
        }
        let param: u32 = if coder == BLOCK_CODER_RICE {
            rice::choose_mode(vals.as_slice()).0
        } else {
            bit_length(block_max(&vals)) as u32
        };
        bases.push(base);
        params.push(param);
        values.push(vals);
        slot = slot + 1;
    }
    let ghost head_start = writer@;
    let mut s: usize = 0;
    while s < n
        invariant
            writer.wf(),
            slots == coded.spec_slots(),
            d == data@,
            w == img_w,
            st == stride,
            n == slots.len(),
            s <= n,
            bases@.len() == n,
            params@.len() == n,
            forall|k: int| 0 <= k < n ==> #[trigger] bases@[k] == slot_base(d, w, st, slots, *rect, k),
            forall|k: int|
                0 <= k < n ==> #[trigger] params@[k] == block_param(coder, slot_residuals(d, w, st, slots, *rect, k)),
            writer@ == head_start + heads_bits(d, w, st, slots, *rect, coder, s as nat),
        decreases n - s,
    {
        writer.write(bases[s] as u32, 8);
        writer.write(params[s], WIDTH_CODE_BITS);
        proof {
            assert(writer@ =~= head_start + heads_bits(d, w, st, slots, *rect, coder, (s + 1) as nat));
        }
        s = s + 1;
    }
    let ghost pay_start = writer@;
    let mut s: usize = 0;
    while s < n
        invariant
            writer.wf(),
            slots == coded.spec_slots(),
            d == data@,
            w == img_w,
            st == stride,
            n == slots.len(),
            s <= n,
            params@.len() == n,
            values@.len() == n,
            coder == BLOCK_CODER_FIXED || coder == BLOCK_CODER_RICE,
            forall|k: int| 0 <= k < n ==> #[trigger] values@[k]@ == slot_residuals(d, w, st, slots, *rect, k),
            forall|k: int|
                0 <= k < n ==> #[trigger] params@[k] == block_param(coder, slot_residuals(d, w, st, slots, *rect, k)),
            forall|k: int| 0 <= k < n ==> #[trigger] params@[k] <= 9,
            forall|k: int| 0 <= k < n ==> (coder == BLOCK_CODER_FIXED ==> #[trigger] params@[k] <= 8),
            writer@ == pay_start + payloads_bits(d, w, st, slots, *rect, coder, s as nat),
        decreases n - s,
    {
        let param = params[s];
        let vals = &values[s];
        let ghost seg_start = writer@;
        let mut i: usize = 0;
        while i < vals.len()
            invariant
                writer.wf(),
                param <= 9,
                coder == BLOCK_CODER_FIXED || coder == BLOCK_CODER_RICE,
                coder == BLOCK_CODER_FIXED ==> param <= 8,
                i <= vals@.len(),
                writer@ == seg_start + payload_bits(coder, vals@.take(i as int), param as nat),
            decreases vals@.len() - i,
        {
            let v = vals[i];
            if coder == BLOCK_CODER_RICE {
                if param != 0 {
                    rice::write(writer, v as u32, param - 1);
                }
            } else {
                writer.write(v as u32, param);
            }
            proof {
                assert(vals@.take(i + 1).drop_last() =~= vals@.take(i as int));
                if coder == BLOCK_CODER_RICE && param == 0 {
                    assert(value_bits(coder, v, param as nat) =~= Seq::<bool>::empty());
                }
                assert(writer@ =~= seg_start + payload_bits(coder, vals@.take(i + 1), param as nat));
            }
            i = i + 1;
        }
        proof {
            assert(vals@.take(i as int) =~= vals@);
            assert(writer@ =~= pay_start + payloads_bits(d, w, st, slots, *rect, coder, (s + 1) as nat));
        }
        s = s + 1;
    }
    proof {
        assert(writer@ =~= old(writer)@ + block_bits(d, w, st, slots, *rect, coder));
    }
}

// ---------------------------------------------------------------------------------------------
// Choosing between the fixed-width and Rice coders
// ---------------------------------------------------------------------------------------------

/// The fixed-width and Rice payload costs of block `r`'s first `n` coded channels.
pub open spec fn slot_costs(d: Seq<u8>, w: int, stride: int, slots: Seq<usize>, r: BlockRect, n: nat) -> (nat, nat)
    decreases n,
{
    if n == 0 {
        (0, 0)
    } else {
        let p = slot_costs(d, w, stride, slots, r, (n - 1) as nat);
        let res = slot_residuals(d, w, stride, slots, r, n - 1);
        (p.0 + fixed_cost(res), p.1 + rice::mode_cost(res))
    }
}

/// The costs of the first `bx` blocks of block row `by`.
pub open spec fn row_costs(grid: BlockGrid, d: Seq<u8>, stride: int, slots: Seq<usize>, by: nat, bx: nat) -> (nat, nat)
    decreases bx,
{
    if bx == 0 {
        (0, 0)
    } else {
        let p = row_costs(grid, d, stride, slots, by, (bx - 1) as nat);
        let c = slot_costs(
            d,
            grid.spec_width() as int,
            stride,
            slots,
            grid.spec_rect((bx - 1) as nat, by),
            slots.len(),
        );
        (p.0 + c.0, p.1 + c.1)
    }
}

/// The costs of the first `by` block rows.
pub open spec fn grid_costs(grid: BlockGrid, d: Seq<u8>, stride: int, slots: Seq<usize>, by: nat) -> (nat, nat)
    decreases by,
{
    if by == 0 {
        (0, 0)
    } else {
        let p = grid_costs(grid, d, stride, slots, (by - 1) as nat);
        let c = row_costs(grid, d, stride, slots, (by - 1) as nat, grid.spec_blocks_x());
        (p.0 + c.0, p.1 + c.1)
    }
}

/// The coder [`CoderChoice::Auto`] settles on: Rice when its payload costs strictly less.
pub open spec fn cheaper(grid: BlockGrid, d: Seq<u8>, stride: int, slots: Seq<usize>) -> u8 {
    let c = grid_costs(grid, d, stride, slots, grid.spec_blocks_y());
    if c.1 < c.0 {
        BLOCK_CODER_RICE
    } else {
        BLOCK_CODER_FIXED
    }
}

pub open spec fn min_int(a: int, b: int) -> int {
    if a <= b {
        a
    } else {
        b
    }
}

/// Costs both coders over every block and returns whichever spends fewer bits.
fn cheaper_coder(data: &[u8], stride: usize, coded: &CodedIndices, grid: &BlockGrid) -> (c: u8)
    requires
        coded.wf(),
        plane_ok(data@, *grid, stride as nat, coded.spec_slots()),
    ensures
        c == cheaper(*grid, data@, stride as int, coded.spec_slots()),
{
    let ghost slots = coded.spec_slots();
    let ghost d = data@;
    let ghost gw = grid.spec_width() as int;
    let ghost gh = grid.spec_height() as int;
    let ghost bw = grid.spec_block_w() as int;
    let ghost bh = grid.spec_block_h() as int;
    let img_w = grid.width();
    let n = coded.len();
    let nx = grid.blocks_x();
    let ny = grid.blocks_y();
    let mut fixed: u64 = 0;
    let mut rice_bits: u64 = 0;
    let ghost mut done_px: int = 0;
    proof {
        grid.lemma_wf();
        crate::block::lemma_ceil_div(gw as nat, bw as nat);
        crate::block::lemma_ceil_div(gh as nat, bh as nat);
        assert(gw * gh <= d.len()) by (nonlinear_arith)
            requires
                d.len() == gw * gh * stride,
                stride > 0,
                gw >= 0,
                gh >= 0,
        ;
        assert(min_int(0 * bh, gh) * gw == 0) by (nonlinear_arith)
            requires
                gh >= 0,
                bh >= 0,
        ;
    }
    let mut by: u32 = 0;
    while by < ny
        invariant
            coded.wf(),
            plane_ok(d, *grid, stride as nat, slots),
            d == data@,
            slots == coded.spec_slots(),
            gw == grid.spec_width(),
            gh == grid.spec_height(),
            bw == grid.spec_block_w(),
            bh == grid.spec_block_h(),
            img_w == gw,
            n == slots.len(),
            nx == grid.spec_blocks_x(),
            ny == grid.spec_blocks_y(),
            nx * bw >= gw,
            ny * bh >= gh,
            gw * gh <= d.len(),
            by <= ny,
            done_px == min_int(by * bh, gh) * gw,
            fixed == grid_costs(*grid, d, stride as int, slots, by as nat).0,
            rice_bits == grid_costs(*grid, d, stride as int, slots, by as nat).1,
            fixed <= 64 * done_px,
            rice_bits <= 64 * done_px,
        decreases ny - by,
    {
        let ghost h_row = min_int(bh, gh - by * bh);
        let ghost mut row_px: int = 0;
        let ghost fixed0 = fixed;
        let ghost rice0 = rice_bits;
        proof {
            grid.lemma_wf();
            crate::block::lemma_block_origin(by as nat, bh as nat, gh as nat);
            assert(h_row * min_int(0 * bw, gw) == 0) by (nonlinear_arith)
                requires
                    gw >= 0,
                    bw >= 0,
            ;
        }
        let mut bx: u32 = 0;
        while bx < nx
            invariant
                coded.wf(),
                plane_ok(d, *grid, stride as nat, slots),
                d == data@,
                slots == coded.spec_slots(),
                gw == grid.spec_width(),
                gh == grid.spec_height(),
                bw == grid.spec_block_w(),
                bh == grid.spec_block_h(),
                img_w == gw,
                n == slots.len(),
                nx == grid.spec_blocks_x(),
                ny == grid.spec_blocks_y(),
                nx * bw >= gw,
                gw * gh <= d.len(),
                by < ny,
                by * bh < gh,
                h_row == min_int(bh, gh - by * bh),
                0 < h_row,
                bx <= nx,
                done_px == min_int(by * bh, gh) * gw,
                row_px == h_row * min_int(bx * bw, gw),
                fixed0 == grid_costs(*grid, d, stride as int, slots, by as nat).0,
                rice0 == grid_costs(*grid, d, stride as int, slots, by as nat).1,
                fixed == fixed0 + row_costs(*grid, d, stride as int, slots, by as nat, bx as nat).0,
                rice_bits == rice0 + row_costs(*grid, d, stride as int, slots, by as nat, bx as nat).1,
                fixed <= 64 * (done_px + row_px),
                rice_bits <= 64 * (done_px + row_px),
            decreases nx - bx,
        {
            let rect = grid.rect(bx, by);
            proof {
                grid.lemma_wf();
                lemma_rect_fits(*grid, d, stride as nat, bx as nat, by as nat);
                crate::block::lemma_block_origin(bx as nat, bw as nat, gw as nat);
                assert((bx + 1) * bw == bx * bw + bw) by (nonlinear_arith);
                assert(rect.x == bx * bw);
                assert(rect.w == min_int(bw, gw - bx * bw));
                assert(rect.h == h_row);
                assert(min_int((bx + 1) * bw, gw) == min_int(bx * bw, gw) + rect.w);
                assert(h_row * min_int((bx + 1) * bw, gw) == h_row * min_int(bx * bw, gw) + rect.h
                    * rect.w) by (nonlinear_arith)
                    requires
                        min_int((bx + 1) * bw, gw) == min_int(bx * bw, gw) + rect.w,
                        rect.h == h_row,
                ;
                assert(rect.w * rect.h == rect.h * rect.w) by (nonlinear_arith);
                assert(h_row * min_int((bx + 1) * bw, gw) <= h_row * gw) by (nonlinear_arith)
                    requires
                        min_int((bx + 1) * bw, gw) <= gw,
                        h_row > 0,
                ;
                assert(min_int(by * bh, gh) + h_row <= gh);
                assert(done_px + h_row * gw <= gh * gw) by (nonlinear_arith)
                    requires
                        done_px == min_int(by * bh, gh) * gw,
                        min_int(by * bh, gh) + h_row <= gh,
                        gw >= 0,
                ;
                assert(gw * gh == gh * gw) by (nonlinear_arith);
            }
            let ghost bf = fixed;
            let ghost br = rice_bits;
            let mut slot: usize = 0;
            while slot < n
                invariant
                    coded.wf(),
                    plane_ok(d, *grid, stride as nat, slots),
                    d == data@,
                    slots == coded.spec_slots(),
                    img_w == gw,
                    gw == grid.spec_width(),
                    n == slots.len(),
                    rect.x + rect.w <= img_w,
                    rect.y + rect.h <= u32::MAX,
                    rect.h == 0 || index_of(gw, stride as int, 0, rect.y + rect.h, 0) <= d.len(),
                    rect.w * rect.h <= d.len(),
                    slot <= n,
                    fixed == bf + slot_costs(d, gw, stride as int, slots, rect, slot as nat).0,
                    rice_bits == br + slot_costs(d, gw, stride as int, slots, rect, slot as nat).1,
                    slot_costs(d, gw, stride as int, slots, rect, slot as nat).0 <= 8 * slot * (rect.w * rect.h),
                    slot_costs(d, gw, stride as int, slots, rect, slot as nat).1 <= 16 * slot * (rect.w * rect.h),
                    bf + 64 * (rect.w * rect.h) <= u64::MAX,
                    br + 64 * (rect.w * rect.h) <= u64::MAX,
                decreases n - slot,
            {
                let c = coded.channel(slot);
                let mut vals: Vec<u8> = Vec::new();
                let _base = gather_block(data, img_w, stride, &rect, c, &mut vals);
                proof {
                    crate::block::lemma_block_values_len(d, gw, stride as int, rect, c as int);
                }
                let f = fixed_block_cost(&vals);
                let m = rice::choose_mode(vals.as_slice());
                let r = m.1;
                proof {
                    if !rice::all_zero(vals@) {
                        rice::lemma_best_k_unique(vals@, (m.0 - 1) as nat);
                        rice::lemma_cost_sum_bound(vals@, rice::best_k(vals@));
                    }
                }
                proof {
                    assert(8 * slot * (rect.w * rect.h) + 8 * (rect.w * rect.h) == 8 * (slot + 1) * (
                    rect.w * rect.h)) by (nonlinear_arith);
                    assert(16 * slot * (rect.w * rect.h) + 16 * (rect.w * rect.h) == 16 * (slot + 1)
                        * (rect.w * rect.h)) by (nonlinear_arith);
                    assert(16 * (slot + 1) * (rect.w * rect.h) <= 64 * (rect.w * rect.h)) by (nonlinear_arith)
                        requires
                            slot + 1 <= 4,
                    ;
                    assert(8 * (slot + 1) * (rect.w * rect.h) <= 64 * (rect.w * rect.h)) by (nonlinear_arith)
                        requires
                            slot + 1 <= 4,
                    ;
                    assert(vals@.len() == rect.w * rect.h);
                }
                fixed = fixed + f;
                rice_bits = rice_bits + r;
                slot = slot + 1;
            }
            proof {
                assert(8 * n * (rect.w * rect.h) <= 64 * (rect.w * rect.h)) by (nonlinear_arith)
                    requires
                        n <= 4,
                ;
                assert(16 * n * (rect.w * rect.h) <= 64 * (rect.w * rect.h)) by (nonlinear_arith)
                    requires
                        n <= 4,
                ;
                row_px = h_row * min_int((bx + 1) * bw, gw);
            }
            bx = bx + 1;
        }
        proof {
            assert(min_int(nx * bw, gw) == gw);
            assert((by + 1) * bh == by * bh + bh) by (nonlinear_arith);
            assert(min_int((by + 1) * bh, gh) == min_int(by * bh, gh) + h_row);
            assert(done_px + row_px == min_int((by + 1) * bh, gh) * gw) by (nonlinear_arith)
                requires
                    done_px == min_int(by * bh, gh) * gw,
                    row_px == h_row * gw,
                    min_int((by + 1) * bh, gh) == min_int(by * bh, gh) + h_row,
            ;
            done_px = done_px + row_px;
        }
        by = by + 1;
    }
    if rice_bits < fixed {
        BLOCK_CODER_RICE
    } else {
        BLOCK_CODER_FIXED
    }
}

// ---------------------------------------------------------------------------------------------
// The context-coded block stream
// ---------------------------------------------------------------------------------------------

/// What every context-coded sample may assume of the model it is coded under.
pub open spec fn model_ok(m: ContextModel) -> bool {
    &&& m.wf()
    &&& m.all_bounded()
    &&& m.all_within_limits()
}

/// Writes `n` samples of channel `channel` on row `y`, from column `x0`, under the context model.
fn write_ctx_cols(
    writer: &mut BitWriter,
    model: &mut ContextModel,
    data: &[u8],
    plane: &Plane,
    x0: u32,
    y: u32,
    channel: usize,
    n: u32,
    Ghost(h): Ghost<u32>,
)
    requires
        old(writer).wf(),
        model_ok(*old(model)),
        plane.wf(),
        channel < plane.stride,
        x0 + n <= plane.width,
        y < h,
        index_of(plane.width as int, plane.stride as int, 0, h as int, 0) <= data@.len(),
        data@.len() <= usize::MAX,
    ensures
        final(writer).wf(),
        model_ok(*final(model)),
        ({
            let c = crate::ctx_stream::cols_code(
                old(model).state(),
                data@,
                plane.width as int,
                plane.stride as int,
                x0 as int,
                y as int,
                channel as int,
                n as nat,
            );
            &&& final(writer)@ == old(writer)@ + c.0
            &&& final(model).state() == c.1
        }),
{
    let ghost d = data@;
    let ghost w = plane.width as int;
    let ghost si = plane.stride as int;
    let ghost st0 = model.state();
    let ghost start = writer@;
    let mut col: u32 = 0;
    while col < n
        invariant
            writer.wf(),
            model_ok(*model),
            plane.wf(),
            d == data@,
            w == plane.width,
            si == plane.stride,
            channel < plane.stride,
            x0 + n <= plane.width,
            y < h,
            index_of(w, si, 0, h as int, 0) <= d.len(),
            d.len() <= usize::MAX,
            col <= n,
            writer@ == start + crate::ctx_stream::cols_code(st0, d, w, si, x0 as int, y as int, channel as int, col as nat).0,
            model.state() == crate::ctx_stream::cols_code(st0, d, w, si, x0 as int, y as int, channel as int, col as nat).1,
        decreases n - col,
    {
        let x = x0 + col;
        proof {
            lemma_index(w, h as int, si, x as int, y as int, channel as int);
            assert(w * h * si == index_of(w, si, 0, h as int, 0)) by (nonlinear_arith);
        }
        let context = plane.context(data, x, y, channel);
        let i = sample_index(plane.width, plane.stride, x, y, channel);
        let v = data[i] as u32;
        let k = model.parameter(context);
        rice::write(writer, v, k);
        proof {
            assert(model.within_limits(context as int));
            assert(model.bounded(context as int));
        }
        model.update(context, v);
        proof {
            assert(writer@ =~= start + crate::ctx_stream::cols_code(st0, d, w, si, x0 as int, y as int, channel as int, (col + 1) as nat).0);
        }
        col = col + 1;
    }
}

/// Writes every sample of channel `channel` within block `rect`, row by row.
fn write_ctx_rows(
    writer: &mut BitWriter,
    model: &mut ContextModel,
    data: &[u8],
    plane: &Plane,
    rect: &BlockRect,
    channel: usize,
    Ghost(h): Ghost<u32>,
)
    requires
        old(writer).wf(),
        model_ok(*old(model)),
        plane.wf(),
        channel < plane.stride,
        rect.x + rect.w <= plane.width,
        rect.y + rect.h <= h,
        index_of(plane.width as int, plane.stride as int, 0, h as int, 0) <= data@.len(),
        data@.len() <= usize::MAX,
    ensures
        final(writer).wf(),
        model_ok(*final(model)),
        ({
            let c = crate::ctx_stream::rows_code(
                old(model).state(),
                data@,
                plane.width as int,
                plane.stride as int,
                *rect,
                channel as int,
                rect.h as nat,
            );
            &&& final(writer)@ == old(writer)@ + c.0
            &&& final(model).state() == c.1
        }),
{
    let ghost d = data@;
    let ghost w = plane.width as int;
    let ghost si = plane.stride as int;
    let ghost st0 = model.state();
    let ghost start = writer@;
    let mut row: u32 = 0;
    while row < rect.h
        invariant
            writer.wf(),
            model_ok(*model),
            plane.wf(),
            d == data@,
            w == plane.width,
            si == plane.stride,
            channel < plane.stride,
            rect.x + rect.w <= plane.width,
            rect.y + rect.h <= h,
            index_of(w, si, 0, h as int, 0) <= d.len(),
            d.len() <= usize::MAX,
            row <= rect.h,
            writer@ == start + crate::ctx_stream::rows_code(st0, d, w, si, *rect, channel as int, row as nat).0,
            model.state() == crate::ctx_stream::rows_code(st0, d, w, si, *rect, channel as int, row as nat).1,
        decreases rect.h - row,
    {
        write_ctx_cols(writer, model, data, plane, rect.x, rect.y + row, channel, rect.w, Ghost(h));
        proof {
            assert(writer@ =~= start + crate::ctx_stream::rows_code(st0, d, w, si, *rect, channel as int, (row + 1) as nat).0);
        }
        row = row + 1;
    }
}

/// Writes one block under the context coder: every zero flag, then every channel not flagged.
fn write_ctx_block(
    writer: &mut BitWriter,
    model: &mut ContextModel,
    data: &[u8],
    plane: &Plane,
    coded: &CodedIndices,
    rect: &BlockRect,
    Ghost(h): Ghost<u32>,
)
    requires
        old(writer).wf(),
        model_ok(*old(model)),
        plane.wf(),
        coded.wf(),
        forall|k: int| 0 <= k < coded.spec_slots().len() ==> coded.spec_slots()[k] < plane.stride,
        rect.x + rect.w <= plane.width,
        rect.y + rect.h <= h,
        index_of(plane.width as int, plane.stride as int, 0, h as int, 0) <= data@.len(),
        data@.len() <= usize::MAX,
    ensures
        final(writer).wf(),
        model_ok(*final(model)),
        ({
            let c = crate::ctx_stream::block_code(
                old(model).state(),
                data@,
                plane.width as int,
                plane.stride as int,
                coded.spec_slots(),
                *rect,
            );
            &&& final(writer)@ == old(writer)@ + c.0
            &&& final(model).state() == c.1
        }),
{
    let ghost d = data@;
    let ghost w = plane.width as int;
    let ghost si = plane.stride as int;
    let ghost slots = coded.spec_slots();
    let ghost st0 = model.state();
    let ghost start = writer@;
    let n = coded.len();
    proof {
        coded.lemma_wf();
    }
    let mut zero: Vec<bool> = Vec::new();
    let mut slot: usize = 0;
    while slot < n
        invariant
            coded.wf(),
            slots == coded.spec_slots(),
            n == slots.len(),
            forall|k: int| 0 <= k < slots.len() ==> slots[k] < plane.stride,
            d == data@,
            w == plane.width,
            si == plane.stride,
            rect.x + rect.w <= plane.width,
            rect.y + rect.h <= h,
            index_of(w, si, 0, h as int, 0) <= d.len(),
            h <= u32::MAX,
            slot <= n,
            zero@.len() == slot,
            forall|k: int| 0 <= k < slot ==> #[trigger] zero@[k] == crate::ctx_stream::zero_at(d, w, si, slots, *rect, k),
        decreases n - slot,
    {
        proof {
            if rect.h > 0 {
                assert(index_of(w, si, 0, (rect.y + rect.h) as int, 0) <= index_of(w, si, 0, h as int, 0)) by (nonlinear_arith)
                    requires
                        rect.y + rect.h <= h,
                        w >= 0,
                        si >= 0,
                ;
            }
        }
        let z = block_is_zero(data, plane, rect, coded.channel(slot));
        zero.push(z);
        slot = slot + 1;
    }
    let mut s: usize = 0;
    while s < n
        invariant
            writer.wf(),
            zero@.len() == n,
            n == slots.len(),
            s <= n,
            forall|k: int| 0 <= k < n ==> #[trigger] zero@[k] == crate::ctx_stream::zero_at(d, w, si, slots, *rect, k),
            writer@ == start + crate::ctx_stream::flags_bits(d, w, si, slots, *rect, s as nat),
        decreases n - s,
    {
        writer.write(if zero[s] {
            1
        } else {
            0
        }, ZERO_BLOCK_BITS);
        proof {
            assert(writer@ =~= start + crate::ctx_stream::flags_bits(d, w, si, slots, *rect, (s + 1) as nat));
        }
        s = s + 1;
    }
    let ghost mid = writer@;
    let mut s: usize = 0;
    while s < n
        invariant
            writer.wf(),
            model_ok(*model),
            coded.wf(),
            slots == coded.spec_slots(),
            n == slots.len(),
            forall|k: int| 0 <= k < slots.len() ==> slots[k] < plane.stride,
            plane.wf(),
            d == data@,
            w == plane.width,
            si == plane.stride,
            rect.x + rect.w <= plane.width,
            rect.y + rect.h <= h,
            index_of(w, si, 0, h as int, 0) <= d.len(),
            d.len() <= usize::MAX,
            zero@.len() == n,
            forall|k: int| 0 <= k < n ==> #[trigger] zero@[k] == crate::ctx_stream::zero_at(d, w, si, slots, *rect, k),
            s <= n,
            writer@ == mid + crate::ctx_stream::slots_code(st0, d, w, si, slots, *rect, s as nat).0,
            model.state() == crate::ctx_stream::slots_code(st0, d, w, si, slots, *rect, s as nat).1,
        decreases n - s,
    {
        if !zero[s] {
            let channel = coded.channel(s);
            write_ctx_rows(writer, model, data, plane, rect, channel, Ghost(h));
        }
        proof {
            assert(writer@ =~= mid + crate::ctx_stream::slots_code(st0, d, w, si, slots, *rect, (s + 1) as nat).0);
        }
        s = s + 1;
    }
    proof {
        assert(writer@ =~= start + crate::ctx_stream::block_code(st0, d, w, si, slots, *rect).0);
    }
}

/// Writes every block under the context coder, in raster order, from fresh counters.
fn write_context_blocks(writer: &mut BitWriter, data: &[u8], stride: usize, coded: &CodedIndices, grid: &BlockGrid)
    requires
        old(writer).wf(),
        coded.wf(),
        plane_ok(data@, *grid, stride as nat, coded.spec_slots()),
    ensures
        final(writer).wf(),
        final(writer)@ == old(writer)@ + crate::ctx_stream::context_bits(
            *grid,
            data@,
            stride as int,
            coded.spec_slots(),
        ),
{
    let ghost slots = coded.spec_slots();
    let ghost d = data@;
    let ghost si = stride as int;
    let ghost start = writer@;
    let len = data.len();
    let img_w = grid.width();
    let ghost gh = grid.spec_height();
    let ghost w = img_w as int;
    let nx = grid.blocks_x();
    let ny = grid.blocks_y();
    proof {
        grid.lemma_wf();
    }
    if img_w == 0 || ny == 0 {
        proof {
            if ny > 0 {
                assert(grid.spec_blocks_x() == 0) by {
                    crate::block::lemma_ceil_div(0, grid.spec_block_w() as nat);
                }
                assert forall|by: nat| by <= ny implies #[trigger] crate::ctx_stream::grid_code(
                    crate::context::initial_state(),
                    *grid,
                    d,
                    si,
                    slots,
                    by,
                ).0 == Seq::<bool>::empty() by {
                    crate::ctx_stream::lemma_empty_rows_code(*grid, d, si, slots, by);
                }
            }
            assert(writer@ =~= start + crate::ctx_stream::context_bits(*grid, d, si, slots));
        }
        return;
    }
    proof {
        crate::block::lemma_ceil_div(gh as nat, grid.spec_block_h() as nat);
        assert(gh > 0) by {
            if gh == 0 {
                assert(crate::block::ceil_div(0, grid.spec_block_h() as nat) == 0);
            }
        }
        assert(img_w * stride <= d.len()) by (nonlinear_arith)
            requires
                d.len() == img_w * gh * stride,
                gh > 0,
        ;
        assert(index_of(w, si, 0, gh as int, 0) == d.len()) by (nonlinear_arith)
            requires
                d.len() == img_w * gh * stride,
                w == img_w,
                si == stride,
        ;
    }
    let plane = Plane::new(img_w, stride);
    let mut model = ContextModel::new();
    let mut by: u32 = 0;
    while by < ny
        invariant
            writer.wf(),
            model_ok(model),
            coded.wf(),
            plane_ok(d, *grid, stride as nat, slots),
            d == data@,
            d.len() <= usize::MAX,
            slots == coded.spec_slots(),
            img_w == grid.spec_width(),
            w == img_w,
            si == stride,
            gh == grid.spec_height(),
            index_of(w, si, 0, gh as int, 0) <= d.len(),
            nx == grid.spec_blocks_x(),
            ny == grid.spec_blocks_y(),
            plane.wf(),
            plane.width == img_w,
            plane.stride == stride,
            by <= ny,
            writer@ == start + crate::ctx_stream::grid_code(crate::context::initial_state(), *grid, d, si, slots, by as nat).0,
            model.state() == crate::ctx_stream::grid_code(crate::context::initial_state(), *grid, d, si, slots, by as nat).1,
        decreases ny - by,
    {
        let ghost row_start = writer@;
        let ghost row_state = model.state();
        let mut bx: u32 = 0;
        while bx < nx
            invariant
                writer.wf(),
                model_ok(model),
                coded.wf(),
                plane_ok(d, *grid, stride as nat, slots),
                d == data@,
                d.len() <= usize::MAX,
                slots == coded.spec_slots(),
                img_w == grid.spec_width(),
                w == img_w,
                si == stride,
                gh == grid.spec_height(),
                index_of(w, si, 0, gh as int, 0) <= d.len(),
                nx == grid.spec_blocks_x(),
                ny == grid.spec_blocks_y(),
                plane.wf(),
                plane.width == img_w,
                plane.stride == stride,
                by < ny,
                bx <= nx,
                writer@ == row_start + crate::ctx_stream::row_code(row_state, *grid, d, si, slots, by as nat, bx as nat).0,
                model.state() == crate::ctx_stream::row_code(row_state, *grid, d, si, slots, by as nat, bx as nat).1,
            decreases nx - bx,
        {
            let rect = grid.rect(bx, by);
            proof {
                lemma_rect_fits(*grid, d, stride as nat, bx as nat, by as nat);
            }
            write_ctx_block(writer, &mut model, data, &plane, coded, &rect, Ghost(gh));
            proof {
                assert(writer@ =~= row_start + crate::ctx_stream::row_code(row_state, *grid, d, si, slots, by as nat, (bx + 1) as nat).0);
            }
            bx = bx + 1;
        }
        proof {
            assert(writer@ =~= start + crate::ctx_stream::grid_code(crate::context::initial_state(), *grid, d, si, slots, (by + 1) as nat).0);
        }
        by = by + 1;
    }
}


// ---------------------------------------------------------------------------------------------
// The encoder
// ---------------------------------------------------------------------------------------------

/// The block size an encode uses: the one asked for, or the whole image.
pub open spec fn block_size_of(img: RawImage, opts: EncodeOptions) -> (u32, u32) {
    match opts.block_size {
        Some(b) => b,
        None => (img.spec_width(), img.spec_height()),
    }
}

/// The error an encode reports for a block size, if any.
pub open spec fn block_size_error(img: RawImage, opts: EncodeOptions) -> Option<BrpError> {
    let (bw, bh) = block_size_of(img, opts);
    if bw == 0 {
        Some(BrpError::ZeroDimension { what: "block_w" })
    } else if bh == 0 {
        Some(BrpError::ZeroDimension { what: "block_h" })
    } else {
        None
    }
}

/// The block coder a header records under `opts`, when any channel is coded.
pub open spec fn coder_for(opts: EncodeOptions, grid: BlockGrid, d: Seq<u8>, stride: int, slots: Seq<usize>) -> u8 {
    match opts.coder {
        CoderChoice::Fixed => BLOCK_CODER_FIXED,
        CoderChoice::Rice => BLOCK_CODER_RICE,
        CoderChoice::Context => BLOCK_CODER_CONTEXT,
        CoderChoice::Auto => cheaper(grid, d, stride, slots),
    }
}

/// `e` is the alphabet map the encoder plans for channel `c` of `data`: under
/// [`RemapChoice::Gaps`], the ascending list of the values the channel uses when that table is
/// worth its cost, and no map when no such list is; under [`RemapChoice::Off`], never a map.
pub open spec fn planned_map(
    e: Option<alphabet::AlphabetMap>,
    data: Seq<u8>,
    stride: nat,
    c: nat,
    choice: RemapChoice,
) -> bool {
    match e {
        Some(m) => choice == RemapChoice::Gaps && alphabet::lists_used(
            m.values(),
            alphabet::channel_used(data, stride, c),
        ) && alphabet::worth_mapping(m.values(), alphabet::channel_samples(data.len(), stride, c)),
        None => choice == RemapChoice::Off || forall|vals: Seq<u8>|
            #[trigger] alphabet::lists_used(vals, alphabet::channel_used(data, stride, c))
                && vals.len() >= 1 ==> !alphabet::worth_mapping(
                vals,
                alphabet::channel_samples(data.len(), stride, c),
            ),
    }
}

/// The predictor codes the encoder picks: under a layout, each unit's cheapest kind, ties going
/// to the lower kind.
pub open spec fn kinds_chosen(h: Header, data: Seq<u8>, kinds: Seq<u8>) -> bool {
    match crate::file::layout_of(h.filter_mode) {
        Some(l) => forall|u: int|
            0 <= u < kinds.len() ==> predict::is_cheapest(
                l,
                ranked_plane(h, data),
                h.width as nat,
                h.height as nat,
                h.channels as nat,
                h.plan.spec_coded(),
                u as nat,
                #[trigger] kinds[u],
            ),
        None => true,
    }
}

/// `b` is the file the encoder writes for `img` under `opts` and prediction layout `layout`: a
/// header with the image's shape, the block size asked for, the layout (when any channel is
/// coded) and the coder asked for, followed by a body, such that the file holds `(h, kinds, d)`
/// and `(h, kinds, d)` is what the encoder makes of the image's samples.
pub open spec fn written_from(b: Seq<u8>, img: RawImage, opts: EncodeOptions, layout: Option<FilterLayout>) -> bool {
    exists|h: Header, kinds: Seq<u8>, d: Seq<u8>|
        {
            &&& #[trigger] file_holds(b, h, kinds, d)
            &&& encodes(img.spec_data(), opts.channels, h, kinds, d)
            &&& h.width == img.spec_width()
            &&& h.height == img.spec_height()
            &&& h.channels == img.spec_channels()
            &&& (h.block_w, h.block_h) == block_size_of(img, opts)
            &&& h.filter_mode == if h.plan.spec_coded().len() == 0 {
                FILTER_MODE_NONE
            } else {
                match layout {
                    Some(l) => l.spec_mode(),
                    None => FILTER_MODE_NONE,
                }
            }
            &&& h.block_coder == if h.plan.spec_coded().len() == 0 {
                BLOCK_CODER_FIXED
            } else {
                coder_for(opts, header_grid(h), d, h.channels as int, h.plan.spec_coded())
            }
            &&& forall|c: int|
                0 <= c < h.channels ==> #[trigger] planned_map(
                    h.alphabet.entries()[c],
                    img.spec_data(),
                    h.channels as nat,
                    c as nat,
                    opts.remap,
                )
            &&& kinds_chosen(h, img.spec_data(), kinds)
        }
}

/// A unit has one cheapest kind.
proof fn lemma_cheapest_unique(
    l: FilterLayout,
    s: Seq<u8>,
    w: nat,
    h: nat,
    stride: nat,
    slots: Seq<usize>,
    u: nat,
    k1: u8,
    k2: u8,
)
    requires
        predict::is_cheapest(l, s, w, h, stride, slots, u, k1),
        predict::is_cheapest(l, s, w, h, stride, slots, u, k2),
    ensures
        k1 == k2,
{
    if k1 < k2 {
        assert(predict::unit_cost(l, s, w, h, stride, slots, u, k1) > predict::unit_cost(
            l,
            s,
            w,
            h,
            stride,
            slots,
            u,
            k2,
        ));
    } else if k2 < k1 {
        assert(predict::unit_cost(l, s, w, h, stride, slots, u, k2) > predict::unit_cost(
            l,
            s,
            w,
            h,
            stride,
            slots,
            u,
            k1,
        ));
    }
}

/// Planned maps for the same channel list the same values.
proof fn lemma_planned_map_unique(
    e1: Option<alphabet::AlphabetMap>,
    e2: Option<alphabet::AlphabetMap>,
    data: Seq<u8>,
    stride: nat,
    c: nat,
    choice: RemapChoice,
)
    requires
        planned_map(e1, data, stride, c, choice),
        planned_map(e2, data, stride, c, choice),
        e1 matches Some(m) ==> m.wf(),
        e2 matches Some(m) ==> m.wf(),
    ensures
        e1 is Some == e2 is Some,
        e1 matches Some(m1) ==> e2 matches Some(m2) && m1.values() == m2.values(),
{
    let used = alphabet::channel_used(data, stride, c);
    match (e1, e2) {
        (Some(m1), Some(m2)) => {
            alphabet::lemma_lists_used_unique(m1.values(), used);
            assert(alphabet::lists_used(m2.values(), used));
        },
        (Some(m1), None) => {
            alphabet::lemma_map_values_nonempty(m1);
            assert(alphabet::lists_used(m1.values(), used));
        },
        (None, Some(m2)) => {
            alphabet::lemma_map_values_nonempty(m2);
            assert(alphabet::lists_used(m2.values(), used));
        },
        (None, None) => {},
    }
}

/// The encoder's output is a function of its input: two files that both fit [`written_from`]
/// for the same image, options and layout are the same bytes.
#[verifier::spinoff_prover]
#[verifier::rlimit(80)]
pub proof fn lemma_written_unique(
    b1: Seq<u8>,
    b2: Seq<u8>,
    img: RawImage,
    opts: EncodeOptions,
    layout: Option<FilterLayout>,
)
    requires
        img.wf(),
        written_from(b1, img, opts, layout),
        written_from(b2, img, opts, layout),
    ensures
        b1 == b2,
{
    let (h1, k1, d1) = choose|h: Header, kinds: Seq<u8>, d: Seq<u8>|
        {
            &&& #[trigger] file_holds(b1, h, kinds, d)
            &&& encodes(img.spec_data(), opts.channels, h, kinds, d)
            &&& h.width == img.spec_width()
            &&& h.height == img.spec_height()
            &&& h.channels == img.spec_channels()
            &&& (h.block_w, h.block_h) == block_size_of(img, opts)
            &&& h.filter_mode == if h.plan.spec_coded().len() == 0 {
                FILTER_MODE_NONE
            } else {
                match layout {
                    Some(l) => l.spec_mode(),
                    None => FILTER_MODE_NONE,
                }
            }
            &&& h.block_coder == if h.plan.spec_coded().len() == 0 {
                BLOCK_CODER_FIXED
            } else {
                coder_for(opts, header_grid(h), d, h.channels as int, h.plan.spec_coded())
            }
            &&& forall|c: int|
                0 <= c < h.channels ==> #[trigger] planned_map(
                    h.alphabet.entries()[c],
                    img.spec_data(),
                    h.channels as nat,
                    c as nat,
                    opts.remap,
                )
            &&& kinds_chosen(h, img.spec_data(), kinds)
        };
    let (h2, k2, d2) = choose|h: Header, kinds: Seq<u8>, d: Seq<u8>|
        {
            &&& #[trigger] file_holds(b2, h, kinds, d)
            &&& encodes(img.spec_data(), opts.channels, h, kinds, d)
            &&& h.width == img.spec_width()
            &&& h.height == img.spec_height()
            &&& h.channels == img.spec_channels()
            &&& (h.block_w, h.block_h) == block_size_of(img, opts)
            &&& h.filter_mode == if h.plan.spec_coded().len() == 0 {
                FILTER_MODE_NONE
            } else {
                match layout {
                    Some(l) => l.spec_mode(),
                    None => FILTER_MODE_NONE,
                }
            }
            &&& h.block_coder == if h.plan.spec_coded().len() == 0 {
                BLOCK_CODER_FIXED
            } else {
                coder_for(opts, header_grid(h), d, h.channels as int, h.plan.spec_coded())
            }
            &&& forall|c: int|
                0 <= c < h.channels ==> #[trigger] planned_map(
                    h.alphabet.entries()[c],
                    img.spec_data(),
                    h.channels as nat,
                    c as nat,
                    opts.remap,
                )
            &&& kinds_chosen(h, img.spec_data(), kinds)
        };
    let data = img.spec_data();
    let stride = h1.channels as nat;
    let e1 = h1.alphabet.entries();
    let e2 = h2.alphabet.entries();
    // The same maps.
    assert forall|c: int| 0 <= c < stride implies #[trigger] e1[c] is Some == e2[c] is Some && (
    e1[c] matches Some(m1) ==> e2[c] matches Some(m2) && m1.values() == m2.values()) by {
        lemma_planned_map_unique(e1[c], e2[c], data, stride, c as nat, opts.remap);
    }
    assert(h1.alphabet.spec_values() =~= h2.alphabet.spec_values()) by {
        assert forall|c: int| 0 <= c < e1.len() implies #[trigger] alphabet::values_of(e1)[c]
            == alphabet::values_of(e2)[c] by {}
    }
    // The same renumbered samples.
    let m1 = ranked_plane(h1, data);
    let m2 = ranked_plane(h2, data);
    assert forall|i: int| 0 <= i < data.len() implies m1[i] == m2[i] by {
        let c = i % (stride as int);
        if let Some(a1) = e1[c] {
            let a2 = e2[c]->Some_0;
            alphabet::lemma_same_values_same_ranks(a1, a2);
            assert(a1.spec_rank(data[i]) == a2.spec_rank(data[i]));
        }
    }
    assert(m1 =~= m2);
    // The same plan, layout, predictor codes and residuals.
    assert(h1.plan.spec_modes() == h2.plan.spec_modes());
    assert(h1.plan.spec_coded() == h2.plan.spec_coded());
    assert(h1.filter_mode == h2.filter_mode);
    assert(k1.len() == k2.len());
    match crate::file::layout_of(h1.filter_mode) {
        Some(l) => {
            assert forall|u: int| 0 <= u < k1.len() implies k1[u] == k2[u] by {
                lemma_cheapest_unique(
                    l,
                    m1,
                    h1.width as nat,
                    h1.height as nat,
                    stride,
                    h1.plan.spec_coded(),
                    u as nat,
                    k1[u],
                    k2[u],
                );
            }
            assert(k1 =~= k2);
            assert forall|i: int| 0 <= i < d1.len() implies d1[i] == d2[i] by {
                assert(d1[i] == predict::residual_at(
                    l,
                    k1,
                    m1,
                    i,
                    h1.width as int,
                    stride as int,
                    h1.plan.spec_coded(),
                ));
                assert(d2[i] == predict::residual_at(
                    l,
                    k2,
                    m2,
                    i,
                    h2.width as int,
                    stride as int,
                    h2.plan.spec_coded(),
                ));
            }
            assert(d1 =~= d2);
        },
        None => {
            assert(k1 =~= k2);
            assert(d1 =~= d2);
        },
    }
    assert(h1.block_coder == h2.block_coder);
    assert(same_header(h1, h2));
    crate::file::lemma_same_header_decodes_alike(h1, h2, k1, d1);
    let n = h1.spec_bytes().len() as int;
    if h1.plan.spec_coded().len() == 0 {
        assert(b1 =~= b1.subrange(0, n));
        assert(b2 =~= b2.subrange(0, n));
        assert(b1 =~= b2);
    } else {
        let r1 = b1.subrange(n, b1.len() as int);
        let r2 = b2.subrange(n, b2.len() as int);
        crate::bits::lemma_byte_bits_injective(r1, r2);
        assert(b1 =~= b1.subrange(0, n) + r1);
        assert(b2 =~= b2.subrange(0, n) + r2);
    }
}

/// The file the encoder writes for `img` under `opts` and `layout`; by
/// [`lemma_written_unique`] there is at most one.
pub open spec fn encoded(img: RawImage, opts: EncodeOptions, layout: Option<FilterLayout>) -> Seq<u8> {
    choose|b: Seq<u8>| written_from(b, img, opts, layout)
}

/// What [`FilterChoice::Auto`] keeps: the per-row file when it is shorter than the unpredicted
/// one, and then the per-square file when that is shorter still; otherwise the unpredicted file.
pub open spec fn auto_pick(img: RawImage, opts: EncodeOptions) -> Seq<u8> {
    let plain = encoded(img, opts, None);
    let by_row = encoded(img, opts, Some(FilterLayout::Row));
    let by_block = encoded(img, opts, Some(FilterLayout::Block));
    if by_row.len() < plain.len() {
        if by_block.len() < by_row.len() {
            by_block
        } else {
            by_row
        }
    } else {
        plain
    }
}

/// A written file is the one [`encoded`] names.
proof fn lemma_encoded_is(b: Seq<u8>, img: RawImage, opts: EncodeOptions, layout: Option<FilterLayout>)
    requires
        img.wf(),
        written_from(b, img, opts, layout),
    ensures
        b == encoded(img, opts, layout),
{
    lemma_written_unique(b, encoded(img, opts, layout), img, opts, layout);
}

/// The automatic choice is never longer than the unpredicted file, nor than the per-row file
/// once that beat it.
pub proof fn lemma_auto_never_worse(img: RawImage, opts: EncodeOptions)
    ensures
        auto_pick(img, opts).len() <= encoded(img, opts, None).len(),
        encoded(img, opts, Some(FilterLayout::Row)).len() < encoded(img, opts, None).len()
            ==> auto_pick(img, opts).len() <= encoded(img, opts, Some(FilterLayout::Row)).len()
            && auto_pick(img, opts).len() <= encoded(img, opts, Some(FilterLayout::Block)).len(),
{
}

/// The pieces an encode puts together make the file [`written_from`] promises.
proof fn lemma_written_from(
    b: Seq<u8>,
    body: Seq<u8>,
    img: RawImage,
    opts: EncodeOptions,
    layout: Option<FilterLayout>,
    h: Header,
    kinds: Seq<u8>,
    d: Seq<u8>,
    mapped: Seq<u8>,
)
    requires
        img.wf(),
        h.width == img.spec_width(),
        h.height == img.spec_height(),
        h.channels == img.spec_channels(),
        h.bit_depth == BIT_DEPTH,
        (h.block_w, h.block_h) == block_size_of(img, opts),
        h.block_w > 0,
        h.block_h > 0,
        h.plan.wf(),
        h.plan.spec_channels() == h.channels,
        h.plan.spec_modes() == channels::planned_modes(mapped, h.channels, opts.channels),
        h.alphabet.wf(),
        h.alphabet.entries().len() == h.channels,
        forall|c: int|
            0 <= c < h.channels ==> (#[trigger] h.alphabet.entries()[c] matches Some(m)
                ==> alphabet::lists_used(
                m.values(),
                alphabet::channel_used(img.spec_data(), h.channels as nat, c as nat),
            )),
        mapped.len() == img.spec_data().len(),
        forall|i: int|
            0 <= i < mapped.len() ==> #[trigger] mapped[i] == alphabet::ranked(
                h.alphabet.entries(),
                h.channels as nat,
                i,
                img.spec_data()[i],
            ),
        h.filter_mode == if h.plan.spec_coded().len() == 0 {
            FILTER_MODE_NONE
        } else {
            match layout {
                Some(l) => l.spec_mode(),
                None => FILTER_MODE_NONE,
            }
        },
        h.block_coder == if h.plan.spec_coded().len() == 0 {
            BLOCK_CODER_FIXED
        } else {
            coder_for(opts, header_grid(h), d, h.channels as int, h.plan.spec_coded())
        },
        d.len() == mapped.len(),
        match crate::file::layout_of(h.filter_mode) {
            Some(l) => {
                &&& kinds.len() == predict::spec_units(l, h.width as nat, h.height as nat)
                &&& forall|u: int| 0 <= u < kinds.len() ==> #[trigger] kinds[u] < predict::FILTER_KINDS
                &&& predict::is_residual_plane(
                    l,
                    kinds,
                    mapped,
                    d,
                    h.width as int,
                    h.channels as int,
                    h.plan.spec_coded(),
                )
            },
            None => kinds.len() == 0 && d == mapped,
        },
        h.plan.spec_coded().len() == 0 ==> b == h.spec_bytes(),
        h.plan.spec_coded().len() > 0 ==> b == h.spec_bytes() + body && crate::bits::byte_bits(body)
            == crate::bits::padded(crate::file::body_bits(h, kinds, d)),
        forall|c: int|
            0 <= c < h.channels ==> #[trigger] planned_map(
                h.alphabet.entries()[c],
                img.spec_data(),
                h.channels as nat,
                c as nat,
                opts.remap,
            ),
        match crate::file::layout_of(h.filter_mode) {
            Some(l) => forall|u: int|
                0 <= u < kinds.len() ==> predict::is_cheapest(
                    l,
                    mapped,
                    h.width as nat,
                    h.height as nat,
                    h.channels as nat,
                    h.plan.spec_coded(),
                    u as nat,
                    #[trigger] kinds[u],
                ),
            None => true,
        },
    ensures
        written_from(b, img, opts, layout),
{
    img.lemma_wf();
    let stride = h.channels as nat;
    channels::lemma_coded_list(h.plan.spec_modes(), stride);
    assert(crate::header::header_valid(h));
    assert(mapped =~= ranked_plane(h, img.spec_data()));
    alphabet::lemma_planned_maps_cover(img.spec_data(), stride, h.alphabet);
    let n = h.spec_bytes().len() as int;
    if h.plan.spec_coded().len() > 0 {
        assert(b.subrange(0, n) =~= h.spec_bytes());
        assert(b.subrange(n, b.len() as int) =~= body);
    } else {
        assert(b.subrange(0, n) =~= h.spec_bytes());
    }
    assert(file_holds(b, h, kinds, d));
    assert(encodes(img.spec_data(), opts.channels, h, kinds, d));
    assert(kinds_chosen(h, img.spec_data(), kinds));
}

/// Encodes an image into a bitstream.
pub fn encode(img: &RawImage, opts: &EncodeOptions) -> (r: Result<Vec<u8>, BrpError>)
    requires
        img.wf(),
        img.spec_data().len() <= u64::MAX / 64,
        img.spec_data().len() + 4 <= usize::MAX,
    ensures
        match block_size_error(*img, *opts) {
            Some(e) => r == Err::<Vec<u8>, BrpError>(e),
            None => r matches Ok(b) && b@ == match opts.filter {
                FilterChoice::Off => encoded(*img, *opts, None),
                FilterChoice::Row => encoded(*img, *opts, Some(FilterLayout::Row)),
                FilterChoice::Block => encoded(*img, *opts, Some(FilterLayout::Block)),
                FilterChoice::Auto => auto_pick(*img, *opts),
            } && match opts.filter {
                FilterChoice::Off => written_from(b@, *img, *opts, None),
                FilterChoice::Row => written_from(b@, *img, *opts, Some(FilterLayout::Row)),
                FilterChoice::Block => written_from(b@, *img, *opts, Some(FilterLayout::Block)),
                FilterChoice::Auto => written_from(b@, *img, *opts, None) || written_from(
                    b@,
                    *img,
                    *opts,
                    Some(FilterLayout::Row),
                ) || written_from(b@, *img, *opts, Some(FilterLayout::Block)),
            },
        },
{
    match opts.filter {
        FilterChoice::Off => encode_with(img, opts, None),
        FilterChoice::Row => encode_with(img, opts, Some(FilterLayout::Row)),
        FilterChoice::Block => encode_with(img, opts, Some(FilterLayout::Block)),
        FilterChoice::Auto => {
            // Prediction has to earn its place before the finer layout is even tried.
            let plain = match encode_with(img, opts, None) {
                Ok(v) => v,
                Err(e) => {
                    return Err(e);
                },
            };
            let by_row = match encode_with(img, opts, Some(FilterLayout::Row)) {
                Ok(v) => v,
                Err(e) => {
                    return Err(e);
                },
            };
            if by_row.len() < plain.len() {
                let by_block = match encode_with(img, opts, Some(FilterLayout::Block)) {
                    Ok(v) => v,
                    Err(e) => {
                        return Err(e);
                    },
                };
                if by_block.len() < by_row.len() {
                    Ok(by_block)
                } else {
                    Ok(by_row)
                }
            } else {
                Ok(plain)
            }
        },
    }
}

/// Encodes with one prediction layout, or none.
#[verifier::spinoff_prover]
#[verifier::rlimit(60)]
fn encode_with(img: &RawImage, opts: &EncodeOptions, layout: Option<FilterLayout>) -> (r: Result<
    Vec<u8>,
    BrpError,
>)
    requires
        img.wf(),
        img.spec_data().len() <= u64::MAX / 64,
        img.spec_data().len() + 4 <= usize::MAX,
    ensures
        match block_size_error(*img, *opts) {
            Some(e) => r == Err::<Vec<u8>, BrpError>(e),
            None => r matches Ok(b) && written_from(b@, *img, *opts, layout) && b@ == encoded(
                *img,
                *opts,
                layout,
            ),
        },
{
    let ghost asked = layout;
    let (block_w, block_h) = match opts.block_size {
        Some(b) => b,
        None => (img.width(), img.height()),
    };
    if block_w == 0 {
        return Err(BrpError::ZeroDimension { what: "block_w" });
    }
    if block_h == 0 {
        return Err(BrpError::ZeroDimension { what: "block_h" });
    }
    proof {
        img.lemma_wf();
    }
    let width = img.width();
    let height = img.height();
    let channels = img.channels();
    let stride = channels as usize;
    let source = img.data();

    // Alphabets first, on the untouched samples: stage 1 then works in rank space.
    let maps = alphabet::plan(source, stride, opts.remap);
    let mut mapped = vstd::slice::slice_to_vec(source);
    alphabet::apply_in_place(&mut mapped, stride, &maps);

    // Stage 1: classify channels across the whole image.
    let plan = channels::plan(mapped.as_slice(), channels, &opts.channels);
    proof {
        channels::lemma_planned_modes_wf(mapped@, channels, opts.channels);
    }
    let coded = plan.coded_indices();
    proof {
        coded.lemma_wf();
        channels::lemma_coded_list(plan.spec_modes(), channels as nat);
        assert(mapped@.len() == width * height * channels);
    }

    // With nothing left to code there is nothing to predict either.
    let layout = if coded.is_empty() {
        None
    } else {
        layout
    };
    let ghost len = mapped@.len();
    let ghost mapped_v = mapped@;
    let (kinds, data) = match layout {
        Some(l) => predict::apply(l, mapped.as_slice(), width, height, stride, &coded),
        None => (Vec::new(), mapped),
    };
    assert(data@.len() == len);

    let grid = BlockGrid::new(width, height, block_w, block_h);
    assert(plane_ok(data@, grid, stride as nat, coded.spec_slots()));
    let block_coder = if coded.is_empty() {
        BLOCK_CODER_FIXED
    } else {
        match opts.coder {
            CoderChoice::Fixed => BLOCK_CODER_FIXED,
            CoderChoice::Rice => BLOCK_CODER_RICE,
            CoderChoice::Context => BLOCK_CODER_CONTEXT,
            CoderChoice::Auto => cheaper_coder(data.as_slice(), stride, &coded, &grid),
        }
    };

    let header = Header {
        width,
        height,
        channels,
        bit_depth: BIT_DEPTH,
        block_w,
        block_h,
        filter_mode: match layout {
            Some(l) => l.mode(),
            None => FILTER_MODE_NONE,
        },
        block_coder,
        plan,
        alphabet: maps,
    };
    let mut out: Vec<u8> = Vec::new();
    header.write_to(&mut out);

    // An image of nothing but constant and aliased channels has no block stream at all.
    if coded.is_empty() {
        proof {
            lemma_written_from(out@, Seq::empty(), *img, *opts, asked, header, kinds@, data@, mapped_v);
            lemma_encoded_is(out@, *img, *opts, asked);
        }
        return Ok(out);
    }

    let mut writer = BitWriter::new();
    // The predictor codes come first, so a decoder has them before it needs them.
    let mut u: usize = 0;
    proof {
        assert(kinds@.take(0) =~= Seq::<u8>::empty());
    }
    while u < kinds.len()
        invariant
            writer.wf(),
            u <= kinds@.len(),
            writer@ == kind_bits(kinds@.take(u as int)),
        decreases kinds@.len() - u,
    {
        proof {
            lemma_kind_bits_prefix(kinds@, u as nat);
        }
        writer.write(kinds[u] as u32, FILTER_KIND_BITS);
        u = u + 1;
    }
    proof {
        assert(kinds@.take(u as int) =~= kinds@);
    }
    if block_coder == BLOCK_CODER_CONTEXT {
        write_context_blocks(&mut writer, data.as_slice(), stride, &coded, &grid);
    } else {
        match write_parametered_blocks(&mut writer, data.as_slice(), stride, &coded, &grid, block_coder) {
            Ok(()) => {},
            Err(e) => {
                return Err(e);
            },
        }
    }
    let ghost written = writer@;
    let mut body = writer.finish();
    let ghost body_v = body@;
    out.append(&mut body);
    proof {
        assert(written == crate::file::body_bits(header, kinds@, data@));
        lemma_written_from(out@, body_v, *img, *opts, asked, header, kinds@, data@, mapped_v);
        lemma_encoded_is(out@, *img, *opts, asked);
    }
    Ok(out)
}

} // verus!
