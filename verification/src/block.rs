//! Block grid geometry: the image tiled with blocks in raster order, right and bottom edges
//! clipped rather than padded.

use vstd::prelude::*;

verus! {

/// `ceil(a / b)`.
pub open spec fn ceil_div(a: nat, b: nat) -> nat {
    if b == 0 {
        0
    } else {
        ((a + b - 1) / b as int) as nat
    }
}

pub open spec fn min_nat(a: nat, b: nat) -> nat {
    if a <= b {
        a
    } else {
        b
    }
}

/// A block's position and size in pixels, already clipped to the image bounds.
#[derive(Debug, Clone, Copy, PartialEq, Eq)]
pub struct BlockRect {
    pub x: u32,
    pub y: u32,
    pub w: u32,
    pub h: u32,
}

impl BlockRect {
    /// Pixels in this block, after clipping.
    pub fn pixel_count(&self) -> (n: u64)
        ensures
            n == self.w * self.h,
    {
        proof {
            assert(self.w * self.h <= u32::MAX * u32::MAX) by (nonlinear_arith);
        }
        self.w as u64 * self.h as u64
    }
}

/// Tiles an image with blocks in raster order, clipping the right and bottom edges.
#[derive(Debug, Clone, Copy, PartialEq, Eq)]
pub struct BlockGrid {
    width: u32,
    height: u32,
    block_w: u32,
    block_h: u32,
}

impl BlockGrid {
    pub closed spec fn spec_width(&self) -> u32 {
        self.width
    }

    pub closed spec fn spec_height(&self) -> u32 {
        self.height
    }

    pub closed spec fn spec_block_w(&self) -> u32 {
        self.block_w
    }

    pub closed spec fn spec_block_h(&self) -> u32 {
        self.block_h
    }

    pub closed spec fn wf(&self) -> bool {
        self.block_w > 0 && self.block_h > 0
    }

    pub proof fn lemma_wf(&self)
        requires
            self.wf(),
        ensures
            self.spec_block_w() > 0,
            self.spec_block_h() > 0,
    {
    }

    pub open spec fn spec_blocks_x(&self) -> nat {
        ceil_div(self.spec_width() as nat, self.spec_block_w() as nat)
    }

    pub open spec fn spec_blocks_y(&self) -> nat {
        ceil_div(self.spec_height() as nat, self.spec_block_h() as nat)
    }

    pub open spec fn spec_len(&self) -> nat {
        self.spec_blocks_x() * self.spec_blocks_y()
    }

    /// The block in column `bx` and row `by` of the grid.
    pub open spec fn spec_rect(&self, bx: nat, by: nat) -> BlockRect {
        let x = bx * self.spec_block_w();
        let y = by * self.spec_block_h();
        BlockRect {
            x: x as u32,
            y: y as u32,
            w: min_nat(self.spec_block_w() as nat, (self.spec_width() - x) as nat) as u32,
            h: min_nat(self.spec_block_h() as nat, (self.spec_height() - y) as nat) as u32,
        }
    }

    /// Block `i` in raster order.
    pub open spec fn spec_block(&self, i: nat) -> BlockRect {
        self.spec_rect(i % self.spec_blocks_x(), i / self.spec_blocks_x())
    }

    /// # Panics
    /// If `block_w` or `block_h` is zero, which callers rule out first.
    /// The grid for an image and block size.
    pub closed spec fn spec_new(width: u32, height: u32, block_w: u32, block_h: u32) -> BlockGrid {
        BlockGrid { width, height, block_w, block_h }
    }

    pub proof fn lemma_spec_new(width: u32, height: u32, block_w: u32, block_h: u32)
        ensures
            ({
                let g = BlockGrid::spec_new(width, height, block_w, block_h);
                &&& g.spec_width() == width
                &&& g.spec_height() == height
                &&& g.spec_block_w() == block_w
                &&& g.spec_block_h() == block_h
                &&& (block_w > 0 && block_h > 0 ==> g.wf())
            }),
    {
    }

    pub fn new(width: u32, height: u32, block_w: u32, block_h: u32) -> (g: Self)
        requires
            block_w > 0,
            block_h > 0,
        ensures
            g == BlockGrid::spec_new(width, height, block_w, block_h),
            g.wf(),
            g.spec_width() == width,
            g.spec_height() == height,
            g.spec_block_w() == block_w,
            g.spec_block_h() == block_h,
    {
        BlockGrid { width, height, block_w, block_h }
    }

    /// Image width the grid covers.
    pub fn width(&self) -> (w: u32)
        ensures
            w == self.spec_width(),
    {
        self.width
    }

    /// Image height the grid covers.
    pub fn height(&self) -> (h: u32)
        ensures
            h == self.spec_height(),
    {
        self.height
    }

    pub fn blocks_x(&self) -> (n: u32)
        requires
            self.wf(),
        ensures
            n == self.spec_blocks_x(),
    {
        let q = self.width / self.block_w;
        let r = self.width % self.block_w;
        proof {
            lemma_ceil_div(self.width as nat, self.block_w as nat);
        }
        if r != 0 {
            q + 1
        } else {
            q
        }
    }

    pub fn blocks_y(&self) -> (n: u32)
        requires
            self.wf(),
        ensures
            n == self.spec_blocks_y(),
    {
        let q = self.height / self.block_h;
        let r = self.height % self.block_h;
        proof {
            lemma_ceil_div(self.height as nat, self.block_h as nat);
        }
        if r != 0 {
            q + 1
        } else {
            q
        }
    }

    /// Total number of blocks.
    pub fn len(&self) -> (n: u64)
        requires
            self.wf(),
        ensures
            n == self.spec_len(),
    {
        let bx = self.blocks_x();
        let by = self.blocks_y();
        proof {
            assert(bx * by <= u32::MAX * u32::MAX) by (nonlinear_arith);
        }
        bx as u64 * by as u64
    }

    /// False whenever the image has pixels: a grid over a valid image has at least one block.
    pub fn is_empty(&self) -> (b: bool)
        requires
            self.wf(),
        ensures
            b == (self.spec_len() == 0),
    {
        self.len() == 0
    }

    /// The block in column `bx` and row `by`.
    pub fn rect(&self, bx: u32, by: u32) -> (r: BlockRect)
        requires
            self.wf(),
            bx < self.spec_blocks_x(),
            by < self.spec_blocks_y(),
        ensures
            r == self.spec_rect(bx as nat, by as nat),
            r.x + r.w <= self.spec_width(),
            r.y + r.h <= self.spec_height(),
            r.w > 0,
            r.h > 0,
    {
        proof {
            lemma_block_origin(bx as nat, self.block_w as nat, self.width as nat);
            lemma_block_origin(by as nat, self.block_h as nat, self.height as nat);
        }
        let x = bx * self.block_w;
        let y = by * self.block_h;
        let rw = self.width - x;
        let rh = self.height - y;
        BlockRect {
            x,
            y,
            w: if self.block_w < rw {
                self.block_w
            } else {
                rw
            },
            h: if self.block_h < rh {
                self.block_h
            } else {
                rh
            },
        }
    }

    /// Blocks in raster order: left to right, then top to bottom.
    pub fn iter(&self) -> (v: Vec<BlockRect>)
        requires
            self.wf(),
        ensures
            v@.len() == self.spec_len(),
            forall|i: int| 0 <= i < v@.len() ==> #[trigger] v@[i] == self.spec_block(i as nat),
    {
        let nx = self.blocks_x();
        let ny = self.blocks_y();
        let mut v: Vec<BlockRect> = Vec::new();
        let mut by: u32 = 0;
        while by < ny
            invariant
                self.wf(),
                nx == self.spec_blocks_x(),
                ny == self.spec_blocks_y(),
                by <= ny,
                v@.len() == by * nx,
                forall|i: int| 0 <= i < v@.len() ==> #[trigger] v@[i] == self.spec_block(i as nat),
            decreases ny - by,
        {
            let mut bx: u32 = 0;
            while bx < nx
                invariant
                    self.wf(),
                    nx == self.spec_blocks_x(),
                    ny == self.spec_blocks_y(),
                    by < ny,
                    bx <= nx,
                    v@.len() == by * nx + bx,
                    forall|i: int|
                        0 <= i < v@.len() ==> #[trigger] v@[i] == self.spec_block(i as nat),
                decreases nx - bx,
            {
                let r = self.rect(bx, by);
                proof {
                    let i = by * nx + bx;
                    assert(i % (nx as int) == bx && i / (nx as int) == by) by (nonlinear_arith)
                        requires
                            i == by * nx + bx,
                            bx < nx,
                    ;
                }
                v.push(r);
                bx = bx + 1;
            }
            proof {
                assert((by + 1) * nx == by * nx + nx) by (nonlinear_arith);
            }
            by = by + 1;
        }
        proof {
            assert(by * nx == nx * by) by (nonlinear_arith);
        }
        v
    }
}

pub proof fn lemma_ceil_div(a: nat, b: nat)
    requires
        b > 0,
    ensures
        ceil_div(a, b) == a / b + (if a % b != 0 {
            1nat
        } else {
            0nat
        }),
        ceil_div(a, b) * b >= a,
        ceil_div(a, b) <= a,
{
    assert(ceil_div(a, b) == a / b + (if a % b != 0 {
        1nat
    } else {
        0nat
    })) by (nonlinear_arith)
        requires
            b > 0,
            ceil_div(a, b) == (a + b - 1) / b as int,
    ;
    assert(ceil_div(a, b) * b >= a) by (nonlinear_arith)
        requires
            b > 0,
            ceil_div(a, b) == a / b + (if a % b != 0 {
                1nat
            } else {
                0nat
            }),
    ;
    assert(ceil_div(a, b) <= a) by (nonlinear_arith)
        requires
            b > 0,
            ceil_div(a, b) == a / b + (if a % b != 0 {
                1nat
            } else {
                0nat
            }),
    ;
}

/// A block that starts inside the grid starts inside the image.
pub proof fn lemma_block_origin(i: nat, b: nat, size: nat)
    requires
        b > 0,
        i < ceil_div(size, b),
    ensures
        i * b < size,
{
    lemma_ceil_div(size, b);
    assert(i * b < size) by (nonlinear_arith)
        requires
            b > 0,
            i < size / b + (if size % b != 0 {
                1nat
            } else {
                0nat
            }),
    ;
}

/// A block-channel has one value per pixel of the block.
pub proof fn lemma_block_values_len(d: Seq<u8>, w: int, stride: int, r: BlockRect, c: int)
    ensures
        crate::encode::block_values(d, w, stride, r, c).len() == r.w * r.h,
{
    lemma_rows_values_len(d, w, stride, r, c, r.h as nat);
}

proof fn lemma_rows_values_len(d: Seq<u8>, w: int, stride: int, r: BlockRect, c: int, rows: nat)
    ensures
        crate::encode::rows_values(d, w, stride, r, c, rows).len() == r.w * rows,
    decreases rows,
{
    if rows > 0 {
        lemma_rows_values_len(d, w, stride, r, c, (rows - 1) as nat);
        assert(r.w * rows == r.w * (rows - 1) + r.w) by (nonlinear_arith);
    }
}

} // verus!
