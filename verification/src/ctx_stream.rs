//! What the context block coder writes: for each block in raster order, one zero flag per coded
//! channel, then every sample of each channel not flagged, Rice-coded at the parameter its context
//! implies, the model advancing after each one.

use crate::bits::bits_of;
use crate::block::{BlockGrid, BlockRect};
use crate::context::{spec_fold, spec_parameter, spec_quantise, spec_signed_error, state_step};
use crate::encode::{block_values, index_of};
use crate::predict::{above_at, left_at, upper_left_at};
use crate::rice::{all_zero, rice_bits};
use vstd::prelude::*;

verus! {

/// The context of sample `i` of plane `d`: its folded, quantised neighbouring errors.
pub open spec fn ctx_of(d: Seq<u8>, i: int, w: int, s: int) -> int {
    spec_fold(
        spec_quantise(spec_signed_error(above_at(d, i, w, s))),
        spec_quantise(spec_signed_error(upper_left_at(d, i, w, s))),
        spec_quantise(spec_signed_error(left_at(d, i, w, s))),
    )
}

/// The code of sample `i` under the counters `st`, and the counters after it.
pub open spec fn sample_code(st: (Seq<u32>, Seq<u32>), d: Seq<u8>, i: int, w: int, s: int) -> (
    Seq<bool>,
    (Seq<u32>, Seq<u32>),
) {
    let c = ctx_of(d, i, w, s);
    (
        rice_bits(d[i] as nat, spec_parameter(st.0[c] as nat, st.1[c] as nat)),
        state_step(st, c, d[i] as nat),
    )
}

/// The first `n` samples of channel `c` on row `y` from column `x0`.
pub open spec fn cols_code(
    st: (Seq<u32>, Seq<u32>),
    d: Seq<u8>,
    w: int,
    s: int,
    x0: int,
    y: int,
    c: int,
    n: nat,
) -> (Seq<bool>, (Seq<u32>, Seq<u32>))
    decreases n,
{
    if n == 0 {
        (Seq::empty(), st)
    } else {
        let p = cols_code(st, d, w, s, x0, y, c, (n - 1) as nat);
        let q = sample_code(p.1, d, index_of(w, s, x0 + n - 1, y, c), w, s);
        (p.0 + q.0, q.1)
    }
}

/// The first `n` rows of channel `c` within block `r`.
pub open spec fn rows_code(
    st: (Seq<u32>, Seq<u32>),
    d: Seq<u8>,
    w: int,
    s: int,
    r: BlockRect,
    c: int,
    n: nat,
) -> (Seq<bool>, (Seq<u32>, Seq<u32>))
    decreases n,
{
    if n == 0 {
        (Seq::empty(), st)
    } else {
        let p = rows_code(st, d, w, s, r, c, (n - 1) as nat);
        let q = cols_code(p.1, d, w, s, r.x as int, r.y + n - 1, c, r.w as nat);
        (p.0 + q.0, q.1)
    }
}

/// Coded channel `k` of block `r` is zero throughout.
pub open spec fn zero_at(d: Seq<u8>, w: int, s: int, slots: Seq<usize>, r: BlockRect, k: int) -> bool {
    all_zero(block_values(d, w, s, r, slots[k] as int))
}

/// The zero flags of block `r`'s first `n` coded channels.
pub open spec fn flags_bits(d: Seq<u8>, w: int, s: int, slots: Seq<usize>, r: BlockRect, n: nat) -> Seq<bool>
    decreases n,
{
    if n == 0 {
        Seq::empty()
    } else {
        flags_bits(d, w, s, slots, r, (n - 1) as nat) + bits_of(
            if zero_at(d, w, s, slots, r, n - 1) {
                1
            } else {
                0
            },
            1,
        )
    }
}

/// The samples of block `r`'s first `n` coded channels, skipping those flagged zero.
pub open spec fn slots_code(
    st: (Seq<u32>, Seq<u32>),
    d: Seq<u8>,
    w: int,
    s: int,
    slots: Seq<usize>,
    r: BlockRect,
    n: nat,
) -> (Seq<bool>, (Seq<u32>, Seq<u32>))
    decreases n,
{
    if n == 0 {
        (Seq::empty(), st)
    } else {
        let p = slots_code(st, d, w, s, slots, r, (n - 1) as nat);
        if zero_at(d, w, s, slots, r, n - 1) {
            p
        } else {
            let q = rows_code(p.1, d, w, s, r, slots[n - 1] as int, r.h as nat);
            (p.0 + q.0, q.1)
        }
    }
}

/// One block: every zero flag, then every channel not flagged.
pub open spec fn block_code(
    st: (Seq<u32>, Seq<u32>),
    d: Seq<u8>,
    w: int,
    s: int,
    slots: Seq<usize>,
    r: BlockRect,
) -> (Seq<bool>, (Seq<u32>, Seq<u32>)) {
    let b = slots_code(st, d, w, s, slots, r, slots.len());
    (flags_bits(d, w, s, slots, r, slots.len()) + b.0, b.1)
}

/// The first `bx` blocks of block row `by`.
pub open spec fn row_code(
    st: (Seq<u32>, Seq<u32>),
    grid: BlockGrid,
    d: Seq<u8>,
    s: int,
    slots: Seq<usize>,
    by: nat,
    bx: nat,
) -> (Seq<bool>, (Seq<u32>, Seq<u32>))
    decreases bx,
{
    if bx == 0 {
        (Seq::empty(), st)
    } else {
        let p = row_code(st, grid, d, s, slots, by, (bx - 1) as nat);
        let q = block_code(p.1, d, grid.spec_width() as int, s, slots, grid.spec_rect((bx - 1) as nat, by));
        (p.0 + q.0, q.1)
    }
}

/// The first `by` block rows.
pub open spec fn grid_code(
    st: (Seq<u32>, Seq<u32>),
    grid: BlockGrid,
    d: Seq<u8>,
    s: int,
    slots: Seq<usize>,
    by: nat,
) -> (Seq<bool>, (Seq<u32>, Seq<u32>))
    decreases by,
{
    if by == 0 {
        (Seq::empty(), st)
    } else {
        let p = grid_code(st, grid, d, s, slots, (by - 1) as nat);
        let q = row_code(p.1, grid, d, s, slots, (by - 1) as nat, grid.spec_blocks_x());
        (p.0 + q.0, q.1)
    }
}

/// Everything the context coder writes for plane `d`, from fresh counters.
pub open spec fn context_bits(grid: BlockGrid, d: Seq<u8>, s: int, slots: Seq<usize>) -> Seq<bool> {
    grid_code(crate::context::initial_state(), grid, d, s, slots, grid.spec_blocks_y()).0
}


/// The next sample's code follows the ones before it on the row, and the whole row's code begins
/// with them.
pub proof fn lemma_cols_code_step(
    st: (Seq<u32>, Seq<u32>),
    d: Seq<u8>,
    w: int,
    s: int,
    x0: int,
    y: int,
    c: int,
    k: nat,
    n: nat,
)
    requires
        k < n,
    ensures
        cols_code(st, d, w, s, x0, y, c, k + 1).0 == cols_code(st, d, w, s, x0, y, c, k).0
            + sample_code(cols_code(st, d, w, s, x0, y, c, k).1, d, index_of(w, s, x0 + k, y, c), w, s).0,
        cols_code(st, d, w, s, x0, y, c, k + 1).1 == sample_code(
            cols_code(st, d, w, s, x0, y, c, k).1,
            d,
            index_of(w, s, x0 + k, y, c),
            w,
            s,
        ).1,
        crate::stream::is_prefix(cols_code(st, d, w, s, x0, y, c, k + 1).0, cols_code(st, d, w, s, x0, y, c, n).0),
    decreases n - k,
{
    if k + 1 == n {
        let a = cols_code(st, d, w, s, x0, y, c, n).0;
        assert(a.subrange(0, a.len() as int) =~= a);
    } else {
        lemma_cols_code_step(st, d, w, s, x0, y, c, k + 1, n);
        let a = cols_code(st, d, w, s, x0, y, c, k + 1).0;
        let b = cols_code(st, d, w, s, x0, y, c, k + 2).0;
        crate::stream::lemma_prefix_append(a, b.subrange(a.len() as int, b.len() as int));
        assert(a + b.subrange(a.len() as int, b.len() as int) =~= b);
        crate::stream::lemma_prefix_trans(a, b, cols_code(st, d, w, s, x0, y, c, n).0);
    }
}


/// The next row's code follows the rows before it, and the whole block-channel's code begins with
/// them.
pub proof fn lemma_rows_code_step(
    st: (Seq<u32>, Seq<u32>),
    d: Seq<u8>,
    w: int,
    s: int,
    r: BlockRect,
    c: int,
    k: nat,
    n: nat,
)
    requires
        k < n,
    ensures
        rows_code(st, d, w, s, r, c, k + 1).0 == rows_code(st, d, w, s, r, c, k).0 + cols_code(
            rows_code(st, d, w, s, r, c, k).1,
            d,
            w,
            s,
            r.x as int,
            r.y + k,
            c,
            r.w as nat,
        ).0,
        crate::stream::is_prefix(rows_code(st, d, w, s, r, c, k + 1).0, rows_code(st, d, w, s, r, c, n).0),
    decreases n - k,
{
    if k + 1 == n {
        let a = rows_code(st, d, w, s, r, c, n).0;
        assert(a.subrange(0, a.len() as int) =~= a);
    } else {
        lemma_rows_code_step(st, d, w, s, r, c, k + 1, n);
        let a = rows_code(st, d, w, s, r, c, k + 1).0;
        let b = rows_code(st, d, w, s, r, c, k + 2).0;
        crate::stream::lemma_prefix_append(a, b.subrange(a.len() as int, b.len() as int));
        assert(a + b.subrange(a.len() as int, b.len() as int) =~= b);
        crate::stream::lemma_prefix_trans(a, b, rows_code(st, d, w, s, r, c, n).0);
    }
}


/// The next zero flag follows the ones before it, and all the flags begin with them.
pub proof fn lemma_flags_step(d: Seq<u8>, w: int, s: int, slots: Seq<usize>, r: BlockRect, k: nat, n: nat)
    requires
        k < n,
    ensures
        flags_bits(d, w, s, slots, r, k + 1) == flags_bits(d, w, s, slots, r, k) + bits_of(
            if zero_at(d, w, s, slots, r, k as int) {
                1
            } else {
                0
            },
            1,
        ),
        crate::stream::is_prefix(flags_bits(d, w, s, slots, r, k + 1), flags_bits(d, w, s, slots, r, n)),
    decreases n - k,
{
    if k + 1 == n {
        let a = flags_bits(d, w, s, slots, r, n);
        assert(a.subrange(0, a.len() as int) =~= a);
    } else {
        lemma_flags_step(d, w, s, slots, r, k + 1, n);
        let a = flags_bits(d, w, s, slots, r, k + 1);
        let b = flags_bits(d, w, s, slots, r, k + 2);
        crate::stream::lemma_prefix_append(a, b.subrange(a.len() as int, b.len() as int));
        assert(a + b.subrange(a.len() as int, b.len() as int) =~= b);
        crate::stream::lemma_prefix_trans(a, b, flags_bits(d, w, s, slots, r, n));
    }
}

/// The next coded channel's samples follow the ones before them, and all of them begin with them.
pub proof fn lemma_slots_code_step(
    st: (Seq<u32>, Seq<u32>),
    d: Seq<u8>,
    w: int,
    s: int,
    slots: Seq<usize>,
    r: BlockRect,
    k: nat,
    n: nat,
)
    requires
        k < n,
    ensures
        crate::stream::is_prefix(slots_code(st, d, w, s, slots, r, k + 1).0, slots_code(st, d, w, s, slots, r, n).0),
    decreases n - k,
{
    if k + 1 == n {
        let a = slots_code(st, d, w, s, slots, r, n).0;
        assert(a.subrange(0, a.len() as int) =~= a);
    } else {
        lemma_slots_code_step(st, d, w, s, slots, r, k + 1, n);
        let a = slots_code(st, d, w, s, slots, r, k + 1).0;
        let b = slots_code(st, d, w, s, slots, r, k + 2).0;
        crate::stream::lemma_prefix_append(a, b.subrange(a.len() as int, b.len() as int));
        assert(a + b.subrange(a.len() as int, b.len() as int) =~= b);
        crate::stream::lemma_prefix_trans(a, b, slots_code(st, d, w, s, slots, r, n).0);
    }
}

/// Sample `(col, row)` of a block-channel sits at `row * r.w + col` of its values.
pub proof fn lemma_block_value_at(d: Seq<u8>, w: int, s: int, r: BlockRect, c: int, rows: nat, row: int, col: int)
    requires
        0 <= row < rows,
        0 <= col < r.w,
    ensures
        crate::encode::rows_values(d, w, s, r, c, rows).len() == rows * r.w,
        0 <= row * r.w + col < rows * r.w,
        crate::encode::rows_values(d, w, s, r, c, rows)[row * r.w + col] == d[index_of(w, s, r.x + col, r.y + row, c)],
    decreases rows,
{
    let prev = crate::encode::rows_values(d, w, s, r, c, (rows - 1) as nat);
    lemma_rows_values_len(d, w, s, r, c, (rows - 1) as nat);
    assert((rows - 1) * r.w + r.w == rows * r.w) by (nonlinear_arith);
    assert(0 <= row * r.w + col < rows * r.w) by (nonlinear_arith)
        requires
            0 <= row < rows,
            0 <= col < r.w,
    ;
    if row < rows - 1 {
        lemma_block_value_at(d, w, s, r, c, (rows - 1) as nat, row, col);
    } else {
        assert(row * r.w == prev.len());
    }
}

proof fn lemma_rows_values_len(d: Seq<u8>, w: int, s: int, r: BlockRect, c: int, rows: nat)
    ensures
        crate::encode::rows_values(d, w, s, r, c, rows).len() == rows * r.w,
    decreases rows,
{
    if rows > 0 {
        lemma_rows_values_len(d, w, s, r, c, (rows - 1) as nat);
        assert((rows - 1) * r.w + r.w == rows * r.w) by (nonlinear_arith);
        assert(crate::encode::row_values(d, w, s, r, c, rows - 1).len() == r.w);
    } else {
        assert(rows * r.w == 0) by (nonlinear_arith)
            requires
                rows == 0,
        ;
    }
}

/// With no block columns, every block row codes nothing and leaves the counters alone.
pub proof fn lemma_empty_rows_code(grid: BlockGrid, d: Seq<u8>, s: int, slots: Seq<usize>, by: nat)
    requires
        grid.spec_blocks_x() == 0,
    ensures
        grid_code(crate::context::initial_state(), grid, d, s, slots, by).0
            == Seq::<bool>::empty(),
        grid_code(crate::context::initial_state(), grid, d, s, slots, by).1
            == crate::context::initial_state(),
    decreases by,
{
    if by > 0 {
        lemma_empty_rows_code(grid, d, s, slots, (by - 1) as nat);
        assert(grid_code(crate::context::initial_state(), grid, d, s, slots, by).0
            =~= Seq::<bool>::empty());
    }
}

/// The next block's code follows the blocks before it on the row, and the whole row's code
/// begins with them.
pub proof fn lemma_row_code_step(
    st: (Seq<u32>, Seq<u32>),
    grid: BlockGrid,
    d: Seq<u8>,
    s: int,
    slots: Seq<usize>,
    by: nat,
    k: nat,
    n: nat,
)
    requires
        k < n,
    ensures
        row_code(st, grid, d, s, slots, by, k + 1).0 == row_code(st, grid, d, s, slots, by, k).0
            + block_code(
            row_code(st, grid, d, s, slots, by, k).1,
            d,
            grid.spec_width() as int,
            s,
            slots,
            grid.spec_rect(k, by),
        ).0,
        crate::stream::is_prefix(row_code(st, grid, d, s, slots, by, k + 1).0, row_code(st, grid, d, s, slots, by, n).0),
    decreases n - k,
{
    if k + 1 == n {
        let a = row_code(st, grid, d, s, slots, by, n).0;
        assert(a.subrange(0, a.len() as int) =~= a);
    } else {
        lemma_row_code_step(st, grid, d, s, slots, by, k + 1, n);
        let a = row_code(st, grid, d, s, slots, by, k + 1).0;
        let b = row_code(st, grid, d, s, slots, by, k + 2).0;
        crate::stream::lemma_prefix_append(a, b.subrange(a.len() as int, b.len() as int));
        assert(a + b.subrange(a.len() as int, b.len() as int) =~= b);
        crate::stream::lemma_prefix_trans(a, b, row_code(st, grid, d, s, slots, by, n).0);
    }
}

/// The next block row's code follows the rows before it, and the whole grid's code begins with
/// them.
pub proof fn lemma_grid_code_step(
    st: (Seq<u32>, Seq<u32>),
    grid: BlockGrid,
    d: Seq<u8>,
    s: int,
    slots: Seq<usize>,
    k: nat,
    n: nat,
)
    requires
        k < n,
    ensures
        crate::stream::is_prefix(grid_code(st, grid, d, s, slots, k + 1).0, grid_code(st, grid, d, s, slots, n).0),
    decreases n - k,
{
    if k + 1 == n {
        let a = grid_code(st, grid, d, s, slots, n).0;
        assert(a.subrange(0, a.len() as int) =~= a);
    } else {
        lemma_grid_code_step(st, grid, d, s, slots, k + 1, n);
        let a = grid_code(st, grid, d, s, slots, k + 1).0;
        let b = grid_code(st, grid, d, s, slots, k + 2).0;
        crate::stream::lemma_prefix_append(a, b.subrange(a.len() as int, b.len() as int));
        assert(a + b.subrange(a.len() as int, b.len() as int) =~= b);
        crate::stream::lemma_prefix_trans(a, b, grid_code(st, grid, d, s, slots, n).0);
    }
}


/// What a block coder writes for every block of plane `d`: the context coder's stream, or the
/// blocks of the fixed-width or Rice coder.
pub open spec fn blocks_bits(grid: BlockGrid, d: Seq<u8>, s: int, slots: Seq<usize>, coder: u8) -> Seq<bool> {
    if coder == crate::header::BLOCK_CODER_CONTEXT {
        context_bits(grid, d, s, slots)
    } else {
        crate::encode::grid_bits(grid, d, s, slots, coder, grid.spec_blocks_y())
    }
}

} // verus!
