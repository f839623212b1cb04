//! Facts about the block stream that a reader of it relies on: where each piece sits, and what
//! each field holds.

use crate::alphabet::{bit_length, lemma_bit_length_mono};
use crate::bitio::field;
use crate::bits::{bits_of, lemma_bits_of_len, lemma_bits_val_of};
use crate::predict::{col_of, row_of};
use crate::encode::{index_of, slot_base, slot_residuals, 
    base_of, block_param, block_values, fixed_param, grid_bits, heads_bits, lemma_max_of_ge,
    lemma_min_of_le, max_of, min_of, payload_bits, payloads_bits, rebase, row_bits, row_values,
    rows_values, value_bits,
};
use crate::header::{BLOCK_CODER_FIXED, BLOCK_CODER_RICE};
use crate::rice::{all_zero, best_k, cost_sum, is_best_k, spec_mode, MAX_K};
use crate::block::{BlockGrid, BlockRect};
use vstd::arithmetic::power2::*;
use vstd::arithmetic::div_mod::*;
use vstd::prelude::*;

verus! {

/// `a` is the start of `b`.
pub open spec fn is_prefix<T>(a: Seq<T>, b: Seq<T>) -> bool {
    a.len() <= b.len() && b.subrange(0, a.len() as int) == a
}

/// The bits of `s` from `pos` on begin with `t`.
pub open spec fn bits_at(s: Seq<bool>, pos: nat, t: Seq<bool>) -> bool {
    pos + t.len() <= s.len() && s.subrange(pos as int, pos + t.len() as int) == t
}

pub proof fn lemma_prefix_trans<T>(a: Seq<T>, b: Seq<T>, c: Seq<T>)
    requires
        is_prefix(a, b),
        is_prefix(b, c),
    ensures
        is_prefix(a, c),
{
    assert(c.subrange(0, a.len() as int) =~= b.subrange(0, a.len() as int));
}

pub proof fn lemma_prefix_append<T>(a: Seq<T>, b: Seq<T>)
    ensures
        is_prefix(a, a + b),
{
    assert((a + b).subrange(0, a.len() as int) =~= a);
}

/// A stream that begins with `b` begins with every prefix of `b`.
pub proof fn lemma_bits_at_prefix(s: Seq<bool>, pos: nat, a: Seq<bool>, b: Seq<bool>)
    requires
        bits_at(s, pos, b),
        is_prefix(a, b),
    ensures
        bits_at(s, pos, a),
{
    assert forall|k: int| 0 <= k < a.len() implies #[trigger] s.subrange(pos as int, pos + a.len() as int)[k]
        == a[k] by {
        assert(s.subrange(pos as int, pos + b.len() as int)[k] == b[k]);
        assert(b.subrange(0, a.len() as int)[k] == b[k]);
    }
    assert(s.subrange(pos as int, pos + a.len() as int) =~= a);
}

/// A stream that begins with `a + b` begins with `a`, and `b` follows it.
pub proof fn lemma_bits_at_split(s: Seq<bool>, pos: nat, a: Seq<bool>, b: Seq<bool>)
    requires
        bits_at(s, pos, a + b),
    ensures
        bits_at(s, pos, a),
        bits_at(s, pos + a.len(), b),
{
    lemma_prefix_append(a, b);
    lemma_bits_at_prefix(s, pos, a, a + b);
    assert forall|k: int| 0 <= k < b.len() implies #[trigger] s.subrange(
        pos + a.len() as int,
        pos + a.len() + b.len() as int,
    )[k] == b[k] by {
        assert(s.subrange(pos as int, pos + (a + b).len() as int)[a.len() + k] == (a + b)[a.len() + k]);
    }
    assert(s.subrange(pos + a.len() as int, pos + a.len() + b.len() as int) =~= b);
}

/// A field written as `n` bits of `v` reads back as `v`.
pub proof fn lemma_field_reads(s: Seq<bool>, pos: nat, v: nat, n: nat)
    requires
        bits_at(s, pos, bits_of(v, n)),
        v < pow2(n),
    ensures
        field(s, pos, n) == v,
{
    lemma_bits_of_len(v, n);
    lemma_bits_val_of(v, n);
    lemma_small_mod(v, pow2(n));
}

// ---------------------------------------------------------------------------------------------
// Where each piece of the stream sits
// ---------------------------------------------------------------------------------------------

/// The codes of a prefix of a block's values are a prefix of the block's codes.
pub proof fn lemma_payload_prefix(coder: u8, a: Seq<u8>, b: Seq<u8>, param: nat)
    requires
        is_prefix(a, b),
    ensures
        is_prefix(payload_bits(coder, a, param), payload_bits(coder, b, param)),
    decreases b.len(),
{
    if a.len() == b.len() {
        assert(a =~= b);
        assert(payload_bits(coder, b, param).subrange(0, payload_bits(coder, b, param).len() as int)
            =~= payload_bits(coder, b, param));
    } else {
        assert(is_prefix(a, b.drop_last())) by {
            assert(b.drop_last().subrange(0, a.len() as int) =~= b.subrange(0, a.len() as int));
        }
        lemma_payload_prefix(coder, a, b.drop_last(), param);
        lemma_prefix_append(
            payload_bits(coder, b.drop_last(), param),
            value_bits(coder, b.last(), param),
        );
        lemma_prefix_trans(
            payload_bits(coder, a, param),
            payload_bits(coder, b.drop_last(), param),
            payload_bits(coder, b, param),
        );
    }
}

/// Appending a value appends its code.
pub proof fn lemma_payload_push(coder: u8, a: Seq<u8>, v: u8, param: nat)
    ensures
        payload_bits(coder, a.push(v), param) == payload_bits(coder, a, param) + value_bits(
            coder,
            v,
            param,
        ),
{
    assert(a.push(v).drop_last() =~= a);
}

pub proof fn lemma_heads_prefix(
    d: Seq<u8>,
    w: int,
    stride: int,
    slots: Seq<usize>,
    r: BlockRect,
    coder: u8,
    m: nat,
    n: nat,
)
    requires
        m <= n,
    ensures
        is_prefix(heads_bits(d, w, stride, slots, r, coder, m), heads_bits(d, w, stride, slots, r, coder, n)),
    decreases n,
{
    if m < n {
        lemma_heads_prefix(d, w, stride, slots, r, coder, m, (n - 1) as nat);
        let s = n - 1;
        lemma_prefix_append(
            heads_bits(d, w, stride, slots, r, coder, (n - 1) as nat),
            bits_of(crate::encode::slot_base(d, w, stride, slots, r, s) as nat, 8) + bits_of(
                block_param(coder, crate::encode::slot_residuals(d, w, stride, slots, r, s)),
                4,
            ),
        );
        assert(heads_bits(d, w, stride, slots, r, coder, n) =~= heads_bits(
            d,
            w,
            stride,
            slots,
            r,
            coder,
            (n - 1) as nat,
        ) + (bits_of(crate::encode::slot_base(d, w, stride, slots, r, s) as nat, 8) + bits_of(
            block_param(coder, crate::encode::slot_residuals(d, w, stride, slots, r, s)),
            4,
        )));
        lemma_prefix_trans(
            heads_bits(d, w, stride, slots, r, coder, m),
            heads_bits(d, w, stride, slots, r, coder, (n - 1) as nat),
            heads_bits(d, w, stride, slots, r, coder, n),
        );
    } else {
        lemma_prefix_append(heads_bits(d, w, stride, slots, r, coder, m), Seq::<bool>::empty());
        assert(heads_bits(d, w, stride, slots, r, coder, m) + Seq::<bool>::empty() =~= heads_bits(
            d,
            w,
            stride,
            slots,
            r,
            coder,
            m,
        ));
    }
}

pub proof fn lemma_payloads_prefix(
    d: Seq<u8>,
    w: int,
    stride: int,
    slots: Seq<usize>,
    r: BlockRect,
    coder: u8,
    m: nat,
    n: nat,
)
    requires
        m <= n,
    ensures
        is_prefix(
            payloads_bits(d, w, stride, slots, r, coder, m),
            payloads_bits(d, w, stride, slots, r, coder, n),
        ),
    decreases n,
{
    if m < n {
        lemma_payloads_prefix(d, w, stride, slots, r, coder, m, (n - 1) as nat);
        let res = crate::encode::slot_residuals(d, w, stride, slots, r, n - 1);
        lemma_prefix_append(
            payloads_bits(d, w, stride, slots, r, coder, (n - 1) as nat),
            payload_bits(coder, res, block_param(coder, res)),
        );
        lemma_prefix_trans(
            payloads_bits(d, w, stride, slots, r, coder, m),
            payloads_bits(d, w, stride, slots, r, coder, (n - 1) as nat),
            payloads_bits(d, w, stride, slots, r, coder, n),
        );
    } else {
        assert(payloads_bits(d, w, stride, slots, r, coder, n).subrange(
            0,
            payloads_bits(d, w, stride, slots, r, coder, m).len() as int,
        ) =~= payloads_bits(d, w, stride, slots, r, coder, m));
    }
}

pub proof fn lemma_row_prefix(
    grid: BlockGrid,
    d: Seq<u8>,
    stride: int,
    slots: Seq<usize>,
    coder: u8,
    by: nat,
    m: nat,
    n: nat,
)
    requires
        m <= n,
    ensures
        is_prefix(
            row_bits(grid, d, stride, slots, coder, by, m),
            row_bits(grid, d, stride, slots, coder, by, n),
        ),
    decreases n,
{
    if m < n {
        lemma_row_prefix(grid, d, stride, slots, coder, by, m, (n - 1) as nat);
        lemma_prefix_append(
            row_bits(grid, d, stride, slots, coder, by, (n - 1) as nat),
            crate::encode::block_bits(
                d,
                grid.spec_width() as int,
                stride,
                slots,
                grid.spec_rect((n - 1) as nat, by),
                coder,
            ),
        );
        lemma_prefix_trans(
            row_bits(grid, d, stride, slots, coder, by, m),
            row_bits(grid, d, stride, slots, coder, by, (n - 1) as nat),
            row_bits(grid, d, stride, slots, coder, by, n),
        );
    } else {
        assert(row_bits(grid, d, stride, slots, coder, by, n).subrange(
            0,
            row_bits(grid, d, stride, slots, coder, by, m).len() as int,
        ) =~= row_bits(grid, d, stride, slots, coder, by, m));
    }
}

pub proof fn lemma_grid_prefix(
    grid: BlockGrid,
    d: Seq<u8>,
    stride: int,
    slots: Seq<usize>,
    coder: u8,
    m: nat,
    n: nat,
)
    requires
        m <= n,
    ensures
        is_prefix(grid_bits(grid, d, stride, slots, coder, m), grid_bits(grid, d, stride, slots, coder, n)),
    decreases n,
{
    if m < n {
        lemma_grid_prefix(grid, d, stride, slots, coder, m, (n - 1) as nat);
        lemma_prefix_append(
            grid_bits(grid, d, stride, slots, coder, (n - 1) as nat),
            row_bits(grid, d, stride, slots, coder, (n - 1) as nat, grid.spec_blocks_x()),
        );
        lemma_prefix_trans(
            grid_bits(grid, d, stride, slots, coder, m),
            grid_bits(grid, d, stride, slots, coder, (n - 1) as nat),
            grid_bits(grid, d, stride, slots, coder, n),
        );
    } else {
        assert(grid_bits(grid, d, stride, slots, coder, n).subrange(
            0,
            grid_bits(grid, d, stride, slots, coder, m).len() as int,
        ) =~= grid_bits(grid, d, stride, slots, coder, m));
    }
}

/// The values of a block's first `rows` rows, then part of the next row, are a prefix of the
/// block's values.
pub proof fn lemma_rows_prefix(
    d: Seq<u8>,
    w: int,
    stride: int,
    r: BlockRect,
    c: int,
    rows: nat,
    n: nat,
)
    requires
        rows <= n,
    ensures
        is_prefix(rows_values(d, w, stride, r, c, rows), rows_values(d, w, stride, r, c, n)),
        rows_values(d, w, stride, r, c, n).len() == n * r.w,
    decreases n,
{
    if n > 0 {
        if rows < n {
            lemma_rows_prefix(d, w, stride, r, c, rows, (n - 1) as nat);
            lemma_prefix_append(
                rows_values(d, w, stride, r, c, (n - 1) as nat),
                row_values(d, w, stride, r, c, n - 1),
            );
            lemma_prefix_trans(
                rows_values(d, w, stride, r, c, rows),
                rows_values(d, w, stride, r, c, (n - 1) as nat),
                rows_values(d, w, stride, r, c, n),
            );
        } else {
            lemma_rows_prefix(d, w, stride, r, c, (n - 1) as nat, (n - 1) as nat);
            assert(rows_values(d, w, stride, r, c, n).subrange(
                0,
                rows_values(d, w, stride, r, c, rows).len() as int,
            ) =~= rows_values(d, w, stride, r, c, rows));
        }
        assert(n * r.w == (n - 1) * r.w + r.w) by (nonlinear_arith);
    } else {
        assert(rows_values(d, w, stride, r, c, n).subrange(
            0,
            rows_values(d, w, stride, r, c, rows).len() as int,
        ) =~= rows_values(d, w, stride, r, c, rows));
    }
}

/// The next value of a block after `rows` whole rows and `col` more is sample `(col, rows)` of
/// the block.
pub proof fn lemma_next_value(d: Seq<u8>, w: int, stride: int, r: BlockRect, c: int, row: nat, col: nat)
    requires
        row < r.h,
        col < r.w,
    ensures
        is_prefix(
            rows_values(d, w, stride, r, c, row) + row_values(d, w, stride, r, c, row as int).take(
                col + 1 as int,
            ),
            block_values(d, w, stride, r, c),
        ),
        (rows_values(d, w, stride, r, c, row) + row_values(d, w, stride, r, c, row as int).take(
            col + 1 as int,
        )) == (rows_values(d, w, stride, r, c, row) + row_values(
            d,
            w,
            stride,
            r,
            c,
            row as int,
        ).take(col as int)).push(
            d[crate::encode::index_of(w, stride, r.x + col, r.y + row, c)],
        ),
{
    let head = rows_values(d, w, stride, r, c, row);
    let line = row_values(d, w, stride, r, c, row as int);
    lemma_rows_prefix(d, w, stride, r, c, (row + 1) as nat, r.h as nat);
    assert(rows_values(d, w, stride, r, c, (row + 1) as nat) == head + line);
    let a = head + line.take(col + 1 as int);
    assert(is_prefix(a, head + line)) by {
        assert((head + line).subrange(0, a.len() as int) =~= a);
    }
    lemma_prefix_trans(a, head + line, block_values(d, w, stride, r, c));
    assert(a =~= (head + line.take(col as int)).push(line[col as int]));
}


/// Every sample index names one pixel and channel, and is where that pixel and channel sit.
pub proof fn lemma_index_inverse(w: int, h: int, stride: int, i: int)
    requires
        w > 0,
        stride > 0,
        0 <= i < w * h * stride,
    ensures
        0 <= col_of(i, w, stride) < w,
        0 <= row_of(i, w, stride) < h,
        0 <= i % stride < stride,
        i == index_of(w, stride, col_of(i, w, stride), row_of(i, w, stride), i % stride),
{
    let q = i / stride;
    lemma_fundamental_div_mod(i, stride);
    lemma_fundamental_div_mod(q, w);
    lemma_div_pos_is_pos(i, stride);
    lemma_mod_pos_bound(i, stride);
    lemma_mod_pos_bound(q, w);
    lemma_div_pos_is_pos(q, w);
    assert(q < w * h) by (nonlinear_arith)
        requires
            i == stride * q + i % stride,
            0 <= i % stride,
            i < w * h * stride,
            stride > 0,
    ;
    assert(q / w < h) by (nonlinear_arith)
        requires
            q == w * (q / w) + q % w,
            0 <= q % w,
            q < w * h,
            w > 0,
    ;
    assert(i == ((q / w) * w + q % w) * stride + i % stride) by (nonlinear_arith)
        requires
            i == stride * q + i % stride,
            q == w * (q / w) + q % w,
    ;
}

/// Rebasing keeps prefixes.
pub proof fn lemma_rebase_prefix(a: Seq<u8>, b: Seq<u8>, base: u8)
    requires
        is_prefix(a, b),
    ensures
        is_prefix(rebase(a, base), rebase(b, base)),
{
    assert forall|k: int| 0 <= k < a.len() implies #[trigger] rebase(b, base).subrange(0, a.len() as int)[k]
        == rebase(a, base)[k] by {
        assert(b.subrange(0, a.len() as int)[k] == b[k]);
    }
    assert(rebase(b, base).subrange(0, a.len() as int) =~= rebase(a, base));
}


// ---------------------------------------------------------------------------------------------
// The stream determines what it holds
// ---------------------------------------------------------------------------------------------

/// Codes of two runs of values concatenate as the runs do.
pub proof fn lemma_payload_concat(coder: u8, a: Seq<u8>, b: Seq<u8>, p: nat)
    ensures
        payload_bits(coder, a + b, p) == payload_bits(coder, a, p) + payload_bits(coder, b, p),
    decreases b.len(),
{
    if b.len() == 0 {
        assert(a + b =~= a);
        assert(payload_bits(coder, a, p) + payload_bits(coder, b, p) =~= payload_bits(coder, a, p));
    } else {
        lemma_payload_concat(coder, a, b.drop_last(), p);
        assert((a + b).drop_last() =~= a + b.drop_last());
        assert((a + b).last() == b.last());
        assert(payload_bits(coder, a + b, p) =~= payload_bits(coder, a, p) + payload_bits(
            coder,
            b,
            p,
        ));
    }
}

/// The values a block-channel may hold under its parameter: zeros when the parameter is zero,
/// and under the fixed-width coder values that fit its width.
pub open spec fn values_fit(coder: u8, vals: Seq<u8>, p: nat) -> bool {
    &&& coder == BLOCK_CODER_FIXED || coder == BLOCK_CODER_RICE
    &&& coder == BLOCK_CODER_FIXED ==> p <= 8
    &&& coder == BLOCK_CODER_RICE ==> p <= MAX_K + 1
    &&& forall|t: int| 0 <= t < vals.len() ==> (p == 0 ==> #[trigger] vals[t] == 0)
    &&& forall|t: int|
        0 <= t < vals.len() ==> (coder == BLOCK_CODER_FIXED ==> #[trigger] vals[t] < pow2(p))
}

/// A value's code read at one place names one value.
proof fn lemma_value_unique(coder: u8, v: u8, w: u8, p: nat, s: Seq<bool>, pos: nat)
    requires
        coder == BLOCK_CODER_FIXED || coder == BLOCK_CODER_RICE,
        coder == BLOCK_CODER_FIXED ==> p <= 8 && v < pow2(p) && w < pow2(p),
        coder == BLOCK_CODER_RICE ==> p <= MAX_K + 1,
        p == 0 ==> v == 0 && w == 0,
        bits_at(s, pos, value_bits(coder, v, p)),
        bits_at(s, pos, value_bits(coder, w, p)),
    ensures
        v == w,
{
    if p > 0 {
        if coder == BLOCK_CODER_FIXED {
            lemma_field_reads(s, pos, v as nat, p);
            lemma_field_reads(s, pos, w as nat, p);
        } else {
            crate::rice::lemma_rice_round_trip(s, pos, v as nat, (p - 1) as nat);
            crate::rice::lemma_rice_round_trip(s, pos, w as nat, (p - 1) as nat);
        }
    }
}

/// Two runs of one length whose codes both start at one place are the same run.
pub proof fn lemma_payload_unique(coder: u8, a: Seq<u8>, b: Seq<u8>, p: nat, s: Seq<bool>, pos: nat)
    requires
        a.len() == b.len(),
        values_fit(coder, a, p),
        values_fit(coder, b, p),
        bits_at(s, pos, payload_bits(coder, a, p)),
        bits_at(s, pos, payload_bits(coder, b, p)),
    ensures
        a == b,
    decreases a.len(),
{
    if a.len() > 0 {
        let a0 = a[0];
        let b0 = b[0];
        let ar = a.skip(1);
        let br = b.skip(1);
        assert(a =~= seq![a0] + ar);
        assert(b =~= seq![b0] + br);
        lemma_payload_concat(coder, seq![a0], ar, p);
        lemma_payload_concat(coder, seq![b0], br, p);
        assert(seq![a0].drop_last() =~= Seq::<u8>::empty());
        assert(seq![b0].drop_last() =~= Seq::<u8>::empty());
        assert(seq![a0].last() == a0);
        assert(seq![b0].last() == b0);
        assert(payload_bits(coder, Seq::<u8>::empty(), p) =~= Seq::<bool>::empty());
        assert(payload_bits(coder, seq![a0], p) =~= value_bits(coder, a0, p));
        assert(payload_bits(coder, seq![b0], p) =~= value_bits(coder, b0, p));
        lemma_bits_at_split(s, pos, value_bits(coder, a0, p), payload_bits(coder, ar, p));
        lemma_bits_at_split(s, pos, value_bits(coder, b0, p), payload_bits(coder, br, p));
        assert(a0 == a[0]);
        assert(b0 == b[0]);
        lemma_value_unique(coder, a0, b0, p, s, pos);
        assert(values_fit(coder, ar, p)) by {
            assert forall|t: int| 0 <= t < ar.len() implies ar[t] == a[t + 1] by {}
        }
        assert(values_fit(coder, br, p)) by {
            assert forall|t: int| 0 <= t < br.len() implies br[t] == b[t + 1] by {}
        }
        lemma_payload_unique(coder, ar, br, p, s, pos + value_bits(coder, a0, p).len());
    }
}

/// Two planes whose channel headers both start at one place agree on every base and parameter.
proof fn lemma_heads_unique(
    d: Seq<u8>,
    e: Seq<u8>,
    w: int,
    stride: int,
    slots: Seq<usize>,
    r: BlockRect,
    coder: u8,
    n: nat,
    s: Seq<bool>,
    pos: nat,
)
    requires
        coder == BLOCK_CODER_FIXED || coder == BLOCK_CODER_RICE,
        bits_at(s, pos, heads_bits(d, w, stride, slots, r, coder, n)),
        bits_at(s, pos, heads_bits(e, w, stride, slots, r, coder, n)),
    ensures
        heads_bits(d, w, stride, slots, r, coder, n).len() == 12 * n,
        heads_bits(e, w, stride, slots, r, coder, n).len() == 12 * n,
        forall|k: int|
            0 <= k < n ==> #[trigger] slot_base(d, w, stride, slots, r, k) == slot_base(
                e,
                w,
                stride,
                slots,
                r,
                k,
            ) && block_param(coder, slot_residuals(d, w, stride, slots, r, k)) == block_param(
                coder,
                slot_residuals(e, w, stride, slots, r, k),
            ),
    decreases n,
{
    if n > 0 {
        let m = (n - 1) as nat;
        lemma_heads_prefix(d, w, stride, slots, r, coder, m, n);
        lemma_heads_prefix(e, w, stride, slots, r, coder, m, n);
        lemma_bits_at_prefix(s, pos, heads_bits(d, w, stride, slots, r, coder, m), heads_bits(d, w, stride, slots, r, coder, n));
        lemma_bits_at_prefix(s, pos, heads_bits(e, w, stride, slots, r, coder, m), heads_bits(e, w, stride, slots, r, coder, n));
        lemma_heads_unique(d, e, w, stride, slots, r, coder, m, s, pos);
        let k = m as int;
        let bd = slot_base(d, w, stride, slots, r, k);
        let be = slot_base(e, w, stride, slots, r, k);
        let pd = block_param(coder, slot_residuals(d, w, stride, slots, r, k));
        let pe = block_param(coder, slot_residuals(e, w, stride, slots, r, k));
        let hd = heads_bits(d, w, stride, slots, r, coder, m);
        let he = heads_bits(e, w, stride, slots, r, coder, m);
        lemma_bits_at_split(s, pos, hd + bits_of(bd as nat, 8), bits_of(pd, 4));
        lemma_bits_at_split(s, pos, hd, bits_of(bd as nat, 8));
        lemma_bits_at_split(s, pos, he + bits_of(be as nat, 8), bits_of(pe, 4));
        lemma_bits_at_split(s, pos, he, bits_of(be as nat, 8));
        lemma_bits_of_len(bd as nat, 8);
        lemma_bits_of_len(be as nat, 8);
        lemma_bits_of_len(pd, 4);
        lemma_bits_of_len(pe, 4);
        lemma_block_channel(coder, crate::encode::slot_samples(d, w, stride, slots, r, k));
        lemma_block_channel(coder, crate::encode::slot_samples(e, w, stride, slots, r, k));
        lemma2_to64();
        lemma_field_reads(s, pos + 12 * m, bd as nat, 8);
        lemma_field_reads(s, pos + 12 * m, be as nat, 8);
        lemma_field_reads(s, pos + 12 * m + 8, pd, 4);
        lemma_field_reads(s, pos + 12 * m + 8, pe, 4);
    }
}

/// Two planes whose block codes both start at one place agree on every coded channel of the
/// block, and their codes are equally long.
pub proof fn lemma_block_unique(
    d: Seq<u8>,
    e: Seq<u8>,
    w: int,
    stride: int,
    slots: Seq<usize>,
    r: BlockRect,
    coder: u8,
    s: Seq<bool>,
    pos: nat,
)
    requires
        coder == BLOCK_CODER_FIXED || coder == BLOCK_CODER_RICE,
        bits_at(s, pos, crate::encode::block_bits(d, w, stride, slots, r, coder)),
        bits_at(s, pos, crate::encode::block_bits(e, w, stride, slots, r, coder)),
    ensures
        crate::encode::block_bits(d, w, stride, slots, r, coder).len() == crate::encode::block_bits(
            e,
            w,
            stride,
            slots,
            r,
            coder,
        ).len(),
        forall|k: int|
            0 <= k < slots.len() ==> #[trigger] crate::encode::slot_samples(d, w, stride, slots, r, k)
                == crate::encode::slot_samples(e, w, stride, slots, r, k),
{
    let n = slots.len();
    let hd = heads_bits(d, w, stride, slots, r, coder, n);
    let he = heads_bits(e, w, stride, slots, r, coder, n);
    let pd = payloads_bits(d, w, stride, slots, r, coder, n);
    let pe = payloads_bits(e, w, stride, slots, r, coder, n);
    lemma_bits_at_split(s, pos, hd, pd);
    lemma_bits_at_split(s, pos, he, pe);
    lemma_heads_unique(d, e, w, stride, slots, r, coder, n, s, pos);
    lemma_payloads_unique(d, e, w, stride, slots, r, coder, n, s, pos + 12 * n);
}

proof fn lemma_payloads_unique(
    d: Seq<u8>,
    e: Seq<u8>,
    w: int,
    stride: int,
    slots: Seq<usize>,
    r: BlockRect,
    coder: u8,
    n: nat,
    s: Seq<bool>,
    pos: nat,
)
    requires
        coder == BLOCK_CODER_FIXED || coder == BLOCK_CODER_RICE,
        n <= slots.len(),
        bits_at(s, pos, payloads_bits(d, w, stride, slots, r, coder, n)),
        bits_at(s, pos, payloads_bits(e, w, stride, slots, r, coder, n)),
        forall|k: int|
            0 <= k < n ==> #[trigger] slot_base(d, w, stride, slots, r, k) == slot_base(
                e,
                w,
                stride,
                slots,
                r,
                k,
            ) && block_param(coder, slot_residuals(d, w, stride, slots, r, k)) == block_param(
                coder,
                slot_residuals(e, w, stride, slots, r, k),
            ),
    ensures
        payloads_bits(d, w, stride, slots, r, coder, n).len() == payloads_bits(
            e,
            w,
            stride,
            slots,
            r,
            coder,
            n,
        ).len(),
        forall|k: int|
            0 <= k < n ==> #[trigger] crate::encode::slot_samples(d, w, stride, slots, r, k)
                == crate::encode::slot_samples(e, w, stride, slots, r, k),
    decreases n,
{
    if n > 0 {
        let m = (n - 1) as nat;
        lemma_payloads_prefix(d, w, stride, slots, r, coder, m, n);
        lemma_payloads_prefix(e, w, stride, slots, r, coder, m, n);
        lemma_bits_at_prefix(s, pos, payloads_bits(d, w, stride, slots, r, coder, m), payloads_bits(d, w, stride, slots, r, coder, n));
        lemma_bits_at_prefix(s, pos, payloads_bits(e, w, stride, slots, r, coder, m), payloads_bits(e, w, stride, slots, r, coder, n));
        lemma_payloads_unique(d, e, w, stride, slots, r, coder, m, s, pos);
        let k = m as int;
        let vd = crate::encode::slot_samples(d, w, stride, slots, r, k);
        let ve = crate::encode::slot_samples(e, w, stride, slots, r, k);
        let rd = slot_residuals(d, w, stride, slots, r, k);
        let re = slot_residuals(e, w, stride, slots, r, k);
        let p = block_param(coder, rd);
        assert(slot_base(d, w, stride, slots, r, k) == slot_base(e, w, stride, slots, r, k));
        lemma_bits_at_split(s, pos, payloads_bits(d, w, stride, slots, r, coder, m), payload_bits(coder, rd, p));
        lemma_bits_at_split(s, pos, payloads_bits(e, w, stride, slots, r, coder, m), payload_bits(coder, re, p));
        lemma_block_channel(coder, vd);
        lemma_block_channel(coder, ve);
        lemma_rows_prefix(d, w, stride, r, slots[k] as int, 0, r.h as nat);
        lemma_rows_prefix(e, w, stride, r, slots[k] as int, 0, r.h as nat);
        lemma_payload_unique(coder, rd, re, p, s, pos + payloads_bits(d, w, stride, slots, r, coder, m).len());
        assert forall|t: int| 0 <= t < vd.len() implies vd[t] == ve[t] by {
            assert(rd[t] + slot_base(d, w, stride, slots, r, k) == vd[t]);
            assert(re[t] + slot_base(e, w, stride, slots, r, k) == ve[t]);
        }
        assert(vd =~= ve);
    }
}

/// Two planes whose codes for the first `bx` blocks of block row `by` both start at one place
/// agree on every coded channel of those blocks.
proof fn lemma_row_unique(
    grid: BlockGrid,
    d: Seq<u8>,
    e: Seq<u8>,
    stride: int,
    slots: Seq<usize>,
    coder: u8,
    by: nat,
    bx: nat,
    s: Seq<bool>,
    pos: nat,
)
    requires
        coder == BLOCK_CODER_FIXED || coder == BLOCK_CODER_RICE,
        bits_at(s, pos, row_bits(grid, d, stride, slots, coder, by, bx)),
        bits_at(s, pos, row_bits(grid, e, stride, slots, coder, by, bx)),
    ensures
        row_bits(grid, d, stride, slots, coder, by, bx).len() == row_bits(
            grid,
            e,
            stride,
            slots,
            coder,
            by,
            bx,
        ).len(),
        forall|b: nat, k: int|
            b < bx && 0 <= k < slots.len() ==> #[trigger] crate::encode::slot_samples(
                d,
                grid.spec_width() as int,
                stride,
                slots,
                grid.spec_rect(b, by),
                k,
            ) == crate::encode::slot_samples(
                e,
                grid.spec_width() as int,
                stride,
                slots,
                grid.spec_rect(b, by),
                k,
            ),
    decreases bx,
{
    if bx > 0 {
        let m = (bx - 1) as nat;
        lemma_row_prefix(grid, d, stride, slots, coder, by, m, bx);
        lemma_row_prefix(grid, e, stride, slots, coder, by, m, bx);
        lemma_bits_at_prefix(s, pos, row_bits(grid, d, stride, slots, coder, by, m), row_bits(grid, d, stride, slots, coder, by, bx));
        lemma_bits_at_prefix(s, pos, row_bits(grid, e, stride, slots, coder, by, m), row_bits(grid, e, stride, slots, coder, by, bx));
        lemma_row_unique(grid, d, e, stride, slots, coder, by, m, s, pos);
        let r = grid.spec_rect(m, by);
        let w = grid.spec_width() as int;
        lemma_bits_at_split(s, pos, row_bits(grid, d, stride, slots, coder, by, m), crate::encode::block_bits(d, w, stride, slots, r, coder));
        lemma_bits_at_split(s, pos, row_bits(grid, e, stride, slots, coder, by, m), crate::encode::block_bits(e, w, stride, slots, r, coder));
        lemma_block_unique(d, e, w, stride, slots, r, coder, s, pos + row_bits(grid, d, stride, slots, coder, by, m).len());
    }
}

/// Two planes whose codes for the first `by` block rows both start at one place agree on every
/// coded channel of those rows.
pub proof fn lemma_grid_unique(
    grid: BlockGrid,
    d: Seq<u8>,
    e: Seq<u8>,
    stride: int,
    slots: Seq<usize>,
    coder: u8,
    by: nat,
    s: Seq<bool>,
    pos: nat,
)
    requires
        coder == BLOCK_CODER_FIXED || coder == BLOCK_CODER_RICE,
        bits_at(s, pos, grid_bits(grid, d, stride, slots, coder, by)),
        bits_at(s, pos, grid_bits(grid, e, stride, slots, coder, by)),
    ensures
        grid_bits(grid, d, stride, slots, coder, by).len() == grid_bits(
            grid,
            e,
            stride,
            slots,
            coder,
            by,
        ).len(),
        forall|y: nat, b: nat, k: int|
            y < by && b < grid.spec_blocks_x() && 0 <= k < slots.len()
                ==> #[trigger] crate::encode::slot_samples(
                d,
                grid.spec_width() as int,
                stride,
                slots,
                grid.spec_rect(b, y),
                k,
            ) == crate::encode::slot_samples(
                e,
                grid.spec_width() as int,
                stride,
                slots,
                grid.spec_rect(b, y),
                k,
            ),
    decreases by,
{
    if by > 0 {
        let m = (by - 1) as nat;
        lemma_grid_prefix(grid, d, stride, slots, coder, m, by);
        lemma_grid_prefix(grid, e, stride, slots, coder, m, by);
        lemma_bits_at_prefix(s, pos, grid_bits(grid, d, stride, slots, coder, m), grid_bits(grid, d, stride, slots, coder, by));
        lemma_bits_at_prefix(s, pos, grid_bits(grid, e, stride, slots, coder, m), grid_bits(grid, e, stride, slots, coder, by));
        lemma_grid_unique(grid, d, e, stride, slots, coder, m, s, pos);
        let nx = grid.spec_blocks_x();
        lemma_bits_at_split(s, pos, grid_bits(grid, d, stride, slots, coder, m), row_bits(grid, d, stride, slots, coder, m, nx));
        lemma_bits_at_split(s, pos, grid_bits(grid, e, stride, slots, coder, m), row_bits(grid, e, stride, slots, coder, m, nx));
        lemma_row_unique(grid, d, e, stride, slots, coder, m, nx, s, pos + grid_bits(grid, d, stride, slots, coder, m).len());
    }
}

// ---------------------------------------------------------------------------------------------
// What each field holds
// ---------------------------------------------------------------------------------------------

pub proof fn lemma_bit_length_bounds(v: nat, n: nat)
    requires
        v < pow2(n),
    ensures
        bit_length(v) <= n,
        v < pow2(bit_length(v)),
    decreases v,
{
    lemma2_to64();
    if v > 0 {
        if n == 0 {
            assert(false);
        }
        lemma_pow2_unfold(n);
        lemma_bit_length_bounds(v / 2, (n - 1) as nat);
        lemma_pow2_unfold(bit_length(v));
    }
}

/// The first parameter, up to `j`, that costs least.
spec fn first_cheapest(values: Seq<u8>, j: nat) -> nat
    decreases j,
{
    if j == 0 {
        0
    } else {
        let b = first_cheapest(values, (j - 1) as nat);
        if cost_sum(values, j) < cost_sum(values, b) {
            j
        } else {
            b
        }
    }
}

proof fn lemma_first_cheapest(values: Seq<u8>, j: nat)
    ensures
        first_cheapest(values, j) <= j,
        forall|i: nat| i <= j ==> cost_sum(values, first_cheapest(values, j)) <= #[trigger] cost_sum(values, i),
        forall|i: nat| i < first_cheapest(values, j) ==> cost_sum(values, first_cheapest(values, j)) < #[trigger] cost_sum(values, i),
    decreases j,
{
    if j > 0 {
        lemma_first_cheapest(values, (j - 1) as nat);
    }
}

/// Some parameter costs least, so the Rice mode of a block is in range.
pub proof fn lemma_mode_in_range(values: Seq<u8>)
    ensures
        is_best_k(values, best_k(values)),
        best_k(values) <= MAX_K,
        spec_mode(values) <= MAX_K + 1,
        spec_mode(values) == 0 <==> all_zero(values),
{
    lemma_first_cheapest(values, MAX_K as nat);
    assert(is_best_k(values, first_cheapest(values, MAX_K as nat)));
}

/// What a reader needs of one block-channel: its values sit at least its base, and under each
/// coder its parameter is in range and a zero parameter means an all-zero block.
pub proof fn lemma_block_channel(coder: u8, values: Seq<u8>)
    requires
        coder == BLOCK_CODER_FIXED || coder == BLOCK_CODER_RICE,
    ensures
        ({
            let base = base_of(values);
            let res = rebase(values, base);
            let p = block_param(coder, res);
            &&& forall|t: int| 0 <= t < values.len() ==> base <= #[trigger] values[t]
            &&& forall|t: int| 0 <= t < values.len() ==> #[trigger] res[t] + base == values[t]
            &&& p < 16
            &&& coder == BLOCK_CODER_FIXED ==> p <= 8
            &&& coder == BLOCK_CODER_RICE ==> p <= MAX_K + 1
            &&& p == 0 ==> forall|t: int| 0 <= t < res.len() ==> #[trigger] res[t] == 0
            &&& coder == BLOCK_CODER_FIXED ==> forall|t: int|
                0 <= t < res.len() ==> #[trigger] res[t] < pow2(p)
        }),
{
    let base = base_of(values);
    let res = rebase(values, base);
    if values.len() > 0 {
        lemma_min_of_le(values, 255);
    }
    lemma_max_of_ge(res, 0);
    lemma2_to64();
    lemma_bit_length_bounds(max_of(res, 0) as nat, 8);
    lemma_mode_in_range(res);
    assert forall|t: int| 0 <= t < res.len() implies #[trigger] res[t] < pow2(fixed_param(res)) by {
        lemma_bit_length_mono(res[t] as nat, max_of(res, 0) as nat);
        lemma_bit_length_bounds(res[t] as nat, 8);
        lemma_pow2_strictly_increases(0, 1);
        if bit_length(res[t] as nat) < fixed_param(res) {
            lemma_pow2_strictly_increases(bit_length(res[t] as nat), fixed_param(res));
        }
    }
    if fixed_param(res) == 0 {
        assert forall|t: int| 0 <= t < res.len() implies #[trigger] res[t] == 0 by {
            lemma2_to64();
        }
    }
}

} // verus!
