//! Read a bitstream's structure without reconstructing pixels.

use crate::bitio::BitReader;
use crate::block::{BlockGrid, BlockRect};
use crate::channels::{ascending_below, lemma_coded_list, CodedIndices};
use crate::context::{ContextModel, Plane};
use crate::encode::{
    block_bits, block_param, grid_bits, heads_bits, index_of, payload_bits, payloads_bits,
    plane_ok, row_bits, rows_values, sample_index, slot_base, slot_residuals, slot_samples,
    value_bits,
};
use crate::decode::coder_of;
use crate::stream::{
    lemma_block_channel, lemma_grid_prefix, lemma_heads_prefix, lemma_payload_push,
    lemma_payloads_prefix, lemma_row_prefix,
};
use vstd::arithmetic::div_mod::lemma_fundamental_div_mod_converse;
use crate::error::BrpError;
use crate::header::{
    same_header, fixed_error, le32_at, Header, BLOCK_CODER_CONTEXT, BLOCK_CODER_FIXED, BLOCK_CODER_RICE, WIDTH_CODE_BITS,
    ZERO_BLOCK_BITS,
};
use crate::bits::{bits_of, lemma_bits_of_len};
use crate::file::{body_bits, file_holds, kind_bits, lemma_kind_bits_len, lemma_kind_bits_prefix, unit_count};
use crate::image::required_len;
use crate::stream::{bits_at, lemma_bits_at_prefix, lemma_bits_at_split, lemma_field_reads};
use vstd::arithmetic::power2::lemma2_to64;
use crate::predict::{lemma_index, FilterLayout, FILTER_KINDS, FILTER_KIND_BITS};
use crate::rice;
use vstd::prelude::*;

verus! {

/// One block's coded parameters. Entries are indexed by slot, matching
/// [`Header::coded_indices`], not by image channel.
///
/// Under the context coder a block-channel has neither a base nor a parameter field, so `bases`
/// is zero throughout and `width_codes` carries the escape bit: 1 where every residual in that
/// block-channel is zero.
#[derive(Debug, Clone, PartialEq, Eq)]
pub struct BlockInfo {
    pub rect: BlockRect,
    pub bases: Vec<u8>,
    pub width_codes: Vec<u8>,
    /// How many entries of `bases` and `width_codes` are meaningful.
    pub coded: u8,
}

/// A structural breakdown of a whole file.
#[derive(Debug, Clone, PartialEq, Eq)]
pub struct Analysis {
    pub header: Header,
    pub file_bytes: usize,
    pub header_bytes: usize,
    /// Bits spent on the predictor codes, zero when prediction is off.
    pub filter_bits: u64,
    /// The predictor chosen for each unit, empty when prediction is off.
    pub filter_kinds: Vec<u8>,
    /// Bits spent on per-block channel headers.
    pub block_header_bits: u64,
    /// Bits spent on packed residuals.
    pub payload_bits: u64,
    /// Zero-padding bits in the final byte.
    pub padding_bits: u64,
    /// Bytes past the end of the bitstream, if any.
    pub trailing_bytes: usize,
    /// `histogram[image channel][parameter]`: how often each parameter was used. A width code
    /// under the fixed coder and a Rice mode under Rice, counted once per block; under the
    /// context coder the derived Rice parameter, counted once per sample.
    pub width_code_histogram: Vec<Vec<u64>>,
    pub blocks: Vec<BlockInfo>,
    /// Raw size of the image these bits reconstruct.
    pub raw_bytes: usize,
}

/// Every histogram entry is at most `bound`.
pub open spec fn histogram_within(h: Seq<Vec<u64>>, bound: int) -> bool {
    &&& h.len() == 4
    &&& forall|c: int| 0 <= c < 4 ==> #[trigger] h[c]@.len() == 10
    &&& forall|c: int, p: int| 0 <= c < 4 && 0 <= p < 10 ==> #[trigger] h[c]@[p] <= bound
}

fn new_histogram() -> (h: Vec<Vec<u64>>)
    ensures
        histogram_within(h@, 0),
{
    let mut h: Vec<Vec<u64>> = Vec::new();
    let mut c: usize = 0;
    while c < 4
        invariant
            c <= 4,
            h@.len() == c,
            forall|k: int| 0 <= k < c ==> #[trigger] h@[k]@.len() == 10,
            forall|k: int, p: int| 0 <= k < c && 0 <= p < 10 ==> #[trigger] h@[k]@[p] == 0,
        decreases 4 - c,
    {
        h.push(vec![0u64; 10]);
        c = c + 1;
    }
    h
}

/// Counts one use of `param` on channel `c`.
fn count(h: &mut Vec<Vec<u64>>, c: usize, param: usize, bound: Ghost<int>)
    requires
        histogram_within(old(h)@, bound@),
        c < 4,
        param < 10,
        bound@ + 1 <= u64::MAX,
    ensures
        histogram_within(final(h)@, bound@ + 1),
{
    let mut row = h[c].clone();
    assert(row@ == h@[c as int]@) by {
        assert(row@ =~= h@[c as int]@);
    }
    let v = row[param] + 1;
    row.set(param, v);
    let ghost before = h@;
    h.set(c, row);
    proof {
        assert forall|k: int, p: int| 0 <= k < 4 && 0 <= p < 10 implies #[trigger] h@[k]@[p]
            <= bound@ + 1 by {
            if k != c {
                assert(h@[k] == before[k]);
            }
        }
    }
}

/// What [`analyze`] promises of its result on `bytes`, for a file holding header `h`, predictor
/// codes `kinds` and plane `d`:
/// exactly those predictor codes, and for a fixed-width or Rice stream, one record per block of
/// the grid with the base and parameter each block header carries.
pub open spec fn analysis_reads(bytes: Seq<u8>, r: Result<Analysis, BrpError>) -> bool {
    forall|h: Header, kinds: Seq<u8>, d: Seq<u8>|
        #[trigger] file_holds(bytes, h, kinds, d) ==> (r matches Ok(a) ==> a.filter_kinds@ == kinds
            && (h.plan.spec_coded().len() > 0 && h.block_coder != BLOCK_CODER_CONTEXT ==> blocks_hold(
            a.blocks@,
            crate::file::header_grid(h),
            d,
            h.channels as int,
            h.plan.spec_coded(),
            h.block_coder,
        )))
}

/// Analyzing what the encoder wrote reports what the encoder chose: the predictor code of every
/// unit is the cheapest one for it, and every block record of a fixed-width or Rice stream
/// carries, for each coded channel, the least sample of that channel in the block (after
/// renumbering and prediction) and the parameter the encoder wrote.
pub proof fn lemma_analysis_of_encoded(
    b: Seq<u8>,
    img: crate::image::RawImage,
    opts: crate::encode::EncodeOptions,
    layout: Option<FilterLayout>,
    a: Analysis,
)
    requires
        crate::encode::written_from(b, img, opts, layout),
        analysis_reads(b, Ok::<Analysis, BrpError>(a)),
    ensures
        exists|h: Header, kinds: Seq<u8>, d: Seq<u8>|
            {
                &&& crate::file::encodes(img.spec_data(), opts.channels, h, kinds, d)
                &&& crate::encode::kinds_chosen(h, img.spec_data(), kinds)
                &&& a.filter_kinds@ == kinds
                &&& (h.plan.spec_coded().len() > 0 && h.block_coder != BLOCK_CODER_CONTEXT
                    ==> blocks_hold(
                    a.blocks@,
                    crate::file::header_grid(h),
                    d,
                    h.channels as int,
                    h.plan.spec_coded(),
                    h.block_coder,
                ))
            },
{
    let (h, kinds, d) = choose|h: Header, kinds: Seq<u8>, d: Seq<u8>|
        {
            &&& #[trigger] file_holds(b, h, kinds, d)
            &&& crate::file::encodes(img.spec_data(), opts.channels, h, kinds, d)
            &&& h.width == img.spec_width()
            &&& h.height == img.spec_height()
            &&& h.channels == img.spec_channels()
            &&& (h.block_w, h.block_h) == crate::encode::block_size_of(img, opts)
            &&& h.filter_mode == if h.plan.spec_coded().len() == 0 {
                crate::header::FILTER_MODE_NONE
            } else {
                match layout {
                    Some(l) => l.spec_mode(),
                    None => crate::header::FILTER_MODE_NONE,
                }
            }
            &&& h.block_coder == if h.plan.spec_coded().len() == 0 {
                crate::header::BLOCK_CODER_FIXED
            } else {
                crate::encode::coder_for(opts, crate::file::header_grid(h), d, h.channels as int, h.plan.spec_coded())
            }
            &&& forall|c: int|
                0 <= c < h.channels ==> #[trigger] crate::encode::planned_map(
                    h.alphabet.entries()[c],
                    img.spec_data(),
                    h.channels as nat,
                    c as nat,
                    opts.remap,
                )
            &&& crate::encode::kinds_chosen(h, img.spec_data(), kinds)
        };
    assert(file_holds(b, h, kinds, d));
}

/// Walks a bitstream, recording each block's parameters and skipping the residuals.
///
/// Applies the same validation as [`crate::decode`], so a file that analyzes cleanly also
/// decodes.
#[verifier::spinoff_prover]
#[verifier::rlimit(90)]
pub fn analyze(bytes: &[u8]) -> (r: Result<Analysis, BrpError>)
    requires
        bytes@.len() <= usize::MAX / 8,
    ensures
        match fixed_error(bytes@) {
            Some(e) => r == Err::<Analysis, BrpError>(e),
            None => r matches Ok(a) ==> {
                &&& a.file_bytes == bytes@.len()
                &&& a.header.fields_from(bytes@)
                &&& a.raw_bytes == le32_at(bytes@, 6) * le32_at(bytes@, 10) * bytes@[14]
                &&& a.header_bytes + a.trailing_bytes <= a.file_bytes
                &&& a.filter_bits + a.block_header_bits + a.payload_bits + a.padding_bits == 8 * (
                a.file_bytes - a.header_bytes - a.trailing_bytes)
                &&& a.padding_bits < 8
                &&& forall|k: int| 0 <= k < a.filter_kinds@.len() ==> a.filter_kinds@[k]
                    < FILTER_KINDS
            },
        },
        forall|h: Header, kinds: Seq<u8>, d: Seq<u8>|
            #[trigger] file_holds(bytes@, h, kinds, d) ==> (r matches Ok(a) ==> a.filter_kinds@
                == kinds && (h.plan.spec_coded().len() > 0 && h.block_coder != BLOCK_CODER_CONTEXT
                ==> blocks_hold(
                a.blocks@,
                crate::file::header_grid(h),
                d,
                h.channels as int,
                h.plan.spec_coded(),
                h.block_coder,
            ))),
{
    let ghost held = exists|h: Header, k: Seq<u8>, d: Seq<u8>| file_holds(bytes@, h, k, d);
    let ghost (h0, k0, d0) = choose|h: Header, k: Seq<u8>, d: Seq<u8>| file_holds(bytes@, h, k, d);
    let ghost n0 = h0.spec_bytes().len() as int;
    let ghost rest = bytes@.subrange(n0, bytes@.len() as int);
    proof {
        assert forall|h: Header, k: Seq<u8>, d: Seq<u8>| #[trigger] file_holds(bytes@, h, k, d) implies k
            == k0 by {
            assert(bytes@.subrange(0, bytes@.len() as int) =~= bytes@);
            crate::decode::lemma_file_leads(bytes@, bytes@.len() as int, h, k, d);
            crate::decode::lemma_file_leads(bytes@, bytes@.len() as int, h0, k0, d0);
            crate::decode::lemma_file_unique(bytes@, h0, k0, d0, h, k, d);
        }
        if held {
            assert(bytes@ =~= h0.spec_bytes() + rest);
        }
    }
    let parsed = Header::parse(bytes);
    proof {
        if held {
            crate::header::lemma_parse_recovers(h0, rest, parsed);
        }
    }
    let (header, header_len) = match parsed {
        Ok(h) => h,
        Err(e) => {
            return Err(e);
        },
    };
    proof {
        if held {
            crate::file::lemma_same_header_decodes_alike(header, h0, k0, d0);
        }
    }
    proof {
        lemma_coded_list(header.plan.spec_modes(), header.channels as nat);
    }
    let coded = header.coded_indices();
    let raw_bytes = match required_len(header.width, header.height, header.channels) {
        Ok(n) => n,
        Err(e) => {
            return Err(e);
        },
    };
    let mut blocks: Vec<BlockInfo> = Vec::new();
    let mut histogram = new_histogram();
    let body = vstd::slice::slice_subrange(bytes, header_len, bytes.len());
    // An image of nothing but constant and aliased channels has no block stream to walk.
    let (filter_kinds, filter_bits, block_header_bits, payload_bits, body_bits_used) =
        if coded.is_empty() {
        (Vec::new(), 0, 0, 0, 0)
    } else {
        proof {
            if held {
                assert(body@ =~= rest);
                let p = crate::bits::padded(crate::file::body_bits(header, k0, d0));
                assert(crate::bits::byte_bits(body@).subrange(0, p.len() as int) =~= p);
            }
        }
        match walk_body(
            body,
            &header,
            &coded,
            raw_bytes,
            &mut histogram,
            &mut blocks,
            Ghost(held),
            Ghost(k0),
            Ghost(d0),
        ) {
            Ok(w) => w,
            Err(e) => {
                return Err(e);
            },
        }
    };
    let padding_bits = (8 - (body_bits_used % 8)) % 8;
    let body_bytes_used = (body_bits_used / 8 + if body_bits_used % 8 == 0 {
        0
    } else {
        1
    }) as usize;
    let after_header = bytes.len() - header_len;
    let trailing_bytes = after_header - body_bytes_used;
    proof {
        if held && !(header.plan.spec_coded().len() > 0 && header.block_coder != BLOCK_CODER_CONTEXT) {
            assert(header.plan.spec_coded() == h0.plan.spec_coded());
        }
        assert forall|h: Header, k: Seq<u8>, d: Seq<u8>| #[trigger] file_holds(bytes@, h, k, d) implies k
            == k0 && (h.plan.spec_coded().len() > 0 && h.block_coder != BLOCK_CODER_CONTEXT
            ==> blocks_hold(
            blocks@,
            crate::file::header_grid(h),
            d,
            h.channels as int,
            h.plan.spec_coded(),
            h.block_coder,
        )) by {
            lemma_reading_transfers(bytes@, h0, k0, d0, h, k, d, header, blocks@);
        }
    }
    Ok(
        Analysis {
            header,
            file_bytes: bytes.len(),
            header_bytes: header_len,
            filter_bits,
            filter_kinds,
            block_header_bits,
            payload_bits,
            padding_bits,
            trailing_bytes,
            width_code_histogram: histogram,
            blocks,
            raw_bytes,
        },
    )
}

/// Walks the stream that follows the header: the predictor codes, then the blocks. Returns the
/// predictor kinds, the bits spent on them, on block headers and on payload, and the bits used
/// in all.
fn walk_body(
    body: &[u8],
    header: &Header,
    coded: &CodedIndices,
    raw_bytes: usize,
    histogram: &mut Vec<Vec<u64>>,
    blocks: &mut Vec<BlockInfo>,
    Ghost(good): Ghost<bool>,
    Ghost(kinds_t): Ghost<Seq<u8>>,
    Ghost(d): Ghost<Seq<u8>>,
) -> (r: Result<(Vec<u8>, u64, u64, u64, u64), BrpError>)
    requires
        old(blocks)@.len() == 0,
        header.block_coder <= BLOCK_CODER_CONTEXT,
        good ==> crate::decode::body_ready(*header, body@, kinds_t, d) && d.len() == raw_bytes,
        body@.len() <= usize::MAX / 8,
        header.wf(),
        header.plan.spec_channels() == header.channels,
        1 <= header.channels <= 4,
        header.block_w > 0,
        header.block_h > 0,
        coded.wf(),
        coded.spec_slots() == header.plan.spec_coded(),
        ascending_below(coded.spec_slots(), header.channels as nat),
        raw_bytes == header.width * header.height * header.channels,
        histogram_within(old(histogram)@, 0),
    ensures
        r matches Ok((kinds, fb, hb, pb, used)) ==> {
            &&& fb + hb + pb == used
            &&& used <= 8 * body@.len()
            &&& forall|k: int| 0 <= k < kinds@.len() ==> kinds@[k] < FILTER_KINDS
            &&& good ==> kinds@ == kinds_t
        },
        good && r is Ok && header.block_coder != BLOCK_CODER_CONTEXT ==> blocks_hold(
            final(blocks)@,
            crate::file::header_grid(*header),
            d,
            header.channels as int,
            header.plan.spec_coded(),
            header.block_coder,
        ),
{
    let stride = header.channels as usize;
    let grid = BlockGrid::new(header.width, header.height, header.block_w, header.block_h);
    let mut reader = BitReader::new(body);
    let ghost kb = kind_bits(kinds_t);
    let ghost bb = body_bits(*header, kinds_t, d);
    proof {
        reader.lemma_bits_len();
        lemma_kind_bits_len(kinds_t);
        if good {
            let p = crate::bits::padded(bb);
            assert(bits_at(reader.bits(), 0, p)) by {
                assert(reader.bits().subrange(0, p.len() as int) =~= p);
            }
            crate::stream::lemma_prefix_append(bb, crate::bits::zeros(crate::bits::pad_len(bb.len())));
            lemma_bits_at_prefix(reader.bits(), 0, bb, p);
            crate::stream::lemma_prefix_append(kb, crate::ctx_stream::blocks_bits(
                crate::file::header_grid(*header),
                d,
                header.channels as int,
                header.plan.spec_coded(),
                header.block_coder,
            ));
            lemma_bits_at_prefix(reader.bits(), 0, kb, bb);
        }
    }
    let ghost s0 = reader.bits();
    let mut filter_kinds: Vec<u8> = Vec::new();
    let mut filter_bits: u64 = 0;
    // The predictor codes precede the blocks; skipping them would misalign everything.
    match FilterLayout::from_mode(header.filter_mode) {
        Some(layout) => {
            proof {
                crate::predict::lemma_units_fit(
                    layout,
                    header.width as nat,
                    header.height as nat,
                    stride as nat,
                );
            }
            let units = layout.units(header.width, header.height);
            let mut u: usize = 0;
            while u < units
                invariant
                    reader.wf(),
                    reader.bits().len() == 8 * body@.len(),
                    8 * body@.len() <= usize::MAX,
                    u <= units,
                    filter_kinds@.len() == u,
                    reader.pos() == 3 * u,
                    forall|k: int| 0 <= k < u ==> #[trigger] filter_kinds@[k] < FILTER_KINDS,
                    reader.bits() == s0,
                    units == unit_count(*header),
                    kb == kind_bits(kinds_t),
                    good ==> bits_at(s0, 0, kb) && kinds_t.len() == units,
                    good ==> forall|k: int| 0 <= k < kinds_t.len() ==> #[trigger] kinds_t[k] < FILTER_KINDS,
                    good ==> filter_kinds@ == kinds_t.take(u as int),
                decreases units - u,
            {
                proof {
                    if good {
                        lemma_kind_bits_prefix(kinds_t, u as nat);
                        lemma_bits_at_prefix(s0, 0, kind_bits(kinds_t.take(u as int + 1)), kb);
                        lemma_kind_bits_len(kinds_t.take(u as int));
                        lemma_bits_at_split(
                            s0,
                            0,
                            kind_bits(kinds_t.take(u as int)),
                            bits_of(kinds_t[u as int] as nat, 3),
                        );
                        lemma_bits_of_len(kinds_t[u as int] as nat, 3);
                        lemma2_to64();
                        lemma_field_reads(s0, 3 * u as nat, kinds_t[u as int] as nat, 3);
                    }
                }
                let kind = match reader.read(FILTER_KIND_BITS) {
                    Ok(k) => k,
                    Err(e) => {
                        return Err(e);
                    },
                };
                if kind >= FILTER_KINDS as u32 {
                    return Err(BrpError::InvalidFilterKind(kind as u8));
                }
                filter_kinds.push(kind as u8);
                proof {
                    if good {
                        assert(filter_kinds@ =~= kinds_t.take(u as int + 1));
                    }
                }
                u = u + 1;
            }
            proof {
                if good {
                    assert(kinds_t.take(u as int) =~= kinds_t);
                }
            }
            proof {
                reader.lemma_bits_len();
                assert(reader.pos() == 3 * units);
                assert(units * 3 <= usize::MAX);
            }
            filter_bits = units as u64 * FILTER_KIND_BITS as u64;
        },
        None => {
            proof {
                if good {
                    assert(kinds_t =~= filter_kinds@);
                }
            }
        },
    }
    if raw_bytes as u64 > u64::MAX / 64 {
        return Err(BrpError::DimensionOverflow);
    }
    proof {
        let zeros = Seq::new(raw_bytes as nat, |i: int| 0u8);
        coded.lemma_wf();
        assert(zeros.len() == grid.spec_width() * grid.spec_height() * stride);
        assert forall|s: int| 0 <= s < coded.spec_slots().len() implies coded.spec_slots()[s]
            < stride by {
            assert(coded.spec_slots().contains(coded.spec_slots()[s]));
        }
        assert(plane_ok(zeros, grid, stride as nat, coded.spec_slots()));
        assert(reader.pos() == filter_bits);
        if good {
            let gb = crate::ctx_stream::blocks_bits(
                crate::file::header_grid(*header),
                d,
                header.channels as int,
                header.plan.spec_coded(),
                header.block_coder,
            );
            assert(bb == kb + gb);
            lemma_bits_at_split(s0, 0, kb, gb);
            assert(kb.len() == reader.pos());
            assert(crate::file::header_grid(*header) == grid);
            if header.block_coder != BLOCK_CODER_CONTEXT {
                assert(header.block_coder == coder_of(header.block_coder == BLOCK_CODER_RICE));
            }
        }
    }
    let (block_header_bits, payload_bits) = if header.block_coder == BLOCK_CODER_CONTEXT {
        match walk_context_blocks(
            &mut reader,
            header.width,
            stride,
            raw_bytes,
            coded,
            &grid,
            histogram,
            blocks,
            Ghost(filter_bits as int),
        ) {
            Ok(w) => w,
            Err(e) => {
                return Err(e);
            },
        }
    } else {
        match walk_parametered_blocks(
            &mut reader,
            coded,
            &grid,
            header.block_coder == BLOCK_CODER_RICE,
            histogram,
            blocks,
            Ghost(filter_bits as int),
            Ghost(good),
            Ghost(d),
            Ghost(stride as int),
        ) {
            Ok(w) => w,
            Err(e) => {
                return Err(e);
            },
        }
    };
    match reader.verify_padding() {
        Ok(()) => {},
        Err(e) => {
            return Err(e);
        },
    }
    proof {
        reader.lemma_bits_len();
    }
    Ok((filter_kinds, filter_bits, block_header_bits, payload_bits, reader.bit_pos() as u64))
}

/// What a block's entry in an analysis records of the stream: its rectangle, and for each coded
/// channel the base and the four-bit parameter the block header carries.
pub open spec fn block_holds(
    b: BlockInfo,
    r: BlockRect,
    d: Seq<u8>,
    w: int,
    stride: int,
    slots: Seq<usize>,
    coder: u8,
) -> bool {
    &&& b.rect == r
    &&& b.coded == slots.len()
    &&& b.bases@.len() == slots.len()
    &&& b.width_codes@.len() == slots.len()
    &&& forall|s: int|
        0 <= s < slots.len() ==> #[trigger] b.bases@[s] == slot_base(d, w, stride, slots, r, s)
            && b.width_codes@[s] == block_param(coder, slot_residuals(d, w, stride, slots, r, s))
}

/// The analysis lists every block of the grid in raster order, each as [`block_holds`] says.
pub open spec fn blocks_hold(
    blocks: Seq<BlockInfo>,
    grid: BlockGrid,
    d: Seq<u8>,
    stride: int,
    slots: Seq<usize>,
    coder: u8,
) -> bool {
    let nx = grid.spec_blocks_x() as int;
    &&& blocks.len() == nx * grid.spec_blocks_y()
    &&& forall|k: int|
        0 <= k < blocks.len() ==> block_holds(
            #[trigger] blocks[k],
            grid.spec_rect((k % nx) as nat, (k / nx) as nat),
            d,
            grid.spec_width() as int,
            stride,
            slots,
            coder,
        )
}

/// Planes that agree on every sample of channel `c` agree on the channel's values in a block.
proof fn lemma_rows_agree(
    d1: Seq<u8>,
    d2: Seq<u8>,
    w: int,
    h: int,
    si: int,
    r: BlockRect,
    c: int,
    rows: nat,
)
    requires
        0 <= c < si,
        r.x + r.w <= w,
        r.y + rows <= h,
        d1.len() == w * h * si,
        forall|i: int| 0 <= i < d1.len() && i % si == c ==> #[trigger] d1[i] == d2[i],
    ensures
        rows_values(d1, w, si, r, c, rows) == rows_values(d2, w, si, r, c, rows),
    decreases rows,
{
    if rows > 0 {
        lemma_rows_agree(d1, d2, w, h, si, r, c, (rows - 1) as nat);
        let y = r.y + rows - 1;
        assert forall|col: int| 0 <= col < r.w implies #[trigger] d1[index_of(w, si, r.x + col, y, c)]
            == d2[index_of(w, si, r.x + col, y, c)] by {
            lemma_index(w, h, si, r.x + col, y, c);
        }
        assert(crate::encode::row_values(d1, w, si, r, c, y - r.y) =~= crate::encode::row_values(
            d2,
            w,
            si,
            r,
            c,
            y - r.y,
        ));
    }
}

/// An analysis that holds of one plane holds of any plane that agrees with it on the coded
/// channels.
proof fn lemma_blocks_hold_agree(
    blocks: Seq<BlockInfo>,
    grid: BlockGrid,
    d1: Seq<u8>,
    d2: Seq<u8>,
    si: int,
    slots: Seq<usize>,
    coder: u8,
)
    requires
        grid.wf(),
        si > 0,
        d1.len() == grid.spec_width() * grid.spec_height() * si,
        forall|s: int| 0 <= s < slots.len() ==> slots[s] < si,
        forall|i: int|
            0 <= i < d1.len() && crate::predict::is_coded(slots, i, si) ==> #[trigger] d1[i]
                == d2[i],
        blocks_hold(blocks, grid, d1, si, slots, coder),
    ensures
        blocks_hold(blocks, grid, d2, si, slots, coder),
{
    let nx = grid.spec_blocks_x() as int;
    let ny = grid.spec_blocks_y() as int;
    let w = grid.spec_width() as int;
    let h = grid.spec_height() as int;
    assert forall|k: int| 0 <= k < blocks.len() implies block_holds(
        #[trigger] blocks[k],
        grid.spec_rect((k % nx) as nat, (k / nx) as nat),
        d2,
        w,
        si,
        slots,
        coder,
    ) by {
        assert(block_holds(blocks[k], grid.spec_rect((k % nx) as nat, (k / nx) as nat), d1, w, si, slots, coder));
        assert(nx > 0) by (nonlinear_arith)
            requires
                0 <= k < nx * ny,
                nx >= 0,
                ny >= 0,
        ;
        vstd::arithmetic::div_mod::lemma_fundamental_div_mod(k, nx);
        vstd::arithmetic::div_mod::lemma_mod_pos_bound(k, nx);
        assert(0 <= k / nx < ny) by (nonlinear_arith)
            requires
                0 <= k < nx * ny,
                k == nx * (k / nx) + k % nx,
                0 <= k % nx < nx,
        ;
        let r = grid.spec_rect((k % nx) as nat, (k / nx) as nat);
        crate::encode::lemma_rect_fits(grid, d1, si as nat, (k % nx) as nat, (k / nx) as nat);
        assert forall|s: int| 0 <= s < slots.len() implies #[trigger] slot_samples(d1, w, si, slots, r, s)
            == slot_samples(d2, w, si, slots, r, s) by {
            let c = slots[s] as int;
            assert forall|i: int| 0 <= i < d1.len() && i % si == c implies #[trigger] d1[i] == d2[i] by {
                assert(slots.contains((i % si) as usize));
            }
            lemma_rows_agree(d1, d2, w, h, si, r, c, r.h as nat);
        }
        assert forall|s: int| 0 <= s < slots.len() implies #[trigger] blocks[k].bases@[s] == slot_base(
            d2,
            w,
            si,
            slots,
            r,
            s,
        ) && blocks[k].width_codes@[s] == block_param(coder, slot_residuals(d2, w, si, slots, r, s)) by {
            assert(slot_samples(d1, w, si, slots, r, s) == slot_samples(d2, w, si, slots, r, s));
            assert(blocks[k].bases@[s] == slot_base(d1, w, si, slots, r, s));
            assert(blocks[k].width_codes@[s] == block_param(coder, slot_residuals(d1, w, si, slots, r, s)));
        }
        assert(block_holds(blocks[k], r, d2, w, si, slots, coder));
    }
}

/// Any reading of a file gives what the chosen reading gives: its predictor codes, and the
/// block records hold of its plane.
proof fn lemma_reading_transfers(
    bytes: Seq<u8>,
    h0: Header,
    k0: Seq<u8>,
    d0: Seq<u8>,
    h: Header,
    k: Seq<u8>,
    d: Seq<u8>,
    header: Header,
    blocks: Seq<BlockInfo>,
)
    requires
        file_holds(bytes, h0, k0, d0),
        file_holds(bytes, h, k, d),
        same_header(header, h0),
        h0.plan.spec_coded().len() > 0 && h0.block_coder != BLOCK_CODER_CONTEXT ==> blocks_hold(
            blocks,
            crate::file::header_grid(header),
            d0,
            header.channels as int,
            header.plan.spec_coded(),
            header.block_coder,
        ),
    ensures
        k == k0,
        h.plan.spec_coded().len() > 0 && h.block_coder != BLOCK_CODER_CONTEXT ==> blocks_hold(
            blocks,
            crate::file::header_grid(h),
            d,
            h.channels as int,
            h.plan.spec_coded(),
            h.block_coder,
        ),
{
    assert(bytes.subrange(0, bytes.len() as int) =~= bytes);
    crate::decode::lemma_file_leads(bytes, bytes.len() as int, h, k, d);
    crate::decode::lemma_file_leads(bytes, bytes.len() as int, h0, k0, d0);
    crate::decode::lemma_file_unique(bytes, h0, k0, d0, h, k, d);
    crate::file::lemma_same_header_decodes_alike(h0, h, k, d);
    crate::file::lemma_same_header_decodes_alike(header, h0, k0, d0);
    if h.plan.spec_coded().len() > 0 && h.block_coder != BLOCK_CODER_CONTEXT {
        let n = h0.spec_bytes().len() as int;
        let rest = bytes.subrange(n, bytes.len() as int);
        assert(crate::decode::body_ready(h0, rest, k, d));
        crate::decode::lemma_body_unique(h0, rest, k0, d0, k, d);
        BlockGrid::lemma_spec_new(h.width, h.height, h.block_w, h.block_h);
        lemma_coded_list(h0.plan.spec_modes(), h0.channels as nat);
        let slots = h0.plan.spec_coded();
        assert forall|s: int| 0 <= s < slots.len() implies slots[s] < h0.channels as int by {
            assert(slots.contains(slots[s]));
        }
        assert(crate::file::header_grid(header) == crate::file::header_grid(h));
        lemma_blocks_hold_agree(
            blocks,
            crate::file::header_grid(h),
            d0,
            d,
            h0.channels as int,
            slots,
            h0.block_coder,
        );
    }
}

proof fn lemma_values_len(d: Seq<u8>, w: int, stride: int, r: BlockRect, c: int, rows: nat)
    ensures
        rows_values(d, w, stride, r, c, rows).len() == r.w * rows,
    decreases rows,
{
    if rows > 0 {
        lemma_values_len(d, w, stride, r, c, (rows - 1) as nat);
        assert(r.w * rows == r.w * (rows - 1) + r.w) by (nonlinear_arith);
    }
}

/// A fixed-width payload is its values times the width.
proof fn lemma_fixed_payload_len(values: Seq<u8>, p: nat)
    ensures
        payload_bits(BLOCK_CODER_FIXED, values, p).len() == values.len() * p,
    decreases values.len(),
{
    if values.len() > 0 {
        lemma_fixed_payload_len(values.drop_last(), p);
        lemma_bits_of_len(values.last() as nat, p);
        assert((values.len() - 1) * p + p == values.len() * p) by (nonlinear_arith);
    }
}

/// A Rice payload in mode 0 is empty.
proof fn lemma_empty_rice_payload(values: Seq<u8>)
    ensures
        payload_bits(BLOCK_CODER_RICE, values, 0).len() == 0,
    decreases values.len(),
{
    if values.len() > 0 {
        lemma_empty_rice_payload(values.drop_last());
    }
}

/// Walks one block: its channel headers, then its payloads, recording the headers.
#[verifier::spinoff_prover]
#[verifier::rlimit(60)]
fn walk_block(
    reader: &mut BitReader,
    coded: &CodedIndices,
    rect: BlockRect,
    rice_coded: bool,
    histogram: &mut Vec<Vec<u64>>,
    Ghost(good): Ghost<bool>,
    Ghost(d): Ghost<Seq<u8>>,
    Ghost(w): Ghost<int>,
    Ghost(si): Ghost<int>,
) -> (r: Result<(BlockInfo, u64, u64), BrpError>)
    requires
        old(reader).wf(),
        old(reader).bits().len() <= usize::MAX,
        coded.wf(),
        coded.spec_slots().len() <= 4,
        forall|s: int| 0 <= s < coded.spec_slots().len() ==> coded.spec_slots()[s] < 4,
        histogram_within(old(histogram)@, old(reader).pos() as int),
        good ==> bits_at(
            old(reader).bits(),
            old(reader).pos(),
            block_bits(d, w, si, coded.spec_slots(), rect, coder_of(rice_coded)),
        ),
    ensures
        final(reader).wf(),
        final(reader).bits() == old(reader).bits(),
        histogram_within(final(histogram)@, final(reader).pos() as int),
        r matches Ok((info, hb, pb)) ==> {
            &&& final(reader).pos() == old(reader).pos() + hb + pb
            &&& hb == 12 * coded.spec_slots().len()
            &&& info.rect == rect
            &&& info.coded == coded.spec_slots().len()
        },
        good && r is Ok ==> block_holds(
            r->Ok_0.0,
            rect,
            d,
            w,
            si,
            coded.spec_slots(),
            coder_of(rice_coded),
        ) && final(reader).pos() == old(reader).pos() + block_bits(
            d,
            w,
            si,
            coded.spec_slots(),
            rect,
            coder_of(rice_coded),
        ).len(),
{
    let ghost slots = coded.spec_slots();
    let ghost s0 = reader.bits();
    let ghost p0 = reader.pos();
    let ghost coder = coder_of(rice_coded);
    let ghost heads = heads_bits(d, w, si, slots, rect, coder, slots.len());
    let ghost pays = payloads_bits(d, w, si, slots, rect, coder, slots.len());
    proof {
        reader.lemma_bits_len();
        if good {
            assert(block_bits(d, w, si, slots, rect, coder) == heads + pays);
            lemma_bits_at_split(s0, p0, heads, pays);
        }
    }
    let n = coded.len();
    let mut bases: Vec<u8> = Vec::new();
    let mut codes: Vec<u8> = Vec::new();
    let mut slot: usize = 0;
    while slot < n
        invariant
            reader.wf(),
            reader.bits().len() <= usize::MAX,
            reader.bits() == s0,
            s0 == old(reader).bits(),
            p0 == old(reader).pos(),
            coded.wf(),
            slots == coded.spec_slots(),
            n == slots.len(),
            forall|s: int| 0 <= s < n ==> coded.spec_slots()[s] < 4,
            coder == coder_of(rice_coded),
            heads == heads_bits(d, w, si, slots, rect, coder, slots.len()),
            slot <= n,
            codes@.len() == slot,
            bases@.len() == slot,
            forall|k: int| 0 <= k < slot ==> #[trigger] codes@[k] <= 9,
            forall|k: int| 0 <= k < slot ==> (!rice_coded ==> #[trigger] codes@[k] <= 8),
            reader.pos() == p0 + 12 * slot,
            histogram_within(histogram@, reader.pos() as int),
            good ==> bits_at(s0, p0, heads),
            good ==> reader.pos() == p0 + heads_bits(d, w, si, slots, rect, coder, slot as nat).len(),
            good ==> forall|k: int|
                0 <= k < slot ==> #[trigger] bases@[k] == slot_base(d, w, si, slots, rect, k)
                    && codes@[k] == block_param(coder, slot_residuals(d, w, si, slots, rect, k)),
        decreases n - slot,
    {
        let ghost pos = reader.pos();
        proof {
            reader.lemma_bits_len();
            if good {
                let hb = heads_bits(d, w, si, slots, rect, coder, slot as nat);
                let base_bits = bits_of(slot_base(d, w, si, slots, rect, slot as int) as nat, 8);
                let param_bits = bits_of(
                    block_param(coder, slot_residuals(d, w, si, slots, rect, slot as int)),
                    4,
                );
                lemma_heads_prefix(d, w, si, slots, rect, coder, (slot + 1) as nat, n as nat);
                lemma_bits_at_prefix(
                    s0,
                    p0,
                    heads_bits(d, w, si, slots, rect, coder, (slot + 1) as nat),
                    heads,
                );
                assert(heads_bits(d, w, si, slots, rect, coder, (slot + 1) as nat) == hb + base_bits
                    + param_bits);
                lemma_bits_at_split(s0, p0, hb + base_bits, param_bits);
                lemma_bits_at_split(s0, p0, hb, base_bits);
                lemma_bits_of_len(slot_base(d, w, si, slots, rect, slot as int) as nat, 8);
                lemma_bits_of_len(
                    block_param(coder, slot_residuals(d, w, si, slots, rect, slot as int)),
                    4,
                );
                lemma_block_channel(coder, slot_samples(d, w, si, slots, rect, slot as int));
                lemma2_to64();
                lemma_field_reads(s0, pos, slot_base(d, w, si, slots, rect, slot as int) as nat, 8);
                lemma_field_reads(
                    s0,
                    pos + 8,
                    block_param(coder, slot_residuals(d, w, si, slots, rect, slot as int)),
                    4,
                );
            }
        }
        let base = match reader.read(8) {
            Ok(b) => b,
            Err(e) => {
                return Err(e);
            },
        };
        let param = match reader.read(WIDTH_CODE_BITS) {
            Ok(p) => p,
            Err(e) => {
                return Err(e);
            },
        };
        if rice_coded {
            match rice::parameter_for(param) {
                Ok(_) => {},
                Err(e) => {
                    return Err(e);
                },
            }
        } else if param > 8 {
            return Err(BrpError::InvalidWidthCode(param as u8));
        }
        let ghost bases0 = bases@;
        let ghost codes0 = codes@;
        bases.push(base as u8);
        codes.push(param as u8);
        proof {
            reader.lemma_bits_len();
            if good {
                assert forall|k: int| 0 <= k < slot + 1 implies #[trigger] bases@[k] == slot_base(
                    d,
                    w,
                    si,
                    slots,
                    rect,
                    k,
                ) && codes@[k] == block_param(coder, slot_residuals(d, w, si, slots, rect, k)) by {
                    if k < slot {
                        assert(bases@[k] == bases0[k]);
                        assert(codes@[k] == codes0[k]);
                    }
                }
            }
        }
        count(histogram, coded.channel(slot), param as usize, Ghost(reader.pos() - 1));
        slot = slot + 1;
    }
    proof {
        reader.lemma_bits_len();
    }
    let header_bits = 12 * n as u64;
    let pixels = rect.pixel_count();
    let q_start = reader.bit_pos();
    let mut slot: usize = 0;
    while slot < n
        invariant
            reader.wf(),
            reader.bits().len() <= usize::MAX,
            reader.bits() == s0,
            s0 == old(reader).bits(),
            p0 == old(reader).pos(),
            coded.wf(),
            slots == coded.spec_slots(),
            n == slots.len(),
            coder == coder_of(rice_coded),
            heads == heads_bits(d, w, si, slots, rect, coder, slots.len()),
            pays == payloads_bits(d, w, si, slots, rect, coder, slots.len()),
            pixels == rect.w * rect.h,
            slot <= n,
            codes@.len() == n,
            bases@.len() == n,
            forall|k: int| 0 <= k < n ==> #[trigger] codes@[k] <= 9,
            forall|k: int| 0 <= k < n ==> (!rice_coded ==> #[trigger] codes@[k] <= 8),
            q_start == p0 + 12 * n,
            q_start <= reader.pos(),
            histogram_within(histogram@, reader.pos() as int),
            good ==> bits_at(s0, p0 + heads.len(), pays),
            good ==> q_start == p0 + heads.len(),
            good ==> reader.pos() == p0 + heads.len() + payloads_bits(
                d,
                w,
                si,
                slots,
                rect,
                coder,
                slot as nat,
            ).len(),
            good ==> forall|k: int|
                0 <= k < n ==> #[trigger] bases@[k] == slot_base(d, w, si, slots, rect, k)
                    && codes@[k] == block_param(coder, slot_residuals(d, w, si, slots, rect, k)),
        decreases n - slot,
    {
        let param = codes[slot] as u32;
        let ghost res = slot_residuals(d, w, si, slots, rect, slot as int);
        let ghost q0 = reader.pos();
        proof {
            if good {
                assert(bases@[slot as int] == slot_base(d, w, si, slots, rect, slot as int));
            assert(codes@[slot as int] == block_param(coder, res));
                lemma_payloads_prefix(d, w, si, slots, rect, coder, (slot + 1) as nat, n as nat);
                lemma_bits_at_prefix(
                    s0,
                    p0 + heads.len(),
                    payloads_bits(d, w, si, slots, rect, coder, (slot + 1) as nat),
                    pays,
                );
                lemma_bits_at_split(
                    s0,
                    p0 + heads.len(),
                    payloads_bits(d, w, si, slots, rect, coder, slot as nat),
                    payload_bits(coder, res, param as nat),
                );
                lemma_block_channel(coder, slot_samples(d, w, si, slots, rect, slot as int));
                lemma_values_len(d, w, si, rect, slots[slot as int] as int, rect.h as nat);
                assert(res.len() == pixels);
            }
        }
        if rice_coded {
            if param != 0 {
                let mut t: u64 = 0;
                while t < pixels
                    invariant
                        reader.wf(),
                        reader.bits().len() <= usize::MAX,
                        reader.bits() == s0,
                        s0 == old(reader).bits(),
                        q_start <= q0 <= reader.pos(),
                        1 <= param <= 9,
                        coder == BLOCK_CODER_RICE,
                        t <= pixels,
                        histogram_within(histogram@, q0 as int),
                        good ==> res.len() == pixels,
                        good ==> bits_at(s0, q0, payload_bits(coder, res, param as nat)),
                        good ==> reader.pos() == q0 + payload_bits(coder, res.take(t as int), param as nat).len(),
                    decreases pixels - t,
                {
                    let ghost pos = reader.pos();
                    proof {
                        if good {
                            let a = res.take(t as int);
                            let a1 = res.take(t as int + 1);
                            assert(a1 =~= a.push(res[t as int]));
                            crate::stream::lemma_payload_prefix(coder, a1, res, param as nat);
                            lemma_payload_push(coder, a, res[t as int], param as nat);
                            lemma_bits_at_prefix(s0, q0, payload_bits(coder, a1, param as nat), payload_bits(coder, res, param as nat));
                            lemma_bits_at_split(s0, q0, payload_bits(coder, a, param as nat), value_bits(coder, res[t as int], param as nat));
                            rice::lemma_rice_round_trip(s0, pos, res[t as int] as nat, (param - 1) as nat);
                        }
                    }
                    match rice::read(reader, param - 1) {
                        Ok(_) => {},
                        Err(e) => {
                            return Err(e);
                        },
                    }
                    t = t + 1;
                }
                proof {
                    if good {
                        assert(res.take(pixels as int) =~= res);
                    }
                }
            } else {
                proof {
                    if good {
                        lemma_empty_rice_payload(res);
                    }
                }
            }
        } else {
            // A payload too long to count cannot fit in the stream either.
            let bits = match pixels.checked_mul(param as u64) {
                Some(b) => b,
                None => {
                    return Err(BrpError::UnexpectedEof);
                },
            };
            proof {
                if good {
                    lemma_fixed_payload_len(res, param as nat);
                    assert(pixels * param == res.len() * param);
                }
            }
            match reader.skip(bits) {
                Ok(()) => {},
                Err(e) => {
                    return Err(e);
                },
            }
        }
        proof {
            reader.lemma_bits_len();
            if good {
                assert(payloads_bits(d, w, si, slots, rect, coder, (slot + 1) as nat)
                    == payloads_bits(d, w, si, slots, rect, coder, slot as nat) + payload_bits(
                    coder,
                    res,
                    param as nat,
                ));
            }
        }
        slot = slot + 1;
    }
    proof {
        reader.lemma_bits_len();
    }
    proof {
        if good {
            assert(slots.len() == n);
            assert(payloads_bits(d, w, si, slots, rect, coder, n as nat) == pays);
            assert(block_bits(d, w, si, slots, rect, coder) == heads + pays);
            assert forall|s: int| 0 <= s < slots.len() implies #[trigger] bases@[s] == slot_base(
                d,
                w,
                si,
                slots,
                rect,
                s,
            ) && codes@[s] == block_param(coder, slot_residuals(d, w, si, slots, rect, s)) by {}
        }
    }
    let payload_bits_used = (reader.bit_pos() - q_start) as u64;
    Ok((BlockInfo { rect, bases, width_codes: codes, coded: n as u8 }, header_bits, payload_bits_used))
}

/// Walks the fixed-width and Rice block streams, returning their header and payload bits.
#[verifier::spinoff_prover]
#[verifier::rlimit(60)]
fn walk_parametered_blocks(
    reader: &mut BitReader,
    coded: &CodedIndices,
    grid: &BlockGrid,
    rice_coded: bool,
    histogram: &mut Vec<Vec<u64>>,
    blocks: &mut Vec<BlockInfo>,
    before: Ghost<int>,
    Ghost(good): Ghost<bool>,
    Ghost(d): Ghost<Seq<u8>>,
    Ghost(si): Ghost<int>,
) -> (r: Result<(u64, u64), BrpError>)
    requires
        old(reader).wf(),
        old(reader).bits().len() <= usize::MAX,
        coded.wf(),
        coded.spec_slots().len() <= 4,
        forall|s: int| 0 <= s < coded.spec_slots().len() ==> coded.spec_slots()[s] < 4,
        old(reader).pos() == before@,
        histogram_within(old(histogram)@, before@),
        grid.wf(),
        old(blocks)@.len() == 0,
        good ==> bits_at(
            old(reader).bits(),
            old(reader).pos(),
            grid_bits(*grid, d, si, coded.spec_slots(), coder_of(rice_coded), grid.spec_blocks_y()),
        ),
    ensures
        final(reader).wf(),
        final(reader).bits() == old(reader).bits(),
        r matches Ok((hb, pb)) ==> final(reader).pos() == before@ + hb + pb,
        histogram_within(final(histogram)@, final(reader).pos() as int),
        good && r is Ok ==> blocks_hold(
            final(blocks)@,
            *grid,
            d,
            si,
            coded.spec_slots(),
            coder_of(rice_coded),
        ),
{
    let ghost slots = coded.spec_slots();
    let ghost s0 = reader.bits();
    let ghost p0 = reader.pos();
    let ghost coder = coder_of(rice_coded);
    let ghost gw = grid.spec_width() as int;
    let ghost all = grid_bits(*grid, d, si, slots, coder, grid.spec_blocks_y());
    let n = coded.len();
    let nx = grid.blocks_x();
    let ny = grid.blocks_y();
    let mut header_bits: u64 = 0;
    let mut payload_bits: u64 = 0;
    proof {
        reader.lemma_bits_len();
    }
    let mut by: u32 = 0;
    while by < ny
        invariant
            reader.wf(),
            reader.bits().len() <= usize::MAX,
            reader.bits() == s0,
            s0 == old(reader).bits(),
            p0 == old(reader).pos(),
            before@ == p0,
            coded.wf(),
            slots == coded.spec_slots(),
            n == slots.len(),
            n <= 4,
            forall|s: int| 0 <= s < n ==> coded.spec_slots()[s] < 4,
            grid.wf(),
            coder == coder_of(rice_coded),
            gw == grid.spec_width(),
            all == grid_bits(*grid, d, si, slots, coder, grid.spec_blocks_y()),
            nx == grid.spec_blocks_x(),
            ny == grid.spec_blocks_y(),
            by <= ny,
            reader.pos() == before@ + header_bits + payload_bits,
            histogram_within(histogram@, reader.pos() as int),
            blocks@.len() == by * nx,
            good ==> bits_at(s0, p0, all),
            good ==> reader.pos() == p0 + grid_bits(*grid, d, si, slots, coder, by as nat).len(),
            good ==> forall|k: int|
                0 <= k < blocks@.len() ==> block_holds(
                    #[trigger] blocks@[k],
                    grid.spec_rect((k % nx as int) as nat, (k / nx as int) as nat),
                    d,
                    gw,
                    si,
                    slots,
                    coder,
                ),
        decreases ny - by,
    {
        let ghost rows_before = grid_bits(*grid, d, si, slots, coder, by as nat);
        let ghost this_row = row_bits(*grid, d, si, slots, coder, by as nat, nx as nat);
        proof {
            if good {
                lemma_grid_prefix(*grid, d, si, slots, coder, (by + 1) as nat, ny as nat);
                lemma_bits_at_prefix(s0, p0, grid_bits(*grid, d, si, slots, coder, (by + 1) as nat), all);
                lemma_bits_at_split(s0, p0, rows_before, this_row);
            }
        }
        let mut bx: u32 = 0;
        while bx < nx
            invariant
                reader.wf(),
                reader.bits().len() <= usize::MAX,
                reader.bits() == s0,
                s0 == old(reader).bits(),
                p0 == old(reader).pos(),
                before@ == p0,
                coded.wf(),
                slots == coded.spec_slots(),
                n == slots.len(),
                n <= 4,
                forall|s: int| 0 <= s < n ==> coded.spec_slots()[s] < 4,
                grid.wf(),
                coder == coder_of(rice_coded),
                gw == grid.spec_width(),
                all == grid_bits(*grid, d, si, slots, coder, grid.spec_blocks_y()),
                rows_before == grid_bits(*grid, d, si, slots, coder, by as nat),
                this_row == row_bits(*grid, d, si, slots, coder, by as nat, nx as nat),
                nx == grid.spec_blocks_x(),
                ny == grid.spec_blocks_y(),
                by < ny,
                bx <= nx,
                reader.pos() == before@ + header_bits + payload_bits,
                histogram_within(histogram@, reader.pos() as int),
                blocks@.len() == by * nx + bx,
                good ==> bits_at(s0, p0, all),
                good ==> bits_at(s0, p0 + rows_before.len(), this_row),
                good ==> reader.pos() == p0 + rows_before.len() + row_bits(
                    *grid,
                    d,
                    si,
                    slots,
                    coder,
                    by as nat,
                    bx as nat,
                ).len(),
                good ==> forall|k: int|
                    0 <= k < blocks@.len() ==> block_holds(
                        #[trigger] blocks@[k],
                        grid.spec_rect((k % nx as int) as nat, (k / nx as int) as nat),
                        d,
                        gw,
                        si,
                        slots,
                        coder,
                    ),
            decreases nx - bx,
        {
            let rect = grid.rect(bx, by);
            proof {
                if good {
                    lemma_row_prefix(*grid, d, si, slots, coder, by as nat, (bx + 1) as nat, nx as nat);
                    lemma_bits_at_prefix(
                        s0,
                        p0 + rows_before.len(),
                        row_bits(*grid, d, si, slots, coder, by as nat, (bx + 1) as nat),
                        this_row,
                    );
                    lemma_bits_at_split(
                        s0,
                        p0 + rows_before.len(),
                        row_bits(*grid, d, si, slots, coder, by as nat, bx as nat),
                        block_bits(d, gw, si, slots, rect, coder),
                    );
                }
            }
            let ghost blocks0 = blocks@;
            let (info, hb, pb) = match walk_block(
                reader,
                coded,
                rect,
                rice_coded,
                histogram,
                Ghost(good),
                Ghost(d),
                Ghost(gw),
                Ghost(si),
            ) {
                Ok(w) => w,
                Err(e) => {
                    return Err(e);
                },
            };
            proof {
                reader.lemma_bits_len();
            }
            header_bits = header_bits + hb;
            payload_bits = payload_bits + pb;
            blocks.push(info);
            proof {
                let k_new = by * nx + bx;
                assert(blocks@.len() == k_new + 1);
                lemma_fundamental_div_mod_converse(k_new as int, nx as int, by as int, bx as int);
                if good {
                    assert forall|k: int| 0 <= k < blocks@.len() implies block_holds(
                        #[trigger] blocks@[k],
                        grid.spec_rect((k % nx as int) as nat, (k / nx as int) as nat),
                        d,
                        gw,
                        si,
                        slots,
                        coder,
                    ) by {
                        if k < k_new {
                            assert(blocks@[k] == blocks0[k]);
                        }
                    }
                }
            }
            bx = bx + 1;
        }
        proof {
            assert(blocks@.len() == (by + 1) * nx) by (nonlinear_arith)
                requires
                    blocks@.len() == by * nx + nx,
            ;
        }
        by = by + 1;
    }
    proof {
        assert(blocks@.len() == nx * ny) by (nonlinear_arith)
            requires
                blocks@.len() == by * nx,
                by == ny,
        ;
    }
    Ok((header_bits, payload_bits))
}

/// Walks a context-coded stream, returning its header and payload bits.
///
/// Each code's length depends on the parameter the preceding samples produced, so the walk runs
/// the model, which means reconstructing the residual plane.
fn walk_context_blocks(
    reader: &mut BitReader,
    img_w: u32,
    stride: usize,
    len: usize,
    coded: &CodedIndices,
    grid: &BlockGrid,
    histogram: &mut Vec<Vec<u64>>,
    blocks: &mut Vec<BlockInfo>,
    before: Ghost<int>,
) -> (r: Result<(u64, u64), BrpError>)
    requires
        old(reader).wf(),
        old(reader).bits().len() <= usize::MAX,
        coded.wf(),
        stride <= 4,
        img_w == grid.spec_width(),
        plane_ok(Seq::new(len as nat, |i: int| 0u8), *grid, stride as nat, coded.spec_slots()),
        old(reader).pos() == before@,
        histogram_within(old(histogram)@, before@),
    ensures
        final(reader).wf(),
        final(reader).bits() == old(reader).bits(),
        r matches Ok((hb, pb)) ==> final(reader).pos() == before@ + hb + pb,
        histogram_within(final(histogram)@, final(reader).pos() as int),
{
    let ghost slots = coded.spec_slots();
    let mut residuals: Vec<u8> = vec![0u8; len];
    proof {
        assert(residuals@ =~= Seq::new(len as nat, |i: int| 0u8));
        grid.lemma_wf();
        coded.lemma_wf();
        reader.lemma_bits_len();
    }
    let ghost gh = grid.spec_height();
    let n = coded.len();
    let nx = grid.blocks_x();
    let ny = grid.blocks_y();
    let mut header_bits: u64 = 0;
    let mut payload_bits: u64 = 0;
    if img_w == 0 || ny == 0 {
        return Ok((0, 0));
    }
    proof {
        crate::block::lemma_ceil_div(gh as nat, grid.spec_block_h() as nat);
        assert(gh > 0) by {
            if gh == 0 {
                assert(crate::block::ceil_div(0, grid.spec_block_h() as nat) == 0);
            }
        }
        assert(img_w * stride <= len) by (nonlinear_arith)
            requires
                len == img_w * gh * stride,
                gh > 0,
        ;
    }
    let plane = Plane::new(img_w, stride);
    let mut model = ContextModel::new();
    let mut by: u32 = 0;
    while by < ny
        invariant
            reader.wf(),
            reader.bits().len() <= usize::MAX,
            reader.bits() == old(reader).bits(),
            before@ >= 0,
            coded.wf(),
            plane_ok(residuals@, *grid, stride as nat, slots),
            residuals@.len() == len,
            slots == coded.spec_slots(),
            img_w == grid.spec_width(),
            gh == grid.spec_height(),
            n == slots.len(),
            nx == grid.spec_blocks_x(),
            ny == grid.spec_blocks_y(),
            stride <= 4,
            plane.wf(),
            plane.width == img_w,
            plane.stride == stride,
            model.wf(),
            model.all_within_limits(),
            by <= ny,
            reader.pos() == before@ + header_bits + payload_bits,
            histogram_within(histogram@, reader.pos() as int),
        decreases ny - by,
    {
        let mut bx: u32 = 0;
        while bx < nx
            invariant
                reader.wf(),
                reader.bits().len() <= usize::MAX,
                reader.bits() == old(reader).bits(),
                before@ >= 0,
                coded.wf(),
                plane_ok(residuals@, *grid, stride as nat, slots),
                residuals@.len() == len,
                slots == coded.spec_slots(),
                img_w == grid.spec_width(),
                gh == grid.spec_height(),
                n == slots.len(),
                nx == grid.spec_blocks_x(),
                ny == grid.spec_blocks_y(),
                stride <= 4,
                plane.wf(),
                plane.width == img_w,
                plane.stride == stride,
                model.wf(),
                model.all_within_limits(),
                by < ny,
                bx <= nx,
                reader.pos() == before@ + header_bits + payload_bits,
                histogram_within(histogram@, reader.pos() as int),
            decreases nx - bx,
        {
            let rect = grid.rect(bx, by);
            proof {
                crate::encode::lemma_rect_fits(*grid, residuals@, stride as nat, bx as nat, by as nat);
            }
            let mut codes: Vec<u8> = Vec::new();
            let mut bases: Vec<u8> = Vec::new();
            let mut s: usize = 0;
            while s < n
                invariant
                    reader.wf(),
                    reader.bits().len() <= usize::MAX,
                    reader.bits() == old(reader).bits(),
                    before@ >= 0,
                    s <= n,
                    codes@.len() == s,
                    bases@.len() == s,
                    reader.pos() == before@ + header_bits + payload_bits + s,
                    histogram_within(histogram@, reader.pos() as int),
                decreases n - s,
            {
                let z = match reader.read(ZERO_BLOCK_BITS) {
                    Ok(b) => b,
                    Err(e) => {
                        return Err(e);
                    },
                };
                codes.push(z as u8);
                bases.push(0);
                s = s + 1;
            }
            proof {
                reader.lemma_bits_len();
            }
            header_bits = header_bits + n as u64;
            let mut s: usize = 0;
            while s < n
                invariant
                    reader.wf(),
                    reader.bits().len() <= usize::MAX,
                    reader.bits() == old(reader).bits(),
                    before@ >= 0,
                    coded.wf(),
                    slots == coded.spec_slots(),
                    n == slots.len(),
                    plane_ok(residuals@, *grid, stride as nat, slots),
                    residuals@.len() == len,
                    stride <= 4,
                    plane.wf(),
                    plane.width == img_w,
                    plane.stride == stride,
                    rect.x + rect.w <= img_w,
                    rect.y + rect.h <= gh,
                    index_of(img_w as int, stride as int, 0, rect.y + rect.h, 0) <= len,
                    model.wf(),
                    model.all_within_limits(),
                    codes@.len() == n,
                    s <= n,
                    reader.pos() == before@ + header_bits + payload_bits,
                    histogram_within(histogram@, reader.pos() as int),
                decreases n - s,
            {
                let channel = coded.channel(s);
                if codes[s] != 1 {
                    let start = reader.bit_pos();
                    let mut row: u32 = 0;
                    while row < rect.h
                        invariant
                            reader.wf(),
                            reader.bits().len() <= usize::MAX,
                            reader.bits() == old(reader).bits(),
                            before@ >= 0,
                            plane_ok(residuals@, *grid, stride as nat, slots),
                            residuals@.len() == len,
                            stride <= 4,
                            plane.wf(),
                            plane.width == img_w,
                            plane.stride == stride,
                            channel < stride,
                            rect.x + rect.w <= img_w,
                            rect.y + rect.h <= gh,
                            index_of(img_w as int, stride as int, 0, rect.y + rect.h, 0) <= len,
                            model.wf(),
                            model.all_within_limits(),
                            row <= rect.h,
                            start <= reader.pos(),
                            histogram_within(histogram@, reader.pos() as int),
                        decreases rect.h - row,
                    {
                        let y = rect.y + row;
                        let mut col: u32 = 0;
                        while col < rect.w
                            invariant
                                reader.wf(),
                                reader.bits().len() <= usize::MAX,
                                reader.bits() == old(reader).bits(),
                                before@ >= 0,
                                plane_ok(residuals@, *grid, stride as nat, slots),
                                residuals@.len() == len,
                                stride <= 4,
                                plane.wf(),
                                plane.width == img_w,
                                plane.stride == stride,
                                channel < stride,
                                rect.x + rect.w <= img_w,
                                y < rect.y + rect.h,
                                rect.y + rect.h <= gh,
                                index_of(img_w as int, stride as int, 0, rect.y + rect.h, 0)
                                    <= len,
                                model.wf(),
                                model.all_within_limits(),
                                col <= rect.w,
                                start <= reader.pos(),
                                histogram_within(histogram@, reader.pos() as int),
                            decreases rect.w - col,
                        {
                            let x = rect.x + col;
                            proof {
                                lemma_index(
                                    img_w as int,
                                    (rect.y + rect.h) as int,
                                    stride as int,
                                    x as int,
                                    y as int,
                                    channel as int,
                                );
                                assert(img_w * (rect.y + rect.h) * stride == index_of(
                                    img_w as int,
                                    stride as int,
                                    0,
                                    rect.y + rect.h,
                                    0,
                                )) by (nonlinear_arith);
                            }
                            let context = plane.context(residuals.as_slice(), x, y, channel);
                            let k = model.parameter(context);
                            let ghost pos0 = reader.pos();
                            let v = match rice::read(reader, k) {
                                Ok(v) => v,
                                Err(e) => {
                                    return Err(e);
                                },
                            };
                            proof {
                                reader.lemma_bits_len();
                                assert(reader.pos() > pos0);
                            }
                            count(histogram, channel, k as usize, Ghost(reader.pos() - 1));
                            proof {
                                assert(model.within_limits(context as int));
                            }
                            model.update(context, v);
                            let i = sample_index(img_w, stride, x, y, channel);
                            residuals.set(i, v as u8);
                            col = col + 1;
                        }
                        row = row + 1;
                    }
                    proof {
                        reader.lemma_bits_len();
                    }
                    payload_bits = payload_bits + (reader.bit_pos() - start) as u64;
                }
                s = s + 1;
            }
            blocks.push(BlockInfo { rect, bases, width_codes: codes, coded: n as u8 });
            bx = bx + 1;
        }
        by = by + 1;
    }
    Ok((header_bits, payload_bits))
}

} // verus!
